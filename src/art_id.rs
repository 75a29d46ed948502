//! Packed identifiers of sprite images.
use vstd::prelude::*;

verus! {

/// A packed image identifier: the image type in the top four bits, then
/// fields that depend on the type.
pub type TigArtId = u32;

/// Bit position of the image type in an identifier.
pub const ART_ID_TYPE_SHIFT: u32 = 28;

/// Image type of interface images.
pub const ART_TYPE_INTERFACE: u32 = 5;

/// Interface image numbers are taken modulo this bound.
pub const INTERFACE_ID_MAX_NUM: u32 = 4096;

/// Bit position of the image number in an interface identifier.
pub const INTERFACE_ID_NUM_SHIFT: u32 = 16;

/// The identifier of interface image `num`: the interface type in the top
/// four bits and `num` modulo 4096 in bits 16 to 27. The frame, the flag byte
/// and the palette do not take part in interface identifiers.
pub fn art_id_create(num: u32, frame: u32, a3: u8, palette: u32) -> (r: Result<TigArtId, ()>)
    ensures
        r == Ok::<TigArtId, ()>((ART_TYPE_INTERFACE * 0x1000_0000 + (num % 4096) * 0x1_0000) as u32),
{
    let low = num & (INTERFACE_ID_MAX_NUM - 1);
    assert(num & 4095 == num % 4096) by (bit_vector);
    assert(low < 4096);
    let id = (ART_TYPE_INTERFACE << ART_ID_TYPE_SHIFT) | (low << INTERFACE_ID_NUM_SHIFT);
    assert(((5u32 << 28u32) | (low << 16u32)) == 5 * 0x1000_0000 + low * 0x1_0000) by (bit_vector)
        requires
            low < 4096,
    ;
    Ok(id)
}

/// The image type of an identifier: its top four bits.
pub fn art_type(art_id: TigArtId) -> (r: u32)
    ensures
        r == art_id / 0x1000_0000,
{
    assert(art_id >> 28u32 == art_id / 0x1000_0000) by (bit_vector);
    art_id >> ART_ID_TYPE_SHIFT
}

} // verus!
