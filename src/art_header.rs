//! The global header of a sprite image.
use vstd::prelude::*;

use crate::art::ArtError;
use crate::bytes::{read_u32, u32_at};
use crate::color::{colors_at, is_active, Color, ColorPalette};

verus! {

/// Bytes taken by the global header.
pub const HEADER_SIZE: usize = 132;

/// The global header: three opaque words, four representative colours (each
/// one in use announces a colour table), the frame numbers and three embedded
/// palettes.
#[derive(Clone, Debug)]
pub struct ArtHeader {
    pub h0: [u32; 3],
    pub representative_colors: [Color; 4],
    pub frame_num_low: u32,
    pub frame_num: u32,
    pub palette_data1: ColorPalette,
    pub palette_data2: ColorPalette,
    pub palette_data3: ColorPalette,
}

/// Whether `h` is the header stored at the start of `s`.
pub open spec fn header_at_start(h: ArtHeader, s: Seq<u8>) -> bool {
    &&& h.h0@ == seq![u32_at(s, 0), u32_at(s, 4), u32_at(s, 8)]
    &&& h.representative_colors@ == colors_at(s, 12, 4)
    &&& h.frame_num_low == u32_at(s, 28)
    &&& h.frame_num == u32_at(s, 32)
    &&& h.palette_data1@ == colors_at(s, 36, 8)
    &&& h.palette_data2@ == colors_at(s, 68, 8)
    &&& h.palette_data3@ == colors_at(s, 100, 8)
}

/// An image is animated when the lowest bit of its first header word is clear.
pub open spec fn is_animated(h: ArtHeader) -> bool {
    h.h0@[0] % 2 == 0
}

/// Number of frames: eight per frame number for an animated image.
pub open spec fn frame_count(h: ArtHeader) -> nat {
    if is_animated(h) {
        (8 * h.frame_num) as nat
    } else {
        h.frame_num as nat
    }
}

/// 1 for a colour in use, else 0.
pub open spec fn active_bit(c: Color) -> nat {
    if is_active(c) {
        1
    } else {
        0
    }
}

/// Number of representative colours in use, which is the number of colour
/// tables that follow the header.
pub open spec fn table_count(h: ArtHeader) -> nat {
    let c = h.representative_colors@;
    active_bit(c[0]) + active_bit(c[1]) + active_bit(c[2]) + active_bit(c[3])
}

impl ArtHeader {
    /// Reads the global header at the start of `buf`.
    pub fn from_buffer(buf: &[u8]) -> (r: Result<ArtHeader, ArtError>)
        ensures
            buf@.len() >= 132 ==> (r matches Ok(h) && header_at_start(h, buf@)),
            buf@.len() < 132 ==> r == Err::<ArtHeader, ArtError>(ArtError::Slice),
    {
        if buf.len() < HEADER_SIZE {
            return Err(ArtError::Slice);
        }
        let h1 = read_u32(buf, 0).unwrap();
        let h2 = read_u32(buf, 4).unwrap();
        let h3 = read_u32(buf, 8).unwrap();
        let c0 = Color::from_buffer(buf, 12)?;
        let c1 = Color::from_buffer(buf, 16)?;
        let c2 = Color::from_buffer(buf, 20)?;
        let c3 = Color::from_buffer(buf, 24)?;
        let frame_num_low = read_u32(buf, 28).unwrap();
        let frame_num = read_u32(buf, 32).unwrap();
        let palette_data1 = ColorPalette::from_buffer(buf, 36)?;
        let palette_data2 = ColorPalette::from_buffer(buf, 68)?;
        let palette_data3 = ColorPalette::from_buffer(buf, 100)?;
        let h = ArtHeader {
            h0: [h1, h2, h3],
            representative_colors: [c0, c1, c2, c3],
            frame_num_low,
            frame_num,
            palette_data1,
            palette_data2,
            palette_data3,
        };
        assert(h.h0@ =~= seq![u32_at(buf@, 0), u32_at(buf@, 4), u32_at(buf@, 8)]);
        assert(h.representative_colors@ =~= colors_at(buf@, 12, 4));
        Ok(h)
    }

    /// Whether the image is animated.
    pub fn animated(&self) -> (r: bool)
        ensures
            r == is_animated(*self),
    {
        let w = self.h0[0];
        assert((w & 1 == 0) == (w % 2 == 0)) by (bit_vector);
        w & 1 == 0
    }

    /// Number of frames the image holds.
    pub fn frames(&self) -> (r: u64)
        ensures
            r == frame_count(*self),
    {
        if self.animated() {
            self.frame_num as u64 * 8
        } else {
            self.frame_num as u64
        }
    }

    /// Number of colour tables that follow the header.
    pub fn color_tables(&self) -> (r: usize)
        ensures
            r == table_count(*self),
    {
        let mut n: usize = 0;
        if self.representative_colors[0].in_palette() {
            n += 1;
        }
        if self.representative_colors[1].in_palette() {
            n += 1;
        }
        if self.representative_colors[2].in_palette() {
            n += 1;
        }
        if self.representative_colors[3].in_palette() {
            n += 1;
        }
        n
    }
}

} // verus!
