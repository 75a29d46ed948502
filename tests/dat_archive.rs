use rustcarnum::dat::{
    entry_type_from_code, Dat, DatEntry, DatEntryError, DatEntryType, DatError, DatFooter,
    DatFooterError,
};
use rustcarnum::state::{AppState, VideoState};

fn push_u32(out: &mut Vec<u8>, v: u32) {
    out.extend_from_slice(&v.to_le_bytes());
}

fn entry_bytes(out: &mut Vec<u8>, name: &str, code: u32, original: u32, deflate: u32, offset: u32) {
    out.extend_from_slice(name.as_bytes());
    out.push(0);
    push_u32(out, 0xAB);
    push_u32(out, code);
    push_u32(out, original);
    push_u32(out, deflate);
    push_u32(out, offset);
    push_u32(out, 0xCD);
}

fn adler32(data: &[u8]) -> u32 {
    let (mut a, mut b) = (1u32, 0u32);
    for &x in data {
        a = (a + x as u32) % 65521;
        b = (b + a) % 65521;
    }
    (b << 16) | a
}

/// A zlib stream holding `data` in one stored deflate block.
fn zlib_stored(data: &[u8]) -> Vec<u8> {
    let mut out = vec![0x78, 0x01, 0x01];
    let len = data.len() as u16;
    out.extend_from_slice(&len.to_le_bytes());
    out.extend_from_slice(&(!len).to_le_bytes());
    out.extend_from_slice(data);
    out.extend_from_slice(&adler32(data).to_be_bytes());
    out
}

fn footer_bytes(out: &mut Vec<u8>, dir_start: usize, names: u32) {
    let total = out.len() + 28;
    out.extend_from_slice(&[7u8; 16]);
    out.extend_from_slice(b"1TAD");
    push_u32(out, names);
    push_u32(out, (total - dir_start) as u32);
}

const STORED: &[u8] = b"hello world";
const INFLATED: &[u8] = b"inflate me, please";

/// Stored bytes, a zlib stream, then a directory of three entries and a footer.
fn sample_dat() -> Vec<u8> {
    let mut out = Vec::new();
    out.extend_from_slice(STORED);
    let z = zlib_stored(INFLATED);
    let z_at = out.len() as u32;
    out.extend_from_slice(&z);
    let dir = out.len();
    push_u32(&mut out, 3);
    push_u32(&mut out, 0);
    entry_bytes(&mut out, "art", 0x0400, 99, 98, 97);
    entry_bytes(&mut out, "art\\hello.txt", 0x01, STORED.len() as u32, 0, 0);
    entry_bytes(&mut out, "art\\z.bin", 0x02, INFLATED.len() as u32, z.len() as u32, z_at);
    footer_bytes(&mut out, dir, 25);
    out
}

#[test]
fn footer_fields_are_read() {
    let dat = sample_dat();
    let f = DatFooter::from_buffer(&dat[dat.len() - 28..]).unwrap();
    assert_eq!(f.uuid, [7u8; 16]);
    assert_eq!(f.magic, "1TAD");
    assert_eq!(f.filename_total_bytes, 25);
    assert_eq!(f.dat_entry_start_from_end, dat.len() - (STORED.len() + zlib_stored(INFLATED).len()));
}

#[test]
fn footer_of_wrong_length_is_refused() {
    let dat = sample_dat();
    assert_eq!(DatFooter::from_buffer(&dat[dat.len() - 27..]).unwrap_err(), DatFooterError::InvalidLength);
    assert_eq!(DatFooter::from_buffer(&dat[dat.len() - 29..]).unwrap_err(), DatFooterError::InvalidLength);
}

#[test]
fn footer_magic_must_be_text() {
    let mut footer = vec![0u8; 28];
    footer[16] = 0xFF;
    assert_eq!(DatFooter::from_buffer(&footer).unwrap_err(), DatFooterError::Utf8Error);
}

#[test]
fn entry_fields_are_read() {
    let mut buf = vec![1, 2];
    entry_bytes(&mut buf, "art\\é.txt", 0x02, 10, 20, 30);
    let e = DatEntry::from_buffer(&buf, 2).unwrap();
    assert_eq!(e.filename, "art\\é.txt");
    assert_eq!(e.unk_value, 0xAB);
    assert_eq!(e.entry_type, DatEntryType::Compressed);
    assert_eq!((e.original_size, e.deflate_size, e.offset), (10, 20, 30));
    assert_eq!(e.mystery_number, 0xCD);
    assert_eq!(e.len(), "art\\é.txt".len() + 25);
    assert_eq!(e.len(), buf.len() - 2);
}

#[test]
fn entry_errors() {
    assert_eq!(DatEntry::from_buffer(b"abc", 0).unwrap_err(), DatEntryError::NoFilenameEnd);
    let mut buf = Vec::new();
    entry_bytes(&mut buf, "a", 0x03, 0, 0, 0);
    assert_eq!(DatEntry::from_buffer(&buf, 0).unwrap_err(), DatEntryError::NoValidDatEntryType);
    assert_eq!(DatEntry::from_buffer(&buf[..buf.len() - 1], 0).unwrap_err(), DatEntryError::SliceConversion);
    let bad = [0xC3u8, 0x28, 0];
    assert_eq!(DatEntry::from_buffer(&bad, 0).unwrap_err(), DatEntryError::FilenameNotUtf8);
}

#[test]
fn type_codes() {
    assert_eq!(entry_type_from_code(0x01), Some(DatEntryType::Stored));
    assert_eq!(entry_type_from_code(0x02), Some(DatEntryType::Compressed));
    assert_eq!(entry_type_from_code(0x0400), Some(DatEntryType::Directory));
    assert_eq!(entry_type_from_code(0x04), None);
}

#[test]
fn archive_lists_entries_in_order() {
    let dat = Dat::from_buffer(&sample_dat()).unwrap();
    let names: Vec<&str> = dat.entries().iter().map(|e| e.filename.as_str()).collect();
    assert_eq!(names, vec!["art", "art\\hello.txt", "art\\z.bin"]);
}

#[test]
fn directory_entry_has_no_bytes() {
    let dat = Dat::from_buffer(&sample_dat()).unwrap();
    let e = dat.get("art").unwrap();
    assert_eq!(e.entry_type, DatEntryType::Directory);
    assert_eq!(dat.bytes(e).unwrap(), Vec::<u8>::new());
}

#[test]
fn stored_entry_bytes_are_the_raw_slice() {
    let raw = sample_dat();
    let dat = Dat::from_buffer(&raw).unwrap();
    let e = dat.get("art\\hello.txt").unwrap();
    assert_eq!(e.entry_type, DatEntryType::Stored);
    assert_eq!(dat.bytes(e).unwrap(), raw[e.offset..e.offset + e.original_size].to_vec());
    assert_eq!(dat.bytes(e).unwrap(), STORED.to_vec());
}

#[test]
fn compressed_entry_is_inflated() {
    let dat = Dat::from_buffer(&sample_dat()).unwrap();
    let e = dat.get_fn(|name: &String| name.ends_with(".bin")).unwrap();
    assert_eq!(e.entry_type, DatEntryType::Compressed);
    let bytes = dat.bytes(e).unwrap();
    assert_eq!(bytes, INFLATED.to_vec());
    assert_eq!(bytes.len(), e.original_size);
}

#[test]
fn corrupt_stream_fails_to_inflate() {
    let dat = Dat::from_buffer(&sample_dat()).unwrap();
    let mut e = dat.get("art\\z.bin").unwrap().clone();
    e.offset = 0;
    assert_eq!(dat.bytes(&e).unwrap_err(), DatError::Decompression);
    e.deflate_size = 3;
    assert_eq!(dat.bytes(&e).unwrap_err(), DatError::Decompression);
}

#[test]
fn entry_bytes_beyond_archive_are_refused() {
    let raw = sample_dat();
    let dat = Dat::from_buffer(&raw).unwrap();
    let mut e = dat.get("art\\hello.txt").unwrap().clone();
    e.offset = raw.len() - 2;
    assert_eq!(dat.bytes(&e).unwrap_err(), DatError::Slice);
}

#[test]
fn lookups_miss_cleanly() {
    let mut dat = Dat::from_buffer(&sample_dat()).unwrap();
    assert!(dat.get("nope").is_none());
    assert!(dat.get_fn(|n: &String| n.is_empty()).is_none());
    assert_eq!(dat.pop().unwrap().filename, "art\\z.bin");
    assert_eq!(dat.entries().len(), 2);
    assert!(dat.get("art\\z.bin").is_none());
}

#[test]
fn entries_fill_the_directory() {
    let raw = sample_dat();
    let dat = Dat::from_buffer(&raw).unwrap();
    let footer = DatFooter::from_buffer(&raw[raw.len() - 28..]).unwrap();
    let total: usize = dat.entries().iter().map(|e| e.len()).sum();
    assert_eq!(total, footer.dat_entry_start_from_end - 8 - 28);
}

#[test]
fn decoding_archive_twice_gives_equal_entries() {
    let raw = sample_dat();
    let a = Dat::from_buffer(&raw).unwrap();
    let b = Dat::from_buffer(&raw).unwrap();
    assert_eq!(a.entries().len(), b.entries().len());
    for (x, y) in a.entries().iter().zip(b.entries().iter()) {
        assert_eq!(x.filename, y.filename);
        assert_eq!(x.entry_type, y.entry_type);
        assert_eq!((x.original_size, x.deflate_size, x.offset), (y.original_size, y.deflate_size, y.offset));
        assert_eq!(a.bytes(x).unwrap(), b.bytes(y).unwrap());
    }
}

#[test]
fn archive_errors() {
    assert_eq!(Dat::from_buffer(&[0u8; 27]).unwrap_err(), DatError::InvalidLength);
    let mut raw = vec![0u8; 28];
    raw[24..28].copy_from_slice(&100u32.to_le_bytes());
    assert_eq!(Dat::from_buffer(&raw).unwrap_err(), DatError::Slice);
    let mut raw = vec![0u8; 28];
    raw[16] = 0xFF;
    assert_eq!(Dat::from_buffer(&raw).unwrap_err(), DatError::Utf8);
    let mut bad = Vec::new();
    push_u32(&mut bad, 1);
    push_u32(&mut bad, 0);
    entry_bytes(&mut bad, "x", 0x09, 0, 0, 0);
    footer_bytes(&mut bad, 0, 1);
    assert_eq!(Dat::from_buffer(&bad).unwrap_err(), DatError::NoValidDatEntryType);
}

#[test]
fn empty_directory_has_no_entries() {
    let mut raw = Vec::new();
    push_u32(&mut raw, 0);
    push_u32(&mut raw, 0);
    footer_bytes(&mut raw, 0, 0);
    let dat = Dat::from_buffer(&raw).unwrap();
    assert!(dat.entries().is_empty());
}

#[test]
fn app_states() {
    assert_eq!(AppState::first_video(), AppState::Video(VideoState::Sierra));
    assert_eq!(AppState::teaser_video(), AppState::Video(VideoState::Teaser));
    assert_eq!(AppState::default(), AppState::Preload);
}
