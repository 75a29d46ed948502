use rustcarnum::art::{Art, ArtError, AtlasRect};
use rustcarnum::art_frame::{decode_pixels, ArtFrame, ArtFrameHeader};
use rustcarnum::art_header::ArtHeader;
use rustcarnum::art_id::{art_id_create, art_type, ART_TYPE_INTERFACE};
use rustcarnum::bytes::{read_i32, read_u32};
use rustcarnum::color::{in_palette, Color, ColorPalette, ColorTable};

fn push_u32(out: &mut Vec<u8>, v: u32) {
    out.extend_from_slice(&v.to_le_bytes());
}

fn header_bytes(h0: u32, colors: [[u8; 4]; 4], frame_num: u32) -> Vec<u8> {
    let mut out = Vec::new();
    push_u32(&mut out, h0);
    push_u32(&mut out, 0x11);
    push_u32(&mut out, 0x22);
    for c in colors.iter() {
        out.extend_from_slice(c);
    }
    push_u32(&mut out, 7);
    push_u32(&mut out, frame_num);
    for i in 0..96u32 {
        out.push(i as u8);
    }
    assert_eq!(out.len(), 132);
    out
}

fn table_bytes() -> Vec<u8> {
    let mut out = Vec::new();
    for i in 0..256u32 {
        let i = i as u8;
        out.extend_from_slice(&[i, i.wrapping_add(1), i.wrapping_add(2), 10]);
    }
    out
}

fn frame_header_bytes(out: &mut Vec<u8>, width: u32, height: u32, size: u32) {
    push_u32(out, width);
    push_u32(out, height);
    push_u32(out, size);
    push_u32(out, (-3i32) as u32);
    push_u32(out, 4);
    push_u32(out, 0);
    push_u32(out, 0);
}

/// A whole image: one colour table, then frames given as (width, height, payload).
fn art_bytes(active: bool, frames: &[(u32, u32, Vec<u8>)]) -> Vec<u8> {
    let c = if active { [1, 0, 0, 0] } else { [0, 0, 0, 0] };
    let mut out = header_bytes(1, [c, [0; 4], [0; 4], [0; 4]], frames.len() as u32);
    if active {
        out.extend_from_slice(&table_bytes());
    }
    for (w, h, p) in frames.iter() {
        frame_header_bytes(&mut out, *w, *h, p.len() as u32);
    }
    for (_, _, p) in frames.iter() {
        out.extend_from_slice(p);
    }
    out
}

fn frame_header(width: u32, height: u32, size: u32) -> ArtFrameHeader {
    ArtFrameHeader { width, height, size, c_x: 0, c_y: 0, d_x: 0, d_y: 0 }
}

#[test]
fn test_interface() {
    assert_eq!(
        art_type(art_id_create(327, 0, 0, 0).unwrap()),
        ART_TYPE_INTERFACE
    );
}

#[test]
fn interface_id_packs_type_and_number() {
    assert_eq!(art_id_create(327, 9, 1, 2), Ok((5u32 << 28) | (327 << 16)));
    assert_eq!(art_id_create(4096 + 3, 0, 0, 0), Ok((5u32 << 28) | (3 << 16)));
    assert_eq!(art_type(0xF000_0000), 15);
}

#[test]
fn reads_little_endian_fields() {
    let buf = [0x78, 0x56, 0x34, 0x12, 0xFF, 0xFF, 0xFF, 0xFF];
    assert_eq!(read_u32(&buf, 0), Some(0x1234_5678));
    assert_eq!(read_i32(&buf, 4), Some(-1));
    assert_eq!(read_u32(&buf, 5), None);
    assert_eq!(read_u32(&buf, 9), None);
}

#[test]
fn color_activity_and_opacity() {
    let c = Color::from_buffer(&[0, 0, 0, 0], 0).unwrap();
    assert!(!in_palette(&c));
    assert!(!c.in_palette());
    let c = Color::from_buffer(&[9, 8, 7, 0, 0, 0, 0, 1], 4).unwrap();
    assert_eq!(c, Color { b: 0, g: 0, r: 0, a: 1 });
    assert!(in_palette(&c));
    assert_eq!(c.opacity(), 254);
    assert_eq!(Color::from_buffer(&[1, 2, 3], 0), Err(ArtError::Slice));
}

#[test]
fn palettes_and_tables_read_in_order() {
    let bytes: Vec<u8> = (0..40u32).map(|i| i as u8).collect();
    let p = ColorPalette::from_buffer(&bytes, 8).unwrap();
    assert_eq!(p.colors().len(), 8);
    assert_eq!(p.colors()[1], Color { b: 12, g: 13, r: 14, a: 15 });
    assert!(ColorPalette::from_buffer(&bytes, 9).is_err());
    let t = ColorTable::from_buffer(&table_bytes(), 0).unwrap();
    assert_eq!(t.colors().len(), 256);
    assert_eq!(t.colors()[255], Color { b: 255, g: 0, r: 1, a: 10 });
    assert!(ColorTable::from_buffer(&table_bytes(), 1).is_err());
}

#[test]
fn animated_header_has_eight_frames_per_number() {
    let bytes = header_bytes(0x0000_0000, [[0; 4]; 4], 2);
    let h = ArtHeader::from_buffer(&bytes).unwrap();
    assert!(h.animated());
    assert_eq!(h.frames(), 16);
    assert_eq!(h.h0, [0, 0x11, 0x22]);
    assert_eq!(h.frame_num_low, 7);
    assert_eq!(h.palette_data3.colors()[7], Color { b: 92, g: 93, r: 94, a: 95 });
}

#[test]
fn odd_first_word_is_not_animated() {
    let bytes = header_bytes(3, [[0, 0, 0, 2], [0; 4], [5, 0, 0, 0], [0; 4]], 2);
    let h = ArtHeader::from_buffer(&bytes).unwrap();
    assert!(!h.animated());
    assert_eq!(h.frames(), 2);
    assert_eq!(h.color_tables(), 2);
    assert!(ArtHeader::from_buffer(&bytes[..131]).is_err());
}

#[test]
fn literal_run_copies_following_bytes() {
    let h = frame_header(8, 1, 6);
    assert_eq!(
        decode_pixels(&h, &[0x83, 0x2A, 0x2A, 0x2A, 0x05, 0x07], 0),
        Ok(vec![0x2A, 0x2A, 0x2A, 7, 7, 7, 7, 7])
    );
    let h = frame_header(8, 1, 6);
    assert_eq!(decode_pixels(&h, &[0x83, 1, 2, 3, 0x05, 9], 0), Ok(vec![1, 2, 3, 9, 9, 9, 9, 9]));
}

#[test]
fn literal_run_without_its_bytes_is_truncated() {
    let h = frame_header(3, 1, 2);
    assert_eq!(decode_pixels(&h, &[0x83, 0x2A], 0), Err(ArtError::Slice));
}

#[test]
fn repeat_run_repeats_value_byte() {
    let h = frame_header(5, 1, 2);
    assert_eq!(decode_pixels(&h, &[0x05, 0x10], 0), Ok(vec![0x10; 5]));
}

#[test]
fn run_past_last_pixel_overflows() {
    let h = frame_header(3, 1, 2);
    assert_eq!(decode_pixels(&h, &[0x05, 0x10], 0), Err(ArtError::PixelOverflow));
}

#[test]
fn too_few_pixels_is_truncated() {
    let h = frame_header(3, 1, 2);
    assert_eq!(decode_pixels(&h, &[0x02, 0x10], 0), Err(ArtError::Slice));
    let h = frame_header(3, 1, 1);
    assert_eq!(decode_pixels(&h, &[0x02], 0), Err(ArtError::Slice));
}

#[test]
fn stored_payload_keeps_one_byte_per_pixel() {
    let h = frame_header(2, 2, 5);
    assert_eq!(decode_pixels(&h, &[9, 1, 2, 3, 4, 5], 1), Ok(vec![1, 2, 3, 4]));
    let h = frame_header(0, 3, 0);
    assert_eq!(decode_pixels(&h, &[], 0), Ok(vec![]));
}

#[test]
fn compressed_and_stored_frames_agree() {
    let image = vec![7, 7, 7, 1, 2, 3, 3, 3];
    let stored = frame_header(4, 2, 8);
    let compressed_payload = vec![0x03, 7, 0x82, 1, 2, 0x03, 3];
    let compressed = frame_header(4, 2, compressed_payload.len() as u32);
    let a = decode_pixels(&stored, &image, 0).unwrap();
    let b = decode_pixels(&compressed, &compressed_payload, 0).unwrap();
    assert_eq!(a, image);
    assert_eq!(a, b);
}

#[test]
fn frame_loads_pixels_after_header() {
    let mut buf = Vec::new();
    frame_header_bytes(&mut buf, 3, 1, 2);
    buf.extend_from_slice(&[0x03, 0x09]);
    let mut f = ArtFrame::header_from_buffer(&buf, 0).unwrap();
    assert_eq!(f.header.c_x, -3);
    assert_eq!(f.header.c_y, 4);
    assert_eq!(f.size(), 2);
    assert_eq!(f.width(), 3);
    assert!(f.pixels.is_empty());
    f.load_pixels_from_buffer(&buf, 28).unwrap();
    assert_eq!(f.pixels, vec![9, 9, 9]);
    assert!(ArtFrame::header_from_buffer(&buf, 3).is_err());
}

fn sample_art() -> Vec<u8> {
    art_bytes(true, &[(2, 2, vec![1, 0, 2, 3]), (1, 1, vec![5])])
}

#[test]
fn decodes_whole_image() {
    let art = Art::from_buffer(&sample_art()).unwrap();
    assert_eq!(art.color_tables().len(), 1);
    assert_eq!(art.frames().len(), 2);
    assert_eq!(art.frames()[0].pixels, vec![1, 0, 2, 3]);
    assert_eq!(art.frames()[1].pixels, vec![5]);
    assert_eq!(art.header().frame_num, 2);
}

#[test]
fn composite_flips_rows_and_maps_colors() {
    let art = Art::from_buffer(&sample_art()).unwrap();
    let img = art.to_image().unwrap();
    assert_eq!((img.width, img.height), (3, 2));
    assert_eq!(
        img.data,
        vec![
            4, 3, 2, 245, 5, 4, 3, 245, 7, 6, 5, 245, //
            3, 2, 1, 245, 0, 0, 0, 0, 0, 0, 0, 0,
        ]
    );
    assert_eq!(img.data.len(), 4 * 3 * 2);
}

#[test]
fn atlas_lays_frames_left_to_right() {
    let art = Art::from_buffer(&sample_art()).unwrap();
    let rects = art.to_texture_atlas().unwrap();
    assert_eq!(
        rects,
        vec![
            AtlasRect { min_x: 0, min_y: 0, max_x: 2, max_y: 2 },
            AtlasRect { min_x: 2, min_y: 0, max_x: 3, max_y: 1 },
        ]
    );
    let img = art.to_image().unwrap();
    let widths: u32 = rects.iter().map(|r| r.max_x - r.min_x).sum();
    assert_eq!(widths, img.width);
}

#[test]
fn pixel_count_matches_frame_areas() {
    let art = Art::from_buffer(&art_bytes(true, &[(2, 3, vec![1; 6]), (4, 3, vec![2; 12])])).unwrap();
    let decoded: usize = art.frames().iter().map(|f| f.pixels.len()).sum();
    assert_eq!(decoded, 2 * 3 + 4 * 3);
    let img = art.to_image().unwrap();
    assert_eq!(img.data.len() / 4, decoded);
}

#[test]
fn decoding_twice_gives_equal_results() {
    let bytes = sample_art();
    let a = Art::from_buffer(&bytes).unwrap();
    let b = Art::from_buffer(&bytes).unwrap();
    assert_eq!(a.frames().len(), b.frames().len());
    for (x, y) in a.frames().iter().zip(b.frames().iter()) {
        assert_eq!(x.header, y.header);
        assert_eq!(x.pixels, y.pixels);
    }
    assert_eq!(a.to_image().unwrap().data, b.to_image().unwrap().data);
}

#[test]
fn no_active_color_means_no_table_and_no_composite() {
    let art = Art::from_buffer(&art_bytes(false, &[(1, 1, vec![3])])).unwrap();
    assert_eq!(art.color_tables().len(), 0);
    assert_eq!(art.to_image().unwrap_err(), ArtError::NoColorTable);
}

#[test]
fn no_frames_cannot_be_composited() {
    let art = Art::from_buffer(&art_bytes(true, &[])).unwrap();
    assert_eq!(art.to_image().unwrap_err(), ArtError::EmptyFrame);
    assert_eq!(art.to_texture_atlas().unwrap(), vec![]);
}

#[test]
fn truncated_image_is_refused() {
    let bytes = sample_art();
    assert_eq!(Art::from_buffer(&bytes[..100]).unwrap_err(), ArtError::Slice);
    assert_eq!(Art::from_buffer(&bytes[..132 + 1000]).unwrap_err(), ArtError::Slice);
    assert_eq!(Art::from_buffer(&bytes[..bytes.len() - 1]).unwrap_err(), ArtError::Slice);
}

#[test]
fn first_failing_frame_gives_the_error() {
    let bytes = art_bytes(true, &[(3, 1, vec![0x05, 0x10]), (3, 1, vec![0x02, 0x10])]);
    assert_eq!(Art::from_buffer(&bytes).unwrap_err(), ArtError::PixelOverflow);
}
