//! Sprite images: decoding and compositing.
use vstd::prelude::*;

use crate::art_frame::{
    decode_pixels, frame_header_at, lemma_frame_pixels_len, frame_pixels, ArtFrame, ArtFrameHeader, FRAME_HEADER_SIZE,
};
use crate::art_header::{active_bit, frame_count, header_at_start, table_count, ArtHeader, HEADER_SIZE};
use crate::bytes::u32_at;
use crate::color::{color_at, colors_at, is_active, Color, ColorTable, TABLE_SIZE};

verus! {

/// Why an image could not be decoded or composited.
#[derive(Clone, Copy, Debug, PartialEq, Eq, Structural)]
pub enum ArtError {
    /// A field or payload lies beyond the end of the buffer.
    Slice,
    /// There are no frames to composite.
    EmptyFrame,
    /// A run-length block would write past the frame's last pixel.
    PixelOverflow,
    /// A frame or the composite image holds more bytes than memory can address.
    TooLarge,
    /// Compositing needs a colour table and the image has none.
    NoColorTable,
}

/// Number of colour tables announced by the header at the start of `s`.
pub open spec fn tables_in(s: Seq<u8>) -> nat {
    active_bit(color_at(s, 12)) + active_bit(color_at(s, 16)) + active_bit(color_at(s, 20))
        + active_bit(color_at(s, 24))
}

/// Number of frames announced by the header at the start of `s`.
pub open spec fn frames_in(s: Seq<u8>) -> nat {
    if u32_at(s, 0) % 2 == 0 {
        (8 * u32_at(s, 32)) as nat
    } else {
        u32_at(s, 32) as nat
    }
}

/// Where the frame headers begin: after the global header and the colour tables.
pub open spec fn frame_headers_base(s: Seq<u8>) -> int {
    132 + 1024 * tables_in(s) as int
}

/// Where the pixel payloads begin: after the last frame header.
pub open spec fn payloads_base(s: Seq<u8>) -> int {
    frame_headers_base(s) + 28 * frames_in(s) as int
}

/// The header of frame `i`.
pub open spec fn nth_frame_header(s: Seq<u8>, i: int) -> ArtFrameHeader {
    frame_header_at(s, frame_headers_base(s) + 28 * i)
}

/// Where the payload of frame `i` begins: the payloads follow one another in
/// frame order, each as long as its header's `size`.
pub open spec fn payload_offset(s: Seq<u8>, i: int) -> int
    decreases i,
{
    if i <= 0 {
        payloads_base(s)
    } else {
        payload_offset(s, i - 1) + nth_frame_header(s, i - 1).size
    }
}

/// Payloads never start before the first one.
pub proof fn lemma_payload_offset_grows(s: Seq<u8>, i: int)
    requires
        0 <= i,
    ensures
        payloads_base(s) <= payload_offset(s, i) <= payload_offset(s, i + 1),
    decreases i,
{
    if i > 0 {
        lemma_payload_offset_grows(s, i - 1);
    }
}

/// The stored payload of frame `i`.
pub open spec fn nth_payload(s: Seq<u8>, i: int) -> Seq<u8> {
    s.subrange(payload_offset(s, i), payload_offset(s, i + 1))
}

/// Whether frame `i` has its whole payload and its pixels decode.
pub open spec fn frame_decodes(s: Seq<u8>, i: int) -> bool {
    payload_offset(s, i + 1) <= s.len() && frame_pixels(nth_frame_header(s, i), nth_payload(s, i)) is Ok
}

/// Why frame `i` does not decode.
pub open spec fn frame_error(s: Seq<u8>, i: int) -> ArtError {
    if payload_offset(s, i + 1) > s.len() {
        ArtError::Slice
    } else {
        frame_pixels(nth_frame_header(s, i), nth_payload(s, i))->Err_0
    }
}

/// Whether the header, colour tables and frame headers all lie inside `s`.
pub open spec fn layout_fits(s: Seq<u8>) -> bool {
    s.len() >= 132 && payloads_base(s) <= s.len()
}

/// Whether `s` holds a whole image whose every frame decodes.
pub open spec fn art_decodes(s: Seq<u8>) -> bool {
    layout_fits(s) && forall|i: int| 0 <= i < frames_in(s) ==> frame_decodes(s, i)
}

/// A decoded sprite image: the global header, its colour tables and its
/// frames in stored order.
#[derive(Clone, Debug)]
pub struct Art {
    header: ArtHeader,
    color_table_data: Vec<ColorTable>,
    frame_data: Vec<ArtFrame>,
}

/// Decodes the pixels of every frame, whose payloads follow one another from
/// `start` on; stops at the first frame that does not decode.
fn decode_frames(buffer: &[u8], headers: &Vec<ArtFrameHeader>, start: usize) -> (r: Result<
    Vec<ArtFrame>,
    ArtError,
>)
    requires
        layout_fits(buffer@),
        start == payloads_base(buffer@),
        headers@.len() == frames_in(buffer@),
        forall|k: int| 0 <= k < headers@.len() ==> #[trigger] headers@[k] == nth_frame_header(buffer@, k),
    ensures
        match r {
            Ok(frames) => (forall|i: int| 0 <= i < frames_in(buffer@) ==> frame_decodes(buffer@, i))
                && frames@.len() == frames_in(buffer@) && forall|i: int|
                0 <= i < frames_in(buffer@) ==> (#[trigger] frames@[i]).header
                    == nth_frame_header(buffer@, i) && frame_pixels(
                    nth_frame_header(buffer@, i),
                    nth_payload(buffer@, i),
                ) == Ok::<Seq<u8>, ArtError>(frames@[i].pixels@),
            Err(e) => exists|i: int|
                0 <= i < frames_in(buffer@) && !frame_decodes(buffer@, i) && (forall|j: int|
                    0 <= j < i ==> frame_decodes(buffer@, j)) && e == frame_error(buffer@, i),
        },
{
    let ghost s = buffer@;
    let len = buffer.len();
    let mut current_index = start;
    let mut frame_data: Vec<ArtFrame> = Vec::new();
    let mut j: usize = 0;
    while j < headers.len()
        invariant
            len == s.len(),
            buffer@ == s,
            headers@.len() == frames_in(s),
            forall|k: int| 0 <= k < headers@.len() ==> #[trigger] headers@[k] == nth_frame_header(s, k),
            j <= headers@.len(),
            current_index == payload_offset(s, j as int),
            current_index <= len,
            frame_data@.len() == j,
            forall|k: int| 0 <= k < j ==> frame_decodes(s, k),
            forall|k: int|
                0 <= k < j ==> (#[trigger] frame_data@[k]).header == nth_frame_header(s, k)
                    && frame_pixels(nth_frame_header(s, k), nth_payload(s, k)) == Ok::<
                    Seq<u8>,
                    ArtError,
                >(frame_data@[k].pixels@),
        decreases headers@.len() - j,
    {
        let frame_header = headers[j];
        let size = frame_header.size as usize;
        assert(payload_offset(s, j + 1) == current_index + size);
        if len - current_index < size {
            assert(!frame_decodes(s, j as int) && frame_error(s, j as int) == ArtError::Slice);
            return Err(ArtError::Slice);
        }
        let ghost payload = nth_payload(s, j as int);
        let pixels = match decode_pixels(&frame_header, buffer, current_index) {
            Ok(p) => p,
            Err(e) => {
                assert(!frame_decodes(s, j as int) && frame_error(s, j as int) == e);
                return Err(e);
            },
        };
        frame_data.push(ArtFrame { header: frame_header, pixels });
        current_index += size;
        j += 1;
    }
    Ok(frame_data)
}

impl Art {
    /// The decoded global header.
    pub closed spec fn spec_header(&self) -> ArtHeader {
        self.header
    }

    /// The colour tables, each as its 256 colours.
    pub closed spec fn spec_tables(&self) -> Seq<ColorTable> {
        self.color_table_data@
    }

    /// The frames in stored order.
    pub closed spec fn spec_frames(&self) -> Seq<ArtFrame> {
        self.frame_data@
    }

    /// Whether this is the image stored in `s`.
    pub open spec fn decoded_from(&self, s: Seq<u8>) -> bool {
        &&& header_at_start(self.spec_header(), s)
        &&& self.spec_tables().len() == tables_in(s)
        &&& forall|t: int|
            0 <= t < tables_in(s) ==> #[trigger] self.spec_tables()[t]@ == colors_at(
                s,
                132 + 1024 * t,
                256,
            )
        &&& self.spec_frames().len() == frames_in(s)
        &&& forall|i: int|
            0 <= i < frames_in(s) ==> (#[trigger] self.spec_frames()[i]).header
                == nth_frame_header(s, i) && frame_pixels(nth_frame_header(s, i), nth_payload(s, i))
                == Ok::<Seq<u8>, ArtError>(self.spec_frames()[i].pixels@)
    }

    /// Decodes a whole sprite image: the header, one colour table per
    /// representative colour in use, the frame headers, then each frame's
    /// pixels from the payloads that follow the headers in frame order.
    pub fn from_buffer(buffer: &[u8]) -> (r: Result<Art, ArtError>)
        ensures
            match r {
                Ok(art) => art_decodes(buffer@) && art.decoded_from(buffer@) && art.wf(),
                Err(e) => !art_decodes(buffer@) && (!layout_fits(buffer@) ==> e == ArtError::Slice)
                    && (layout_fits(buffer@) ==> exists|i: int|
                    0 <= i < frames_in(buffer@) && !frame_decodes(buffer@, i) && (forall|j: int|
                        0 <= j < i ==> frame_decodes(buffer@, j)) && e == frame_error(buffer@, i)),
            },
    {
        let ghost s = buffer@;
        let len = buffer.len();
        let header = ArtHeader::from_buffer(buffer)?;
        let tables = header.color_tables();
        let frames = header.frames();
        assert(table_count(header) == tables_in(s));
        assert(frame_count(header) == frames_in(s));
        let mut current_index: usize = HEADER_SIZE;
        let mut color_table_data: Vec<ColorTable> = Vec::new();
        let mut t: usize = 0;
        while t < tables
            invariant
                len == s.len(),
                buffer@ == s,
                tables == tables_in(s),
                t <= tables,
                current_index == 132 + 1024 * t,
                current_index <= len,
                color_table_data@.len() == t,
                forall|k: int|
                    0 <= k < t ==> #[trigger] color_table_data@[k]@ == colors_at(
                        s,
                        132 + 1024 * k,
                        256,
                    ),
            decreases tables - t,
        {
            let color_table = ColorTable::from_buffer(buffer, current_index)?;
            color_table_data.push(color_table);
            current_index += TABLE_SIZE;
            t += 1;
        }
        let mut headers: Vec<ArtFrameHeader> = Vec::new();
        let mut i: u64 = 0;
        while i < frames
            invariant
                len == s.len(),
                buffer@ == s,
                frames == frames_in(s),
                i <= frames,
                current_index == frame_headers_base(s) + 28 * i,
                current_index <= len,
                headers@.len() == i,
                forall|k: int| 0 <= k < i ==> #[trigger] headers@[k] == nth_frame_header(s, k),
            decreases frames - i,
        {
            let frame_header = ArtFrameHeader::from_buffer(buffer, current_index)?;
            headers.push(frame_header);
            current_index += FRAME_HEADER_SIZE;
            i += 1;
        }
        let frame_data = decode_frames(buffer, &headers, current_index)?;
        assert forall|k: int| 0 <= k < frame_data@.len() implies (#[trigger] frame_data@[k]).wf() by {
            lemma_payload_offset_grows(s, k);
            assert(frame_decodes(s, k));
            assert(payload_offset(s, k + 1) == payload_offset(s, k) + nth_frame_header(s, k).size);
            lemma_frame_pixels_len(nth_frame_header(s, k), nth_payload(s, k));
        }
        Ok(Art { header, color_table_data, frame_data })
    }

    /// The decoded global header.
    pub fn header(&self) -> (r: &ArtHeader)
        ensures
            *r == self.spec_header(),
    {
        &self.header
    }

    /// The colour tables in stored order.
    pub fn color_tables(&self) -> (r: &Vec<ColorTable>)
        ensures
            r@ == self.spec_tables(),
    {
        &self.color_table_data
    }

    /// The frames in stored order.
    pub fn frames(&self) -> (r: &Vec<ArtFrame>)
        ensures
            r@ == self.spec_frames(),
    {
        &self.frame_data
    }

    /// The image is well formed: each colour table holds 256 colours and
    /// each frame one pixel byte per pixel.
    pub closed spec fn wf(&self) -> bool {
        &&& forall|t: int| 0 <= t < self.color_table_data@.len() ==> (#[trigger] self.color_table_data@[t])@.len() == 256
        &&& forall|i: int| 0 <= i < self.frame_data@.len() ==> (#[trigger] self.frame_data@[i]).wf()
    }

    /// Composites all frames side by side, left to right in stored order,
    /// into one RGBA image as tall as the tallest frame; see `raster`.
    pub fn to_image(&self) -> (r: Result<ArtImage, ArtError>)
        requires
            self.wf(),
        ensures
            match r {
                Ok(img) => self.spec_frames().len() > 0 && self.spec_tables().len() > 0
                    && !raster_too_large(self.spec_frames()) && img.width == total_width(
                    self.spec_frames(),
                ) && img.height == max_height(self.spec_frames(), self.spec_frames().len() as int)
                    && img.data@ == raster(self.spec_frames(), self.spec_tables()[0]@),
                Err(e) => e == (if self.spec_frames().len() == 0 {
                    ArtError::EmptyFrame
                } else if self.spec_tables().len() == 0 {
                    ArtError::NoColorTable
                } else {
                    ArtError::TooLarge
                }) && (e == ArtError::TooLarge ==> raster_too_large(self.spec_frames())),
            },
    {
        let frames = &self.frame_data;
        if frames.len() == 0 {
            return Err(ArtError::EmptyFrame);
        }
        if self.color_table_data.len() == 0 {
            return Err(ArtError::NoColorTable);
        }
        let width = match total_frame_width(frames) {
            Some(w) => w,
            None => return Err(ArtError::TooLarge),
        };
        let height = tallest_frame(frames);
        let w = width as u64;
        let h = height as u64;
        assert(w * h <= u64::MAX) by (nonlinear_arith)
            requires
                w <= u32::MAX,
                h <= u32::MAX,
        ;
        if w * h > (usize::MAX / 4) as u64 {
            return Err(ArtError::TooLarge);
        }
        let table = self.color_table_data[0].colors();
        let data = composite(frames, table, height);
        Ok(ArtImage { width, height, data })
    }

    /// One rectangle per frame, left to right in stored order: frame `i`
    /// spans columns from the summed widths of the frames before it, and
    /// rows from 0 to its own height.
    pub fn to_texture_atlas(&self) -> (r: Result<Vec<AtlasRect>, ArtError>)
        ensures
            match r {
                Ok(rects) => !(total_width(self.spec_frames()) > u32::MAX) && rects@.len()
                    == self.spec_frames().len() && forall|i: int|
                    0 <= i < rects@.len() ==> #[trigger] rects@[i] == atlas_rect(
                        self.spec_frames(),
                        i,
                    ),
                Err(e) => e == ArtError::TooLarge && total_width(self.spec_frames()) > u32::MAX,
            },
    {
        let frames = &self.frame_data;
        if total_frame_width(frames).is_none() {
            return Err(ArtError::TooLarge);
        }
        let mut textures: Vec<AtlasRect> = Vec::new();
        let mut current_x: u32 = 0;
        let mut i: usize = 0;
        while i < frames.len()
            invariant
                i <= frames@.len(),
                total_width(frames@) <= u32::MAX,
                current_x == x_offset(frames@, i as int),
                textures@.len() == i,
                forall|k: int| 0 <= k < i ==> #[trigger] textures@[k] == atlas_rect(frames@, k),
            decreases frames@.len() - i,
        {
            let header = frames[i].header;
            proof {
                lemma_x_offset_mono(frames@, i + 1, frames@.len() as int);
            }
            textures.push(
                AtlasRect {
                    min_x: current_x,
                    min_y: 0,
                    max_x: current_x + header.width,
                    max_y: header.height,
                },
            );
            current_x += header.width;
            i += 1;
        }
        Ok(textures)
    }
}

/// A composite RGBA image: four bytes per pixel (red, green, blue, opacity),
/// rows from the top.
#[derive(Clone, Debug)]
pub struct ArtImage {
    pub width: u32,
    pub height: u32,
    pub data: Vec<u8>,
}

/// The place of one frame in the composite image.
#[derive(Clone, Copy, Debug, PartialEq, Eq, Structural)]
pub struct AtlasRect {
    pub min_x: u32,
    pub min_y: u32,
    pub max_x: u32,
    pub max_y: u32,
}

/// The summed widths of the first `i` frames: the column where frame `i` starts.
pub open spec fn x_offset(frames: Seq<ArtFrame>, i: int) -> int
    decreases i,
{
    if i <= 0 {
        0
    } else {
        x_offset(frames, i - 1) + frames[i - 1].header.width
    }
}

/// The summed widths of all frames.
pub open spec fn total_width(frames: Seq<ArtFrame>) -> int {
    x_offset(frames, frames.len() as int)
}

/// The greatest height among the first `i` frames.
pub open spec fn max_height(frames: Seq<ArtFrame>, i: int) -> int
    decreases i,
{
    if i <= 0 {
        0
    } else if max_height(frames, i - 1) >= frames[i - 1].header.height {
        max_height(frames, i - 1)
    } else {
        frames[i - 1].header.height as int
    }
}

/// The composite image would not fit: wider than 32 bits can say, or more
/// bytes than memory can address.
pub open spec fn raster_too_large(frames: Seq<ArtFrame>) -> bool {
    total_width(frames) > u32::MAX || total_width(frames) * max_height(frames, frames.len() as int)
        > usize::MAX / 4
}

/// The atlas rectangle of frame `i`.
pub open spec fn atlas_rect(frames: Seq<ArtFrame>, i: int) -> AtlasRect {
    AtlasRect {
        min_x: x_offset(frames, i) as u32,
        min_y: 0,
        max_x: (x_offset(frames, i) + frames[i].header.width) as u32,
        max_y: frames[i].header.height,
    }
}

/// The RGBA bytes of a pixel sample: sample 0 is fully transparent, any other
/// is looked up in the colour table.
pub open spec fn sample_rgba(table: Seq<Color>, sample: u8) -> Seq<u8> {
    if sample == 0 {
        seq![0u8, 0u8, 0u8, 0u8]
    } else {
        let c = table[sample as int];
        seq![c.r, c.g, c.b, (255 - c.a) as u8]
    }
}

/// The RGBA bytes that column `x` of frame `f` gives to image row `y`: frame
/// rows are read bottom to top, and below a frame's height the image stays
/// zero.
pub open spec fn frame_pixel_rgba(f: ArtFrame, table: Seq<Color>, x: int, y: int) -> Seq<u8> {
    if y < f.header.height {
        sample_rgba(table, f.pixels@[(f.header.height - 1 - y) * f.header.width + x])
    } else {
        seq![0u8, 0u8, 0u8, 0u8]
    }
}

/// The RGBA bytes of the first `x` columns of frame `f` in image row `y`.
pub open spec fn frame_row(f: ArtFrame, table: Seq<Color>, y: int, x: int) -> Seq<u8>
    decreases x,
{
    if x <= 0 {
        Seq::empty()
    } else {
        frame_row(f, table, y, x - 1) + frame_pixel_rgba(f, table, x - 1, y)
    }
}

/// The RGBA bytes of image row `y` across the first `i` frames.
pub open spec fn image_row(frames: Seq<ArtFrame>, table: Seq<Color>, y: int, i: int) -> Seq<u8>
    decreases i,
{
    if i <= 0 {
        Seq::empty()
    } else {
        image_row(frames, table, y, i - 1) + frame_row(frames[i - 1], table, y, frames[i - 1].header.width as int)
    }
}

/// The RGBA bytes of the first `y` image rows.
pub open spec fn image_rows(frames: Seq<ArtFrame>, table: Seq<Color>, y: int) -> Seq<u8>
    decreases y,
{
    if y <= 0 {
        Seq::empty()
    } else {
        image_rows(frames, table, y - 1) + image_row(frames, table, y - 1, frames.len() as int)
    }
}

/// The composite image: every row, top to bottom, of the frames laid side by side.
pub open spec fn raster(frames: Seq<ArtFrame>, table: Seq<Color>) -> Seq<u8> {
    image_rows(frames, table, max_height(frames, frames.len() as int))
}

proof fn lemma_x_offset_mono(frames: Seq<ArtFrame>, i: int, j: int)
    requires
        0 <= i <= j <= frames.len(),
    ensures
        x_offset(frames, i) <= x_offset(frames, j),
    decreases j - i,
{
    if i < j {
        lemma_x_offset_mono(frames, i, j - 1);
    }
}

/// The summed widths of the frames, or `None` when it exceeds 32 bits.
fn total_frame_width(frames: &Vec<ArtFrame>) -> (r: Option<u32>)
    ensures
        match r {
            Some(w) => w == total_width(frames@),
            None => total_width(frames@) > u32::MAX,
        },
{
    let mut width: u32 = 0;
    let mut i: usize = 0;
    while i < frames.len()
        invariant
            i <= frames@.len(),
            width == x_offset(frames@, i as int),
        decreases frames@.len() - i,
    {
        let w = frames[i].header.width;
        if w > u32::MAX - width {
            proof {
                lemma_x_offset_mono(frames@, i + 1, frames@.len() as int);
            }
            return None;
        }
        width += w;
        i += 1;
    }
    Some(width)
}

/// The greatest frame height.
fn tallest_frame(frames: &Vec<ArtFrame>) -> (r: u32)
    ensures
        r == max_height(frames@, frames@.len() as int),
{
    let mut height: u32 = 0;
    let mut i: usize = 0;
    while i < frames.len()
        invariant
            i <= frames@.len(),
            height == max_height(frames@, i as int),
        decreases frames@.len() - i,
    {
        let h = frames[i].header.height;
        if h > height {
            height = h;
        }
        i += 1;
    }
    height
}

/// Fills the composite image row by row from the top; each row holds every
/// frame's column pixels in frame order.
fn composite(frames: &Vec<ArtFrame>, table: &Vec<Color>, height: u32) -> (r: Vec<u8>)
    requires
        forall|i: int| 0 <= i < frames@.len() ==> (#[trigger] frames@[i]).wf(),
        table@.len() == 256,
        height == max_height(frames@, frames@.len() as int),
    ensures
        r@ == raster(frames@, table@),
{
    let mut data: Vec<u8> = Vec::new();
    let mut y: u32 = 0;
    while y < height
        invariant
            forall|i: int| 0 <= i < frames@.len() ==> (#[trigger] frames@[i]).wf(),
            table@.len() == 256,
            height == max_height(frames@, frames@.len() as int),
            y <= height,
            data@ == image_rows(frames@, table@, y as int),
        decreases height - y,
    {
        let ghost above = data@;
        let mut i: usize = 0;
        while i < frames.len()
            invariant
                forall|i: int| 0 <= i < frames@.len() ==> (#[trigger] frames@[i]).wf(),
                table@.len() == 256,
                i <= frames@.len(),
                data@ == above + image_row(frames@, table@, y as int, i as int),
            decreases frames@.len() - i,
        {
            let frame = &frames[i];
            let w = frame.header.width;
            let h = frame.header.height;
            assert(frame.wf());
            let ghost left = data@;
            let plen = frame.pixels.len();
            let mut x: u32 = 0;
            while x < w
                invariant
                    frame.wf(),
                    plen == frame.pixels@.len(),
                    w == frame.header.width,
                    h == frame.header.height,
                    table@.len() == 256,
                    x <= w,
                    data@ == left + frame_row(*frame, table@, y as int, x as int),
                decreases w - x,
            {
                let ghost before = data@;
                if y < h {
                    let row = (h - 1 - y) as usize;
                    proof {
                        let (rr, ww, xx, hh) = (row as int, w as int, x as int, h as int);
                        assert(rr * ww + xx < ww * hh) by (nonlinear_arith)
                            requires
                                0 <= rr < hh,
                                0 <= xx < ww,
                        ;
                    }
                    let sample = frame.pixels[row * (w as usize) + x as usize];
                    if sample == 0 {
                        data.push(0);
                        data.push(0);
                        data.push(0);
                        data.push(0);
                    } else {
                        let color = table[sample as usize];
                        data.push(color.r);
                        data.push(color.g);
                        data.push(color.b);
                        data.push(color.opacity());
                    }
                } else {
                    data.push(0);
                    data.push(0);
                    data.push(0);
                    data.push(0);
                }
                assert(data@ =~= before + frame_pixel_rgba(*frame, table@, x as int, y as int));
                x += 1;
                assert(data@ =~= left + frame_row(*frame, table@, y as int, x as int));
            }
            i += 1;
            assert(data@ =~= above + image_row(frames@, table@, y as int, i as int));
        }
        y += 1;
        assert(data@ =~= image_rows(frames@, table@, y as int));
    }
    data
}

/// The summed pixel bytes of the first `i` frames.
pub open spec fn pixel_total(frames: Seq<ArtFrame>, i: int) -> int
    decreases i,
{
    if i <= 0 {
        0
    } else {
        pixel_total(frames, i - 1) + frames[i - 1].pixels@.len()
    }
}

/// The summed areas, width times height, of the first `i` frames.
pub open spec fn area_total(frames: Seq<ArtFrame>, i: int) -> int
    decreases i,
{
    if i <= 0 {
        0
    } else {
        area_total(frames, i - 1) + frames[i - 1].header.width * frames[i - 1].header.height
    }
}

/// The summed widths of the first `i` atlas rectangles.
pub open spec fn atlas_width_total(frames: Seq<ArtFrame>, i: int) -> int
    decreases i,
{
    if i <= 0 {
        0
    } else {
        atlas_width_total(frames, i - 1) + atlas_rect(frames, i - 1).max_x - atlas_rect(
            frames,
            i - 1,
        ).min_x
    }
}

proof fn lemma_pixel_total(frames: Seq<ArtFrame>, i: int)
    requires
        0 <= i <= frames.len(),
        forall|k: int| 0 <= k < frames.len() ==> (#[trigger] frames[k]).wf(),
    ensures
        pixel_total(frames, i) == area_total(frames, i),
    decreases i,
{
    if i > 0 {
        lemma_pixel_total(frames, i - 1);
        assert(frames[i - 1].wf());
    }
}

proof fn lemma_frame_row_len(f: ArtFrame, table: Seq<Color>, y: int, x: int)
    requires
        0 <= x,
    ensures
        frame_row(f, table, y, x).len() == 4 * x,
    decreases x,
{
    if x > 0 {
        lemma_frame_row_len(f, table, y, x - 1);
    }
}

proof fn lemma_image_row_len(frames: Seq<ArtFrame>, table: Seq<Color>, y: int, i: int)
    requires
        0 <= i <= frames.len(),
    ensures
        image_row(frames, table, y, i).len() == 4 * x_offset(frames, i),
    decreases i,
{
    if i > 0 {
        lemma_image_row_len(frames, table, y, i - 1);
        lemma_frame_row_len(frames[i - 1], table, y, frames[i - 1].header.width as int);
    }
}

proof fn lemma_image_rows_len(frames: Seq<ArtFrame>, table: Seq<Color>, y: int)
    requires
        0 <= y,
    ensures
        image_rows(frames, table, y).len() == 4 * total_width(frames) * y,
    decreases y,
{
    if y > 0 {
        lemma_image_rows_len(frames, table, y - 1);
        lemma_image_row_len(frames, table, y - 1, frames.len() as int);
        let w = total_width(frames);
        assert(4 * w * (y - 1) + 4 * w == 4 * w * y) by (nonlinear_arith);
    } else {
        let w = total_width(frames);
        assert(4 * w * y == 0) by (nonlinear_arith)
            requires
                y == 0,
        ;
    }
}

proof fn lemma_max_height_nonneg(frames: Seq<ArtFrame>, i: int)
    ensures
        0 <= max_height(frames, i),
    decreases i,
{
    if i > 0 {
        lemma_max_height_nonneg(frames, i - 1);
    }
}

proof fn lemma_equal_heights_area(frames: Seq<ArtFrame>, h: int, i: int)
    requires
        0 <= i <= frames.len(),
        forall|k: int| 0 <= k < frames.len() ==> (#[trigger] frames[k]).header.height == h,
    ensures
        x_offset(frames, i) * h == area_total(frames, i),
        i > 0 ==> max_height(frames, i) == h,
    decreases i,
{
    if i > 0 {
        lemma_equal_heights_area(frames, h, i - 1);
        let x = x_offset(frames, i - 1);
        let w = frames[i - 1].header.width as int;
        assert((x + w) * h == x * h + w * h) by (nonlinear_arith);
        assert(frames[i - 1].header.height == h);
        lemma_max_height_nonneg(frames, i - 1);
    }
}

/// The decoded frames hold one pixel byte for each pixel of each frame, so
/// as many bytes as their areas add up to. The composite image holds four
/// bytes for each pixel of a rectangle as wide as all frames together and as
/// tall as the tallest; when all frames are equally tall, that rectangle has
/// exactly as many pixels as the frames.
pub proof fn law_pixel_count(art: Art, table: Seq<Color>)
    requires
        art.wf(),
    ensures
        pixel_total(art.spec_frames(), art.spec_frames().len() as int) == area_total(
            art.spec_frames(),
            art.spec_frames().len() as int,
        ),
        raster(art.spec_frames(), table).len() == 4 * total_width(art.spec_frames()) * max_height(
            art.spec_frames(),
            art.spec_frames().len() as int,
        ),
        (forall|i: int, j: int|
            0 <= i < art.spec_frames().len() && 0 <= j < art.spec_frames().len() ==> (
            #[trigger] art.spec_frames()[i]).header.height == (
            #[trigger] art.spec_frames()[j]).header.height) ==> total_width(art.spec_frames())
            * max_height(art.spec_frames(), art.spec_frames().len() as int) == area_total(
            art.spec_frames(),
            art.spec_frames().len() as int,
        ),
{
    let frames = art.spec_frames();
    let n = frames.len() as int;
    lemma_pixel_total(frames, n);
    lemma_max_height_nonneg(frames, n);
    lemma_image_rows_len(frames, table, max_height(frames, n));
    if forall|i: int, j: int|
        0 <= i < n && 0 <= j < n ==> (#[trigger] frames[i]).header.height == (
        #[trigger] frames[j]).header.height {
        if n > 0 {
            let h = frames[0].header.height as int;
            assert forall|k: int| 0 <= k < frames.len() implies (#[trigger] frames[k]).header.height
                == h by {
                assert(frames[k].header.height == frames[0].header.height);
            }
            lemma_equal_heights_area(frames, h, n);
        }
    }
}

/// The atlas rectangles are as wide together as the composite image.
pub proof fn law_atlas_spans_image(frames: Seq<ArtFrame>)
    requires
        total_width(frames) <= u32::MAX,
    ensures
        atlas_width_total(frames, frames.len() as int) == total_width(frames),
{
    lemma_atlas_width_total(frames, frames.len() as int);
}

proof fn lemma_atlas_width_total(frames: Seq<ArtFrame>, i: int)
    requires
        0 <= i <= frames.len(),
        total_width(frames) <= u32::MAX,
    ensures
        atlas_width_total(frames, i) == x_offset(frames, i),
    decreases i,
{
    if i > 0 {
        lemma_atlas_width_total(frames, i - 1);
        lemma_x_offset_mono(frames, i, frames.len() as int);
        lemma_x_offset_mono(frames, 0, i - 1);
    }
}

/// Decoding one buffer twice gives the same image: the same frames with the
/// same headers and pixels, and the same colour tables.
pub proof fn law_art_decode_deterministic(s: Seq<u8>, a: Art, b: Art)
    requires
        a.decoded_from(s),
        b.decoded_from(s),
    ensures
        a.spec_frames().len() == b.spec_frames().len(),
        a.spec_tables().len() == b.spec_tables().len(),
        forall|i: int|
            0 <= i < a.spec_frames().len() ==> (#[trigger] a.spec_frames()[i]).header
                == b.spec_frames()[i].header && a.spec_frames()[i].pixels@
                == b.spec_frames()[i].pixels@,
        forall|t: int| 0 <= t < a.spec_tables().len() ==> (#[trigger] a.spec_tables()[t])@ == b.spec_tables()[t]@,
{
    assert forall|i: int| 0 <= i < a.spec_frames().len() implies (#[trigger] a.spec_frames()[i]).header
        == b.spec_frames()[i].header && a.spec_frames()[i].pixels@ == b.spec_frames()[i].pixels@ by {
        assert(b.spec_frames()[i].header == nth_frame_header(s, i));
    }
    assert forall|t: int| 0 <= t < a.spec_tables().len() implies (#[trigger] a.spec_tables()[t])@ == b.spec_tables()[t]@ by {
        assert(b.spec_tables()[t]@ == colors_at(s, 132 + 1024 * t, 256));
    }
}

/// A header whose four representative colours are all unused announces no
/// colour table, so the decoded image has none, and compositing it cannot
/// succeed (see `Art::to_image`).
pub proof fn law_no_tables_without_active_colors(s: Seq<u8>, art: Art)
    requires
        art.decoded_from(s),
        !is_active(color_at(s, 12)),
        !is_active(color_at(s, 16)),
        !is_active(color_at(s, 20)),
        !is_active(color_at(s, 24)),
    ensures
        art.spec_tables().len() == 0,
{
}

} // verus!
