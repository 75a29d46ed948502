//! Frame headers of a sprite image and the run-length pixel codec.
use vstd::prelude::*;

use crate::art::ArtError;
use crate::bytes::{read_i32, read_u32, u32_at};

verus! {

/// Bytes taken by one frame header.
pub const FRAME_HEADER_SIZE: usize = 28;

/// The fixed header of one frame: its dimensions, the number of payload bytes
/// stored for it, and two anchor offsets that this library carries through.
#[derive(Clone, Copy, Debug, PartialEq, Eq, Structural)]
pub struct ArtFrameHeader {
    pub width: u32,
    pub height: u32,
    pub size: u32,
    pub c_x: i32,
    pub c_y: i32,
    pub d_x: i32,
    pub d_y: i32,
}

/// The frame header stored at `at`.
pub open spec fn frame_header_at(s: Seq<u8>, at: int) -> ArtFrameHeader {
    ArtFrameHeader {
        width: u32_at(s, at),
        height: u32_at(s, at + 4),
        size: u32_at(s, at + 8),
        c_x: u32_at(s, at + 12) as i32,
        c_y: u32_at(s, at + 16) as i32,
        d_x: u32_at(s, at + 20) as i32,
        d_y: u32_at(s, at + 24) as i32,
    }
}

/// Number of pixels in a frame of this header.
pub open spec fn pixel_count(h: ArtFrameHeader) -> int {
    h.width as int * h.height as int
}

impl ArtFrameHeader {
    /// Reads the frame header stored at `at`.
    pub fn from_buffer(buf: &[u8], at: usize) -> (r: Result<ArtFrameHeader, ArtError>)
        ensures
            at as int + 28 <= buf@.len() ==> r == Ok::<ArtFrameHeader, ArtError>(
                frame_header_at(buf@, at as int),
            ),
            at as int + 28 > buf@.len() ==> r == Err::<ArtFrameHeader, ArtError>(
                ArtError::Slice,
            ),
    {
        if at > buf.len() || buf.len() - at < FRAME_HEADER_SIZE {
            return Err(ArtError::Slice);
        }
        let width = read_u32(buf, at).unwrap();
        let height = read_u32(buf, at + 4).unwrap();
        let size = read_u32(buf, at + 8).unwrap();
        let c_x = read_i32(buf, at + 12).unwrap();
        let c_y = read_i32(buf, at + 16).unwrap();
        let d_x = read_i32(buf, at + 20).unwrap();
        let d_y = read_i32(buf, at + 24).unwrap();
        Ok(ArtFrameHeader { width, height, size, c_x, c_y, d_x, d_y })
    }
}

/// A control byte with its high bit set starts a literal run.
pub open spec fn is_literal_run(c: u8) -> bool {
    c >= 128
}

/// The run length that a control byte carries in its low seven bits.
pub open spec fn run_length(c: u8) -> nat {
    (c % 128) as nat
}

/// Whether the control block at `p` lies wholly inside `data`: a literal run
/// needs its bytes, a repeat run its value byte.
pub open spec fn block_complete(data: Seq<u8>, p: int) -> bool {
    if is_literal_run(data[p]) {
        p + run_length(data[p]) < data.len()
    } else {
        p + 1 < data.len()
    }
}

/// Where the control block after the one at `p` begins.
pub open spec fn block_next(data: Seq<u8>, p: int) -> int {
    if is_literal_run(data[p]) {
        p + 1 + run_length(data[p])
    } else {
        p + 2
    }
}

/// The pixels that the control block at `p` emits: the bytes that follow it
/// for a literal run, its value byte repeated for a repeat run.
pub open spec fn block_pixels(data: Seq<u8>, p: int) -> Seq<u8> {
    if is_literal_run(data[p]) {
        data.subrange(p + 1, p + 1 + run_length(data[p]))
    } else {
        Seq::new(run_length(data[p]), |i: int| data[p + 1])
    }
}

/// The pixels emitted by the control blocks from `p` to the end of `data`,
/// when at most `room` pixels may be emitted: a block cut off by the end of
/// the data is `Slice`, a block that would exceed `room` is `PixelOverflow`,
/// whichever comes first.
pub open spec fn rle_decode(data: Seq<u8>, p: int, room: int) -> Result<Seq<u8>, ArtError>
    decreases data.len() - p,
{
    if p < 0 || p >= data.len() {
        Ok(Seq::empty())
    } else if !block_complete(data, p) {
        Err(ArtError::Slice)
    } else if run_length(data[p]) > room {
        Err(ArtError::PixelOverflow)
    } else {
        prepend(block_pixels(data, p), rle_decode(data, block_next(data, p), room - run_length(data[p])))
    }
}

/// `a` followed by the pixels of `r`, or the error of `r`.
pub open spec fn prepend(a: Seq<u8>, r: Result<Seq<u8>, ArtError>) -> Result<Seq<u8>, ArtError> {
    match r {
        Ok(s) => Ok(a + s),
        Err(e) => Err(e),
    }
}

/// The row-major pixels of a frame whose stored payload is `data`: stored as
/// is when the payload holds at least one byte per pixel, else run-length
/// compressed, which must then yield exactly one byte per pixel.
pub open spec fn frame_pixels(h: ArtFrameHeader, data: Seq<u8>) -> Result<Seq<u8>, ArtError> {
    let n = pixel_count(h);
    if h.size >= n {
        Ok(data.take(n))
    } else if n > usize::MAX {
        Err(ArtError::TooLarge)
    } else {
        match rle_decode(data, 0, n) {
            Ok(s) => if s.len() == n {
                Ok(s)
            } else {
                Err(ArtError::Slice)
            },
            Err(e) => Err(e),
        }
    }
}

proof fn lemma_prepend_assoc(a: Seq<u8>, b: Seq<u8>, r: Result<Seq<u8>, ArtError>)
    ensures
        prepend(a, prepend(b, r)) == prepend(a + b, r),
{
    if let Ok(s) = r {
        assert(a + (b + s) =~= (a + b) + s);
    }
}

/// Runs the control blocks of `buf[at..at + size]`, emitting at most `cap`
/// pixels.
fn rle_run(buf: &[u8], at: usize, size: usize, cap: usize) -> (r: Result<Vec<u8>, ArtError>)
    requires
        at as int + size as int <= buf@.len(),
    ensures
        match r {
            Ok(v) => rle_decode(buf@.subrange(at as int, at + size), 0, cap as int) == Ok::<
                Seq<u8>,
                ArtError,
            >(v@),
            Err(e) => rle_decode(buf@.subrange(at as int, at + size), 0, cap as int) == Err::<
                Seq<u8>,
                ArtError,
            >(e),
        },
{
    let ghost data = buf@.subrange(at as int, at + size);
    let blen = buf.len();
    let mut out: Vec<u8> = Vec::new();
    let mut p: usize = 0;
    assert(out@ + Seq::<u8>::empty() =~= out@);
    while p < size
        invariant
            at as int + size as int <= buf@.len(),
            buf@.len() <= usize::MAX,
            data == buf@.subrange(at as int, at + size),
            p <= size,
            out@.len() <= cap,
            rle_decode(data, 0, cap as int) == prepend(
                out@,
                rle_decode(data, p as int, cap - out@.len()),
            ),
        decreases size - p,
    {
        let c = buf[at + p];
        let n = (c & 0x7f) as usize;
        assert((c & 0x7f) == c % 128 && ((c & 0x80) != 0) == (c >= 128)) by (bit_vector);
        let room = cap - out.len();
        let ghost before = out@;
        let ghost p0 = p as int;
        assert(data[p0] == c);
        if c & 0x80 != 0 {
            if n >= size - p {
                return Err(ArtError::Slice);
            }
            if n > room {
                return Err(ArtError::PixelOverflow);
            }
            let mut k: usize = 0;
            while k < n
                invariant
                    at as int + size as int <= buf@.len(),
                    buf@.len() <= usize::MAX,
                    data == buf@.subrange(at as int, at + size),
                    p + n < size,
                    k <= n,
                    out@ == before + data.subrange(p + 1, p + 1 + k),
                decreases n - k,
            {
                out.push(buf[at + p + 1 + k]);
                k += 1;
                assert(out@ =~= before + data.subrange(p + 1, p + 1 + k));
            }
            p = p + 1 + n;
        } else {
            if size - p < 2 {
                return Err(ArtError::Slice);
            }
            if n > room {
                return Err(ArtError::PixelOverflow);
            }
            let v = buf[at + p + 1];
            let mut k: usize = 0;
            while k < n
                invariant
                    k <= n,
                    p + 1 < size,
                    data.len() == size,
                    v == data[p + 1],
                    out@ == before + Seq::new(k as nat, |i: int| data[p + 1]),
                decreases n - k,
            {
                out.push(v);
                k += 1;
                assert(out@ =~= before + Seq::new(k as nat, |i: int| data[p + 1]));
            }
            p = p + 2;
        }
        proof {
            let blk = block_pixels(data, p0);
            assert(out@ =~= before + blk);
            assert(rle_decode(data, p0, room as int) == prepend(
                blk,
                rle_decode(data, p as int, room - n),
            ));
            lemma_prepend_assoc(before, blk, rle_decode(data, p as int, room - n));
        }
    }
    assert(out@ + Seq::<u8>::empty() =~= out@);
    Ok(out)
}

/// Decoded pixels hold one byte per pixel.
pub proof fn lemma_frame_pixels_len(h: ArtFrameHeader, data: Seq<u8>)
    requires
        data.len() == h.size,
        frame_pixels(h, data) is Ok,
    ensures
        frame_pixels(h, data)->Ok_0.len() == pixel_count(h),
{
}

/// The stored payload of a frame whose bytes begin at `at`.
pub open spec fn payload_at(h: ArtFrameHeader, s: Seq<u8>, at: int) -> Seq<u8> {
    s.subrange(at, at + h.size)
}

/// Decodes the pixels of a frame whose payload is `buf[at..at + size]`.
pub fn decode_pixels(header: &ArtFrameHeader, buf: &[u8], at: usize) -> (r: Result<
    Vec<u8>,
    ArtError,
>)
    requires
        at as int + header.size as int <= buf@.len(),
    ensures
        match r {
            Ok(v) => frame_pixels(*header, payload_at(*header, buf@, at as int)) == Ok::<
                Seq<u8>,
                ArtError,
            >(v@),
            Err(e) => frame_pixels(*header, payload_at(*header, buf@, at as int)) == Err::<
                Seq<u8>,
                ArtError,
            >(e),
        },
{
    let ghost data = payload_at(*header, buf@, at as int);
    let w = header.width as u64;
    let h = header.height as u64;
    assert(w * h <= u64::MAX) by (nonlinear_arith)
        requires
            w <= u32::MAX,
            h <= u32::MAX,
    ;
    let n = w * h;
    let size = header.size as usize;
    if header.size as u64 >= n {
        let n = n as usize;
        let blen = buf.len();
        let mut out: Vec<u8> = Vec::new();
        let mut i: usize = 0;
        while i < n
            invariant
                blen == buf@.len(),
                n <= size,
                at as int + size as int <= buf@.len(),
                size == header.size,
                data == payload_at(*header, buf@, at as int),
                i <= n,
                out@ == data.take(i as int),
            decreases n - i,
        {
            out.push(buf[at + i]);
            i += 1;
            assert(out@ =~= data.take(i as int));
        }
        Ok(out)
    } else if n > usize::MAX as u64 {
        Err(ArtError::TooLarge)
    } else {
        let n = n as usize;
        let out = rle_run(buf, at, size, n)?;
        if out.len() == n {
            Ok(out)
        } else {
            Err(ArtError::Slice)
        }
    }
}

/// One frame of a sprite image: its header and, once loaded, its pixels as
/// palette indices in row-major order.
#[derive(Clone, Debug)]
pub struct ArtFrame {
    pub header: ArtFrameHeader,
    pub pixels: Vec<u8>,
}

impl ArtFrame {
    /// A loaded frame holds exactly one byte per pixel.
    pub open spec fn wf(&self) -> bool {
        self.pixels@.len() == pixel_count(self.header)
    }

    /// Reads the header of a frame stored at `at`; its pixels come later.
    pub fn header_from_buffer(buf: &[u8], at: usize) -> (r: Result<ArtFrame, ArtError>)
        ensures
            at as int + 28 <= buf@.len() ==> (r matches Ok(f) && f.header == frame_header_at(
                buf@,
                at as int,
            ) && f.pixels@.len() == 0),
            at as int + 28 > buf@.len() ==> r == Err::<ArtFrame, ArtError>(ArtError::Slice),
    {
        let header = ArtFrameHeader::from_buffer(buf, at)?;
        Ok(ArtFrame { header, pixels: Vec::new() })
    }

    /// Decodes this frame's pixels from its payload `buf[at..at + size]`.
    pub fn load_pixels_from_buffer(&mut self, buf: &[u8], at: usize) -> (r: Result<(), ArtError>)
        requires
            at as int + old(self).header.size as int <= buf@.len(),
        ensures
            final(self).header == old(self).header,
            match r {
                Ok(_) => frame_pixels(old(self).header, payload_at(old(self).header, buf@, at as int))
                    == Ok::<Seq<u8>, ArtError>(final(self).pixels@),
                Err(e) => frame_pixels(old(self).header, payload_at(old(self).header, buf@, at as int))
                    == Err::<Seq<u8>, ArtError>(e),
            },
    {
        let pixels = decode_pixels(&self.header, buf, at)?;
        self.pixels = pixels;
        Ok(())
    }

    /// Bytes of stored payload.
    pub fn size(&self) -> (r: usize)
        ensures
            r == self.header.size,
    {
        self.header.size as usize
    }

    /// Width in pixels.
    pub fn width(&self) -> (r: usize)
        ensures
            r == self.header.width,
    {
        self.header.width as usize
    }
}

} // verus!
