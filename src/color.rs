//! Colour records and the palettes and colour tables built from them.
use vstd::prelude::*;

use crate::art::ArtError;

verus! {

/// One colour record: blue, green, red and an alpha that counts transparency
/// (255 minus the opacity).
#[derive(Clone, Copy, Debug, PartialEq, Eq, Structural)]
pub struct Color {
    pub b: u8,
    pub g: u8,
    pub r: u8,
    pub a: u8,
}

/// Bytes taken by one colour record.
pub const COLOR_SIZE: usize = 4;

/// Colours in an embedded header palette.
pub const PALETTE_LEN: usize = 8;

/// Colours in a colour table: one for each 8-bit pixel sample.
pub const TABLE_LEN: usize = 256;

/// Bytes taken by one colour table.
pub const TABLE_SIZE: usize = 1024;

/// The colour record stored at `at`: blue, green, red, alpha in that order.
pub open spec fn color_at(s: Seq<u8>, at: int) -> Color {
    Color { b: s[at], g: s[at + 1], r: s[at + 2], a: s[at + 3] }
}

/// The `n` consecutive colour records stored from `at` on, without padding.
pub open spec fn colors_at(s: Seq<u8>, at: int, n: nat) -> Seq<Color> {
    Seq::new(n, |i: int| color_at(s, at + 4 * i))
}

/// A colour is in use when any of its four bytes is nonzero.
pub open spec fn is_active(c: Color) -> bool {
    c.b != 0 || c.g != 0 || c.r != 0 || c.a != 0
}

impl Color {
    /// Reads the colour record at `at`.
    pub fn from_buffer(buf: &[u8], at: usize) -> (r: Result<Color, ArtError>)
        ensures
            at as int + 4 <= buf@.len() ==> r == Ok::<Color, ArtError>(color_at(buf@, at as int)),
            at as int + 4 > buf@.len() ==> r == Err::<Color, ArtError>(ArtError::Slice),
    {
        if at > buf.len() || buf.len() - at < COLOR_SIZE {
            return Err(ArtError::Slice);
        }
        Ok(Color { b: buf[at], g: buf[at + 1], r: buf[at + 2], a: buf[at + 3] })
    }

    /// Whether this colour is in use: some byte of it is nonzero.
    pub fn in_palette(&self) -> (r: bool)
        ensures
            r == is_active(*self),
    {
        let (b, g, r, a) = (self.b, self.g, self.r, self.a);
        let any = b | g | r | a;
        assert((b | g | r | a) == 0 <==> (b == 0 && g == 0 && r == 0 && a == 0)) by (bit_vector);
        any != 0
    }

    /// The colour's opacity, `255 - a`.
    pub fn opacity(&self) -> (r: u8)
        ensures
            r == 255 - self.a,
    {
        255 - self.a
    }
}

/// Whether `color` is in use: some byte of it is nonzero.
pub fn in_palette(color: &Color) -> (r: bool)
    ensures
        r == is_active(*color),
{
    color.in_palette()
}

/// Reads `n` consecutive colour records starting at `at`.
fn read_colors(buf: &[u8], at: usize, n: usize) -> (r: Result<Vec<Color>, ArtError>)
    ensures
        at as int + 4 * n as int <= buf@.len() ==> (r matches Ok(v) && v@ == colors_at(buf@, at as int, n as nat)),
        at as int + 4 * n as int > buf@.len() ==> r == Err::<Vec<Color>, ArtError>(
            ArtError::Slice,
        ),
{
    if at > buf.len() || (buf.len() - at) / 4 < n {
        return Err(ArtError::Slice);
    }
    proof {
        let room = (buf@.len() - at) as int;
        assert(4 * n <= room) by (nonlinear_arith)
            requires
                room / 4 >= n,
                room >= 0,
        ;
    }
    let mut colors: Vec<Color> = Vec::new();
    let mut i: usize = 0;
    let mut pos: usize = at;
    while i < n
        invariant
            i <= n,
            pos == at + 4 * i,
            buf@.len() <= usize::MAX,
            at as int + 4 * n as int <= buf@.len(),
            colors@ == colors_at(buf@, at as int, i as nat),
        decreases n - i,
    {
        let c = Color::from_buffer(buf, pos)?;
        colors.push(c);
        i += 1;
        pos += 4;
        assert(colors@ =~= colors_at(buf@, at as int, i as nat));
    }
    Ok(colors)
}

/// An embedded header palette: eight colours in stored order.
#[derive(Clone, Debug)]
pub struct ColorPalette(Vec<Color>);

impl View for ColorPalette {
    type V = Seq<Color>;

    closed spec fn view(&self) -> Seq<Color> {
        self.0@
    }
}

impl ColorPalette {
    /// Reads the eight colour records of a palette starting at `at`.
    pub fn from_buffer(buf: &[u8], at: usize) -> (r: Result<ColorPalette, ArtError>)
        ensures
            at as int + 32 <= buf@.len() ==> (r matches Ok(p) && p@ == colors_at(buf@, at as int, 8)),
            at as int + 32 > buf@.len() ==> r == Err::<ColorPalette, ArtError>(ArtError::Slice),
    {
        let colors = read_colors(buf, at, PALETTE_LEN)?;
        Ok(ColorPalette(colors))
    }

    /// The palette's colours in stored order.
    pub fn colors(&self) -> (r: &Vec<Color>)
        ensures
            r@ == self@,
    {
        &self.0
    }
}

/// A colour table: 256 colours, indexed by an 8-bit pixel sample.
#[derive(Clone, Debug)]
pub struct ColorTable(Vec<Color>);

impl View for ColorTable {
    type V = Seq<Color>;

    closed spec fn view(&self) -> Seq<Color> {
        self.0@
    }
}

impl ColorTable {
    /// Reads the 256 colour records of a table starting at `at`.
    pub fn from_buffer(buf: &[u8], at: usize) -> (r: Result<ColorTable, ArtError>)
        ensures
            at as int + 1024 <= buf@.len() ==> (r matches Ok(t) && t@ == colors_at(buf@, at as int, 256)),
            at as int + 1024 > buf@.len() ==> r == Err::<ColorTable, ArtError>(ArtError::Slice),
    {
        let colors = read_colors(buf, at, TABLE_LEN)?;
        Ok(ColorTable(colors))
    }

    /// The table's colours, indexed by pixel sample.
    pub fn colors(&self) -> (r: &Vec<Color>)
        ensures
            r@ == self@,
    {
        &self.0
    }
}

} // verus!
