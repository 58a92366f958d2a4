//! What a node draws, and the draw commands handed to the render sink.
//!
//! Fonts and vector paths are resources owned by the external rasterizer;
//! the library refers to them by opaque numeric handles. Text carries the
//! glyph placements and dimensions that the external measurement service
//! computed, as plain values.

use vstd::prelude::*;

verus! {

/// An RGBA colour with 8-bit channels.
#[derive(Copy, Clone, PartialEq, Eq, Structural, Debug)]
pub struct Color {
    pub r: u8,
    pub g: u8,
    pub b: u8,
    pub a: u8,
}

impl Color {
    pub fn rgba(r: u8, g: u8, b: u8, a: u8) -> (c: Color)
        ensures
            c == (Color { r, g, b, a }),
    {
        Color { r, g, b, a }
    }
}

/// One glyph of a shaped text run: the rasterizer's glyph identifier and
/// the glyph's position relative to the run origin.
#[derive(Copy, Clone, PartialEq, Eq, Structural, Debug)]
pub struct Glyph {
    pub id: u32,
    pub x: i64,
    pub y: i64,
}

/// The result of shaping and measuring a text run, as returned by the
/// external text measurement service: glyph placements plus the bounding
/// width and height of the run.
#[derive(Clone, PartialEq, Eq, Debug)]
pub struct TextRun {
    pub glyphs: Vec<Glyph>,
    pub width: u32,
    pub height: u32,
}

/// The draw instruction stored on a retained node. Positions are relative
/// to the node's own origin.
#[derive(Clone, PartialEq, Eq, Debug)]
pub enum Shape {
    Empty,
    Rect { x: i64, y: i64, width: u32, height: u32, color: Color },
    Text { x: i64, y: i64, font: u32, size: u32, glyphs: Vec<Glyph>, color: Color },
    Path { x: i64, y: i64, path: u32, color: Color },
}

/// A draw command emitted while walking the retained tree, with the
/// position resolved to absolute coordinates. The render sink consumes
/// these.
#[derive(Clone, PartialEq, Eq, Debug)]
pub enum DrawCmd {
    Rect { x: i64, y: i64, width: u32, height: u32, color: Color },
    Text { x: i64, y: i64, font: u32, size: u32, glyphs: Vec<Glyph>, color: Color },
    Path { x: i64, y: i64, path: u32, color: Color },
}

/// Copies a glyph list element by element.
pub fn copy_glyphs(glyphs: &Vec<Glyph>) -> (r: Vec<Glyph>)
    ensures
        r@ == glyphs@,
{
    let mut out: Vec<Glyph> = Vec::new();
    let mut i: usize = 0;
    while i < glyphs.len()
        invariant
            i <= glyphs.len(),
            out@ == glyphs@.take(i as int),
        decreases glyphs.len() - i,
    {
        out.push(glyphs[i]);
        i += 1;
        proof {
            assert(glyphs@.take(i as int) =~= glyphs@.take(i as int - 1).push(glyphs@[i - 1]));
        }
    }
    proof {
        assert(glyphs@.take(glyphs@.len() as int) =~= glyphs@);
    }
    out
}

} // verus!
