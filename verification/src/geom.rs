//! Sizes, offsets and layout constraints.
//!
//! All geometry is integral: sizes are `u32` (non-negative by type), offsets
//! and absolute positions are `i64`. Arithmetic on sizes and positions
//! saturates at the type bounds; the spec functions below state the exact
//! results, saturation included.

use vstd::prelude::*;

verus! {

/// The largest representable size.
pub const MAX_SIZE: u32 = 0xffff_ffff;

/// Sum of two sizes, saturating at [`MAX_SIZE`].
pub open spec fn sat_add32(a: int, b: int) -> int {
    if a + b > MAX_SIZE { MAX_SIZE as int } else { a + b }
}

/// Difference of two sizes, clamped to be non-negative.
pub open spec fn sat_sub32(a: int, b: int) -> int {
    if a - b < 0 { 0 } else { a - b }
}

/// Sum of two positions, saturating at the `i64` bounds.
pub open spec fn sat_add64(a: int, b: int) -> int {
    if a + b > i64::MAX {
        i64::MAX as int
    } else if a + b < i64::MIN {
        i64::MIN as int
    } else {
        a + b
    }
}

/// The larger of two sizes.
pub open spec fn max32(a: int, b: int) -> int {
    if a >= b { a } else { b }
}

/// Saturating size addition.
pub fn size_add(a: u32, b: u32) -> (r: u32)
    ensures
        r == sat_add32(a as int, b as int),
{
    if a > MAX_SIZE - b {
        MAX_SIZE
    } else {
        a + b
    }
}

/// Clamped size subtraction.
pub fn size_sub(a: u32, b: u32) -> (r: u32)
    ensures
        r == sat_sub32(a as int, b as int),
{
    if a < b {
        0
    } else {
        a - b
    }
}

/// Saturating position addition.
pub fn pos_add(a: i64, b: i64) -> (r: i64)
    ensures
        r == sat_add64(a as int, b as int),
{
    if b >= 0 {
        if a > i64::MAX - b {
            i64::MAX
        } else {
            a + b
        }
    } else {
        if a < i64::MIN - b {
            i64::MIN
        } else {
            a + b
        }
    }
}

/// The larger of two sizes, executable form.
pub fn size_max(a: u32, b: u32) -> (r: u32)
    ensures
        r == max32(a as int, b as int),
{
    if a >= b {
        a
    } else {
        b
    }
}

/// One axis of a layout constraint: a finite maximum size, or no limit at
/// all (used by containers that want a child's natural size on that axis).
#[derive(Copy, Clone, PartialEq, Eq, Structural)]
pub enum Extent {
    Finite(u32),
    Unbounded,
}

impl Extent {
    /// Shrinks a finite extent by `amount` on both ends, clamped at zero;
    /// an unbounded extent stays unbounded.
    pub open spec fn spec_shrink(self, amount: int) -> Extent {
        match self {
            Extent::Finite(v) => Extent::Finite(sat_sub32(v as int, amount) as u32),
            Extent::Unbounded => Extent::Unbounded,
        }
    }

    /// Executable form of [`Extent::spec_shrink`].
    pub fn shrink(self, amount: u32) -> (r: Extent)
        ensures
            r == self.spec_shrink(amount as int),
    {
        match self {
            Extent::Finite(v) => Extent::Finite(size_sub(v, amount)),
            Extent::Unbounded => Extent::Unbounded,
        }
    }
}

/// The maximum width and height a parent offers a child during measurement.
#[derive(Copy, Clone, PartialEq, Eq, Structural)]
pub struct Bounds {
    pub width: Extent,
    pub height: Extent,
}

impl Bounds {
    pub fn new(width: Extent, height: Extent) -> (r: Bounds)
        ensures
            r == (Bounds { width, height }),
    {
        Bounds { width, height }
    }
}

} // verus!
