//! Pixel lengths as fixed-point numbers.
//!
//! Every length in the engine is a whole number of 1/64-pixel units (the
//! familiar 26.6 fixed-point convention), so sub-pixel results such as the
//! halves produced by centering a box between two `auto` margins are exact,
//! and so all layout arithmetic is integer arithmetic.

use vstd::prelude::*;

verus! {

/// Fixed-point units per device-independent pixel.
pub const PX_SCALE: i64 = 64;

/// A signed length in 1/64-pixel units.
#[derive(Debug, Clone, Copy, PartialEq, Eq, Structural)]
pub struct Px {
    /// The length in 1/64-pixel units.
    pub raw: i64,
}

impl View for Px {
    type V = int;

    open spec fn view(&self) -> int {
        self.raw as int
    }
}

impl Px {
    /// The zero length.
    pub fn zero() -> (r: Px)
        ensures
            r@ == 0,
    {
        Px { raw: 0 }
    }

    /// A whole number of pixels.
    pub fn from_px(px: i64) -> (r: Px)
        requires
            i64::MIN <= px * PX_SCALE <= i64::MAX,
        ensures
            r@ == px * PX_SCALE,
    {
        Px { raw: px * PX_SCALE }
    }

    /// Half of a non-negative length, rounded down to the unit grid.
    pub fn halved(self) -> (r: Px)
        requires
            self@ >= 0,
        ensures
            r@ == self@ / 2,
    {
        Px { raw: ((self.raw as u64) / 2) as i64 }
    }

    /// The sum of two lengths.
    pub fn add(self, other: Px) -> (r: Px)
        requires
            i64::MIN <= self@ + other@ <= i64::MAX,
        ensures
            r@ == self@ + other@,
    {
        Px { raw: self.raw + other.raw }
    }

}

impl Default for Px {
    /// The zero length.
    fn default() -> (r: Px)
        ensures
            r@ == 0,
    {
        Px::zero()
    }
}

} // verus!
