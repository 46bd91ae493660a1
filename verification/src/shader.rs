//! Colours, and the normalised greyscale shader.

use crate::sampler::Fraction;
use vstd::prelude::*;

verus! {

/// A colour as three channel intensities of type `T`.
#[derive(Debug, PartialEq, Eq)]
pub struct Rgb<T> {
    pub r: T,
    pub g: T,
    pub b: T,
}

impl<T: Copy> Clone for Rgb<T> {
    fn clone(&self) -> (c: Self)
        ensures
            c == *self,
    {
        *self
    }
}

impl<T: Copy> Copy for Rgb<T> {

}

/// The grey level for escape time `val` under a budget of `max`, as numerator
/// and denominator: `val / max` below `max - 1`, and 0 from `max - 1` on, which
/// keeps the points that outlast the budget black.
pub open spec fn grey_level(val: nat, max: nat) -> (nat, nat) {
    if val + 1 < max {
        (val, max)
    } else {
        (0, 1)
    }
}

/// Shades an escape time as a grey: all three channels hold
/// `grey_level(val, max)`.
pub fn shade(val: usize, max: usize) -> (c: Rgb<Fraction>)
    ensures
        c.r.num == grey_level(val as nat, max as nat).0,
        c.r.den == grey_level(val as nat, max as nat).1,
        c.g == c.r,
        c.b == c.r,
        c.r.in_unit_interval(),
{
    let v = if val < max && val + 1 < max {
        Fraction { num: val as u64, den: max as u64 }
    } else {
        Fraction { num: 0, den: 1 }
    };
    Rgb { r: v, g: v, b: v }
}

} // verus!
