//! The low-discrepancy sampler: radical inverses of the Halton sequence as
//! exact fractions, and the sample offsets of a pixel recentred on its
//! middle. Turning a fraction into a rounded number is left to the caller.

use vstd::prelude::*;

verus! {

/// The non-negative fraction `num / den`.
#[derive(Clone, Copy, Debug, PartialEq, Eq)]
pub struct Fraction {
    pub num: u64,
    pub den: u64,
}

/// The signed fraction `num / den`, for an offset from the middle of a pixel.
#[derive(Clone, Copy, Debug, PartialEq, Eq)]
pub struct Offset {
    pub num: i64,
    pub den: u64,
}

impl Fraction {
    /// The fraction lies in `[0, 1)`.
    pub open spec fn in_unit_interval(self) -> bool {
        self.num < self.den
    }
}

impl Offset {
    /// The offset lies in `[-1/2, 1/2)`.
    pub open spec fn in_half_interval(self) -> bool {
        -(self.den as int) <= 2 * self.num < self.den
    }

    /// The offset is `f` moved down by a half: `f.num / f.den - 1 / 2`, over
    /// twice the denominator of `f`.
    pub open spec fn recentres(self, f: Fraction) -> bool {
        self.num == 2 * f.num - f.den && self.den == 2 * f.den
    }
}

/// The largest numerator and denominator of a fraction that `recentre` takes.
pub const RECENTRE_MAX: u64 = 0x3fff_ffff_ffff_ffff;

/// The pair of fractions is the Halton point for `index`.
pub open spec fn is_halton23(point: (Fraction, Fraction), index: nat) -> bool {
    &&& point.0.num == radical_num(index, 2)
    &&& point.0.den == radical_den(index, 2)
    &&& point.1.num == radical_num(index, 3)
    &&& point.1.den == radical_den(index, 3)
}

/// The offset is the radical inverse of `index` in `base`, less a half.
pub open spec fn is_recentred_radical(offset: Offset, index: nat, base: nat) -> bool {
    &&& offset.num == 2 * radical_num(index, base) - radical_den(index, base)
    &&& offset.den == 2 * radical_den(index, base)
}

/// The pair of offsets is the Halton point for `index`, recentred on the
/// middle of the unit square.
pub open spec fn is_sample_offset(offset: (Offset, Offset), index: nat) -> bool {
    is_recentred_radical(offset.0, index, 2) && is_recentred_radical(offset.1, index, 3)
}

/// Dropping the lowest digit of a number that is not 0 makes it smaller.
pub proof fn lemma_quotient_smaller(index: nat, base: nat)
    requires
        index > 0,
        base >= 2,
    ensures
        index / base < index,
{
    assert(index / base < index) by (nonlinear_arith)
        requires
            index > 0,
            base >= 2,
    ;
}

#[via_fn]
proof fn radical_den_terminates(index: nat, base: nat) {
    if index != 0 && base >= 2 {
        lemma_quotient_smaller(index, base);
    }
}

#[via_fn]
proof fn radical_num_terminates(index: nat, base: nat) {
    if index != 0 && base >= 2 {
        lemma_quotient_smaller(index, base);
    }
}

/// Denominator of the radical inverse of `index` in `base`: `base` to the
/// number of digits that `index` has in `base`.
pub open spec fn radical_den(index: nat, base: nat) -> nat
    decreases index,
    via radical_den_terminates
{
    if index == 0 || base < 2 {
        1
    } else {
        base * radical_den(index / base, base)
    }
}

/// Numerator of the radical inverse of `index` in `base` over
/// `radical_den(index, base)`. The radical inverse mirrors the digits of
/// `index` at the point: with `d` the lowest digit and `r` the radical
/// inverse of the other digits, it is `(d + r) / base`.
pub open spec fn radical_num(index: nat, base: nat) -> nat
    decreases index,
    via radical_num_terminates
{
    if index == 0 || base < 2 {
        0
    } else {
        (index % base) * radical_den(index / base, base) + radical_num(index / base, base)
    }
}

/// The radical inverse lies in `[0, 1)`.
pub proof fn lemma_radical_inverse_below_one(index: nat, base: nat)
    ensures
        radical_num(index, base) < radical_den(index, base),
    decreases index,
{
    if index != 0 && base >= 2 {
        let rest = index / base;
        let d = index % base;
        lemma_quotient_smaller(index, base);
        vstd::arithmetic::div_mod::lemma_mod_bound(index as int, base as int);
        lemma_radical_inverse_below_one(rest, base);
        let rd = radical_den(rest, base);
        let rn = radical_num(rest, base);
        assert(d * rd + rn < base * rd) by (nonlinear_arith)
            requires
                d < base,
                rn < rd,
        ;
    }
}

/// The denominator of the radical inverse is at most `index * base`.
pub proof fn lemma_radical_den_bound(index: nat, base: nat)
    requires
        index >= 1,
        base >= 2,
    ensures
        base <= radical_den(index, base) <= index * base,
    decreases index,
{
    let rest = index / base;
    if rest == 0 {
        assert(radical_den(rest, base) == 1);
        assert(base * 1 <= index * base) by (nonlinear_arith)
            requires
                index >= 1,
        ;
    } else {
        lemma_quotient_smaller(index, base);
        lemma_radical_den_bound(rest, base);
        let rd = radical_den(rest, base);
        assert(rest * base <= index) by (nonlinear_arith)
            requires
                rest == index / base,
                base >= 2,
        ;
        assert(base <= base * rd && base * rd <= index * base) by (nonlinear_arith)
            requires
                base <= rd <= rest * base,
                rest * base <= index,
                base >= 2,
        ;
    }
}

/// The radical inverse of `index` in `base`, as the exact fraction
/// `radical_num / radical_den`: the digits of `index` in `base`, lowest
/// first, become the digits after the point. It lies in `[0, 1)` and is 0 for
/// index 0.
pub fn halton(index: u32, base: u32) -> (r: Fraction)
    requires
        base >= 2,
    ensures
        r.num == radical_num(index as nat, base as nat),
        r.den == radical_den(index as nat, base as nat),
        r.in_unit_interval(),
        index == 0 ==> r.num == 0 && r.den == 1,
        index >= 1 ==> base <= r.den <= index * base,
{
    let b: u64 = base as u64;
    let mut num: u64 = 0;
    let mut den: u64 = 1;
    let mut i: u64 = index as u64;
    proof {
        lemma_radical_inverse_below_one(index as nat, base as nat);
        if index >= 1 {
            lemma_radical_den_bound(index as nat, base as nat);
            assert(index * base <= u64::MAX) by (nonlinear_arith)
                requires
                    index <= u32::MAX,
                    base <= u32::MAX,
            ;
        }
    }
    while i > 0
        invariant
            b == base,
            b >= 2,
            i <= index,
            num < den,
            radical_den(index as nat, base as nat) <= u64::MAX,
            radical_num(index as nat, base as nat) == num * radical_den(i as nat, b as nat)
                + radical_num(i as nat, b as nat),
            radical_den(index as nat, base as nat) == den * radical_den(i as nat, b as nat),
        decreases i,
    {
        let digit = i % b;
        let rest = i / b;
        proof {
            lemma_quotient_smaller(i as nat, b as nat);
            let rd = radical_den(rest as nat, b as nat);
            let rn = radical_num(rest as nat, b as nat);
            assert(radical_den(i as nat, b as nat) == b * rd);
            assert(radical_num(i as nat, b as nat) == digit * rd + rn);
            assert(rd >= 1) by {
                if rest >= 1 {
                    lemma_radical_den_bound(rest as nat, b as nat);
                }
            }
            assert(den * (b * rd) == (den * b) * rd) by (nonlinear_arith);
            assert(den * b <= (den * b) * rd) by (nonlinear_arith)
                requires
                    rd >= 1,
            ;
            assert(num * b + digit < den * b) by (nonlinear_arith)
                requires
                    num < den,
                    digit < b,
            ;
            assert(num * (b * rd) + (digit * rd + rn) == (num * b + digit) * rd + rn)
                by (nonlinear_arith);
        }
        num = num * b + digit;
        den = den * b;
        i = rest;
    }
    proof {
        let one = radical_den(0, b as nat);
        assert(one == 1);
        assert(num * one == num && den * one == den) by (nonlinear_arith)
            requires
                one == 1,
        ;
    }
    Fraction { num, den }
}

/// The point of the Halton sequence for `index` in the plane: the radical
/// inverses in base 2 and in base 3.
pub fn halton23(index: u32) -> (r: (Fraction, Fraction))
    ensures
        is_halton23(r, index as nat),
        r.0.in_unit_interval(),
        r.1.in_unit_interval(),
        r.0.den <= RECENTRE_MAX,
        r.1.den <= RECENTRE_MAX,
{
    (halton(index, 2), halton(index, 3))
}

/// Moves a fraction down by a half, which sends `[0, 1)` to `[-1/2, 1/2)`.
pub fn recentre(f: Fraction) -> (o: Offset)
    requires
        f.num <= RECENTRE_MAX,
        f.den <= RECENTRE_MAX,
    ensures
        o.recentres(f),
        f.in_unit_interval() ==> o.in_half_interval(),
{
    Offset { num: 2 * (f.num as i64) - (f.den as i64), den: 2 * f.den }
}

/// The offsets of `count` samples from the middle of a pixel, in units of
/// the filter's width: the Halton points for the indices below `count`, in
/// order, each recentred. They depend on `count` alone.
pub fn sample_offsets(count: u32) -> (offsets: Vec<(Offset, Offset)>)
    ensures
        offsets.len() == count,
        forall|i: int| 0 <= i < count ==> is_sample_offset(#[trigger] offsets[i], i as nat),
        forall|i: int|
            0 <= i < count ==> (#[trigger] offsets[i]).0.in_half_interval()
                && offsets[i].1.in_half_interval(),
{
    let mut offsets: Vec<(Offset, Offset)> = Vec::new();
    let mut index: u32 = 0;
    while index < count
        invariant
            index <= count,
            offsets.len() == index,
            forall|i: int| 0 <= i < index ==> is_sample_offset(#[trigger] offsets[i], i as nat),
            forall|i: int|
                0 <= i < index ==> (#[trigger] offsets[i]).0.in_half_interval()
                    && offsets[i].1.in_half_interval(),
        decreases count - index,
    {
        let point = halton23(index);
        offsets.push((recentre(point.0), recentre(point.1)));
        index += 1;
    }
    offsets
}

} // verus!
