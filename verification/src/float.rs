//! Single precision numbers, held by their bit pattern.

use vstd::arithmetic::power2::{
    lemma_pow2_pos, lemma_pow2_strictly_increases, lemma_pow2_unfold, pow2,
};
use vstd::prelude::*;

verus! {

/// The bits of an IEEE 754 binary32 number below its sign bit.
pub open spec fn magnitude(bits: u32) -> int {
    if bits < 0x8000_0000 {
        bits as int
    } else {
        bits - 0x8000_0000
    }
}

/// Whether the bit pattern is one of the "not a number" patterns.
pub open spec fn is_nan(bits: u32) -> bool {
    magnitude(bits) > 0x7f80_0000
}

/// A number that orders the bit patterns as the numbers they stand for; both zeros have rank 0.
pub open spec fn rank(bits: u32) -> int {
    if bits < 0x8000_0000 {
        magnitude(bits)
    } else {
        -magnitude(bits)
    }
}

/// An IEEE 754 binary32 number, as `f32::to_bits` gives it.
#[derive(Clone, Copy, Debug, PartialEq, Eq, Structural)]
pub struct Float {
    pub bits: u32,
}

impl Float {
    /// `self < other` of the IEEE order: no "not a number" is below or above anything.
    pub open spec fn below(self, other: Float) -> bool {
        !is_nan(self.bits) && !is_nan(other.bits) && rank(self.bits) < rank(other.bits)
    }

    /// `self == other` of the IEEE order: both zeros are the same number, and no
    /// "not a number" is the same as anything.
    pub open spec fn same(self, other: Float) -> bool {
        !is_nan(self.bits) && !is_nan(other.bits) && rank(self.bits) == rank(other.bits)
    }

    /// Positive zero.
    pub fn zero() -> (r: Float)
        ensures
            r.bits == 0,
    {
        Float { bits: 0 }
    }

    /// Whether `self` is a number, and its rank.
    fn rank_of(self) -> (r: Option<i64>)
        ensures
            r is None <==> is_nan(self.bits),
            r matches Some(n) ==> n == rank(self.bits),
    {
        let negative: bool = self.bits >= 0x8000_0000;
        let size: u32 = if negative {
            self.bits - 0x8000_0000
        } else {
            self.bits
        };
        if size > 0x7f80_0000 {
            None
        } else if negative {
            Some(-(size as i64))
        } else {
            Some(size as i64)
        }
    }

    /// `self < other`.
    pub fn lt(self, other: Float) -> (r: bool)
        ensures
            r == self.below(other),
    {
        match (self.rank_of(), other.rank_of()) {
            (Some(a), Some(b)) => a < b,
            _ => false,
        }
    }

    /// `self > other`.
    pub fn gt(self, other: Float) -> (r: bool)
        ensures
            r == other.below(self),
    {
        other.lt(self)
    }

    /// `self == other`, as numbers.
    pub fn number_eq(self, other: Float) -> (r: bool)
        ensures
            r == self.same(other),
    {
        match (self.rank_of(), other.rank_of()) {
            (Some(a), Some(b)) => a == b,
            _ => false,
        }
    }
}

/// Of two numbers exactly one is below the other, or they are the same.
pub proof fn law_trichotomy(a: Float, b: Float)
    requires
        !is_nan(a.bits),
        !is_nan(b.bits),
    ensures
        a.below(b) || a.same(b) || b.below(a),
        !(a.below(b) && a.same(b)),
        !(a.below(b) && b.below(a)),
        !(a.same(b) && b.below(a)),
{
}

/// The number that a bit pattern below the sign bit stands for, in units of the least one above
/// zero: a fraction of 23 bits, with a leading one in front of it and doubled as often as the
/// exponent says, unless the exponent is zero. Infinity counts as the next number after the
/// greatest.
pub open spec fn units(size: int) -> int {
    let exponent = size / 0x80_0000;
    let fraction = size % 0x80_0000;
    if exponent == 0 {
        fraction
    } else {
        (0x80_0000 + fraction) * pow2((exponent - 1) as nat)
    }
}

/// The number that a bit pattern stands for, in units of the least one above zero.
pub open spec fn number(bits: u32) -> int {
    if bits >= 0x8000_0000 {
        -units(bits - 0x8000_0000)
    } else {
        units(bits as int)
    }
}

/// A greater size is a greater number.
proof fn lemma_units(a: int, b: int)
    requires
        0 <= a < b,
    ensures
        0 <= units(a) < units(b),
{
    let (ea, fa) = (a / 0x80_0000, a % 0x80_0000);
    let (eb, fb) = (b / 0x80_0000, b % 0x80_0000);
    if ea > 0 {
        lemma_pow2_pos((ea - 1) as nat);
        let p = pow2((ea - 1) as nat) as int;
        assert(0 <= (0x80_0000 + fa) * p) by (nonlinear_arith)
            requires
                0 <= fa,
                0 < p,
        ;
        if ea == eb {
            assert((0x80_0000 + fa) * p < (0x80_0000 + fb) * p) by (nonlinear_arith)
                requires
                    fa < fb,
                    0 < p,
            ;
        } else {
            lemma_pow2_unfold(ea as nat);
            let q = pow2((eb - 1) as nat) as int;
            if ea < eb - 1 {
                lemma_pow2_strictly_increases(ea as nat, (eb - 1) as nat);
            }
            assert((0x80_0000 + fa) * p < (0x80_0000 + fb) * q) by (nonlinear_arith)
                requires
                    0 <= fa < 0x80_0000,
                    0 <= fb,
                    0 < p,
                    2 * p <= q,
            ;
        }
    } else if eb > 0 {
        lemma_pow2_pos((eb - 1) as nat);
        let q = pow2((eb - 1) as nat) as int;
        assert(fa < (0x80_0000 + fb) * q) by (nonlinear_arith)
            requires
                0 <= fa < 0x80_0000,
                0 <= fb,
                0 < q,
        ;
    }
}

/// Bit patterns compare as the numbers that they stand for.
pub proof fn law_order_is_that_of_numbers(a: Float, b: Float)
    requires
        a.bits % 0x8000_0000 <= 0x7f80_0000,
        b.bits % 0x8000_0000 <= 0x7f80_0000,
    ensures
        a.below(b) <==> number(a.bits) < number(b.bits),
        a.same(b) <==> number(a.bits) == number(b.bits),
{
    let x = magnitude(a.bits);
    let y = magnitude(b.bits);
    if x < y {
        lemma_units(x, y);
    }
    if y < x {
        lemma_units(y, x);
    }
    if x > 0 {
        lemma_units(0, x);
    }
    if y > 0 {
        lemma_units(0, y);
    }
}

/// What is not a number is neither below nor above anything, nor the same as anything.
pub proof fn law_what_is_no_number(a: Float, b: Float)
    requires
        a.bits % 0x8000_0000 > 0x7f80_0000 || b.bits % 0x8000_0000 > 0x7f80_0000,
    ensures
        !a.below(b),
        !b.below(a),
        !a.same(b),
{
}

} // verus!
