//! Extended-precision values: a leading binary64 value and its small residual.
//!
//! Sums and products keep what a single rounding would lose. Every operation is a fixed
//! sequence of binary64 operations, so results are the same on every machine that rounds
//! to nearest.

use vstd::prelude::*;

use crate::arithmetic::{follows, Arithmetic, Model, ONE_BITS, ZERO_BITS};

verus! {

/// Factor that splits a significand into halves: 2^27 + 1.
pub const SPLIT_BITS: u64 = 0x41a0_0000_0200_0000;

/// Bits of the binary64 value nearest to pi.
pub const PI_LEADING_BITS: u64 = 0x4009_21fb_5444_2d18;

/// Bits of the binary64 value nearest to what the leading one leaves of pi.
pub const PI_RESIDUAL_BITS: u64 = 0x3ca1_a626_3314_5c07;

/// The sign of a binary64 value.
pub const SIGN_BIT: u64 = 0x8000_0000_0000_0000;

/// A leading value and its residual.
#[derive(Clone, Copy, Debug, PartialEq, Eq, Structural)]
pub struct Wide {
    /// Bits of the leading value.
    pub hi: u64,
    /// Bits of the residual.
    pub lo: u64,
}

/// A value without a residual.
pub open spec fn wide_of(bits: u64) -> Wide {
    Wide { hi: bits, lo: ZERO_BITS }
}

/// The constant pi.
pub open spec fn pi_of() -> Wide {
    Wide { hi: PI_LEADING_BITS, lo: PI_RESIDUAL_BITS }
}

/// An integer that binary64 holds exactly.
pub open spec fn integer_of(model: Model, n: int) -> Wide {
    wide_of((model.of_integer)(n as i64))
}

/// The sum of two binary64 values, and what its rounding lost.
pub open spec fn exact_sum_of(model: Model, a: u64, b: u64) -> Wide {
    let hi = (model.plus)(a, b);
    let part = (model.minus)(hi, a);
    Wide {
        hi,
        lo: (model.plus)((model.minus)(a, (model.minus)(hi, part)), (model.minus)(b, part)),
    }
}

/// The two halves of a significand.
pub open spec fn split_of(model: Model, x: u64) -> (u64, u64) {
    let scaled = (model.times)(SPLIT_BITS, x);
    let high = (model.minus)(scaled, (model.minus)(scaled, x));
    (high, (model.minus)(x, high))
}

/// The product of two binary64 values, and what its rounding lost.
pub open spec fn exact_product_of(model: Model, a: u64, b: u64) -> Wide {
    let (ah, al) = split_of(model, a);
    let (bh, bl) = split_of(model, b);
    let hi = (model.times)(a, b);
    let first = (model.minus)((model.times)(ah, bh), hi);
    let second = (model.plus)(first, (model.times)(ah, bl));
    let third = (model.plus)(second, (model.times)(al, bh));
    Wide { hi, lo: (model.plus)(third, (model.times)(al, bl)) }
}

/// `a + b`.
pub open spec fn sum_of(model: Model, a: Wide, b: Wide) -> Wide {
    let leading = exact_sum_of(model, a.hi, b.hi);
    let trailing = exact_sum_of(model, a.lo, b.lo);
    let combined = exact_sum_of(model, leading.hi, (model.plus)(leading.lo, trailing.hi));
    exact_sum_of(model, combined.hi, (model.plus)(combined.lo, trailing.lo))
}

/// `-a`.
pub open spec fn negated_of(a: Wide) -> Wide {
    Wide { hi: a.hi ^ SIGN_BIT, lo: a.lo ^ SIGN_BIT }
}

/// `a - b`.
pub open spec fn difference_of(model: Model, a: Wide, b: Wide) -> Wide {
    sum_of(model, a, negated_of(b))
}

/// `a * b`.
pub open spec fn product_of(model: Model, a: Wide, b: Wide) -> Wide {
    let product = exact_product_of(model, a.hi, b.hi);
    let crossed = (model.plus)((model.times)(a.hi, b.lo), (model.times)(a.lo, b.hi));
    let residual = (model.plus)(product.lo, crossed);
    exact_sum_of(model, product.hi, (model.plus)(residual, (model.times)(a.lo, b.lo)))
}

/// `a / b`, by long division with three digits.
pub open spec fn quotient_of(model: Model, a: Wide, b: Wide) -> Wide {
    let first = wide_of((model.over)(a.hi, b.hi));
    let rest = difference_of(model, a, product_of(model, b, first));
    let second = wide_of((model.over)(rest.hi, b.hi));
    let remaining = difference_of(model, rest, product_of(model, b, second));
    let third = wide_of((model.over)(remaining.hi, b.hi));
    sum_of(model, sum_of(model, first, second), third)
}

/// `1 / a`.
pub open spec fn reciprocal_of(model: Model, a: Wide) -> Wide {
    quotient_of(model, wide_of(ONE_BITS), a)
}

impl Wide {
    /// A value without a residual.
    pub fn new(bits: u64) -> (wide: Wide)
        ensures
            wide == wide_of(bits),
    {
        Wide { hi: bits, lo: ZERO_BITS }
    }

    /// The constant pi.
    pub fn pi() -> (wide: Wide)
        ensures
            wide == pi_of(),
    {
        Wide { hi: PI_LEADING_BITS, lo: PI_RESIDUAL_BITS }
    }

    /// An integer.
    pub fn integer<A: Arithmetic>(arithmetic: &A, n: i64) -> (wide: Wide)
        ensures
            forall|model: Model| #[trigger]
                follows(arithmetic, model) ==> wide == integer_of(model, n as int),
    {
        Wide::new(arithmetic.of_integer(n))
    }

    /// The sum of two binary64 values, and what its rounding lost.
    pub fn exact_sum<A: Arithmetic>(arithmetic: &A, a: u64, b: u64) -> (wide: Wide)
        ensures
            forall|model: Model| #[trigger]
                follows(arithmetic, model) ==> wide == exact_sum_of(model, a, b),
    {
        let hi: u64 = arithmetic.plus(a, b);
        let part: u64 = arithmetic.minus(hi, a);
        let lo: u64 = arithmetic.plus(
            arithmetic.minus(a, arithmetic.minus(hi, part)),
            arithmetic.minus(b, part),
        );
        Wide { hi, lo }
    }

    /// The two halves of a significand.
    fn split<A: Arithmetic>(arithmetic: &A, x: u64) -> (halves: (u64, u64))
        ensures
            forall|model: Model| #[trigger]
                follows(arithmetic, model) ==> halves == split_of(model, x),
    {
        let scaled: u64 = arithmetic.times(SPLIT_BITS, x);
        let high: u64 = arithmetic.minus(scaled, arithmetic.minus(scaled, x));
        (high, arithmetic.minus(x, high))
    }

    /// The product of two binary64 values, and what its rounding lost.
    pub fn exact_product<A: Arithmetic>(arithmetic: &A, a: u64, b: u64) -> (wide: Wide)
        ensures
            forall|model: Model| #[trigger]
                follows(arithmetic, model) ==> wide == exact_product_of(model, a, b),
    {
        let (ah, al): (u64, u64) = Wide::split(arithmetic, a);
        let (bh, bl): (u64, u64) = Wide::split(arithmetic, b);
        let hi: u64 = arithmetic.times(a, b);
        let first: u64 = arithmetic.minus(arithmetic.times(ah, bh), hi);
        let second: u64 = arithmetic.plus(first, arithmetic.times(ah, bl));
        let third: u64 = arithmetic.plus(second, arithmetic.times(al, bh));
        Wide { hi, lo: arithmetic.plus(third, arithmetic.times(al, bl)) }
    }

    /// `self + other`.
    pub fn plus<A: Arithmetic>(self, arithmetic: &A, other: Wide) -> (wide: Wide)
        ensures
            forall|model: Model| #[trigger]
                follows(arithmetic, model) ==> wide == sum_of(model, self, other),
    {
        let leading: Wide = Wide::exact_sum(arithmetic, self.hi, other.hi);
        let trailing: Wide = Wide::exact_sum(arithmetic, self.lo, other.lo);
        let combined: Wide = Wide::exact_sum(
            arithmetic,
            leading.hi,
            arithmetic.plus(leading.lo, trailing.hi),
        );
        Wide::exact_sum(arithmetic, combined.hi, arithmetic.plus(combined.lo, trailing.lo))
    }

    /// `-self`.
    pub fn negated(self) -> (wide: Wide)
        ensures
            wide == negated_of(self),
    {
        Wide { hi: self.hi ^ SIGN_BIT, lo: self.lo ^ SIGN_BIT }
    }

    /// `self - other`.
    pub fn minus<A: Arithmetic>(self, arithmetic: &A, other: Wide) -> (wide: Wide)
        ensures
            forall|model: Model| #[trigger]
                follows(arithmetic, model) ==> wide == difference_of(model, self, other),
    {
        self.plus(arithmetic, other.negated())
    }

    /// `self * other`.
    pub fn times<A: Arithmetic>(self, arithmetic: &A, other: Wide) -> (wide: Wide)
        ensures
            forall|model: Model| #[trigger]
                follows(arithmetic, model) ==> wide == product_of(model, self, other),
    {
        let product: Wide = Wide::exact_product(arithmetic, self.hi, other.hi);
        let crossed: u64 = arithmetic.plus(
            arithmetic.times(self.hi, other.lo),
            arithmetic.times(self.lo, other.hi),
        );
        let residual: u64 = arithmetic.plus(product.lo, crossed);
        Wide::exact_sum(
            arithmetic,
            product.hi,
            arithmetic.plus(residual, arithmetic.times(self.lo, other.lo)),
        )
    }

    /// `self / other`, by long division with three digits.
    pub fn over<A: Arithmetic>(self, arithmetic: &A, other: Wide) -> (wide: Wide)
        ensures
            forall|model: Model| #[trigger]
                follows(arithmetic, model) ==> wide == quotient_of(model, self, other),
    {
        let first: Wide = Wide::new(arithmetic.over(self.hi, other.hi));
        let rest: Wide = self.minus(arithmetic, other.times(arithmetic, first));
        let second: Wide = Wide::new(arithmetic.over(rest.hi, other.hi));
        let remaining: Wide = rest.minus(arithmetic, other.times(arithmetic, second));
        let third: Wide = Wide::new(arithmetic.over(remaining.hi, other.hi));
        first.plus(arithmetic, second).plus(arithmetic, third)
    }

    /// `1 / self`.
    pub fn reciprocal<A: Arithmetic>(self, arithmetic: &A) -> (wide: Wide)
        ensures
            forall|model: Model| #[trigger]
                follows(arithmetic, model) ==> wide == reciprocal_of(model, self),
    {
        Wide::new(ONE_BITS).over(arithmetic, self)
    }
}

/// Negating twice changes nothing.
pub proof fn law_negating_twice_changes_nothing(a: Wide)
    ensures
        negated_of(negated_of(a)) == a,
{
    let hi = a.hi;
    let lo = a.lo;
    assert(hi ^ 0x8000_0000_0000_0000u64 ^ 0x8000_0000_0000_0000u64 == hi) by (bit_vector);
    assert(lo ^ 0x8000_0000_0000_0000u64 ^ 0x8000_0000_0000_0000u64 == lo) by (bit_vector);
}

} // verus!
