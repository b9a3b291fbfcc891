//! What the coefficients mean, in real numbers.
//!
//! As in [`crate::meaning`], arithmetic is taken to be exact where its exact results can be
//! represented. Values at extended precision then have no residual, and the formulas of the
//! filter yield what they are named after.

use vstd::prelude::*;

use crate::arithmetic::Model;
use crate::bank::{coefficient, computed, row_sum, tap_value, BankShape};
use crate::meaning::{
    exact, held, lemma_minus, lemma_over, lemma_plus, lemma_times, re, Reading,
};
use crate::precision::{
    last_term_of, magnitude_of, precise_model, reduced_sine_of, scale_of,
    sin_pi_of, sine_reciprocal_of, sine_sum_of, sine_term_of, square_reciprocal_of, tail_of,
    window_of, window_scale_of, window_sum_of, window_term_of, windowed_sinc_of, Prototype,
};
use crate::wide::{
    difference_of, exact_product_of, exact_sum_of, integer_of, negated_of, pi_of, product_of,
    quotient_of, reciprocal_of, split_of, sum_of, wide_of, Wide,
};

verus! {

/// The sign of bits is the sign of what they stand for, and the factor that significands are
/// split with is 2^27 + 1.
pub open spec fn signed(reading: Reading) -> bool {
    &&& reading(0x41a0_0000_0200_0000) == Some(134_217_729real)
    &&& forall|bits: u64|
        reading(bits) is Some ==> #[trigger] reading(bits ^ 0x8000_0000_0000_0000) == Some(
            -reading(bits)->0,
        )
    &&& forall|bits: u64|
        reading(bits) is Some ==> #[trigger] reading(magnitude_of(bits)) == Some(
            if reading(bits)->0 < 0real {
                -reading(bits)->0
            } else {
                reading(bits)->0
            },
        )
}

/// A value at extended precision stands for `x`, without a residual.
pub open spec fn reads(reading: Reading, wide: Wide, x: real) -> bool {
    reading(wide.hi) == Some(x) && reading(wide.lo) == Some(0real)
}

/// Bits stand for `x`, with room to split its significand.
pub open spec fn roomy(reading: Reading, x: real) -> bool {
    &&& held(reading, x)
    &&& held(reading, 134_217_729real * x)
    &&& held(reading, 134_217_729real * x - x)
}

proof fn lemma_exact_sum(model: Model, reading: Reading, a: u64, x: real, b: u64, y: real)
    requires
        exact(model, reading),
        reading(a) == Some(x),
        reading(b) == Some(y),
        held(reading, x + y),
    ensures
        reads(reading, exact_sum_of(model, a, b), x + y),
{
    let hi = (model.plus)(a, b);
    let part = (model.minus)(hi, a);
    lemma_plus(model, reading, a, x, b, y);
    assert(held(reading, 0real) && held(reading, x) && held(reading, y));
    assert(x + y - x == y && x + y - y == x);
    lemma_minus(model, reading, hi, x + y, a, x);
    lemma_minus(model, reading, hi, x + y, part, y);
    let back = (model.minus)(hi, part);
    assert(x - x == 0real && y - y == 0real && 0real + 0real == 0real);
    lemma_minus(model, reading, a, x, back, x);
    lemma_minus(model, reading, b, y, part, y);
    lemma_plus(
        model,
        reading,
        (model.minus)(a, back),
        0real,
        (model.minus)(b, part),
        0real,
    );
}

proof fn lemma_sum(model: Model, reading: Reading, a: Wide, x: real, b: Wide, y: real)
    requires
        exact(model, reading),
        reads(reading, a, x),
        reads(reading, b, y),
        held(reading, x + y),
    ensures
        reads(reading, sum_of(model, a, b), x + y),
{
    assert(held(reading, 0real) && 0real + 0real == 0real && x + y + 0real == x + y);
    lemma_exact_sum(model, reading, a.hi, x, b.hi, y);
    lemma_exact_sum(model, reading, a.lo, 0real, b.lo, 0real);
    let leading = exact_sum_of(model, a.hi, b.hi);
    let trailing = exact_sum_of(model, a.lo, b.lo);
    lemma_plus(model, reading, leading.lo, 0real, trailing.hi, 0real);
    let carried = (model.plus)(leading.lo, trailing.hi);
    lemma_exact_sum(model, reading, leading.hi, x + y, carried, 0real);
    let combined = exact_sum_of(model, leading.hi, carried);
    lemma_plus(model, reading, combined.lo, 0real, trailing.lo, 0real);
    lemma_exact_sum(
        model,
        reading,
        combined.hi,
        x + y,
        (model.plus)(combined.lo, trailing.lo),
        0real,
    );
}

proof fn lemma_negated(reading: Reading, a: Wide, x: real)
    requires
        signed(reading),
        reads(reading, a, x),
    ensures
        reads(reading, negated_of(a), -x),
        held(reading, -x),
{
    assert(reading(a.hi ^ 0x8000_0000_0000_0000) == Some(-x));
    assert(reading(a.lo ^ 0x8000_0000_0000_0000) == Some(-0real));
    assert(-0real == 0real);
}

proof fn lemma_difference(model: Model, reading: Reading, a: Wide, x: real, b: Wide, y: real)
    requires
        exact(model, reading),
        signed(reading),
        reads(reading, a, x),
        reads(reading, b, y),
        held(reading, x - y),
    ensures
        reads(reading, difference_of(model, a, b), x - y),
{
    lemma_negated(reading, b, y);
    assert(x + (-y) == x - y);
    lemma_sum(model, reading, a, x, negated_of(b), -y);
}

proof fn lemma_split(model: Model, reading: Reading, a: u64, x: real)
    requires
        exact(model, reading),
        signed(reading),
        reading(a) == Some(x),
        roomy(reading, x),
    ensures
        reading(split_of(model, a).0) == Some(x),
        reading(split_of(model, a).1) == Some(0real),
{
    let factor = 0x41a0_0000_0200_0000u64;
    let s = 134_217_729real;
    lemma_times(model, reading, factor, s, a, x);
    let scaled = (model.times)(factor, a);
    lemma_minus(model, reading, scaled, s * x, a, x);
    assert(s * x - (s * x - x) == x);
    lemma_minus(model, reading, scaled, s * x, (model.minus)(scaled, a), s * x - x);
    let high = (model.minus)(scaled, (model.minus)(scaled, a));
    assert(held(reading, 0real) && x - x == 0real);
    lemma_minus(model, reading, a, x, high, x);
}

proof fn lemma_product(model: Model, reading: Reading, a: Wide, x: real, b: Wide, y: real)
    requires
        exact(model, reading),
        signed(reading),
        reads(reading, a, x),
        reads(reading, b, y),
        roomy(reading, x),
        roomy(reading, y),
        held(reading, x * y),
    ensures
        reads(reading, product_of(model, a, b), x * y),
{
    let z = 0real;
    assert(held(reading, z) && z + z == z && x * y - x * y == z && x * y + z == x * y);
    assert(x * z == z && z * y == z && z * z == z) by (nonlinear_arith)
        requires
            z == 0real,
    ;
    lemma_split(model, reading, a.hi, x);
    lemma_split(model, reading, b.hi, y);
    let (ah, al) = split_of(model, a.hi);
    let (bh, bl) = split_of(model, b.hi);
    lemma_times(model, reading, a.hi, x, b.hi, y);
    lemma_times(model, reading, ah, x, bh, y);
    let hi = (model.times)(a.hi, b.hi);
    lemma_minus(model, reading, (model.times)(ah, bh), x * y, hi, x * y);
    let first = (model.minus)((model.times)(ah, bh), hi);
    lemma_times(model, reading, ah, x, bl, z);
    lemma_plus(model, reading, first, z, (model.times)(ah, bl), z);
    let second = (model.plus)(first, (model.times)(ah, bl));
    lemma_times(model, reading, al, z, bh, y);
    lemma_plus(model, reading, second, z, (model.times)(al, bh), z);
    let third = (model.plus)(second, (model.times)(al, bh));
    lemma_times(model, reading, al, z, bl, z);
    lemma_plus(model, reading, third, z, (model.times)(al, bl), z);
    let product = exact_product_of(model, a.hi, b.hi);
    lemma_times(model, reading, a.hi, x, b.lo, z);
    lemma_times(model, reading, a.lo, z, b.hi, y);
    lemma_plus(
        model,
        reading,
        (model.times)(a.hi, b.lo),
        z,
        (model.times)(a.lo, b.hi),
        z,
    );
    let crossed = (model.plus)((model.times)(a.hi, b.lo), (model.times)(a.lo, b.hi));
    lemma_plus(model, reading, product.lo, z, crossed, z);
    let residual = (model.plus)(product.lo, crossed);
    lemma_times(model, reading, a.lo, z, b.lo, z);
    lemma_plus(model, reading, residual, z, (model.times)(a.lo, b.lo), z);
    lemma_exact_sum(
        model,
        reading,
        product.hi,
        x * y,
        (model.plus)(residual, (model.times)(a.lo, b.lo)),
        z,
    );
}

proof fn lemma_quotient(model: Model, reading: Reading, a: Wide, x: real, b: Wide, y: real)
    requires
        exact(model, reading),
        signed(reading),
        reads(reading, a, x),
        reads(reading, b, y),
        y != 0real,
        roomy(reading, y),
        roomy(reading, x / y),
    ensures
        reads(reading, quotient_of(model, a, b), x / y),
{
    let z = 0real;
    let q = x / y;
    assert(y * q == x && y * z == z && z / y == z && 134_217_729real * z == z) by (nonlinear_arith)
        requires
            q == x / y,
            y != 0real,
            z == 0real,
    ;
    assert(held(reading, z) && held(reading, x) && roomy(reading, z));
    assert(x - x == z && z - z == z && q + z == q);
    lemma_over(model, reading, a.hi, x, b.hi, y);
    let first = wide_of((model.over)(a.hi, b.hi));
    lemma_product(model, reading, b, y, first, q);
    lemma_difference(model, reading, a, x, product_of(model, b, first), x);
    let rest = difference_of(model, a, product_of(model, b, first));
    lemma_over(model, reading, rest.hi, z, b.hi, y);
    let second = wide_of((model.over)(rest.hi, b.hi));
    lemma_product(model, reading, b, y, second, z);
    lemma_difference(model, reading, rest, z, product_of(model, b, second), z);
    let remaining = difference_of(model, rest, product_of(model, b, second));
    lemma_over(model, reading, remaining.hi, z, b.hi, y);
    let third = wide_of((model.over)(remaining.hi, b.hi));
    lemma_sum(model, reading, first, q, second, z);
    lemma_sum(model, reading, sum_of(model, first, second), q, third, z);
}

/// Operations at extended precision are those of real numbers.
pub proof fn law_extended_operations_are_exact(
    model: Model,
    reading: Reading,
    a: Wide,
    x: real,
    b: Wide,
    y: real,
)
    requires
        exact(model, reading),
        signed(reading),
        reads(reading, a, x),
        reads(reading, b, y),
    ensures
        held(reading, x + y) ==> reads(reading, sum_of(model, a, b), x + y),
        held(reading, x - y) ==> reads(reading, difference_of(model, a, b), x - y),
        reads(reading, negated_of(a), -x),
        roomy(reading, x) && roomy(reading, y) && held(reading, x * y) ==> reads(
            reading,
            product_of(model, a, b),
            x * y,
        ),
        y != 0real && roomy(reading, y) && roomy(reading, x / y) ==> reads(
            reading,
            quotient_of(model, a, b),
            x / y,
        ),
        y != 0real && roomy(reading, y) && roomy(reading, 1real / y) ==> reads(
            reading,
            reciprocal_of(model, b),
            1real / y,
        ),
{
    if held(reading, x + y) {
        lemma_sum(model, reading, a, x, b, y);
    }
    if held(reading, x - y) {
        lemma_difference(model, reading, a, x, b, y);
    }
    lemma_negated(reading, a, x);
    if roomy(reading, x) && roomy(reading, y) && held(reading, x * y) {
        lemma_product(model, reading, a, x, b, y);
    }
    if y != 0real && roomy(reading, y) && roomy(reading, x / y) {
        lemma_quotient(model, reading, a, x, b, y);
    }
    if y != 0real && roomy(reading, y) && roomy(reading, 1real / y) {
        lemma_quotient(model, reading, wide_of(0x3ff0_0000_0000_0000), 1real, b, y);
    }
}

proof fn lemma_integer(model: Model, reading: Reading, n: int)
    requires
        exact(model, reading),
        i64::MIN <= n <= i64::MAX,
        held(reading, re(n)),
    ensures
        reads(reading, integer_of(model, n), re(n)),
{
}

proof fn lemma_inverse(model: Model, reading: Reading, n: int)
    requires
        exact(model, reading),
        signed(reading),
        0 < n <= i64::MAX,
        roomy(reading, re(n)),
        roomy(reading, 1real / re(n)),
    ensures
        reads(reading, reciprocal_of(model, integer_of(model, n)), 1real / re(n)),
{
    lemma_integer(model, reading, n);
    lemma_quotient(
        model,
        reading,
        wide_of(0x3ff0_0000_0000_0000),
        1real,
        integer_of(model, n),
        re(n),
    );
}

/// The magnitude of a number.
pub open spec fn size(x: real) -> real {
    if x < 0real {
        -x
    } else {
        x
    }
}

/// `y^k / (k!)^2`.
pub open spec fn bessel_term(y: real, k: nat) -> real
    decreases k,
{
    if k == 0 {
        1real
    } else {
        bessel_term(y, (k - 1) as nat) * y * (1real / re(k as int * k as int))
    }
}

/// The terms of the modified Bessel series from the second to the `k`-th.
pub open spec fn bessel_tail(y: real, k: nat) -> real
    decreases k,
{
    if k < 2 {
        0real
    } else {
        bessel_tail(y, (k - 1) as nat) + bessel_term(y, k)
    }
}

/// The series may end with its `k`-th term, which is no more than a `small` part of the sum.
pub open spec fn settled(y: real, k: nat, small: real) -> bool {
    k > 2 && size(bessel_term(y, k)) < size(bessel_tail(y, k)) * small
}

/// `last` is the first term with which the series may end, or the 64th.
pub open spec fn ends_at(y: real, last: nat, small: real) -> bool {
    &&& last <= 64
    &&& last == 64 || settled(y, last, small)
    &&& forall|k: nat| k < last ==> !#[trigger] settled(y, k, small)
}

/// Bits stand for every step of the series.
pub open spec fn tail_held(reading: Reading, y: real, small: real) -> bool {
    &&& roomy(reading, y)
    &&& forall|k: nat|
        k <= 64 ==> {
            &&& roomy(reading, #[trigger] bessel_term(y, k))
            &&& roomy(reading, bessel_term(y, k) * y)
            &&& held(reading, bessel_tail(y, k))
            &&& held(reading, size(bessel_tail(y, k)) * small)
            &&& k > 0 ==> roomy(reading, re(k as int * k as int))
            &&& k > 0 ==> roomy(reading, 1real / re(k as int * k as int))
        }
}

proof fn lemma_window_term(
    model: Model,
    reading: Reading,
    wide: Wide,
    y: real,
    small: real,
    k: nat,
)
    requires
        exact(model, reading),
        signed(reading),
        reads(reading, wide, y),
        tail_held(reading, y, small),
        k <= 64,
    ensures
        reads(reading, window_term_of(model, wide, k), bessel_term(y, k)),
    decreases k,
{
    if k > 0 {
        let before = (k - 1) as nat;
        lemma_window_term(model, reading, wide, y, small, before);
        let t = bessel_term(y, before);
        let now = bessel_term(y, k);
        assert(0 < k as int * k as int <= 4096) by (nonlinear_arith)
            requires
                0 < k <= 64,
        ;
        lemma_inverse(model, reading, k as int * k as int);
        lemma_product(model, reading, window_term_of(model, wide, before), t, wide, y);
        lemma_product(
            model,
            reading,
            product_of(model, window_term_of(model, wide, before), wide),
            t * y,
            square_reciprocal_of(model, k as int),
            1real / re(k as int * k as int),
        );
    }
}

proof fn lemma_window_sum(
    model: Model,
    reading: Reading,
    wide: Wide,
    y: real,
    small: real,
    k: nat,
)
    requires
        exact(model, reading),
        signed(reading),
        reads(reading, wide, y),
        tail_held(reading, y, small),
        k <= 64,
    ensures
        reads(reading, window_sum_of(model, wide, k), bessel_tail(y, k)),
    decreases k,
{
    if k >= 2 {
        let before = (k - 1) as nat;
        let now = bessel_term(y, k);
        lemma_window_sum(model, reading, wide, y, small, before);
        lemma_window_term(model, reading, wide, y, small, k);
        lemma_sum(
            model,
            reading,
            window_sum_of(model, wide, before),
            bessel_tail(y, before),
            window_term_of(model, wide, k),
            now,
        );
    }
}

proof fn lemma_last_term(
    model: Model,
    reading: Reading,
    wide: Wide,
    y: real,
    small: real,
    k: nat,
    last: nat,
)
    requires
        exact(model, reading),
        signed(reading),
        reads(reading, wide, y),
        tail_held(reading, y, small),
        reading(0x3914_c4e9_77ba_1f5c) == Some(small),
        ends_at(y, last, small),
        k <= last,
    ensures
        last_term_of(model, wide, k) == last,
    decreases 64 - k,
{
    let term = window_term_of(model, wide, k).hi;
    let sum = window_sum_of(model, wide, k).hi;
    lemma_window_term(model, reading, wide, y, small, k);
    lemma_window_sum(model, reading, wide, y, small, k);
    let now = bessel_term(y, k);
    let small_bits = 0x3914_c4e9_77ba_1f5cu64;
    assert(reading(magnitude_of(term)) == Some(size(now)));
    assert(reading(magnitude_of(sum)) == Some(size(bessel_tail(y, k))));
    lemma_times(
        model,
        reading,
        magnitude_of(sum),
        size(bessel_tail(y, k)),
        small_bits,
        small,
    );
    let part = (model.times)(magnitude_of(sum), small_bits);
    assert((model.less)(magnitude_of(term), part) <==> size(now) < size(bessel_tail(y, k))
        * small);
    if k < last {
        assert(!settled(y, k, small));
        lemma_last_term(model, reading, wide, y, small, k + 1, last);
    }
}

/// The window's series is the modified Bessel series without its first two terms: it ends with
/// the first term that is no more than a `small` part of the sum, or with the 64th.
pub proof fn law_the_window_series_is_the_bessel_tail(
    model: Model,
    reading: Reading,
    wide: Wide,
    y: real,
    small: real,
    last: nat,
)
    requires
        exact(model, reading),
        signed(reading),
        reads(reading, wide, y),
        tail_held(reading, y, small),
        reading(0x3914_c4e9_77ba_1f5c) == Some(small),
        ends_at(y, last, small),
    ensures
        reads(reading, tail_of(model, wide), bessel_tail(y, last)),
{
    lemma_last_term(model, reading, wide, y, small, 0, last);
    lemma_window_sum(model, reading, wide, y, small, last);
}

/// `(-1)^k x^(2k + 1) / (2k + 1)!`.
pub open spec fn sine_term(x: real, k: nat) -> real
    decreases k,
{
    if k == 0 {
        x
    } else {
        sine_term(x, (k - 1) as nat) * -(x * x) * (1real / re(2 * k as int * (2 * k as int + 1)))
    }
}

/// The sine series up to its `k`-th term.
pub open spec fn sine_series(x: real, k: nat) -> real
    decreases k,
{
    if k == 0 {
        x
    } else {
        sine_series(x, (k - 1) as nat) + sine_term(x, k)
    }
}

/// Bits stand for every step of the sine series.
pub open spec fn sine_held(reading: Reading, x: real) -> bool {
    &&& roomy(reading, x)
    &&& roomy(reading, x * x)
    &&& roomy(reading, -(x * x))
    &&& forall|k: nat|
        k <= 20 ==> {
            &&& roomy(reading, #[trigger] sine_term(x, k))
            &&& roomy(reading, sine_term(x, k) * -(x * x))
            &&& held(reading, sine_series(x, k))
            &&& k > 0 ==> roomy(reading, re(2 * k as int * (2 * k as int + 1)))
            &&& k > 0 ==> roomy(reading, 1real / re(2 * k as int * (2 * k as int + 1)))
        }
}

proof fn lemma_sine_term(model: Model, reading: Reading, wide: Wide, x: real, k: nat)
    requires
        exact(model, reading),
        signed(reading),
        reads(reading, wide, x),
        sine_held(reading, x),
        k <= 20,
    ensures
        reads(reading, sine_term_of(model, wide, k), sine_term(x, k)),
    decreases k,
{
    let start = sine_term(x, 0);
    if k > 0 {
        let before = (k - 1) as nat;
        let t = sine_term(x, before);
        let now = sine_term(x, k);
        lemma_sine_term(model, reading, wide, x, before);
        lemma_product(model, reading, wide, x, wide, x);
        let square = product_of(model, wide, wide);
        lemma_negated(reading, square, x * x);
        lemma_product(
            model,
            reading,
            sine_term_of(model, wide, before),
            t,
            negated_of(square),
            -(x * x),
        );
        assert(0 < 2 * k as int * (2 * k as int + 1) <= 1640) by (nonlinear_arith)
            requires
                0 < k <= 20,
        ;
        lemma_inverse(model, reading, 2 * k as int * (2 * k as int + 1));
        lemma_product(
            model,
            reading,
            product_of(model, sine_term_of(model, wide, before), negated_of(square)),
            t * -(x * x),
            sine_reciprocal_of(model, k as int),
            1real / re(2 * k as int * (2 * k as int + 1)),
        );
    }
}

proof fn lemma_sine_sum(model: Model, reading: Reading, wide: Wide, x: real, k: nat)
    requires
        exact(model, reading),
        signed(reading),
        reads(reading, wide, x),
        sine_held(reading, x),
        k <= 20,
    ensures
        reads(reading, sine_sum_of(model, wide, k), sine_series(x, k)),
    decreases k,
{
    if k > 0 {
        let before = (k - 1) as nat;
        let now = sine_term(x, k);
        lemma_sine_sum(model, reading, wide, x, before);
        lemma_sine_term(model, reading, wide, x, k);
        lemma_sum(
            model,
            reading,
            sine_sum_of(model, wide, before),
            sine_series(x, before),
            sine_term_of(model, wide, k),
            now,
        );
    }
}

/// The nearest integer to a part of one is zero below one half, and one from there on.
pub open spec fn rounds_parts(model: Model, reading: Reading) -> bool {
    forall|bits: u64|
        reading(bits) is Some && 0real <= reading(bits)->0 < 1real ==> {
            let half = reading(bits)->0 < 1real / 2real;
            &&& reading(#[trigger] (model.nearest)(bits)) == Some(
                if half {
                    0real
                } else {
                    1real
                },
            )
            &&& (model.as_integer)((model.nearest)(bits)) == if half {
                0i64
            } else {
                1i64
            }
        }
}

/// The sine of `part` of a half turn, by the series around the nearer end of it.
pub open spec fn part_sine(part: real, pi: real) -> real {
    if part < 1real / 2real {
        sine_series((part - 0real) * pi, 20)
    } else {
        -sine_series((part - 1real) * pi, 20)
    }
}

/// Where the sine series is evaluated for `part` of a half turn.
pub open spec fn nearer(part: real) -> real {
    if part < 1real / 2real {
        part - 0real
    } else {
        part - 1real
    }
}

/// Bits stand for every step of the sine of `part` of a half turn.
pub open spec fn part_sine_held(reading: Reading, part: real, pi: real) -> bool {
    &&& roomy(reading, nearer(part))
    &&& roomy(reading, pi)
    &&& sine_held(reading, nearer(part) * pi)
}

/// The sine of a part of a half turn is that of the series.
pub proof fn law_sines_are_those_of_the_series(
    model: Model,
    reading: Reading,
    wide: Wide,
    part: real,
    pi: real,
)
    requires
        exact(model, reading),
        signed(reading),
        rounds_parts(model, reading),
        reads(reading, wide, part),
        0real <= part < 1real,
        reading(0x4009_21fb_5444_2d18) == Some(pi),
        reading(0x3ca1_a626_3314_5c07) == Some(0real),
        part_sine_held(reading, part, pi),
    ensures
        reads(reading, sin_pi_of(model, wide), part_sine(part, pi)),
{
    let whole = (model.nearest)(wide.hi);
    let half = part < 1real / 2real;
    let n = if half {
        0real
    } else {
        1real
    };
    assert(reading(whole) == Some(n));
    lemma_difference(model, reading, wide, part, wide_of(whole), n);
    let offset = difference_of(model, wide, wide_of(whole));
    lemma_product(model, reading, offset, part - n, pi_of(), pi);
    let x = product_of(model, offset, pi_of());
    lemma_sine_sum(model, reading, x, (part - n) * pi, 20);
    let sum = sine_sum_of(model, x, 20);
    lemma_negated(reading, sum, sine_series((part - n) * pi, 20));
    assert(0i64 & 1 == 0) by (bit_vector);
    assert(1i64 & 1 == 1) by (bit_vector);
}

/// The first term from the `k`-th on with which the series may end, or the 64th.
pub open spec fn end_from(y: real, small: real, k: nat) -> nat
    decreases 64 - k,
{
    if k >= 64 || settled(y, k, small) {
        k
    } else {
        end_from(y, small, k + 1)
    }
}

proof fn lemma_end(y: real, small: real, k: nat)
    requires
        k <= 64,
        forall|j: nat| j < k ==> !#[trigger] settled(y, j, small),
    ensures
        ends_at(y, end_from(y, small, k), small),
    decreases 64 - k,
{
    if k < 64 && !settled(y, k, small) {
        lemma_end(y, small, k + 1);
    }
}

/// The tail of the modified Bessel series.
pub open spec fn tail_value(y: real, small: real) -> real {
    bessel_tail(y, end_from(y, small, 0))
}

/// What the coefficients of a bank are made from: the rates, the phase rows and taps, and what
/// stands for pi and for a negligible part.
pub struct FilterPlan {
    pub from_rate: int,
    pub lower_rate: int,
    pub phases: int,
    pub taps: int,
    pub pi: real,
    pub small: real,
}

impl FilterPlan {
    /// Distance of a tap from the center of the filter, over the phases.
    pub open spec fn distance(self, phase: int, tap: int) -> int {
        (tap - self.taps / 2) * self.phases - phase
    }

    /// The distance at which the filter ends, over the phases.
    pub open spec fn reach(self) -> int {
        (self.taps / 2) * self.phases
    }

    /// Distance of a tap from the center, as a part of the filter's reach.
    pub open spec fn offset(self, n: int) -> real {
        re(n) * (1real / re(self.reach()))
    }

    /// The argument of the window's series at a distance, for the shape 20.
    pub open spec fn argument(self, n: int) -> real {
        100real * (1real - self.offset(n) * self.offset(n))
    }

    /// The window at a distance.
    pub open spec fn window(self, n: int) -> real {
        tail_value(self.argument(n), self.small) * (1real / tail_value(100real, self.small))
    }

    /// Half turns of the cutoff frequency over a distance.
    pub open spec fn turns(self, n: int) -> int {
        n * self.lower_rate
    }

    /// What is left of the half turns, as a part of one.
    pub open spec fn part(self, n: int) -> real {
        re(self.turns(n) % (self.from_rate * self.phases)) / re(self.from_rate * self.phases)
    }

    /// The sine of the cutoff frequency over a distance: every half turn changes its sign.
    pub open spec fn sine(self, n: int) -> real {
        if (self.turns(n) / (self.from_rate * self.phases)) % 2 == 1 {
            -part_sine(self.part(n), self.pi)
        } else {
            part_sine(self.part(n), self.pi)
        }
    }

    /// The sinc of the cutoff frequency at a distance.
    pub open spec fn sinc(self, n: int) -> real {
        if n == 0 {
            re(self.lower_rate) / re(self.from_rate) * 1real
        } else {
            self.sine(n) / (self.pi * (re(n) * (1real / re(self.phases))))
        }
    }

    /// The windowed sinc of a tap, which is zero outside the filter's reach.
    pub open spec fn tap(self, phase: int, tap: int) -> real {
        let n = self.distance(phase, tap);
        if -self.reach() < n < self.reach() {
            self.sinc(n) * self.window(n)
        } else {
            0real
        }
    }

    /// The sum of the first taps of a row.
    pub open spec fn sum(self, phase: int, taps: nat) -> real
        decreases taps,
    {
        if taps == 0 {
            0real
        } else {
            self.sum(phase, (taps - 1) as nat) + self.tap(phase, taps - 1)
        }
    }

    /// Bits stand for every step of the window at a distance.
    pub open spec fn window_held(self, reading: Reading, n: int) -> bool {
        let u = self.offset(n);
        &&& roomy(reading, re(n))
        &&& roomy(reading, re(self.reach()))
        &&& roomy(reading, 1real / re(self.reach()))
        &&& roomy(reading, u)
        &&& roomy(reading, u * u)
        &&& roomy(reading, 1real - u * u)
        &&& roomy(reading, 20real)
        &&& roomy(reading, 400real)
        &&& roomy(reading, 1real / 4real)
        &&& roomy(reading, 100real)
        &&& tail_held(reading, self.argument(n), self.small)
        &&& tail_held(reading, 100real, self.small)
        &&& roomy(reading, tail_value(self.argument(n), self.small))
        &&& roomy(reading, tail_value(100real, self.small))
        &&& tail_value(100real, self.small) != 0real
        &&& roomy(reading, 1real / tail_value(100real, self.small))
        &&& roomy(reading, self.window(n))
    }

    /// Bits stand for every step of the sinc at a distance.
    pub open spec fn sinc_held(self, reading: Reading, n: int) -> bool {
        let d = self.from_rate * self.phases;
        let x = re(n) * (1real / re(self.phases));
        &&& roomy(reading, re(n))
        &&& roomy(reading, re(self.phases))
        &&& roomy(reading, 1real / re(self.phases))
        &&& roomy(reading, x)
        &&& roomy(reading, 1real)
        &&& roomy(reading, re(self.from_rate))
        &&& held(reading, re(self.lower_rate))
        &&& roomy(reading, re(self.lower_rate) / re(self.from_rate))
        &&& held(reading, re(self.lower_rate) / re(self.from_rate) * 1real)
        &&& held(reading, re(self.turns(n) % d))
        &&& roomy(reading, re(d))
        &&& roomy(reading, self.part(n))
        &&& part_sine_held(reading, self.part(n), self.pi)
        &&& self.pi * x != 0real || n == 0
        &&& roomy(reading, self.pi * x)
        &&& roomy(reading, self.sinc(n))
    }

    /// Bits stand for every step of a row.
    pub open spec fn row_held(self, reading: Reading, phase: int) -> bool {
        &&& forall|tap: int|
            0 <= tap < self.taps ==> {
                let n = self.distance(phase, tap);
                &&& roomy(reading, #[trigger] self.tap(phase, tap))
                &&& -self.reach() < n < self.reach() ==> self.window_held(reading, n)
                &&& -self.reach() < n < self.reach() ==> self.sinc_held(reading, n)
            }
        &&& forall|taps: nat| taps <= self.taps ==> held(reading, #[trigger] self.sum(phase, taps))
        &&& self.sum(phase, self.taps as nat) != 0real
        &&& roomy(reading, self.sum(phase, self.taps as nat))
        &&& roomy(reading, 1real / self.sum(phase, self.taps as nat))
    }

    /// Sizes of a bank that can be computed.
    pub open spec fn valid(self) -> bool {
        &&& 0 < self.lower_rate <= self.from_rate <= u32::MAX
        &&& 0 < self.phases <= 2_048
        &&& 0 < self.taps <= 65_535
    }

    /// The shape of the bank.
    pub open spec fn shape(self) -> BankShape {
        BankShape {
            from_rate: self.from_rate,
            lower_rate: self.lower_rate,
            phases: self.phases,
            taps: self.taps,
        }
    }

    /// What the filter is computed from: the shape 20 and the cutoff at the lower Nyquist
    /// frequency.
    pub open spec fn prototype(self) -> Prototype {
        Prototype {
            from_rate: self.from_rate as u32,
            lower_rate: self.lower_rate as u32,
            support: self.reach() as u64,
            phases: self.phases as usize,
            beta_bits: 0x4034_0000_0000_0000,
            rolloff_bits: 0x3ff0_0000_0000_0000,
        }
    }
}

/// The bits of the constants stand for what they are named after; what pi leaves beside its
/// leading bits is taken to be nothing.
pub open spec fn constants_read(reading: Reading, plan: FilterPlan) -> bool {
    &&& reading(0x4034_0000_0000_0000) == Some(20real)
    &&& reading(0x3fd0_0000_0000_0000) == Some(1real / 4real)
    &&& reading(0x4009_21fb_5444_2d18) == Some(plan.pi)
    &&& reading(0x3ca1_a626_3314_5c07) == Some(0real)
    &&& reading(0x3914_c4e9_77ba_1f5c) == Some(plan.small)
}

proof fn lemma_window(
    model: Model,
    reading: Reading,
    plan: FilterPlan,
    n: int,
)
    requires
        exact(model, reading),
        signed(reading),
        constants_read(reading, plan),
        plan.valid(),
        -67_108_864 < n < 67_108_864,
        0 < plan.reach(),
        plan.window_held(reading, n),
    ensures
        reads(
            reading,
            window_of(model, plan.prototype(), integer_of(model, n)),
            plan.window(n),
        ),
{
    let prototype = plan.prototype();
    let coordinate = integer_of(model, n);
    let reach = plan.reach();
    assert(reach <= 67_108_864) by (nonlinear_arith)
        requires
            reach == (plan.taps / 2) * plan.phases,
            0 <= plan.taps / 2 <= 32_767,
            0 < plan.phases <= 2_048,
    ;
    assert(prototype.support == reach);
    lemma_integer(model, reading, n);
    lemma_inverse(model, reading, reach);
    let inverse = reciprocal_of(model, integer_of(model, prototype.support as int));
    lemma_product(model, reading, coordinate, re(n), inverse, 1real / re(reach));
    let u = plan.offset(n);
    let wide_u = product_of(model, coordinate, inverse);
    lemma_product(model, reading, wide_u, u, wide_u, u);
    let one = wide_of(0x3ff0_0000_0000_0000);
    lemma_difference(model, reading, one, 1real, product_of(model, wide_u, wide_u), u * u);
    let inside = difference_of(model, one, product_of(model, wide_u, wide_u));
    let beta = wide_of(0x4034_0000_0000_0000);
    assert(20real * 20real == 400real && 400real * (1real / 4real) == 100real);
    lemma_product(model, reading, beta, 20real, beta, 20real);
    lemma_product(
        model,
        reading,
        product_of(model, beta, beta),
        400real,
        wide_of(0x3fd0_0000_0000_0000),
        1real / 4real,
    );
    let scale = window_scale_of(model, prototype);
    assert(reads(reading, scale, 100real));
    lemma_product(model, reading, scale, 100real, inside, 1real - u * u);
    let y = plan.argument(n);
    let wide_y = product_of(model, scale, inside);
    lemma_end(y, plan.small, 0);
    lemma_end(100real, plan.small, 0);
    law_the_window_series_is_the_bessel_tail(
        model,
        reading,
        wide_y,
        y,
        plan.small,
        end_from(y, plan.small, 0),
    );
    law_the_window_series_is_the_bessel_tail(
        model,
        reading,
        scale,
        100real,
        plan.small,
        end_from(100real, plan.small, 0),
    );
    let peak = tail_value(100real, plan.small);
    lemma_quotient(model, reading, one, 1real, tail_of(model, scale), peak);
    lemma_product(
        model,
        reading,
        tail_of(model, wide_y),
        tail_value(y, plan.small),
        reciprocal_of(model, tail_of(model, scale)),
        1real / peak,
    );
}

/// The windowed sinc of a tap is the sinc of the cutoff frequency at its distance from the
/// center, under the window.
pub proof fn law_taps_are_windowed_sincs(
    model: Model,
    reading: Reading,
    plan: FilterPlan,
    phase: int,
    tap: int,
)
    requires
        exact(model, reading),
        signed(reading),
        rounds_parts(model, reading),
        constants_read(reading, plan),
        plan.valid(),
        0 <= phase < plan.phases,
        0 <= tap < plan.taps,
        ({
            let n = plan.distance(phase, tap);
            -plan.reach() < n < plan.reach() ==> plan.window_held(reading, n) && plan.sinc_held(
                reading,
                n,
            ) && held(reading, plan.tap(phase, tap))
        }),
    ensures
        reads(
            reading,
            tap_value(precise_model(model, plan.prototype()), plan.shape(), phase, tap),
            plan.tap(phase, tap),
        ),
{
    let n = plan.distance(phase, tap);
    let shape = plan.shape();
    let prototype = plan.prototype();
    let target = precise_model(model, prototype);
    assert(n == shape.numerator(phase, tap));
    if -plan.reach() < n < plan.reach() {
        let reach = plan.reach();
        assert(reach <= 67_108_864) by (nonlinear_arith)
            requires
                reach == (plan.taps / 2) * plan.phases,
                0 <= plan.taps / 2 <= 32_767,
                0 < plan.phases <= 2_048,
        ;
        assert(shape.supported(phase, tap));
        let point = shape.point(phase, tap);
        let d = plan.from_rate * plan.phases;
        assert(0 < d <= 0x800_0000_0000) by (nonlinear_arith)
            requires
                d == plan.from_rate * plan.phases,
                0 < plan.from_rate <= 0xffff_ffff,
                0 < plan.phases <= 2_048,
        ;
        let r = plan.turns(n) % d;
        assert(point.numerator == n && point.denominator == d && point.remainder == r);
        let coordinate = integer_of(model, n);
        lemma_window(model, reading, plan, n);
        lemma_integer(model, reading, n);
        lemma_inverse(model, reading, plan.phases);
        let inverse = reciprocal_of(model, integer_of(model, prototype.phases as int));
        let x = re(n) * (1real / re(plan.phases));
        lemma_product(model, reading, coordinate, re(n), inverse, 1real / re(plan.phases));
        let wide_x = product_of(model, coordinate, inverse);
        let window = window_of(model, prototype, coordinate);
        if n == 0 {
            lemma_integer(model, reading, plan.lower_rate);
            lemma_integer(model, reading, plan.from_rate);
            let lower = integer_of(model, plan.lower_rate);
            let from = integer_of(model, plan.from_rate);
            lemma_quotient(model, reading, lower, re(plan.lower_rate), from, re(plan.from_rate));
            lemma_product(
                model,
                reading,
                quotient_of(model, lower, from),
                re(plan.lower_rate) / re(plan.from_rate),
                wide_of(0x3ff0_0000_0000_0000),
                1real,
            );
            lemma_product(
                model,
                reading,
                scale_of(model, prototype),
                plan.sinc(n),
                window,
                plan.window(n),
            );
        } else {
            lemma_integer(model, reading, r);
            lemma_integer(model, reading, d);
            lemma_quotient(
                model,
                reading,
                integer_of(model, r),
                re(r),
                integer_of(model, d),
                re(d),
            );
            let part = quotient_of(model, integer_of(model, r), integer_of(model, d));
            assert(0real <= plan.part(n) < 1real) by (nonlinear_arith)
                requires
                    plan.part(n) == re(r) / re(d),
                    0real <= re(r) < re(d),
            ;
            law_sines_are_those_of_the_series(model, reading, part, plan.part(n), plan.pi);
            lemma_negated(reading, sin_pi_of(model, part), part_sine(plan.part(n), plan.pi));
            let sine = reduced_sine_of(model, point);
            assert(reads(reading, sine, plan.sine(n)));
            lemma_product(model, reading, pi_of(), plan.pi, wide_x, x);
            let divisor = product_of(model, pi_of(), wide_x);
            lemma_quotient(model, reading, sine, plan.sine(n), divisor, plan.pi * x);
            lemma_product(
                model,
                reading,
                quotient_of(model, sine, divisor),
                plan.sinc(n),
                window,
                plan.window(n),
            );
        }
        assert(windowed_sinc_of(model, prototype, point) == (target.windowed_sinc)(point));
    }
}

proof fn lemma_row_sum(
    model: Model,
    reading: Reading,
    plan: FilterPlan,
    phase: int,
    taps: nat,
)
    requires
        exact(model, reading),
        signed(reading),
        rounds_parts(model, reading),
        constants_read(reading, plan),
        plan.valid(),
        0 <= phase < plan.phases,
        taps <= plan.taps,
        plan.row_held(reading, phase),
    ensures
        reads(
            reading,
            row_sum(precise_model(model, plan.prototype()), plan.shape(), phase, taps),
            plan.sum(phase, taps),
        ),
    decreases taps,
{
    let target = precise_model(model, plan.prototype());
    let here = plan.sum(phase, taps);
    if taps > 0 {
        let before = (taps - 1) as nat;
        let value = plan.tap(phase, taps - 1);
        lemma_row_sum(model, reading, plan, phase, before);
        law_taps_are_windowed_sincs(model, reading, plan, phase, taps - 1);
        lemma_sum(
            model,
            reading,
            row_sum(target, plan.shape(), phase, before),
            plan.sum(phase, before),
            tap_value(target, plan.shape(), phase, taps - 1),
            value,
        );
    }
}

/// A coefficient is the windowed sinc of its tap over the sum of its row, so that every row
/// sums to one. Rows past the middle mirror the opposite ones, and the extra row is the first
/// one tap later.
pub proof fn law_coefficients_are_normalized_windowed_sincs(
    model: Model,
    reading: Reading,
    plan: FilterPlan,
    phase: int,
    tap: int,
)
    requires
        exact(model, reading),
        signed(reading),
        rounds_parts(model, reading),
        constants_read(reading, plan),
        plan.valid(),
        0 <= phase <= plan.phases,
        0 <= tap < plan.taps,
        2 * phase > plan.phases ==> tap > 0,
        ({
            let (row, column) = plan.source(phase, tap);
            plan.row_held(reading, row) && held(
                reading,
                plan.tap(row, column) * (1real / plan.sum(row, plan.taps as nat)),
            )
        }),
    ensures
        ({
            let (row, column) = plan.source(phase, tap);
            reading(
                coefficient(
                    precise_model(model, plan.prototype()),
                    plan.shape(),
                    phase,
                    tap,
                ),
            ) == Some(plan.tap(row, column) * (1real / plan.sum(row, plan.taps as nat)))
        }),
{
    let (row, column) = plan.source(phase, tap);
    let target = precise_model(model, plan.prototype());
    let taps = plan.taps as nat;
    let value = plan.tap(row, column);
    law_taps_are_windowed_sincs(model, reading, plan, row, column);
    lemma_row_sum(model, reading, plan, row, taps);
    let sum = row_sum(target, plan.shape(), row, taps);
    lemma_quotient(
        model,
        reading,
        wide_of(0x3ff0_0000_0000_0000),
        1real,
        sum,
        plan.sum(row, taps),
    );
    lemma_product(
        model,
        reading,
        tap_value(target, plan.shape(), row, column),
        value,
        reciprocal_of(model, sum),
        1real / plan.sum(row, taps),
    );
    assert(computed(target, plan.shape(), row, column) == product_of(
        model,
        tap_value(target, plan.shape(), row, column),
        reciprocal_of(model, sum),
    ).hi);
}

impl FilterPlan {
    /// The computed row and the tap in it that a coefficient comes from.
    pub open spec fn source(self, phase: int, tap: int) -> (int, int) {
        if 2 * phase <= self.phases {
            (phase, tap)
        } else if phase < self.phases {
            (self.phases - phase, self.taps - tap)
        } else {
            (0, tap - 1)
        }
    }
}

} // verus!
