//! Filter support selection: phase count, tap count and their resource limits.

use vstd::arithmetic::div_mod::{
    lemma_div_multiples_vanish, lemma_fundamental_div_mod, lemma_truncate_middle,
};
use vstd::arithmetic::mul::lemma_mul_is_commutative;
use vstd::prelude::*;

use crate::config::{Error, FilterLength, FilterLengthPolicy};

verus! {

/// Largest number of fractional positions stored as exact phase rows.
pub const MAX_EXACT_PHASES: usize = 2_048;

/// Phase rows stored when the fractional positions are interpolated.
pub const INTERPOLATED_PHASES: usize = 1_024;

/// 64 MiB of eight-byte coefficients.
pub const MAX_COEFFICIENT_VALUES: usize = 8_388_608;

/// Largest tap count of any design.
pub const MAX_TAPS: usize = 65_535;

/// Longest filter support; the centered lookahead is half of it.
pub const MAX_SUPPORT_MILLISECONDS: u64 = 160;

/// Standard support of the generic policy, in taps at the lower of the two rates.
pub const STANDARD_SUPPORT: u64 = 1_664;

/// Support floor of the fixed policy, in taps at the lower of the two rates.
pub const FIXED_SUPPORT: u64 = 512;

/// Bits of the binary64 window shape parameter, 20.
pub const BETA_BITS: u64 = 0x4034_0000_0000_0000;

/// Bits of the binary64 cutoff relative to the lower Nyquist frequency, 1.
pub const ROLLOFF_BITS: u64 = 0x3ff0_0000_0000_0000;

/// The parameters of one coefficient bank.
#[derive(Clone, Copy, Debug, PartialEq, Eq, Structural)]
pub struct Design {
    /// Fractional phases, excluding the final interpolation row.
    pub phases: usize,
    /// Coefficients in each phase row.
    pub taps: usize,
    /// Binary64 bits of the window shape parameter.
    pub beta_bits: u64,
    /// Binary64 bits of the cutoff relative to the lower Nyquist frequency.
    pub rolloff_bits: u64,
}

/// Euclid's greatest common divisor; zero divides nothing but zero.
pub open spec fn gcd_of(a: nat, b: nat) -> nat
    decreases b,
{
    if b == 0 {
        a
    } else {
        gcd_of(b, a % b)
    }
}

/// `d` divides `n`.
pub open spec fn divides(d: nat, n: nat) -> bool {
    exists|q: nat| n == #[trigger] (q * d)
}

/// The smallest integer not below `p / q`.
pub open spec fn ceil_div(p: nat, q: nat) -> nat
    recommends
        q > 0,
{
    (p + q - 1) as nat / q
}

pub open spec fn smaller(a: nat, b: nat) -> nat {
    if a <= b {
        a
    } else {
        b
    }
}

pub open spec fn larger(a: nat, b: nat) -> nat {
    if a <= b {
        b
    } else {
        a
    }
}

/// The smallest odd number not below `n`.
pub open spec fn odd_up(n: nat) -> nat {
    if n % 2 == 0 {
        n + 1
    } else {
        n
    }
}

/// The largest odd number not above a positive `n`.
pub open spec fn odd_down(n: nat) -> nat
    recommends
        n > 0,
{
    if n % 2 == 0 {
        (n - 1) as nat
    } else {
        n
    }
}

/// The reduced output-rate denominator: how many distinct fractional positions the
/// output frames take between two input frames.
pub open spec fn fractional_positions(from: nat, to: nat) -> nat {
    to / gcd_of(from, to)
}

/// Phase rows of a rate pair: one for each fractional position while those fit, and a
/// fixed number to interpolate between otherwise.
pub open spec fn phases_of(from: nat, to: nat) -> nat {
    if fractional_positions(from, to) <= MAX_EXACT_PHASES {
        fractional_positions(from, to)
    } else {
        INTERPOLATED_PHASES as nat
    }
}

/// The largest permitted tap count of a rate pair: the smallest of the coefficient
/// storage (with its extra row), tap and support-time limits, but at least three,
/// rounded down to odd.
pub open spec fn tap_limit(from: nat, to: nat) -> nat {
    odd_down(
        larger(
            smaller(
                smaller(MAX_COEFFICIENT_VALUES as nat / (phases_of(from, to) + 1), MAX_TAPS as nat),
                from * MAX_SUPPORT_MILLISECONDS as nat / 1000,
            ),
            3,
        ),
    )
}

/// Standard support of the generic policy before any cap.
pub open spec fn generic_support(from: nat, to: nat) -> nat {
    ceil_div(STANDARD_SUPPORT as nat * from, smaller(from, to))
}

/// `p / q` rounded to the nearest integer, ties to even.
pub open spec fn nearest_even(p: nat, q: nat) -> nat
    recommends
        q > 0,
{
    let below = p / q;
    let rest = p % q;
    if 2 * rest < q || (2 * rest == q && below % 2 == 0) {
        below
    } else {
        below + 1
    }
}

/// 2 to the 52nd: the least 53-bit significand.
pub const SIGNIFICAND_MINIMUM: u64 = 0x10_0000_0000_0000;

/// `p` and `scale` doubled together until `p / q` has 53 integer bits.
pub open spec fn scaled(p: nat, q: nat, scale: nat) -> (nat, nat)
    decreases
        if p < SIGNIFICAND_MINIMUM * q {
            SIGNIFICAND_MINIMUM * q - p
        } else {
            0
        },
{
    if 0 < p && p < SIGNIFICAND_MINIMUM * q {
        scaled(2 * p, q, 2 * scale)
    } else {
        (p, scale)
    }
}

/// Binary64 division of a positive `p` by a `q` with `p / q` below 2 to the 53rd, as
/// the exact fraction that the rounded quotient is.
pub open spec fn binary64_quotient(p: nat, q: nat) -> (nat, nat) {
    let (numerator, scale) = scaled(p, q, 1);
    (nearest_even(numerator, q), scale)
}

/// Support floor of the fixed policy: 512 divided by the output-to-input ratio, at
/// most one, both divisions in binary64, rounded up to an integer.
pub open spec fn fixed_support(from: nat, to: nat) -> nat {
    if to >= from {
        FIXED_SUPPORT as nat
    } else {
        let (ratio, ratio_scale) = binary64_quotient(to, from);
        let (support, support_scale) = binary64_quotient(
            FIXED_SUPPORT as nat * ratio_scale,
            ratio,
        );
        ceil_div(support, support_scale)
    }
}

/// Predefined minimum lengths of the fixed policy for exact phase banks.
pub open spec fn fixed_minimum(from: nat, to: nat) -> nat {
    if to == 44_100 && from > to {
        if from >= 176_400 {
            2_815
        } else if from >= 96_000 {
            3_583
        } else if from >= 88_200 {
            1_919
        } else {
            1_663
        }
    } else if from < to {
        if from <= 44_100 {
            1_151
        } else if from <= 48_000 {
            959
        } else {
            767
        }
    } else if 10 * to <= 7 * from {
        767
    } else if 20 * to < 17 * from {
        639
    } else {
        0
    }
}

/// Standard length of the fixed policy before the resource limits.
pub open spec fn fixed_standard(from: nat, to: nat, exact: bool) -> nat {
    larger(
        if exact {
            fixed_minimum(from, to)
        } else {
            0
        },
        odd_up(fixed_support(from, to)),
    )
}

/// The Standard length of a policy, within the resource limits.
pub open spec fn standard_taps(from: nat, to: nat, policy: FilterLengthPolicy) -> nat {
    match policy {
        FilterLengthPolicy::Generic => odd_up(
            smaller(generic_support(from, to), tap_limit(from, to)),
        ),
        FilterLengthPolicy::Fixed => smaller(
            fixed_standard(from, to, fractional_positions(from, to) <= MAX_EXACT_PHASES),
            tap_limit(from, to),
        ),
    }
}

/// 175% of a Standard length, rounded up to odd.
pub open spec fn long_of(standard: nat) -> nat {
    odd_up(ceil_div(standard * 7, 4))
}

/// 200% of a Standard length, rounded up to odd.
pub open spec fn extra_long_of(standard: nat) -> nat {
    odd_up(standard * 2)
}

/// A custom tap count is odd, at least three and within the limit of the rate pair.
pub open spec fn valid_custom(from: nat, to: nat, taps: nat) -> bool {
    3 <= taps <= tap_limit(from, to) && taps % 2 == 1
}

/// The tap count that a rate pair, length and policy select.
pub open spec fn selected_taps(
    from: nat,
    to: nat,
    length: FilterLength,
    policy: FilterLengthPolicy,
) -> nat {
    match length {
        FilterLength::Standard => standard_taps(from, to, policy),
        FilterLength::Long => smaller(
            long_of(standard_taps(from, to, policy)),
            tap_limit(from, to),
        ),
        FilterLength::ExtraLong => smaller(
            extra_long_of(standard_taps(from, to, policy)),
            tap_limit(from, to),
        ),
        FilterLength::Custom(taps) => taps as nat,
    }
}

/// The design that a rate pair, length and policy select.
pub open spec fn design_of(
    from: nat,
    to: nat,
    length: FilterLength,
    policy: FilterLengthPolicy,
) -> Design {
    Design {
        phases: phases_of(from, to) as usize,
        taps: selected_taps(from, to, length, policy) as usize,
        beta_bits: BETA_BITS,
        rolloff_bits: ROLLOFF_BITS,
    }
}

pub proof fn lemma_gcd_positive(a: nat, b: nat)
    requires
        a > 0 || b > 0,
    ensures
        gcd_of(a, b) > 0,
    decreases b,
{
    if b != 0 {
        lemma_gcd_positive(b, a % b);
    }
}

/// The greatest common divisor divides both numbers.
pub proof fn law_gcd_divides(a: nat, b: nat)
    ensures
        divides(gcd_of(a, b), a),
        divides(gcd_of(a, b), b),
    decreases b,
{
    let g = gcd_of(a, b);
    if b == 0 {
        assert(a == 1 * g);
        assert(0 == 0 * g);
    } else {
        law_gcd_divides(b, a % b);
        let x = choose|q: nat| b == #[trigger] (q * g);
        let y = choose|q: nat| a % b == #[trigger] (q * g);
        lemma_fundamental_div_mod(a as int, b as int);
        let quotient = (a / b) as nat;
        assert(a == (quotient * x + y) * g) by (nonlinear_arith)
            requires
                a == b * quotient + a % b,
                b == x * g,
                a % b == y * g,
        ;
        assert(divides(g, a));
    }
}

/// Every common divisor divides the greatest one.
pub proof fn law_gcd_is_greatest(a: nat, b: nat, d: nat)
    requires
        divides(d, a),
        divides(d, b),
    ensures
        divides(d, gcd_of(a, b)),
    decreases b,
{
    if b != 0 {
        let x = choose|q: nat| a == #[trigger] (q * d);
        let y = choose|q: nat| b == #[trigger] (q * d);
        lemma_fundamental_div_mod(a as int, b as int);
        let quotient = (a / b) as nat;
        assert(b * quotient == (quotient * y) * d) by (nonlinear_arith)
            requires
                b == y * d,
        ;
        assert((x - quotient * y) * d == x * d - (quotient * y) * d) by (nonlinear_arith);
        assert(x - quotient * y >= 0) by (nonlinear_arith)
            requires
                (x - quotient * y) * d == a % b,
                a % b >= 0,
                b == y * d,
                b > 0,
                d >= 0,
        ;
        assert(a % b == ((x - quotient * y) as nat) * d);
        law_gcd_is_greatest(b, a % b, d);
    }
}

/// Scaling both numbers scales their greatest common divisor.
pub proof fn lemma_gcd_scales(a: nat, b: nat, k: nat)
    requires
        k > 0,
    ensures
        gcd_of(k * a, k * b) == k * gcd_of(a, b),
    decreases b,
{
    if b == 0 {
        assert(k * b == 0);
    } else {
        assert(k * b > 0) by (nonlinear_arith)
            requires
                k > 0,
                b > 0,
        ;
        lemma_truncate_middle(a as int, k as int, b as int);
        lemma_gcd_scales(b, a % b, k);
    }
}

/// The greatest common divisor reduces both numbers without remainder.
pub proof fn lemma_reduced(a: nat, b: nat)
    requires
        a > 0,
        b > 0,
    ensures
        gcd_of(a, b) > 0,
        a == (a / gcd_of(a, b)) * gcd_of(a, b),
        b == (b / gcd_of(a, b)) * gcd_of(a, b),
        a / gcd_of(a, b) > 0,
        b / gcd_of(a, b) > 0,
{
    let g = gcd_of(a, b);
    lemma_gcd_positive(a, b);
    law_gcd_divides(a, b);
    let x = choose|q: nat| a == #[trigger] (q * g);
    let y = choose|q: nat| b == #[trigger] (q * g);
    lemma_div_multiples_vanish(x as int, g as int);
    lemma_div_multiples_vanish(y as int, g as int);
    lemma_mul_is_commutative(x as int, g as int);
    lemma_mul_is_commutative(y as int, g as int);
    assert(a / g == x);
    assert(b / g == y);
    if x == 0 {
        assert(a == 0);
    }
    if y == 0 {
        assert(b == 0);
    }
}

/// The greatest common divisor of two rates.
pub fn gcd(a: u32, b: u32) -> (divisor: u32)
    ensures
        divisor == gcd_of(a as nat, b as nat),
{
    let mut x: u32 = a;
    let mut y: u32 = b;
    while y != 0
        invariant
            gcd_of(x as nat, y as nat) == gcd_of(a as nat, b as nat),
        decreases y,
    {
        let remainder: u32 = x % y;
        x = y;
        y = remainder;
    }
    x
}

/// Binary64 division of two positive integers, as an exact fraction.
fn divide_binary64(p: u128, q: u128) -> (quotient: (u128, u128))
    requires
        0 < p < 2 * SIGNIFICAND_MINIMUM * q,
        0 < q <= 2 * SIGNIFICAND_MINIMUM,
    ensures
        (quotient.0 as nat, quotient.1 as nat) == binary64_quotient(p as nat, q as nat),
        SIGNIFICAND_MINIMUM <= quotient.0 <= 2 * SIGNIFICAND_MINIMUM,
        1 <= quotient.1,
        quotient.1 * p < 2 * SIGNIFICAND_MINIMUM * q,
{
    assert(SIGNIFICAND_MINIMUM * q <= 0x10_0000_0000_0000 * 0x20_0000_0000_0000)
        by (nonlinear_arith)
        requires
            q <= 2 * SIGNIFICAND_MINIMUM,
    ;
    assert(2 * SIGNIFICAND_MINIMUM * q == 2 * (SIGNIFICAND_MINIMUM * q)) by (nonlinear_arith);
    let threshold: u128 = SIGNIFICAND_MINIMUM as u128 * q;
    let mut numerator: u128 = p;
    let mut scale: u128 = 1;
    while numerator < threshold
        invariant
            threshold == SIGNIFICAND_MINIMUM * q,
            threshold <= 0x10_0000_0000_0000 * 0x20_0000_0000_0000,
            scaled(numerator as nat, q as nat, scale as nat) == scaled(p as nat, q as nat, 1),
            0 < p <= numerator < 2 * threshold,
            numerator == scale * p,
            1 <= scale <= numerator,
        decreases 2 * threshold - numerator,
    {
        assert(2 * (scale * p) == (2 * scale) * p) by (nonlinear_arith);
        numerator = 2 * numerator;
        scale = 2 * scale;
    }
    let below: u128 = numerator / q;
    let rest: u128 = numerator % q;
    proof {
        let bound = 2 * SIGNIFICAND_MINIMUM as int;
        lemma_fundamental_div_mod(numerator as int, q as int);
        assert(SIGNIFICAND_MINIMUM <= below < bound) by (nonlinear_arith)
            requires
                numerator == q * below + rest,
                0 <= rest < q,
                SIGNIFICAND_MINIMUM * q <= numerator < bound * q,
                bound == 2 * SIGNIFICAND_MINIMUM,
        ;
    }
    let rounded: u128 = if 2 * rest < q || (2 * rest == q && below % 2 == 0) {
        below
    } else {
        below + 1
    };
    (rounded, scale)
}

/// The smallest odd number not below `n`.
fn round_up_to_odd(n: u64) -> (odd: u64)
    requires
        n < u64::MAX,
    ensures
        odd == odd_up(n as nat),
{
    if n % 2 == 0 {
        n + 1
    } else {
        n
    }
}

/// The smallest integer not below `p / q`.
pub fn divide_up(p: u128, q: u128) -> (quotient: u128)
    requires
        q > 0,
        p + q <= u128::MAX,
    ensures
        quotient == ceil_div(p as nat, q as nat),
{
    (p + (q - 1)) / q
}

/// Support floor of the fixed policy, keeping its two binary64 roundings.
fn fixed_support_floor(from_rate: u32, to_rate: u32) -> (support: u64)
    requires
        from_rate > 0,
        to_rate > 0,
    ensures
        support == fixed_support(from_rate as nat, to_rate as nat),
        support <= 2 * SIGNIFICAND_MINIMUM,
{
    if to_rate >= from_rate {
        return FIXED_SUPPORT;
    }
    let p: u128 = to_rate as u128;
    let q: u128 = from_rate as u128;
    assert(p < 2 * SIGNIFICAND_MINIMUM * q) by (nonlinear_arith)
        requires
            p < q,
            q > 0,
    ;
    let (ratio, ratio_scale) = divide_binary64(p, q);
    assert(ratio_scale < 0x20_0000_0000_0000 * 0x1_0000_0000) by (nonlinear_arith)
        requires
            ratio_scale * p < 2 * SIGNIFICAND_MINIMUM * q,
            p >= 1,
            q < 0x1_0000_0000,
    ;
    let (support, support_scale) = divide_binary64(FIXED_SUPPORT as u128 * ratio_scale, ratio);
    proof {
        let bound = 2 * SIGNIFICAND_MINIMUM as int;
        let scale = support_scale as int;
        assert(scale < bound * bound) by (nonlinear_arith)
            requires
                scale * (512 * ratio_scale) < bound * ratio,
                ratio_scale >= 1,
                ratio <= bound,
                scale >= 1,
        ;
        assert(bound * bound == 0x20_0000_0000_0000int * 0x20_0000_0000_0000int);
        assert((support + scale - 1) / scale <= support) by (nonlinear_arith)
            requires
                support >= 1,
                scale >= 1,
        ;
    }
    divide_up(support, support_scale) as u64
}

/// Standard length of the fixed policy before the resource limits.
///
/// `exact` tells whether every fractional position has its own phase row.
pub fn fixed_standard_taps(from_rate: u32, to_rate: u32, exact: bool) -> (taps: u64)
    requires
        from_rate > 0,
        to_rate > 0,
    ensures
        taps == fixed_standard(from_rate as nat, to_rate as nat, exact),
{
    let minimum: u64 = if !exact {
        0
    } else if to_rate == 44_100 && from_rate > to_rate {
        if from_rate >= 176_400 {
            2_815
        } else if from_rate >= 96_000 {
            3_583
        } else if from_rate >= 88_200 {
            1_919
        } else {
            1_663
        }
    } else if from_rate < to_rate {
        if from_rate <= 44_100 {
            1_151
        } else if from_rate <= 48_000 {
            959
        } else {
            767
        }
    } else if 10 * (to_rate as u64) <= 7 * (from_rate as u64) {
        767
    } else if 20 * (to_rate as u64) < 17 * (from_rate as u64) {
        639
    } else {
        0
    };
    let floor: u64 = round_up_to_odd(fixed_support_floor(from_rate, to_rate));
    if minimum <= floor {
        floor
    } else {
        minimum
    }
}

/// Bounds of the phase count and the tap limit of a rate pair.
pub proof fn lemma_limits(from: nat, to: nat)
    requires
        0 < from <= u32::MAX,
        0 < to <= u32::MAX,
    ensures
        1 <= phases_of(from, to) <= MAX_EXACT_PHASES,
        3 <= tap_limit(from, to) <= MAX_TAPS,
        tap_limit(from, to) % 2 == 1,
        (phases_of(from, to) + 1) * tap_limit(from, to) <= MAX_COEFFICIENT_VALUES,
        tap_limit(from, to) == 3 || tap_limit(from, to) * 1000 <= from
            * MAX_SUPPORT_MILLISECONDS,
{
    lemma_reduced(from, to);
    let rows = (phases_of(from, to) + 1) as int;
    let stored = MAX_COEFFICIENT_VALUES as int / rows;
    lemma_fundamental_div_mod(MAX_COEFFICIENT_VALUES as int, rows);
    assert(stored * rows <= MAX_COEFFICIENT_VALUES) by (nonlinear_arith)
        requires
            MAX_COEFFICIENT_VALUES == rows * stored + MAX_COEFFICIENT_VALUES as int % rows,
            MAX_COEFFICIENT_VALUES as int % rows >= 0,
            rows > 0,
    ;
    assert(stored >= 3) by (nonlinear_arith)
        requires
            MAX_COEFFICIENT_VALUES == rows * stored + MAX_COEFFICIENT_VALUES as int % rows,
            MAX_COEFFICIENT_VALUES as int % rows < rows,
            0 < rows <= 2049,
            MAX_COEFFICIENT_VALUES == 8_388_608,
    ;
    assert(rows * tap_limit(from, to) <= MAX_COEFFICIENT_VALUES) by (nonlinear_arith)
        requires
            stored * rows <= MAX_COEFFICIENT_VALUES,
            tap_limit(from, to) <= stored,
            rows > 0,
    ;
}

/// Bounds of a Standard length.
pub proof fn lemma_standard(from: nat, to: nat, policy: FilterLengthPolicy)
    requires
        0 < from <= u32::MAX,
        0 < to <= u32::MAX,
    ensures
        3 <= standard_taps(from, to, policy) <= tap_limit(from, to),
        standard_taps(from, to, policy) % 2 == 1,
{
    lemma_limits(from, to);
    match policy {
        FilterLengthPolicy::Generic => {
            let low = smaller(from, to);
            assert((STANDARD_SUPPORT * from + low - 1) / (low as int) >= STANDARD_SUPPORT)
                by (nonlinear_arith)
                requires
                    0 < low <= from,
            ;
        },
        FilterLengthPolicy::Fixed => {
            lemma_fixed_support(from, to);
        },
    }
}

/// Scaling keeps the fraction.
proof fn lemma_scaled(p: nat, q: nat, scale: nat)
    requires
        scale >= 1,
    ensures
        scaled(p, q, scale).0 * scale == p * scaled(p, q, scale).1,
        scaled(p, q, scale).1 >= scale,
    decreases
        if p < SIGNIFICAND_MINIMUM * q {
            SIGNIFICAND_MINIMUM * q - p
        } else {
            0
        },
{
    if 0 < p && p < SIGNIFICAND_MINIMUM * q {
        lemma_scaled(2 * p, q, 2 * scale);
        let (numerator, end) = scaled(2 * p, q, 2 * scale);
        assert(numerator * scale == p * end) by (nonlinear_arith)
            requires
                numerator * (2 * scale) == (2 * p) * end,
        ;
    }
}

/// A ratio below one lifts the support floor to the base support or above.
proof fn lemma_fixed_support(from: nat, to: nat)
    requires
        0 < from <= u32::MAX,
        0 < to <= u32::MAX,
    ensures
        fixed_support(from, to) >= FIXED_SUPPORT,
{
    if to < from {
        let (p1, s) = scaled(to, from, 1);
        lemma_scaled(to, from, 1);
        let m = nearest_even(p1, from);
        assert(p1 / from < s) by (nonlinear_arith)
            requires
                p1 == to * s,
                to < from,
                s >= 1,
        ;
        assert(m <= s);
        assert(m > 0) by {
            assert(p1 >= SIGNIFICAND_MINIMUM * from) by {
                lemma_scaled_done(to, from, 1);
            }
            assert(p1 / from >= 1) by (nonlinear_arith)
                requires
                    p1 >= SIGNIFICAND_MINIMUM * from,
                    from > 0,
            ;
        }
        let (p2, t) = scaled((512 * s) as nat, m, 1);
        lemma_scaled((512 * s) as nat, m, 1);
        let n = nearest_even(p2, m);
        assert(p2 / m >= 512 * t) by (nonlinear_arith)
            requires
                p2 == (512 * s) * t,
                0 < m <= s,
                t >= 1,
        ;
        assert((n + t - 1) / (t as int) >= 512) by (nonlinear_arith)
            requires
                n >= 512 * t,
                t >= 1,
        ;
    }
}

/// Scaling ends with 53 integer bits.
proof fn lemma_scaled_done(p: nat, q: nat, scale: nat)
    requires
        p > 0,
    ensures
        scaled(p, q, scale).0 >= SIGNIFICAND_MINIMUM * q,
    decreases
        if p < SIGNIFICAND_MINIMUM * q {
            SIGNIFICAND_MINIMUM * q - p
        } else {
            0
        },
{
    if p < SIGNIFICAND_MINIMUM * q {
        lemma_scaled_done(2 * p, q, 2 * scale);
    }
}

/// Whether [`select`] accepts a length.
pub open spec fn accepted_length(from: nat, to: nat, length: FilterLength) -> bool {
    match length {
        FilterLength::Custom(taps) => valid_custom(from, to, taps as nat),
        _ => true,
    }
}

/// The largest permitted tap count of a rate pair with `phases` phase rows.
fn permitted_taps(from_rate: u32, Ghost(to): Ghost<nat>, phases: usize) -> (limit: u64)
    requires
        0 < from_rate,
        0 < to <= u32::MAX,
        phases == phases_of(from_rate as nat, to),
    ensures
        limit == tap_limit(from_rate as nat, to),
{
    proof {
        lemma_limits(from_rate as nat, to);
    }
    // Include the extra interpolation row in the storage budget, and round
    // the smallest resource limit down to an odd tap count.
    let stored: u64 = (MAX_COEFFICIENT_VALUES / (phases + 1)) as u64;
    let timed: u64 = from_rate as u64 * MAX_SUPPORT_MILLISECONDS / 1000;
    let mut cap: u64 = if stored <= MAX_TAPS as u64 {
        stored
    } else {
        MAX_TAPS as u64
    };
    if timed < cap {
        cap = timed;
    }
    if cap < 3 {
        cap = 3;
    }
    if cap % 2 == 0 {
        cap - 1
    } else {
        cap
    }
}

/// The Standard length of a policy, within the limit of the rate pair.
fn standard_length(
    from_rate: u32,
    to_rate: u32,
    exact: bool,
    limit: u64,
    policy: FilterLengthPolicy,
) -> (taps: u64)
    requires
        0 < from_rate,
        0 < to_rate,
        exact == (fractional_positions(from_rate as nat, to_rate as nat) <= MAX_EXACT_PHASES),
        limit == tap_limit(from_rate as nat, to_rate as nat),
    ensures
        taps == standard_taps(from_rate as nat, to_rate as nat, policy),
{
    proof {
        lemma_limits(from_rate as nat, to_rate as nat);
    }
    match policy {
        FilterLengthPolicy::Generic => {
            let low: u32 = if from_rate <= to_rate {
                from_rate
            } else {
                to_rate
            };
            assert(STANDARD_SUPPORT * from_rate <= 1_664 * 0xffff_ffff) by (nonlinear_arith)
                requires
                    STANDARD_SUPPORT == 1_664,
                    from_rate <= 0xffff_ffff,
            ;
            let weighted: u64 = STANDARD_SUPPORT * from_rate as u64;
            let support: u128 = divide_up(weighted as u128, low as u128);
            assert(support == generic_support(from_rate as nat, to_rate as nat));
            if support < limit as u128 {
                round_up_to_odd(support as u64)
            } else {
                round_up_to_odd(limit)
            }
        },
        FilterLengthPolicy::Fixed => {
            let fixed: u64 = fixed_standard_taps(from_rate, to_rate, exact);
            if fixed < limit {
                fixed
            } else {
                limit
            }
        },
    }
}

/// Select the design of a rate pair.
///
/// Custom lengths outside the limit of the rate pair, and even ones, are refused.
pub fn select(
    from_rate: u32,
    to_rate: u32,
    filter_length: FilterLength,
    policy: FilterLengthPolicy,
) -> (selected: Result<Design, Error>)
    requires
        from_rate > 0,
        to_rate > 0,
    ensures
        accepted_length(from_rate as nat, to_rate as nat, filter_length) ==> selected == Ok::<
            Design,
            Error,
        >(design_of(from_rate as nat, to_rate as nat, filter_length, policy)),
        !accepted_length(from_rate as nat, to_rate as nat, filter_length) ==> selected == Err::<
            Design,
            Error,
        >(
            Error::InvalidFilterLength {
                requested: filter_length->Custom_0,
                maximum: tap_limit(from_rate as nat, to_rate as nat) as usize,
            },
        ),
{
    proof {
        lemma_reduced(from_rate as nat, to_rate as nat);
        lemma_limits(from_rate as nat, to_rate as nat);
        lemma_standard(from_rate as nat, to_rate as nat, policy);
    }
    // The reduced output-rate denominator counts distinct fractional positions.
    let denominator: u32 = to_rate / gcd(from_rate, to_rate);
    let exact: bool = denominator <= MAX_EXACT_PHASES as u32;
    let phases: usize = if exact {
        denominator as usize
    } else {
        INTERPOLATED_PHASES
    };
    let limit: u64 = permitted_taps(from_rate, Ghost(to_rate as nat), phases);
    let standard: u64 = standard_length(from_rate, to_rate, exact, limit, policy);
    // Capping before scaling gives the same result as capping afterwards for
    // these multipliers, and bounds the integer arithmetic.
    let taps: u64 = match filter_length {
        FilterLength::Standard => standard,
        FilterLength::Long => {
            let long: u64 = round_up_to_odd(divide_up(standard as u128 * 7, 4) as u64);
            if long < limit {
                long
            } else {
                limit
            }
        },
        FilterLength::ExtraLong => {
            let long: u64 = round_up_to_odd(standard * 2);
            if long < limit {
                long
            } else {
                limit
            }
        },
        FilterLength::Custom(taps) => {
            if taps < 3 || taps % 2 == 0 || taps as u64 > limit {
                return Err(
                    Error::InvalidFilterLength { requested: taps, maximum: limit as usize },
                );
            }
            taps as u64
        },
    };
    Ok(
        Design {
            phases,
            taps: taps as usize,
            beta_bits: BETA_BITS,
            rolloff_bits: ROLLOFF_BITS,
        },
    )
}

/// Every accepted design has an odd tap count of at least three, stays within the tap
/// limit of its rate pair, and stores at most 64 MiB of coefficients with the extra row.
pub proof fn law_designs_are_bounded(
    from: nat,
    to: nat,
    length: FilterLength,
    policy: FilterLengthPolicy,
)
    requires
        0 < from <= u32::MAX,
        0 < to <= u32::MAX,
        accepted_length(from, to, length),
    ensures
        3 <= selected_taps(from, to, length, policy) <= tap_limit(from, to) <= MAX_TAPS,
        selected_taps(from, to, length, policy) % 2 == 1,
        (phases_of(from, to) + 1) * selected_taps(from, to, length, policy)
            <= MAX_COEFFICIENT_VALUES,
        design_of(from, to, length, policy).phases == phases_of(from, to),
        design_of(from, to, length, policy).taps == selected_taps(from, to, length, policy),
{
    lemma_limits(from, to);
    lemma_standard(from, to, policy);
    let taps = selected_taps(from, to, length, policy);
    let rows = (phases_of(from, to) + 1) as nat;
    assert(rows * taps <= rows * tap_limit(from, to)) by (nonlinear_arith)
        requires
            taps <= tap_limit(from, to),
    ;
}

/// The support of an accepted design lasts at most 160 ms of input, unless the rate is
/// so low that the three-tap minimum takes precedence.
pub proof fn law_support_time_is_bounded(
    from: nat,
    to: nat,
    length: FilterLength,
    policy: FilterLengthPolicy,
)
    requires
        0 < from <= u32::MAX,
        0 < to <= u32::MAX,
        accepted_length(from, to, length),
    ensures
        selected_taps(from, to, length, policy) == 3 || selected_taps(from, to, length, policy)
            * 1000 <= from * MAX_SUPPORT_MILLISECONDS,
{
    lemma_limits(from, to);
    lemma_standard(from, to, policy);
}

/// Interpolated filters reach the storage limit at 8,183 taps.
pub proof fn law_interpolated_filters_reach_the_storage_limit(from: nat, to: nat)
    requires
        fractional_positions(from, to) > MAX_EXACT_PHASES,
    ensures
        tap_limit(from, to) <= 8_183,
        from * MAX_SUPPORT_MILLISECONDS as nat / 1000 >= 8_184 ==> tap_limit(from, to) == 8_183,
{
    assert(MAX_COEFFICIENT_VALUES as nat / 1025nat == 8_184);
    assert(phases_of(from, to) + 1 == 1025);
}

/// Longer presets never select shorter filters.
pub proof fn law_presets_are_ordered(from: nat, to: nat, policy: FilterLengthPolicy)
    requires
        0 < from <= u32::MAX,
        0 < to <= u32::MAX,
    ensures
        selected_taps(from, to, FilterLength::Standard, policy) <= selected_taps(
            from,
            to,
            FilterLength::Long,
            policy,
        ) <= selected_taps(from, to, FilterLength::ExtraLong, policy),
{
    lemma_limits(from, to);
    lemma_standard(from, to, policy);
}

/// Capping a Standard length before scaling it selects the same preset as scaling it
/// first and capping the result.
pub proof fn law_capping_commutes_with_scaling(uncapped: nat, limit: nat)
    requires
        limit % 2 == 1,
    ensures
        smaller(long_of(smaller(uncapped, limit)), limit) == smaller(long_of(uncapped), limit),
        smaller(extra_long_of(smaller(uncapped, limit)), limit) == smaller(
            extra_long_of(uncapped),
            limit,
        ),
{
}

/// A custom length selects the same design under either policy.
pub proof fn law_custom_lengths_ignore_the_policy(from: nat, to: nat, taps: usize)
    ensures
        design_of(from, to, FilterLength::Custom(taps), FilterLengthPolicy::Generic) == design_of(
            from,
            to,
            FilterLength::Custom(taps),
            FilterLengthPolicy::Fixed,
        ),
{
}

/// A custom length equal to the length of a preset is accepted and selects its design.
pub proof fn law_presets_have_equivalent_custom_lengths(
    from: nat,
    to: nat,
    length: FilterLength,
    policy: FilterLengthPolicy,
    other: FilterLengthPolicy,
)
    requires
        0 < from <= u32::MAX,
        0 < to <= u32::MAX,
        accepted_length(from, to, length),
    ensures
        valid_custom(from, to, selected_taps(from, to, length, policy)),
        design_of(
            from,
            to,
            FilterLength::Custom(selected_taps(from, to, length, policy) as usize),
            other,
        ) == design_of(from, to, length, policy),
{
    law_designs_are_bounded(from, to, length, policy);
}

/// The length of a generic preset before any resource limit.
pub open spec fn uncapped_generic(from: nat, to: nat, length: FilterLength) -> nat {
    let standard = odd_up(generic_support(from, to));
    match length {
        FilterLength::Standard => standard,
        FilterLength::Long => long_of(standard),
        FilterLength::ExtraLong => extra_long_of(standard),
        FilterLength::Custom(taps) => taps as nat,
    }
}

/// Under the generic policy, scaling both rates keeps the design wherever the resource
/// limits of both rate pairs leave the preset its full length.
pub proof fn law_scaling_both_rates_keeps_the_design(
    from: nat,
    to: nat,
    factor: nat,
    length: FilterLength,
)
    requires
        0 < from,
        0 < to,
        0 < factor,
        factor * from <= u32::MAX,
        factor * to <= u32::MAX,
        !(length is Custom),
        uncapped_generic(from, to, length) <= tap_limit(from, to),
        uncapped_generic(from, to, length) <= tap_limit(factor * from, factor * to),
    ensures
        design_of(factor * from, factor * to, length, FilterLengthPolicy::Generic) == design_of(
            from,
            to,
            length,
            FilterLengthPolicy::Generic,
        ),
{
    lemma_reduced(from, to);
    lemma_gcd_scales(from, to, factor);
    let g = gcd_of(from, to);
    vstd::arithmetic::div_mod::lemma_div_multiples_vanish_quotient(
        factor as int,
        to as int,
        g as int,
    );
    assert(fractional_positions(factor * from, factor * to) == fractional_positions(from, to));
    assert(generic_support(factor * from, factor * to) == generic_support(from, to)) by {
        let low = smaller(from, to);
        assert(smaller(factor * from, factor * to) == factor * low) by (nonlinear_arith)
            requires
                low == smaller(from, to),
                factor > 0,
        ;
        lemma_ceil_div_scales((STANDARD_SUPPORT * from) as nat, low, factor);
        assert(STANDARD_SUPPORT * (factor * from) == factor * (STANDARD_SUPPORT * from))
            by (nonlinear_arith);
    }
}

/// Scaling numerator and denominator keeps a quotient that is rounded up.
pub proof fn lemma_ceil_div_scales(p: nat, q: nat, k: nat)
    requires
        q > 0,
        k > 0,
    ensures
        ceil_div(k * p, k * q) == ceil_div(p, q),
{
    let n = ceil_div(p, q) as int;
    let x = p + q - 1;
    lemma_fundamental_div_mod(x, q as int);
    let r = x % (q as int);
    assert(k * p + k * q - 1 == n * (k * q) + (k * r + k - 1)) by (nonlinear_arith)
        requires
            p + q - 1 == q * n + r,
    ;
    assert(0 <= k * r + k - 1 < k * q) by (nonlinear_arith)
        requires
            0 <= r < q,
            k > 0,
    ;
    assert(k * q > 0) by (nonlinear_arith)
        requires
            k > 0,
            q > 0,
    ;
    vstd::arithmetic::div_mod::lemma_fundamental_div_mod_converse(
        k * p + k * q - 1,
        (k * q) as int,
        n,
        k * r + k - 1,
    );
}

/// Phase rows: as many as the output rate has parts in lowest terms, up to 2,048 of them, and
/// 1,024 otherwise. Every design has the window shape 20 and its cutoff at the lower Nyquist
/// frequency.
pub proof fn law_phases_are_the_reduced_output_rate(
    from: nat,
    to: nat,
    common: nat,
    length: FilterLength,
    policy: FilterLengthPolicy,
)
    requires
        0 < from <= u32::MAX,
        0 < to <= u32::MAX,
        0 < common,
        from % common == 0,
        to % common == 0,
        forall|d: nat| #![trigger from % d] d > 0 && from % d == 0 && to % d == 0 ==> d <= common,
    ensures
        design_of(from, to, length, policy).phases == if to / common <= 2_048 {
            (to / common) as int
        } else {
            1_024
        },
        design_of(from, to, length, policy).beta_bits == 0x4034_0000_0000_0000,
        design_of(from, to, length, policy).rolloff_bits == 0x3ff0_0000_0000_0000,
{
    let g = gcd_of(from, to);
    lemma_reduced(from, to);
    lemma_fundamental_div_mod(from as int, common as int);
    lemma_fundamental_div_mod(to as int, common as int);
    assert(from == (from / common) * common && to == (to / common) * common) by (nonlinear_arith)
        requires
            from == common * (from / common) + from % common,
            to == common * (to / common) + to % common,
            from % common == 0,
            to % common == 0,
    ;
    assert(divides(common, from) && divides(common, to));
    law_gcd_is_greatest(from, to, common);
    let q = choose|q: nat| g == #[trigger] (q * common);
    assert(q >= 1 && g >= common) by (nonlinear_arith)
        requires
            g == q * common,
            g > 0,
            common > 0,
    ;
    vstd::arithmetic::div_mod::lemma_mod_multiples_basic((from / g) as int, g as int);
    vstd::arithmetic::div_mod::lemma_mod_multiples_basic((to / g) as int, g as int);
    assert(g == common);
}

/// The tap limit is the largest odd number whose bank, with its extra row, takes at most 64 MiB
/// of eight-byte coefficients, which is at most 65,535, and which lasts at most 160 ms of
/// input; but three taps are always allowed.
pub proof fn law_the_tap_limit_is_the_largest_allowed_count(
    from: nat,
    to: nat,
    length: FilterLength,
    policy: FilterLengthPolicy,
    taps: nat,
)
    requires
        0 < from <= u32::MAX,
        0 < to <= u32::MAX,
        taps % 2 == 1,
    ensures
        tap_limit(from, to) % 2 == 1,
        taps <= tap_limit(from, to) <==> taps <= 3 || ((design_of(from, to, length, policy).phases
            + 1) * taps * 8 <= 67_108_864 && taps <= 65_535 && taps * 1000 <= from * 160),
{
    lemma_limits(from, to);
    let rows = (phases_of(from, to) + 1) as int;
    let stored = MAX_COEFFICIENT_VALUES as int / rows;
    lemma_fundamental_div_mod(MAX_COEFFICIENT_VALUES as int, rows);
    assert(taps <= stored <==> rows * taps <= MAX_COEFFICIENT_VALUES) by (nonlinear_arith)
        requires
            MAX_COEFFICIENT_VALUES == rows * stored + MAX_COEFFICIENT_VALUES as int % rows,
            0 <= MAX_COEFFICIENT_VALUES as int % rows < rows,
            rows > 0,
    ;
    assert((design_of(from, to, length, policy).phases + 1) * taps * 8 == 8 * (rows * taps))
        by (nonlinear_arith)
        requires
            design_of(from, to, length, policy).phases + 1 == rows,
    ;
}

/// The Standard length of the generic policy is the smallest odd number of taps that spans
/// 1,664 samples at the lower one of the two rates, for every rate pair, up to the limit.
pub proof fn law_generic_lengths_follow_the_rates(from: nat, to: nat, taps: nat)
    requires
        0 < from <= u32::MAX,
        0 < to <= u32::MAX,
        taps % 2 == 1,
        taps * if from <= to {
            from
        } else {
            to
        } >= 1_664 * from,
        (taps - 2) * if from <= to {
            from
        } else {
            to
        } < 1_664 * from,
    ensures
        design_of(from, to, FilterLength::Standard, FilterLengthPolicy::Generic).taps == if taps
            <= tap_limit(from, to) {
            taps
        } else {
            tap_limit(from, to)
        },
{
    lemma_limits(from, to);
    lemma_standard(from, to, FilterLengthPolicy::Generic);
    let low = smaller(from, to) as int;
    let support = generic_support(from, to) as int;
    lemma_fundamental_div_mod(1_664 * from + low - 1, low);
    assert(support <= taps && taps - 2 < support) by (nonlinear_arith)
        requires
            1_664 * from + low - 1 == low * support + (1_664 * from + low - 1) % low,
            0 <= (1_664 * from + low - 1) % low < low,
            taps * low >= 1_664 * from,
            (taps - 2) * low < 1_664 * from,
    ;
}

/// Long is the smallest odd number of taps that is at least 175% of Standard, and ExtraLong the
/// smallest one that is at least twice Standard, up to the limit.
pub proof fn law_presets_lengthen_standard(
    from: nat,
    to: nat,
    policy: FilterLengthPolicy,
    long: nat,
    extra_long: nat,
)
    requires
        0 < from <= u32::MAX,
        0 < to <= u32::MAX,
        long % 2 == 1,
        extra_long % 2 == 1,
        4 * long >= 7 * design_of(from, to, FilterLength::Standard, policy).taps,
        4 * (long - 2) < 7 * design_of(from, to, FilterLength::Standard, policy).taps,
        extra_long >= 2 * design_of(from, to, FilterLength::Standard, policy).taps,
        extra_long - 2 < 2 * design_of(from, to, FilterLength::Standard, policy).taps,
    ensures
        design_of(from, to, FilterLength::Long, policy).taps == if long <= tap_limit(from, to) {
            long
        } else {
            tap_limit(from, to)
        },
        design_of(from, to, FilterLength::ExtraLong, policy).taps == if extra_long <= tap_limit(
            from,
            to,
        ) {
            extra_long
        } else {
            tap_limit(from, to)
        },
{
    lemma_limits(from, to);
    lemma_standard(from, to, policy);
}

/// Custom lengths are accepted exactly if they are odd, at least three, and within the limit,
/// and are then used as they are. Presets are always accepted.
pub proof fn law_custom_lengths_are_used_as_they_are(
    from: nat,
    to: nat,
    taps: usize,
    policy: FilterLengthPolicy,
)
    ensures
        accepted_length(from, to, FilterLength::Custom(taps)) <==> taps % 2 == 1 && 3 <= taps
            <= tap_limit(from, to),
        design_of(from, to, FilterLength::Custom(taps), policy).taps == taps,
        accepted_length(from, to, FilterLength::Standard),
        accepted_length(from, to, FilterLength::Long),
        accepted_length(from, to, FilterLength::ExtraLong),
{
}

/// Two to a power.
pub open spec fn doubled(times: nat) -> nat
    decreases times,
{
    if times == 0 {
        1
    } else {
        2 * doubled((times - 1) as nat)
    }
}

proof fn lemma_scaling_doubles(p: nat, q: nat, scale: nat, times: nat)
    requires
        scale == doubled(times),
    ensures
        exists|more: nat| scaled(p, q, scale).1 == #[trigger] doubled(more),
        p >= SIGNIFICAND_MINIMUM * q ==> scaled(p, q, scale).0 == p,
        0 < p < SIGNIFICAND_MINIMUM * q ==> scaled(p, q, scale).0 < 2 * SIGNIFICAND_MINIMUM * q,
    decreases
            if p < SIGNIFICAND_MINIMUM * q {
                SIGNIFICAND_MINIMUM * q - p
            } else {
                0
            },
{
    if 0 < p && p < SIGNIFICAND_MINIMUM * q {
        assert(doubled(times + 1) == 2 * scale);
        lemma_scaling_doubles(2 * p, q, 2 * scale, times + 1);
        assert(2 * p < 2 * SIGNIFICAND_MINIMUM * q) by (nonlinear_arith)
            requires
                p < SIGNIFICAND_MINIMUM * q,
        ;
    } else {
        assert(scaled(p, q, scale).1 == doubled(times));
    }
}

/// Binary64 quotients are the nearest ones with a significand of 53 bits, and the even one of
/// two that are equally near.
pub proof fn law_quotients_are_the_nearest_ones(p: nat, q: nat)
    requires
        0 < p,
        0 < q,
        p < 0x20_0000_0000_0000 * q,
    ensures
        ({
            let (significand, scale) = binary64_quotient(p, q);
            let error = significand * q - p * scale;
            &&& 0x10_0000_0000_0000 <= significand <= 0x20_0000_0000_0000
            &&& exists|times: nat| scale == #[trigger] doubled(times)
            &&& -(q as int) <= 2 * error <= q
            &&& 2 * error == q || 2 * error == -(q as int) ==> significand % 2 == 0
        }),
{
    let (numerator, scale) = scaled(p, q, 1);
    lemma_scaled(p, q, 1);
    lemma_scaled_done(p, q, 1);
    assert(doubled(0) == 1);
    lemma_scaling_doubles(p, q, 1, 0);
    let below = (numerator / q) as int;
    let rest = (numerator % q) as int;
    lemma_fundamental_div_mod(numerator as int, q as int);
    let significand = nearest_even(numerator, q) as int;
    let error = significand * q - p * scale;
    assert(below * q == numerator - rest && (below + 1) * q == numerator - rest + q)
        by (nonlinear_arith)
        requires
            numerator == q * below + rest,
    ;
    assert(0x10_0000_0000_0000 <= below && below < 0x20_0000_0000_0000) by (nonlinear_arith)
        requires
            numerator == q * below + rest,
            0 <= rest < q,
            numerator >= 0x10_0000_0000_0000 * q,
            numerator < 0x20_0000_0000_0000 * q,
    ;
    assert(p * scale == numerator);
    if significand == below {
        assert(error == -rest);
    } else {
        assert(error == q - rest);
    }
}

/// A quotient that is rounded up is the smallest integer whose product with the divisor is not
/// below the dividend.
pub proof fn law_quotients_are_rounded_up(p: nat, q: nat)
    requires
        q > 0,
    ensures
        p <= ceil_div(p, q) * q < p + q,
{
    lemma_fundamental_div_mod(p + q - 1, q as int);
    assert(((p + q - 1) / (q as int)) * q == q * ((p + q - 1) / (q as int))) by (nonlinear_arith);
}

/// The Standard length of the fixed policy, for every rate pair, up to the limit: at least the
/// smallest odd number of taps that spans 512 samples at the lower one of the two rates, as
/// two binary64 divisions give it; and, where every fractional position has its own phase row,
/// at least the minimum of the pair's rates.
pub proof fn law_fixed_lengths_have_their_minimum(from: nat, to: nat, floor: nat, minimum: nat)
    requires
        0 < from <= u32::MAX,
        0 < to <= u32::MAX,
        floor % 2 == 1,
        to >= from ==> floor == 513,
        to < from ==> ({
            let (ratio, ratio_scale) = binary64_quotient(to, from);
            let (support, scale) = binary64_quotient(512 * ratio_scale, ratio);
            floor * scale >= support && (floor - 2) * scale < support
        }),
        fixed_case(from, to, minimum),
    ensures
        fixed_standard(from, to, false) == floor,
        to / gcd_of(from, to) <= 2_048 ==> fixed_standard(from, to, true) == if floor < minimum {
            minimum
        } else {
            floor
        },
        design_of(from, to, FilterLength::Standard, FilterLengthPolicy::Fixed).taps == ({
            let wanted = if floor < minimum {
                minimum
            } else {
                floor
            };
            if wanted <= tap_limit(from, to) {
                wanted
            } else {
                tap_limit(from, to)
            }
        }),
{
    lemma_limits(from, to);
    lemma_standard(from, to, FilterLengthPolicy::Fixed);
    if to < from {
        let (ratio, ratio_scale) = binary64_quotient(to, from);
        let (support, scale) = binary64_quotient(512 * ratio_scale, ratio);
        lemma_scaled((512 * ratio_scale) as nat, ratio, 1);
        let least = ceil_div(support, scale) as int;
        lemma_fundamental_div_mod(support + scale - 1, scale as int);
        assert(least <= floor && floor - 2 < least) by (nonlinear_arith)
            requires
                support + scale - 1 == scale * least + (support + scale - 1) % (scale as int),
                0 <= (support + scale - 1) % (scale as int) < scale,
                floor * scale >= support,
                (floor - 2) * scale < support,
        ;
    }
}

/// `minimum` is the least length of the fixed policy for a rate pair.
pub open spec fn fixed_case(from: nat, to: nat, minimum: nat) -> bool {
    let stored = to / gcd_of(from, to) <= 2_048;
    ||| !stored && minimum == 0
    ||| stored && to == 44_100 && 44_100 < from < 88_200 && minimum == 1_663
    ||| stored && to == 44_100 && 88_200 <= from < 96_000 && minimum == 1_919
    ||| stored && to == 44_100 && 96_000 <= from < 176_400 && minimum == 3_583
    ||| stored && to == 44_100 && 176_400 <= from && minimum == 2_815
    ||| stored && from < to && from <= 44_100 && minimum == 1_151
    ||| stored && from < to && 44_100 < from <= 48_000 && minimum == 959
    ||| stored && from < to && 48_000 < from && minimum == 767
    ||| stored && to != 44_100 && from >= to && 100 * to <= 70 * from && minimum == 767
    ||| stored && to != 44_100 && from >= to && 70 * from < 100 * to < 85 * from && minimum == 639
    ||| stored && from >= to && 85 * from <= 100 * to && (to != 44_100 || from == to) && minimum
        == 0
}

} // verus!
