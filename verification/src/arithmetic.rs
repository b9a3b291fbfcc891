//! The sample arithmetic that the stream code is written over.
//!
//! Samples and coefficients travel through this crate as the bits of their binary64
//! representation. Single operations on them are left to an implementation of
//! [`Arithmetic`]; which ones are applied, to what, and in which order, is decided here.

use vstd::prelude::*;

verus! {

/// Bits of the binary64 value 0.
pub const ZERO_BITS: u64 = 0;

/// Bits of the binary64 value 1.
pub const ONE_BITS: u64 = 0x3ff0_0000_0000_0000;

/// Bits of the binary64 value 2.
pub const TWO_BITS: u64 = 0x4000_0000_0000_0000;

/// Bits of the binary64 value 3.
pub const THREE_BITS: u64 = 0x4008_0000_0000_0000;

/// Roughness of a tail below which it is continued by odd reflection alone: 0.4.
pub const ROUGHNESS_FULL_ODD_BITS: u64 = 0x3fd9_9999_9999_999a;

/// From there to the roughness from which a tail is mirrored alone: 0.8 - 0.4.
pub const ROUGHNESS_SPAN_BITS: u64 = 0x3fd9_9999_9999_999a;

/// Level below which a tail counts as silent: 1e-12.
pub const SILENCE_BITS: u64 = 0x3d71_9799_812d_ea11;

/// Single operations on binary64 values, given and returned as bits.
///
/// Nothing is assumed of an implementation. Contracts speak of every [`Model`] that
/// an implementation follows.
pub trait Arithmetic {
    /// `a + b`, rounded.
    fn plus(&self, a: u64, b: u64) -> u64;

    /// `a - b`, rounded.
    fn minus(&self, a: u64, b: u64) -> u64;

    /// `a * b`, rounded.
    fn times(&self, a: u64, b: u64) -> u64;

    /// `a / b`, rounded.
    fn over(&self, a: u64, b: u64) -> u64;

    /// The square root of `a`, rounded.
    fn root(&self, a: u64) -> u64;

    /// Whether `a < b`.
    fn less(&self, a: u64, b: u64) -> bool;

    /// The larger one of `a` and `b`.
    fn larger(&self, a: u64, b: u64) -> u64;

    /// The integer nearest to `a`, halves away from zero, as a binary64 value.
    fn nearest(&self, a: u64) -> u64;

    /// The value of `a` as an integer, for values that are one.
    fn as_integer(&self, a: u64) -> i64;

    /// The binary64 value nearest to an integer.
    fn of_integer(&self, n: i64) -> u64;

    /// The binary64 value of a binary32 one.
    fn promote(&self, sample: u32) -> u64;

    /// The binary32 value nearest to a binary64 one.
    fn narrow(&self, sample: u64) -> u32;
}

/// The operations of an [`Arithmetic`] as mathematical functions.
pub struct Model {
    pub plus: spec_fn(u64, u64) -> u64,
    pub minus: spec_fn(u64, u64) -> u64,
    pub times: spec_fn(u64, u64) -> u64,
    pub over: spec_fn(u64, u64) -> u64,
    pub root: spec_fn(u64) -> u64,
    pub less: spec_fn(u64, u64) -> bool,
    pub larger: spec_fn(u64, u64) -> u64,
    pub nearest: spec_fn(u64) -> u64,
    pub as_integer: spec_fn(u64) -> i64,
    pub of_integer: spec_fn(i64) -> u64,
    pub promote: spec_fn(u32) -> u64,
    pub narrow: spec_fn(u64) -> u32,
}

/// Every result that `arithmetic` can return is the one that `model` gives.
pub open spec fn follows<A: Arithmetic>(arithmetic: &A, model: Model) -> bool {
    &&& forall|a: u64, b: u64, r: u64| #[trigger]
        call_ensures(A::plus, (arithmetic, a, b), r) ==> r == (model.plus)(a, b)
    &&& forall|a: u64, b: u64, r: u64| #[trigger]
        call_ensures(A::minus, (arithmetic, a, b), r) ==> r == (model.minus)(a, b)
    &&& forall|a: u64, b: u64, r: u64| #[trigger]
        call_ensures(A::times, (arithmetic, a, b), r) ==> r == (model.times)(a, b)
    &&& forall|a: u64, b: u64, r: u64| #[trigger]
        call_ensures(A::over, (arithmetic, a, b), r) ==> r == (model.over)(a, b)
    &&& forall|a: u64, r: u64| #[trigger]
        call_ensures(A::root, (arithmetic, a), r) ==> r == (model.root)(a)
    &&& forall|a: u64, b: u64, r: bool| #[trigger]
        call_ensures(A::less, (arithmetic, a, b), r) ==> r == (model.less)(a, b)
    &&& forall|a: u64, b: u64, r: u64| #[trigger]
        call_ensures(A::larger, (arithmetic, a, b), r) ==> r == (model.larger)(a, b)
    &&& forall|a: u64, r: u64| #[trigger]
        call_ensures(A::nearest, (arithmetic, a), r) ==> r == (model.nearest)(a)
    &&& forall|a: u64, r: i64| #[trigger]
        call_ensures(A::as_integer, (arithmetic, a), r) ==> r == (model.as_integer)(a)
    &&& forall|n: i64, r: u64| #[trigger]
        call_ensures(A::of_integer, (arithmetic, n), r) ==> r == (model.of_integer)(n)
    &&& forall|a: u32, r: u64| #[trigger]
        call_ensures(A::promote, (arithmetic, a), r) ==> r == (model.promote)(a)
    &&& forall|a: u64, r: u32| #[trigger]
        call_ensures(A::narrow, (arithmetic, a), r) ==> r == (model.narrow)(a)
}

/// `sum + sample * weight`, the product and the sum rounded separately.
pub open spec fn multiply_add_of(model: Model, sum: u64, sample: u64, weight: u64) -> u64 {
    (model.plus)(sum, (model.times)(sample, weight))
}

/// `low + (high - low) * fraction`.
pub open spec fn interpolate_of(model: Model, low: u64, high: u64, fraction: u64) -> u64 {
    (model.plus)(low, (model.times)((model.minus)(high, low), fraction))
}

/// `2 * edge - mirrored`: odd reflection about an edge sample.
pub open spec fn reflect_of(model: Model, edge: u64, mirrored: u64) -> u64 {
    (model.minus)((model.times)(TWO_BITS, edge), mirrored)
}

/// `numerator / denominator * phases - low_phase`: how far a fractional position lies
/// past the phase row below it.
pub open spec fn phase_fraction_of(
    model: Model,
    numerator: u32,
    denominator: u32,
    phases: usize,
    low_phase: usize,
) -> u64 {
    (model.minus)(
        (model.times)(
            (model.over)(
                (model.of_integer)(numerator as i64),
                (model.of_integer)(denominator as i64),
            ),
            (model.of_integer)(phases as i64),
        ),
        (model.of_integer)(low_phase as i64),
    )
}

/// The sum of the squares of some samples, in ascending order.
pub open spec fn power_of(model: Model, samples: Seq<u64>) -> u64
    decreases samples.len(),
{
    if samples.len() == 0 {
        ZERO_BITS
    } else {
        (model.plus)(
            power_of(model, samples.drop_last()),
            (model.times)(samples.last(), samples.last()),
        )
    }
}

/// The differences between neighboring samples.
pub open spec fn differences_of(model: Model, samples: Seq<u64>) -> Seq<u64> {
    Seq::new(
        if samples.len() == 0 {
            0
        } else {
            (samples.len() - 1) as nat
        },
        |i: int| (model.minus)(samples[i + 1], samples[i]),
    )
}

/// Root of the mean square.
pub open spec fn level_of(model: Model, samples: Seq<u64>) -> u64 {
    (model.root)(
        (model.over)(
            power_of(model, samples),
            (model.of_integer)(
                if samples.len() == 0 {
                    1
                } else {
                    samples.len() as i64
                },
            ),
        ),
    )
}

/// `value` limited to the range from 0 to 1.
pub open spec fn clamped_of(model: Model, value: u64) -> u64 {
    if (model.less)(value, ZERO_BITS) {
        ZERO_BITS
    } else if (model.less)(ONE_BITS, value) {
        ONE_BITS
    } else {
        value
    }
}

/// How much of the odd reflection enters the continuation past the end of a channel,
/// given its last samples: one for smooth tails, zero for rough ones, and a smooth step
/// between. Roughness is the level of the differences over that of the samples.
pub open spec fn roughness_blend_of(model: Model, window: Seq<u64>) -> u64 {
    let roughness = (model.over)(
        level_of(model, differences_of(model, window)),
        (model.larger)(level_of(model, window), SILENCE_BITS),
    );
    let x = clamped_of(
        model,
        (model.over)((model.minus)(roughness, ROUGHNESS_FULL_ODD_BITS), ROUGHNESS_SPAN_BITS),
    );
    let step = (model.times)(
        (model.times)(x, x),
        (model.minus)(THREE_BITS, (model.times)(TWO_BITS, x)),
    );
    (model.minus)(ONE_BITS, step)
}

/// `sum + sample * weight`, the product and the sum rounded separately.
#[inline]
pub fn multiply_add<A: Arithmetic>(arithmetic: &A, sum: u64, sample: u64, weight: u64) -> (next:
    u64)
    ensures
        forall|model: Model| #[trigger]
            follows(arithmetic, model) ==> next == multiply_add_of(model, sum, sample, weight),
{
    arithmetic.plus(sum, arithmetic.times(sample, weight))
}

/// `low + (high - low) * fraction`.
#[inline]
pub fn interpolate<A: Arithmetic>(arithmetic: &A, low: u64, high: u64, fraction: u64) -> (between:
    u64)
    ensures
        forall|model: Model| #[trigger]
            follows(arithmetic, model) ==> between == interpolate_of(model, low, high, fraction),
{
    arithmetic.plus(low, arithmetic.times(arithmetic.minus(high, low), fraction))
}

/// `2 * edge - mirrored`: odd reflection about an edge sample.
pub fn reflect<A: Arithmetic>(arithmetic: &A, edge: u64, mirrored: u64) -> (reflected: u64)
    ensures
        forall|model: Model| #[trigger]
            follows(arithmetic, model) ==> reflected == reflect_of(model, edge, mirrored),
{
    arithmetic.minus(arithmetic.times(TWO_BITS, edge), mirrored)
}

/// `numerator / denominator * phases - low_phase`: how far a fractional position lies
/// past the phase row below it.
pub fn phase_fraction<A: Arithmetic>(
    arithmetic: &A,
    numerator: u32,
    denominator: u32,
    phases: usize,
    low_phase: usize,
) -> (fraction: u64)
    ensures
        forall|model: Model| #[trigger]
            follows(arithmetic, model) ==> fraction == phase_fraction_of(
                model,
                numerator,
                denominator,
                phases,
                low_phase,
            ),
{
    let position: u64 = arithmetic.times(
        arithmetic.over(
            arithmetic.of_integer(numerator as i64),
            arithmetic.of_integer(denominator as i64),
        ),
        arithmetic.of_integer(phases as i64),
    );
    arithmetic.minus(position, arithmetic.of_integer(low_phase as i64))
}

/// Root of the mean square.
fn level<A: Arithmetic>(arithmetic: &A, samples: &Vec<u64>) -> (level: u64)
    ensures
        forall|model: Model| #[trigger]
            follows(arithmetic, model) ==> level == level_of(model, samples@),
{
    let mut power: u64 = ZERO_BITS;
    let mut i: usize = 0;
    while i < samples.len()
        invariant
            i <= samples@.len(),
            forall|model: Model| #[trigger]
                follows(arithmetic, model) ==> power == power_of(model, samples@.take(i as int)),
        decreases samples@.len() - i,
    {
        power = multiply_add(arithmetic, power, samples[i], samples[i]);
        assert(samples@.take(i + 1).drop_last() =~= samples@.take(i as int));
        i += 1;
    }
    assert(samples@.take(samples@.len() as int) =~= samples@);
    let count: i64 = if samples.len() == 0 {
        1
    } else {
        samples.len() as i64
    };
    arithmetic.root(arithmetic.over(power, arithmetic.of_integer(count)))
}

/// How much of the odd reflection enters the continuation past the end of a channel,
/// given its last samples.
pub fn roughness_blend<A: Arithmetic>(arithmetic: &A, window: &Vec<u64>) -> (blend: u64)
    ensures
        forall|model: Model| #[trigger]
            follows(arithmetic, model) ==> blend == roughness_blend_of(model, window@),
{
    let mut differences: Vec<u64> = Vec::new();
    let mut i: usize = 1;
    while i < window.len()
        invariant
            1 <= i,
            i <= window@.len() || i == 1,
            differences@.len() == i - 1,
            forall|model: Model, k: int|
                #![trigger follows(arithmetic, model), differences@[k]]
                follows(arithmetic, model) && 0 <= k < i - 1 ==> differences@[k] == (model.minus)(
                    window@[k + 1],
                    window@[k],
                ),
        decreases window@.len() - i,
    {
        differences.push(arithmetic.minus(window[i], window[i - 1]));
        i += 1;
    }
    assert forall|model: Model| #[trigger] follows(arithmetic, model) implies differences@
        == differences_of(model, window@) by {
        let wanted = differences_of(model, window@);
        assert(differences@.len() == wanted.len());
        assert forall|k: int| 0 <= k < wanted.len() implies differences@[k] == wanted[k] by {}
        assert(differences@ =~= wanted);
    }
    let roughness: u64 = arithmetic.over(
        level(arithmetic, &differences),
        arithmetic.larger(level(arithmetic, window), SILENCE_BITS),
    );
    let raw: u64 = arithmetic.over(
        arithmetic.minus(roughness, ROUGHNESS_FULL_ODD_BITS),
        ROUGHNESS_SPAN_BITS,
    );
    let x: u64 = if arithmetic.less(raw, ZERO_BITS) {
        ZERO_BITS
    } else if arithmetic.less(ONE_BITS, raw) {
        ONE_BITS
    } else {
        raw
    };
    let step: u64 = arithmetic.times(
        arithmetic.times(x, x),
        arithmetic.minus(THREE_BITS, arithmetic.times(TWO_BITS, x)),
    );
    arithmetic.minus(ONE_BITS, step)
}

/// The ordered dot product of the first `taps` samples and weights: taps are visited
/// in ascending order, one multiply-add each, starting from zero.
pub open spec fn dot(model: Model, samples: Seq<u64>, weights: Seq<u64>, taps: nat) -> u64
    decreases taps,
{
    if taps == 0 {
        ZERO_BITS
    } else {
        multiply_add_of(
            model,
            dot(model, samples, weights, (taps - 1) as nat),
            samples[taps - 1],
            weights[taps - 1],
        )
    }
}

} // verus!
