//! Coefficients at extended precision, rounded once.
//!
//! The filter is a sinc under a window made of the positive tail of the modified Bessel
//! series: `tail(y)` sums `y^k / (k!)^2` from `k = 2` on, and the window at `u` is
//! `tail(beta^2 / 4 * (1 - u^2)) / tail(beta^2 / 4)`.

use vstd::arithmetic::div_mod::{lemma_fundamental_div_mod, lemma_fundamental_div_mod_converse};
use vstd::prelude::*;

use crate::arithmetic::{follows, Arithmetic, Model, ONE_BITS, ZERO_BITS};
use crate::bank::{
    bank_of, coefficient, coefficients, computable, computed, kernel_follows, row_sum, shape_of,
    tap_value, Kernel, KernelModel, TapPoint,
};
use crate::config::{FilterLength, FilterLengthPolicy};
use crate::design::{
    design_of, law_designs_are_bounded, law_scaling_both_rates_keeps_the_design, lemma_reduced,
    tap_limit, uncapped_generic, Design, MAX_EXACT_PHASES, MAX_TAPS, ROLLOFF_BITS,
};
use crate::wide::{
    difference_of, integer_of, negated_of, pi_of, product_of, quotient_of, reciprocal_of, sum_of,
    wide_of, Wide, SIGN_BIT,
};

verus! {

/// Most terms of the window series.
pub const WINDOW_TERMS: usize = 64;

/// Terms of the sine series after the first.
pub const SINE_TERMS: usize = 20;

/// A term below this part of the sum ends the window series: 1e-33.
pub const NEGLIGIBLE_BITS: u64 = 0x3914_c4e9_77ba_1f5c;

/// Bits of the binary64 value 0.25.
pub const QUARTER_BITS: u64 = 0x3fd0_0000_0000_0000;

/// The magnitude of a binary64 value.
pub open spec fn magnitude_of(bits: u64) -> u64 {
    bits & !SIGN_BIT
}

/// `1 / k^2`.
pub open spec fn square_reciprocal_of(model: Model, k: int) -> Wide {
    reciprocal_of(model, integer_of(model, k * k))
}

/// `1 / (2k * (2k + 1))`.
pub open spec fn sine_reciprocal_of(model: Model, k: int) -> Wide {
    reciprocal_of(model, integer_of(model, 2 * k * (2 * k + 1)))
}

/// `y^k / (k!)^2`, each term from the one before.
pub open spec fn window_term_of(model: Model, y: Wide, k: nat) -> Wide
    decreases k,
{
    if k == 0 {
        wide_of(ONE_BITS)
    } else {
        product_of(
            model,
            product_of(model, window_term_of(model, y, (k - 1) as nat), y),
            square_reciprocal_of(model, k as int),
        )
    }
}

/// The terms from the second to the `k`-th.
pub open spec fn window_sum_of(model: Model, y: Wide, k: nat) -> Wide
    decreases k,
{
    if k < 2 {
        wide_of(ZERO_BITS)
    } else {
        sum_of(model, window_sum_of(model, y, (k - 1) as nat), window_term_of(model, y, k))
    }
}

/// The `k`-th term no longer matters, for `k` from three on.
pub open spec fn negligible_of(model: Model, y: Wide, k: nat) -> bool {
    k > 2 && (model.less)(
        magnitude_of(window_term_of(model, y, k).hi),
        (model.times)(magnitude_of(window_sum_of(model, y, k).hi), NEGLIGIBLE_BITS),
    )
}

/// The last term that is summed, from the `k`-th on.
pub open spec fn last_term_of(model: Model, y: Wide, k: nat) -> nat
    decreases WINDOW_TERMS - k,
{
    if k >= WINDOW_TERMS || negligible_of(model, y, k) {
        k
    } else {
        last_term_of(model, y, k + 1)
    }
}

/// The positive tail of the modified Bessel series.
pub open spec fn tail_of(model: Model, y: Wide) -> Wide {
    window_sum_of(model, y, last_term_of(model, y, 0))
}

/// The `k`-th term of the sine series at `x`.
pub open spec fn sine_term_of(model: Model, x: Wide, k: nat) -> Wide
    decreases k,
{
    if k == 0 {
        x
    } else {
        product_of(
            model,
            product_of(
                model,
                sine_term_of(model, x, (k - 1) as nat),
                negated_of(product_of(model, x, x)),
            ),
            sine_reciprocal_of(model, k as int),
        )
    }
}

/// The sine series at `x` up to the `k`-th term.
pub open spec fn sine_sum_of(model: Model, x: Wide, k: nat) -> Wide
    decreases k,
{
    if k == 0 {
        x
    } else {
        sum_of(model, sine_sum_of(model, x, (k - 1) as nat), sine_term_of(model, x, k))
    }
}

/// The sine of `value` half turns. Whole half turns are taken off before the argument is
/// multiplied by pi.
pub open spec fn sin_pi_of(model: Model, value: Wide) -> Wide {
    let whole = (model.nearest)(value.hi);
    let x = product_of(model, difference_of(model, value, wide_of(whole)), pi_of());
    let sum = sine_sum_of(model, x, SINE_TERMS as nat);
    if (model.as_integer)(whole) & 1 == 0 {
        sum
    } else {
        negated_of(sum)
    }
}

/// The sine at a point whose argument has been reduced to a fraction of a half turn.
pub open spec fn reduced_sine_of(model: Model, point: TapPoint) -> Wide {
    let sine = sin_pi_of(
        model,
        quotient_of(
            model,
            integer_of(model, point.remainder as int),
            integer_of(model, point.denominator as int),
        ),
    );
    if point.negated {
        negated_of(sine)
    } else {
        sine
    }
}

/// What a filter is made from.
#[derive(Clone, Copy, Debug, PartialEq, Eq, Structural)]
pub struct Prototype {
    /// Input sample rate.
    pub from_rate: u32,
    /// The lower one of the two rates.
    pub lower_rate: u32,
    /// Taps on each side of the center times phases.
    pub support: u64,
    /// Phase rows.
    pub phases: usize,
    /// Bits of the window parameter.
    pub beta_bits: u64,
    /// Bits of the cutoff.
    pub rolloff_bits: u64,
}

/// What the filter of a rate pair and design is made from.
pub open spec fn prototype_of(from_rate: u32, to_rate: u32, design: Design) -> Prototype {
    Prototype {
        from_rate,
        lower_rate: if from_rate < to_rate {
            from_rate
        } else {
            to_rate
        },
        support: ((design.taps as int / 2) * design.phases) as u64,
        phases: design.phases,
        beta_bits: design.beta_bits,
        rolloff_bits: design.rolloff_bits,
    }
}

/// Cutoff as a part of the input rate.
pub open spec fn scale_of(model: Model, prototype: Prototype) -> Wide {
    product_of(
        model,
        quotient_of(
            model,
            integer_of(model, prototype.lower_rate as int),
            integer_of(model, prototype.from_rate as int),
        ),
        wide_of(prototype.rolloff_bits),
    )
}

/// `beta^2 / 4`.
pub open spec fn window_scale_of(model: Model, prototype: Prototype) -> Wide {
    let beta = wide_of(prototype.beta_bits);
    product_of(model, product_of(model, beta, beta), wide_of(QUARTER_BITS))
}

/// The window at a distance from the center.
pub open spec fn window_of(model: Model, prototype: Prototype, coordinate: Wide) -> Wide {
    let scale = window_scale_of(model, prototype);
    let u = product_of(
        model,
        coordinate,
        reciprocal_of(model, integer_of(model, prototype.support as int)),
    );
    let inside = difference_of(model, wide_of(ONE_BITS), product_of(model, u, u));
    product_of(
        model,
        tail_of(model, product_of(model, scale, inside)),
        reciprocal_of(model, tail_of(model, scale)),
    )
}

/// The windowed sinc at a point. At unity cutoff the reduced argument of the point is
/// used; other cutoffs are multiplied in first.
pub open spec fn windowed_sinc_of(model: Model, prototype: Prototype, point: TapPoint) -> Wide {
    let coordinate = integer_of(model, point.numerator as int);
    let x = product_of(
        model,
        coordinate,
        reciprocal_of(model, integer_of(model, prototype.phases as int)),
    );
    let sinc = if point.numerator == 0 {
        scale_of(model, prototype)
    } else {
        let sine = if prototype.rolloff_bits == ROLLOFF_BITS {
            reduced_sine_of(model, point)
        } else {
            sin_pi_of(model, product_of(model, scale_of(model, prototype), x))
        };
        quotient_of(model, sine, product_of(model, pi_of(), x))
    };
    product_of(model, sinc, window_of(model, prototype, coordinate))
}

/// Coefficient arithmetic at extended precision.
pub open spec fn precise_model(model: Model, prototype: Prototype) -> KernelModel<Wide> {
    KernelModel {
        zero: wide_of(ZERO_BITS),
        windowed_sinc: |point: TapPoint| windowed_sinc_of(model, prototype, point),
        sum: |a: Wide, b: Wide| sum_of(model, a, b),
        reciprocal: |a: Wide| reciprocal_of(model, a),
        rounded_product: |a: Wide, b: Wide| product_of(model, a, b).hi,
    }
}

/// Factors of the two series, prepared once for a bank.
pub struct Series {
    squares: Vec<Wide>,
    sine: Vec<Wide>,
}

impl Series {
    /// The factors are those of both series.
    pub closed spec fn prepared(self, model: Model) -> bool {
        &&& self.squares@.len() == WINDOW_TERMS
        &&& forall|i: int|
            0 <= i < WINDOW_TERMS ==> #[trigger] self.squares@[i] == square_reciprocal_of(
                model,
                i + 1,
            )
        &&& self.sine@.len() == SINE_TERMS
        &&& forall|i: int|
            0 <= i < SINE_TERMS ==> #[trigger] self.sine@[i] == sine_reciprocal_of(model, i + 1)
    }

    /// Prepare the factors of both series.
    pub fn new<A: Arithmetic>(arithmetic: &A) -> (series: Series)
        ensures
            forall|model: Model| #[trigger]
                follows(arithmetic, model) ==> series.prepared(model),
    {
        let mut squares: Vec<Wide> = Vec::new();
        let mut k: i64 = 1;
        while k <= WINDOW_TERMS as i64
            invariant
                1 <= k <= WINDOW_TERMS + 1,
                squares@.len() == k - 1,
                forall|model: Model, i: int|
                    #![trigger follows(arithmetic, model), squares@[i]]
                    follows(arithmetic, model) && 0 <= i < k - 1 ==> squares@[i]
                        == square_reciprocal_of(model, i + 1),
            decreases WINDOW_TERMS + 1 - k,
        {
            assert(1 <= k * k <= 64 * 64) by (nonlinear_arith)
                requires
                    1 <= k <= 64,
            ;
            squares.push(Wide::integer(arithmetic, k * k).reciprocal(arithmetic));
            k += 1;
        }
        let mut sine: Vec<Wide> = Vec::new();
        let mut k: i64 = 1;
        while k <= SINE_TERMS as i64
            invariant
                1 <= k <= SINE_TERMS + 1,
                sine@.len() == k - 1,
                forall|model: Model, i: int|
                    #![trigger follows(arithmetic, model), sine@[i]]
                    follows(arithmetic, model) && 0 <= i < k - 1 ==> sine@[i] == sine_reciprocal_of(
                        model,
                        i + 1,
                    ),
            decreases SINE_TERMS + 1 - k,
        {
            assert(1 <= 2 * k * (2 * k + 1) <= 40 * 41) by (nonlinear_arith)
                requires
                    1 <= k <= 20,
            ;
            sine.push(Wide::integer(arithmetic, 2 * k * (2 * k + 1)).reciprocal(arithmetic));
            k += 1;
        }
        Series { squares, sine }
    }

    /// The positive tail of the modified Bessel series.
    pub fn tail<A: Arithmetic>(&self, arithmetic: &A, y: Wide) -> (tail: Wide)
        ensures
            forall|model: Model| #[trigger]
                follows(arithmetic, model) && self.prepared(model) ==> tail == tail_of(model, y),
    {
        let mut term: Wide = Wide::new(ONE_BITS);
        let mut sum: Wide = Wide::new(ZERO_BITS);
        let mut k: usize = 0;
        while k < WINDOW_TERMS && k < self.squares.len()
            invariant
                k <= WINDOW_TERMS,
                forall|model: Model| #[trigger]
                    follows(arithmetic, model) && self.prepared(model) ==> {
                        &&& term == window_term_of(model, y, k as nat)
                        &&& sum == window_sum_of(model, y, k as nat)
                        &&& last_term_of(model, y, 0) == last_term_of(model, y, k as nat)
                        &&& !negligible_of(model, y, k as nat)
                    },
            decreases WINDOW_TERMS - k,
        {
            term = term.times(arithmetic, y).times(arithmetic, self.squares[k]);
            let ghost before = k;
            k += 1;
            if k > 1 {
                sum = sum.plus(arithmetic, term);
            }
            if k > 2 && arithmetic.less(
                term.hi & !SIGN_BIT,
                arithmetic.times(sum.hi & !SIGN_BIT, NEGLIGIBLE_BITS),
            ) {
                assert forall|model: Model| #[trigger]
                    follows(arithmetic, model) && self.prepared(model) implies sum == tail_of(
                    model,
                    y,
                ) by {
                    assert(negligible_of(model, y, k as nat));
                    assert(last_term_of(model, y, before as nat) == last_term_of(
                        model,
                        y,
                        k as nat,
                    ));
                    assert(last_term_of(model, y, k as nat) == k);
                }
                return sum;
            }
        }
        sum
    }

    /// The sine of `value` half turns.
    pub fn sin_pi<A: Arithmetic>(&self, arithmetic: &A, value: Wide) -> (sine: Wide)
        ensures
            forall|model: Model| #[trigger]
                follows(arithmetic, model) && self.prepared(model) ==> sine == sin_pi_of(
                    model,
                    value,
                ),
    {
        let whole: u64 = arithmetic.nearest(value.hi);
        let x: Wide = value.minus(arithmetic, Wide::new(whole)).times(arithmetic, Wide::pi());
        let negative_square: Wide = x.times(arithmetic, x).negated();
        let mut term: Wide = x;
        let mut sum: Wide = x;
        let mut k: usize = 0;
        while k < SINE_TERMS && k < self.sine.len()
            invariant
                k <= SINE_TERMS,
                forall|model: Model| #[trigger]
                    follows(arithmetic, model) && self.prepared(model) ==> {
                        &&& negative_square == negated_of(product_of(model, x, x))
                        &&& term == sine_term_of(model, x, k as nat)
                        &&& sum == sine_sum_of(model, x, k as nat)
                    },
            decreases SINE_TERMS - k,
        {
            term = term.times(arithmetic, negative_square).times(arithmetic, self.sine[k]);
            sum = sum.plus(arithmetic, term);
            k += 1;
        }
        if arithmetic.as_integer(whole) & 1 == 0 {
            sum
        } else {
            sum.negated()
        }
    }

    /// The sine at a point whose argument has been reduced to a fraction of a half turn.
    pub fn sin_pi_ratio<A: Arithmetic>(&self, arithmetic: &A, point: TapPoint) -> (sine: Wide)
        ensures
            forall|model: Model| #[trigger]
                follows(arithmetic, model) && self.prepared(model) ==> sine == reduced_sine_of(
                    model,
                    point,
                ),
    {
        let turn: Wide = Wide::integer(arithmetic, point.remainder).over(
            arithmetic,
            Wide::integer(arithmetic, point.denominator),
        );
        let sine: Wide = self.sin_pi(arithmetic, turn);
        if point.negated {
            sine.negated()
        } else {
            sine
        }
    }
}

/// The filter of a rate pair and design, with its constants at extended precision.
pub struct Filter<'a, A: Arithmetic> {
    arithmetic: &'a A,
    series: Series,
    unity_cutoff: bool,
    scale: Wide,
    window_scale: Wide,
    window_normalization: Wide,
    inverse_support: Wide,
    inverse_phases: Wide,
}

impl<'a, A: Arithmetic> Filter<'a, A> {
    /// The constants are those of the filter's prototype.
    pub closed spec fn prepared(self, model: Model, prototype: Prototype) -> bool {
        &&& follows(self.arithmetic, model)
        &&& self.series.prepared(model)
        &&& self.unity_cutoff == (prototype.rolloff_bits == ROLLOFF_BITS)
        &&& self.scale == scale_of(model, prototype)
        &&& self.window_scale == window_scale_of(model, prototype)
        &&& self.window_normalization == reciprocal_of(
            model,
            tail_of(model, window_scale_of(model, prototype)),
        )
        &&& self.inverse_support == reciprocal_of(
            model,
            integer_of(model, prototype.support as int),
        )
        &&& self.inverse_phases == reciprocal_of(model, integer_of(model, prototype.phases as int))
    }

    /// `value` is the windowed sinc at a point.
    pub open spec fn evaluates(self, point: TapPoint, value: Wide) -> bool {
        forall|model: Model, prototype: Prototype| #[trigger]
            self.prepared(model, prototype) ==> value == windowed_sinc_of(model, prototype, point)
    }

    /// `value` is the sum of two values.
    pub open spec fn adds(self, a: Wide, b: Wide, value: Wide) -> bool {
        forall|model: Model, prototype: Prototype| #[trigger]
            self.prepared(model, prototype) ==> value == sum_of(model, a, b)
    }

    /// `inverse` is one over a value.
    pub open spec fn inverts(self, value: Wide, inverse: Wide) -> bool {
        forall|model: Model, prototype: Prototype| #[trigger]
            self.prepared(model, prototype) ==> inverse == reciprocal_of(model, value)
    }

    /// `bits` are the leading bits of the product of two values.
    pub open spec fn rounds(self, a: Wide, b: Wide, bits: u64) -> bool {
        forall|model: Model, prototype: Prototype| #[trigger]
            self.prepared(model, prototype) ==> bits == product_of(model, a, b).hi
    }

    /// Prepare the constants of a filter.
    pub fn new(arithmetic: &'a A, from_rate: u32, to_rate: u32, design: Design) -> (filter: Self)
        requires
            0 < design.phases <= MAX_EXACT_PHASES,
            0 < design.taps <= MAX_TAPS,
        ensures
            forall|model: Model| #[trigger]
                follows(arithmetic, model) ==> filter.prepared(
                    model,
                    prototype_of(from_rate, to_rate, design),
                ),
    {
        let ghost prototype = prototype_of(from_rate, to_rate, design);
        let half: usize = design.taps / 2;
        assert(0 <= half * design.phases <= 32_767 * 2048) by (nonlinear_arith)
            requires
                0 <= half <= 32_767,
                0 < design.phases <= 2048,
        ;
        let support: i64 = (half * design.phases) as i64;
        let lower_rate: u32 = if from_rate < to_rate {
            from_rate
        } else {
            to_rate
        };
        let series: Series = Series::new(arithmetic);
        let scale: Wide = Wide::integer(arithmetic, lower_rate as i64).over(
            arithmetic,
            Wide::integer(arithmetic, from_rate as i64),
        ).times(arithmetic, Wide::new(design.rolloff_bits));
        let beta: Wide = Wide::new(design.beta_bits);
        let window_scale: Wide = beta.times(arithmetic, beta).times(
            arithmetic,
            Wide::new(QUARTER_BITS),
        );
        let window_normalization: Wide = series.tail(arithmetic, window_scale).reciprocal(
            arithmetic,
        );
        let inverse_support: Wide = Wide::integer(arithmetic, support).reciprocal(arithmetic);
        let inverse_phases: Wide = Wide::integer(arithmetic, design.phases as i64).reciprocal(
            arithmetic,
        );
        Filter {
            arithmetic,
            series,
            unity_cutoff: design.rolloff_bits == ROLLOFF_BITS,
            scale,
            window_scale,
            window_normalization,
            inverse_support,
            inverse_phases,
        }
    }
}

impl<'a, A: Arithmetic> Kernel<Wide> for Filter<'a, A> {
    fn zero(&self) -> (value: Wide)
        ensures
            value == wide_of(ZERO_BITS),
    {
        Wide::new(ZERO_BITS)
    }

    fn windowed_sinc(&self, point: TapPoint) -> (value: Wide)
        ensures
            self.evaluates(point, value),
    {
        let arithmetic: &A = self.arithmetic;
        let coordinate: Wide = Wide::integer(arithmetic, point.numerator);
        let x: Wide = coordinate.times(arithmetic, self.inverse_phases);
        let u: Wide = coordinate.times(arithmetic, self.inverse_support);
        let inside: Wide = Wide::new(ONE_BITS).minus(arithmetic, u.times(arithmetic, u));
        let window: Wide = self.series.tail(
            arithmetic,
            self.window_scale.times(arithmetic, inside),
        ).times(arithmetic, self.window_normalization);
        let sinc: Wide = if point.numerator == 0 {
            self.scale
        } else {
            let sine: Wide = if self.unity_cutoff {
                self.series.sin_pi_ratio(arithmetic, point)
            } else {
                self.series.sin_pi(arithmetic, self.scale.times(arithmetic, x))
            };
            sine.over(arithmetic, Wide::pi().times(arithmetic, x))
        };
        sinc.times(arithmetic, window)
    }

    fn sum(&self, a: Wide, b: Wide) -> (value: Wide)
        ensures
            self.adds(a, b, value),
    {
        a.plus(self.arithmetic, b)
    }

    fn reciprocal(&self, value: Wide) -> (inverse: Wide)
        ensures
            self.inverts(value, inverse),
    {
        value.reciprocal(self.arithmetic)
    }

    fn rounded_product(&self, a: Wide, b: Wide) -> (bits: u64)
        ensures
            self.rounds(a, b, bits),
    {
        a.times(self.arithmetic, b).hi
    }
}

/// All coefficients of a rate pair and design, computed at extended precision.
pub fn precise_coefficients<A: Arithmetic>(
    arithmetic: &A,
    from_rate: u32,
    to_rate: u32,
    design: Design,
) -> (bank: Vec<u64>)
    requires
        computable(from_rate, to_rate, design),
    ensures
        bank@.len() == (design.phases + 1) * design.taps,
        forall|model: Model| #[trigger]
            follows(arithmetic, model) ==> bank@ == bank_of(
                precise_model(model, prototype_of(from_rate, to_rate, design)),
                shape_of(from_rate, to_rate, design),
            ),
{
    let filter: Filter<A> = Filter::new(arithmetic, from_rate, to_rate, design);
    let ghost prototype = prototype_of(from_rate, to_rate, design);
    assert forall|model: Model| #[trigger] follows(arithmetic, model) implies kernel_follows(
        &filter,
        precise_model(model, prototype),
    ) by {
        assert(filter.prepared(model, prototype));
        let target = precise_model(model, prototype);
        assert forall|p: TapPoint, r: Wide| #[trigger]
            call_ensures(Filter::<A>::windowed_sinc, (&filter, p), r) implies r == (
        target.windowed_sinc)(p) by {
            assert(filter.evaluates(p, r));
        }
        assert forall|a: Wide, b: Wide, r: Wide| #[trigger]
            call_ensures(Filter::<A>::sum, (&filter, a, b), r) implies r == (target.sum)(
            a,
            b,
        ) by {
            assert(filter.adds(a, b, r));
        }
        assert forall|a: Wide, r: Wide| #[trigger]
            call_ensures(Filter::<A>::reciprocal, (&filter, a), r) implies r == (
        target.reciprocal)(a) by {
            assert(filter.inverts(a, r));
        }
        assert forall|a: Wide, b: Wide, r: u64| #[trigger]
            call_ensures(Filter::<A>::rounded_product, (&filter, a, b), r) implies r == (
        target.rounded_product)(a, b) by {
            assert(filter.rounds(a, b, r));
        }
    }
    let bank: Vec<u64> = coefficients(&filter, from_rate, to_rate, design);
    assert forall|model: Model| #[trigger] follows(arithmetic, model) implies bank@ == bank_of(
        precise_model(model, prototype),
        shape_of(from_rate, to_rate, design),
    ) by {
        assert(kernel_follows(&filter, precise_model(model, prototype)));
    }
    bank
}

/// Ratios of integers do not change when both are multiplied by a factor, as long as the
/// integers stay below 2^43. Binary64 has this property for every power of two.
pub open spec fn keeps_ratios(model: Model, factor: int) -> bool {
    forall|a: int, b: int|
        0 <= a <= b && 0 < b && factor * b <= 0x800_0000_0000 ==> #[trigger] quotient_of(
            model,
            integer_of(model, a),
            integer_of(model, b),
        ) == quotient_of(model, integer_of(model, factor * a), integer_of(model, factor * b))
}

/// Scaling both rates keeps the value of every tap.
proof fn lemma_scaled_tap(
    model: Model,
    factor: u32,
    from_rate: u32,
    to_rate: u32,
    scaled_from_rate: u32,
    scaled_to_rate: u32,
    design: Design,
    phase: int,
    tap: int,
)
    requires
        0 < factor,
        0 < from_rate,
        scaled_from_rate == factor * from_rate,
        scaled_to_rate == factor * to_rate,
        computable(from_rate, to_rate, design),
        keeps_ratios(model, factor as int),
    ensures
        tap_value(
            precise_model(model, prototype_of(from_rate, to_rate, design)),
            shape_of(from_rate, to_rate, design),
            phase,
            tap,
        ) == tap_value(
            precise_model(model, prototype_of(scaled_from_rate, scaled_to_rate, design)),
            shape_of(scaled_from_rate, scaled_to_rate, design),
            phase,
            tap,
        ),
{
    let k = factor as int;
    let prototype = prototype_of(from_rate, to_rate, design);
    let scaled = prototype_of(scaled_from_rate, scaled_to_rate, design);
    let shape = shape_of(from_rate, to_rate, design);
    let scaled_shape = shape_of(scaled_from_rate, scaled_to_rate, design);
    assert(scaled_shape.lower_rate == k * shape.lower_rate) by (nonlinear_arith)
        requires
            scaled_from_rate == k * from_rate,
            scaled_to_rate == k * to_rate,
            k > 0,
            shape.lower_rate == if from_rate < to_rate {
                from_rate as int
            } else {
                to_rate as int
            },
            scaled_shape.lower_rate == if scaled_from_rate < scaled_to_rate {
                scaled_from_rate as int
            } else {
                scaled_to_rate as int
            },
    ;
    assert(quotient_of(
        model,
        integer_of(model, shape.lower_rate),
        integer_of(model, shape.from_rate),
    ) == quotient_of(
        model,
        integer_of(model, k * shape.lower_rate),
        integer_of(model, k * shape.from_rate),
    ));
    assert(scale_of(model, prototype) == scale_of(model, scaled));
    let n = shape.numerator(phase, tap);
    let turns = n * shape.lower_rate;
    let d = shape.from_rate * shape.phases;
    let scaled_turns = n * scaled_shape.lower_rate;
    let scaled_d = scaled_shape.from_rate * scaled_shape.phases;
    assert(scaled_turns == k * turns && scaled_d == k * d) by (nonlinear_arith)
        requires
            scaled_turns == n * (k * shape.lower_rate),
            turns == n * shape.lower_rate,
            scaled_d == (k * shape.from_rate) * shape.phases,
            d == shape.from_rate * shape.phases,
    ;
    assert(0 < k * shape.from_rate) by (nonlinear_arith)
        requires
            0 < k,
            0 < shape.from_rate,
    ;
    assert(0 < d && 0 < scaled_d <= 0x800_0000_0000) by (nonlinear_arith)
        requires
            d == shape.from_rate * shape.phases,
            scaled_d == scaled_shape.from_rate * shape.phases,
            0 < shape.from_rate,
            0 < scaled_shape.from_rate <= 0xffff_ffff,
            0 < shape.phases <= 2048,
    ;
    lemma_fundamental_div_mod(turns, d);
    let whole = turns / d;
    let rest = turns % d;
    assert(scaled_turns == whole * scaled_d + k * rest && 0 <= k * rest < scaled_d)
        by (nonlinear_arith)
        requires
            turns == d * whole + rest,
            scaled_turns == k * turns,
            scaled_d == k * d,
            0 <= rest < d,
            k > 0,
    ;
    lemma_fundamental_div_mod_converse(scaled_turns, scaled_d, whole, k * rest);
    assert(rest <= 0x800_0000_0000 && d <= 0x800_0000_0000) by (nonlinear_arith)
        requires
            0 <= rest < d,
            k * d <= 0x800_0000_0000,
            k >= 1,
    ;
    let point = shape.point(phase, tap);
    let scaled_point = scaled_shape.point(phase, tap);
    assert(quotient_of(model, integer_of(model, rest), integer_of(model, d)) == quotient_of(
        model,
        integer_of(model, k * rest),
        integer_of(model, k * d),
    ));
    assert(reduced_sine_of(model, point) == reduced_sine_of(model, scaled_point));
    assert(windowed_sinc_of(model, prototype, point) == windowed_sinc_of(
        model,
        scaled,
        scaled_point,
    ));
}

/// Scaling both rates keeps the sum of every row.
proof fn lemma_scaled_sum(
    model: Model,
    factor: u32,
    from_rate: u32,
    to_rate: u32,
    scaled_from_rate: u32,
    scaled_to_rate: u32,
    design: Design,
    phase: int,
    taps: nat,
)
    requires
        0 < factor,
        scaled_from_rate == factor * from_rate,
        scaled_to_rate == factor * to_rate,
        computable(from_rate, to_rate, design),
        keeps_ratios(model, factor as int),
    ensures
        row_sum(
            precise_model(model, prototype_of(from_rate, to_rate, design)),
            shape_of(from_rate, to_rate, design),
            phase,
            taps,
        ) == row_sum(
            precise_model(model, prototype_of(scaled_from_rate, scaled_to_rate, design)),
            shape_of(scaled_from_rate, scaled_to_rate, design),
            phase,
            taps,
        ),
    decreases taps,
{
    if taps > 0 {
        lemma_scaled_sum(
            model,
            factor,
            from_rate,
            to_rate,
            scaled_from_rate,
            scaled_to_rate,
            design,
            phase,
            (taps - 1) as nat,
        );
        lemma_scaled_tap(
            model,
            factor,
            from_rate,
            to_rate,
            scaled_from_rate,
            scaled_to_rate,
            design,
            phase,
            taps - 1,
        );
    }
}

/// Scaling both rates keeps every computed coefficient.
proof fn lemma_scaled_coefficient(
    model: Model,
    factor: u32,
    from_rate: u32,
    to_rate: u32,
    scaled_from_rate: u32,
    scaled_to_rate: u32,
    design: Design,
    phase: int,
    tap: int,
)
    requires
        0 < factor,
        scaled_from_rate == factor * from_rate,
        scaled_to_rate == factor * to_rate,
        computable(from_rate, to_rate, design),
        keeps_ratios(model, factor as int),
    ensures
        computed(
            precise_model(model, prototype_of(from_rate, to_rate, design)),
            shape_of(from_rate, to_rate, design),
            phase,
            tap,
        ) == computed(
            precise_model(model, prototype_of(scaled_from_rate, scaled_to_rate, design)),
            shape_of(scaled_from_rate, scaled_to_rate, design),
            phase,
            tap,
        ),
{
    lemma_scaled_sum(
        model,
        factor,
        from_rate,
        to_rate,
        scaled_from_rate,
        scaled_to_rate,
        design,
        phase,
        design.taps as nat,
    );
    lemma_scaled_tap(
        model,
        factor,
        from_rate,
        to_rate,
        scaled_from_rate,
        scaled_to_rate,
        design,
        phase,
        tap,
    );
}

/// The coefficients of a design depend on nothing but the ratio of the rates: multiplying
/// both rates by a factor that the arithmetic keeps ratios under changes none of them.
pub proof fn law_scaling_both_rates_keeps_the_bank(
    model: Model,
    factor: u32,
    from_rate: u32,
    to_rate: u32,
    scaled_from_rate: u32,
    scaled_to_rate: u32,
    design: Design,
)
    requires
        0 < factor,
        scaled_from_rate == factor * from_rate,
        scaled_to_rate == factor * to_rate,
        computable(from_rate, to_rate, design),
        keeps_ratios(model, factor as int),
    ensures
        bank_of(
            precise_model(model, prototype_of(from_rate, to_rate, design)),
            shape_of(from_rate, to_rate, design),
        ) == bank_of(
            precise_model(model, prototype_of(scaled_from_rate, scaled_to_rate, design)),
            shape_of(scaled_from_rate, scaled_to_rate, design),
        ),
{
    let shape = shape_of(from_rate, to_rate, design);
    let scaled_shape = shape_of(scaled_from_rate, scaled_to_rate, design);
    let here = precise_model(model, prototype_of(from_rate, to_rate, design));
    let there = precise_model(model, prototype_of(scaled_from_rate, scaled_to_rate, design));
    assert forall|phase: int, tap: int| #[trigger]
        coefficient(here, shape, phase, tap) == coefficient(there, scaled_shape, phase, tap) by {
        let (row, column) = if phase <= shape.phases / 2 {
            (phase, tap)
        } else if phase < shape.phases {
            (shape.phases - phase, shape.taps - tap)
        } else {
            (0, tap - 1)
        };
        lemma_scaled_coefficient(
            model,
            factor,
            from_rate,
            to_rate,
            scaled_from_rate,
            scaled_to_rate,
            design,
            row,
            column,
        );
    }
    assert(bank_of(here, shape) =~= bank_of(there, scaled_shape));
}

/// Under the generic policy, scaling both rates keeps the design and its coefficients
/// wherever the resource limits of both rate pairs leave the preset its full length, for
/// every factor that the arithmetic keeps ratios under.
pub proof fn law_scaling_both_rates_keeps_the_filter(
    model: Model,
    factor: u32,
    from_rate: u32,
    to_rate: u32,
    scaled_from_rate: u32,
    scaled_to_rate: u32,
    length: FilterLength,
)
    requires
        0 < factor,
        0 < from_rate,
        0 < to_rate,
        scaled_from_rate == factor * from_rate,
        scaled_to_rate == factor * to_rate,
        keeps_ratios(model, factor as int),
        !(length is Custom),
        uncapped_generic(from_rate as nat, to_rate as nat, length) <= tap_limit(
            from_rate as nat,
            to_rate as nat,
        ),
        uncapped_generic(from_rate as nat, to_rate as nat, length) <= tap_limit(
            scaled_from_rate as nat,
            scaled_to_rate as nat,
        ),
    ensures
        ({
            let design = design_of(
                from_rate as nat,
                to_rate as nat,
                length,
                FilterLengthPolicy::Generic,
            );
            let scaled = design_of(
                scaled_from_rate as nat,
                scaled_to_rate as nat,
                length,
                FilterLengthPolicy::Generic,
            );
            &&& design == scaled
            &&& bank_of(
                precise_model(model, prototype_of(from_rate, to_rate, design)),
                shape_of(from_rate, to_rate, design),
            ) == bank_of(
                precise_model(model, prototype_of(scaled_from_rate, scaled_to_rate, scaled)),
                shape_of(scaled_from_rate, scaled_to_rate, scaled),
            )
        }),
{
    let from = from_rate as nat;
    let to = to_rate as nat;
    law_scaling_both_rates_keeps_the_design(from, to, factor as nat, length);
    law_designs_are_bounded(from, to, length, FilterLengthPolicy::Generic);
    lemma_reduced(from, to);
    law_scaling_both_rates_keeps_the_bank(
        model,
        factor,
        from_rate,
        to_rate,
        scaled_from_rate,
        scaled_to_rate,
        design_of(from, to, length, FilterLengthPolicy::Generic),
    );
}

} // verus!
