//! Where results are rounded.
//!
//! Every sample is a fixed sequence of single operations, so that it has the same bits on every
//! machine that rounds them alike. Nothing here is used to compute.

use vstd::arithmetic::div_mod::lemma_fundamental_div_mod_converse;
use vstd::prelude::*;

use crate::arithmetic::{
    differences_of, dot, interpolate_of, level_of, multiply_add_of, phase_fraction_of, power_of,
    reflect_of, roughness_blend_of, Model,
};
use crate::bank::{
    bank_of, coefficient, computed, row_sum, shape_of, tap_value, BankShape, KernelModel, TapPoint,
};
use crate::design::Design;
use crate::filter_meaning::FilterPlan;
use crate::kernels::{blended, common_interpolated_taps, common_taps, covered_taps, lane};
use crate::precision::{
    last_term_of, negligible_of, precise_model, prototype_of, sin_pi_of, sine_sum_of, sine_term_of,
    tail_of, window_sum_of, window_term_of, windowed_sinc_of, Prototype,
};
use crate::stream::{
    continued, output_sample, tail_blend_of, tap_samples, tap_weights, weight, Geometry,
};
use crate::wide::{
    difference_of, exact_product_of, exact_sum_of, integer_of, negated_of, pi_of, product_of,
    quotient_of, reciprocal_of, sum_of, wide_of, Wide,
};

verus! {

/// A weight is a stored coefficient, or two of them interpolated by one difference, one product
/// and one sum. The fraction between the rows takes one quotient, one product and one
/// difference.
pub proof fn law_weights_are_rounded_step_by_step(
    model: Model,
    g: Geometry,
    bank: Seq<u64>,
    frame: int,
    n: int,
    row: int,
    tap: int,
    fraction: u64,
)
    requires
        g.valid(),
        0 <= n < g.step_den,
        row * g.step_den <= n * g.phases,
        n * g.phases < (row + 1) * g.step_den,
        fraction == (model.minus)(
            (model.times)(
                (model.over)((model.of_integer)(n as i64), (model.of_integer)(g.step_den as i64)),
                (model.of_integer)(g.phases as i64),
            ),
            (model.of_integer)(row as i64),
        ),
    ensures
        ({
            let low = bank[row * g.taps + tap];
            let high = bank[(row + 1) * g.taps + tap];
            weight(model, g, bank, frame * g.step_den + n, tap) == if g.phases == g.step_den {
                low
            } else {
                (model.plus)(low, (model.times)((model.minus)(high, low), fraction))
            }
        }),
{
    let den = g.step_den as int;
    let p = g.phases as int;
    lemma_fundamental_div_mod_converse(frame * den + n, den, frame, n);
    assert(n * p == row * den + (n * p - row * den) && 0 <= n * p - row * den < den)
        by (nonlinear_arith)
        requires
            row * den <= n * p,
            n * p < (row + 1) * den,
    ;
    lemma_fundamental_div_mod_converse(n * p, den, row, n * p - row * den);
    assert(p == den ==> row == n) by (nonlinear_arith)
        requires
            row * den <= n * p,
            n * p < (row + 1) * den,
            den > 0,
    ;
    assert(0 <= n * p) by (nonlinear_arith)
        requires
            0 <= n,
            0 < p,
    ;
    assert(0 <= row < p) by (nonlinear_arith)
        requires
            row * den <= n * p,
            n * p < (row + 1) * den,
            0 <= n < den,
            0 < p,
            0 <= n * p,
    ;
}

/// An output sample starts from zero and takes its taps in ascending order, with one product
/// and one sum for each.
pub proof fn law_output_is_summed_tap_by_tap(
    model: Model,
    g: Geometry,
    bank: Seq<u64>,
    history: Seq<u64>,
    position: int,
    channel: int,
    blend: u64,
    sums: Seq<u64>,
)
    requires
        g.valid(),
        blend == tail_blend_of(model, g, history, 0, channel),
        sums.len() == g.taps + 1,
        sums[0] == 0,
        forall|tap: int|
            0 <= tap < g.taps ==> #[trigger] sums[tap + 1] == (model.plus)(
                sums[tap],
                (model.times)(
                    continued(
                        model,
                        g,
                        history,
                        0,
                        position / (g.step_den as int) + tap - g.taps as int / 2,
                        channel,
                        blend,
                    ),
                    weight(model, g, bank, position, tap),
                ),
            ),
    ensures
        output_sample(model, g, bank, history, 0, position, channel) == sums[g.taps as int],
{
    lemma_partial_sums(model, g, bank, history, position, channel, sums, g.taps as nat);
}

proof fn lemma_partial_sums(
    model: Model,
    g: Geometry,
    bank: Seq<u64>,
    history: Seq<u64>,
    position: int,
    channel: int,
    sums: Seq<u64>,
    taps: nat,
)
    requires
        g.valid(),
        taps <= g.taps,
        sums.len() == g.taps + 1,
        sums[0] == 0,
        forall|tap: int|
            0 <= tap < g.taps ==> #[trigger] sums[tap + 1] == (model.plus)(
                sums[tap],
                (model.times)(
                    continued(
                        model,
                        g,
                        history,
                        0,
                        position / (g.step_den as int) + tap - g.taps as int / 2,
                        channel,
                        tail_blend_of(model, g, history, 0, channel),
                    ),
                    weight(model, g, bank, position, tap),
                ),
            ),
    ensures
        dot(
            model,
            tap_samples(model, g, history, 0, position, channel),
            tap_weights(model, g, bank, position),
            taps,
        ) == sums[taps as int],
    decreases taps,
{
    if taps > 0 {
        let before = (taps - 1) as nat;
        lemma_partial_sums(model, g, bank, history, position, channel, sums, before);
        assert(sums[before as int + 1] == sums[taps as int]);
    }
}

/// A reflected sample takes one product and one difference, a blend of it one difference, one
/// product and one sum more.
pub proof fn law_continued_samples_are_rounded_step_by_step(
    model: Model,
    g: Geometry,
    history: Seq<u64>,
    frames: int,
    frame: int,
    channel: int,
    blend: u64,
)
    requires
        g.valid(),
        0 < frames,
        history.len() == frames * g.channels,
        0 <= channel < g.channels,
    ensures
        ({
            let c = g.channels as int;
            let last = frames - 1;
            let before = history[(if -frame < last {
                -frame
            } else {
                last
            }) * c + channel];
            let after = history[(if 2 * last - frame > 0 {
                2 * last - frame
            } else {
                0
            }) * c + channel];
            let first_edge = (model.times)(0x4000_0000_0000_0000, history[0 * c + channel]);
            let last_edge = (model.times)(0x4000_0000_0000_0000, history[last * c + channel]);
            let reflected = (model.minus)(last_edge, after);
            continued(model, g, history, 0, frame, channel, blend) == if frame < 0 {
                (model.minus)(first_edge, before)
            } else if frame <= last {
                history[frame * c + channel]
            } else {
                (model.plus)(after, (model.times)((model.minus)(reflected, after), blend))
            }
        }),
{
    lemma_fundamental_div_mod_converse(history.len() as int, g.channels as int, frames, 0);
}

/// The level of some samples is the root of the quotient of the sum of their squares, taken in
/// ascending order, and their number, which counts as one if there are none.
pub proof fn law_levels_are_rounded_step_by_step(model: Model, samples: Seq<u64>, sums: Seq<u64>)
    requires
        samples.len() <= i64::MAX,
        sums.len() == samples.len() + 1,
        sums[0] == 0,
        forall|i: int|
            0 <= i < samples.len() ==> #[trigger] sums[i + 1] == (model.plus)(
                sums[i],
                (model.times)(samples[i], samples[i]),
            ),
    ensures
        level_of(model, samples) == (model.root)(
            (model.over)(
                sums.last(),
                (model.of_integer)(
                    if samples.len() > 1 {
                        samples.len() as i64
                    } else {
                        1
                    },
                ),
            ),
        ),
{
    lemma_power_sums(model, samples, sums, samples.len());
    assert(samples.take(samples.len() as int) =~= samples);
}

proof fn lemma_power_sums(model: Model, samples: Seq<u64>, sums: Seq<u64>, count: nat)
    requires
        count <= samples.len(),
        sums.len() == samples.len() + 1,
        sums[0] == 0,
        forall|i: int|
            0 <= i < samples.len() ==> #[trigger] sums[i + 1] == (model.plus)(
                sums[i],
                (model.times)(samples[i], samples[i]),
            ),
    ensures
        power_of(model, samples.take(count as int)) == sums[count as int],
    decreases count,
{
    if count > 0 {
        let before = (count - 1) as nat;
        lemma_power_sums(model, samples, sums, before);
        assert(samples.take(count as int).drop_last() =~= samples.take(before as int));
        assert(sums[before as int + 1] == sums[count as int]);
    }
}

/// The blend of a tail: one quotient of levels, one difference and one quotient for its place
/// between the limits, which it is held within, and five operations for the step.
pub proof fn law_blends_are_rounded_step_by_step(
    model: Model,
    window: Seq<u64>,
    changes: Seq<u64>,
    place: u64,
    limited: u64,
)
    requires
        window.len() >= 1,
        changes.len() == window.len() - 1,
        forall|i: int|
            0 <= i < changes.len() ==> #[trigger] changes[i] == (model.minus)(
                window[i + 1],
                window[i],
            ),
        place == (model.over)(
            (model.minus)(
                (model.over)(
                    level_of(model, changes),
                    (model.larger)(level_of(model, window), 0x3d71_9799_812d_ea11),
                ),
                0x3fd9_9999_9999_999a,
            ),
            0x3fd9_9999_9999_999a,
        ),
        limited == if (model.less)(place, 0) {
            0
        } else if (model.less)(0x3ff0_0000_0000_0000, place) {
            0x3ff0_0000_0000_0000
        } else {
            place
        },
    ensures
        roughness_blend_of(model, window) == (model.minus)(
            0x3ff0_0000_0000_0000,
            (model.times)(
                (model.times)(limited, limited),
                (model.minus)(
                    0x4008_0000_0000_0000,
                    (model.times)(0x4000_0000_0000_0000, limited),
                ),
            ),
        ),
{
    assert(differences_of(model, window) =~= changes);
}

/// The sum of two values and what its rounding lost, in six operations; and their product with
/// what its rounding lost, from the halves of both significands.
pub proof fn law_lost_parts_are_kept(
    model: Model,
    a: u64,
    b: u64,
    a_high: u64,
    a_low: u64,
    b_high: u64,
    b_low: u64,
)
    requires
        a_high == (model.minus)(
            (model.times)(0x41a0_0000_0200_0000, a),
            (model.minus)((model.times)(0x41a0_0000_0200_0000, a), a),
        ),
        a_low == (model.minus)(a, a_high),
        b_high == (model.minus)(
            (model.times)(0x41a0_0000_0200_0000, b),
            (model.minus)((model.times)(0x41a0_0000_0200_0000, b), b),
        ),
        b_low == (model.minus)(b, b_high),
    ensures
        ({
            let sum = (model.plus)(a, b);
            let part = (model.minus)(sum, a);
            let product = (model.times)(a, b);
            let highest = (model.minus)((model.times)(a_high, b_high), product);
            let higher = (model.plus)(highest, (model.times)(a_high, b_low));
            let lower = (model.plus)(higher, (model.times)(a_low, b_high));
            &&& exact_sum_of(model, a, b) == (Wide {
                hi: sum,
                lo: (model.plus)(
                    (model.minus)(a, (model.minus)(sum, part)),
                    (model.minus)(b, part),
                ),
            })
            &&& exact_product_of(model, a, b) == (Wide {
                hi: product,
                lo: (model.plus)(lower, (model.times)(a_low, b_low)),
            })
        }),
{
}

/// Sums, products and quotients at extended precision, from sums and products that keep what
/// their rounding lost.
pub proof fn law_extended_operations_keep_residuals(
    model: Model,
    a: Wide,
    b: Wide,
    bits: u64,
    n: i64,
)
    ensures
        ({
            let leading = exact_sum_of(model, a.hi, b.hi);
            let trailing = exact_sum_of(model, a.lo, b.lo);
            let carried = exact_sum_of(
                model,
                leading.hi,
                (model.plus)(leading.lo, trailing.hi),
            );
            sum_of(model, a, b) == exact_sum_of(
                model,
                carried.hi,
                (model.plus)(carried.lo, trailing.lo),
            )
        }),
        negated_of(a) == (Wide {
            hi: a.hi ^ 0x8000_0000_0000_0000,
            lo: a.lo ^ 0x8000_0000_0000_0000,
        }),
        difference_of(model, a, b) == sum_of(model, a, negated_of(b)),
        ({
            let product = exact_product_of(model, a.hi, b.hi);
            let crossed = (model.plus)((model.times)(a.hi, b.lo), (model.times)(a.lo, b.hi));
            product_of(model, a, b) == exact_sum_of(
                model,
                product.hi,
                (model.plus)(
                    (model.plus)(product.lo, crossed),
                    (model.times)(a.lo, b.lo),
                ),
            )
        }),
        ({
            let first = Wide { hi: (model.over)(a.hi, b.hi), lo: 0 };
            let rest = difference_of(model, a, product_of(model, b, first));
            let second = Wide { hi: (model.over)(rest.hi, b.hi), lo: 0 };
            let least = difference_of(model, rest, product_of(model, b, second));
            let third = Wide { hi: (model.over)(least.hi, b.hi), lo: 0 };
            quotient_of(model, a, b) == sum_of(model, sum_of(model, first, second), third)
        }),
        reciprocal_of(model, a) == quotient_of(
            model,
            Wide { hi: 0x3ff0_0000_0000_0000, lo: 0 },
            a,
        ),
        wide_of(bits) == (Wide { hi: bits, lo: 0 }),
        integer_of(model, n as int) == (Wide { hi: (model.of_integer)(n), lo: 0 }),
        pi_of() == (Wide { hi: 0x4009_21fb_5444_2d18, lo: 0x3ca1_a626_3314_5c07 }),
{
}

/// The window's series: each term comes from the one before by the argument and `1 / k^2`, the
/// terms from the second on are summed in ascending order, and the series ends with the first
/// one after the second that is below a part of 1e-33 of the sum, or with the 64th.
pub proof fn law_the_window_series_is_rounded_step_by_step(
    model: Model,
    y: Wide,
    terms: Seq<Wide>,
    sums: Seq<Wide>,
    last: nat,
)
    requires
        terms.len() == 65,
        sums.len() == 65,
        terms[0] == (Wide { hi: 0x3ff0_0000_0000_0000, lo: 0 }),
        forall|k: int|
            1 <= k <= 64 ==> #[trigger] terms[k] == product_of(
                model,
                product_of(model, terms[k - 1], y),
                reciprocal_of(model, integer_of(model, k * k)),
            ),
        sums[0] == (Wide { hi: 0, lo: 0 }),
        sums[1] == (Wide { hi: 0, lo: 0 }),
        forall|k: int| 2 <= k <= 64 ==> #[trigger] sums[k] == sum_of(model, sums[k - 1], terms[k]),
        3 <= last <= 64,
        forall|k: int|
            3 <= k <= 64 ==> (#[trigger] negligible(model, terms[k], sums[k]) ==> last <= k),
        last == 64 || negligible(model, terms[last as int], sums[last as int]),
    ensures
        tail_of(model, y) == sums[last as int],
{
    lemma_series_end(model, y, terms, sums, last, 0);
    lemma_series(model, y, terms, sums, last);
}

/// A term that no longer matters beside a sum.
pub open spec fn negligible(model: Model, term: Wide, sum: Wide) -> bool {
    (model.less)(
        term.hi & !0x8000_0000_0000_0000u64,
        (model.times)(sum.hi & !0x8000_0000_0000_0000u64, 0x3914_c4e9_77ba_1f5c),
    )
}

proof fn lemma_series(model: Model, y: Wide, terms: Seq<Wide>, sums: Seq<Wide>, k: nat)
    requires
        terms.len() == 65,
        sums.len() == 65,
        terms[0] == (Wide { hi: 0x3ff0_0000_0000_0000, lo: 0 }),
        forall|k: int|
            1 <= k <= 64 ==> #[trigger] terms[k] == product_of(
                model,
                product_of(model, terms[k - 1], y),
                reciprocal_of(model, integer_of(model, k * k)),
            ),
        sums[0] == (Wide { hi: 0, lo: 0 }),
        sums[1] == (Wide { hi: 0, lo: 0 }),
        forall|k: int| 2 <= k <= 64 ==> #[trigger] sums[k] == sum_of(model, sums[k - 1], terms[k]),
        k <= 64,
    ensures
        window_term_of(model, y, k) == terms[k as int],
        window_sum_of(model, y, k) == sums[k as int],
    decreases k,
{
    if k > 0 {
        lemma_series(model, y, terms, sums, (k - 1) as nat);
    }
}

proof fn lemma_series_end(
    model: Model,
    y: Wide,
    terms: Seq<Wide>,
    sums: Seq<Wide>,
    last: nat,
    k: nat,
)
    requires
        terms.len() == 65,
        sums.len() == 65,
        terms[0] == (Wide { hi: 0x3ff0_0000_0000_0000, lo: 0 }),
        forall|k: int|
            1 <= k <= 64 ==> #[trigger] terms[k] == product_of(
                model,
                product_of(model, terms[k - 1], y),
                reciprocal_of(model, integer_of(model, k * k)),
            ),
        sums[0] == (Wide { hi: 0, lo: 0 }),
        sums[1] == (Wide { hi: 0, lo: 0 }),
        forall|k: int| 2 <= k <= 64 ==> #[trigger] sums[k] == sum_of(model, sums[k - 1], terms[k]),
        3 <= last <= 64,
        forall|k: int|
            3 <= k <= 64 ==> (#[trigger] negligible(model, terms[k], sums[k]) ==> last <= k),
        last == 64 || negligible(model, terms[last as int], sums[last as int]),
        k <= last,
    ensures
        last_term_of(model, y, k) == last,
    decreases 64 - k,
{
    lemma_series(model, y, terms, sums, k);
    assert(k > 2 ==> (negligible_of(model, y, k) <==> negligible(
        model,
        terms[k as int],
        sums[k as int],
    )));
    if k < last {
        lemma_series_end(model, y, terms, sums, last, k + 1);
    }
}

/// The sine of some half turns: the nearest whole ones are taken off before the rest is
/// multiplied by pi, the series takes twenty terms after the first, each from the one before,
/// and an odd number of half turns changes the sign.
pub proof fn law_the_sine_series_is_rounded_step_by_step(
    model: Model,
    value: Wide,
    x: Wide,
    terms: Seq<Wide>,
    sums: Seq<Wide>,
)
    requires
        x == product_of(
            model,
            difference_of(model, value, Wide { hi: (model.nearest)(value.hi), lo: 0 }),
            Wide { hi: 0x4009_21fb_5444_2d18, lo: 0x3ca1_a626_3314_5c07 },
        ),
        terms.len() == 21,
        sums.len() == 21,
        terms[0] == x,
        forall|k: int|
            1 <= k <= 20 ==> #[trigger] terms[k] == product_of(
                model,
                product_of(model, terms[k - 1], negated_of(product_of(model, x, x))),
                reciprocal_of(model, integer_of(model, 2 * k * (2 * k + 1))),
            ),
        sums[0] == x,
        forall|k: int| 1 <= k <= 20 ==> #[trigger] sums[k] == sum_of(model, sums[k - 1], terms[k]),
    ensures
        sin_pi_of(model, value) == if (model.as_integer)((model.nearest)(value.hi)) & 1 == 0 {
            sums[20]
        } else {
            negated_of(sums[20])
        },
{
    lemma_sines(model, x, terms, sums, 20);
}

proof fn lemma_sines(model: Model, x: Wide, terms: Seq<Wide>, sums: Seq<Wide>, k: nat)
    requires
        terms.len() == 21,
        sums.len() == 21,
        terms[0] == x,
        forall|k: int|
            1 <= k <= 20 ==> #[trigger] terms[k] == product_of(
                model,
                product_of(model, terms[k - 1], negated_of(product_of(model, x, x))),
                reciprocal_of(model, integer_of(model, 2 * k * (2 * k + 1))),
            ),
        sums[0] == x,
        forall|k: int| 1 <= k <= 20 ==> #[trigger] sums[k] == sum_of(model, sums[k - 1], terms[k]),
        k <= 20,
    ensures
        sine_term_of(model, x, k) == terms[k as int],
        sine_sum_of(model, x, k) == sums[k as int],
    decreases k,
{
    if k > 0 {
        lemma_sines(model, x, terms, sums, (k - 1) as nat);
    }
}

/// The windowed sinc at a point: the sine over pi times the distance, or the cutoff at the
/// center, times the window, whose series is divided by what it is at the center. With its
/// cutoff at the lower Nyquist frequency the sine takes the argument that was reduced in
/// integers; for other cutoffs the distance is multiplied by them.
pub proof fn law_windowed_sincs_are_rounded_step_by_step(
    model: Model,
    prototype: Prototype,
    point: TapPoint,
    cutoff: Wide,
    distance: Wide,
    scale: Wide,
    offset: Wide,
    sine: Wide,
    sinc: Wide,
)
    requires
        cutoff == product_of(
            model,
            quotient_of(
                model,
                integer_of(model, prototype.lower_rate as int),
                integer_of(model, prototype.from_rate as int),
            ),
            wide_of(prototype.rolloff_bits),
        ),
        distance == product_of(
            model,
            integer_of(model, point.numerator as int),
            reciprocal_of(model, integer_of(model, prototype.phases as int)),
        ),
        scale == product_of(
            model,
            product_of(model, wide_of(prototype.beta_bits), wide_of(prototype.beta_bits)),
            wide_of(0x3fd0_0000_0000_0000),
        ),
        offset == product_of(
            model,
            integer_of(model, point.numerator as int),
            reciprocal_of(model, integer_of(model, prototype.support as int)),
        ),
        sine == sin_pi_of(
            model,
            if prototype.rolloff_bits == 0x3ff0_0000_0000_0000 {
                quotient_of(
                    model,
                    integer_of(model, point.remainder as int),
                    integer_of(model, point.denominator as int),
                )
            } else {
                product_of(model, cutoff, distance)
            },
        ),
        sinc == if point.numerator == 0 {
            cutoff
        } else {
            quotient_of(
                model,
                if point.negated && prototype.rolloff_bits == 0x3ff0_0000_0000_0000 {
                    negated_of(sine)
                } else {
                    sine
                },
                product_of(model, pi_of(), distance),
            )
        },
    ensures
        windowed_sinc_of(model, prototype, point) == product_of(
            model,
            sinc,
            product_of(
                model,
                tail_of(
                    model,
                    product_of(
                        model,
                        scale,
                        difference_of(
                            model,
                            wide_of(0x3ff0_0000_0000_0000),
                            product_of(model, offset, offset),
                        ),
                    ),
                ),
                reciprocal_of(model, tail_of(model, scale)),
            ),
        ),
{
}

/// Rows are summed in ascending order, and every coefficient is rounded once, from the product of
/// its tap's value and the reciprocal of the sum.
pub proof fn law_rows_are_normalized_before_they_are_rounded(
    model: Model,
    prototype: Prototype,
    shape: BankShape,
    phase: int,
    tap: int,
    values: Seq<Wide>,
    sums: Seq<Wide>,
)
    requires
        0 < shape.taps,
        0 <= tap < shape.taps,
        2 * phase <= shape.phases,
        values.len() == shape.taps,
        sums.len() == shape.taps + 1,
        forall|i: int|
            0 <= i < shape.taps ==> #[trigger] values[i] == ({
                let n = (i - shape.taps / 2) * shape.phases - phase;
                let reach = (shape.taps / 2) * shape.phases;
                if -reach < n < reach {
                    windowed_sinc_of(model, prototype, plain_point(shape, n))
                } else {
                    Wide { hi: 0, lo: 0 }
                }
            }),
        sums[0] == (Wide { hi: 0, lo: 0 }),
        forall|i: int|
            0 <= i < shape.taps ==> #[trigger] sums[i + 1] == sum_of(model, sums[i], values[i]),
    ensures
        coefficient(precise_model(model, prototype), shape, phase, tap) == product_of(
            model,
            values[tap],
            reciprocal_of(model, sums[shape.taps]),
        ).hi,
{
    lemma_row(model, prototype, shape, phase, values, sums, shape.taps as nat);
    assert(shape.numerator(phase, tap) == (tap - shape.taps / 2) * shape.phases - phase);
    assert(tap_value(precise_model(model, prototype), shape, phase, tap) == values[tap]);
}

/// A point at a distance: its sine's argument is reduced to a part of a half turn in integers.
pub open spec fn plain_point(shape: BankShape, n: int) -> TapPoint {
    let turns = n * shape.lower_rate;
    let whole = shape.from_rate * shape.phases;
    TapPoint {
        numerator: n as i64,
        remainder: (turns % whole) as i64,
        denominator: whole as i64,
        negated: (turns / whole) % 2 == 1,
    }
}

proof fn lemma_row(
    model: Model,
    prototype: Prototype,
    shape: BankShape,
    phase: int,
    values: Seq<Wide>,
    sums: Seq<Wide>,
    taps: nat,
)
    requires
        taps <= shape.taps,
        values.len() == shape.taps,
        sums.len() == shape.taps + 1,
        forall|i: int|
            0 <= i < shape.taps ==> #[trigger] values[i] == ({
                let n = (i - shape.taps / 2) * shape.phases - phase;
                let reach = (shape.taps / 2) * shape.phases;
                if -reach < n < reach {
                    windowed_sinc_of(model, prototype, plain_point(shape, n))
                } else {
                    Wide { hi: 0, lo: 0 }
                }
            }),
        sums[0] == (Wide { hi: 0, lo: 0 }),
        forall|i: int|
            0 <= i < shape.taps ==> #[trigger] sums[i + 1] == sum_of(model, sums[i], values[i]),
    ensures
        row_sum(precise_model(model, prototype), shape, phase, taps) == sums[taps as int],
    decreases taps,
{
    if taps > 0 {
        let before = (taps - 1) as nat;
        lemma_row(model, prototype, shape, phase, values, sums, before);
        assert(sums[before as int + 1] == sums[taps as int]);
        assert(shape.numerator(phase, before as int) == (before as int - shape.taps / 2)
            * shape.phases - phase);
        assert(tap_value(precise_model(model, prototype), shape, phase, before as int)
            == values[before as int]);
    }
}

/// Banks are stored phase after phase, with one extra row: rows up to the middle are computed,
/// those past it mirror the opposite row, and the extra row is the first one tap later. What
/// has no counterpart is zero.
pub proof fn law_banks_are_stored_row_after_row<V>(
    model: KernelModel<V>,
    shape: BankShape,
    phase: int,
    tap: int,
)
    requires
        0 < shape.phases,
        0 < shape.taps,
        0 <= phase <= shape.phases,
        0 <= tap < shape.taps,
    ensures
        bank_of(model, shape).len() == (shape.phases + 1) * shape.taps,
        bank_of(model, shape)[phase * shape.taps + tap] == if 2 * phase <= shape.phases {
            computed(model, shape, phase, tap)
        } else if tap == 0 {
            0
        } else if phase < shape.phases {
            computed(model, shape, shape.phases - phase, shape.taps - tap)
        } else {
            computed(model, shape, 0, tap - 1)
        },
{
    let taps = shape.taps;
    assert(0 <= phase * taps + tap < (shape.phases + 1) * taps) by (nonlinear_arith)
        requires
            0 <= phase <= shape.phases,
            0 <= tap < taps,
    ;
    lemma_fundamental_div_mod_converse(phase * taps + tap, taps, phase, tap);
}

/// The filter of a rate pair and design is made from the input rate, the lower one of the two
/// rates, and the design's phases and taps.
pub proof fn law_filters_are_made_from_rates_and_designs(
    from_rate: u32,
    to_rate: u32,
    design: Design,
    plan: FilterPlan,
)
    requires
        0 < from_rate,
        0 < to_rate,
        0 < design.phases <= 2_048,
        0 < design.taps <= 65_535,
        design.beta_bits == 0x4034_0000_0000_0000,
        design.rolloff_bits == 0x3ff0_0000_0000_0000,
        plan.from_rate == from_rate,
        plan.lower_rate == if from_rate < to_rate {
            from_rate
        } else {
            to_rate
        },
        plan.phases == design.phases,
        plan.taps == design.taps,
    ensures
        prototype_of(from_rate, to_rate, design) == plan.prototype(),
        shape_of(from_rate, to_rate, design) == plan.shape(),
        plan.valid(),
{
}

/// Single steps: a product and a sum, an interpolation between two values, a reflection about an
/// edge, and the fraction that a position lies past a phase row.
pub proof fn law_steps_are_single_operations(
    model: Model,
    a: u64,
    b: u64,
    c: u64,
    numerator: u32,
    denominator: u32,
    phases: usize,
    row: usize,
)
    ensures
        multiply_add_of(model, a, b, c) == (model.plus)(a, (model.times)(b, c)),
        interpolate_of(model, a, b, c) == (model.plus)(
            a,
            (model.times)((model.minus)(b, a), c),
        ),
        reflect_of(model, a, b) == (model.minus)((model.times)(0x4000_0000_0000_0000, a), b),
        phase_fraction_of(model, numerator, denominator, phases, row) == (model.minus)(
            (model.times)(
                (model.over)(
                    (model.of_integer)(numerator as i64),
                    (model.of_integer)(denominator as i64),
                ),
                (model.of_integer)(phases as i64),
            ),
            (model.of_integer)(row as i64),
        ),
{
}

/// A sum over taps starts from zero and takes one product and one sum for each tap, in ascending
/// order.
pub proof fn law_taps_are_summed_in_ascending_order(
    model: Model,
    samples: Seq<u64>,
    weights: Seq<u64>,
    taps: nat,
    sums: Seq<u64>,
)
    requires
        sums.len() == taps + 1,
        sums[0] == 0,
        forall|tap: int|
            0 <= tap < taps ==> #[trigger] sums[tap + 1] == (model.plus)(
                sums[tap],
                (model.times)(samples[tap], weights[tap]),
            ),
    ensures
        dot(model, samples, weights, taps) == sums[taps as int],
    decreases taps,
{
    if taps > 0 {
        let before = (taps - 1) as nat;
        let earlier = sums.drop_last();
        assert forall|tap: int| 0 <= tap < before implies #[trigger] earlier[tap + 1] == (
        model.plus)(earlier[tap], (model.times)(samples[tap], weights[tap])) by {
            assert(earlier[tap + 1] == sums[tap + 1]);
        }
        law_taps_are_summed_in_ascending_order(model, samples, weights, before, earlier);
        assert(sums[before as int + 1] == sums[taps as int]);
    }
}

/// Four frames are summed over as many taps as the shortest of their rows covers, where a tap
/// takes a sample of each channel. Channels alternate, and blended rows are interpolated tap
/// by tap.
pub proof fn law_rows_are_cut_to_their_common_taps(
    model: Model,
    samples: [&[u64]; 4],
    lower: [&[u64]; 4],
    upper: [&[u64]; 4],
    blend: u64,
    taps: nat,
    frame: int,
    tap: int,
    channel: int,
)
    requires
        0 <= frame < 4,
        0 <= channel < 2,
    ensures
        common_taps(samples, lower, taps) ==> 2 * taps <= samples[frame]@.len() && taps
            <= lower[frame]@.len(),
        common_interpolated_taps(samples, lower, upper, taps) ==> 2 * taps <= samples[frame]@.len()
            && taps <= lower[frame]@.len() && taps <= upper[frame]@.len(),
        common_taps(samples, lower, taps) ==> exists|short: int|
            0 <= short < 4 && (2 * taps + 2 > (#[trigger] samples[short])@.len() || taps
                == lower[short]@.len()),
        common_interpolated_taps(samples, lower, upper, taps) ==> exists|short: int|
            0 <= short < 4 && (2 * taps + 2 > (#[trigger] samples[short])@.len() || taps
                == lower[short]@.len() || taps == upper[short]@.len()),
        0 <= tap < samples[frame]@.len() as int / 2 ==> lane(samples[frame]@, 2, channel)[tap]
            == samples[frame]@[2 * tap + channel],
        0 <= tap < lower[frame]@.len() ==> blended(model, lower[frame]@, upper[frame]@, blend)[tap]
            == (model.plus)(
            lower[frame]@[tap],
            (model.times)((model.minus)(upper[frame]@[tap], lower[frame]@[tap]), blend),
        ),
{
    if common_taps(samples, lower, taps) {
        let short = choose|short: int|
            0 <= short < 4 && taps == covered_taps(samples[short]@, lower[short]@);
        assert(taps <= covered_taps(samples[frame]@, lower[frame]@));
        assert(2 * taps + 2 > samples[short]@.len() || taps == lower[short]@.len());
    }
    if common_interpolated_taps(samples, lower, upper, taps) {
        let short = choose|short: int|
            0 <= short < 4 && (taps == covered_taps(samples[short]@, lower[short]@) || taps
                == covered_taps(samples[short]@, upper[short]@));
        assert(taps <= covered_taps(samples[frame]@, lower[frame]@));
        assert(taps <= covered_taps(samples[frame]@, upper[frame]@));
        assert(2 * taps + 2 > samples[short]@.len() || taps == lower[short]@.len() || taps
            == upper[short]@.len());
    }
}

} // verus!
