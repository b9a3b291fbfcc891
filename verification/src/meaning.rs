//! What the arithmetic formulas mean, in real numbers.
//!
//! Nothing here is used to compute. A [`Reading`] says which real numbers bits stand for, and
//! an arithmetic is taken to be exact where its exact results can be represented, as binary64
//! is. What the formulas yield then is stated in real numbers, over rates and samples alone.

use vstd::arithmetic::div_mod::{lemma_fundamental_div_mod, lemma_fundamental_div_mod_converse};
use vstd::prelude::*;

use crate::arithmetic::{
    clamped_of, differences_of, dot, interpolate_of, level_of, phase_fraction_of, power_of,
    reflect_of, roughness_blend_of, Model,
};
use crate::backend::periods_of;
use crate::config::{FilterLength, FilterLengthPolicy};
use crate::design::{ceil_div, design_of, gcd_of, lemma_reduced};
use crate::fir::geometry_of;
use crate::host::Host;
use crate::laws::{conversion, joined, law_streams_return_the_conversion, whole_frames};
use crate::resampler::{constructed, Resampler};
use crate::stream::{
    channel_window, continued, output_sample, tail_blend_of, tap_samples, tap_weights, weight,
    Geometry,
};

verus! {

/// The real numbers that bits stand for. Some stand for none.
pub type Reading = spec_fn(u64) -> Option<real>;

/// Some bits stand for `x`.
pub open spec fn held(reading: Reading, x: real) -> bool {
    exists|bits: u64| #[trigger] reading(bits) == Some(x)
}

/// Every operation is exact where some bits stand for its exact result, and comparisons are
/// those of the numbers.
pub open spec fn exact(model: Model, reading: Reading) -> bool {
    &&& reading(0) == Some(0real)
    &&& reading(0x3ff0_0000_0000_0000) == Some(1real)
    &&& reading(0x4000_0000_0000_0000) == Some(2real)
    &&& reading(0x4008_0000_0000_0000) == Some(3real)
    &&& forall|a: u64, b: u64| #[trigger]
        reading((model.plus)(a, b)) == Some(reading(a)->0 + reading(b)->0) || reading(a) is None
            || reading(b) is None || !held(reading, reading(a)->0 + reading(b)->0)
    &&& forall|a: u64, b: u64| #[trigger]
        reading((model.minus)(a, b)) == Some(reading(a)->0 - reading(b)->0) || reading(a) is None
            || reading(b) is None || !held(reading, reading(a)->0 - reading(b)->0)
    &&& forall|a: u64, b: u64| #[trigger]
        reading((model.times)(a, b)) == Some(reading(a)->0 * reading(b)->0) || reading(a) is None
            || reading(b) is None || !held(reading, reading(a)->0 * reading(b)->0)
    &&& forall|a: u64, b: u64| #[trigger]
        reading((model.over)(a, b)) == Some(reading(a)->0 / reading(b)->0) || reading(a) is None
            || reading(b) is None || reading(b)->0 == 0real || !held(
            reading,
            reading(a)->0 / reading(b)->0,
        )
    &&& forall|a: u64, b: u64|
        reading(a) is Some && reading(b) is Some && 0real <= reading(b)->0 && reading(a)->0
            == reading(b)->0 * reading(b)->0 ==> #[trigger] reading((model.root)(a))
            == #[trigger] reading(b)
    &&& forall|a: u64, b: u64|
        reading(a) is Some && reading(b) is Some ==> (#[trigger] (model.less)(a, b) <==> reading(
            a,
        )->0 < reading(b)->0)
    &&& forall|a: u64, b: u64|
        reading(a) is Some && reading(b) is Some ==> #[trigger] reading((model.larger)(a, b))
            == Some(
            if reading(a)->0 < reading(b)->0 {
                reading(b)->0
            } else {
                reading(a)->0
            },
        )
    &&& forall|n: i64|
        held(reading, n as real) ==> #[trigger] reading((model.of_integer)(n)) == Some(n as real)
}

/// The real number of an integer.
pub open spec fn re(n: int) -> real {
    n as real
}

pub proof fn lemma_plus(model: Model, reading: Reading, a: u64, x: real, b: u64, y: real)
    requires
        exact(model, reading),
        reading(a) == Some(x),
        reading(b) == Some(y),
        held(reading, x + y),
    ensures
        reading((model.plus)(a, b)) == Some(x + y),
{
}

pub proof fn lemma_minus(model: Model, reading: Reading, a: u64, x: real, b: u64, y: real)
    requires
        exact(model, reading),
        reading(a) == Some(x),
        reading(b) == Some(y),
        held(reading, x - y),
    ensures
        reading((model.minus)(a, b)) == Some(x - y),
{
}

pub proof fn lemma_times(model: Model, reading: Reading, a: u64, x: real, b: u64, y: real)
    requires
        exact(model, reading),
        reading(a) == Some(x),
        reading(b) == Some(y),
        held(reading, x * y),
    ensures
        reading((model.times)(a, b)) == Some(x * y),
{
}

pub proof fn lemma_over(model: Model, reading: Reading, a: u64, x: real, b: u64, y: real)
    requires
        exact(model, reading),
        reading(a) == Some(x),
        reading(b) == Some(y),
        y != 0real,
        held(reading, x / y),
    ensures
        reading((model.over)(a, b)) == Some(x / y),
{
}

/// Bits of a value between two others are read as that value.
proof fn lemma_interpolate(
    model: Model,
    reading: Reading,
    low: u64,
    x: real,
    high: u64,
    y: real,
    fraction: u64,
    t: real,
)
    requires
        exact(model, reading),
        reading(low) == Some(x),
        reading(high) == Some(y),
        reading(fraction) == Some(t),
        held(reading, y - x),
        held(reading, (y - x) * t),
        held(reading, x + (y - x) * t),
    ensures
        reading(interpolate_of(model, low, high, fraction)) == Some(x + (y - x) * t),
{
    lemma_minus(model, reading, high, y, low, x);
    lemma_times(model, reading, (model.minus)(high, low), y - x, fraction, t);
    lemma_plus(
        model,
        reading,
        low,
        x,
        (model.times)((model.minus)(high, low), fraction),
        (y - x) * t,
    );
}

/// The weights of an output frame lie between those of two neighboring phase rows: `n` of
/// `step_den` parts past an input frame, they are as far past the row below as
/// `n * phases / step_den` is past that row's number, which is less than one row. Where every
/// fractional position has its own row, they are that row's.
pub proof fn law_weights_lie_between_neighboring_rows(
    model: Model,
    reading: Reading,
    g: Geometry,
    bank: Seq<u64>,
    frame: int,
    n: int,
    row: int,
    tap: int,
    x: real,
    y: real,
)
    requires
        exact(model, reading),
        g.valid(),
        0 <= n < g.step_den,
        row * g.step_den <= n * g.phases,
        n * g.phases < (row + 1) * g.step_den,
        0 <= tap < g.taps,
        reading(bank[row * g.taps + tap]) == Some(x),
        reading(bank[(row + 1) * g.taps + tap]) == Some(y),
        ({
            let t = re(n * g.phases - row * g.step_den) / re(g.step_den as int);
            &&& held(reading, re(n))
            &&& held(reading, re(g.step_den as int))
            &&& held(reading, re(g.phases as int))
            &&& held(reading, re(row))
            &&& held(reading, re(n) / re(g.step_den as int))
            &&& held(reading, re(n) / re(g.step_den as int) * re(g.phases as int))
            &&& held(reading, t)
            &&& held(reading, y - x)
            &&& held(reading, (y - x) * t)
            &&& held(reading, x + (y - x) * t)
        }),
    ensures
        ({
            let t = re(n * g.phases - row * g.step_den) / re(g.step_den as int);
            &&& 0 <= row < g.phases
            &&& 0real <= t < 1real
            &&& reading(weight(model, g, bank, frame * g.step_den + n, tap)) == Some(
                x + (y - x) * t,
            )
        }),
{
    let den = g.step_den as int;
    let p = g.phases as int;
    let position = frame * den + n;
    let t = re(n * p - row * den) / re(den);
    lemma_fundamental_div_mod_converse(position, den, frame, n);
    assert(0 <= n * p && n * p < den * p) by (nonlinear_arith)
        requires
            0 <= n < den,
            0 < p,
    ;
    assert(0 <= row < p) by (nonlinear_arith)
        requires
            row * den <= n * p,
            n * p < (row + 1) * den,
            0 <= n * p < den * p,
            0 < den,
    ;
    assert(n * p == row * den + (n * p - row * den) && 0 <= n * p - row * den < den)
        by (nonlinear_arith)
        requires
            row * den <= n * p,
            n * p < (row + 1) * den,
    ;
    lemma_fundamental_div_mod_converse(n * p, den, row, n * p - row * den);
    lemma_part(n * p - row * den, den);
    if g.exact() {
        assert(row == n && n * p - row * den == 0) by (nonlinear_arith)
            requires
                p == den,
                row * den <= n * p,
                n * p < (row + 1) * den,
                den > 0,
        ;
        assert(t == 0real) by (nonlinear_arith)
            requires
                t == re(0) / re(den),
                re(den) > 0real,
        ;
        assert((y - x) * t == 0real) by (nonlinear_arith)
            requires
                t == 0real,
        ;
    } else {
        assert(g.row_at(position) == row);
        let numerator = (model.of_integer)(n as i64);
        let denominator = (model.of_integer)(den as i64);
        let phases = (model.of_integer)(p as i64);
        let ratio = (model.over)(numerator, denominator);
        lemma_over(model, reading, numerator, re(n), denominator, re(den));
        lemma_times(model, reading, ratio, re(n) / re(den), phases, re(p));
        assert(re(n) / re(den) * re(p) - re(row) == t) by {
            lemma_fraction(n, p, row, den);
        }
        lemma_minus(
            model,
            reading,
            (model.times)(ratio, phases),
            re(n) / re(den) * re(p),
            (model.of_integer)(row as i64),
            re(row),
        );
        assert(phase_fraction_of(model, n as u32, g.step_den, g.phases, row as usize) == (
        model.minus)((model.times)(ratio, phases), (model.of_integer)(row as i64)));
        lemma_interpolate(
            model,
            reading,
            bank[row * g.taps + tap],
            x,
            bank[(row + 1) * g.taps + tap],
            y,
            phase_fraction_of(model, n as u32, g.step_den, g.phases, row as usize),
            t,
        );
    }
}

/// A proper part of a whole.
proof fn lemma_part(a: int, b: int)
    requires
        0 <= a < b,
    ensures
        0real <= re(a) / re(b) < 1real,
{
    assert(0real <= re(a) / re(b) < 1real) by (nonlinear_arith)
        requires
            0real <= re(a) < re(b),
    ;
}

proof fn lemma_fraction(n: int, p: int, row: int, den: int)
    requires
        den > 0,
    ensures
        re(n) / re(den) * re(p) - re(row) == re(n * p - row * den) / re(den),
{
    assert(re(n * p - row * den) == re(n) * re(p) - re(row) * re(den)) by (nonlinear_arith);
    assert(re(n) / re(den) * re(p) - re(row) == (re(n) * re(p) - re(row) * re(den)) / re(den))
        by (nonlinear_arith)
        requires
            re(den) > 0real,
    ;
}

/// Input frames go into the sums as they are. Before the first one the input continues by
/// point reflection about it, and past the last one by a blend of mirroring and point
/// reflection about that: none of the reflection for a blend of zero, all of it for one.
pub proof fn law_input_continues_by_reflection(
    model: Model,
    reading: Reading,
    g: Geometry,
    history: Seq<u64>,
    frames: int,
    values: Seq<real>,
    frame: int,
    channel: int,
    blend: u64,
    share: real,
)
    requires
        exact(model, reading),
        g.valid(),
        0 < frames,
        history.len() == frames * g.channels,
        0 <= channel < g.channels,
        values.len() == frames,
        forall|f: int|
            #![trigger values[f]]
            0 <= f < frames ==> reading(history[f * g.channels + channel]) == Some(values[f]),
        reading(blend) == Some(share),
        continuation_held(reading, values, frame, share),
    ensures
        reading(continued(model, g, history, 0, frame, channel, blend)) == Some(
            continued_value(values, frame, share),
        ),
        0 <= frame < frames ==> continued(model, g, history, 0, frame, channel, blend)
            == history[frame * g.channels + channel],
{
    let c = g.channels as int;
    lemma_fundamental_div_mod_converse(history.len() as int, c, frames, 0);
    let last = frames - 1;
    let two = 0x4000_0000_0000_0000u64;
    let edge = values[0];
    let end = values[last];
    if frame < 0 {
        let m = if -frame < last {
            -frame
        } else {
            last
        };
        assert(values[m] == values[m]);
        lemma_times(model, reading, two, 2real, history[0 * c + channel], edge);
        lemma_minus(
            model,
            reading,
            (model.times)(two, history[0 * c + channel]),
            2real * edge,
            history[m * c + channel],
            values[m],
        );
    } else if frame >= frames {
        let m = if last - (frame - last) > 0 {
            last - (frame - last)
        } else {
            0
        };
        let mirrored = history[m * c + channel];
        lemma_times(model, reading, two, 2real, history[last * c + channel], end);
        lemma_minus(
            model,
            reading,
            (model.times)(two, history[last * c + channel]),
            2real * end,
            mirrored,
            values[m],
        );
        lemma_interpolate(
            model,
            reading,
            mirrored,
            values[m],
            reflect_of(model, history[last * c + channel], mirrored),
            2real * end - values[m],
            blend,
            share,
        );
    } else {
        assert(values[frame] == values[frame]);
    }
}

/// A channel continued past both of its ends.
pub open spec fn continued_value(values: Seq<real>, frame: int, share: real) -> real {
    let last = values.len() - 1;
    if 0 <= frame <= last {
        values[frame]
    } else if frame < 0 {
        2real * values[0] - values[
            if -frame < last {
                -frame
            } else {
                last
            }
        ]
    } else {
        let mirrored = values[
            if 2 * last - frame > 0 {
                2 * last - frame
            } else {
                0
            }
        ];
        mirrored + (2real * values[last] - mirrored - mirrored) * share
    }
}

/// Bits stand for every step of the continuation.
pub open spec fn continuation_held(
    reading: Reading,
    values: Seq<real>,
    frame: int,
    share: real,
) -> bool {
    let last = values.len() - 1;
    let mirrored = values[
        if 2 * last - frame > 0 {
            2 * last - frame
        } else {
            0
        }
    ];
    let reflected = 2real * values[last] - mirrored;
    &&& frame < 0 ==> held(reading, 2real * values[0])
    &&& frame < 0 ==> held(reading, continued_value(values, frame, share))
    &&& frame > last ==> held(reading, 2real * values[last])
    &&& frame > last ==> held(reading, reflected)
    &&& frame > last ==> held(reading, reflected - mirrored)
    &&& frame > last ==> held(reading, (reflected - mirrored) * share)
    &&& frame > last ==> held(reading, continued_value(values, frame, share))
}

/// The sum of the squares of some numbers.
pub open spec fn energy(values: Seq<real>) -> real
    decreases values.len(),
{
    if values.len() == 0 {
        0real
    } else {
        energy(values.drop_last()) + values.last() * values.last()
    }
}

/// How much neighboring numbers differ.
pub open spec fn slopes(values: Seq<real>) -> Seq<real> {
    Seq::new((values.len() - 1) as nat, |i: int| values[i + 1] - values[i])
}

/// Bits stand for every step of an energy.
pub open spec fn energy_held(reading: Reading, values: Seq<real>) -> bool {
    &&& forall|i: int| 0 <= i < values.len() ==> held(reading, #[trigger] values[i] * values[i])
    &&& forall|n: int| 0 <= n <= values.len() ==> held(reading, energy(#[trigger] values.take(n)))
}

/// `level` is the root of the mean square of some numbers.
pub open spec fn is_level(reading: Reading, values: Seq<real>, level: real) -> bool {
    &&& 0real <= level
    &&& level * level == energy(values) / re(values.len() as int)
    &&& held(reading, level)
    &&& held(reading, re(values.len() as int))
    &&& held(reading, energy(values) / re(values.len() as int))
    &&& energy_held(reading, values)
}

proof fn lemma_power(model: Model, reading: Reading, samples: Seq<u64>, values: Seq<real>)
    requires
        exact(model, reading),
        samples.len() == values.len(),
        forall|i: int|
            #![trigger values[i]]
            0 <= i < values.len() ==> reading(samples[i]) == Some(values[i]),
        energy_held(reading, values),
    ensures
        reading(power_of(model, samples)) == Some(energy(values)),
    decreases values.len(),
{
    if values.len() > 0 {
        let n = values.len() as int;
        let fewer = values.drop_last();
        assert forall|i: int| 0 <= i < fewer.len() implies held(
            reading,
            #[trigger] fewer[i] * fewer[i],
        ) by {
            assert(held(reading, values[i] * values[i]));
        }
        assert forall|k: int| 0 <= k <= fewer.len() implies held(
            reading,
            energy(#[trigger] fewer.take(k)),
        ) by {
            assert(fewer.take(k) =~= values.take(k));
        }
        lemma_power(model, reading, samples.drop_last(), fewer);
        assert(values.take(n) =~= values);
        assert(held(reading, energy(values.take(n))));
        assert(held(reading, values[n - 1] * values[n - 1]));
        let last = samples[n - 1];
        lemma_times(model, reading, last, values[n - 1], last, values[n - 1]);
        lemma_plus(
            model,
            reading,
            power_of(model, samples.drop_last()),
            energy(fewer),
            (model.times)(last, last),
            values[n - 1] * values[n - 1],
        );
    }
}

proof fn lemma_level(
    model: Model,
    reading: Reading,
    samples: Seq<u64>,
    values: Seq<real>,
    level: real,
)
    requires
        exact(model, reading),
        0 < samples.len() == values.len() <= i64::MAX,
        forall|i: int|
            #![trigger values[i]]
            0 <= i < values.len() ==> reading(samples[i]) == Some(values[i]),
        is_level(reading, values, level),
    ensures
        reading(level_of(model, samples)) == Some(level),
{
    let n = values.len() as int;
    lemma_power(model, reading, samples, values);
    let count = (model.of_integer)(n as i64);
    lemma_over(model, reading, power_of(model, samples), energy(values), count, re(n));
    let mean = (model.over)(power_of(model, samples), count);
    let bits = choose|bits: u64| #[trigger] reading(bits) == Some(level);
    assert(reading((model.root)(mean)) == reading(bits));
}

/// `1 - 3 x^2 + 2 x^3`, from one at zero down to zero at one and flat beyond.
pub open spec fn fall(x: real) -> real {
    if x < 0real {
        1real
    } else if x > 1real {
        0real
    } else {
        1real - x * x * (3real - 2real * x)
    }
}

/// Bits stand for every step of the fall.
pub open spec fn fall_held(reading: Reading, x: real) -> bool {
    &&& held(reading, x)
    &&& 0real <= x <= 1real ==> held(reading, x * x)
    &&& 0real <= x <= 1real ==> held(reading, 2real * x)
    &&& 0real <= x <= 1real ==> held(reading, 3real - 2real * x)
    &&& 0real <= x <= 1real ==> held(reading, x * x * (3real - 2real * x))
    &&& held(reading, fall(x))
}

/// The levels of a tail: of its samples, never below `silence`, and of their differences.
pub open spec fn tail_levels(
    reading: Reading,
    window: Seq<u64>,
    values: Seq<real>,
    level: real,
    rise: real,
    silence: real,
) -> bool {
    &&& 2 <= window.len() == values.len() <= i64::MAX
    &&& forall|i: int|
        #![trigger values[i]]
        0 <= i < values.len() ==> reading(window[i]) == Some(values[i])
    &&& forall|i: int| 0 <= i < values.len() - 1 ==> held(reading, #[trigger] slopes(values)[i])
    &&& is_level(reading, values, level)
    &&& is_level(reading, slopes(values), rise)
    &&& 0real < silence
    &&& reading(0x3d71_9799_812d_ea11) == Some(silence)
}

/// How rough a tail is.
pub open spec fn roughness(level: real, rise: real, silence: real) -> real {
    rise / if level < silence {
        silence
    } else {
        level
    }
}

/// The roughness of a tail is the level of its differences over the level of its samples, and
/// decides how much point reflection continues it: all up to `smooth`, none from twice that
/// on, and in between a step that falls by `3 x^2 - 2 x^3`. `smooth` is what stands for 0.4.
pub proof fn law_roughness_decides_the_blend(
    model: Model,
    reading: Reading,
    window: Seq<u64>,
    values: Seq<real>,
    level: real,
    rise: real,
    silence: real,
    smooth: real,
)
    requires
        exact(model, reading),
        tail_levels(reading, window, values, level, rise, silence),
        0real < smooth,
        reading(0x3fd9_9999_9999_999a) == Some(smooth),
        held(reading, roughness(level, rise, silence)),
        held(reading, roughness(level, rise, silence) - smooth),
        fall_held(reading, (roughness(level, rise, silence) - smooth) / smooth),
    ensures
        ({
            let rough = roughness(level, rise, silence);
            &&& reading(roughness_blend_of(model, window)) == Some(fall((rough - smooth) / smooth))
            &&& rough <= smooth ==> reading(roughness_blend_of(model, window)) == Some(1real)
            &&& rough >= 2real * smooth ==> reading(roughness_blend_of(model, window)) == Some(
                0real,
            )
        }),
{
    let rough = roughness(level, rise, silence);
    let x = (rough - smooth) / smooth;
    let changes = differences_of(model, window);
    let rises = slopes(values);
    assert forall|i: int| 0 <= i < rises.len() implies reading(changes[i]) == Some(
        #[trigger] rises[i],
    ) by {
        assert(held(reading, slopes(values)[i]));
        lemma_minus(model, reading, window[i + 1], values[i + 1], window[i], values[i]);
    }
    lemma_level(model, reading, window, values, level);
    lemma_level(model, reading, changes, rises, rise);
    let base = (model.larger)(level_of(model, window), 0x3d71_9799_812d_ea11);
    let divisor = if level < silence {
        silence
    } else {
        level
    };
    let step_edge = 0x3fd9_9999_9999_999au64;
    lemma_over(model, reading, level_of(model, changes), rise, base, divisor);
    let ratio = (model.over)(level_of(model, changes), base);
    lemma_minus(model, reading, ratio, rough, step_edge, smooth);
    let past = (model.minus)(ratio, step_edge);
    lemma_over(model, reading, past, rough - smooth, step_edge, smooth);
    let raw = (model.over)(past, step_edge);
    let one = 0x3ff0_0000_0000_0000u64;
    let two = 0x4000_0000_0000_0000u64;
    let three = 0x4008_0000_0000_0000u64;
    let limited = clamped_of(model, raw);
    let z = if x < 0real {
        0real
    } else if x > 1real {
        1real
    } else {
        x
    };
    assert(reading(limited) == Some(z));
    lemma_limits_of_fall(rough, smooth);
    assert(z * z * (3real - 2real * z) == 1real - fall(x) && 0real <= z <= 1real)
        by (nonlinear_arith)
        requires
            z == 0real && fall(x) == 1real || z == 1real && fall(x) == 0real || z == x && 0real <= x
                <= 1real && fall(x) == 1real - x * x * (3real - 2real * x),
    ;
    assert(z == 0real ==> z * z == 0real && 2real * z == 0real && 3real - 2real * z == 3real);
    assert(z == 1real ==> z * z == 1real && 2real * z == 2real && 3real - 2real * z == 1real);
    assert(held(reading, 0real) && held(reading, 1real) && held(reading, 2real) && held(
        reading,
        3real,
    ));
    lemma_times(model, reading, limited, z, limited, z);
    lemma_times(model, reading, two, 2real, limited, z);
    lemma_minus(model, reading, three, 3real, (model.times)(two, limited), 2real * z);
    lemma_times(
        model,
        reading,
        (model.times)(limited, limited),
        z * z,
        (model.minus)(three, (model.times)(two, limited)),
        3real - 2real * z,
    );
    lemma_minus(
        model,
        reading,
        one,
        1real,
        (model.times)(
            (model.times)(limited, limited),
            (model.minus)(three, (model.times)(two, limited)),
        ),
        z * z * (3real - 2real * z),
    );
}

/// The fall starts and ends where it should.
proof fn lemma_limits_of_fall(rough: real, smooth: real)
    requires
        0real < smooth,
    ensures
        rough <= smooth ==> fall((rough - smooth) / smooth) == 1real,
        rough >= 2real * smooth ==> fall((rough - smooth) / smooth) == 0real,
{
    let x = (rough - smooth) / smooth;
    assert(rough <= smooth ==> x <= 0real) by (nonlinear_arith)
        requires
            x == (rough - smooth) / smooth,
            0real < smooth,
    ;
    assert(rough >= 2real * smooth ==> x >= 1real) by (nonlinear_arith)
        requires
            x == (rough - smooth) / smooth,
            0real < smooth,
    ;
    assert(x == 0real ==> x * x * (3real - 2real * x) == 0real) by (nonlinear_arith);
    assert(x == 1real ==> x * x * (3real - 2real * x) == 1real) by (nonlinear_arith);
}

/// The fall never rises, and passes one half in the middle.
proof fn lemma_fall_falls(x: real, y: real)
    requires
        x <= y,
    ensures
        fall(x) >= fall(y),
        x <= 1real / 2real ==> fall(x) >= 1real / 2real,
        1real / 2real <= x ==> fall(x) <= 1real / 2real,
        0real <= fall(x) <= 1real,
{
    lemma_fall_between(x, y);
    lemma_fall_between(y, y);
    lemma_fall_between(x, 1real / 2real);
    lemma_fall_between(1real / 2real, x);
    lemma_fall_between(x, 1real);
    lemma_fall_between(0real, x);
    let h = 1real / 2real;
    assert(h * h * (3real - 2real * h) == h) by (nonlinear_arith)
        requires
            h == 1real / 2real,
    ;
    assert(0real * 0real * (3real - 2real * 0real) == 0real) by (nonlinear_arith);
    assert(1real * 1real * (3real - 2real * 1real) == 1real) by (nonlinear_arith);
}

proof fn lemma_fall_between(x: real, y: real)
    ensures
        x <= y && 0real <= x <= 1real && 0real <= y <= 1real ==> fall(x) >= fall(y),
        0real <= x <= 1real ==> 0real <= fall(x) <= 1real,
{
    if 0real <= x <= 1real {
        assert(0real <= x * x * (3real - 2real * x) <= 1real) by (nonlinear_arith)
            requires
                0real <= x <= 1real,
        ;
    }
    if x <= y && 0real <= x <= 1real && 0real <= y <= 1real {
        assert(x * x <= x && y * y <= y && x * y <= x && x * y <= y) by (nonlinear_arith)
            requires
                0real <= x <= 1real,
                0real <= y <= 1real,
        ;
        let gain = 3real * (x + y) - 2real * (x * x + x * y + y * y);
        assert(gain >= 0real);
        assert(y * y * (3real - 2real * y) - x * x * (3real - 2real * x) == (y - x) * gain)
            by (nonlinear_arith)
            requires
                gain == 3real * (x + y) - 2real * (x * x + x * y + y * y),
        ;
        assert((y - x) * gain >= 0real) by (nonlinear_arith)
            requires
                gain >= 0real,
                y - x >= 0real,
        ;
    }
}

/// A rougher tail is never reflected more: the blend falls as the roughness grows, is at least
/// one half up to one and a half times `smooth`, and at most one half from there on.
pub proof fn law_rougher_tails_are_reflected_less(
    model: Model,
    reading: Reading,
    window: Seq<u64>,
    values: Seq<real>,
    level: real,
    rise: real,
    other_window: Seq<u64>,
    other_values: Seq<real>,
    other_level: real,
    other_rise: real,
    silence: real,
    smooth: real,
)
    requires
        exact(model, reading),
        tail_levels(reading, window, values, level, rise, silence),
        tail_levels(reading, other_window, other_values, other_level, other_rise, silence),
        0real < smooth,
        reading(0x3fd9_9999_9999_999a) == Some(smooth),
        held(reading, roughness(level, rise, silence)),
        held(reading, roughness(level, rise, silence) - smooth),
        fall_held(reading, (roughness(level, rise, silence) - smooth) / smooth),
        held(reading, roughness(other_level, other_rise, silence)),
        held(reading, roughness(other_level, other_rise, silence) - smooth),
        fall_held(reading, (roughness(other_level, other_rise, silence) - smooth) / smooth),
        roughness(level, rise, silence) <= roughness(other_level, other_rise, silence),
    ensures
        ({
            let rough = roughness(level, rise, silence);
            let blend = reading(roughness_blend_of(model, window))->0;
            let other_blend = reading(roughness_blend_of(model, other_window))->0;
            &&& reading(roughness_blend_of(model, window)) is Some
            &&& reading(roughness_blend_of(model, other_window)) is Some
            &&& blend >= other_blend
            &&& 0real <= blend <= 1real
            &&& 2real * rough <= 3real * smooth ==> blend >= 1real / 2real
            &&& 2real * rough >= 3real * smooth ==> blend <= 1real / 2real
        }),
{
    let rough = roughness(level, rise, silence);
    let rougher = roughness(other_level, other_rise, silence);
    law_roughness_decides_the_blend(
        model,
        reading,
        window,
        values,
        level,
        rise,
        silence,
        smooth,
    );
    law_roughness_decides_the_blend(
        model,
        reading,
        other_window,
        other_values,
        other_level,
        other_rise,
        silence,
        smooth,
    );
    let x = (rough - smooth) / smooth;
    let y = (rougher - smooth) / smooth;
    assert(x <= y) by (nonlinear_arith)
        requires
            x == (rough - smooth) / smooth,
            y == (rougher - smooth) / smooth,
            rough <= rougher,
            0real < smooth,
    ;
    assert((2real * rough <= 3real * smooth ==> x <= 1real / 2real) && (2real * rough >= 3real
        * smooth ==> x >= 1real / 2real)) by (nonlinear_arith)
        requires
            x == (rough - smooth) / smooth,
            0real < smooth,
    ;
    lemma_fall_falls(x, y);
}

/// The tail of a channel is what its last frames hold, at most 64 of them. Two frames or less
/// have none, and are mirrored.
pub proof fn law_the_last_64_frames_are_the_tail(
    model: Model,
    g: Geometry,
    history: Seq<u64>,
    frames: int,
    channel: int,
)
    requires
        g.valid(),
        0 <= frames,
        history.len() == frames * g.channels,
        0 <= channel < g.channels,
    ensures
        frames <= 2 ==> tail_blend_of(model, g, history, 0, channel) == 0,
        frames > 2 ==> tail_blend_of(model, g, history, 0, channel) == roughness_blend_of(
            model,
            last_samples(history, g.channels as int, frames, channel),
        ),
{
    let c = g.channels as int;
    lemma_fundamental_div_mod_converse(history.len() as int, c, frames, 0);
    if frames > 2 {
        let from = if frames - 64 < 0 {
            0
        } else {
            frames - 64
        };
        assert(channel_window(g, history, from, frames, channel) =~= last_samples(
            history,
            c,
            frames,
            channel,
        ));
    }
}

/// The last samples of a channel, at most 64.
pub open spec fn last_samples(
    history: Seq<u64>,
    channels: int,
    frames: int,
    channel: int,
) -> Seq<u64> {
    let count = if frames < 64 {
        frames
    } else {
        64
    };
    Seq::new(count as nat, |i: int| history[(frames - count + i) * channels + channel])
}

/// A channel, continued past its ends, under some weights from a frame on.
pub open spec fn filtered(
    values: Seq<real>,
    share: real,
    weights: Seq<real>,
    start: int,
    taps: nat,
) -> real
    decreases taps,
{
    if taps == 0 {
        0real
    } else {
        filtered(values, share, weights, start, (taps - 1) as nat) + continued_value(
            values,
            start + taps - 1,
            share,
        ) * weights[taps - 1]
    }
}

/// Bits stand for every step of a filtered value.
pub open spec fn filtering_held(
    reading: Reading,
    values: Seq<real>,
    share: real,
    weights: Seq<real>,
    start: int,
) -> bool {
    forall|tap: int|
        0 <= tap < weights.len() ==> {
            &&& continuation_held(reading, values, start + tap, share)
            &&& held(reading, continued_value(values, start + tap, share) * #[trigger] weights[tap])
            &&& held(reading, filtered(values, share, weights, start, (tap + 1) as nat))
        }
}

proof fn lemma_dot(
    model: Model,
    reading: Reading,
    samples: Seq<u64>,
    weights: Seq<u64>,
    values: Seq<real>,
    share: real,
    factors: Seq<real>,
    start: int,
    taps: nat,
)
    requires
        exact(model, reading),
        taps <= samples.len() == weights.len() == factors.len(),
        forall|tap: int|
            #![trigger factors[tap]]
            0 <= tap < factors.len() ==> reading(weights[tap]) == Some(factors[tap]) && reading(
                samples[tap],
            ) == Some(continued_value(values, start + tap, share)),
        filtering_held(reading, values, share, factors, start),
    ensures
        reading(dot(model, samples, weights, taps)) == Some(
            filtered(values, share, factors, start, taps),
        ),
    decreases taps,
{
    if taps > 0 {
        let before = (taps - 1) as nat;
        lemma_dot(model, reading, samples, weights, values, share, factors, start, before);
        let sample = continued_value(values, start + taps - 1, share);
        let factor = factors[taps - 1];
        lemma_times(model, reading, samples[taps - 1], sample, weights[taps - 1], factor);
        lemma_plus(
            model,
            reading,
            dot(model, samples, weights, before),
            filtered(values, share, factors, start, before),
            (model.times)(samples[taps - 1], weights[taps - 1]),
            sample * factor,
        );
    }
}

/// How far an output frame lies past the phase row below it, for `part` of `whole` parts past
/// its input frame.
pub open spec fn past_row(part: int, whole: int, phases: int) -> real {
    re((part * phases) % whole) / re(whole)
}

/// The weight of a tap, between its coefficients in two neighboring phase rows.
pub open spec fn ideal_weight(
    reading: Reading,
    bank: Seq<u64>,
    taps: int,
    part: int,
    whole: int,
    phases: int,
    tap: int,
) -> real {
    let row = (part * phases) / whole;
    let low = reading(bank[row * taps + tap])->0;
    let high = reading(bank[(row + 1) * taps + tap])->0;
    low + (high - low) * past_row(part, whole, phases)
}

/// All weights of an output frame.
pub open spec fn ideal_weights(
    reading: Reading,
    bank: Seq<u64>,
    taps: int,
    part: int,
    whole: int,
    phases: int,
) -> Seq<real> {
    Seq::new(
        taps as nat,
        |tap: int| ideal_weight(reading, bank, taps, part, whole, phases, tap),
    )
}

/// Bits stand for every step of the weights of an output frame.
pub open spec fn weights_held(
    reading: Reading,
    bank: Seq<u64>,
    taps: int,
    part: int,
    whole: int,
    phases: int,
) -> bool {
    let row = (part * phases) / whole;
    let t = past_row(part, whole, phases);
    &&& held(reading, re(part))
    &&& held(reading, re(whole))
    &&& held(reading, re(phases))
    &&& held(reading, re(row))
    &&& held(reading, re(part) / re(whole))
    &&& held(reading, re(part) / re(whole) * re(phases))
    &&& held(reading, t)
    &&& forall|tap: int|
        #![trigger bank[row * taps + tap]]
        0 <= tap < taps ==> {
            let low = reading(bank[row * taps + tap])->0;
            let high = reading(bank[(row + 1) * taps + tap])->0;
            &&& reading(bank[row * taps + tap]) is Some
            &&& reading(bank[(row + 1) * taps + tap]) is Some
            &&& held(reading, high - low)
            &&& held(reading, (high - low) * t)
            &&& held(reading, low + (high - low) * t)
        }
}

/// Output frame `k` is the input, continued past its ends, filtered around the exact time
/// `k * step_num / step_den` of the frame: the taps are centered at the input frame below that
/// time, and weighted for the fraction that is left.
pub proof fn law_output_is_the_filtered_input(
    model: Model,
    reading: Reading,
    g: Geometry,
    bank: Seq<u64>,
    history: Seq<u64>,
    frames: int,
    values: Seq<real>,
    k: int,
    channel: int,
    blend: u64,
    share: real,
)
    requires
        exact(model, reading),
        g.valid(),
        0 < frames,
        0 <= k,
        history.len() == frames * g.channels,
        0 <= channel < g.channels,
        values.len() == frames,
        forall|f: int|
            #![trigger values[f]]
            0 <= f < frames ==> reading(history[f * g.channels + channel]) == Some(values[f]),
        blend == if frames <= 2 {
            0
        } else {
            roughness_blend_of(model, last_samples(history, g.channels as int, frames, channel))
        },
        reading(blend) == Some(share),
        ({
            let part = (k * g.step_num) % (g.step_den as int);
            let start = (k * g.step_num) / (g.step_den as int) - g.taps as int / 2;
            let whole = g.step_den as int;
            &&& weights_held(reading, bank, g.taps as int, part, whole, g.phases as int)
            &&& filtering_held(
                reading,
                values,
                share,
                ideal_weights(reading, bank, g.taps as int, part, whole, g.phases as int),
                start,
            )
        }),
    ensures
        ({
            let part = (k * g.step_num) % (g.step_den as int);
            let start = (k * g.step_num) / (g.step_den as int) - g.taps as int / 2;
            let whole = g.step_den as int;
            reading(output_sample(model, g, bank, history, 0, k * g.step_num, channel)) == Some(
                filtered(
                    values,
                    share,
                    ideal_weights(reading, bank, g.taps as int, part, whole, g.phases as int),
                    start,
                    g.taps as nat,
                ),
            )
        }),
{
    let den = g.step_den as int;
    let position = k * g.step_num;
    let frame = position / den;
    let part = position % den;
    let start = frame - g.taps as int / 2;
    let p = g.phases as int;
    let taps = g.taps as int;
    let factors = ideal_weights(reading, bank, taps, part, den, p);
    lemma_fundamental_div_mod(position, den);
    assert(position == frame * den + part) by (nonlinear_arith)
        requires
            position == den * frame + part,
    ;
    law_the_last_64_frames_are_the_tail(model, g, history, frames, channel);
    let row = (part * p) / den;
    lemma_fundamental_div_mod(part * p, den);
    assert(row * den <= part * p && part * p < (row + 1) * den && part * p - row * den == (part * p)
        % den) by (nonlinear_arith)
        requires
            part * p == den * row + (part * p) % den,
            0 <= (part * p) % den < den,
    ;
    assert(filtering_held(reading, values, share, factors, start));
    let samples = tap_samples(model, g, history, 0, position, channel);
    let weights = tap_weights(model, g, bank, position);
    assert forall|tap: int|
        #![trigger factors[tap]]
        0 <= tap < factors.len() implies reading(weights[tap]) == Some(factors[tap]) && reading(
        samples[tap],
    ) == Some(continued_value(values, start + tap, share)) by {
        let factor = factors[tap];
        assert(continuation_held(reading, values, start + tap, share));
        assert(reading(bank[row * taps + tap]) is Some);
        law_weights_lie_between_neighboring_rows(
            model,
            reading,
            g,
            bank,
            frame,
            part,
            row,
            tap,
            reading(bank[row * taps + tap])->0,
            reading(bank[(row + 1) * taps + tap])->0,
        );
        law_input_continues_by_reflection(
            model,
            reading,
            g,
            history,
            frames,
            values,
            start + tap,
            channel,
            blend,
            share,
        );
        assert(frame + tap - taps / 2 == start + tap);
    }
    lemma_dot(
        model,
        reading,
        samples,
        weights,
        values,
        share,
        factors,
        start,
        g.taps as nat,
    );
}

/// Parts of a whole, counted more finely.
proof fn lemma_finer_parts(a: int, num: int, den: int, divisor: int)
    requires
        den > 0,
        divisor > 0,
    ensures
        (a * (num * divisor)) / (den * divisor) == (a * num) / den,
        (a * (num * divisor)) % (den * divisor) == divisor * ((a * num) % den),
{
    let q = (a * num) / den;
    let r = (a * num) % den;
    lemma_fundamental_div_mod(a * num, den);
    assert(a * (num * divisor) == q * (den * divisor) + divisor * r) by (nonlinear_arith)
        requires
            a * num == den * q + r,
    ;
    assert(0 <= divisor * r < den * divisor) by (nonlinear_arith)
        requires
            0 <= r < den,
            divisor > 0,
    ;
    lemma_fundamental_div_mod_converse(a * (num * divisor), den * divisor, q, divisor * r);
}

/// The weights of an output frame do not depend on how finely its time is counted.
proof fn lemma_finer_weights(
    reading: Reading,
    bank: Seq<u64>,
    taps: int,
    part: int,
    whole: int,
    phases: int,
    divisor: int,
)
    requires
        whole > 0,
        divisor > 0,
    ensures
        ideal_weights(reading, bank, taps, divisor * part, whole * divisor, phases)
            == ideal_weights(reading, bank, taps, part, whole, phases),
{
    lemma_finer_parts(phases, part, whole, divisor);
    assert(phases * (part * divisor) == (divisor * part) * phases && phases * part == part
        * phases) by (nonlinear_arith);
    let r = (part * phases) % whole;
    assert(re(divisor * r) == re(divisor) * re(r) && re(whole * divisor) == re(whole) * re(divisor))
        by (nonlinear_arith);
    assert(re(divisor * r) / re(whole * divisor) == re(r) / re(whole)) by (nonlinear_arith)
        requires
            re(divisor * r) == re(divisor) * re(r),
            re(whole * divisor) == re(whole) * re(divisor),
            re(divisor) > 0real,
            re(whole) > 0real,
    ;
    assert(past_row(divisor * part, whole * divisor, phases) == past_row(part, whole, phases));
    assert(ideal_weights(reading, bank, taps, divisor * part, whole * divisor, phases)
        =~= ideal_weights(reading, bank, taps, part, whole, phases));
}

/// A filtered converter returns for a complete input one frame for each time
/// `k * input_rate / output_rate` before its end, and frame `k` is the input, continued past
/// its ends, filtered around that time: the taps of the filter are centered at the input frame
/// below it, and weighted for the fraction of a frame that is left.
pub proof fn law_converters_filter_their_input<H: Host>(
    host: &H,
    input_rate: u32,
    output_rate: u32,
    channels: usize,
    filter_length: FilterLength,
    policy: FilterLengthPolicy,
    converter: Resampler,
    model: Model,
    reading: Reading,
    input: Seq<u64>,
    frames: int,
    values: Seq<real>,
    k: int,
    channel: int,
    blend: u64,
    share: real,
)
    requires
        constructed(host, input_rate, output_rate, channels, filter_length, policy, Ok(converter)),
        input_rate != output_rate,
        exact(model, reading),
        0 < frames,
        input.len() == frames * channels,
        input.len() <= usize::MAX,
        converter.behaviour().block_error(input.len() as usize) is None,
        0 <= k,
        k * input_rate < frames * output_rate,
        0 <= channel < channels,
        values.len() == frames,
        forall|f: int|
            #![trigger values[f]]
            0 <= f < frames ==> reading(input[f * channels + channel]) == Some(values[f]),
        blend == if frames <= 2 {
            0
        } else {
            roughness_blend_of(model, last_samples(input, channels as int, frames, channel))
        },
        reading(blend) == Some(share),
        ({
            let g = converter.stream()->0.geometry();
            let bank = converter.stream()->0.bank();
            let taps = g.taps as int;
            let part = (k * g.step_num) % (g.step_den as int);
            let start = (k * input_rate) / (output_rate as int) - taps / 2;
            let whole = g.step_den as int;
            &&& weights_held(reading, bank, taps, part, whole, g.phases as int)
            &&& filtering_held(
                reading,
                values,
                share,
                ideal_weights(reading, bank, taps, part, whole, g.phases as int),
                start,
            )
        }),
    ensures
        ({
            let output = converter.behaviour().wide_answer(model, input, true)->Ok_0;
            let info = converter.info();
            let taps = info.taps_per_phase as int;
            let start = (k * input_rate) / (output_rate as int) - taps / 2;
            let part = (k * input_rate) % (output_rate as int);
            let whole = output_rate as int;
            &&& converter.behaviour().wide_answer(model, input, true) is Ok
            &&& output.len() as int % channels as int == 0
            &&& (output.len() as int / channels as int - 1) * input_rate < frames * output_rate
            &&& frames * output_rate <= (output.len() as int / channels as int) * input_rate
            &&& reading(output[k * channels + channel]) == Some(
                filtered(
                    values,
                    share,
                    ideal_weights(
                        reading,
                        converter.stream()->0.bank(),
                        taps,
                        part,
                        whole,
                        info.phases as int,
                    ),
                    start,
                    taps as nat,
                ),
            )
        }),
{
    let stream = converter.stream()->0;
    let g = stream.geometry();
    let bank = stream.bank();
    let c = channels as int;
    let num = g.step_num as int;
    let den = g.step_den as int;
    let from = input_rate as nat;
    let to = output_rate as nat;
    let divisor = gcd_of(from, to) as int;
    converter.lemma_stream_is_valid();
    lemma_reduced(from, to);
    let design = design_of(from, to, filter_length, policy);
    assert(g == geometry_of(channels, input_rate, output_rate, design));
    assert(to / gcd_of(from, to) <= to && from / gcd_of(from, to) <= from) by (nonlinear_arith)
        requires
            from == (from / gcd_of(from, to)) * gcd_of(from, to),
            to == (to / gcd_of(from, to)) * gcd_of(from, to),
            gcd_of(from, to) >= 1,
            from / gcd_of(from, to) >= 0,
            to / gcd_of(from, to) >= 0,
    ;
    assert(input_rate == num * divisor && output_rate == den * divisor);
    let none = Seq::<Seq<u64>>::empty();
    assert(joined(none) + input =~= input);
    lemma_fundamental_div_mod_converse(input.len() as int, c, frames, 0);
    assert(whole_frames(g, input));
    assert(g.frames(input) == frames);
    let periods = periods_of(stream.backend());
    law_streams_return_the_conversion(model, g, bank, periods, none, input);
    let output = converter.behaviour().wide_answer(model, input, true)->Ok_0;
    assert(Seq::<u64>::empty() + output =~= output);
    assert(output == conversion(model, g, bank, input));
    // As many frames as there are times before the end.
    let count = ceil_div((frames * den) as nat, num as nat) as int;
    assert(0 <= frames * den) by (nonlinear_arith)
        requires
            0 < frames,
            0 < den,
    ;
    lemma_fundamental_div_mod(frames * den + num - 1, num);
    assert((count - 1) * num < frames * den && frames * den <= count * num) by (nonlinear_arith)
        requires
            frames * den + num - 1 == num * count + (frames * den + num - 1) % num,
            0 <= (frames * den + num - 1) % num < num,
    ;
    assert((count - 1) * input_rate < frames * output_rate && frames * output_rate <= count
        * input_rate) by (nonlinear_arith)
        requires
            (count - 1) * num < frames * den,
            frames * den <= count * num,
            input_rate == num * divisor,
            output_rate == den * divisor,
            divisor >= 1,
    ;
    assert(k < count) by (nonlinear_arith)
        requires
            k * input_rate < frames * output_rate,
            frames * output_rate <= count * input_rate,
            input_rate > 0,
    ;
    assert(output.len() == count * c);
    lemma_fundamental_div_mod_converse(output.len() as int, c, count, 0);
    assert(0 <= k * c + channel < count * c) by (nonlinear_arith)
        requires
            0 <= k < count,
            0 <= channel < c,
    ;
    lemma_fundamental_div_mod_converse(k * c + channel, c, k, channel);
    assert(output[k * c + channel] == output_sample(
        model,
        g,
        bank,
        input,
        0,
        k * g.step_num,
        channel,
    ));
    lemma_finer_parts(k, num, den, divisor);
    lemma_finer_weights(
        reading,
        bank,
        g.taps as int,
        (k * num) % den,
        den,
        g.phases as int,
        divisor,
    );
    law_output_is_the_filtered_input(
        model,
        reading,
        g,
        bank,
        input,
        frames,
        values,
        k,
        channel,
        blend,
        share,
    );
}

} // verus!
