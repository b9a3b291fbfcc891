//! Ordered dot products over several outputs at a time.
//!
//! Every accumulator belongs to one channel of one output frame and visits its taps in
//! ascending order, so sharing a tap loop changes no result.

use vstd::prelude::*;
use vstd::slice::slice_subrange;

use crate::arithmetic::{
    dot, follows, interpolate, interpolate_of, multiply_add, Arithmetic, Model, ZERO_BITS,
};

verus! {

/// Every `width`-th sample, from `offset` on.
pub open spec fn lane(samples: Seq<u64>, width: int, offset: int) -> Seq<u64> {
    Seq::new((samples.len() as int / width) as nat, |i: int| samples[i * width + offset])
}

/// Weights between two rows of coefficients.
pub open spec fn blended(model: Model, lower: Seq<u64>, upper: Seq<u64>, blend: u64) -> Seq<u64> {
    Seq::new(lower.len(), |tap: int| interpolate_of(model, lower[tap], upper[tap], blend))
}

/// Taps that a row of stereo samples and a row of coefficients both cover.
pub open spec fn covered_taps(samples: Seq<u64>, coefficients: Seq<u64>) -> nat {
    if coefficients.len() < samples.len() / 2 {
        coefficients.len()
    } else {
        samples.len() / 2
    }
}

/// `taps` are covered by four pairs of rows, and no more are.
pub open spec fn common_taps(samples: [&[u64]; 4], coefficients: [&[u64]; 4], taps: nat) -> bool {
    &&& forall|frame: int|
        0 <= frame < 4 ==> taps <= covered_taps(samples[frame]@, coefficients[frame]@)
    &&& exists|frame: int|
        0 <= frame < 4 && taps == covered_taps(samples[frame]@, coefficients[frame]@)
}

/// `taps` are covered by four triples of rows, and no more are.
pub open spec fn common_interpolated_taps(
    samples: [&[u64]; 4],
    lower: [&[u64]; 4],
    upper: [&[u64]; 4],
    taps: nat,
) -> bool {
    &&& forall|frame: int|
        0 <= frame < 4 ==> taps <= covered_taps(samples[frame]@, lower[frame]@) && taps
            <= covered_taps(samples[frame]@, upper[frame]@)
    &&& exists|frame: int|
        0 <= frame < 4 && (taps == covered_taps(samples[frame]@, lower[frame]@) || taps
            == covered_taps(samples[frame]@, upper[frame]@))
}

/// The taps that four pairs of rows cover.
fn stereo_taps(samples: [&[u64]; 4], coefficients: [&[u64]; 4]) -> (taps: usize)
    ensures
        common_taps(samples, coefficients, taps as nat),
{
    let mut taps: usize = coefficients[0].len();
    if samples[0].len() / 2 < taps {
        taps = samples[0].len() / 2;
    }
    let mut frame: usize = 1;
    let ghost mut least: int = 0;
    while frame < 4
        invariant
            1 <= frame <= 4,
            0 <= least < frame,
            taps == covered_taps(samples[least]@, coefficients[least]@),
            forall|f: int|
                0 <= f < frame ==> taps <= covered_taps(samples[f]@, coefficients[f]@),
        decreases 4 - frame,
    {
        let mut covered: usize = coefficients[frame].len();
        if samples[frame].len() / 2 < covered {
            covered = samples[frame].len() / 2;
        }
        if covered < taps {
            taps = covered;
            proof {
                least = frame as int;
            }
        }
        frame += 1;
    }
    taps
}

/// The sums of both channels of a frame over its first taps.
pub open spec fn stereo_sums(
    model: Model,
    samples: Seq<u64>,
    weights: Seq<u64>,
    taps: nat,
) -> (u64, u64) {
    (
        dot(model, lane(samples, 2, 0), weights, taps),
        dot(model, lane(samples, 2, 1), weights, taps),
    )
}

/// One more tap of a stereo frame.
#[inline]
fn accumulate<A: Arithmetic>(
    arithmetic: &A,
    sums: (u64, u64),
    samples: &[u64],
    tap: usize,
    weight: u64,
) -> (next: (u64, u64))
    requires
        tap < samples@.len() / 2,
    ensures
        forall|model: Model, weights: Seq<u64>|
            #![trigger follows(arithmetic, model), stereo_sums(model, samples@, weights, tap as nat)]
            follows(arithmetic, model) && weights[tap as int] == weight && sums == stereo_sums(
                model,
                samples@,
                weights,
                tap as nat,
            ) ==> next == stereo_sums(model, samples@, weights, (tap + 1) as nat),
{
    assert(tap * 2 + 1 < samples.len());
    let frame: &[u64] = slice_subrange(samples, tap * 2, tap * 2 + 2);
    let left: u64 = multiply_add(arithmetic, sums.0, frame[0], weight);
    let right: u64 = multiply_add(arithmetic, sums.1, frame[1], weight);
    assert(lane(samples@, 2, 0)[tap as int] == frame@[0]);
    assert(lane(samples@, 2, 1)[tap as int] == frame@[1]);
    (left, right)
}

/// Four stereo frames from their samples and coefficient rows, as interleaved sums.
///
/// Rows of unequal length are cut to the taps that all of them cover.
pub fn convolve_stereo_batch<A: Arithmetic>(
    arithmetic: &A,
    samples: [&[u64]; 4],
    coefficients: [&[u64]; 4],
) -> (sums: [u64; 8])
    ensures
        forall|model: Model, taps: nat, frame: int, channel: int|
            #![trigger follows(arithmetic, model), common_taps(samples, coefficients, taps),
                lane(samples[frame]@, 2, channel)]
            follows(arithmetic, model) && common_taps(samples, coefficients, taps) && 0 <= frame < 4
                && 0 <= channel < 2 ==> sums[frame * 2 + channel] == dot(
                model,
                lane(samples[frame]@, 2, channel),
                coefficients[frame]@,
                taps,
            ),
{
    let taps: usize = stereo_taps(samples, coefficients);
    let mut a: (u64, u64) = (ZERO_BITS, ZERO_BITS);
    let mut b: (u64, u64) = (ZERO_BITS, ZERO_BITS);
    let mut c: (u64, u64) = (ZERO_BITS, ZERO_BITS);
    let mut d: (u64, u64) = (ZERO_BITS, ZERO_BITS);
    let mut tap: usize = 0;
    while tap < taps
        invariant
            tap <= taps,
            common_taps(samples, coefficients, taps as nat),
            forall|model: Model| #[trigger]
                follows(arithmetic, model) ==> {
                    &&& a == stereo_sums(model, samples[0]@, coefficients[0]@, tap as nat)
                    &&& b == stereo_sums(model, samples[1]@, coefficients[1]@, tap as nat)
                    &&& c == stereo_sums(model, samples[2]@, coefficients[2]@, tap as nat)
                    &&& d == stereo_sums(model, samples[3]@, coefficients[3]@, tap as nat)
                },
        decreases taps - tap,
    {
        assert(tap < covered_taps(samples[0]@, coefficients[0]@));
        assert(tap < covered_taps(samples[1]@, coefficients[1]@));
        assert(tap < covered_taps(samples[2]@, coefficients[2]@));
        assert(tap < covered_taps(samples[3]@, coefficients[3]@));
        a = accumulate(arithmetic, a, samples[0], tap, coefficients[0][tap]);
        b = accumulate(arithmetic, b, samples[1], tap, coefficients[1][tap]);
        c = accumulate(arithmetic, c, samples[2], tap, coefficients[2][tap]);
        d = accumulate(arithmetic, d, samples[3], tap, coefficients[3][tap]);
        tap += 1;
    }
    assert forall|t: nat| common_taps(samples, coefficients, t) implies t == taps by {}
    [a.0, a.1, b.0, b.1, c.0, c.1, d.0, d.1]
}

/// The taps that four triples of rows cover.
fn interpolated_stereo_taps(
    samples: [&[u64]; 4],
    lower: [&[u64]; 4],
    upper: [&[u64]; 4],
) -> (taps: usize)
    ensures
        common_interpolated_taps(samples, lower, upper, taps as nat),
{
    let below: usize = stereo_taps(samples, lower);
    let above: usize = stereo_taps(samples, upper);
    if below < above {
        below
    } else {
        above
    }
}

/// Four stereo frames whose coefficients lie between two rows each, as interleaved sums.
///
/// Rows of unequal length are cut to the taps that all of them cover.
pub fn convolve_interpolated_stereo<A: Arithmetic>(
    arithmetic: &A,
    samples: [&[u64]; 4],
    lower: [&[u64]; 4],
    upper: [&[u64]; 4],
    blend: [u64; 4],
) -> (sums: [u64; 8])
    ensures
        forall|model: Model, taps: nat, frame: int, channel: int|
            #![trigger follows(arithmetic, model), common_interpolated_taps(samples, lower, upper, taps),
                lane(samples[frame]@, 2, channel)]
            follows(arithmetic, model) && common_interpolated_taps(samples, lower, upper, taps) && 0
                <= frame < 4 && 0 <= channel < 2 ==> sums[frame * 2 + channel] == dot(
                model,
                lane(samples[frame]@, 2, channel),
                blended(model, lower[frame]@, upper[frame]@, blend[frame]),
                taps,
            ),
{
    let taps: usize = interpolated_stereo_taps(samples, lower, upper);
    let mut a: (u64, u64) = (ZERO_BITS, ZERO_BITS);
    let mut b: (u64, u64) = (ZERO_BITS, ZERO_BITS);
    let mut c: (u64, u64) = (ZERO_BITS, ZERO_BITS);
    let mut d: (u64, u64) = (ZERO_BITS, ZERO_BITS);
    let mut tap: usize = 0;
    while tap < taps
        invariant
            tap <= taps,
            common_interpolated_taps(samples, lower, upper, taps as nat),
            forall|model: Model| #[trigger]
                follows(arithmetic, model) ==> {
                    &&& a == stereo_sums(
                        model,
                        samples[0]@,
                        blended(model, lower[0]@, upper[0]@, blend[0]),
                        tap as nat,
                    )
                    &&& b == stereo_sums(
                        model,
                        samples[1]@,
                        blended(model, lower[1]@, upper[1]@, blend[1]),
                        tap as nat,
                    )
                    &&& c == stereo_sums(
                        model,
                        samples[2]@,
                        blended(model, lower[2]@, upper[2]@, blend[2]),
                        tap as nat,
                    )
                    &&& d == stereo_sums(
                        model,
                        samples[3]@,
                        blended(model, lower[3]@, upper[3]@, blend[3]),
                        tap as nat,
                    )
                },
        decreases taps - tap,
    {
        assert(forall|f: int|
            0 <= f < 4 ==> tap < covered_taps(samples[f]@, lower[f]@) && tap < covered_taps(
                samples[f]@,
                upper[f]@,
            ));
        assert(tap < covered_taps(samples[0]@, lower[0]@));
        assert(tap < covered_taps(samples[1]@, lower[1]@));
        assert(tap < covered_taps(samples[2]@, lower[2]@));
        assert(tap < covered_taps(samples[3]@, lower[3]@));
        let first: u64 = interpolate(arithmetic, lower[0][tap], upper[0][tap], blend[0]);
        let second: u64 = interpolate(arithmetic, lower[1][tap], upper[1][tap], blend[1]);
        let third: u64 = interpolate(arithmetic, lower[2][tap], upper[2][tap], blend[2]);
        let fourth: u64 = interpolate(arithmetic, lower[3][tap], upper[3][tap], blend[3]);
        a = accumulate(arithmetic, a, samples[0], tap, first);
        b = accumulate(arithmetic, b, samples[1], tap, second);
        c = accumulate(arithmetic, c, samples[2], tap, third);
        d = accumulate(arithmetic, d, samples[3], tap, fourth);
        tap += 1;
    }
    assert forall|t: nat| common_interpolated_taps(samples, lower, upper, t) implies t
        == taps by {}
    [a.0, a.1, b.0, b.1, c.0, c.1, d.0, d.1]
}

/// Outputs of consecutive periods side by side: row `row` of the tile holds the stereo
/// frame `row` of every period.
pub open spec fn packed_sample(
    source: Seq<u64>,
    cycle_step: int,
    row: int,
    cycle: int,
    channel: int,
) -> u64 {
    source[(row + cycle * cycle_step) * 2 + channel]
}

/// Arrange `rows` stereo frames of `cycles` periods that start `cycle_step` frames apart
/// so that the frames of all periods under one tap are contiguous.
pub fn pack_phase_tile(source: &[u64], rows: usize, cycle_step: usize, cycles: usize) -> (packed:
    Vec<u64>)
    requires
        cycles > 0,
        rows * (cycles * 2) <= usize::MAX,
        (rows + (cycles - 1) * cycle_step) * 2 <= source@.len(),
    ensures
        packed@.len() == rows * (cycles * 2),
        forall|row: int, cycle: int, channel: int|
            #![trigger packed_sample(source@, cycle_step as int, row, cycle, channel)]
            0 <= row < rows && 0 <= cycle < cycles && 0 <= channel < 2 ==> packed@[row * (cycles
                * 2) + cycle * 2 + channel] == packed_sample(
                source@,
                cycle_step as int,
                row,
                cycle,
                channel,
            ),
{
    let mut packed: Vec<u64> = Vec::new();
    let mut row: usize = 0;
    while row < rows
        invariant
            row <= rows,
            cycles > 0,
            rows * (cycles * 2) <= usize::MAX,
            (rows + (cycles - 1) * cycle_step) * 2 <= source@.len(),
            packed@.len() == row * (cycles * 2),
            forall|r: int, c: int, channel: int|
                #![trigger packed_sample(source@, cycle_step as int, r, c, channel)]
                0 <= r < row && 0 <= c < cycles && 0 <= channel < 2 ==> packed@[r * (cycles * 2) + c
                    * 2 + channel] == packed_sample(source@, cycle_step as int, r, c, channel),
        decreases rows - row,
    {
        let mut cycle: usize = 0;
        while cycle < cycles
            invariant
                row < rows,
                cycle <= cycles,
                rows * (cycles * 2) <= usize::MAX,
                (rows + (cycles - 1) * cycle_step) * 2 <= source@.len(),
                packed@.len() == row * (cycles * 2) + cycle * 2,
                forall|r: int, c: int, channel: int|
                    #![trigger packed_sample(source@, cycle_step as int, r, c, channel)]
                    0 <= r <= row && 0 <= c < cycles && 0 <= channel < 2 && (r < row || c < cycle)
                        ==> packed@[r * (cycles * 2) + c * 2 + channel] == packed_sample(
                        source@,
                        cycle_step as int,
                        r,
                        c,
                        channel,
                    ),
            decreases cycles - cycle,
        {
            assert(cycle * cycle_step <= (cycles - 1) * cycle_step) by (nonlinear_arith)
                requires
                    0 <= cycle <= cycles - 1,
                    0 <= cycle_step,
            ;
            assert((row + cycle * cycle_step) * 2 + 1 < source@.len());
            assert(source@.len() <= usize::MAX) by {
                assert(source.len() == source@.len());
            }
            let at: usize = (row + cycle * cycle_step) * 2;
            let ghost before = packed@;
            packed.push(source[at]);
            packed.push(source[at + 1]);
            assert forall|r: int, c: int, channel: int|
                #![trigger packed_sample(source@, cycle_step as int, r, c, channel)]
                0 <= r <= row && 0 <= c < cycles && 0 <= channel < 2 && (r < row || c < cycle
                    + 1) implies packed@[r * (cycles * 2) + c * 2 + channel] == packed_sample(
                source@,
                cycle_step as int,
                r,
                c,
                channel,
            ) by {
                if r < row {
                    assert(r * (cycles * 2) + c * 2 + channel < row * (cycles * 2))
                        by (nonlinear_arith)
                        requires
                            0 <= r < row,
                            0 <= c < cycles,
                            0 <= channel < 2,
                    ;
                    assert(0 <= r * (cycles * 2)) by (nonlinear_arith)
                        requires
                            0 <= r,
                            0 <= cycles,
                    ;
                    assert(packed@[r * (cycles * 2) + c * 2 + channel] == before[r * (cycles * 2)
                        + c * 2 + channel]);
                } else if c < cycle {
                    assert(packed@[r * (cycles * 2) + c * 2 + channel] == before[r * (cycles * 2)
                        + c * 2 + channel]);
                }
            }
            cycle += 1;
        }
        assert((row + 1) * (cycles * 2) == row * (cycles * 2) + cycles * 2) by (nonlinear_arith);
        row += 1;
    }
    packed
}

/// Eight neighboring lanes of packed rows: the sums of four periods' stereo frames.
fn convolve_lanes<A: Arithmetic>(
    arithmetic: &A,
    rows: &[u64],
    weights: &[u64],
    width: usize,
    first: usize,
) -> (sums: [u64; 8])
    requires
        0 < width,
        first + 8 <= width,
        weights@.len() * width <= rows@.len(),
    ensures
        forall|model: Model, i: int|
            #![trigger follows(arithmetic, model), sums[i]]
            follows(arithmetic, model) && 0 <= i < 8 ==> sums[i] == dot(
                model,
                lane(rows@, width as int, first + i),
                weights@,
                weights@.len(),
            ),
{
    let mut sums: [u64; 8] = [ZERO_BITS; 8];
    let mut tap: usize = 0;
    while tap < weights.len()
        invariant
            tap <= weights@.len(),
            0 < width,
            first + 8 <= width,
            weights@.len() * width <= rows@.len(),
            forall|model: Model, i: int|
                #![trigger follows(arithmetic, model), sums[i]]
                follows(arithmetic, model) && 0 <= i < 8 ==> sums[i] == dot(
                    model,
                    lane(rows@, width as int, first + i),
                    weights@,
                    tap as nat,
                ),
        decreases weights@.len() - tap,
    {
        let weight: u64 = weights[tap];
        assert(tap * width + width <= rows@.len()) by (nonlinear_arith)
            requires
                tap + 1 <= weights@.len(),
                weights@.len() * width <= rows@.len(),
        ;
        assert(rows.len() == rows@.len());
        assert(0 <= tap * width) by (nonlinear_arith);
        assert(tap < rows@.len() as int / width as int) by (nonlinear_arith)
            requires
                tap * width + width <= rows@.len(),
                0 < width,
        ;
        let base: usize = tap * width + first;
        let part: &[u64] = slice_subrange(rows, base, base + 8);
        let ghost before = sums;
        sums = [
            multiply_add(arithmetic, sums[0], part[0], weight),
            multiply_add(arithmetic, sums[1], part[1], weight),
            multiply_add(arithmetic, sums[2], part[2], weight),
            multiply_add(arithmetic, sums[3], part[3], weight),
            multiply_add(arithmetic, sums[4], part[4], weight),
            multiply_add(arithmetic, sums[5], part[5], weight),
            multiply_add(arithmetic, sums[6], part[6], weight),
            multiply_add(arithmetic, sums[7], part[7], weight),
        ];
        assert forall|model: Model, k: int|
            #![trigger follows(arithmetic, model), sums[k]]
            follows(arithmetic, model) && 0 <= k < 8 implies sums[k] == dot(
            model,
            lane(rows@, width as int, first + k),
            weights@,
            (tap + 1) as nat,
        ) by {
            let taken = lane(rows@, width as int, first + k);
            assert(before[k] == dot(model, taken, weights@, tap as nat));
            assert(taken[tap as int] == rows@[tap * width + (first + k)]);
            assert(part@[k] == rows@[base + k]);
            assert(k == 0 || k == 1 || k == 2 || k == 3 || k == 4 || k == 5 || k == 6 || k == 7);
        }
        tap += 1;
    }
    sums
}

/// One fractional phase of `cycles` periods: the sums of each period's stereo frame,
/// from packed rows and the phase's coefficients.
pub fn convolve_phase<A: Arithmetic>(
    arithmetic: &A,
    rows: &[u64],
    weights: &[u64],
    cycles: usize,
) -> (sums: Vec<u64>)
    requires
        0 < cycles <= 0x1000,
        cycles % 4 == 0,
        weights@.len() * (cycles * 2) <= rows@.len(),
    ensures
        sums@.len() == cycles * 2,
        forall|model: Model, i: int|
            #![trigger follows(arithmetic, model), sums@[i]]
            follows(arithmetic, model) && 0 <= i < cycles * 2 ==> sums@[i] == dot(
                model,
                lane(rows@, cycles * 2, i),
                weights@,
                weights@.len(),
            ),
{
    let width: usize = cycles * 2;
    let mut sums: Vec<u64> = Vec::new();
    let mut first: usize = 0;
    while first < width
        invariant
            first <= width,
            first % 8 == 0,
            0 < width == cycles * 2 <= 0x2000,
            width % 8 == 0,
            weights@.len() * width <= rows@.len(),
            sums@.len() == first,
            forall|model: Model, i: int|
                #![trigger follows(arithmetic, model), sums@[i]]
                follows(arithmetic, model) && 0 <= i < first ==> sums@[i] == dot(
                    model,
                    lane(rows@, width as int, i),
                    weights@,
                    weights@.len(),
                ),
        decreases width - first,
    {
        let lanes: [u64; 8] = convolve_lanes(arithmetic, rows, weights, width, first);
        let ghost before = sums@;
        sums.extend_from_slice(&lanes);
        assert forall|model: Model, i: int|
            #![trigger follows(arithmetic, model), sums@[i]]
            follows(arithmetic, model) && 0 <= i < first + 8 implies sums@[i] == dot(
            model,
            lane(rows@, width as int, i),
            weights@,
            weights@.len(),
        ) by {
            if i < first {
                assert(sums@[i] == before[i]);
            } else {
                assert(sums@[i] == lanes[i - first]);
            }
        }
        first += 8;
    }
    sums
}

} // verus!
