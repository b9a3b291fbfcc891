//! What a stream of blocks is converted to, as mathematics.
//!
//! Positions count input frames in units of one over the reduced output-rate
//! denominator, so that every output frame lies at an integer position: the `k`-th one
//! of a stream at `k * step_num`.

use vstd::arithmetic::div_mod::{
    lemma_div_is_ordered, lemma_div_pos_is_pos, lemma_fundamental_div_mod,
    lemma_fundamental_div_mod_converse,
};
use vstd::prelude::*;

use crate::arithmetic::{
    dot, interpolate_of, phase_fraction_of, reflect_of, roughness_blend_of, Model, ZERO_BITS,
};
use crate::design::{
    ceil_div, INTERPOLATED_PHASES, MAX_COEFFICIENT_VALUES, MAX_EXACT_PHASES, MAX_TAPS,
};

verus! {

/// Last frames of a channel that decide how it continues past its end.
pub const WINDOW_FRAMES: i64 = 64;

/// Largest number of retained samples for which endpoint padding is prepared.
pub const MAX_PADDED_INPUT_SAMPLES: usize = 131_072;

/// The constants of one conversion.
#[derive(Clone, Copy, Debug, PartialEq, Eq, Structural)]
pub struct Geometry {
    /// Interleaved channels per frame.
    pub channels: usize,
    /// Phase rows of the coefficient bank, excluding its final interpolation row.
    pub phases: usize,
    /// Coefficients in each phase row.
    pub taps: usize,
    /// Reduced input rate: how far one output frame advances.
    pub step_num: u32,
    /// Reduced output rate: how many positions lie between two input frames.
    pub step_den: u32,
}

impl Geometry {
    /// An odd filter within the resource limits, whose phase rows are either the exact
    /// fractional positions or the fixed number to interpolate between.
    pub open spec fn valid(self) -> bool {
        &&& 0 < self.channels
        &&& 0 < self.taps <= MAX_TAPS
        &&& self.taps % 2 == 1
        &&& 0 < self.phases <= MAX_EXACT_PHASES
        &&& (self.phases + 1) * self.taps <= MAX_COEFFICIENT_VALUES
        &&& 0 < self.step_num
        &&& 0 < self.step_den
        &&& self.exact() || self.phases == INTERPOLATED_PHASES
    }

    /// Every fractional position has its own phase row.
    pub open spec fn exact(self) -> bool {
        self.phases == self.step_den
    }

    /// Centered lookahead in input frames.
    pub open spec fn half(self) -> int {
        self.taps as int / 2
    }

    /// Values in the coefficient bank: the phase rows and the interpolation row.
    pub open spec fn bank_len(self) -> nat {
        ((self.phases + 1) * self.taps) as nat
    }

    /// The input frame at or before a position.
    pub open spec fn frame_at(self, position: int) -> int {
        position / (self.step_den as int)
    }

    /// The fraction of a position past its input frame, over `step_den`.
    pub open spec fn phase_at(self, position: int) -> int {
        position % (self.step_den as int)
    }

    /// The phase row at or before a position.
    pub open spec fn row_at(self, position: int) -> int {
        if self.exact() {
            self.phase_at(position)
        } else {
            self.phase_at(position) * self.phases / (self.step_den as int)
        }
    }

    /// Complete frames among some samples.
    pub open spec fn frames(self, samples: Seq<u64>) -> int {
        samples.len() as int / self.channels as int
    }

    /// An output frame at `position` can be emitted once `total` input frames arrived:
    /// its lookahead is there, or the stream ends and its input frame is there.
    pub open spec fn ready(self, position: int, total: int, end_of_stream: bool) -> bool {
        self.frame_at(position) < total - if end_of_stream {
            0
        } else {
            self.half()
        }
    }

    /// Every tap of the output frame at `position` falls on retained input.
    pub open spec fn buffered(self, position: int, first: int, total: int) -> bool {
        first <= self.frame_at(position) - self.half() && self.frame_at(position) + self.half()
            < total
    }
}

/// The filter coefficient of a tap for the output frame at `position`.
pub open spec fn weight(model: Model, g: Geometry, bank: Seq<u64>, position: int, tap: int) -> u64 {
    let row = g.row_at(position);
    if g.exact() {
        bank[row * g.taps + tap]
    } else {
        interpolate_of(
            model,
            bank[row * g.taps + tap],
            bank[(row + 1) * g.taps + tap],
            row_fraction(model, g, position),
        )
    }
}

/// How far a position lies past the phase row below it.
pub open spec fn row_fraction(model: Model, g: Geometry, position: int) -> u64 {
    phase_fraction_of(
        model,
        g.phase_at(position) as u32,
        g.step_den,
        g.phases,
        g.row_at(position) as usize,
    )
}

/// The samples of one channel in a range of frames.
pub open spec fn channel_window(
    g: Geometry,
    history: Seq<u64>,
    from: int,
    to: int,
    channel: int,
) -> Seq<u64> {
    Seq::new((to - from) as nat, |i: int| history[(from + i) * g.channels + channel])
}

/// How much of the odd reflection continues a channel past its end: decided by its last
/// [`WINDOW_FRAMES`] frames, or by all that are there, and none for fewer than three.
///
/// Streams retain those frames as long as they go on: see [`retained_from`].
pub open spec fn tail_blend_of(
    model: Model,
    g: Geometry,
    history: Seq<u64>,
    first: int,
    channel: int,
) -> u64 {
    let total = g.frames(history);
    if total - first <= 2 {
        ZERO_BITS
    } else {
        roughness_blend_of(
            model,
            channel_window(
                g,
                history,
                if total - WINDOW_FRAMES < first {
                    first
                } else {
                    total - WINDOW_FRAMES
                },
                total,
                channel,
            ),
        )
    }
}

/// A sample of the input continued past both ends of the retained frames: by odd
/// reflection about the first one, and by a blend of mirroring and odd reflection about
/// the last one. Reflected frames stop at the opposite end.
pub open spec fn continued(
    model: Model,
    g: Geometry,
    history: Seq<u64>,
    first: int,
    frame: int,
    channel: int,
    blend: u64,
) -> u64 {
    let total = g.frames(history);
    let last = total - 1;
    if total <= first {
        ZERO_BITS
    } else if first <= frame < total {
        history[frame * g.channels + channel]
    } else if frame < first {
        let mirror = if first + (first - frame) < last {
            first + (first - frame)
        } else {
            last
        };
        reflect_of(
            model,
            history[first * g.channels + channel],
            history[mirror * g.channels + channel],
        )
    } else {
        let mirror = if last - (frame - last) > first {
            last - (frame - last)
        } else {
            first
        };
        let mirrored = history[mirror * g.channels + channel];
        interpolate_of(
            model,
            mirrored,
            reflect_of(
            model,history[last * g.channels + channel], mirrored),
            blend,
        )
    }
}

/// The continued samples of one channel under the taps of the output frame at `position`.
pub open spec fn tap_samples(
    model: Model,
    g: Geometry,
    history: Seq<u64>,
    first: int,
    position: int,
    channel: int,
) -> Seq<u64> {
    Seq::new(
        g.taps as nat,
        |tap: int|
            continued(
                model,
                g,
                history,
                first,
                g.frame_at(position) + tap - g.half(),
                channel,
                tail_blend_of(model, g, history, first, channel),
            ),
    )
}

/// The filter coefficients of the output frame at `position`.
pub open spec fn tap_weights(model: Model, g: Geometry, bank: Seq<u64>, position: int) -> Seq<u64> {
    Seq::new(g.taps as nat, |tap: int| weight(model, g, bank, position, tap))
}

/// One channel of the output frame at `position`, from the input so far and the first
/// input frame still retained.
pub open spec fn output_sample(
    model: Model,
    g: Geometry,
    bank: Seq<u64>,
    history: Seq<u64>,
    first: int,
    position: int,
    channel: int,
) -> u64 {
    dot(
        model,
        tap_samples(model, g, history, first, position, channel),
        tap_weights(model, g, bank, position),
        g.taps as nat,
    )
}

/// `count` interleaved output frames from `position` on.
pub open spec fn rendered(
    model: Model,
    g: Geometry,
    bank: Seq<u64>,
    history: Seq<u64>,
    first: int,
    position: int,
    count: nat,
) -> Seq<u64> {
    Seq::new(
        count * g.channels as nat,
        |i: int|
            output_sample(
                model,
                g,
                bank,
                history,
                first,
                position + (i / g.channels as int) * g.step_num,
                i % g.channels as int,
            ),
    )
}

/// A stream between two blocks.
pub struct StreamState {
    /// Every sample accepted since the stream began, interleaved.
    pub history: Seq<u64>,
    /// The first input frame that is still retained.
    pub first: int,
    /// Position of the next output frame.
    pub position: int,
}

/// A stream before its first block.
pub open spec fn fresh_state() -> StreamState {
    StreamState { history: Seq::empty(), first: 0, position: 0 }
}

/// Endpoint padding is prepared for a call: stereo frames are due that reach past the
/// retained input, and not too much of it is retained.
pub open spec fn pads(g: Geometry, total: int, first: int, position: int, end_of_stream: bool) -> bool {
    &&& g.channels == 2
    &&& 2 * (total - first) <= MAX_PADDED_INPUT_SAMPLES
    &&& g.ready(position, total, end_of_stream)
    &&& end_of_stream || g.frame_at(position) - g.half() < first
}

/// Output frames that the next step emits: a tile of `periods` rational periods, four
/// stereo frames, a single frame, or none.
///
/// While the stream runs, tiles wait for all of their input; nothing else waits for
/// more than the lookahead.
pub open spec fn step_frames(
    g: Geometry,
    periods: nat,
    total: int,
    first: int,
    end_of_stream: bool,
    padded: bool,
    position: int,
) -> nat {
    let tile = periods * g.step_den as nat;
    let fourth = position + 3 * g.step_num;
    if !g.ready(position, total, end_of_stream) {
        0
    } else if periods > 0 && g.buffered(position, first, total) && g.frame_at(
        position + (tile - 1) * g.step_num,
    ) + g.half() < total {
        tile
    } else if periods > 0 && g.buffered(position, first, total) && !end_of_stream {
        0
    } else if g.channels == 2 && g.ready(fourth, total, end_of_stream) && (padded || (g.buffered(
        position,
        first,
        total,
    ) && g.buffered(fourth, first, total))) {
        4
    } else {
        1
    }
}

/// A step moves ahead, and starts before the end of the input.
pub proof fn lemma_steps_advance(
    g: Geometry,
    periods: nat,
    total: int,
    first: int,
    end_of_stream: bool,
    padded: bool,
    position: int,
)
    requires
        g.valid(),
        step_frames(g, periods, total, first, end_of_stream, padded, position) > 0,
    ensures
        position < total * g.step_den,
        step_frames(g, periods, total, first, end_of_stream, padded, position) * g.step_num >= 1,
{
    let frames = step_frames(g, periods, total, first, end_of_stream, padded, position);
    lemma_fundamental_div_mod(position, g.step_den as int);
    assert(position < total * g.step_den) by (nonlinear_arith)
        requires
            position == g.step_den * (position / (g.step_den as int)) + position % (
            g.step_den as int),
            position % (g.step_den as int) < g.step_den,
            position / (g.step_den as int) < total,
            g.step_den > 0,
    ;
    assert(frames * g.step_num >= 1) by (nonlinear_arith)
        requires
            frames >= 1,
            g.step_num >= 1,
    ;
}

/// Where a call stops emitting.
pub open spec fn run_end(
    g: Geometry,
    periods: nat,
    total: int,
    first: int,
    end_of_stream: bool,
    padded: bool,
    position: int,
) -> int
    decreases
        if position < total * g.step_den {
            total * g.step_den - position
        } else {
            0
        },
    when g.valid()
{
    let frames = step_frames(g, periods, total, first, end_of_stream, padded, position);
    if frames == 0 {
        position
    } else {
        proof {
            lemma_steps_advance(g, periods, total, first, end_of_stream, padded, position);
        }
        run_end(
            g,
            periods,
            total,
            first,
            end_of_stream,
            padded,
            position + frames * g.step_num,
        )
    }
}

/// The first input frame retained after a call that stopped at `position`: the frames under
/// the next output, and the last [`WINDOW_FRAMES`] frames, stay.
pub open spec fn retained_from(
    g: Geometry,
    total: int,
    first: int,
    end_of_stream: bool,
    position: int,
) -> int {
    let under_taps = g.frame_at(position) - g.half() - 1;
    let wanted = if under_taps < total - WINDOW_FRAMES {
        under_taps
    } else {
        total - WINDOW_FRAMES
    };
    if end_of_stream {
        total
    } else if wanted < first {
        first
    } else {
        wanted
    }
}

/// Where a stream stops emitting when it is given a block.
pub open spec fn block_end(
    g: Geometry,
    periods: nat,
    state: StreamState,
    input: Seq<u64>,
    end_of_stream: bool,
) -> int {
    let total = g.frames(state.history + input);
    run_end(
        g,
        periods,
        total,
        state.first,
        end_of_stream,
        pads(g, total, state.first, state.position, end_of_stream),
        state.position,
    )
}

/// A stream after a block.
pub open spec fn after_block(
    g: Geometry,
    periods: nat,
    state: StreamState,
    input: Seq<u64>,
    end_of_stream: bool,
) -> StreamState {
    let history = state.history + input;
    let end = block_end(g, periods, state, input, end_of_stream);
    StreamState {
        history,
        first: retained_from(g, g.frames(history), state.first, end_of_stream, end),
        position: end,
    }
}

/// Output frames that a block brings.
pub open spec fn block_frames(
    g: Geometry,
    periods: nat,
    state: StreamState,
    input: Seq<u64>,
    end_of_stream: bool,
) -> nat {
    ((block_end(g, periods, state, input, end_of_stream) - state.position) / (
    g.step_num as int)) as nat
}

/// Output samples that a block brings.
pub open spec fn block_output(
    model: Model,
    g: Geometry,
    bank: Seq<u64>,
    periods: nat,
    state: StreamState,
    input: Seq<u64>,
    end_of_stream: bool,
) -> Seq<u64> {
    rendered(
        model,
        g,
        bank,
        state.history + input,
        state.first,
        state.position,
        block_frames(g, periods, state, input, end_of_stream),
    )
}

/// Positions from a source frame and phase on.
pub proof fn lemma_position(g: Geometry, source: int, phase: int, ahead: int)
    requires
        g.valid(),
        0 <= phase,
        0 <= ahead,
    ensures
        g.frame_at(source * g.step_den + phase + ahead * g.step_num) == source + (phase + ahead
            * g.step_num) / (g.step_den as int),
        g.phase_at(source * g.step_den + phase + ahead * g.step_num) == (phase + ahead * g.step_num)
            % (g.step_den as int),
        0 <= (phase + ahead * g.step_num) / (g.step_den as int),
        0 <= (phase + ahead * g.step_num) % (g.step_den as int) < g.step_den,
{
    let den = g.step_den as int;
    let offset = phase + ahead * g.step_num;
    assert(0 <= offset) by (nonlinear_arith)
        requires
            0 <= phase,
            0 <= ahead,
            offset == phase + ahead * g.step_num,
    ;
    lemma_fundamental_div_mod(offset, den);
    lemma_div_pos_is_pos(offset, den);
    assert(source * den + offset == (source + offset / den) * den + offset % den)
        by (nonlinear_arith)
        requires
            offset == den * (offset / den) + offset % den,
    ;
    lemma_fundamental_div_mod_converse(
        source * den + offset,
        den,
        source + offset / den,
        offset % den,
    );
}

/// Later positions lie in the same or in later frames.
pub proof fn lemma_frames_ascend(g: Geometry, position: int, later: int)
    requires
        g.valid(),
        position <= later,
    ensures
        g.frame_at(position) <= g.frame_at(later),
{
    lemma_div_is_ordered(position, later, g.step_den as int);
}

/// Output frames follow one another.
pub proof fn lemma_rendered_follows(
    model: Model,
    g: Geometry,
    bank: Seq<u64>,
    history: Seq<u64>,
    first: int,
    position: int,
    count: nat,
    more: nat,
)
    requires
        g.valid(),
    ensures
        rendered(model, g, bank, history, first, position, count) + rendered(
            model,
            g,
            bank,
            history,
            first,
            position + count * g.step_num,
            more,
        ) == rendered(model, g, bank, history, first, position, count + more),
{
    let c = g.channels as int;
    let head = rendered(model, g, bank, history, first, position, count);
    let rest = rendered(model, g, bank, history, first, position + count * g.step_num, more);
    let whole = rendered(model, g, bank, history, first, position, count + more);
    assert((count + more) * g.channels as nat == count * g.channels as nat + more
        * g.channels as nat) by (nonlinear_arith);
    assert forall|i: int| 0 <= i < whole.len() implies whole[i] == (head + rest)[i] by {
        if i >= head.len() {
            let j = i - head.len();
            lemma_fundamental_div_mod(j, c);
            assert(i == (count + j / c) * c + j % c) by (nonlinear_arith)
                requires
                    j == c * (j / c) + j % c,
                    i == j + count * c,
            ;
            lemma_fundamental_div_mod_converse(i, c, count + j / c, j % c);
            assert((count + j / c) * g.step_num == count * g.step_num + (j / c) * g.step_num)
                by (nonlinear_arith);
            assert(whole[i] == rest[j]);
        }
    }
    assert(head + rest =~= whole);
}

/// Positions before this one are due once `total` input frames arrived.
pub open spec fn due_limit(g: Geometry, total: int, end_of_stream: bool) -> int {
    (total - if end_of_stream {
        0
    } else {
        g.half()
    }) * g.step_den
}

/// Output frames from `position` on that are due once `total` input frames arrived.
pub open spec fn due_frames(g: Geometry, total: int, end_of_stream: bool, position: int) -> nat {
    if position < due_limit(g, total, end_of_stream) {
        ceil_div((due_limit(g, total, end_of_stream) - position) as nat, g.step_num as nat)
    } else {
        0
    }
}

/// Frames are ready exactly before the limit.
pub proof fn lemma_ready(g: Geometry, position: int, total: int, end_of_stream: bool)
    requires
        g.valid(),
    ensures
        g.ready(position, total, end_of_stream) <==> position < due_limit(g, total, end_of_stream),
{
    let den = g.step_den as int;
    let frames = total - if end_of_stream {
        0
    } else {
        g.half()
    };
    lemma_fundamental_div_mod(position, den);
    assert(position / den < frames <==> position < frames * den) by (nonlinear_arith)
        requires
            position == den * (position / den) + position % den,
            0 <= position % den < den,
    ;
}

/// A due frame is followed by one frame less.
pub proof fn lemma_due_step(g: Geometry, total: int, end_of_stream: bool, position: int)
    requires
        g.valid(),
        g.ready(position, total, end_of_stream),
    ensures
        due_frames(g, total, end_of_stream, position) == 1 + due_frames(
            g,
            total,
            end_of_stream,
            position + g.step_num,
        ),
{
    lemma_ready(g, position, total, end_of_stream);
    let num = g.step_num as int;
    let left = due_limit(g, total, end_of_stream) - position;
    if left <= num {
        lemma_fundamental_div_mod_converse(left + num - 1, num, 1, left - 1);
    } else {
        lemma_fundamental_div_mod(left - 1, num);
        assert(left + num - 1 == (1 + (left - 1) / num) * num + (left - 1) % num)
            by (nonlinear_arith)
            requires
                left - 1 == num * ((left - 1) / num) + (left - 1) % num,
        ;
        lemma_fundamental_div_mod_converse(
            left + num - 1,
            num,
            1 + (left - 1) / num,
            (left - 1) % num,
        );
    }
}

/// Streams without tiles emit every frame as soon as it is due, whatever else decides
/// how many frames are computed together.
pub proof fn law_untiled_streams_emit_every_due_frame(
    g: Geometry,
    total: int,
    first: int,
    end_of_stream: bool,
    padded: bool,
    position: int,
)
    requires
        g.valid(),
    ensures
        run_end(g, 0, total, first, end_of_stream, padded, position) == position + due_frames(
            g,
            total,
            end_of_stream,
            position,
        ) * g.step_num,
    decreases
            if position < total * g.step_den {
                total * g.step_den - position
            } else {
                0
            },
{
    let num = g.step_num as int;
    let frames = step_frames(g, 0, total, first, end_of_stream, padded, position);
    let due = due_frames(g, total, end_of_stream, position);
    lemma_ready(g, position, total, end_of_stream);
    if frames == 0 {
        assert(0nat * g.step_num == 0) by (nonlinear_arith);
    } else {
        lemma_steps_advance(g, 0, total, first, end_of_stream, padded, position);
        lemma_due_step(g, total, end_of_stream, position);
        if frames == 4 {
            lemma_ready(g, position + 3 * num, total, end_of_stream);
            lemma_ready(g, position + 2 * num, total, end_of_stream);
            lemma_ready(g, position + num, total, end_of_stream);
            lemma_due_step(g, total, end_of_stream, position + num);
            lemma_due_step(g, total, end_of_stream, position + 2 * num);
            lemma_due_step(g, total, end_of_stream, position + 3 * num);
        }
        law_untiled_streams_emit_every_due_frame(
            g,
            total,
            first,
            end_of_stream,
            padded,
            position + frames * num,
        );
        let rest = due_frames(g, total, end_of_stream, position + frames * num);
        assert(due == frames + rest);
        assert(position + frames * num + rest * num == position + due * num) by (nonlinear_arith)
            requires
                due == frames + rest,
        ;
    }
}

} // verus!
