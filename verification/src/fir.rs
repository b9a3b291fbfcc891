//! Streaming state of one filtered conversion.
//!
//! A block of input is appended to the retained frames, every output frame that is due
//! is emitted, and frames that no later output needs are dropped. Stereo output is
//! emitted four frames at a time where that many are ready, and streams with a tile
//! layout emit whole tiles of rational periods.

use std::sync::Arc;

use vstd::arithmetic::div_mod::{
    lemma_div_is_ordered, lemma_div_pos_is_pos, lemma_fundamental_div_mod,
    lemma_fundamental_div_mod_converse,
};
use vstd::prelude::*;
use vstd::slice::slice_subrange;

use crate::arithmetic::{
    dot, follows, interpolate, multiply_add, phase_fraction, reflect, roughness_blend, Arithmetic,
    Model, ZERO_BITS,
};
use crate::backend::{periods_of, PhaseBatchBackend, MAX_BATCH_SCRATCH_BYTES};
use crate::design::{
    ceil_div, divide_up, gcd, gcd_of, lemma_gcd_positive, Design, MAX_COEFFICIENT_VALUES,
    MAX_EXACT_PHASES,
};
use crate::kernels::{
    blended, common_interpolated_taps, common_taps, convolve_interpolated_stereo, convolve_phase,
    convolve_stereo_batch, covered_taps, lane, pack_phase_tile, packed_sample,
};
use crate::stream::{
    after_block, block_frames, block_output, channel_window, continued, fresh_state,
    law_untiled_streams_emit_every_due_frame, lemma_frames_ascend, lemma_position,
    lemma_rendered_follows, lemma_steps_advance, output_sample, pads, rendered, retained_from,
    row_fraction, run_end, step_frames, tail_blend_of, tap_samples, tap_weights, weight, Geometry,
    StreamState, MAX_PADDED_INPUT_SAMPLES, WINDOW_FRAMES,
};

verus! {

/// Most input frames of one stream: room is left for mirrored endpoint frames and for a
/// final rational step.
pub const MAX_STREAM_FRAMES: i64 = 4_611_686_014_132_355_071;

/// Tiles are used for stereo streams with exact phases, within the memory limit.
pub open spec fn tile_fits(g: Geometry, backend: PhaseBatchBackend) -> bool {
    periods_of(backend) > 0 ==> {
        &&& g.channels == 2
        &&& g.exact()
        &&& (g.taps + g.step_num) * periods_of(backend) * 16 + 64 <= MAX_BATCH_SCRATCH_BYTES
    }
}

/// The constants of a conversion between two rates.
pub open spec fn geometry_of(
    channels: usize,
    from_rate: u32,
    to_rate: u32,
    design: Design,
) -> Geometry {
    let divisor = gcd_of(from_rate as nat, to_rate as nat);
    Geometry {
        channels,
        phases: design.phases,
        taps: design.taps,
        step_num: (from_rate as nat / divisor) as u32,
        step_den: (to_rate as nat / divisor) as u32,
    }
}

/// Output frames reserved for a block.
pub open spec fn estimated_frames(g: Geometry, input_frames: nat) -> nat {
    ceil_div(input_frames * g.step_den as nat, g.step_num as nat) + 4
}

/// `samples` are what `arithmetic` makes of narrow samples.
pub open spec fn promotes<A: Arithmetic>(
    arithmetic: &A,
    input: Seq<u32>,
    samples: Seq<u64>,
) -> bool {
    &&& samples.len() == input.len()
    &&& forall|i: int|
        0 <= i < input.len() ==> call_ensures(
            A::promote,
            (arithmetic, input[i]),
            #[trigger] samples[i],
        )
}

/// Samples of narrow samples.
pub open spec fn promoted(model: Model, input: Seq<u32>) -> Seq<u64> {
    Seq::new(input.len(), |i: int| (model.promote)(input[i]))
}

/// Narrow samples of samples.
pub open spec fn narrowed(model: Model, samples: Seq<u64>) -> Seq<u32> {
    Seq::new(samples.len(), |i: int| (model.narrow)(samples[i]))
}

/// Samples that follow a model are those of the model.
proof fn lemma_promoted<A: Arithmetic>(
    arithmetic: &A,
    model: Model,
    input: Seq<u32>,
    samples: Seq<u64>,
)
    requires
        follows(arithmetic, model),
        promotes(arithmetic, input, samples),
    ensures
        samples == promoted(model, input),
{
    assert forall|i: int| 0 <= i < input.len() implies samples[i] == promoted(model, input)[i] by {
        assert(call_ensures(A::promote, (arithmetic, input[i]), samples[i]));
    }
    assert(samples =~= promoted(model, input));
}

/// Promote a block of narrow samples.
fn promote_all<A: Arithmetic>(arithmetic: &A, input: &[u32]) -> (samples: Vec<u64>)
    ensures
        promotes(arithmetic, input@, samples@),
{
    let mut samples: Vec<u64> = Vec::new();
    let mut i: usize = 0;
    while i < input.len()
        invariant
            i <= input@.len(),
            samples@.len() == i,
            forall|k: int|
                0 <= k < i ==> call_ensures(
                    A::promote,
                    (arithmetic, input@[k]),
                    #[trigger] samples@[k],
                ),
        decreases input@.len() - i,
    {
        samples.push(arithmetic.promote(input[i]));
        i += 1;
    }
    samples
}

/// Narrow samples.
fn narrow_all<A: Arithmetic>(arithmetic: &A, samples: &[u64]) -> (output: Vec<u32>)
    ensures
        output@.len() == samples@.len(),
        forall|model: Model| #[trigger]
            follows(arithmetic, model) ==> output@ == narrowed(model, samples@),
{
    let mut output: Vec<u32> = Vec::new();
    let mut i: usize = 0;
    while i < samples.len()
        invariant
            i <= samples@.len(),
            output@.len() == i,
            forall|model: Model, k: int|
                #![trigger follows(arithmetic, model), output@[k]]
                follows(arithmetic, model) && 0 <= k < i ==> output@[k] == (model.narrow)(
                    samples@[k],
                ),
        decreases samples@.len() - i,
    {
        output.push(arithmetic.narrow(samples[i]));
        i += 1;
    }
    assert forall|model: Model| #[trigger] follows(arithmetic, model) implies output@ == narrowed(
        model,
        samples@,
    ) by {
        assert(output@ =~= narrowed(model, samples@));
    }
    output
}

/// An empty stream has no frames.
proof fn lemma_empty_stream(g: Geometry)
    requires
        g.valid(),
    ensures
        g.frames(Seq::empty()) == 0,
{
    lemma_fundamental_div_mod_converse(0, g.channels as int, 0, 0);
}

/// Stereo input continued past the retained frames, prepared for one call.
pub struct Padding {
    values: Vec<u64>,
    // Input frame of values[0].
    start: i64,
}

/// Position of a stream: how far its output has come, and the input that is retained.
pub struct Fir {
    geometry: Geometry,
    coeffs: Arc<Vec<u64>>,
    // Retained input frames, with interleaved channels.
    buffer: Vec<u64>,
    // Input frame of buffer[0].
    buffer_start_frame: i64,
    // The next output lies phase_numer / step_den frames past source_index.
    source_index: i64,
    phase_numer: u32,
    phase_batch_backend: PhaseBatchBackend,
    // Every sample accepted since the stream began.
    history: Ghost<Seq<u64>>,
}

impl Fir {
    /// The constants of the conversion.
    pub closed spec fn geometry(self) -> Geometry {
        self.geometry
    }

    /// Phase-major coefficients.
    pub closed spec fn bank(self) -> Seq<u64> {
        self.coeffs@
    }

    /// The tile layout.
    pub closed spec fn backend(self) -> PhaseBatchBackend {
        self.phase_batch_backend
    }

    /// The stream so far.
    pub closed spec fn state(self) -> StreamState {
        StreamState {
            history: self.history@,
            first: self.buffer_start_frame as int,
            position: self.source_index * self.geometry.step_den + self.phase_numer,
        }
    }

    /// Input frames of the stream so far.
    pub open spec fn total(self) -> int {
        self.geometry().frames(self.state().history)
    }

    /// What holds of every stream between two calls.
    pub closed spec fn wf(self) -> bool {
        &&& self.geometry.valid()
        &&& self.coeffs@.len() == self.geometry.bank_len()
        &&& tile_fits(self.geometry, self.phase_batch_backend)
        &&& self.history@.len() == self.total() * self.geometry.channels
        &&& self.total() <= MAX_STREAM_FRAMES
        &&& 0 <= self.buffer_start_frame <= self.total()
        &&& self.buffer@ == self.history@.skip(self.buffer_start_frame * self.geometry.channels)
        &&& 0 <= self.source_index <= self.total() + u32::MAX
        &&& self.phase_numer < self.geometry.step_den
    }

    /// The stream has moved on by `frames` output frames; nothing else changed.
    pub open spec fn stepped(self, before: Fir, frames: nat) -> bool {
        &&& self.wf()
        &&& self.geometry() == before.geometry()
        &&& self.bank() == before.bank()
        &&& self.backend() == before.backend()
        &&& self.state() == (StreamState {
            position: before.state().position + frames * before.geometry().step_num,
            ..before.state()
        })
    }

    /// `frames` output frames from the current position on.
    pub open spec fn upcoming(self, model: Model, frames: nat) -> Seq<u64> {
        rendered(
            model,
            self.geometry(),
            self.bank(),
            self.state().history,
            self.state().first,
            self.state().position,
            frames,
        )
    }

    /// Prepared padding agrees with the continued input, from the taps of the next output
    /// up to the last frame that an output can need.
    pub closed spec fn padded_by<A: Arithmetic>(
        self,
        arithmetic: &A,
        padding: &Padding,
        end_of_stream: bool,
    ) -> bool {
        &&& self.geometry.channels == 2
        &&& self.supplies(arithmetic, padding.values@, padding.start as int)
        &&& -65_537 <= padding.start <= self.source_index - self.geometry.half()
        &&& padding.start + padding.values@.len() / 2 == self.total() + if end_of_stream {
            self.geometry.taps - self.geometry.half()
        } else {
            0
        }
    }

    /// Everything but the position is the same.
    spec fn same_stream(self, other: Fir) -> bool {
        &&& self.geometry == other.geometry
        &&& self.coeffs == other.coeffs
        &&& self.buffer == other.buffer
        &&& self.buffer_start_frame == other.buffer_start_frame
        &&& self.phase_batch_backend == other.phase_batch_backend
        &&& self.history == other.history
    }

    /// Retained samples are samples of the history.
    proof fn lemma_retained(&self, frame: int, channel: int)
        requires
            self.wf(),
            self.buffer_start_frame <= frame < self.total(),
            0 <= channel < self.geometry.channels,
        ensures
            0 <= (frame - self.buffer_start_frame) * self.geometry.channels + channel
                < self.buffer@.len(),
            self.buffer@[(frame - self.buffer_start_frame) * self.geometry.channels + channel]
                == self.history@[frame * self.geometry.channels + channel],
            self.buffer@.len() == (self.total() - self.buffer_start_frame)
                * self.geometry.channels,
    {
        let c = self.geometry.channels as int;
        let start = self.buffer_start_frame as int;
        let total = self.total();
        assert((frame - start) * c + start * c == frame * c) by (nonlinear_arith);
        assert((total - start) * c + start * c == total * c) by (nonlinear_arith);
        assert(0 <= (frame - start) * c) by (nonlinear_arith)
            requires
                0 <= frame - start,
                0 <= c,
        ;
        assert(frame * c + c <= total * c) by (nonlinear_arith)
            requires
                frame + 1 <= total,
                0 <= c,
        ;
        assert(0 <= start * c) by (nonlinear_arith)
            requires
                0 <= start,
                0 <= c,
        ;
    }

    /// How many samples are retained.
    proof fn lemma_buffer_len(&self)
        requires
            self.wf(),
        ensures
            self.buffer@.len() == (self.total() - self.buffer_start_frame)
                * self.geometry.channels,
            self.buffer@.len() as int / self.geometry.channels as int == self.total()
                - self.buffer_start_frame,
    {
        let c = self.geometry.channels as int;
        let start = self.buffer_start_frame as int;
        let total = self.total();
        assert((total - start) * c + start * c == total * c) by (nonlinear_arith);
        assert(start * c <= total * c) by (nonlinear_arith)
            requires
                start <= total,
                0 <= c,
        ;
        assert(0 <= start * c) by (nonlinear_arith)
            requires
                0 <= start,
                0 <= c,
        ;
        lemma_fundamental_div_mod_converse(self.buffer@.len() as int, c, total - start, 0);
    }

    /// Where the next output lies.
    proof fn lemma_here(&self)
        requires
            self.wf(),
        ensures
            self.geometry.frame_at(self.state().position) == self.source_index,
            self.geometry.phase_at(self.state().position) == self.phase_numer,
    {
        let den = self.geometry.step_den as int;
        let phase = self.phase_numer as int;
        lemma_position(self.geometry, self.source_index as int, phase, 0);
        lemma_fundamental_div_mod_converse(phase, den, 0, phase);
    }

    /// Total input frames.
    fn total_frames(&self) -> (total: i64)
        requires
            self.wf(),
        ensures
            total == self.total(),
    {
        proof {
            self.lemma_buffer_len();
        }
        let retained: usize = self.buffer.len() / self.geometry.channels;
        self.buffer_start_frame + retained as i64
    }

    /// Centered lookahead.
    fn half_taps(&self) -> (half: i64)
        requires
            self.wf(),
        ensures
            half == self.geometry().half(),
    {
        (self.geometry.taps / 2) as i64
    }

    /// Source frame and phase of the next output.
    pub fn current_position(&self) -> (position: (i64, u32))
        requires
            self.wf(),
        ensures
            position.0 == self.geometry().frame_at(self.state().position),
            position.1 == self.geometry().phase_at(self.state().position),
    {
        proof {
            self.lemma_here();
        }
        (self.source_index, self.phase_numer)
    }

    /// Whether the next output is due.
    fn can_emit(&self, total_frames: i64, end_of_stream: bool) -> (due: bool)
        requires
            self.wf(),
            total_frames == self.total(),
        ensures
            due == self.geometry().ready(self.state().position, self.total(), end_of_stream),
    {
        proof {
            self.lemma_here();
        }
        if end_of_stream {
            self.source_index < total_frames
        } else {
            self.source_index + self.half_taps() < total_frames
        }
    }

    /// Move on to the next output.
    fn advance(&mut self)
        requires
            old(self).wf(),
            old(self).source_index < old(self).total(),
        ensures
            final(self).wf(),
            final(self).same_stream(*old(self)),
            final(self).state().position == old(self).state().position
                + old(self).geometry().step_num,
    {
        let den: u64 = self.geometry.step_den as u64;
        let total: u64 = self.phase_numer as u64 + self.geometry.step_num as u64;
        proof {
            lemma_fundamental_div_mod(total as int, den as int);
            assert(total / den <= self.geometry.step_num) by (nonlinear_arith)
                requires
                    total == den * (total / den) + total % den,
                    0 <= total % den,
                    total <= den - 1 + self.geometry.step_num,
                    den >= 1,
                    self.geometry.step_num >= 1,
            ;
            assert((self.source_index + total / den) * den + total % den == self.source_index * den
                + total) by (nonlinear_arith)
                requires
                    total == den * (total / den) + total % den,
            ;
        }
        self.source_index = self.source_index + (total / den) as i64;
        self.phase_numer = (total % den) as u32;
    }

    /// A sample of the input continued past both ends of what is retained.
    fn continued_sample<A: Arithmetic>(
        &self,
        arithmetic: &A,
        total_frames: i64,
        frame: i64,
        channel: usize,
        blend: u64,
    ) -> (sample: u64)
        requires
            self.wf(),
            total_frames == self.total(),
            channel < self.geometry().channels,
            -65_537 <= frame <= self.total() + u32::MAX + 65_537,
        ensures
            forall|model: Model| #[trigger]
                follows(arithmetic, model) ==> sample == continued(
                    model,
                    self.geometry(),
                    self.state().history,
                    self.state().first,
                    frame as int,
                    channel as int,
                    blend,
                ),
    {
        let first: i64 = self.buffer_start_frame;
        if total_frames <= first {
            return ZERO_BITS;
        }
        if first <= frame && frame < total_frames {
            return self.retained_sample(total_frames, frame, channel);
        }
        let last: i64 = total_frames - 1;
        if frame < first {
            let reflected: i64 = first + (first - frame);
            let mirror: i64 = if reflected < last {
                reflected
            } else {
                last
            };
            let edge: u64 = self.retained_sample(total_frames, first, channel);
            let mirrored: u64 = self.retained_sample(total_frames, mirror, channel);
            return reflect(arithmetic, edge, mirrored);
        }
        let reflected: i64 = last - (frame - last);
        let mirror: i64 = if reflected > first {
            reflected
        } else {
            first
        };
        let edge: u64 = self.retained_sample(total_frames, last, channel);
        let mirrored: u64 = self.retained_sample(total_frames, mirror, channel);
        let odd_reflected: u64 = reflect(arithmetic, edge, mirrored);
        interpolate(arithmetic, mirrored, odd_reflected, blend)
    }

    /// A retained sample.
    fn retained_sample(&self, total_frames: i64, frame: i64, channel: usize) -> (sample: u64)
        requires
            self.wf(),
            total_frames == self.total(),
            self.state().first <= frame < total_frames,
            channel < self.geometry().channels,
        ensures
            sample == self.state().history[frame * self.geometry().channels + channel],
    {
        proof {
            assert(self.buffer.len() == self.buffer@.len());
            self.lemma_retained(frame as int, channel as int);
            assert((frame - self.buffer_start_frame) * self.geometry.channels >= 0)
                by (nonlinear_arith)
                requires
                    frame >= self.buffer_start_frame,
            ;
            assert(frame - self.buffer_start_frame <= (frame - self.buffer_start_frame)
                * self.geometry.channels) by (nonlinear_arith)
                requires
                    frame >= self.buffer_start_frame,
                    self.geometry.channels >= 1,
            ;
        }
        let ahead: usize = (frame - self.buffer_start_frame) as usize;
        self.buffer[ahead * self.geometry.channels + channel]
    }

    /// How the end of one channel is continued.
    fn tail_blend<A: Arithmetic>(&self, arithmetic: &A, total_frames: i64, channel: usize) -> (blend:
        u64)
        requires
            self.wf(),
            total_frames == self.total(),
            channel < self.geometry().channels,
        ensures
            forall|model: Model| #[trigger]
                follows(arithmetic, model) ==> blend == tail_blend_of(
                    model,
                    self.geometry(),
                    self.state().history,
                    self.state().first,
                    channel as int,
                ),
    {
        if total_frames - self.buffer_start_frame <= 2 {
            return ZERO_BITS;
        }
        let window_start: i64 = if total_frames - WINDOW_FRAMES < self.buffer_start_frame {
            self.buffer_start_frame
        } else {
            total_frames - WINDOW_FRAMES
        };
        let mut window: Vec<u64> = Vec::new();
        let mut frame: i64 = window_start;
        while frame < total_frames
            invariant
                self.wf(),
                total_frames == self.total(),
                channel < self.geometry().channels,
                self.state().first <= window_start <= frame <= total_frames,
                window@ == channel_window(
                    self.geometry(),
                    self.state().history,
                    window_start as int,
                    frame as int,
                    channel as int,
                ),
            decreases total_frames - frame,
        {
            window.push(self.retained_sample(total_frames, frame, channel));
            frame += 1;
        }
        roughness_blend(arithmetic, &window)
    }

    /// How the end of each channel is continued.
    fn tail_blends<A: Arithmetic>(&self, arithmetic: &A, total_frames: i64) -> (blends: Vec<u64>)
        requires
            self.wf(),
            total_frames == self.total(),
        ensures
            blends@.len() == self.geometry().channels,
            forall|model: Model, channel: int|
                #![trigger follows(arithmetic, model), blends@[channel]]
                follows(arithmetic, model) && 0 <= channel < self.geometry().channels
                    ==> blends@[channel] == tail_blend_of(
                    model,
                    self.geometry(),
                    self.state().history,
                    self.state().first,
                    channel,
                ),
    {
        let mut blends: Vec<u64> = Vec::new();
        let mut channel: usize = 0;
        while channel < self.geometry.channels
            invariant
                self.wf(),
                total_frames == self.total(),
                channel <= self.geometry().channels,
                blends@.len() == channel,
                forall|model: Model, ch: int|
                    #![trigger follows(arithmetic, model), blends@[ch]]
                    follows(arithmetic, model) && 0 <= ch < channel ==> blends@[ch]
                        == tail_blend_of(
                        model,
                        self.geometry(),
                        self.state().history,
                        self.state().first,
                        ch,
                    ),
            decreases self.geometry().channels - channel,
        {
            blends.push(self.tail_blend(arithmetic, total_frames, channel));
            channel += 1;
        }
        blends
    }

    /// A sample of the continued input, as outputs read it.
    spec fn supplied(self, model: Model, frame: int, channel: int) -> u64 {
        continued(
            model,
            self.geometry,
            self.history@,
            self.buffer_start_frame as int,
            frame,
            channel,
            tail_blend_of(
                model,
                self.geometry,
                self.history@,
                self.buffer_start_frame as int,
                channel,
            ),
        )
    }

    /// Stereo samples that agree with the continued input from frame `start` on.
    spec fn supplies<A: Arithmetic>(self, arithmetic: &A, source: Seq<u64>, start: int) -> bool {
        forall|model: Model, frame: int, channel: int|
            #![trigger follows(arithmetic, model), self.supplied(model, frame, channel)]
            follows(arithmetic, model) && start <= frame < start + source.len() / 2 && 0 <= channel
                < 2 ==> source[(frame - start) * 2 + channel] == self.supplied(
                model,
                frame,
                channel,
            )
    }

    /// The retained samples of a stereo stream agree with its continued input.
    proof fn lemma_buffer_supplies<A: Arithmetic>(&self, arithmetic: &A)
        requires
            self.wf(),
            self.geometry.channels == 2,
        ensures
            self.supplies(arithmetic, self.buffer@, self.buffer_start_frame as int),
            self.buffer@.len() / 2 == self.total() - self.buffer_start_frame,
    {
        self.lemma_buffer_len();
        let start = self.buffer_start_frame as int;
        assert forall|model: Model, frame: int, channel: int|
            #![trigger follows(arithmetic, model), self.supplied(model, frame, channel)]
            follows(arithmetic, model) && start <= frame < start + self.buffer@.len() / 2 && 0
                <= channel < 2 implies self.buffer@[(frame - start) * 2 + channel]
            == self.supplied(model, frame, channel) by {
            self.lemma_retained(frame, channel);
        }
    }

    /// The samples under the taps of an output `ahead` frames past the current position.
    fn frame_samples<'a>(&self, source: &'a [u64], start: i64, ahead: u64) -> (samples: &'a [u64])
        requires
            self.wf(),
            ahead <= 3,
            -65_537 <= start,
            start <= self.geometry.frame_at(
                self.state().position + ahead * self.geometry.step_num,
            ) - self.geometry.half(),
            self.geometry.frame_at(self.state().position + ahead * self.geometry.step_num)
                + self.geometry.half() < start + source@.len() / 2,
        ensures
            samples@ == source@.subrange(
                (self.geometry.frame_at(self.state().position + ahead * self.geometry.step_num)
                    - self.geometry.half() - start) * 2,
                (self.geometry.frame_at(self.state().position + ahead * self.geometry.step_num)
                    + self.geometry.half() + 1 - start) * 2,
            ),
    {
        proof {
            lemma_position(
                self.geometry,
                self.source_index as int,
                self.phase_numer as int,
                ahead as int,
            );
            assert(source.len() == source@.len());
            self.lemma_ahead(ahead as int);
        }
        let offset: u64 = self.phase_numer as u64 + ahead * self.geometry.step_num as u64;
        let index: i64 = self.source_index + (offset / self.geometry.step_den as u64) as i64
            - self.half_taps();
        let base: usize = (index - start) as usize * 2;
        slice_subrange(source, base, base + self.geometry.taps * 2)
    }

    /// Clock arithmetic a few frames ahead stays in range.
    proof fn lemma_ahead(&self, ahead: int)
        requires
            self.wf(),
            0 <= ahead <= 32_768,
        ensures
            0 <= ahead * self.geometry.step_num <= 32_768 * 0xffff_ffff,
            0 <= (self.phase_numer + ahead * self.geometry.step_num) / (
            self.geometry.step_den as int) <= 32_769 * 0xffff_ffff,
    {
        let num = self.geometry.step_num as int;
        let den = self.geometry.step_den as int;
        let offset = self.phase_numer + ahead * num;
        assert(0 <= ahead * num <= 32_768 * 0xffff_ffff) by (nonlinear_arith)
            requires
                0 <= ahead <= 32_768,
                0 <= num <= 0xffff_ffff,
        ;
        lemma_fundamental_div_mod(offset, den);
        assert(0 <= offset / den <= offset) by (nonlinear_arith)
            requires
                offset == den * (offset / den) + offset % den,
                0 <= offset % den < den,
                0 <= offset,
                den >= 1,
        ;
    }

    /// One row of coefficients.
    fn bank_row(&self, row: usize) -> (coefficients: &[u64])
        requires
            self.wf(),
            row <= self.geometry.phases,
        ensures
            coefficients@ == self.coeffs@.subrange(
                row * self.geometry.taps,
                (row + 1) * self.geometry.taps,
            ),
            coefficients@.len() == self.geometry.taps,
    {
        proof {
            self.lemma_row(row as int);
        }
        let base: usize = row * self.geometry.taps;
        slice_subrange(self.coeffs.as_slice(), base, base + self.geometry.taps)
    }

    /// Rows lie within the bank.
    proof fn lemma_row(&self, row: int)
        requires
            self.wf(),
            0 <= row <= self.geometry.phases,
        ensures
            0 <= row * self.geometry.taps,
            (row + 1) * self.geometry.taps == row * self.geometry.taps + self.geometry.taps,
            (row + 1) * self.geometry.taps <= self.coeffs@.len() <= MAX_COEFFICIENT_VALUES,
    {
        let taps = self.geometry.taps as int;
        assert(0 <= row * taps) by (nonlinear_arith)
            requires
                0 <= row,
                0 <= taps,
        ;
        assert((row + 1) * taps == row * taps + taps) by (nonlinear_arith);
        assert((row + 1) * taps <= (self.geometry.phases + 1) * taps) by (nonlinear_arith)
            requires
                row <= self.geometry.phases,
                0 <= taps,
        ;
    }

    /// The samples under the taps of an output, taken from stereo samples that agree with
    /// the continued input.
    proof fn lemma_taken<A: Arithmetic>(
        &self,
        arithmetic: &A,
        model: Model,
        source: Seq<u64>,
        start: int,
        position: int,
        channel: int,
    )
        requires
            self.wf(),
            follows(arithmetic, model),
            self.supplies(arithmetic, source, start),
            start <= self.geometry.frame_at(position) - self.geometry.half(),
            self.geometry.frame_at(position) + self.geometry.half() < start + source.len() / 2,
            0 <= channel < 2,
        ensures
            lane(
                source.subrange(
                    (self.geometry.frame_at(position) - self.geometry.half() - start) * 2,
                    (self.geometry.frame_at(position) + self.geometry.half() + 1 - start) * 2,
                ),
                2,
                channel,
            ) == tap_samples(
                model,
                self.geometry,
                self.history@,
                self.buffer_start_frame as int,
                position,
                channel,
            ),
    {
        let frame = self.geometry.frame_at(position);
        let half = self.geometry.half();
        let part = source.subrange((frame - half - start) * 2, (frame + half + 1 - start) * 2);
        let taken = lane(part, 2, channel);
        let wanted = tap_samples(
            model,
            self.geometry,
            self.history@,
            self.buffer_start_frame as int,
            position,
            channel,
        );
        assert(taken.len() == wanted.len());
        assert forall|tap: int| 0 <= tap < wanted.len() implies taken[tap] == wanted[tap] by {
            let sample = self.supplied(model, frame + tap - half, channel);
            assert(taken[tap] == source[(frame + tap - half - start) * 2 + channel]);
        }
        assert(taken =~= wanted);
    }

    /// The coefficients of an output with a phase row of its own.
    proof fn lemma_exact_weights(&self, model: Model, position: int)
        requires
            self.wf(),
            self.geometry.exact(),
        ensures
            0 <= self.geometry.phase_at(position) < self.geometry.phases,
            self.coeffs@.subrange(
                self.geometry.phase_at(position) * self.geometry.taps,
                (self.geometry.phase_at(position) + 1) * self.geometry.taps,
            ) == tap_weights(model, self.geometry, self.coeffs@, position),
    {
        lemma_fundamental_div_mod(position, self.geometry.step_den as int);
        self.lemma_row(self.geometry.phase_at(position));
        assert(self.coeffs@.subrange(
            self.geometry.phase_at(position) * self.geometry.taps,
            (self.geometry.phase_at(position) + 1) * self.geometry.taps,
        ) =~= tap_weights(model, self.geometry, self.coeffs@, position));
    }

    /// Four stereo frames with exact phases, from samples that agree with the input.
    fn convolve_exact_stereo_batch<A: Arithmetic>(
        &self,
        arithmetic: &A,
        source: &[u64],
        start: i64,
    ) -> (sums: [u64; 8])
        requires
            self.wf(),
            self.geometry.channels == 2,
            self.geometry.exact(),
            self.supplies(arithmetic, source@, start as int),
            -65_537 <= start <= self.source_index - self.geometry.half(),
            self.geometry.frame_at(self.state().position + 3 * self.geometry.step_num)
                + self.geometry.half() < start + source@.len() / 2,
        ensures
            forall|model: Model| #[trigger]
                follows(arithmetic, model) ==> sums@ == self.upcoming(model, 4),
    {
        let ghost g = self.geometry;
        let ghost here = self.state().position;
        proof {
            self.lemma_here();
            lemma_frames_ascend(g, here, here + g.step_num);
            lemma_frames_ascend(g, here + g.step_num, here + 2 * g.step_num);
            lemma_frames_ascend(g, here + 2 * g.step_num, here + 3 * g.step_num);
        }
        let samples: [&[u64]; 4] = [
            self.frame_samples(source, start, 0),
            self.frame_samples(source, start, 1),
            self.frame_samples(source, start, 2),
            self.frame_samples(source, start, 3),
        ];
        let coefficients: [&[u64]; 4] = [
            self.bank_row(self.row_ahead(0).1),
            self.bank_row(self.row_ahead(1).1),
            self.bank_row(self.row_ahead(2).1),
            self.bank_row(self.row_ahead(3).1),
        ];
        let sums: [u64; 8] = convolve_stereo_batch(arithmetic, samples, coefficients);
        proof {
            assert forall|k: int| 0 <= k < 4 implies (#[trigger] samples[k])@ == source@.subrange(
                (g.frame_at(here + k * g.step_num) - g.half() - start) * 2,
                (g.frame_at(here + k * g.step_num) + g.half() + 1 - start) * 2,
            ) && samples[k]@.len() == g.taps * 2 && coefficients[k]@ == self.coeffs@.subrange(
                g.phase_at(here + k * g.step_num) * g.taps,
                (g.phase_at(here + k * g.step_num) + 1) * g.taps,
            ) && coefficients[k]@.len() == g.taps by {
                assert(k == 0 || k == 1 || k == 2 || k == 3);
            }
            assert(covered_taps(samples[0]@, coefficients[0]@) == g.taps);
            assert(common_taps(samples, coefficients, g.taps as nat));
            assert forall|model: Model| #[trigger] follows(arithmetic, model) implies sums@
                == self.upcoming(model, 4) by {
                assert forall|i: int| 0 <= i < 8 implies sums@[i] == self.upcoming(model, 4)[i] by {
                    let k = i / 2;
                    let channel = i % 2;
                    let position = here + k * g.step_num;
                    assert(k == 0 || k == 1 || k == 2 || k == 3);
                    lemma_frames_ascend(g, here, position);
                    lemma_frames_ascend(g, position, here + 3 * g.step_num);
                    self.lemma_taken(arithmetic, model, source@, start as int, position, channel);
                    self.lemma_exact_weights(model, position);
                    let taken = lane(samples[k]@, 2, channel);
                    assert(sums[k * 2 + channel] == dot(
                        model,
                        taken,
                        coefficients[k]@,
                        g.taps as nat,
                    ));
                }
                assert(sums@ =~= self.upcoming(model, 4));
            }
        }
        sums
    }

    /// Phase and phase row of an output `ahead` frames past the current position.
    fn row_ahead(&self, ahead: u64) -> (row: (u32, usize))
        requires
            self.wf(),
            ahead <= 3,
        ensures
            row.0 == self.geometry.phase_at(
                self.state().position + ahead * self.geometry.step_num,
            ),
            row.1 == self.geometry.row_at(self.state().position + ahead * self.geometry.step_num),
            row.1 < self.geometry.phases,
    {
        proof {
            lemma_position(
                self.geometry,
                self.source_index as int,
                self.phase_numer as int,
                ahead as int,
            );
            self.lemma_ahead(ahead as int);
            self.lemma_row_at(self.state().position + ahead * self.geometry.step_num);
        }
        let den: u64 = self.geometry.step_den as u64;
        let offset: u64 = self.phase_numer as u64 + ahead * self.geometry.step_num as u64;
        let phase: u32 = (offset % den) as u32;
        if self.geometry.phases as u64 == den {
            (phase, phase as usize)
        } else {
            assert(phase * self.geometry.phases <= 0xffff_ffff * 2048) by (nonlinear_arith)
                requires
                    phase <= 0xffff_ffff,
                    self.geometry.phases <= 2048,
            ;
            (phase, ((phase as u64 * self.geometry.phases as u64) / den) as usize)
        }
    }

    /// Phase rows lie below the interpolation row.
    proof fn lemma_row_at(&self, position: int)
        requires
            self.wf(),
        ensures
            0 <= self.geometry.phase_at(position) < self.geometry.step_den,
            0 <= self.geometry.row_at(position) < self.geometry.phases,
    {
        let den = self.geometry.step_den as int;
        lemma_fundamental_div_mod(position, den);
        let phase = position % den;
        let scaled = phase * self.geometry.phases;
        lemma_fundamental_div_mod(scaled, den);
        assert(0 <= scaled / den < self.geometry.phases) by (nonlinear_arith)
            requires
                scaled == phase * self.geometry.phases,
                scaled == den * (scaled / den) + scaled % den,
                0 <= scaled % den < den,
                0 <= phase < den,
                self.geometry.phases >= 1,
        ;
    }

    /// The coefficients of an output between two phase rows.
    proof fn lemma_interpolated_weights(&self, model: Model, position: int)
        requires
            self.wf(),
            !self.geometry.exact(),
        ensures
            blended(
                model,
                self.coeffs@.subrange(
                    self.geometry.row_at(position) * self.geometry.taps,
                    (self.geometry.row_at(position) + 1) * self.geometry.taps,
                ),
                self.coeffs@.subrange(
                    (self.geometry.row_at(position) + 1) * self.geometry.taps,
                    (self.geometry.row_at(position) + 2) * self.geometry.taps,
                ),
                row_fraction(model, self.geometry, position),
            ) == tap_weights(model, self.geometry, self.coeffs@, position),
    {
        let row = self.geometry.row_at(position);
        self.lemma_row_at(position);
        self.lemma_row(row);
        self.lemma_row(row + 1);
        assert(blended(
            model,
            self.coeffs@.subrange(row * self.geometry.taps, (row + 1) * self.geometry.taps),
            self.coeffs@.subrange((row + 1) * self.geometry.taps, (row + 2) * self.geometry.taps),
            row_fraction(model, self.geometry, position),
        ) =~= tap_weights(model, self.geometry, self.coeffs@, position));
    }

    /// How far an output lies past its phase row.
    fn blend_ahead<A: Arithmetic>(&self, arithmetic: &A, row: (u32, usize)) -> (blend: u64)
        requires
            self.wf(),
        ensures
            forall|model: Model, position: int|
                #![trigger follows(arithmetic, model), row_fraction(model, self.geometry, position)]
                follows(arithmetic, model) && row.0 == self.geometry.phase_at(position) && row.1
                    == self.geometry.row_at(position) ==> blend == row_fraction(
                    model,
                    self.geometry,
                    position,
                ),
    {
        phase_fraction(
            arithmetic,
            row.0,
            self.geometry.step_den,
            self.geometry.phases,
            row.1,
        )
    }

    /// Four stereo frames between phase rows, from samples that agree with the input.
    fn convolve_interpolated_stereo_batch<A: Arithmetic>(
        &self,
        arithmetic: &A,
        source: &[u64],
        start: i64,
    ) -> (sums: [u64; 8])
        requires
            self.wf(),
            self.geometry.channels == 2,
            !self.geometry.exact(),
            self.supplies(arithmetic, source@, start as int),
            -65_537 <= start <= self.source_index - self.geometry.half(),
            self.geometry.frame_at(self.state().position + 3 * self.geometry.step_num)
                + self.geometry.half() < start + source@.len() / 2,
        ensures
            forall|model: Model| #[trigger]
                follows(arithmetic, model) ==> sums@ == self.upcoming(model, 4),
    {
        let ghost g = self.geometry;
        let ghost here = self.state().position;
        proof {
            self.lemma_here();
            lemma_frames_ascend(g, here, here + g.step_num);
            lemma_frames_ascend(g, here + g.step_num, here + 2 * g.step_num);
            lemma_frames_ascend(g, here + 2 * g.step_num, here + 3 * g.step_num);
        }
        let samples: [&[u64]; 4] = [
            self.frame_samples(source, start, 0),
            self.frame_samples(source, start, 1),
            self.frame_samples(source, start, 2),
            self.frame_samples(source, start, 3),
        ];
        let rows: [(u32, usize); 4] = [
            self.row_ahead(0),
            self.row_ahead(1),
            self.row_ahead(2),
            self.row_ahead(3),
        ];
        let lower: [&[u64]; 4] = [
            self.bank_row(rows[0].1),
            self.bank_row(rows[1].1),
            self.bank_row(rows[2].1),
            self.bank_row(rows[3].1),
        ];
        let upper: [&[u64]; 4] = [
            self.bank_row(rows[0].1 + 1),
            self.bank_row(rows[1].1 + 1),
            self.bank_row(rows[2].1 + 1),
            self.bank_row(rows[3].1 + 1),
        ];
        let blends: [u64; 4] = [
            self.blend_ahead(arithmetic, rows[0]),
            self.blend_ahead(arithmetic, rows[1]),
            self.blend_ahead(arithmetic, rows[2]),
            self.blend_ahead(arithmetic, rows[3]),
        ];
        let sums: [u64; 8] = convolve_interpolated_stereo(
            arithmetic,
            samples,
            lower,
            upper,
            blends,
        );
        proof {
            assert forall|k: int| 0 <= k < 4 implies (#[trigger] samples[k])@ == source@.subrange(
                (g.frame_at(here + k * g.step_num) - g.half() - start) * 2,
                (g.frame_at(here + k * g.step_num) + g.half() + 1 - start) * 2,
            ) && samples[k]@.len() == g.taps * 2 && lower[k]@ == self.coeffs@.subrange(
                g.row_at(here + k * g.step_num) * g.taps,
                (g.row_at(here + k * g.step_num) + 1) * g.taps,
            ) && lower[k]@.len() == g.taps && upper[k]@ == self.coeffs@.subrange(
                (g.row_at(here + k * g.step_num) + 1) * g.taps,
                (g.row_at(here + k * g.step_num) + 2) * g.taps,
            ) && upper[k]@.len() == g.taps by {
                assert(k == 0 || k == 1 || k == 2 || k == 3);
            }
            assert(covered_taps(samples[0]@, lower[0]@) == g.taps);
            assert(common_interpolated_taps(samples, lower, upper, g.taps as nat));
            assert forall|model: Model| #[trigger] follows(arithmetic, model) implies sums@
                == self.upcoming(model, 4) by {
                assert forall|i: int| 0 <= i < 8 implies sums@[i] == self.upcoming(model, 4)[i] by {
                    let k = i / 2;
                    let channel = i % 2;
                    let position = here + k * g.step_num;
                    assert(k == 0 || k == 1 || k == 2 || k == 3);
                    lemma_frames_ascend(g, here, position);
                    lemma_frames_ascend(g, position, here + 3 * g.step_num);
                    self.lemma_taken(arithmetic, model, source@, start as int, position, channel);
                    self.lemma_interpolated_weights(model, position);
                    let taken = lane(samples[k]@, 2, channel);
                    assert(blends[k] == row_fraction(model, g, position));
                    assert(sums[k * 2 + channel] == dot(
                        model,
                        taken,
                        blended(model, lower[k]@, upper[k]@, blends[k]),
                        g.taps as nat,
                    ));
                }
                assert(sums@ =~= self.upcoming(model, 4));
            }
        }
        sums
    }

    /// Move on by four outputs, the last of which is within the input.
    fn advance_batch(&mut self)
        requires
            old(self).wf(),
            old(self).geometry.frame_at(
                old(self).state().position + 3 * old(self).geometry.step_num,
            ) < old(self).total(),
        ensures
            final(self).same_stream(*old(self)),
            final(self).stepped(*old(self), 4),
    {
        let ghost g = self.geometry;
        let ghost here = self.state().position;
        let mut frame: usize = 0;
        while frame < 4
            invariant
                frame <= 4,
                self.wf(),
                self.same_stream(*old(self)),
                g == self.geometry,
                here == old(self).state().position,
                self.state().position == here + frame * g.step_num,
                g.frame_at(here + 3 * g.step_num) < self.total(),
            decreases 4 - frame,
        {
            proof {
                self.lemma_here();
                assert(frame * g.step_num <= 3 * g.step_num) by (nonlinear_arith)
                    requires
                        frame <= 3,
                ;
                lemma_frames_ascend(g, self.state().position, here + 3 * g.step_num);
                assert((frame + 1) * g.step_num == frame * g.step_num + g.step_num)
                    by (nonlinear_arith);
            }
            self.advance();
            frame += 1;
        }
    }

    /// Source frame of the last of four outputs.
    fn fourth_index(&self) -> (index: i64)
        requires
            self.wf(),
        ensures
            index == self.geometry.frame_at(self.state().position + 3 * self.geometry.step_num),
            self.source_index <= index <= self.source_index + 4 * 0xffff_ffff,
    {
        proof {
            lemma_position(self.geometry, self.source_index as int, self.phase_numer as int, 3);
            self.lemma_ahead(3);
            let offset = self.phase_numer + 3 * self.geometry.step_num;
            let den = self.geometry.step_den as int;
            lemma_fundamental_div_mod(offset, den);
            assert(offset / den <= offset) by (nonlinear_arith)
                requires
                    offset == den * (offset / den) + offset % den,
                    0 <= offset % den,
                    0 <= offset / den,
                    den >= 1,
            ;
        }
        let offset: u64 = self.phase_numer as u64 + 3 * self.geometry.step_num as u64;
        self.source_index + (offset / self.geometry.step_den as u64) as i64
    }

    /// Four stereo frames with exact phases whose taps all fall on retained input, if there
    /// are four.
    pub fn try_process_stereo_batch<A: Arithmetic>(&mut self, arithmetic: &A) -> (frames: Option<
        [u64; 8],
    >)
        requires
            old(self).wf(),
        ensures
            frames is Some <==> old(self).geometry().channels == 2 && old(self).geometry().exact()
                && old(self).geometry().buffered(
                old(self).state().position,
                old(self).state().first,
                old(self).total(),
            ) && old(self).geometry().buffered(
                old(self).state().position + 3 * old(self).geometry().step_num,
                old(self).state().first,
                old(self).total(),
            ),
            frames is None ==> *final(self) == *old(self),
            frames is Some ==> final(self).stepped(*old(self), 4),
            frames matches Some(samples) ==> forall|model: Model| #[trigger]
                follows(arithmetic, model) ==> samples@ == old(self).upcoming(model, 4),
    {
        if self.geometry.channels != 2 || self.geometry.phases as u64
            != self.geometry.step_den as u64 {
            return None;
        }
        proof {
            self.lemma_here();
            self.lemma_buffer_supplies(arithmetic);
            lemma_frames_ascend(
                self.geometry,
                self.state().position,
                self.state().position + 3 * self.geometry.step_num,
            );
        }
        let half: i64 = self.half_taps();
        let total_frames: i64 = self.total_frames();
        if self.source_index - half < self.buffer_start_frame || self.fourth_index() + half
            >= total_frames {
            return None;
        }
        let sums: [u64; 8] = self.convolve_exact_stereo_batch(
            arithmetic,
            self.buffer.as_slice(),
            self.buffer_start_frame,
        );
        self.advance_batch();
        Some(sums)
    }

    /// Four stereo frames with exact phases from prepared padding, if four are due.
    fn try_process_padded_batch<A: Arithmetic>(
        &mut self,
        arithmetic: &A,
        end_of_stream: bool,
        padding: &Padding,
    ) -> (frames: Option<[u64; 8]>)
        requires
            old(self).wf(),
            old(self).padded_by(arithmetic, padding, end_of_stream),
        ensures
            frames is Some <==> old(self).geometry().exact() && old(self).geometry().ready(
                old(self).state().position + 3 * old(self).geometry().step_num,
                old(self).total(),
                end_of_stream,
            ),
            frames is None ==> *final(self) == *old(self),
            frames is Some ==> final(self).stepped(*old(self), 4),
            frames is Some ==> final(self).same_stream(*old(self)),
            frames matches Some(samples) ==> forall|model: Model| #[trigger]
                follows(arithmetic, model) ==> samples@ == old(self).upcoming(model, 4),
    {
        if self.geometry.phases as u64 != self.geometry.step_den as u64 {
            return None;
        }
        let needed: i64 = if end_of_stream {
            0
        } else {
            self.half_taps()
        };
        if self.fourth_index() >= self.total_frames() - needed {
            return None;
        }
        let sums: [u64; 8] = self.convolve_exact_stereo_batch(
            arithmetic,
            padding.values.as_slice(),
            padding.start,
        );
        self.advance_batch();
        Some(sums)
    }

    /// Four stereo frames between phase rows, if four are due and their taps fall on
    /// prepared padding or on retained input.
    pub fn try_process_interpolated_stereo_batch<A: Arithmetic>(
        &mut self,
        arithmetic: &A,
        end_of_stream: bool,
        padding: Option<&Padding>,
    ) -> (frames: Option<[u64; 8]>)
        requires
            old(self).wf(),
            padding matches Some(values) ==> old(self).padded_by(
                arithmetic,
                values,
                end_of_stream,
            ),
        ensures
            frames is Some <==> old(self).geometry().channels == 2 && !old(self).geometry().exact()
                && old(self).geometry().ready(
                old(self).state().position + 3 * old(self).geometry().step_num,
                old(self).total(),
                end_of_stream,
            ) && (padding is Some || (old(self).geometry().buffered(
                old(self).state().position,
                old(self).state().first,
                old(self).total(),
            ) && old(self).geometry().buffered(
                old(self).state().position + 3 * old(self).geometry().step_num,
                old(self).state().first,
                old(self).total(),
            ))),
            frames is None ==> *final(self) == *old(self),
            frames is Some ==> final(self).stepped(*old(self), 4),
            frames matches Some(samples) ==> forall|model: Model| #[trigger]
                follows(arithmetic, model) ==> samples@ == old(self).upcoming(model, 4),
    {
        if self.geometry.channels != 2 || self.geometry.phases as u64
            == self.geometry.step_den as u64 {
            return None;
        }
        proof {
            self.lemma_here();
            self.lemma_buffer_supplies(arithmetic);
            lemma_frames_ascend(
                self.geometry,
                self.state().position,
                self.state().position + 3 * self.geometry.step_num,
            );
        }
        let half: i64 = self.half_taps();
        let total_frames: i64 = self.total_frames();
        let last: i64 = self.fourth_index();
        let needed: i64 = if end_of_stream {
            0
        } else {
            half
        };
        if last >= total_frames - needed {
            return None;
        }
        let sums: [u64; 8] = match padding {
            Some(prepared) => self.convolve_interpolated_stereo_batch(
                arithmetic,
                prepared.values.as_slice(),
                prepared.start,
            ),
            None => {
                if self.source_index - half < self.buffer_start_frame || last + half
                    >= total_frames {
                    return None;
                }
                self.convolve_interpolated_stereo_batch(
                    arithmetic,
                    self.buffer.as_slice(),
                    self.buffer_start_frame,
                )
            },
        };
        self.advance_batch();
        Some(sums)
    }

    /// Prepared padding stays usable while the stream moves on.
    proof fn lemma_padding_kept<A: Arithmetic>(
        &self,
        before: Fir,
        arithmetic: &A,
        padding: &Padding,
        end_of_stream: bool,
        frames: nat,
    )
        requires
            before.wf(),
            before.padded_by(arithmetic, padding, end_of_stream),
            self.stepped(before, frames),
        ensures
            self.padded_by(arithmetic, padding, end_of_stream),
    {
        before.lemma_here();
        self.lemma_here();
        assert(0 <= frames * before.geometry.step_num) by (nonlinear_arith);
        lemma_frames_ascend(self.geometry, before.state().position, self.state().position);
        let start = padding.start as int;
        assert forall|model: Model, frame: int, channel: int|
            #![trigger follows(arithmetic, model), self.supplied(model, frame, channel)]
            follows(arithmetic, model) && start <= frame < start + padding.values@.len() / 2 && 0
                <= channel < 2 implies padding.values@[(frame - start) * 2 + channel]
            == self.supplied(model, frame, channel) by {
            let same = before.supplied(model, frame, channel);
        }
    }

    /// The tail blends of every channel, or none yet.
    spec fn blends_known<A: Arithmetic>(self, arithmetic: &A, blends: Seq<u64>) -> bool {
        blends.len() > 0 ==> {
            &&& blends.len() == self.geometry.channels
            &&& forall|model: Model, channel: int|
                #![trigger follows(arithmetic, model), blends[channel]]
                follows(arithmetic, model) && 0 <= channel < self.geometry.channels
                    ==> blends[channel] == tail_blend_of(
                    model,
                    self.geometry,
                    self.history@,
                    self.buffer_start_frame as int,
                    channel,
                )
        }
    }

    /// The coefficient of one tap.
    fn tap_weight<A: Arithmetic>(
        &self,
        arithmetic: &A,
        row: usize,
        blend: u64,
        tap: usize,
    ) -> (coefficient: u64)
        requires
            self.wf(),
            row < self.geometry.phases,
            tap < self.geometry.taps,
        ensures
            forall|model: Model, position: int|
                #![trigger follows(arithmetic, model), weight(model, self.geometry, self.coeffs@, position, tap as int)]
                follows(arithmetic, model) && row == self.geometry.row_at(position) && (
                !self.geometry.exact() ==> blend == row_fraction(model, self.geometry, position))
                    ==> coefficient == weight(
                    model,
                    self.geometry,
                    self.coeffs@,
                    position,
                    tap as int,
                ),
    {
        proof {
            self.lemma_row(row as int);
            self.lemma_row(row + 1);
        }
        let low: usize = row * self.geometry.taps + tap;
        if self.geometry.phases as u64 == self.geometry.step_den as u64 {
            self.coeffs[low]
        } else {
            interpolate(arithmetic, self.coeffs[low], self.coeffs[low + self.geometry.taps], blend)
        }
    }

    /// One channel of the output at the current position.
    fn convolve_channel<A: Arithmetic>(
        &self,
        arithmetic: &A,
        total_frames: i64,
        channel: usize,
        row: (u32, usize),
        tail_blend: u64,
    ) -> (sum: u64)
        requires
            self.wf(),
            total_frames == self.total(),
            channel < self.geometry.channels,
            row.0 == self.geometry.phase_at(self.state().position),
            row.1 == self.geometry.row_at(self.state().position),
            row.1 < self.geometry.phases,
            self.source_index < self.total(),
            self.source_index + self.geometry.half() < self.total() || forall|model: Model|
                #[trigger]
                follows(arithmetic, model) ==> tail_blend == tail_blend_of(
                    model,
                    self.geometry,
                    self.history@,
                    self.buffer_start_frame as int,
                    channel as int,
                ),
        ensures
            forall|model: Model| #[trigger]
                follows(arithmetic, model) ==> sum == output_sample(
                    model,
                    self.geometry,
                    self.coeffs@,
                    self.history@,
                    self.buffer_start_frame as int,
                    self.state().position,
                    channel as int,
                ),
    {
        let ghost position = self.state().position;
        let half: i64 = self.half_taps();
        let first_sample_frame: i64 = self.source_index - half;
        let fully_buffered: bool = first_sample_frame >= self.buffer_start_frame
            && self.source_index + half < total_frames;
        let blend: u64 = if self.geometry.phases as u64 == self.geometry.step_den as u64 {
            ZERO_BITS
        } else {
            self.blend_ahead(arithmetic, row)
        };
        let mut sum: u64 = ZERO_BITS;
        let mut tap: usize = 0;
        proof {
            self.lemma_here();
        }
        while tap < self.geometry.taps
            invariant
                self.wf(),
                position == self.state().position,
                total_frames == self.total(),
                channel < self.geometry.channels,
                row.1 == self.geometry.row_at(position),
                row.1 < self.geometry.phases,
                half == self.geometry.half(),
                self.geometry.frame_at(position) == self.source_index < self.total(),
                first_sample_frame == self.source_index - half,
                fully_buffered == (first_sample_frame >= self.buffer_start_frame
                    && self.source_index + half < total_frames),
                tap <= self.geometry.taps,
                !self.geometry.exact() ==> forall|model: Model| #[trigger]
                    follows(arithmetic, model) ==> blend == row_fraction(
                        model,
                        self.geometry,
                        position,
                    ),
                self.source_index + half < self.total() || forall|model: Model| #[trigger]
                    follows(arithmetic, model) ==> tail_blend == tail_blend_of(
                        model,
                        self.geometry,
                        self.history@,
                        self.buffer_start_frame as int,
                        channel as int,
                    ),
                forall|model: Model| #[trigger]
                    follows(arithmetic, model) ==> sum == dot(
                        model,
                        tap_samples(
                            model,
                            self.geometry,
                            self.history@,
                            self.buffer_start_frame as int,
                            position,
                            channel as int,
                        ),
                        tap_weights(model, self.geometry, self.coeffs@, position),
                        tap as nat,
                    ),
            decreases self.geometry.taps - tap,
        {
            let frame: i64 = first_sample_frame + tap as i64;
            let sample: u64 = if fully_buffered {
                self.retained_sample(total_frames, frame, channel)
            } else {
                self.continued_sample(arithmetic, total_frames, frame, channel, tail_blend)
            };
            let coefficient: u64 = self.tap_weight(arithmetic, row.1, blend, tap);
            let ghost before = sum;
            sum = multiply_add(arithmetic, sum, sample, coefficient);
            assert forall|model: Model| #[trigger] follows(arithmetic, model) implies sum == dot(
                model,
                tap_samples(
                    model,
                    self.geometry,
                    self.history@,
                    self.buffer_start_frame as int,
                    position,
                    channel as int,
                ),
                tap_weights(model, self.geometry, self.coeffs@, position),
                (tap + 1) as nat,
            ) by {
                let samples = tap_samples(
                    model,
                    self.geometry,
                    self.history@,
                    self.buffer_start_frame as int,
                    position,
                    channel as int,
                );
                let weights = tap_weights(model, self.geometry, self.coeffs@, position);
                assert(weights[tap as int] == weight(
                    model,
                    self.geometry,
                    self.coeffs@,
                    position,
                    tap as int,
                ));
                assert(weights[tap as int] == coefficient);
                assert(samples[tap as int] == sample);
                assert(before == dot(model, samples, weights, tap as nat));
            }
            tap += 1;
        }
        sum
    }

    /// One frame of any layout, continued past the retained input where its taps reach
    /// there.
    fn emit_fallback_frame<A: Arithmetic>(
        &self,
        arithmetic: &A,
        total_frames: i64,
        end_of_stream: bool,
        tail_blends: &mut Vec<u64>,
        output: &mut Vec<u64>,
    )
        requires
            self.wf(),
            total_frames == self.total(),
            self.geometry.ready(self.state().position, self.total(), end_of_stream),
            self.blends_known(arithmetic, old(tail_blends)@),
        ensures
            self.blends_known(arithmetic, final(tail_blends)@),
            ({
                let reaches_out = !self.geometry.buffered(
                    self.state().position,
                    self.state().first,
                    self.total(),
                );
                if end_of_stream && reaches_out && old(tail_blends)@.len() == 0 {
                    final(tail_blends)@.len() == self.geometry.channels
                } else {
                    *final(tail_blends) == *old(tail_blends)
                }
            }),
            final(output)@.len() == old(output)@.len() + self.geometry.channels,
            forall|model: Model| #[trigger]
                follows(arithmetic, model) ==> final(output)@ == old(output)@ + self.upcoming(
                    model,
                    1,
                ),
    {
        let ghost before = output@;
        proof {
            self.lemma_here();
        }
        let half: i64 = self.half_taps();
        let reaches_out: bool = self.source_index - half < self.buffer_start_frame
            || self.source_index + half >= total_frames;
        if end_of_stream && reaches_out && tail_blends.len() == 0 {
            *tail_blends = self.tail_blends(arithmetic, total_frames);
        }
        let row: (u32, usize) = self.row_ahead(0);
        let mut channel: usize = 0;
        while channel < self.geometry.channels
            invariant
                self.wf(),
                total_frames == self.total(),
                channel <= self.geometry.channels,
                row.0 == self.geometry.phase_at(self.state().position),
                row.1 == self.geometry.row_at(self.state().position),
                row.1 < self.geometry.phases,
                self.source_index < self.total(),
                !end_of_stream || !reaches_out ==> self.source_index + self.geometry.half()
                    < self.total(),
                end_of_stream && reaches_out ==> tail_blends@.len() > 0,
                self.blends_known(arithmetic, tail_blends@),
                output@.len() == before.len() + channel,
                forall|i: int| 0 <= i < before.len() ==> output@[i] == before[i],
                forall|model: Model, ch: int|
                    #![trigger follows(arithmetic, model), output@[before.len() + ch]]
                    follows(arithmetic, model) && 0 <= ch < channel ==> output@[before.len() + ch]
                        == output_sample(
                        model,
                        self.geometry,
                        self.coeffs@,
                        self.history@,
                        self.buffer_start_frame as int,
                        self.state().position,
                        ch,
                    ),
            decreases self.geometry.channels - channel,
        {
            let tail_blend: u64 = if end_of_stream && reaches_out {
                tail_blends[channel]
            } else {
                ZERO_BITS
            };
            output.push(
                self.convolve_channel(arithmetic, total_frames, channel, row, tail_blend),
            );
            channel += 1;
        }
        assert forall|model: Model| #[trigger] follows(arithmetic, model) implies output@ == before
            + self.upcoming(model, 1) by {
            let frame = self.upcoming(model, 1);
            assert forall|ch: int| 0 <= ch < self.geometry.channels implies frame[ch]
                == output@[before.len() + ch] by {
                lemma_fundamental_div_mod_converse(ch, self.geometry.channels as int, 0, ch);
            }
            assert(output@ =~= before + frame);
        }
    }

    /// One channel of an output `cycle` periods and `ahead` frames past the position.
    spec fn tile_output(self, model: Model, cycle: int, ahead: int, channel: int) -> u64 {
        output_sample(
            model,
            self.geometry,
            self.coeffs@,
            self.history@,
            self.buffer_start_frame as int,
            self.state().position + (cycle * self.geometry.step_den + ahead)
                * self.geometry.step_num,
            channel,
        )
    }

    /// Whole periods move ahead by whole frames and keep the phase.
    proof fn lemma_cycle(&self, cycle: int, ahead: int)
        requires
            self.wf(),
            0 <= cycle,
            0 <= ahead,
        ensures
            self.geometry.frame_at(
                self.state().position + (cycle * self.geometry.step_den + ahead)
                    * self.geometry.step_num,
            ) == self.source_index + cycle * self.geometry.step_num + (self.phase_numer + ahead
                * self.geometry.step_num) / (self.geometry.step_den as int),
            self.geometry.phase_at(
                self.state().position + (cycle * self.geometry.step_den + ahead)
                    * self.geometry.step_num,
            ) == (self.phase_numer + ahead * self.geometry.step_num) % (
            self.geometry.step_den as int),
    {
        let num = self.geometry.step_num as int;
        let den = self.geometry.step_den as int;
        lemma_position(
            self.geometry,
            self.source_index + cycle * num,
            self.phase_numer as int,
            ahead,
        );
        assert(self.source_index * den + self.phase_numer + (cycle * den + ahead) * num == (
        self.source_index + cycle * num) * den + self.phase_numer + ahead * num)
            by (nonlinear_arith);
    }

    /// Extent of a tile: its rows, and how they fit into scratch memory.
    proof fn lemma_tile_extent(&self)
        requires
            self.wf(),
            periods_of(self.phase_batch_backend) > 0,
        ensures
            ({
                let num = self.geometry.step_num as int;
                let den = self.geometry.step_den as int;
                let ahead = (self.phase_numer + (den - 1) * num) / den;
                let periods = periods_of(self.phase_batch_backend);
                &&& 0 <= (den - 1) * num <= 2048 * 0xffff_ffff
                &&& 0 <= ahead <= num
                &&& 0 < periods <= 16
                &&& num <= 1_048_576
                &&& 0 <= (self.geometry.taps + ahead) * (periods * 2) <= 2_097_152
                &&& 0 <= (periods - 1) * num <= 15 * 1_048_576
                &&& periods * den <= 32_768
                &&& periods * den - 1 == (periods - 1) * den + (den - 1)
            }),
    {
        let num = self.geometry.step_num as int;
        let den = self.geometry.step_den as int;
        let taps = self.geometry.taps as int;
        let periods = periods_of(self.phase_batch_backend) as int;
        let offset = self.phase_numer + (den - 1) * num;
        assert(0 <= (den - 1) * num <= 2048 * 0xffff_ffff) by (nonlinear_arith)
            requires
                1 <= den <= 2048,
                0 <= num <= 0xffff_ffff,
        ;
        lemma_fundamental_div_mod(offset, den);
        assert(0 <= offset / den <= num) by (nonlinear_arith)
            requires
                offset == den * (offset / den) + offset % den,
                0 <= offset % den < den,
                offset == self.phase_numer + (den - 1) * num,
                0 <= self.phase_numer < den,
                num >= 1,
                den >= 1,
        ;
        let ahead = offset / den;
        assert((taps + num) * periods * 16 + 64 <= 16_777_216);
        assert(num <= 1_048_576) by (nonlinear_arith)
            requires
                (taps + num) * periods * 16 + 64 <= 16_777_216,
                taps >= 0,
                num >= 0,
                periods >= 1,
        ;
        assert(0 <= (taps + ahead) * (periods * 2) <= 2_097_152) by (nonlinear_arith)
            requires
                (taps + num) * periods * 16 + 64 <= 16_777_216,
                0 <= ahead <= num,
                taps >= 0,
                periods >= 1,
        ;
        assert(0 <= (periods - 1) * num <= 15 * 1_048_576) by (nonlinear_arith)
            requires
                1 <= periods <= 16,
                0 <= num <= 1_048_576,
        ;
        assert(periods * den <= 32_768) by (nonlinear_arith)
            requires
                1 <= periods <= 16,
                1 <= den <= 2048,
        ;
        assert(periods * den - 1 == (periods - 1) * den + (den - 1)) by (nonlinear_arith);
    }

    /// Earlier outputs of a period lie in earlier rows.
    proof fn lemma_row_order(&self, ahead: int)
        requires
            self.wf(),
            0 <= ahead < self.geometry.step_den,
        ensures
            0 <= (self.phase_numer + ahead * self.geometry.step_num) / (
            self.geometry.step_den as int) <= (self.phase_numer + (self.geometry.step_den - 1)
                * self.geometry.step_num) / (self.geometry.step_den as int),
            0 <= ahead * self.geometry.step_num <= (self.geometry.step_den - 1)
                * self.geometry.step_num,
    {
        let num = self.geometry.step_num as int;
        let den = self.geometry.step_den as int;
        assert(0 <= ahead * num <= (den - 1) * num) by (nonlinear_arith)
            requires
                0 <= ahead <= den - 1,
                0 <= num,
        ;
        lemma_div_is_ordered(
            self.phase_numer + ahead * num,
            self.phase_numer + (den - 1) * num,
            den,
        );
        lemma_div_pos_is_pos(self.phase_numer + ahead * num, den);
    }

    /// What packed rows hold for one output of every period.
    proof fn lemma_packed_taps<A: Arithmetic>(
        &self,
        arithmetic: &A,
        model: Model,
        packed: Seq<u64>,
        first: int,
        rows: int,
        cycle: int,
        ahead: int,
        channel: int,
    )
        requires
            self.wf(),
            follows(arithmetic, model),
            periods_of(self.phase_batch_backend) > 0,
            first == self.source_index - self.geometry.half() - self.buffer_start_frame,
            0 <= first,
            rows == self.geometry.taps + (self.phase_numer + (self.geometry.step_den - 1)
                * self.geometry.step_num) / (self.geometry.step_den as int),
            (first + rows + (periods_of(self.phase_batch_backend) - 1) * self.geometry.step_num) * 2
                <= self.buffer@.len(),
            packed.len() == rows * (periods_of(self.phase_batch_backend) * 2),
            forall|row: int, c: int, ch: int|
                #![trigger packed_sample(self.buffer@.subrange(first * 2, (first + rows + (periods_of(self.phase_batch_backend) - 1) * self.geometry.step_num) * 2), self.geometry.step_num as int, row, c, ch)]
                0 <= row < rows && 0 <= c < periods_of(self.phase_batch_backend) && 0 <= ch < 2
                    ==> packed[row * (periods_of(self.phase_batch_backend) * 2) + c * 2 + ch]
                    == packed_sample(
                    self.buffer@.subrange(
                        first * 2,
                        (first + rows + (periods_of(self.phase_batch_backend) - 1)
                            * self.geometry.step_num) * 2,
                    ),
                    self.geometry.step_num as int,
                    row,
                    c,
                    ch,
                ),
            0 <= cycle < periods_of(self.phase_batch_backend),
            0 <= ahead < self.geometry.step_den,
            0 <= channel < 2,
        ensures
            ({
                let width = periods_of(self.phase_batch_backend) * 2;
                let row = (self.phase_numer + ahead * self.geometry.step_num) / (
                self.geometry.step_den as int);
                let part = packed.subrange(row * width, (row + self.geometry.taps) * width);
                lane(part, width as int, cycle * 2 + channel) == tap_samples(
                    model,
                    self.geometry,
                    self.history@,
                    self.buffer_start_frame as int,
                    self.state().position + (cycle * self.geometry.step_den + ahead)
                        * self.geometry.step_num,
                    channel,
                )
            }),
    {
        let g = self.geometry;
        let num = g.step_num as int;
        let den = g.step_den as int;
        let periods = periods_of(self.phase_batch_backend) as int;
        let width = periods * 2;
        let position = self.state().position + (cycle * den + ahead) * num;
        let row = (self.phase_numer + ahead * num) / den;
        let end = (first + rows + (periods - 1) * num) * 2;
        let source = self.buffer@.subrange(first * 2, end);
        self.lemma_row_order(ahead);
        self.lemma_cycle(cycle, ahead);
        self.lemma_buffer_supplies(arithmetic);
        let part = packed.subrange(row * width, (row + g.taps) * width);
        assert(0 <= row * width && (row + g.taps) * width == row * width + g.taps * width && (row
            + g.taps) * width <= rows * width) by (nonlinear_arith)
            requires
                0 <= row,
                row + g.taps <= rows,
                0 < width,
        ;
        let taken = lane(part, width, cycle * 2 + channel);
        let wanted = tap_samples(
            model,
            g,
            self.history@,
            self.buffer_start_frame as int,
            position,
            channel,
        );
        lemma_fundamental_div_mod_converse(part.len() as int, width, g.taps as int, 0);
        assert(taken.len() == wanted.len());
        assert forall|tap: int| 0 <= tap < wanted.len() implies taken[tap] == wanted[tap] by {
            assert(0 <= tap * width && tap * width + width <= g.taps * width) by (nonlinear_arith)
                requires
                    0 <= tap < g.taps,
                    0 < width,
            ;
            assert(row * width + (tap * width + cycle * 2 + channel) == (row + tap) * width + cycle
                * 2 + channel) by (nonlinear_arith);
            assert(taken[tap] == packed[(row + tap) * width + cycle * 2 + channel]);
            assert(taken[tap] == packed_sample(source, num, row + tap, cycle, channel));
            assert(0 <= cycle * num <= (periods - 1) * num) by (nonlinear_arith)
                requires
                    0 <= cycle <= periods - 1,
                    0 <= num,
            ;
            let frame = self.buffer_start_frame + first + row + tap + cycle * num;
            let sample = self.supplied(model, frame, channel);
            assert(taken[tap] == self.buffer@[(frame - self.buffer_start_frame) * 2 + channel]);
            assert(frame == g.frame_at(position) + tap - g.half());
        }
        assert(taken =~= wanted);
    }

    /// All outputs of one tile.
    fn convolve_tile<A: Arithmetic>(&self, arithmetic: &A) -> (output: Vec<u64>)
        requires
            self.wf(),
            periods_of(self.phase_batch_backend) > 0,
            self.buffer_start_frame <= self.source_index - self.geometry.half(),
            self.geometry.frame_at(
                self.state().position + (periods_of(self.phase_batch_backend)
                    * self.geometry.step_den - 1) * self.geometry.step_num,
            ) + self.geometry.half() < self.total(),
        ensures
            output@.len() == periods_of(self.phase_batch_backend) * self.geometry.step_den * 2,
            forall|model: Model| #[trigger]
                follows(arithmetic, model) ==> output@ == self.upcoming(
                    model,
                    periods_of(self.phase_batch_backend) * self.geometry.step_den as nat,
                ),
    {
        let ghost g = self.geometry;
        let cycles: usize = self.phase_batch_backend.periods();
        let num: usize = self.geometry.step_num as usize;
        let den: usize = self.geometry.step_den as usize;
        let phase: usize = self.phase_numer as usize;
        proof {
            self.lemma_tile_extent();
            self.lemma_buffer_supplies(arithmetic);
            self.lemma_cycle(cycles - 1, den - 1);
            assert(self.buffer.len() == self.buffer@.len());
        }
        let first: usize = (self.source_index - self.half_taps() - self.buffer_start_frame) as usize;
        let steps: u64 = phase as u64 + (den as u64 - 1) * num as u64;
        let rows: usize = self.geometry.taps + (steps / den as u64) as usize;
        let end: usize = (first + rows + (cycles - 1) * num) * 2;
        let source: &[u64] = slice_subrange(self.buffer.as_slice(), first * 2, end);
        let packed: Vec<u64> = pack_phase_tile(source, rows, num, cycles);
        let tile: usize = cycles * den * 2;
        let mut output: Vec<u64> = vec![ZERO_BITS; tile];
        let mut ahead: usize = 0;
        while ahead < den
            invariant
                self.wf(),
                g == self.geometry,
                0 < cycles == periods_of(self.phase_batch_backend) <= 16,
                num == g.step_num,
                den == g.step_den,
                phase == self.phase_numer,
                g.exact(),
                0 <= ahead <= den,
                0 <= (den - 1) * num <= 2048 * 0xffff_ffff,
                first == self.source_index - g.half() - self.buffer_start_frame,
                rows == g.taps + (self.phase_numer + (den - 1) * num) / (den as int),
                end == (first + rows + (cycles - 1) * num) * 2,
                end <= self.buffer@.len(),
                source@ == self.buffer@.subrange(first * 2, end as int),
                packed@.len() == rows * (cycles * 2) <= 2_097_152,
                forall|row: int, c: int, ch: int|
                    #![trigger packed_sample(source@, num as int, row, c, ch)]
                    0 <= row < rows && 0 <= c < cycles && 0 <= ch < 2 ==> packed@[row * (cycles * 2)
                        + c * 2 + ch] == packed_sample(source@, num as int, row, c, ch),
                tile == cycles * den * 2,
                output@.len() == tile,
                forall|model: Model, i: int|
                    #![trigger follows(arithmetic, model), output@[i]]
                    follows(arithmetic, model) && 0 <= i < tile && (i / 2) % (den as int) < ahead
                        ==> output@[i] == self.tile_output(
                        model,
                        (i / 2) / (den as int),
                        (i / 2) % (den as int),
                        i % 2,
                    ),
            decreases den - ahead,
        {
            proof {
                self.lemma_row_order(ahead as int);
                self.lemma_packed_rows(rows as int, ahead as int, cycles as int);
                lemma_fundamental_div_mod(phase + ahead * num, den as int);
            }
            let offset: u64 = phase as u64 + ahead as u64 * num as u64;
            let row: usize = (offset / den as u64) as usize;
            let weights: &[u64] = self.bank_row((offset % den as u64) as usize);
            let width: usize = cycles * 2;
            let part: &[u64] = slice_subrange(
                packed.as_slice(),
                row * width,
                (row + self.geometry.taps) * width,
            );
            let sums: Vec<u64> = convolve_phase(arithmetic, part, weights, cycles);
            let ghost stored = output@;
            store_phase(&mut output, den, ahead, cycles, &sums);
            assert forall|model: Model, i: int|
                #![trigger follows(arithmetic, model), output@[i]]
                follows(arithmetic, model) && 0 <= i < tile && (i / 2) % (den as int) < ahead
                    + 1 implies output@[i] == self.tile_output(
                model,
                (i / 2) / (den as int),
                (i / 2) % (den as int),
                i % 2,
            ) by {
                let cycle = (i / 2) / (den as int);
                if (i / 2) % (den as int) == ahead {
                    lemma_cell(i, den as int, cycles as int);
                    self.lemma_packed_taps(
                        arithmetic,
                        model,
                        packed@,
                        first as int,
                        rows as int,
                        cycle,
                        ahead as int,
                        i % 2,
                    );
                    self.lemma_cycle(cycle, ahead as int);
                    self.lemma_exact_weights(
                        model,
                        self.state().position + (cycle * den + ahead) * num,
                    );
                    assert(output@[i] == sums@[cycle * 2 + i % 2]);
                } else {
                    assert(output@[i] == stored[i]);
                }
            }
            ahead += 1;
        }
        assert forall|model: Model| #[trigger] follows(arithmetic, model) implies output@
            == self.upcoming(
            model,
            periods_of(self.phase_batch_backend) * self.geometry.step_den as nat,
        ) by {
            let outputs = self.upcoming(model, (cycles * den) as nat);
            assert forall|i: int| 0 <= i < tile implies output@[i] == outputs[i] by {
                lemma_fundamental_div_mod(i / 2, den as int);
                assert((i / 2) / (den as int) * den + (i / 2) % (den as int) == i / 2)
                    by (nonlinear_arith)
                    requires
                        i / 2 == den * ((i / 2) / (den as int)) + (i / 2) % (den as int),
                ;
            }
            assert(output@ =~= outputs);
        }
        output
    }

    /// The rows of one output lie within the tile.
    proof fn lemma_packed_rows(&self, rows: int, ahead: int, cycles: int)
        requires
            self.wf(),
            rows == self.geometry.taps + (self.phase_numer + (self.geometry.step_den - 1)
                * self.geometry.step_num) / (self.geometry.step_den as int),
            rows * (cycles * 2) <= 2_097_152,
            0 <= ahead < self.geometry.step_den,
            0 < cycles,
        ensures
            ({
                let row = (self.phase_numer + ahead * self.geometry.step_num) / (
                self.geometry.step_den as int);
                let width = cycles * 2;
                &&& 0 <= row * width <= (row + self.geometry.taps) * width <= rows * width
                &&& (row + self.geometry.taps) * width - row * width == self.geometry.taps * width
                &&& row + self.geometry.taps <= 2_097_152
            }),
    {
        self.lemma_row_order(ahead);
        let row = (self.phase_numer + ahead * self.geometry.step_num) / (
        self.geometry.step_den as int);
        let taps = self.geometry.taps as int;
        let width = cycles * 2;
        assert(0 <= row * width <= (row + taps) * width <= rows * width && (row + taps) * width
            - row * width == taps * width && row + taps <= rows * width) by (nonlinear_arith)
            requires
                0 <= row,
                0 <= taps,
                row + taps <= rows,
                2 <= width,
        ;
    }

    /// A tile of whole rational periods, for streams with a tile layout.
    ///
    /// `None` leaves the frames at hand to the other paths, `Some(0)` waits for the input of
    /// a whole tile, and `Some(n)` has appended `n` samples.
    pub fn try_process_phase_tile<A: Arithmetic>(
        &mut self,
        arithmetic: &A,
        end_of_stream: bool,
        output: &mut Vec<u64>,
    ) -> (samples: Option<usize>)
        requires
            old(self).wf(),
        ensures
            ({
                let g = old(self).geometry();
                let position = old(self).state().position;
                let tile = periods_of(old(self).backend()) * g.step_den as nat;
                let here = tile > 0 && g.buffered(
                    position,
                    old(self).state().first,
                    old(self).total(),
                );
                let whole = here && g.frame_at(position + (tile - 1) * g.step_num) + g.half()
                    < old(self).total();
                &&& samples == if whole {
                    Some((tile * 2) as usize)
                } else if here && !end_of_stream {
                    Some(0)
                } else {
                    None
                }
                &&& !whole ==> *final(self) == *old(self) && *final(output) == *old(output)
                &&& whole ==> final(self).stepped(*old(self), tile)
                &&& whole ==> final(output)@.len() == old(output)@.len() + tile * 2
                &&& whole ==> forall|model: Model| #[trigger]
                    follows(arithmetic, model) ==> final(output)@ == old(output)@ + old(
                        self,
                    ).upcoming(model, tile)
            }),
    {
        let cycles: usize = self.phase_batch_backend.periods();
        if cycles == 0 {
            return None;
        }
        let ghost g = self.geometry;
        let ghost tile = (cycles * g.step_den) as nat;
        proof {
            self.lemma_here();
            self.lemma_tile_extent();
            self.lemma_cycle(cycles - 1, g.step_den - 1);
            assert(cycles * g.step_den >= 1) by (nonlinear_arith)
                requires
                    cycles >= 1,
                    g.step_den >= 1,
            ;
        }
        let half: i64 = self.half_taps();
        let total_frames: i64 = self.total_frames();
        if self.source_index - half < self.buffer_start_frame || self.source_index + half
            >= total_frames {
            return None;
        }
        let num: usize = self.geometry.step_num as usize;
        let den: usize = self.geometry.step_den as usize;
        let steps: u64 = self.phase_numer as u64 + (den as u64 - 1) * num as u64;
        let last: i64 = self.source_index + ((cycles - 1) * num) as i64 + (steps
            / den as u64) as i64;
        if last + half >= total_frames {
            return if end_of_stream {
                None
            } else {
                Some(0)
            };
        }
        let mut frames: Vec<u64> = self.convolve_tile(arithmetic);
        output.append(&mut frames);
        proof {
            assert(cycles * num == (cycles - 1) * num + num) by (nonlinear_arith);
            assert((self.source_index + cycles * num) * den + self.phase_numer == self.source_index
                * den + self.phase_numer + tile * num) by (nonlinear_arith)
                requires
                    tile == cycles * den,
            ;
        }
        self.source_index = self.source_index + (cycles * num) as i64;
        Some(cycles * den * 2)
    }

    /// Endpoint continuation for the frames of one call, computed once per source frame.
    fn prepare_padding<A: Arithmetic>(
        &self,
        arithmetic: &A,
        total_frames: i64,
        end_of_stream: bool,
        tail_blends: &mut Vec<u64>,
    ) -> (padding: Option<Padding>)
        requires
            self.wf(),
            total_frames == self.total(),
            self.blends_known(arithmetic, old(tail_blends)@),
        ensures
            self.blends_known(arithmetic, final(tail_blends)@),
            if end_of_stream && padding is Some && old(tail_blends)@.len() == 0 {
                final(tail_blends)@.len() == self.geometry.channels
            } else {
                *final(tail_blends) == *old(tail_blends)
            },
            padding is Some <==> pads(
                self.geometry,
                self.total(),
                self.buffer_start_frame as int,
                self.state().position,
                end_of_stream,
            ),
            padding matches Some(values) ==> self.padded_by(arithmetic, &values, end_of_stream),
    {
        let half: i64 = self.half_taps();
        proof {
            self.lemma_here();
            self.lemma_buffer_len();
        }
        if self.geometry.channels != 2 || self.buffer.len() > MAX_PADDED_INPUT_SAMPLES
            || !self.can_emit(total_frames, end_of_stream) || !(end_of_stream || self.source_index
            - half < self.buffer_start_frame) {
            return None;
        }
        if end_of_stream && tail_blends.len() == 0 {
            *tail_blends = self.tail_blends(arithmetic, total_frames);
        }
        let start: i64 = if self.source_index - half < self.buffer_start_frame {
            self.source_index - half
        } else {
            self.buffer_start_frame
        };
        let end: i64 = if end_of_stream {
            total_frames + (self.geometry.taps as i64 - half)
        } else {
            total_frames
        };
        let mut values: Vec<u64> = Vec::new();
        let mut frame: i64 = start;
        while frame < end
            invariant
                self.wf(),
                total_frames == self.total(),
                self.geometry.channels == 2,
                self.blends_known(arithmetic, tail_blends@),
                end_of_stream ==> tail_blends@.len() > 0,
                !end_of_stream ==> end == total_frames,
                -65_537 <= start <= frame <= end <= total_frames + 65_537,
                values@.len() == (frame - start) * 2,
                forall|model: Model, f: int, channel: int|
                    #![trigger follows(arithmetic, model), self.supplied(model, f, channel)]
                    follows(arithmetic, model) && start <= f < frame && 0 <= channel < 2
                        ==> values@[(f - start) * 2 + channel] == self.supplied(model, f, channel),
            decreases end - frame,
        {
            let left_blend: u64 = if end_of_stream {
                tail_blends[0]
            } else {
                ZERO_BITS
            };
            let right_blend: u64 = if end_of_stream {
                tail_blends[1]
            } else {
                ZERO_BITS
            };
            let left: u64 = self.continued_sample(arithmetic, total_frames, frame, 0, left_blend);
            let right: u64 = self.continued_sample(arithmetic, total_frames, frame, 1, right_blend);
            let ghost before = values@;
            values.push(left);
            values.push(right);
            assert forall|model: Model, f: int, channel: int|
                #![trigger follows(arithmetic, model), self.supplied(model, f, channel)]
                follows(arithmetic, model) && start <= f < frame + 1 && 0 <= channel
                    < 2 implies values@[(f - start) * 2 + channel] == self.supplied(
                model,
                f,
                channel,
            ) by {
                if f == frame {
                    assert(channel == 0 || channel == 1);
                    assert(end_of_stream ==> tail_blends@[channel] == tail_blend_of(
                        model,
                        self.geometry,
                        self.history@,
                        self.buffer_start_frame as int,
                        channel,
                    ));
                } else {
                    assert(values@[(f - start) * 2 + channel] == before[(f - start) * 2 + channel]);
                }
            }
            frame += 1;
        }
        Some(Padding { values, start })
    }

    /// Emit the next tile, four frames or single frame. False while a tile waits.
    fn emit_step<A: Arithmetic>(
        &mut self,
        arithmetic: &A,
        total_frames: i64,
        end_of_stream: bool,
        tiled: bool,
        padding: Option<&Padding>,
        tail_blends: &mut Vec<u64>,
        output: &mut Vec<u64>,
    ) -> (emitted: bool)
        requires
            old(self).wf(),
            total_frames == old(self).total(),
            old(self).geometry.ready(old(self).state().position, old(self).total(), end_of_stream),
            old(self).blends_known(arithmetic, old(tail_blends)@),
            padding matches Some(values) ==> old(self).padded_by(
                arithmetic,
                values,
                end_of_stream,
            ),
        ensures
            final(self).blends_known(arithmetic, final(tail_blends)@),
            ({
                let frames = step_frames(
                    old(self).geometry,
                    if tiled {
                        periods_of(old(self).phase_batch_backend)
                    } else {
                        0
                    },
                    old(self).total(),
                    old(self).buffer_start_frame as int,
                    end_of_stream,
                    padding is Some,
                    old(self).state().position,
                );
                &&& emitted == (frames > 0)
                &&& !emitted ==> *final(output) == *old(output)
                &&& final(self).stepped(*old(self), frames)
                &&& final(output)@.len() == old(output)@.len() + frames
                    * old(self).geometry.channels
                &&& forall|model: Model| #[trigger]
                    follows(arithmetic, model) ==> final(output)@ == old(output)@ + old(
                        self,
                    ).upcoming(model, frames)
            }),
    {
        let ghost before = *self;
        let ghost written = output@;
        let ghost frames = step_frames(
            self.geometry,
            if tiled {
                periods_of(self.phase_batch_backend)
            } else {
                0
            },
            self.total(),
            self.buffer_start_frame as int,
            end_of_stream,
            padding is Some,
            self.state().position,
        );
        proof {
            assert(frames == 0 ==> frames * self.geometry.channels == 0) by (nonlinear_arith);
            assert(frames == 1 ==> frames * self.geometry.channels == self.geometry.channels)
                by (nonlinear_arith);
            assert(frames == 0 ==> frames * self.geometry.step_num == 0) by (nonlinear_arith);
            assert(frames == 1 ==> frames * self.geometry.step_num == self.geometry.step_num)
                by (nonlinear_arith);
            self.lemma_here();
            self.lemma_nothing_upcoming(arithmetic);
            if periods_of(self.phase_batch_backend) > 0 {
                self.lemma_tile_extent();
            }
            assert(periods_of(self.phase_batch_backend) > 0 ==> periods_of(self.phase_batch_backend)
                * self.geometry.step_den as nat > 0) by (nonlinear_arith)
                requires
                    self.geometry.step_den > 0,
            ;
        }
        if tiled {
            match self.try_process_phase_tile(arithmetic, end_of_stream, output) {
                Some(samples) => {
                    assert(forall|model: Model| #[trigger]
                        follows(arithmetic, model) && samples == 0 ==> written + before.upcoming(
                            model,
                            0,
                        ) == written);
                    return samples > 0;
                },
                None => {},
            }
        }
        match padding {
            Some(prepared) => {
                match self.try_process_padded_batch(arithmetic, end_of_stream, prepared) {
                    Some(frames) => {
                        output.extend_from_slice(&frames);
                        assert(output@ =~= written + frames@);
                        return true;
                    },
                    None => {},
                }
            },
            None => {},
        }
        match self.try_process_stereo_batch(arithmetic) {
            Some(frames) => {
                output.extend_from_slice(&frames);
                assert(output@ =~= written + frames@);
                return true;
            },
            None => {},
        }
        match self.try_process_interpolated_stereo_batch(arithmetic, end_of_stream, padding) {
            Some(frames) => {
                output.extend_from_slice(&frames);
                assert(output@ =~= written + frames@);
                return true;
            },
            None => {},
        }
        self.emit_fallback_frame(arithmetic, total_frames, end_of_stream, tail_blends, output);
        self.advance();
        true
    }

    /// No frames, no samples.
    proof fn lemma_nothing_upcoming<A: Arithmetic>(&self, arithmetic: &A)
        ensures
            forall|model: Model| #[trigger]
                follows(arithmetic, model) ==> self.upcoming(model, 0) == Seq::<u64>::empty(),
    {
        assert forall|model: Model| #[trigger] follows(arithmetic, model) implies self.upcoming(
            model,
            0,
        ) == Seq::<u64>::empty() by {
            assert(0nat * self.geometry.channels as nat == 0) by (nonlinear_arith);
            assert(self.upcoming(model, 0) =~= Seq::<u64>::empty());
        }
    }

    /// Emit every frame that is due, in tiles where `tiled`.
    fn emit_due<A: Arithmetic>(
        &mut self,
        arithmetic: &A,
        end_of_stream: bool,
        tiled: bool,
        padding: Option<&Padding>,
        tail_blends: &mut Vec<u64>,
        output: &mut Vec<u64>,
    )
        requires
            old(self).wf(),
            old(self).blends_known(arithmetic, old(tail_blends)@),
            padding matches Some(values) ==> old(self).padded_by(
                arithmetic,
                values,
                end_of_stream,
            ),
        ensures
            ({
                let end = run_end(
                    old(self).geometry,
                    if tiled {
                        periods_of(old(self).phase_batch_backend)
                    } else {
                        0
                    },
                    old(self).total(),
                    old(self).buffer_start_frame as int,
                    end_of_stream,
                    padding is Some,
                    old(self).state().position,
                );
                let frames = ((end - old(self).state().position) / (
                old(self).geometry.step_num as int)) as nat;
                &&& final(self).state().position == end
                &&& final(self).stepped(*old(self), frames)
                &&& final(output)@.len() == old(output)@.len() + frames
                    * old(self).geometry.channels
                &&& forall|model: Model| #[trigger]
                    follows(arithmetic, model) ==> final(output)@ == old(output)@ + old(
                        self,
                    ).upcoming(model, frames)
            }),
    {
        let ghost before = *self;
        let ghost written = output@;
        let ghost g = self.geometry;
        let ghost here = self.state().position;
        let ghost periods: nat = if tiled {
            periods_of(self.phase_batch_backend)
        } else {
            0
        };
        let ghost mut count: nat = 0;
        let total_frames: i64 = self.total_frames();
        proof {
            assert(count * g.step_num == 0 && count * g.channels == 0) by (nonlinear_arith)
                requires
                    count == 0,
            ;
            self.lemma_nothing_upcoming(arithmetic);
        }
        while self.can_emit(total_frames, end_of_stream)
            invariant
                before.wf(),
                self.stepped(before, count),
                g == before.geometry,
                g == self.geometry,
                here == before.state().position,
                total_frames == self.total() == before.total(),
                periods == if tiled {
                    periods_of(before.phase_batch_backend)
                } else {
                    0
                },
                self.phase_batch_backend == before.phase_batch_backend,
                output@.len() == written.len() + count * g.channels,
                self.blends_known(arithmetic, tail_blends@),
                padding matches Some(values) ==> self.padded_by(arithmetic, values, end_of_stream),
                run_end(
                    g,
                    periods,
                    total_frames as int,
                    before.buffer_start_frame as int,
                    end_of_stream,
                    padding is Some,
                    self.state().position,
                ) == run_end(
                    g,
                    periods,
                    total_frames as int,
                    before.buffer_start_frame as int,
                    end_of_stream,
                    padding is Some,
                    here,
                ),
                forall|model: Model| #[trigger]
                    follows(arithmetic, model) ==> output@ == written + before.upcoming(
                        model,
                        count,
                    ),
            ensures
                step_frames(
                    g,
                    periods,
                    total_frames as int,
                    before.buffer_start_frame as int,
                    end_of_stream,
                    padding is Some,
                    self.state().position,
                ) == 0,
            decreases
                    if self.state().position < total_frames * g.step_den {
                        total_frames * g.step_den - self.state().position
                    } else {
                        0
                    },
        {
            let ghost reached = *self;
            let ghost frames = step_frames(
                g,
                periods,
                total_frames as int,
                before.buffer_start_frame as int,
                end_of_stream,
                padding is Some,
                self.state().position,
            );
            proof {
                if frames > 0 {
                    lemma_steps_advance(
                        g,
                        periods,
                        total_frames as int,
                        before.buffer_start_frame as int,
                        end_of_stream,
                        padding is Some,
                        self.state().position,
                    );
                }
            }
            let emitted: bool = self.emit_step(
                arithmetic,
                total_frames,
                end_of_stream,
                tiled,
                padding,
                tail_blends,
                output,
            );
            proof {
                assert(count * g.step_num + frames * g.step_num == (count + frames) * g.step_num)
                    by (nonlinear_arith);
                assert(count * g.channels + frames * g.channels == (count + frames) * g.channels)
                    by (nonlinear_arith);
                assert forall|model: Model| #[trigger] follows(arithmetic, model) implies output@
                    == written + before.upcoming(model, count + frames) by {
                    lemma_rendered_follows(
                        model,
                        g,
                        before.coeffs@,
                        before.history@,
                        before.buffer_start_frame as int,
                        here,
                        count,
                        frames,
                    );
                    assert(output@ =~= written + (before.upcoming(model, count) + reached.upcoming(
                        model,
                        frames,
                    )));
                }
                count = count + frames;
                match padding {
                    Some(values) => {
                        self.lemma_padding_kept(
                            reached,
                            arithmetic,
                            values,
                            end_of_stream,
                            frames,
                        );
                    },
                    None => {},
                }
            }
            if !emitted {
                break;
            }
        }
        proof {
            lemma_fundamental_div_mod_converse(
                count * g.step_num,
                g.step_num as int,
                count as int,
                0,
            );
        }
    }

    /// First input frame that later output still needs, or that may come to decide how the
    /// stream continues past its end.
    fn keep_from_frame(&self, end_of_stream: bool, total_frames: i64) -> (keep_from: i64)
        requires
            self.wf(),
            total_frames == self.total(),
        ensures
            keep_from == retained_from(
                self.geometry,
                self.total(),
                self.buffer_start_frame as int,
                end_of_stream,
                self.state().position,
            ),
    {
        proof {
            self.lemma_here();
        }
        let under_taps: i64 = self.source_index - self.half_taps() - 1;
        let wanted: i64 = if under_taps < total_frames - WINDOW_FRAMES {
            under_taps
        } else {
            total_frames - WINDOW_FRAMES
        };
        if end_of_stream {
            total_frames
        } else if wanted < self.buffer_start_frame {
            self.buffer_start_frame
        } else {
            wanted
        }
    }

    /// Drop the input that is no longer needed.
    fn discard_consumed_input(&mut self, end_of_stream: bool)
        requires
            old(self).wf(),
        ensures
            final(self).wf(),
            final(self).geometry() == old(self).geometry(),
            final(self).bank() == old(self).bank(),
            final(self).backend() == old(self).backend(),
            final(self).state() == (StreamState {
                first: retained_from(
                    old(self).geometry,
                    old(self).total(),
                    old(self).buffer_start_frame as int,
                    end_of_stream,
                    old(self).state().position,
                ),
                ..old(self).state()
            }),
    {
        let total_frames: i64 = self.total_frames();
        let keep_from: i64 = self.keep_from_frame(end_of_stream, total_frames);
        proof {
            let c = self.geometry.channels as int;
            let drop = keep_from - self.buffer_start_frame;
            self.lemma_buffer_len();
            assert(self.buffer.len() == self.buffer@.len());
            assert(0 <= drop * c <= (self.total() - self.buffer_start_frame) * c)
                by (nonlinear_arith)
                requires
                    0 <= drop <= self.total() - self.buffer_start_frame,
                    0 < c,
            ;
            assert(drop <= drop * c) by (nonlinear_arith)
                requires
                    0 <= drop,
                    0 < c,
            ;
            assert(drop * c + self.buffer_start_frame * c == keep_from * c) by (nonlinear_arith)
                requires
                    drop == keep_from - self.buffer_start_frame,
            ;
            assert(0 <= self.buffer_start_frame * c) by (nonlinear_arith)
                requires
                    0 <= self.buffer_start_frame,
                    0 < c,
            ;
            assert(keep_from * c <= self.total() * c) by (nonlinear_arith)
                requires
                    keep_from <= self.total(),
                    0 < c,
            ;
            assert(self.buffer@.subrange(drop * c, self.buffer@.len() as int) =~= self.history@.skip(
                keep_from * c,
            ));
        }
        let samples: usize = (keep_from - self.buffer_start_frame) as usize
            * self.geometry.channels;
        if samples > 0 {
            self.buffer = self.buffer.split_off(samples);
        }
        self.buffer_start_frame = keep_from;
    }

    /// Output frames to reserve for a block.
    fn estimated_output_frames(&self, input_frames: usize) -> (frames: usize)
        requires
            self.wf(),
            estimated_frames(self.geometry, input_frames as nat) <= usize::MAX,
        ensures
            frames == estimated_frames(self.geometry, input_frames as nat),
    {
        let num: u128 = self.geometry.step_num as u128;
        let den: u128 = self.geometry.step_den as u128;
        assert(input_frames * den <= 0xffff_ffff_ffff_ffff * 0xffff_ffff) by (nonlinear_arith)
            requires
                0 <= input_frames <= 0xffff_ffff_ffff_ffff,
                0 <= den <= 0xffff_ffff,
        ;
        assert(0 <= input_frames * den) by (nonlinear_arith);
        divide_up(input_frames as u128 * den, num) as usize + 4
    }

    /// Append a block to the retained input.
    fn append_input(&mut self, input: &[u64])
        requires
            old(self).wf(),
            input@.len() % old(self).geometry().channels as nat == 0,
            old(self).total() + input@.len() / old(self).geometry().channels as nat
                <= MAX_STREAM_FRAMES,
        ensures
            final(self).wf(),
            final(self).geometry() == old(self).geometry(),
            final(self).bank() == old(self).bank(),
            final(self).backend() == old(self).backend(),
            final(self).state() == (StreamState {
                history: old(self).state().history + input@,
                ..old(self).state()
            }),
    {
        let ghost before = self.buffer@;
        let ghost c = self.geometry.channels as int;
        let ghost total = self.total();
        let ghost history = self.history@ + input@;
        let ghost frames = input@.len() as int / c;
        proof {
            lemma_fundamental_div_mod(input@.len() as int, c);
            assert(history.len() == (total + frames) * c) by (nonlinear_arith)
                requires
                    history.len() == total * c + input@.len(),
                    input@.len() == c * frames,
            ;
            lemma_fundamental_div_mod_converse(history.len() as int, c, total + frames, 0);
            assert(0 <= self.buffer_start_frame * c <= total * c) by (nonlinear_arith)
                requires
                    0 <= self.buffer_start_frame <= total,
                    0 < c,
            ;
        }
        self.buffer.extend_from_slice(input);
        self.history = Ghost(history);
        assert(self.buffer@ =~= before + input@);
        assert(self.buffer@ =~= history.skip(self.buffer_start_frame * c));
    }

    /// Replace `output` with the samples that a block brings.
    ///
    /// Stereo streams with a tile layout emit whole tiles until the stream ends, so they
    /// may hold back frames that are due. Every other stream emits all of them.
    pub fn process_f64_into<A: Arithmetic>(
        &mut self,
        arithmetic: &A,
        input: &[u64],
        end_of_stream: bool,
        output: &mut Vec<u64>,
    )
        requires
            old(self).wf(),
            old(self).accepts(input@.len()),
        ensures
            final(self).wf(),
            final(self).geometry() == old(self).geometry(),
            final(self).bank() == old(self).bank(),
            final(self).backend() == old(self).backend(),
            final(self).state() == after_block(
                old(self).geometry(),
                periods_of(old(self).backend()),
                old(self).state(),
                input@,
                end_of_stream,
            ),
            final(output)@.len() == block_frames(
                old(self).geometry(),
                periods_of(old(self).backend()),
                old(self).state(),
                input@,
                end_of_stream,
            ) * old(self).geometry().channels,
            forall|model: Model| #[trigger]
                follows(arithmetic, model) ==> final(output)@ == block_output(
                    model,
                    old(self).geometry(),
                    old(self).bank(),
                    periods_of(old(self).backend()),
                    old(self).state(),
                    input@,
                    end_of_stream,
                ),
    {
        proof {
            self.lemma_accepted(input@.len());
        }
        self.append_input(input);
        let total_frames: i64 = self.total_frames();
        output.clear();
        let input_frames: usize = input.len() / self.geometry.channels;
        output.reserve(self.estimated_output_frames(input_frames) * self.geometry.channels);
        let mut tail_blends: Vec<u64> = Vec::new();
        let padding: Option<Padding> = self.prepare_padding(
            arithmetic,
            total_frames,
            end_of_stream,
            &mut tail_blends,
        );
        self.emit_due(
            arithmetic,
            end_of_stream,
            true,
            padding.as_ref(),
            &mut tail_blends,
            output,
        );
        self.discard_consumed_input(end_of_stream);
        assert forall|model: Model| #[trigger] follows(arithmetic, model) implies output@
            == block_output(
            model,
            old(self).geometry(),
            old(self).bank(),
            periods_of(old(self).backend()),
            old(self).state(),
            input@,
            end_of_stream,
        ) by {
            assert(output@ =~= block_output(
                model,
                old(self).geometry(),
                old(self).bank(),
                periods_of(old(self).backend()),
                old(self).state(),
                input@,
                end_of_stream,
            ));
        }
    }

    /// The samples that a block brings.
    pub fn process_f64<A: Arithmetic>(
        &mut self,
        arithmetic: &A,
        input: &[u64],
        end_of_stream: bool,
    ) -> (output: Vec<u64>)
        requires
            old(self).wf(),
            old(self).accepts(input@.len()),
        ensures
            final(self).wf(),
            final(self).geometry() == old(self).geometry(),
            final(self).bank() == old(self).bank(),
            final(self).backend() == old(self).backend(),
            final(self).state() == after_block(
                old(self).geometry(),
                periods_of(old(self).backend()),
                old(self).state(),
                input@,
                end_of_stream,
            ),
            output@.len() == block_frames(
                old(self).geometry(),
                periods_of(old(self).backend()),
                old(self).state(),
                input@,
                end_of_stream,
            ) * old(self).geometry().channels,
            forall|model: Model| #[trigger]
                follows(arithmetic, model) ==> output@ == block_output(
                    model,
                    old(self).geometry(),
                    old(self).bank(),
                    periods_of(old(self).backend()),
                    old(self).state(),
                    input@,
                    end_of_stream,
                ),
    {
        let mut output: Vec<u64> = Vec::new();
        self.process_f64_into(arithmetic, input, end_of_stream, &mut output);
        output
    }

    /// The narrowed samples that a block of narrow samples brings. Nothing is tiled.
    pub fn process_f32<A: Arithmetic>(
        &mut self,
        arithmetic: &A,
        input: &[u32],
        end_of_stream: bool,
    ) -> (output: Vec<u32>)
        requires
            old(self).wf(),
            old(self).accepts(input@.len()),
        ensures
            final(self).wf(),
            final(self).geometry() == old(self).geometry(),
            final(self).bank() == old(self).bank(),
            final(self).backend() == old(self).backend(),
            exists|samples: Seq<u64>| #[trigger]
                promotes(arithmetic, input@, samples) && final(self).state() == after_block(
                    old(self).geometry(),
                    0,
                    old(self).state(),
                    samples,
                    end_of_stream,
                ) && output@.len() == block_frames(
                    old(self).geometry(),
                    0,
                    old(self).state(),
                    samples,
                    end_of_stream,
                ) * old(self).geometry().channels,
            forall|model: Model| #[trigger]
                follows(arithmetic, model) ==> final(self).state() == after_block(
                    old(self).geometry(),
                    0,
                    old(self).state(),
                    promoted(model, input@),
                    end_of_stream,
                ) && output@ == narrowed(
                    model,
                    block_output(
                        model,
                        old(self).geometry(),
                        old(self).bank(),
                        0,
                        old(self).state(),
                        promoted(model, input@),
                        end_of_stream,
                    ),
                ),
    {
        proof {
            self.lemma_accepted(input@.len());
        }
        let samples: Vec<u64> = promote_all(arithmetic, input);
        self.append_input(samples.as_slice());
        let ghost appended = *self;
        let mut wide: Vec<u64> = Vec::new();
        let input_frames: usize = input.len() / self.geometry.channels;
        wide.reserve(self.estimated_output_frames(input_frames) * self.geometry.channels);
        let mut tail_blends: Vec<u64> = Vec::new();
        self.emit_due(arithmetic, end_of_stream, false, None, &mut tail_blends, &mut wide);
        self.discard_consumed_input(end_of_stream);
        proof {
            // Without tiles it makes no difference whether padding is prepared.
            law_untiled_streams_emit_every_due_frame(
                appended.geometry,
                appended.total(),
                appended.buffer_start_frame as int,
                end_of_stream,
                true,
                appended.state().position,
            );
            law_untiled_streams_emit_every_due_frame(
                appended.geometry,
                appended.total(),
                appended.buffer_start_frame as int,
                end_of_stream,
                false,
                appended.state().position,
            );
            assert forall|model: Model| #[trigger] follows(arithmetic, model) implies samples@
                == promoted(model, input@) && wide@ == block_output(
                model,
                old(self).geometry(),
                old(self).bank(),
                0,
                old(self).state(),
                promoted(model, input@),
                end_of_stream,
            ) by {
                lemma_promoted(arithmetic, model, input@, samples@);
                assert(wide@ =~= block_output(
                    model,
                    old(self).geometry(),
                    old(self).bank(),
                    0,
                    old(self).state(),
                    promoted(model, input@),
                    end_of_stream,
                ));
            }
        }
        narrow_all(arithmetic, wide.as_slice())
    }

    /// Forget the input and start again.
    pub fn reset(&mut self)
        requires
            old(self).wf(),
        ensures
            final(self).wf(),
            final(self).geometry() == old(self).geometry(),
            final(self).bank() == old(self).bank(),
            final(self).backend() == old(self).backend(),
            final(self).state() == fresh_state(),
    {
        self.buffer.clear();
        self.buffer_start_frame = 0;
        self.source_index = 0;
        self.phase_numer = 0;
        self.history = Ghost(Seq::empty());
        proof {
            lemma_empty_stream(self.geometry);
            assert(self.buffer@ =~= self.history@.skip(0));
        }
    }

    /// Whether a block can be processed: it holds whole frames, the stream stays within its
    /// timing limit, and the samples to reserve can be counted.
    pub open spec fn accepts(self, samples: nat) -> bool {
        &&& samples % self.geometry().channels as nat == 0
        &&& self.total() + samples / self.geometry().channels as nat <= MAX_STREAM_FRAMES
        &&& estimated_frames(self.geometry(), samples / self.geometry().channels as nat)
            * self.geometry().channels <= usize::MAX
    }

    /// What an accepted block lets be computed.
    proof fn lemma_accepted(&self, samples: nat)
        requires
            self.wf(),
            self.accepts(samples),
        ensures
            estimated_frames(self.geometry, samples / self.geometry.channels as nat) <= usize::MAX,
    {
        let estimate = estimated_frames(self.geometry, samples / self.geometry.channels as nat);
        assert(estimate <= estimate * self.geometry.channels) by (nonlinear_arith)
            requires
                self.geometry.channels >= 1,
        ;
    }

    /// A stream for a rate pair, before its first block.
    pub fn with_design(
        channels: usize,
        from_rate: u32,
        to_rate: u32,
        design: Design,
        backend: PhaseBatchBackend,
        coeffs: Arc<Vec<u64>>,
    ) -> (stream: Fir)
        requires
            from_rate > 0,
            to_rate > 0,
            geometry_of(channels, from_rate, to_rate, design).valid(),
            coeffs@.len() == geometry_of(channels, from_rate, to_rate, design).bank_len(),
            tile_fits(geometry_of(channels, from_rate, to_rate, design), backend),
        ensures
            stream.wf(),
            stream.geometry() == geometry_of(channels, from_rate, to_rate, design),
            stream.bank() == coeffs@,
            stream.backend() == backend,
            stream.state() == fresh_state(),
    {
        let divisor: u32 = gcd(from_rate, to_rate);
        proof {
            lemma_gcd_positive(from_rate as nat, to_rate as nat);
        }
        let stream: Fir = Fir {
            geometry: Geometry {
                channels,
                phases: design.phases,
                taps: design.taps,
                step_num: from_rate / divisor,
                step_den: to_rate / divisor,
            },
            coeffs,
            buffer: Vec::new(),
            buffer_start_frame: 0,
            source_index: 0,
            phase_numer: 0,
            phase_batch_backend: backend,
            history: Ghost(Seq::empty()),
        };
        proof {
            lemma_empty_stream(stream.geometry);
            assert(stream.source_index * stream.geometry.step_den == 0) by (nonlinear_arith)
                requires
                    stream.source_index == 0,
            ;
            assert(stream.buffer@ =~= stream.history@.skip(0));
        }
        stream
    }

    /// Continue at some point of a stream: with `buffer` as its last input frames, the first
    /// of which is frame `start`, and the next output `phase` positions past frame `source`.
    ///
    /// Earlier input, which no output reads any more, is taken to be zero.
    pub fn resume(&mut self, buffer: Vec<u64>, start: i64, source: i64, phase: u32)
        requires
            old(self).wf(),
            buffer@.len() % old(self).geometry().channels as nat == 0,
            0 <= start,
            start + buffer@.len() / old(self).geometry().channels as nat <= MAX_STREAM_FRAMES,
            0 <= source <= start + buffer@.len() / old(self).geometry().channels as nat + u32::MAX,
            phase < old(self).geometry().step_den,
        ensures
            final(self).wf(),
            final(self).geometry() == old(self).geometry(),
            final(self).bank() == old(self).bank(),
            final(self).backend() == old(self).backend(),
            final(self).state() == (StreamState {
                history: Seq::new(
                    (start * old(self).geometry().channels) as nat,
                    |i: int| ZERO_BITS,
                ) + buffer@,
                first: start as int,
                position: source * old(self).geometry().step_den + phase,
            }),
            final(self).total() == start + buffer@.len() / old(self).geometry().channels as nat,
    {
        let ghost c = self.geometry.channels as int;
        let ghost earlier = Seq::new((start * c) as nat, |i: int| ZERO_BITS);
        let ghost history = earlier + buffer@;
        proof {
            let frames = buffer@.len() as int / c;
            lemma_fundamental_div_mod(buffer@.len() as int, c);
            assert(0 <= start * c) by (nonlinear_arith)
                requires
                    0 <= start,
                    0 < c,
            ;
            assert(history.len() == (start + frames) * c) by (nonlinear_arith)
                requires
                    history.len() == start * c + buffer@.len(),
                    buffer@.len() == c * frames,
            ;
            lemma_fundamental_div_mod_converse(history.len() as int, c, start + frames, 0);
            assert(buffer@ =~= history.skip(start * c));
        }
        self.buffer = buffer;
        self.buffer_start_frame = start;
        self.source_index = source;
        self.phase_numer = phase;
        self.history = Ghost(history);
    }

    /// Streams have valid constants.
    pub proof fn lemma_valid(self)
        requires
            self.wf(),
        ensures
            self.geometry().valid(),
            tile_fits(self.geometry(), self.backend()),
            periods_of(self.backend()) * self.geometry().step_num <= 16_777_216,
    {
        let periods = periods_of(self.phase_batch_backend);
        let num = self.geometry.step_num;
        if periods > 0 {
            self.lemma_tile_extent();
            assert(periods * num <= 16 * 1_048_576) by (nonlinear_arith)
                requires
                    0 <= periods <= 16,
                    0 <= num <= 1_048_576,
            ;
        } else {
            assert(periods * num == 0) by (nonlinear_arith)
                requires
                    periods == 0,
            ;
        }
    }

    /// Banks have a row for every phase and one more.
    pub proof fn lemma_bank_len(self)
        requires
            self.wf(),
        ensures
            self.bank().len() == self.geometry().bank_len() <= MAX_COEFFICIENT_VALUES,
    {
    }

    /// Phase rows, excluding the interpolation row.
    pub fn phases(&self) -> (phases: usize)
        ensures
            phases == self.geometry().phases,
    {
        self.geometry.phases
    }

    /// Coefficients in each phase row.
    pub fn taps(&self) -> (taps: usize)
        ensures
            taps == self.geometry().taps,
    {
        self.geometry.taps
    }

    /// Phase-major coefficients.
    pub fn coefficients(&self) -> (coefficients: &[u64])
        ensures
            coefficients@ == self.bank(),
    {
        self.coeffs.as_slice()
    }

    /// Input frames that tiles hold back at most, beyond the lookahead.
    pub fn additional_batch_input_frames(&self) -> (frames: usize)
        requires
            self.wf(),
        ensures
            frames == periods_of(self.backend()) * self.geometry().step_num,
    {
        proof {
            self.lemma_valid();
        }
        self.phase_batch_backend.periods() * self.geometry.step_num as usize
    }
}

/// Which period, output and channel a sample of a tile belongs to.
proof fn lemma_cell(i: int, den: int, cycles: int)
    requires
        0 <= i < cycles * den * 2,
        0 < den,
    ensures
        0 <= (i / 2) / den < cycles,
        0 <= (i / 2) % den < den,
        ((i / 2) / den * den + (i / 2) % den) * 2 + i % 2 == i,
{
    lemma_fundamental_div_mod(i / 2, den);
    assert(0 <= (i / 2) / den < cycles) by (nonlinear_arith)
        requires
            i / 2 == den * ((i / 2) / den) + (i / 2) % den,
            0 <= (i / 2) % den < den,
            0 <= i / 2 < cycles * den,
            0 < den,
    ;
    assert((i / 2) / den * den == den * ((i / 2) / den)) by (nonlinear_arith);
}

/// Store the sums of one output of every period at its place in a tile.
fn store_phase(
    output: &mut Vec<u64>,
    den: usize,
    ahead: usize,
    cycles: usize,
    sums: &Vec<u64>,
)
    requires
        0 < den <= MAX_EXACT_PHASES,
        ahead < den,
        0 < cycles <= 16,
        sums@.len() == cycles * 2,
        old(output)@.len() == cycles * den * 2,
    ensures
        final(output)@.len() == old(output)@.len(),
        forall|i: int|
            #![trigger final(output)@[i]]
            0 <= i < cycles * den * 2 ==> final(output)@[i] == if (i / 2) % (den as int)
                == ahead {
                sums@[(i / 2) / (den as int) * 2 + i % 2]
            } else {
                old(output)@[i]
            },
{
    let ghost before = output@;
    let mut cycle: usize = 0;
    while cycle < cycles
        invariant
            0 < den <= MAX_EXACT_PHASES,
            ahead < den,
            cycle <= cycles <= 16,
            sums@.len() == cycles * 2,
            output@.len() == before.len() == cycles * den * 2,
            forall|i: int|
                #![trigger output@[i]]
                0 <= i < cycles * den * 2 ==> output@[i] == if (i / 2) % (den as int)
                    == ahead && (i / 2) / (den as int) < cycle {
                    sums@[(i / 2) / (den as int) * 2 + i % 2]
                } else {
                    before[i]
                },
        decreases cycles - cycle,
    {
        assert(0 <= cycle * den && cycle * den + den <= cycles * den) by (nonlinear_arith)
            requires
                0 <= cycle < cycles,
                0 < den,
        ;
        assert(cycles * den <= 16 * 2048) by (nonlinear_arith)
            requires
                0 <= cycles <= 16,
                0 <= den <= 2048,
        ;
        let target: usize = (cycle * den + ahead) * 2;
        let ghost stored = output@;
        output.set(target, sums[cycle * 2]);
        output.set(target + 1, sums[cycle * 2 + 1]);
        assert forall|i: int|
            #![trigger output@[i]]
            0 <= i < cycles * den * 2 implies output@[i] == if (i / 2) % (den as int)
            == ahead && (i / 2) / (den as int) < cycle + 1 {
            sums@[(i / 2) / (den as int) * 2 + i % 2]
        } else {
            before[i]
        } by {
            lemma_cell(i, den as int, cycles as int);
            let at = stored[i];
            if i == target || i == target + 1 {
                lemma_fundamental_div_mod_converse(i / 2, den as int, cycle as int, ahead as int);
            }
        }
        cycle += 1;
    }
    assert forall|i: int|
        #![trigger output@[i]]
        0 <= i < cycles * den * 2 implies output@[i] == if (i / 2) % (den as int)
        == ahead {
        sums@[(i / 2) / (den as int) * 2 + i % 2]
    } else {
        before[i]
    } by {
        lemma_cell(i, den as int, cycles as int);
    }
}

} // verus!
