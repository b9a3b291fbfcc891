//! The public converter: construction, validation, and the life of a stream.

use std::sync::Arc;

use vstd::arithmetic::div_mod::{
    lemma_div_is_ordered, lemma_fundamental_div_mod, lemma_fundamental_div_mod_converse,
};
use vstd::prelude::*;
use vstd::slice::slice_to_vec;

use crate::arithmetic::{follows, Arithmetic, Model};
use crate::backend::{
    backend_for_rates, law_tiles_stay_within_limits, periods_of, phase_batch_backend_for_rates,
    CpuFeatures, PhaseBatchBackend,
};
use crate::bank::{bank_of, shape_of};
use crate::behaviour::{output_bound, Behaviour, Filtering};
use crate::cache::COEFFICIENT_BYTES;
use crate::config::{Error, FilterInfo, FilterLength, FilterLengthPolicy};
use crate::design::{
    accepted_length, ceil_div, design_of, divide_up, fractional_positions, gcd_of,
    law_designs_are_bounded, law_support_time_is_bounded, lemma_ceil_div_scales, lemma_limits,
    lemma_reduced, select, tap_limit, Design, MAX_EXACT_PHASES,
};
use crate::fir::{
    estimated_frames, geometry_of, narrowed, promoted, promotes, tile_fits, Fir, MAX_STREAM_FRAMES,
};
use crate::host::{banks_fit, precise, precise_bank, Host};
use crate::laws::{
    law_block_output_is_bounded, law_blocks_keep_streams_sound, lemma_append_whole,
    lemma_fresh_is_sound, sound,
};
use crate::precision::{precise_model, prototype_of};
use crate::stream::{after_block, block_frames, block_output, fresh_state, Geometry};

verus! {

/// Bytes of a retained frame per channel that a stream may need: the widest filter and
/// its neighbors, eight bytes each.
pub const FRAME_BUDGET: usize = 524_296;

/// Why a configuration is refused, if it is.
pub open spec fn configuration_error(
    input_rate: u32,
    output_rate: u32,
    channels: usize,
    filter_length: FilterLength,
) -> Option<Error> {
    if input_rate == 0 || output_rate == 0 {
        Some(Error::ZeroSampleRate)
    } else if channels == 0 {
        Some(Error::ZeroChannels)
    } else if channels > isize::MAX as int / FRAME_BUDGET as int {
        Some(Error::SizeOverflow)
    } else if !accepted_length(input_rate as nat, output_rate as nat, filter_length) {
        Some(
            Error::InvalidFilterLength {
                requested: filter_length->Custom_0,
                maximum: tap_limit(input_rate as nat, output_rate as nat) as usize,
            },
        )
    } else {
        None
    }
}

/// A fixed-rate converter with independent interleaved channels.
///
/// Coefficients and sums have binary64 precision. `process_f32` promotes its input and
/// rounds only the returned samples. Equal rates bypass filtering.
pub struct Resampler {
    inner: Option<Fir>,
    input_rate: u32,
    output_rate: u32,
    channels: usize,
    filter_length_policy: FilterLengthPolicy,
    input_frames: u64,
    finished: bool,
}

impl Resampler {
    /// The filtered stream. None for equal rates.
    pub closed spec fn stream(self) -> Option<Fir> {
        self.inner
    }

    /// Input sample rate.
    pub closed spec fn input_rate(self) -> u32 {
        self.input_rate
    }

    /// Output sample rate.
    pub closed spec fn output_rate(self) -> u32 {
        self.output_rate
    }

    /// Interleaved channels per frame.
    pub closed spec fn channels(self) -> usize {
        self.channels
    }

    /// Length policy chosen at construction.
    pub closed spec fn policy(self) -> FilterLengthPolicy {
        self.filter_length_policy
    }

    /// Input frames of the stream so far.
    pub closed spec fn input_frames(self) -> nat {
        self.input_frames as nat
    }

    /// The final block has been processed.
    pub closed spec fn finished(self) -> bool {
        self.finished
    }

    /// What holds of every converter between two calls.
    pub closed spec fn wf(self) -> bool {
        &&& self.input_rate > 0
        &&& self.output_rate > 0
        &&& 0 < self.channels <= isize::MAX as int / FRAME_BUDGET as int
        &&& self.input_frames <= MAX_STREAM_FRAMES
        &&& self.inner is None <==> self.input_rate == self.output_rate
        &&& self.inner matches Some(stream) ==> {
            let g = stream.geometry();
            let divisor = gcd_of(self.input_rate as nat, self.output_rate as nat);
            &&& stream.wf()
            &&& g.channels == self.channels
            &&& g.step_num == self.input_rate as nat / divisor
            &&& g.step_den == self.output_rate as nat / divisor
            &&& self.input_frames == stream.total()
            &&& !self.finished ==> sound(g, periods_of(stream.backend()), stream.state())
        }
    }

    /// Everything that the converter's answers depend on.
    pub open spec fn behaviour(self) -> Behaviour {
        Behaviour {
            input_rate: self.input_rate(),
            output_rate: self.output_rate(),
            channels: self.channels(),
            filtering: match self.stream() {
                Some(stream) => Some(
                    Filtering {
                        geometry: stream.geometry(),
                        bank: stream.bank(),
                        periods: periods_of(stream.backend()),
                        state: stream.state(),
                    },
                ),
                None => None,
            },
            input_frames: self.input_frames(),
            finished: self.finished(),
        }
    }

    /// Frames that a stream may hold back: its lookahead and one tile.
    pub open spec fn pending(self) -> nat {
        self.behaviour().pending()
    }

    /// Why a block of `samples` is refused, if it is.
    pub open spec fn block_error(self, samples: usize) -> Option<Error> {
        self.behaviour().block_error(samples)
    }

    /// Configuration and filter are the same; only the stream may differ.
    pub open spec fn same_configuration(self, other: Resampler) -> bool {
        &&& self.input_rate() == other.input_rate()
        &&& self.output_rate() == other.output_rate()
        &&& self.channels() == other.channels()
        &&& self.policy() == other.policy()
        &&& self.stream() is Some <==> other.stream() is Some
        &&& self.stream() matches Some(stream) ==> stream.geometry()
            == other.stream()->0.geometry() && stream.bank() == other.stream()->0.bank()
            && stream.backend() == other.stream()->0.backend()
    }

    /// Size and buffering of the filter.
    pub open spec fn info(self) -> FilterInfo {
        FilterInfo {
            input_rate: self.input_rate(),
            output_rate: self.output_rate(),
            channels: self.channels(),
            phases: match self.stream() {
                Some(stream) => stream.geometry().phases,
                None => 0,
            },
            taps_per_phase: match self.stream() {
                Some(stream) => stream.geometry().taps,
                None => 0,
            },
            lookahead_input_frames: match self.stream() {
                Some(stream) => stream.geometry().half() as usize,
                None => 0,
            },
            additional_batch_input_frames: match self.stream() {
                Some(stream) => (periods_of(stream.backend()) * stream.geometry().step_num) as usize,
                None => 0,
            },
            coefficient_bytes: match self.stream() {
                Some(stream) => (stream.bank().len() * COEFFICIENT_BYTES) as usize,
                None => 0,
            },
            bypass: self.stream() is None,
            uses_precise_c1_bank: false,
        }
    }

    /// Construct a converter with the Standard length of the generic policy.
    pub fn new<H: Host>(
        input_rate: u32,
        output_rate: u32,
        channels: usize,
        host: &H,
    ) -> (converter: Result<Self, Error>)
        requires
            banks_fit(host),
        ensures
            constructed(
                host,
                input_rate,
                output_rate,
                channels,
                FilterLength::Standard,
                FilterLengthPolicy::Generic,
                converter,
            ),
    {
        Self::with_filter_length(input_rate, output_rate, channels, FilterLength::Standard, host)
    }

    /// Construct a converter with a length preset or an exact tap count under the generic
    /// policy.
    pub fn with_filter_length<H: Host>(
        input_rate: u32,
        output_rate: u32,
        channels: usize,
        filter_length: FilterLength,
        host: &H,
    ) -> (converter: Result<Self, Error>)
        requires
            banks_fit(host),
        ensures
            constructed(
                host,
                input_rate,
                output_rate,
                channels,
                filter_length,
                FilterLengthPolicy::Generic,
                converter,
            ),
    {
        Self::with_filter_length_policy(
            input_rate,
            output_rate,
            channels,
            filter_length,
            FilterLengthPolicy::Generic,
            host,
        )
    }

    /// Construct a converter with a length and the policy that presets are measured by.
    ///
    /// Custom lengths are validated for equal rates too, which need no filter.
    pub fn with_filter_length_policy<H: Host>(
        input_rate: u32,
        output_rate: u32,
        channels: usize,
        filter_length: FilterLength,
        policy: FilterLengthPolicy,
        host: &H,
    ) -> (converter: Result<Self, Error>)
        requires
            banks_fit(host),
        ensures
            constructed(
                host,
                input_rate,
                output_rate,
                channels,
                filter_length,
                policy,
                converter,
            ),
    {
        if input_rate == 0 || output_rate == 0 {
            return Err(Error::ZeroSampleRate);
        }
        if channels == 0 {
            return Err(Error::ZeroChannels);
        }
        if channels > isize::MAX as usize / FRAME_BUDGET {
            return Err(Error::SizeOverflow);
        }
        let design: Design = match select(input_rate, output_rate, filter_length, policy) {
            Ok(design) => design,
            Err(error) => {
                return Err(error);
            },
        };
        let inner: Option<Fir> = if input_rate == output_rate {
            None
        } else {
            proof {
                lemma_designed(input_rate, output_rate, channels, filter_length, policy);
            }
            let backend: PhaseBatchBackend = if channels == 2 {
                let features: CpuFeatures = host.features();
                proof {
                    lemma_tile_fits(input_rate, output_rate, channels, design, features);
                }
                phase_batch_backend_for_rates(input_rate, output_rate, design, features)
            } else {
                PhaseBatchBackend::Disabled
            };
            let bank: Arc<Vec<u64>> = host.shared_coefficients(input_rate, output_rate, design);
            let stream: Fir = Fir::with_design(
                channels,
                input_rate,
                output_rate,
                design,
                backend,
                bank,
            );
            proof {
                lemma_fresh_is_sound(stream.geometry(), periods_of(stream.backend()));
                lemma_empty(stream.geometry());
            }
            Some(stream)
        };
        let converter: Resampler = Resampler {
            inner,
            input_rate,
            output_rate,
            channels,
            filter_length_policy: policy,
            input_frames: 0,
            finished: false,
        };
        Ok(converter)
    }
}

impl Resampler {
    /// Read the length policy selected at construction.
    pub fn filter_length_policy(&self) -> (policy: FilterLengthPolicy)
        ensures
            policy == self.policy(),
    {
        self.filter_length_policy
    }

    /// Read the size and buffering of the filter.
    pub fn filter_info(&self) -> (info: FilterInfo)
        requires
            self.wf(),
        ensures
            info == self.info(),
    {
        match &self.inner {
            Some(stream) => {
                proof {
                    stream.lemma_bank_len();
                }
                FilterInfo {
                    input_rate: self.input_rate,
                    output_rate: self.output_rate,
                    channels: self.channels,
                    phases: stream.phases(),
                    taps_per_phase: stream.taps(),
                    lookahead_input_frames: stream.taps() / 2,
                    additional_batch_input_frames: stream.additional_batch_input_frames(),
                    coefficient_bytes: stream.coefficients().len() * COEFFICIENT_BYTES,
                    bypass: false,
                    uses_precise_c1_bank: false,
                }
            },
            None => FilterInfo {
                input_rate: self.input_rate,
                output_rate: self.output_rate,
                channels: self.channels,
                phases: 0,
                taps_per_phase: 0,
                lookahead_input_frames: 0,
                additional_batch_input_frames: 0,
                coefficient_bytes: 0,
                bypass: true,
                uses_precise_c1_bank: false,
            },
        }
    }

    /// Read phase-major coefficients, with one extra final row. Empty for equal rates.
    pub fn coefficients(&self) -> (coefficients: &[u64])
        ensures
            coefficients@ == match self.stream() {
                Some(stream) => stream.bank(),
                None => Seq::<u64>::empty(),
            },
    {
        match &self.inner {
            Some(stream) => stream.coefficients(),
            None => {
                let none: &[u64] = &[];
                assert(none@ =~= Seq::<u64>::empty());
                none
            },
        }
    }

    /// Clear history and timing. The filter stays.
    pub fn reset(&mut self)
        requires
            old(self).wf(),
        ensures
            final(self).wf(),
            final(self).same_configuration(*old(self)),
            final(self).input_frames() == 0,
            !final(self).finished(),
            final(self).stream() matches Some(stream) ==> stream.state() == fresh_state(),
            final(self).behaviour() == old(self).behaviour().restarted(),
    {
        match &mut self.inner {
            Some(stream) => {
                stream.reset();
            },
            None => {},
        }
        self.input_frames = 0;
        self.finished = false;
        proof {
            match &self.inner {
                Some(stream) => {
                    stream.lemma_valid();
                    lemma_fresh_is_sound(stream.geometry(), periods_of(stream.backend()));
                    lemma_empty(stream.geometry());
                },
                None => {},
            }
        }
    }

    /// Check a block of `samples` and count its frames.
    fn validate(&self, samples: usize) -> (frames: Result<usize, Error>)
        requires
            self.wf(),
        ensures
            match self.block_error(samples) {
                Some(error) => frames == Err::<usize, Error>(error),
                None => frames == Ok::<usize, Error>(samples / self.channels()),
            },
    {
        if self.finished && samples != 0 {
            return Err(Error::StreamFinished);
        }
        if samples % self.channels != 0 {
            return Err(Error::IncompleteFrame { samples, channels: self.channels });
        }
        let frames: usize = samples / self.channels;
        let total: u128 = self.input_frames as u128 + frames as u128;
        if total > MAX_STREAM_FRAMES as u128 {
            return Err(Error::SizeOverflow);
        }
        let info: FilterInfo = self.filter_info();
        let pending: u128 = info.lookahead_input_frames as u128
            + info.additional_batch_input_frames as u128;
        proof {
            match &self.inner {
                Some(stream) => {
                    stream.lemma_valid();
                },
                None => {},
            }
        }
        let waiting: u128 = frames as u128 + pending + 2;
        assert(waiting * self.output_rate <= 0x4_0000_0000_0000_0000 * 0xffff_ffff)
            by (nonlinear_arith)
            requires
                0 <= waiting <= 0x4_0000_0000_0000_0000,
                0 <= self.output_rate <= 0xffff_ffff,
        ;
        let max_output: u128 = divide_up(
            waiting * self.output_rate as u128,
            self.input_rate as u128,
        ) + 8;
        let limit: u128 = isize::MAX as u128 / 8;
        proof {
            let c = self.channels as int;
            lemma_fundamental_div_mod(limit as int, c);
            assert(max_output * c > limit <==> max_output > limit as int / c) by (nonlinear_arith)
                requires
                    limit == c * (limit as int / c) + limit as int % c,
                    0 <= limit as int % c < c,
            ;
            assert(max_output == output_bound(
                frames as nat,
                self.pending(),
                self.input_rate as nat,
                self.output_rate as nat,
            ));
        }
        if max_output > limit / self.channels as u128 {
            return Err(Error::SizeOverflow);
        }
        Ok(frames)
    }
}

impl Resampler {
    /// The converter has taken a block of `samples`.
    pub open spec fn took(self, before: Resampler, samples: nat, end_of_stream: bool) -> bool {
        &&& self.wf()
        &&& self.same_configuration(before)
        &&& self.input_frames() == before.input_frames() + samples / before.channels() as nat
        &&& self.finished() == end_of_stream
    }

    /// Filtered converters have valid constants.
    pub proof fn lemma_stream_is_valid(self)
        requires
            self.wf(),
        ensures
            self.stream() matches Some(stream) ==> stream.geometry().valid(),
    {
        match self.inner {
            Some(stream) => {
                stream.lemma_valid();
            },
            None => {},
        }
    }

    /// Filtered converters hold as many coefficients as their constants ask for.
    pub proof fn lemma_stream_bank(self)
        requires
            self.wf(),
        ensures
            self.stream() matches Some(stream) ==> stream.bank().len() == (stream.geometry().phases
                + 1) * stream.geometry().taps <= 8_388_608 && periods_of(stream.backend())
                * stream.geometry().step_num <= 16_777_216,
    {
        match self.inner {
            Some(stream) => {
                stream.lemma_valid();
                stream.lemma_bank_len();
            },
            None => {},
        }
    }

    /// An accepted block can be processed.
    proof fn lemma_accepted(&self, samples: usize)
        requires
            self.wf(),
            self.block_error(samples) is None,
        ensures
            self.inner matches Some(stream) ==> stream.accepts(samples as nat),
    {
        match &self.inner {
            Some(stream) => {
                let from = self.input_rate as nat;
                let to = self.output_rate as nat;
                let g = stream.geometry();
                let frames = samples as nat / self.channels as nat;
                let divisor = gcd_of(from, to);
                let wanted = frames + self.pending() + 2;
                stream.lemma_valid();
                lemma_reduced(from, to);
                lemma_ceil_div_scales(frames * g.step_den as nat, g.step_num as nat, divisor);
                assert(divisor * (frames * g.step_den as nat) == frames * to) by (nonlinear_arith)
                    requires
                        to == g.step_den as nat * divisor,
                ;
                assert(divisor * g.step_num as nat == from) by (nonlinear_arith)
                    requires
                        from == g.step_num as nat * divisor,
                ;
                assert(frames * to <= wanted * to) by (nonlinear_arith)
                    requires
                        frames <= wanted,
                ;
                assert(0 <= frames * to) by (nonlinear_arith);
                lemma_div_is_ordered(frames * to + from - 1, wanted * to + from - 1, from as int);
                let estimate = estimated_frames(g, frames);
                let bound = output_bound(frames, self.pending(), from, to);
                assert(estimate <= bound);
                assert(estimate * g.channels <= bound * self.channels) by (nonlinear_arith)
                    requires
                        estimate <= bound,
                        g.channels == self.channels,
                ;
            },
            None => {},
        }
    }

    /// Replace `output` with the samples that a block brings.
    ///
    /// Output may be empty while lookahead is collected. The final block brings all that is
    /// left. Refused blocks change neither the stream nor `output`. After the final block
    /// only empty blocks are accepted, and they bring nothing.
    pub fn process_f64_into<A: Arithmetic>(
        &mut self,
        arithmetic: &A,
        input: &[u64],
        end_of_stream: bool,
        output: &mut Vec<u64>,
    ) -> (result: Result<(), Error>)
        requires
            old(self).wf(),
        ensures
            final(self).wf(),
            final(self).policy() == old(self).policy(),
            final(self).behaviour() == old(self).behaviour().after_wide(input@, end_of_stream),
            forall|model: Model| #[trigger]
                follows(arithmetic, model) ==> match old(self).behaviour().wide_answer(
                    model,
                    input@,
                    end_of_stream,
                ) {
                    Ok(samples) => result is Ok && final(output)@ == samples,
                    Err(error) => result == Err::<(), Error>(error),
                },
            match old(self).block_error(input.len()) {
                Some(error) => {
                    &&& result == Err::<(), Error>(error)
                    &&& *final(self) == *old(self)
                    &&& *final(output) == *old(output)
                },
                None => {
                    &&& result == Ok::<(), Error>(())
                    &&& old(self).finished() ==> *final(self) == *old(self) && final(output)@
                        == Seq::<u64>::empty()
                    &&& !old(self).finished() ==> {
                        &&& final(self).took(*old(self), input@.len(), end_of_stream)
                        &&& match old(self).stream() {
                            None => final(output)@ == input@,
                            Some(stream) => {
                                &&& final(self).stream()->0.state() == after_block(
                                    stream.geometry(),
                                    periods_of(stream.backend()),
                                    stream.state(),
                                    input@,
                                    end_of_stream,
                                )
                                &&& final(output)@.len() == block_frames(
                                    stream.geometry(),
                                    periods_of(stream.backend()),
                                    stream.state(),
                                    input@,
                                    end_of_stream,
                                ) * stream.geometry().channels
                                &&& forall|model: Model| #[trigger]
                                    follows(arithmetic, model) ==> final(output)@ == block_output(
                                        model,
                                        stream.geometry(),
                                        stream.bank(),
                                        periods_of(stream.backend()),
                                        stream.state(),
                                        input@,
                                        end_of_stream,
                                    )
                            },
                        }
                    }
                },
            },
    {
        let frames: usize = match self.validate(input.len()) {
            Ok(frames) => frames,
            Err(error) => {
                return Err(error);
            },
        };
        if self.finished {
            output.clear();
            return Ok(());
        }
        proof {
            self.lemma_accepted(input.len());
            self.lemma_stays_sound(periods_of(self.inner->0.backend()), input@);
        }
        match &mut self.inner {
            Some(stream) => {
                stream.process_f64_into(arithmetic, input, end_of_stream, output);
            },
            None => {
                output.clear();
                output.extend_from_slice(input);
                assert(output@ =~= input@);
            },
        }
        self.input_frames = self.input_frames + frames as u64;
        self.finished = end_of_stream;
        Ok(())
    }

    /// The samples that a block brings. The stream behaves as with
    /// [`Self::process_f64_into`].
    pub fn process_f64<A: Arithmetic>(
        &mut self,
        arithmetic: &A,
        input: &[u64],
        end_of_stream: bool,
    ) -> (result: Result<Vec<u64>, Error>)
        requires
            old(self).wf(),
        ensures
            final(self).wf(),
            final(self).policy() == old(self).policy(),
            final(self).behaviour() == old(self).behaviour().after_wide(input@, end_of_stream),
            forall|model: Model| #[trigger]
                follows(arithmetic, model) ==> match old(self).behaviour().wide_answer(
                    model,
                    input@,
                    end_of_stream,
                ) {
                    Ok(samples) => result matches Ok(output) && output@ == samples,
                    Err(error) => result == Err::<Vec<u64>, Error>(error),
                },
            match old(self).block_error(input.len()) {
                Some(error) => {
                    &&& result == Err::<Vec<u64>, Error>(error)
                    &&& *final(self) == *old(self)
                },
                None => result matches Ok(output) && {
                    &&& old(self).finished() ==> *final(self) == *old(self) && output@ == Seq::<
                        u64,
                    >::empty()
                    &&& !old(self).finished() ==> {
                        &&& final(self).took(*old(self), input@.len(), end_of_stream)
                        &&& match old(self).stream() {
                            None => output@ == input@,
                            Some(stream) => {
                                &&& final(self).stream()->0.state() == after_block(
                                    stream.geometry(),
                                    periods_of(stream.backend()),
                                    stream.state(),
                                    input@,
                                    end_of_stream,
                                )
                                &&& output@.len() == block_frames(
                                    stream.geometry(),
                                    periods_of(stream.backend()),
                                    stream.state(),
                                    input@,
                                    end_of_stream,
                                ) * stream.geometry().channels
                                &&& forall|model: Model| #[trigger]
                                    follows(arithmetic, model) ==> output@ == block_output(
                                        model,
                                        stream.geometry(),
                                        stream.bank(),
                                        periods_of(stream.backend()),
                                        stream.state(),
                                        input@,
                                        end_of_stream,
                                    )
                            },
                        }
                    }
                },
            },
    {
        let mut output: Vec<u64> = Vec::new();
        match self.process_f64_into(arithmetic, input, end_of_stream, &mut output) {
            Ok(()) => Ok(output),
            Err(error) => Err(error),
        }
    }

    /// The narrow samples that a block of narrow samples brings. The stream behaves as with
    /// [`Self::process_f64_into`], but nothing is held back in tiles.
    pub fn process_f32<A: Arithmetic>(
        &mut self,
        arithmetic: &A,
        input: &[u32],
        end_of_stream: bool,
    ) -> (result: Result<Vec<u32>, Error>)
        requires
            old(self).wf(),
        ensures
            final(self).wf(),
            final(self).policy() == old(self).policy(),
            forall|model: Model| #[trigger]
                follows(arithmetic, model) ==> {
                    &&& final(self).behaviour() == old(self).behaviour().after_narrow(
                        model,
                        input@,
                        end_of_stream,
                    )
                    &&& match old(self).behaviour().narrow_answer(model, input@, end_of_stream) {
                        Ok(samples) => result matches Ok(output) && output@ == samples,
                        Err(error) => result == Err::<Vec<u32>, Error>(error),
                    }
                },
            match old(self).block_error(input.len()) {
                Some(error) => {
                    &&& result == Err::<Vec<u32>, Error>(error)
                    &&& *final(self) == *old(self)
                },
                None => result matches Ok(output) && {
                    &&& old(self).finished() ==> *final(self) == *old(self) && output@ == Seq::<
                        u32,
                    >::empty()
                    &&& !old(self).finished() ==> {
                        &&& final(self).took(*old(self), input@.len(), end_of_stream)
                        &&& match old(self).stream() {
                            None => output@ == input@,
                            Some(stream) => {
                                &&& exists|samples: Seq<u64>| #[trigger]
                                    promotes(arithmetic, input@, samples)
                                        && final(self).stream()->0.state() == after_block(
                                        stream.geometry(),
                                        0,
                                        stream.state(),
                                        samples,
                                        end_of_stream,
                                    ) && output@.len() == block_frames(
                                        stream.geometry(),
                                        0,
                                        stream.state(),
                                        samples,
                                        end_of_stream,
                                    ) * stream.geometry().channels
                                &&& forall|model: Model| #[trigger]
                                    follows(arithmetic, model) ==> output@ == narrowed(
                                        model,
                                        block_output(
                                            model,
                                            stream.geometry(),
                                            stream.bank(),
                                            0,
                                            stream.state(),
                                            promoted(model, input@),
                                            end_of_stream,
                                        ),
                                    )
                            },
                        }
                    }
                },
            },
    {
        let frames: usize = match self.validate(input.len()) {
            Ok(frames) => frames,
            Err(error) => {
                return Err(error);
            },
        };
        if self.finished {
            return Ok(Vec::new());
        }
        proof {
            self.lemma_accepted(input.len());
            assert forall|samples: Seq<u64>| #[trigger]
                promotes(arithmetic, input@, samples) && self.inner is Some implies ({
                let stream = self.inner->0;
                let after = after_block(
                    stream.geometry(),
                    0,
                    stream.state(),
                    samples,
                    end_of_stream,
                );
                &&& stream.geometry().frames(after.history) == self.input_frames + input@.len()
                    / self.channels as nat
                &&& !end_of_stream ==> sound(
                    stream.geometry(),
                    periods_of(stream.backend()),
                    after,
                )
            }) by {
                self.lemma_stays_sound(0, samples);
            }
        }
        let output: Vec<u32> = match &mut self.inner {
            Some(stream) => stream.process_f32(arithmetic, input, end_of_stream),
            None => slice_to_vec(input),
        };
        self.input_frames = self.input_frames + frames as u64;
        self.finished = end_of_stream;
        Ok(output)
    }

    /// A stream that goes on stays sound, and counts its frames.
    proof fn lemma_stays_sound(&self, periods: nat, input: Seq<u64>)
        requires
            self.wf(),
            !self.finished,
            input.len() % self.channels as nat == 0,
            self.inner matches Some(stream) ==> periods == 0 || periods == periods_of(
                stream.backend(),
            ),
        ensures
            self.inner matches Some(stream) ==> ({
                let g = stream.geometry();
                &&& sound(
                    g,
                    periods_of(stream.backend()),
                    after_block(g, periods, stream.state(), input, false),
                )
                &&& g.frames(stream.state().history + input) == self.input_frames + input.len()
                    / self.channels as nat
            }),
    {
        match &self.inner {
            Some(stream) => {
                let g = stream.geometry();
                stream.lemma_valid();
                law_blocks_keep_streams_sound(
                    g,
                    periods_of(stream.backend()),
                    periods,
                    stream.state(),
                    input,
                );
                lemma_append_whole(g, stream.state().history, input);
                assert(0nat * g.step_den == 0) by (nonlinear_arith);
            },
            None => {},
        }
    }
}

/// What a constructor returns: the error of a refused configuration, or else a fresh
/// converter whose filter is the selected design with the host's bank and, for stereo, the
/// tile that suits the host's processor.
pub open spec fn constructed<H: Host>(
    host: &H,
    input_rate: u32,
    output_rate: u32,
    channels: usize,
    filter_length: FilterLength,
    policy: FilterLengthPolicy,
    converter: Result<Resampler, Error>,
) -> bool {
    let from = input_rate as nat;
    let to = output_rate as nat;
    let design = design_of(from, to, filter_length, policy);
    match configuration_error(input_rate, output_rate, channels, filter_length) {
        Some(error) => converter == Err::<Resampler, Error>(error),
        None => converter matches Ok(c) && {
            &&& c.wf()
            &&& c.input_rate() == input_rate
            &&& c.output_rate() == output_rate
            &&& c.channels() == channels
            &&& c.policy() == policy
            &&& c.input_frames() == 0
            &&& !c.finished()
            &&& c.stream() is None <==> input_rate == output_rate
            &&& c.stream() matches Some(stream) ==> {
                &&& stream.geometry() == geometry_of(channels, input_rate, output_rate, design)
                &&& stream.state() == fresh_state()
                &&& exists|bank: Arc<Vec<u64>>|
                    #![trigger call_ensures(H::shared_coefficients, (host, input_rate, output_rate, design), bank)]
                    call_ensures(
                        H::shared_coefficients,
                        (host, input_rate, output_rate, design),
                        bank,
                    ) && stream.bank() == bank@
                &&& channels != 2 ==> stream.backend() == PhaseBatchBackend::Disabled
                &&& channels == 2 ==> exists|features: CpuFeatures| #[trigger]
                    call_ensures(H::features, (host,), features) && stream.backend()
                        == backend_for_rates(from, to, design, features)
            }
        },
    }
}

/// A filtered converter holds the extended-precision bank of the design that its rates,
/// length and policy select, whenever its host has those banks.
pub proof fn law_converters_hold_the_precise_bank<H: Host, A: Arithmetic>(
    host: &H,
    arithmetic: &A,
    model: Model,
    input_rate: u32,
    output_rate: u32,
    channels: usize,
    filter_length: FilterLength,
    policy: FilterLengthPolicy,
    converter: Resampler,
)
    requires
        precise(host, arithmetic),
        follows(arithmetic, model),
        input_rate != output_rate,
        constructed(
            host,
            input_rate,
            output_rate,
            channels,
            filter_length,
            policy,
            Ok(converter),
        ),
    ensures
        ({
            let from = input_rate as nat;
            let to = output_rate as nat;
            let design = design_of(from, to, filter_length, policy);
            &&& converter.stream() matches Some(stream)
            &&& stream.bank() == bank_of(
                precise_model(model, prototype_of(input_rate, output_rate, design)),
                shape_of(input_rate, output_rate, design),
            )
        }),
{
    let design = design_of(input_rate as nat, output_rate as nat, filter_length, policy);
    let stream = converter.stream()->0;
    let bank = choose|bank: Arc<Vec<u64>>|
        #![trigger call_ensures(H::shared_coefficients, (host, input_rate, output_rate, design), bank)]
        call_ensures(H::shared_coefficients, (host, input_rate, output_rate, design), bank)
            && stream.bank() == bank@;
    assert(precise_bank(arithmetic, input_rate, output_rate, design, bank@));
}

/// The reported buffering and storage stay within their limits. The lookahead is half of the
/// filter and lasts less than 80 ms, unless the rate is so low that the three-tap minimum
/// takes precedence. Tiles add at most 64 ms, and nothing at all but for exact stereo.
/// Coefficients take at most 64 MiB.
pub proof fn law_reported_costs_are_bounded<H: Host>(
    host: &H,
    input_rate: u32,
    output_rate: u32,
    channels: usize,
    filter_length: FilterLength,
    policy: FilterLengthPolicy,
    converter: Resampler,
)
    requires
        constructed(
            host,
            input_rate,
            output_rate,
            channels,
            filter_length,
            policy,
            Ok(converter),
        ),
    ensures
        ({
            let info = converter.info();
            let from = input_rate as nat;
            let to = output_rate as nat;
            &&& info.lookahead_input_frames == info.taps_per_phase as int / 2
            &&& info.taps_per_phase == 3 || info.lookahead_input_frames * 1000 < input_rate * 80
            &&& info.additional_batch_input_frames * 1000 <= input_rate * 64
            &&& channels != 2 || fractional_positions(from, to) > MAX_EXACT_PHASES
                ==> info.additional_batch_input_frames == 0
            &&& info.coefficient_bytes <= 67_108_864
        }),
{
    let from = input_rate as nat;
    let to = output_rate as nat;
    match converter.stream() {
        Some(stream) => {
            let g = stream.geometry();
            let design = design_of(from, to, filter_length, policy);
            let periods = periods_of(stream.backend());
            law_designs_are_bounded(from, to, filter_length, policy);
            law_support_time_is_bounded(from, to, filter_length, policy);
            lemma_reduced(from, to);
            lemma_reduced_bounds(from, to);
            stream.lemma_bank_len();
            assert(g.step_num == from / gcd_of(from, to));
            if channels == 2 {
                let features = choose|features: CpuFeatures| #[trigger]
                    call_ensures(H::features, (host,), features) && stream.backend()
                        == backend_for_rates(from, to, design, features);
                law_tiles_stay_within_limits(from, to, design, features);
            }
            assert(periods * g.step_num == g.step_num * periods) by (nonlinear_arith);
            assert(periods == 0 ==> periods * g.step_num == 0) by (nonlinear_arith);
        },
        None => {},
    }
}

/// A selected design gives valid constants.
proof fn lemma_designed(
    input_rate: u32,
    output_rate: u32,
    channels: usize,
    filter_length: FilterLength,
    policy: FilterLengthPolicy,
)
    requires
        input_rate > 0,
        output_rate > 0,
        channels > 0,
        accepted_length(input_rate as nat, output_rate as nat, filter_length),
    ensures
        ({
            let design = design_of(input_rate as nat, output_rate as nat, filter_length, policy);
            let g = geometry_of(channels, input_rate, output_rate, design);
            &&& g.valid()
            &&& g.bank_len() == (design.phases + 1) * design.taps
            &&& g.step_num == input_rate as nat / gcd_of(input_rate as nat, output_rate as nat)
            &&& g.step_den == output_rate as nat / gcd_of(input_rate as nat, output_rate as nat)
        }),
{
    let from = input_rate as nat;
    let to = output_rate as nat;
    law_designs_are_bounded(from, to, filter_length, policy);
    lemma_limits(from, to);
    lemma_reduced(from, to);
    lemma_reduced_bounds(from, to);
}

/// Reduced rates are no larger than the rates.
proof fn lemma_reduced_bounds(from: nat, to: nat)
    requires
        from > 0,
        to > 0,
    ensures
        from / gcd_of(from, to) <= from,
        to / gcd_of(from, to) <= to,
{
    lemma_reduced(from, to);
    let g = gcd_of(from, to);
    assert(from / g <= (from / g) * g && to / g <= (to / g) * g) by (nonlinear_arith)
        requires
            g >= 1,
            from / g >= 0,
            to / g >= 0,
    ;
}

/// The tile for a rate pair fits its geometry.
proof fn lemma_tile_fits(
    input_rate: u32,
    output_rate: u32,
    channels: usize,
    design: Design,
    features: CpuFeatures,
)
    requires
        input_rate > 0,
        output_rate > 0,
        channels == 2,
    ensures
        tile_fits(
            geometry_of(channels, input_rate, output_rate, design),
            backend_for_rates(input_rate as nat, output_rate as nat, design, features),
        ),
{
    let from = input_rate as nat;
    let to = output_rate as nat;
    let g = geometry_of(channels, input_rate, output_rate, design);
    law_tiles_stay_within_limits(from, to, design, features);
    lemma_reduced(from, to);
    lemma_reduced_bounds(from, to);
    assert(g.step_num == from / gcd_of(from, to));
    assert(g.step_den == to / gcd_of(from, to));
}

/// A fresh stream has no frames.
proof fn lemma_empty(g: Geometry)
    requires
        g.valid(),
    ensures
        g.frames(fresh_state().history) == 0,
{
    lemma_fundamental_div_mod_converse(0, g.channels as int, 0, 0);
}

/// Output frames counted with the reduced rates are those counted with the rates: a
/// complete stream has `ceil(frames * output_rate / input_rate)` output frames.
pub proof fn law_stream_lengths_follow_the_rates(from: nat, to: nat, frames: nat)
    requires
        from > 0,
        to > 0,
    ensures
        ceil_div(frames * (to / gcd_of(from, to)), from / gcd_of(from, to)) == ceil_div(
            frames * to,
            from,
        ),
{
    lemma_reduced(from, to);
    let divisor = gcd_of(from, to);
    let den = to / divisor;
    let num = from / divisor;
    lemma_ceil_div_scales(frames * den, num, divisor);
    assert(divisor * (frames * den) == frames * to) by (nonlinear_arith)
        requires
            to == den * divisor,
    ;
    assert(divisor * num == from) by (nonlinear_arith)
        requires
            from == num * divisor,
    ;
}

/// What an accepted block brings stays within the bound that it was accepted by.
pub proof fn law_accepted_blocks_stay_within_the_output_bound(
    converter: Resampler,
    input: Seq<u64>,
    periods: nat,
    end_of_stream: bool,
)
    requires
        converter.wf(),
        !converter.finished(),
        converter.stream() is Some,
        input.len() % converter.channels() as nat == 0,
    ensures
        block_frames(
            converter.stream()->0.geometry(),
            periods,
            converter.stream()->0.state(),
            input,
            end_of_stream,
        ) <= output_bound(
            input.len() / converter.channels() as nat,
            converter.pending(),
            converter.input_rate() as nat,
            converter.output_rate() as nat,
        ),
{
    let stream = converter.inner->0;
    let g = stream.geometry();
    let from = converter.input_rate as nat;
    let to = converter.output_rate as nat;
    let frames = input.len() / converter.channels as nat;
    let pending = converter.pending();
    stream.lemma_valid();
    law_block_output_is_bounded(
        g,
        periods_of(stream.backend()),
        periods,
        stream.state(),
        input,
        end_of_stream,
    );
    assert(0 <= periods_of(stream.backend()) * g.step_num) by (nonlinear_arith);
    law_stream_lengths_follow_the_rates(from, to, (frames + pending) as nat);
    assert(0 <= (frames + pending) * to <= (frames + pending + 2) * to) by (nonlinear_arith);
    lemma_div_is_ordered(
        (frames + pending) * to + from - 1,
        (frames + pending + 2) * to + from - 1,
        from as int,
    );
}

} // verus!
