//! What holds of two converters.

use std::sync::Arc;

use vstd::arithmetic::div_mod::lemma_fundamental_div_mod_converse;
use vstd::prelude::*;

use crate::arithmetic::Model;
use crate::backend::{backend_for_rates, periods_of, CpuFeatures};
use crate::behaviour::{law_restarting_forgets_all_calls, Call};
use crate::config::{Error, FilterLength, FilterLengthPolicy};
use crate::design::{design_of, law_designs_are_bounded, law_presets_are_ordered};
use crate::fir::{narrowed, promoted};
use crate::host::{steady, Host};
use crate::laws::{
    channel_samples, joined, law_channels_return_their_mono_streams,
    law_narrow_streams_round_the_wide_stream, mono, promoted_blocks,
};
use crate::resampler::{configuration_error, constructed, Resampler, FRAME_BUDGET};

verus! {

/// Settings with which two converters of one host are given the same design give the same
/// filter, also for different channel counts, and the same behaviour for equal ones.
pub proof fn law_equal_designs_give_equal_filters<H: Host>(
    host: &H,
    input_rate: u32,
    output_rate: u32,
    channels: usize,
    filter_length: FilterLength,
    policy: FilterLengthPolicy,
    converter: Resampler,
    other_channels: usize,
    other_length: FilterLength,
    other_policy: FilterLengthPolicy,
    other: Resampler,
)
    requires
        steady(host),
        constructed(
            host,
            input_rate,
            output_rate,
            channels,
            filter_length,
            policy,
            Ok(converter),
        ),
        constructed(
            host,
            input_rate,
            output_rate,
            other_channels,
            other_length,
            other_policy,
            Ok(other),
        ),
        design_of(input_rate as nat, output_rate as nat, filter_length, policy) == design_of(
            input_rate as nat,
            output_rate as nat,
            other_length,
            other_policy,
        ),
    ensures
        converter.stream() is Some <==> other.stream() is Some,
        converter.stream() matches Some(stream) ==> stream.bank() == other.stream()->0.bank(),
        channels == other_channels ==> converter.behaviour() == other.behaviour()
            && converter.info() == other.info(),
{
    if input_rate != output_rate {
        let from = input_rate as nat;
        let to = output_rate as nat;
        let design = design_of(from, to, filter_length, policy);
        let stream = converter.stream()->0;
        let other_stream = other.stream()->0;
        let bank = choose|bank: Arc<Vec<u64>>|
            #![trigger call_ensures(H::shared_coefficients, (host, input_rate, output_rate, design), bank)]
            call_ensures(H::shared_coefficients, (host, input_rate, output_rate, design), bank)
                && stream.bank() == bank@;
        let other_bank = choose|bank: Arc<Vec<u64>>|
            #![trigger call_ensures(H::shared_coefficients, (host, input_rate, output_rate, design), bank)]
            call_ensures(H::shared_coefficients, (host, input_rate, output_rate, design), bank)
                && other_stream.bank() == bank@;
        assert(bank@ == other_bank@);
        if channels == 2 && other_channels == 2 {
            let features = choose|features: CpuFeatures| #[trigger]
                call_ensures(H::features, (host,), features) && stream.backend()
                    == backend_for_rates(from, to, design, features);
            let other_features = choose|features: CpuFeatures| #[trigger]
                call_ensures(H::features, (host,), features) && other_stream.backend()
                    == backend_for_rates(from, to, design, features);
            assert(features == other_features);
        }
    }
}

/// Two constructions with the same settings are refused with the same error, or give
/// converters that report and answer the same.
///
/// [`Resampler::new`] is a construction with the Standard length and the generic policy,
/// [`Resampler::with_filter_length`] one with the generic policy.
pub proof fn law_constructors_agree<H: Host>(
    host: &H,
    input_rate: u32,
    output_rate: u32,
    channels: usize,
    filter_length: FilterLength,
    policy: FilterLengthPolicy,
    first: Result<Resampler, Error>,
    second: Result<Resampler, Error>,
    model: Model,
    calls: Seq<Call>,
)
    requires
        steady(host),
        constructed(host, input_rate, output_rate, channels, filter_length, policy, first),
        constructed(host, input_rate, output_rate, channels, filter_length, policy, second),
    ensures
        match (first, second) {
            (Ok(a), Ok(b)) => {
                &&& a.policy() == policy
                &&& b.policy() == policy
                &&& a.info() == b.info()
                &&& a.behaviour() == b.behaviour()
                &&& a.behaviour().answers(model, calls) == b.behaviour().answers(model, calls)
            },
            (Err(a), Err(b)) => a == b,
            _ => false,
        },
{
    if configuration_error(input_rate, output_rate, channels, filter_length) is None {
        law_equal_designs_give_equal_filters(
            host,
            input_rate,
            output_rate,
            channels,
            filter_length,
            policy,
            first->Ok_0,
            channels,
            filter_length,
            policy,
            second->Ok_0,
        );
    }
}

/// Custom lengths are the same under both policies: both constructions are refused with the
/// same error, or give converters with the requested taps that report and answer the same.
/// Only the reported policy differs.
pub proof fn law_policies_agree_on_custom_lengths<H: Host>(
    host: &H,
    input_rate: u32,
    output_rate: u32,
    channels: usize,
    taps: usize,
    generic: Result<Resampler, Error>,
    fixed: Result<Resampler, Error>,
    model: Model,
    calls: Seq<Call>,
)
    requires
        steady(host),
        constructed(
            host,
            input_rate,
            output_rate,
            channels,
            FilterLength::Custom(taps),
            FilterLengthPolicy::Generic,
            generic,
        ),
        constructed(
            host,
            input_rate,
            output_rate,
            channels,
            FilterLength::Custom(taps),
            FilterLengthPolicy::Fixed,
            fixed,
        ),
    ensures
        match (generic, fixed) {
            (Ok(a), Ok(b)) => {
                &&& a.policy() == FilterLengthPolicy::Generic
                &&& b.policy() == FilterLengthPolicy::Fixed
                &&& a.info() == b.info()
                &&& input_rate != output_rate ==> a.info().taps_per_phase == taps
                &&& a.behaviour() == b.behaviour()
                &&& a.behaviour().answers(model, calls) == b.behaviour().answers(model, calls)
            },
            (Err(a), Err(b)) => a == b,
            _ => false,
        },
{
    let from = input_rate as nat;
    let to = output_rate as nat;
    let length = FilterLength::Custom(taps);
    if configuration_error(input_rate, output_rate, channels, length) is None {
        law_designs_are_bounded(from, to, length, FilterLengthPolicy::Generic);
        law_equal_designs_give_equal_filters(
            host,
            input_rate,
            output_rate,
            channels,
            length,
            FilterLengthPolicy::Generic,
            generic->Ok_0,
            channels,
            length,
            FilterLengthPolicy::Fixed,
            fixed->Ok_0,
        );
    }
}

/// Presets are never refused, have an odd number of taps of at least three, and never get
/// shorter from one to the next.
pub proof fn law_presets_are_accepted_and_ordered<H: Host>(
    host: &H,
    input_rate: u32,
    output_rate: u32,
    channels: usize,
    policy: FilterLengthPolicy,
    standard: Result<Resampler, Error>,
    long: Result<Resampler, Error>,
    extra_long: Result<Resampler, Error>,
)
    requires
        0 < input_rate,
        0 < output_rate,
        input_rate != output_rate,
        0 < channels <= isize::MAX as int / FRAME_BUDGET as int,
        constructed(
            host,
            input_rate,
            output_rate,
            channels,
            FilterLength::Standard,
            policy,
            standard,
        ),
        constructed(
            host,
            input_rate,
            output_rate,
            channels,
            FilterLength::Long,
            policy,
            long,
        ),
        constructed(
            host,
            input_rate,
            output_rate,
            channels,
            FilterLength::ExtraLong,
            policy,
            extra_long,
        ),
    ensures
        standard matches Ok(s) && long matches Ok(l) && extra_long matches Ok(x) && {
            let shortest = s.info().taps_per_phase;
            let middle = l.info().taps_per_phase;
            let longest = x.info().taps_per_phase;
            &&& 3 <= shortest <= middle <= longest
            &&& shortest % 2 == 1
            &&& middle % 2 == 1
            &&& longest % 2 == 1
        },
{
    let from = input_rate as nat;
    let to = output_rate as nat;
    law_designs_are_bounded(from, to, FilterLength::Standard, policy);
    law_designs_are_bounded(from, to, FilterLength::Long, policy);
    law_designs_are_bounded(from, to, FilterLength::ExtraLong, policy);
    law_presets_are_ordered(from, to, policy);
}

/// The tap count that a preset selects is accepted as a custom length, for any accepted
/// number of channels, and gives the preset's filter.
pub proof fn law_presets_share_the_filter_of_their_length<H: Host>(
    host: &H,
    input_rate: u32,
    output_rate: u32,
    channels: usize,
    preset: FilterLength,
    policy: FilterLengthPolicy,
    converter: Resampler,
    other_channels: usize,
    other_policy: FilterLengthPolicy,
    custom: Result<Resampler, Error>,
)
    requires
        steady(host),
        input_rate != output_rate,
        constructed(host, input_rate, output_rate, channels, preset, policy, Ok(converter)),
        0 < other_channels <= isize::MAX as int / FRAME_BUDGET as int,
        constructed(
            host,
            input_rate,
            output_rate,
            other_channels,
            FilterLength::Custom(converter.info().taps_per_phase),
            other_policy,
            custom,
        ),
    ensures
        custom matches Ok(other) && other.info().taps_per_phase == converter.info().taps_per_phase
            && other.stream()->0.bank() == converter.stream()->0.bank(),
{
    let from = input_rate as nat;
    let to = output_rate as nat;
    law_designs_are_bounded(from, to, preset, policy);
    let length = FilterLength::Custom(converter.info().taps_per_phase);
    law_designs_are_bounded(from, to, length, other_policy);
    law_equal_designs_give_equal_filters(
        host,
        input_rate,
        output_rate,
        channels,
        preset,
        policy,
        converter,
        other_channels,
        length,
        other_policy,
        custom->Ok_0,
    );
}

/// A reset converter reports and answers as a fresh one with the same settings does, call by
/// call, whatever it was given before.
pub proof fn law_reset_converters_answer_as_fresh_ones<H: Host>(
    host: &H,
    input_rate: u32,
    output_rate: u32,
    channels: usize,
    filter_length: FilterLength,
    policy: FilterLengthPolicy,
    built: Resampler,
    model: Model,
    earlier: Seq<Call>,
    used: Resampler,
    reset: Resampler,
    fresh: Resampler,
    calls: Seq<Call>,
)
    requires
        steady(host),
        constructed(host, input_rate, output_rate, channels, filter_length, policy, Ok(built)),
        used.policy() == built.policy(),
        used.behaviour() == built.behaviour().after_calls(model, earlier),
        reset.policy() == used.policy(),
        reset.behaviour() == used.behaviour().restarted(),
        constructed(host, input_rate, output_rate, channels, filter_length, policy, Ok(fresh)),
    ensures
        reset.behaviour() == fresh.behaviour(),
        reset.info() == fresh.info(),
        reset.policy() == fresh.policy(),
        reset.behaviour().answers(model, calls) == fresh.behaviour().answers(model, calls),
{
    law_restarting_forgets_all_calls(model, built.behaviour(), earlier);
    law_equal_designs_give_equal_filters(
        host,
        input_rate,
        output_rate,
        channels,
        filter_length,
        policy,
        built,
        channels,
        filter_length,
        policy,
        fresh,
    );
}

/// Each channel of a converter returns what a converter of that channel alone returns for
/// the channel's samples.
pub proof fn law_channels_answer_as_mono_converters<H: Host>(
    host: &H,
    input_rate: u32,
    output_rate: u32,
    channels: usize,
    filter_length: FilterLength,
    policy: FilterLengthPolicy,
    converter: Resampler,
    alone: Resampler,
    model: Model,
    input: Seq<u64>,
    channel: int,
    mono_input: Seq<u64>,
)
    requires
        steady(host),
        constructed(host, input_rate, output_rate, channels, filter_length, policy, Ok(converter)),
        constructed(host, input_rate, output_rate, 1, filter_length, policy, Ok(alone)),
        0 <= channel < channels,
        input.len() <= usize::MAX,
        mono_input.len() * channels == input.len(),
        forall|k: int|
            0 <= k < mono_input.len() ==> #[trigger] mono_input[k] == input[k * channels + channel],
        converter.block_error(input.len() as usize) is None,
        alone.block_error(mono_input.len() as usize) is None,
    ensures
        ({
            let output = converter.behaviour().wide_answer(model, input, true);
            let mono_output = alone.behaviour().wide_answer(model, mono_input, true);
            &&& output is Ok
            &&& mono_output is Ok
            &&& output->Ok_0.len() == mono_output->Ok_0.len() * channels
            &&& forall|k: int|
                0 <= k < mono_output->Ok_0.len() ==> output->Ok_0[k * channels + channel]
                    == #[trigger] mono_output->Ok_0[k]
        }),
{
    let c = channels as int;
    lemma_fundamental_div_mod_converse(input.len() as int, c, mono_input.len() as int, 0);
    if input_rate != output_rate {
        law_equal_designs_give_equal_filters(
            host,
            input_rate,
            output_rate,
            channels,
            filter_length,
            policy,
            converter,
            1,
            filter_length,
            policy,
            alone,
        );
        let stream = converter.stream()->0;
        let mono_stream = alone.stream()->0;
        let g = stream.geometry();
        let none = Seq::<Seq<u64>>::empty();
        converter.lemma_stream_is_valid();
        assert(mono_stream.geometry() == mono(g));
        assert(joined(none) + input =~= input);
        assert(joined(none) + mono_input =~= mono_input);
        assert(channel_samples(g, input, channel) =~= mono_input);
        let periods = periods_of(stream.backend());
        let mono_periods = periods_of(mono_stream.backend());
        law_channels_return_their_mono_streams(
            model,
            g,
            stream.bank(),
            periods,
            none,
            input,
            channel,
            mono_periods,
            none,
            mono_input,
        );
        let output = converter.behaviour().wide_answer(model, input, true)->Ok_0;
        let mono_output = alone.behaviour().wide_answer(model, mono_input, true)->Ok_0;
        assert(Seq::<u64>::empty() + output =~= output);
        assert(Seq::<u64>::empty() + mono_output =~= mono_output);
    }
}

/// Narrow samples come back when they are promoted and narrowed again. Binary64 gives back
/// every finite one.
pub open spec fn survives_promotion(model: Model, samples: Seq<u32>) -> bool {
    forall|i: int|
        0 <= i < samples.len() ==> (model.narrow)((model.promote)(#[trigger] samples[i]))
            == samples[i]
}

/// Narrow samples lose nothing but the final rounding: a converter returns for a narrow input
/// what another one with the same settings returns for the promoted input, rounded. For
/// equal rates, which change no sample, the input has to survive promotion.
pub proof fn law_narrow_answers_round_wide_answers<H: Host>(
    host: &H,
    input_rate: u32,
    output_rate: u32,
    channels: usize,
    filter_length: FilterLength,
    policy: FilterLengthPolicy,
    converter: Resampler,
    other: Resampler,
    model: Model,
    input: Seq<u32>,
)
    requires
        steady(host),
        constructed(host, input_rate, output_rate, channels, filter_length, policy, Ok(converter)),
        constructed(host, input_rate, output_rate, channels, filter_length, policy, Ok(other)),
        input.len() <= usize::MAX,
        converter.block_error(input.len() as usize) is None,
        input_rate == output_rate ==> survives_promotion(model, input),
    ensures
        ({
            let narrow = converter.behaviour().narrow_answer(model, input, true);
            let wide = other.behaviour().wide_answer(model, promoted(model, input), true);
            &&& narrow is Ok
            &&& wide is Ok
            &&& narrow->Ok_0 == narrowed(model, wide->Ok_0)
            &&& narrow->Ok_0.len() == wide->Ok_0.len()
            &&& forall|i: int|
                0 <= i < wide->Ok_0.len() ==> #[trigger] narrow->Ok_0[i] == (model.narrow)(
                    wide->Ok_0[i],
                )
        }),
{
    let samples = promoted(model, input);
    law_equal_designs_give_equal_filters(
        host,
        input_rate,
        output_rate,
        channels,
        filter_length,
        policy,
        converter,
        channels,
        filter_length,
        policy,
        other,
    );
    if input_rate == output_rate {
        assert(narrowed(model, samples) =~= input);
    } else {
        let stream = converter.stream()->0;
        let g = stream.geometry();
        let none = Seq::<Seq<u32>>::empty();
        converter.lemma_stream_is_valid();
        assert(promoted_blocks(model, none) =~= Seq::<Seq<u64>>::empty());
        law_narrow_streams_round_the_wide_stream(
            model,
            g,
            stream.bank(),
            periods_of(stream.backend()),
            none,
            input,
        );
        let wide = other.behaviour().wide_answer(model, samples, true)->Ok_0;
        let narrow = converter.behaviour().narrow_answer(model, input, true)->Ok_0;
        assert(Seq::<u64>::empty() + wide =~= wide);
        assert(Seq::<u32>::empty() + narrow =~= narrow);
    }
}

} // verus!
