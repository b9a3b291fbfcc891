//! What converters promise of single calls, in plain numbers.

use vstd::arithmetic::div_mod::{
    lemma_div_is_ordered, lemma_fundamental_div_mod, lemma_fundamental_div_mod_converse,
};
use vstd::prelude::*;

use crate::arithmetic::Model;
use crate::backend::{
    backend_for_rates, fits, periods_of, preferred_backend, CpuFeatures, PhaseBatchBackend,
};
use crate::behaviour::{Answer, Behaviour, Call, Filtering};
use crate::cache::{bank_bytes, cachable, has_room, total_bytes, BankEntry, BankKey};
use crate::config::{decimal_text, digit_text, Error, FilterLength, FilterLengthPolicy};
use crate::design::{
    ceil_div, design_of, gcd_of, law_designs_are_bounded, law_quotients_are_rounded_up,
    lemma_limits, lemma_reduced, tap_limit, Design,
};
use crate::fir::{geometry_of, narrowed, promoted};
use crate::host::Host;
use crate::laws::{
    conversion, extends, fed, fed_output, joined, law_blocks_do_not_change_the_output,
    law_output_so_far_is_a_prefix_of_the_conversion,
    law_streams_are_sound, law_streams_return_the_conversion, whole_blocks,
};
use crate::resampler::{configuration_error, constructed, Resampler};
use crate::stream::{
    after_block, block_output, due_limit, lemma_ready, lemma_steps_advance, pads, run_end,
    step_frames, Geometry, StreamState,
};

verus! {

/// Tiles of sixteen periods need AVX-512F and four phases, tiles of eight periods AVX or NEON
/// and two phases. Either is used wherever every fractional position has its own phase row,
/// its input lasts at most 64 ms, and its packed rows take at most 16 MiB; the wider one
/// comes first, and NEON only stands in where there is neither AVX-512F nor AVX.
pub proof fn law_tiles_are_used_wherever_they_fit(
    from: nat,
    to: nat,
    design: Design,
    features: CpuFeatures,
)
    requires
        0 < from,
        0 < to,
    ensures
        ({
            let backend = backend_for_rates(from, to, design, features);
            let num = from / gcd_of(from, to);
            let stored = design.phases == to / gcd_of(from, to);
            let wide = stored && design.phases >= 4 && num * 16 * 1000 <= from * 64 && (design.taps
                + num) * 256 + 64 <= 16_777_216;
            let narrow = stored && design.phases >= 2 && num * 8 * 1000 <= from * 64 && (design.taps
                + num) * 128 + 64 <= 16_777_216;
            &&& backend == PhaseBatchBackend::Avx512 <==> features.avx512f && wide
            &&& backend == PhaseBatchBackend::Avx <==> features.avx && narrow && !(features.avx512f
                && wide)
            &&& backend == PhaseBatchBackend::Neon <==> features.neon && narrow && !features.avx
                && !features.avx512f
            &&& backend == PhaseBatchBackend::Avx512 ==> periods_of(backend) == 16
            &&& backend == PhaseBatchBackend::Avx || backend == PhaseBatchBackend::Neon
                ==> periods_of(backend) == 8
            &&& backend == PhaseBatchBackend::Disabled ==> periods_of(backend) == 0
        }),
{
    lemma_fits(from, to, design, PhaseBatchBackend::Avx512, 16);
    lemma_fits(from, to, design, PhaseBatchBackend::Avx, 8);
    lemma_fits(from, to, design, PhaseBatchBackend::Neon, 8);
}

/// What a tile of some periods asks for.
proof fn lemma_fits(from: nat, to: nat, design: Design, backend: PhaseBatchBackend, periods: nat)
    requires
        periods == 8 || periods == 16,
        periods_of(backend) == periods,
    ensures
        fits(from, to, design, backend) <==> {
            let num = from / gcd_of(from, to);
            &&& design.phases >= periods / 4
            &&& num * periods * 1000 <= from * 64
            &&& (design.taps + num) * (16 * periods) + 64 <= 16_777_216
        },
{
    let rows = design.taps + from / gcd_of(from, to);
    assert(rows * periods * 16 == rows * (16 * periods)) by (nonlinear_arith);
}

/// A configuration is refused for a zero rate, no channels, more channels than a retained
/// history can have, or a custom length that is even, below three or above the limit, in this
/// order; and for nothing else.
pub proof fn law_configurations_are_refused_for_a_reason(
    input_rate: u32,
    output_rate: u32,
    channels: usize,
    filter_length: FilterLength,
)
    ensures
        ({
            let refusal = configuration_error(input_rate, output_rate, channels, filter_length);
            let silent = input_rate == 0 || output_rate == 0;
            let most = isize::MAX as int / (65_537int * 8int);
            let maximum = tap_limit(input_rate as nat, output_rate as nat);
            let unfit = filter_length matches FilterLength::Custom(taps) && (taps % 2 == 0 || taps
                < 3 || taps > maximum);
            &&& refusal == Some(Error::ZeroSampleRate) <==> silent
            &&& refusal == Some(Error::ZeroChannels) <==> !silent && channels == 0
            &&& refusal == Some(Error::SizeOverflow) <==> !silent && channels > most
            &&& refusal matches Some(Error::InvalidFilterLength { requested, maximum: named })
                ==> filter_length == FilterLength::Custom(requested) && named == maximum
            &&& refusal is None <==> !silent && 0 < channels <= most && !unfit
        }),
{
    assert(isize::MAX as int / 524_296 >= 0);
    if input_rate > 0 && output_rate > 0 {
        lemma_limits(input_rate as nat, output_rate as nat);
    }
}

/// Construction fails for exactly these reasons, and gives a stream at its start otherwise.
pub proof fn law_constructors_succeed_or_say_why<H: Host>(
    host: &H,
    input_rate: u32,
    output_rate: u32,
    channels: usize,
    filter_length: FilterLength,
    policy: FilterLengthPolicy,
    converter: Result<Resampler, Error>,
)
    requires
        constructed(host, input_rate, output_rate, channels, filter_length, policy, converter),
    ensures
        ({
            let silent = input_rate == 0 || output_rate == 0;
            let most = isize::MAX as int / (65_537int * 8int);
            let maximum = tap_limit(input_rate as nat, output_rate as nat);
            let unfit = filter_length matches FilterLength::Custom(taps) && (taps % 2 == 0 || taps
                < 3 || taps > maximum);
            &&& converter == Err::<Resampler, Error>(Error::ZeroSampleRate) <==> silent
            &&& converter == Err::<Resampler, Error>(Error::ZeroChannels) <==> !silent && channels
                == 0
            &&& converter == Err::<Resampler, Error>(Error::SizeOverflow) <==> !silent && channels
                > most
            &&& converter == Err::<Resampler, Error>(
                Error::InvalidFilterLength {
                    requested: filter_length->Custom_0,
                    maximum: maximum as usize,
                },
            ) <==> !silent && 0 < channels <= most && unfit
            &&& converter is Ok <==> !silent && 0 < channels <= most && !unfit
            &&& converter is Ok ==> {
                &&& converter->Ok_0.behaviour().input_frames == 0
                &&& at_the_start(converter->Ok_0.behaviour())
                &&& converter->Ok_0.behaviour().restarted() == converter->Ok_0.behaviour()
                &&& converter->Ok_0.behaviour().filtering is Some <==> input_rate != output_rate
            }
        }),
{
    law_configurations_are_refused_for_a_reason(input_rate, output_rate, channels, filter_length);
    match converter {
        Ok(converter) => {
            converter.lemma_stream_is_valid();
        },
        Err(_) => {},
    }
}

/// A block is refused after the end of the stream unless it is empty, if it does not hold whole
/// frames, and if the stream would have too many frames or the block could bring more output
/// than can be stored, in this order; and for nothing else. A refused block changes nothing.
pub proof fn law_blocks_are_refused_for_a_reason(
    model: Model,
    behaviour: Behaviour,
    input: Seq<u64>,
    end_of_stream: bool,
    pending: nat,
    bound: nat,
)
    requires
        input.len() <= usize::MAX,
        behaviour.filtering is None ==> pending == 0,
        behaviour.filtering matches Some(f) ==> pending == f.geometry.taps as int / 2 + f.periods
            * f.geometry.step_num,
        0 < behaviour.channels,
        0 < behaviour.input_rate,
        ({
            let frames = input.len() / behaviour.channels as nat;
            let wanted = (frames + pending + 2) * behaviour.output_rate;
            &&& bound >= 8
            &&& wanted <= (bound - 8) * behaviour.input_rate
            &&& (bound - 9) * behaviour.input_rate < wanted
        }),
    ensures
        ({
            let answer = behaviour.wide_answer(model, input, end_of_stream);
            let frames = input.len() / behaviour.channels as nat;
            let over = behaviour.finished && input.len() > 0;
            let whole = input.len() % behaviour.channels as nat == 0;
            let long = behaviour.input_frames + frames > i64::MAX / 2 - u32::MAX - 65_537;
            let large = bound * behaviour.channels > isize::MAX as int / 8;
            &&& answer == Err::<Seq<u64>, Error>(Error::StreamFinished) <==> over
            &&& answer == Err::<Seq<u64>, Error>(
                Error::IncompleteFrame {
                    samples: input.len() as usize,
                    channels: behaviour.channels,
                },
            ) <==> !over && !whole
            &&& answer == Err::<Seq<u64>, Error>(Error::SizeOverflow) <==> !over && whole && (long
                || large)
            &&& answer is Ok <==> !over && whole && !long && !large
            &&& answer is Err ==> behaviour.after_wide(input, end_of_stream) == behaviour
            &&& answer is Ok && behaviour.finished ==> answer->Ok_0.len() == 0
                && behaviour.after_wide(input, end_of_stream) == behaviour
        }),
{
    let frames = (input.len() / behaviour.channels as nat) as nat;
    let from = behaviour.input_rate as int;
    let wanted = (frames + pending + 2) * behaviour.output_rate;
    let q = (wanted + from - 1) / from;
    assert(wanted >= 0) by (nonlinear_arith)
        requires
            wanted == (frames + pending + 2) * behaviour.output_rate,
            frames + pending + 2 >= 0,
    ;
    lemma_fundamental_div_mod(wanted + from - 1, from);
    assert(q == bound - 8) by (nonlinear_arith)
        requires
            wanted + from - 1 == from * q + (wanted + from - 1) % from,
            0 <= (wanted + from - 1) % from < from,
            wanted <= (bound - 8) * from,
            (bound - 9) * from < wanted,
            from > 0,
    ;
}

/// A narrow block is refused exactly when a wide one of as many samples is.
pub proof fn law_narrow_blocks_are_refused_alike(
    model: Model,
    behaviour: Behaviour,
    input: Seq<u32>,
    wide: Seq<u64>,
    end_of_stream: bool,
)
    requires
        input.len() == wide.len() <= usize::MAX,
    ensures
        ({
            let answer = behaviour.narrow_answer(model, input, end_of_stream);
            let wide_answer = behaviour.wide_answer(model, wide, end_of_stream);
            &&& answer is Ok <==> wide_answer is Ok
            &&& answer is Err ==> answer->Err_0 == wide_answer->Err_0
            &&& answer is Err ==> behaviour.after_narrow(model, input, end_of_stream) == behaviour
            &&& answer is Ok && behaviour.finished ==> answer->Ok_0.len() == 0
                && behaviour.after_narrow(model, input, end_of_stream) == behaviour
        }),
{
}

/// Reports give the settings, the filter's phases and taps, half of the taps as lookahead, the
/// input of one tile as batching, and eight bytes for each coefficient with the extra row. A
/// converter of equal rates has no filter, and reports none.
pub proof fn law_reports_describe_the_filter<H: Host>(
    host: &H,
    input_rate: u32,
    output_rate: u32,
    channels: usize,
    filter_length: FilterLength,
    policy: FilterLengthPolicy,
    converter: Resampler,
)
    requires
        constructed(host, input_rate, output_rate, channels, filter_length, policy, Ok(converter)),
    ensures
        ({
            let info = converter.info();
            let from = input_rate as nat;
            let to = output_rate as nat;
            let design = design_of(from, to, filter_length, policy);
            let num = from / gcd_of(from, to);
            &&& converter.policy() == policy
            &&& info.input_rate == input_rate
            &&& info.output_rate == output_rate
            &&& info.channels == channels
            &&& info.bypass == (input_rate == output_rate)
            &&& !info.uses_precise_c1_bank
            &&& if info.bypass {
                &&& info.phases == 0
                &&& info.taps_per_phase == 0
                &&& info.lookahead_input_frames == 0
                &&& info.additional_batch_input_frames == 0
                &&& info.coefficient_bytes == 0
            } else {
                &&& info.phases == design.phases
                &&& info.taps_per_phase == design.taps
                &&& info.lookahead_input_frames == design.taps as int / 2
                &&& info.coefficient_bytes == (design.phases + 1) * design.taps * 8
                &&& channels != 2 ==> info.additional_batch_input_frames == 0
                &&& channels == 2 ==> exists|features: CpuFeatures| #[trigger]
                    call_ensures(H::features, (host,), features)
                        && info.additional_batch_input_frames == num * match backend_for_rates(
                        from,
                        to,
                        design,
                        features,
                    ) {
                        PhaseBatchBackend::Disabled => 0int,
                        PhaseBatchBackend::Avx512 => 16,
                        _ => 8,
                    }
            }
        }),
{
    let from = input_rate as nat;
    let to = output_rate as nat;
    if input_rate != output_rate {
        let stream = converter.stream()->0;
        let g = stream.geometry();
        let design = design_of(from, to, filter_length, policy);
        converter.lemma_stream_is_valid();
        converter.lemma_stream_bank();
        law_designs_are_bounded(from, to, filter_length, policy);
        lemma_reduced(from, to);
        assert(from / gcd_of(from, to) <= from) by (nonlinear_arith)
            requires
                from == (from / gcd_of(from, to)) * gcd_of(from, to),
                gcd_of(from, to) >= 1,
                from / gcd_of(from, to) >= 0,
        ;
        assert(g == geometry_of(channels, input_rate, output_rate, design));
        let periods = periods_of(stream.backend());
        let num = (from / gcd_of(from, to)) as int;
        assert(periods * g.step_num == num * periods) by (nonlinear_arith)
            requires
                g.step_num == num,
        ;
        assert(channels != 2 ==> num * periods == 0) by (nonlinear_arith)
            requires
                channels != 2 ==> periods == 0,
        ;
    }
}

/// Equal rates change no sample, wide or narrow, until the final block.
pub proof fn law_equal_rates_change_no_sample<H: Host>(
    host: &H,
    rate: u32,
    channels: usize,
    filter_length: FilterLength,
    policy: FilterLengthPolicy,
    converter: Resampler,
    model: Model,
    input: Seq<u64>,
    narrow_input: Seq<u32>,
    end_of_stream: bool,
)
    requires
        constructed(host, rate, rate, channels, filter_length, policy, Ok(converter)),
        converter.behaviour().block_error(input.len() as usize) is None,
        converter.behaviour().block_error(narrow_input.len() as usize) is None,
    ensures
        ({
            let output = converter.behaviour().wide_answer(model, input, end_of_stream);
            let narrow_output = converter.behaviour().narrow_answer(
                model,
                narrow_input,
                end_of_stream,
            );
            &&& output is Ok
            &&& narrow_output is Ok
            &&& output->Ok_0.len() == input.len()
            &&& narrow_output->Ok_0.len() == narrow_input.len()
            &&& forall|i: int| 0 <= i < input.len() ==> #[trigger] output->Ok_0[i] == input[i]
            &&& forall|i: int|
                0 <= i < narrow_input.len() ==> #[trigger] narrow_output->Ok_0[i]
                    == narrow_input[i]
        }),
{
}

/// Narrow samples are promoted one by one, and wide ones narrowed one by one, each by a single
/// operation and nothing else.
pub proof fn law_samples_are_converted_one_by_one(
    model: Model,
    narrow: Seq<u32>,
    wide: Seq<u64>,
)
    ensures
        promoted(model, narrow).len() == narrow.len(),
        narrowed(model, wide).len() == wide.len(),
        forall|i: int|
            0 <= i < narrow.len() ==> #[trigger] promoted(model, narrow)[i] == (model.promote)(
                narrow[i],
            ),
        forall|i: int|
            0 <= i < wide.len() ==> #[trigger] narrowed(model, wide)[i] == (model.narrow)(wide[i]),
{
}

/// What a converter returns for narrow samples is, sample by sample, the narrowed result of the
/// wide conversion without tiles: neither limited nor changed in any other way.
pub proof fn law_narrow_output_is_the_narrowed_wide_output(
    model: Model,
    behaviour: Behaviour,
    untiled: Behaviour,
    input: Seq<u32>,
    wide_input: Seq<u64>,
    end_of_stream: bool,
)
    requires
        behaviour.filtering is Some,
        untiled == (Behaviour {
            filtering: Some(Filtering { periods: 0, ..behaviour.filtering->0 }),
            ..behaviour
        }),
        input.len() == wide_input.len() <= usize::MAX,
        forall|i: int|
            0 <= i < input.len() ==> #[trigger] wide_input[i] == (model.promote)(input[i]),
        behaviour.block_error(input.len() as usize) is None,
        untiled.block_error(input.len() as usize) is None,
    ensures
        ({
            let narrow = behaviour.narrow_answer(model, input, end_of_stream);
            let wide = untiled.wide_answer(model, wide_input, end_of_stream);
            let after = behaviour.after_narrow(model, input, end_of_stream);
            let wide_after = untiled.after_wide(wide_input, end_of_stream);
            &&& narrow is Ok
            &&& wide is Ok
            &&& narrow->Ok_0.len() == wide->Ok_0.len()
            &&& forall|i: int|
                0 <= i < wide->Ok_0.len() ==> #[trigger] narrow->Ok_0[i] == (model.narrow)(
                    wide->Ok_0[i],
                )
            &&& after.input_frames == wide_after.input_frames
            &&& after.finished == wide_after.finished
            &&& after.filtering is Some
            &&& wide_after.filtering is Some
            &&& after.filtering->0.state == wide_after.filtering->0.state
            &&& after.filtering->0.periods == behaviour.filtering->0.periods
        }),
{
    assert(promoted(model, input) =~= wide_input);
}

/// While a stream without tiles goes on, it has returned exactly the frames whose lookahead
/// has arrived: after `frames` input frames, those at times before `frames - taps / 2`.
pub proof fn law_running_output_waits_for_the_lookahead_alone(
    model: Model,
    g: Geometry,
    bank: Seq<u64>,
    blocks: Seq<Seq<u64>>,
    frames: int,
    count: int,
)
    requires
        g.valid(),
        whole_blocks(g, blocks),
        joined(blocks).len() == frames * g.channels,
        0 <= count,
        frames <= g.taps as int / 2 ==> count == 0,
        frames > g.taps as int / 2 ==> (count - 1) * g.step_num < (frames - g.taps as int / 2)
            * g.step_den && (frames - g.taps as int / 2) * g.step_den <= count * g.step_num,
    ensures
        fed_output(model, g, bank, 0, blocks).len() == count * g.channels,
        fed(g, 0, blocks).position == count * g.step_num,
        fed(g, 0, blocks).history == joined(blocks),
{
    let num = g.step_num as int;
    let state = fed(g, 0, blocks);
    let before = state.position / num;
    law_streams_are_sound(g, 0, blocks);
    assert(extends(joined(blocks), joined(blocks)));
    law_output_so_far_is_a_prefix_of_the_conversion(model, g, bank, 0, blocks, joined(blocks));
    lemma_fundamental_div_mod_converse(joined(blocks).len() as int, g.channels as int, frames, 0);
    assert(g.frames(joined(blocks)) == frames);
    assert(0nat * g.step_den == 0) by (nonlinear_arith);
    lemma_ready(g, state.position, frames, false);
    lemma_ready(g, state.position - num, frames, false);
    let limit = due_limit(g, frames, false);
    let left = limit - state.position;
    if left > 0 {
        lemma_fundamental_div_mod(left + num - 1, num);
        assert((left + num - 1) / num >= 1) by (nonlinear_arith)
            requires
                left + num - 1 == num * ((left + num - 1) / num) + (left + num - 1) % num,
                (left + num - 1) % num < num,
                left > 0,
                num > 0,
        ;
    }
    assert(limit == (frames - g.taps as int / 2) * g.step_den);
    if frames <= g.taps as int / 2 {
        assert(limit <= 0) by (nonlinear_arith)
            requires
                limit == (frames - g.taps as int / 2) * g.step_den,
                frames <= g.taps as int / 2,
                g.step_den > 0,
        ;
        assert(0 * num == 0) by (nonlinear_arith);
    }
    assert(before == count) by (nonlinear_arith)
        requires
            state.position == before * num,
            state.position >= limit,
            state.position == 0 || state.position - num < limit,
            limit <= 0 && count == 0 || limit > 0 && (count - 1) * num < limit && limit <= count
                * num,
            state.position >= 0,
            num > 0,
    ;
}

/// Once the input under the next output frame has all arrived, a tiled stream that goes on
/// emits whole tiles alone, of `periods * step_den` frames each.
pub proof fn law_running_streams_emit_whole_tiles(
    g: Geometry,
    periods: nat,
    state: StreamState,
    input: Seq<u64>,
)
    requires
        g.valid(),
        periods > 0,
        state.first + g.taps as int / 2 <= state.position / (g.step_den as int),
    ensures
        exists|tiles: nat|
            after_block(g, periods, state, input, false).position == state.position + #[trigger] (
            tiles * (periods * g.step_den * g.step_num)),
{
    let total = g.frames(state.history + input);
    lemma_whole_tiles(
        g,
        periods,
        total,
        state.first,
        pads(g, total, state.first, state.position, false),
        state.position,
    );
}

proof fn lemma_whole_tiles(
    g: Geometry,
    periods: nat,
    total: int,
    first: int,
    padded: bool,
    position: int,
) -> (tiles: nat)
    requires
        g.valid(),
        periods > 0,
        first + g.taps as int / 2 <= position / (g.step_den as int),
    ensures
        run_end(g, periods, total, first, false, padded, position) == position + tiles * (periods
            * g.step_den * g.step_num),
    decreases
            if position < total * g.step_den {
                total * g.step_den - position
            } else {
                0
            },
{
    let size = periods * g.step_den * g.step_num;
    let frames = step_frames(g, periods, total, first, false, padded, position);
    if frames == 0 {
        assert(0 * size == 0);
        0
    } else {
        lemma_steps_advance(g, periods, total, first, false, padded, position);
        assert(frames == periods * g.step_den);
        assert(frames * g.step_num == size) by (nonlinear_arith)
            requires
                frames == periods * g.step_den,
                size == periods * g.step_den * g.step_num,
        ;
        lemma_div_is_ordered(position, position + size, g.step_den as int);
        let rest = lemma_whole_tiles(g, periods, total, first, padded, position + size);
        assert((1 + rest) * size == size + rest * size) by (nonlinear_arith);
        1 + rest
    }
}

/// After a block a stream that goes on keeps its last 64 frames and those under the next output
/// frame with one more, and forgets all that is older. After the final block nothing is kept.
pub proof fn law_streams_keep_what_they_need_alone(
    g: Geometry,
    periods: nat,
    state: StreamState,
    input: Seq<u64>,
    frames: int,
)
    requires
        g.valid(),
        0 <= state.first,
        state.history.len() + input.len() == frames * g.channels,
    ensures
        ({
            let after = after_block(g, periods, state, input, false);
            let next = after.position / (g.step_den as int) - g.taps as int / 2;
            &&& after.first >= state.first
            &&& after.first == state.first || after.first < next && after.first <= frames - 64
            &&& after.first >= next - 1 || after.first >= frames - 64
            &&& after.history == state.history + input
        }),
        after_block(g, periods, state, input, true).first == frames,
{
    lemma_fundamental_div_mod_converse(
        (state.history + input).len() as int,
        g.channels as int,
        frames,
        0,
    );
}

/// Banks are counted with eight bytes for each coefficient, the extra row included.
pub proof fn law_banks_take_eight_bytes_per_coefficient(key: BankKey)
    ensures
        bank_bytes(key) == 8 * key.taps * (key.phases + 1),
{
    assert((key.phases + 1) * key.taps * 8 == 8 * key.taps * (key.phases + 1)) by (nonlinear_arith);
}

/// An accepted block moves the stream on by its frames, ends it if it is the final one, and
/// changes neither the rates, nor the channels, nor the filter.
pub proof fn law_accepted_blocks_move_the_stream_on(
    model: Model,
    behaviour: Behaviour,
    input: Seq<u64>,
    narrow_input: Seq<u32>,
    frames: nat,
    end_of_stream: bool,
)
    requires
        0 < behaviour.channels,
        !behaviour.finished,
        input.len() == frames * behaviour.channels <= usize::MAX,
        narrow_input.len() == input.len(),
        behaviour.block_error(input.len() as usize) is None,
    ensures
        ({
            let after = behaviour.after_wide(input, end_of_stream);
            let narrow_after = behaviour.after_narrow(model, narrow_input, end_of_stream);
            &&& after.input_frames == behaviour.input_frames + frames
            &&& narrow_after.input_frames == behaviour.input_frames + frames
            &&& after.finished == end_of_stream
            &&& narrow_after.finished == end_of_stream
            &&& same_settings(after, behaviour)
            &&& same_settings(narrow_after, behaviour)
        }),
{
    lemma_fundamental_div_mod_converse(
        input.len() as int,
        behaviour.channels as int,
        frames as int,
        0,
    );
}

/// Two converters have the same rates, channels and filter.
pub open spec fn same_settings(a: Behaviour, b: Behaviour) -> bool {
    &&& a.input_rate == b.input_rate
    &&& a.output_rate == b.output_rate
    &&& a.channels == b.channels
    &&& a.filtering is Some <==> b.filtering is Some
    &&& a.filtering matches Some(f) ==> f.geometry == b.filtering->0.geometry && f.bank
        == b.filtering->0.bank && f.periods == b.filtering->0.periods
}

/// Reports depend on the settings alone, whatever the stream has come to.
pub proof fn law_reports_do_not_change(a: Resampler, b: Resampler)
    requires
        same_settings(a.behaviour(), b.behaviour()),
    ensures
        a.info() == b.info(),
{
}

/// A stream at its start: nothing has come in, and it goes on.
pub open spec fn at_the_start(behaviour: Behaviour) -> bool {
    &&& 0 < behaviour.channels
    &&& !behaviour.finished
    &&& behaviour.filtering matches Some(f) ==> {
        &&& f.geometry.valid()
        &&& f.geometry.channels == behaviour.channels
        &&& f.state.history == Seq::<u64>::empty()
        &&& f.state.first == 0
        &&& f.state.position == 0
    }
}

/// Blocks that are handed over one after the other, while the stream goes on.
pub open spec fn running_calls(blocks: Seq<Seq<u64>>) -> Seq<Call> {
    Seq::new(blocks.len(), |i: int| Call::Wide(blocks[i], false))
}

/// The wide samples of some answers, one after the other.
pub open spec fn returned(answers: Seq<Answer>) -> Seq<u64>
    decreases answers.len(),
{
    if answers.len() == 0 {
        Seq::empty()
    } else {
        returned(answers.drop_last()) + answers.last()->Wide_0
    }
}

/// None of some blocks is refused.
pub open spec fn all_accepted(behaviour: Behaviour, model: Model, blocks: Seq<Seq<u64>>) -> bool {
    forall|i: int|
        0 <= i < blocks.len() ==> #[trigger] blocks[i].len() <= usize::MAX
            && behaviour.after_calls(model, running_calls(blocks).take(i)).block_error(
            blocks[i].len() as usize,
        ) is None
}

/// A block of a running stream that is accepted.
proof fn lemma_running_step(before: Behaviour, model: Model, block: Seq<u64>)
    requires
        0 < before.channels,
        !before.finished,
        block.len() <= usize::MAX,
        before.block_error(block.len() as usize) is None,
    ensures
        ({
            let call = Call::Wide(block, false);
            let after = before.after_call(model, call);
            &&& !after.finished
            &&& same_settings(after, before)
            &&& block.len() % before.channels as nat == 0
            &&& match before.filtering {
                Some(f) => {
                    &&& after.filtering->0.state == after_block(
                        f.geometry,
                        f.periods,
                        f.state,
                        block,
                        false,
                    )
                    &&& before.answer(model, call) == Answer::Wide(
                        block_output(
                            model,
                            f.geometry,
                            f.bank,
                            f.periods,
                            f.state,
                            block,
                            false,
                        ),
                    )
                },
                None => before.answer(model, call) == Answer::Wide(block),
            }
        }),
{
}

/// A stream that has been given some blocks and goes on.
#[verifier::spinoff_prover]
#[verifier::rlimit(60)]
proof fn lemma_running(behaviour: Behaviour, model: Model, blocks: Seq<Seq<u64>>)
    requires
        at_the_start(behaviour),
        all_accepted(behaviour, model, blocks),
    ensures
        ({
            let calls = running_calls(blocks);
            let after = behaviour.after_calls(model, calls);
            let answers = behaviour.answers(model, calls);
            &&& !after.finished
            &&& same_settings(after, behaviour)
            &&& all_wide(answers)
            &&& all_whole(blocks, behaviour.channels as nat)
            &&& match behaviour.filtering {
                Some(f) => {
                    &&& after.filtering->0.state == fed(f.geometry, f.periods, blocks)
                    &&& returned(answers) == fed_output(
                        model,
                        f.geometry,
                        f.bank,
                        f.periods,
                        blocks,
                    )
                },
                None => returned(answers) == joined(blocks),
            }
        }),
    decreases blocks.len(),
{
    let calls = running_calls(blocks);
    let answers = behaviour.answers(model, calls);
    if blocks.len() == 0 {
        match behaviour.filtering {
            Some(f) => {
                assert(f.state == fed(f.geometry, f.periods, blocks));
            },
            None => {},
        }
    } else {
        let end = blocks.len() - 1;
        let earlier = blocks.drop_last();
        let fewer = running_calls(earlier);
        let last = blocks[end];
        assert(calls.drop_last() =~= fewer);
        assert(calls.take(end) =~= fewer);
        assert(all_accepted(behaviour, model, earlier)) by {
            assert forall|i: int| 0 <= i < earlier.len() implies #[trigger] earlier[i].len()
                <= usize::MAX && behaviour.after_calls(model, fewer.take(i)).block_error(
                earlier[i].len() as usize,
            ) is None by {
                assert(fewer.take(i) =~= calls.take(i));
                assert(earlier[i] == blocks[i]);
            }
        }
        lemma_running(behaviour, model, earlier);
        let before = behaviour.after_calls(model, fewer);
        assert(before.block_error(last.len() as usize) is None);
        lemma_running_step(before, model, last);
        assert(calls.last() == Call::Wide(last, false));
        assert(behaviour.after_calls(model, calls) == before.after_call(
            model,
            Call::Wide(last, false),
        ));
        let first = behaviour.answers(model, fewer);
        let answer = before.answer(model, Call::Wide(last, false));
        assert forall|i: int| 0 <= i < end implies #[trigger] answers[i] == first[i] by {
            assert(fewer.take(i) =~= calls.take(i));
        }
        assert(answers[end] == answer);
        assert(answers =~= first.push(answer));
        assert(answers.drop_last() =~= first);
        assert(blocks =~= earlier.push(last));
    }
}

/// Every answer brings wide samples.
pub open spec fn all_wide(answers: Seq<Answer>) -> bool {
    forall|i: int| 0 <= i < answers.len() ==> #[trigger] answers[i] is Wide
}

/// Every block holds whole frames of `channels` samples.
pub open spec fn all_whole(blocks: Seq<Seq<u64>>, channels: nat) -> bool {
    forall|i: int| 0 <= i < blocks.len() ==> #[trigger] blocks[i].len() % channels == 0
}

/// How a complete input is cut into blocks does not matter: the answers to the blocks, one
/// after the other, are the answer to the whole input. No sample is lost, repeated or changed
/// where two blocks meet.
pub proof fn law_cutting_the_input_changes_nothing(
    model: Model,
    behaviour: Behaviour,
    blocks: Seq<Seq<u64>>,
    last: Seq<u64>,
    whole: Seq<u64>,
)
    requires
        at_the_start(behaviour),
        all_accepted(behaviour, model, blocks),
        last.len() <= usize::MAX,
        behaviour.after_calls(model, running_calls(blocks)).block_error(last.len() as usize)
            is None,
        whole == joined(blocks) + last,
        whole.len() <= usize::MAX,
        behaviour.block_error(whole.len() as usize) is None,
    ensures
        ({
            let calls = running_calls(blocks);
            let final_answer = behaviour.after_calls(model, calls).wide_answer(model, last, true);
            let answer = behaviour.wide_answer(model, whole, true);
            &&& final_answer is Ok
            &&& answer is Ok
            &&& all_wide(behaviour.answers(model, calls))
            &&& returned(behaviour.answers(model, calls)) + final_answer->Ok_0 == answer->Ok_0
        }),
{
    lemma_running(behaviour, model, blocks);
    match behaviour.filtering {
        Some(f) => {
            let g = f.geometry;
            let none = Seq::<Seq<u64>>::empty();
            assert(f.state == fed(g, f.periods, none));
            assert(joined(none) + whole =~= whole);
            law_blocks_do_not_change_the_output(
                model,
                g,
                f.bank,
                f.periods,
                blocks,
                last,
                f.periods,
                none,
                whole,
            );
            let answer = behaviour.wide_answer(model, whole, true)->Ok_0;
            assert(fed_output(model, g, f.bank, f.periods, none) + answer =~= answer);
        },
        None => {},
    }
}

/// A stream without input returns nothing.
pub proof fn law_empty_streams_return_nothing(model: Model, behaviour: Behaviour)
    requires
        at_the_start(behaviour),
        behaviour.block_error(0) is None,
    ensures
        behaviour.wide_answer(model, Seq::empty(), true) is Ok,
        behaviour.wide_answer(model, Seq::empty(), true)->Ok_0.len() == 0,
        behaviour.narrow_answer(model, Seq::empty(), true) is Ok,
        behaviour.narrow_answer(model, Seq::empty(), true)->Ok_0.len() == 0,
{
    match behaviour.filtering {
        Some(f) => {
            let g = f.geometry;
            let none = Seq::<Seq<u64>>::empty();
            let empty = Seq::<u64>::empty();
            assert(f.state == fed(g, f.periods, none));
            assert(f.state == fed(g, 0, none));
            assert(joined(none) + empty =~= empty);
            assert(promoted(model, Seq::empty()) =~= empty);
            law_streams_return_the_conversion(model, g, f.bank, f.periods, none, empty);
            law_streams_return_the_conversion(model, g, f.bank, 0, none, empty);
            assert(g.frames(empty) * g.step_den == 0) by (nonlinear_arith)
                requires
                    g.frames(empty) == 0,
            ;
            let answer = behaviour.wide_answer(model, empty, true)->Ok_0;
            assert(fed_output(model, g, f.bank, f.periods, none) + answer =~= answer);
            let untiled = block_output(model, g, f.bank, 0, f.state, empty, true);
            assert(fed_output(model, g, f.bank, 0, none) + untiled =~= untiled);
            law_quotients_are_rounded_up(0, g.step_num as nat);
            assert(ceil_div(0, g.step_num as nat) == 0) by (nonlinear_arith)
                requires
                    ceil_div(0, g.step_num as nat) * g.step_num < g.step_num,
            ;
            assert(0 * g.channels == 0) by (nonlinear_arith);
            assert(conversion(model, g, f.bank, empty).len() == 0);
            assert(answer.len() == 0);
        },
        None => {},
    }
}

/// Room for one more bank, in plain numbers: once the oldest banks are gone, one more is within
/// the limit on their number, and its memory within that on all of theirs.
pub proof fn law_room_is_counted_in_banks_and_bytes<S>(
    entries: Seq<BankEntry<S>>,
    dropped: int,
    bytes: nat,
    byte_limit: nat,
    entry_limit: nat,
    sums: Seq<int>,
)
    requires
        0 <= dropped <= entries.len(),
        sums.len() == entries.len() + 1,
        sums[dropped] == 0,
        forall|i: int|
            dropped <= i < entries.len() ==> #[trigger] sums[i + 1] == sums[i] + entries[i].bytes,
    ensures
        has_room(entries, dropped, bytes, byte_limit, entry_limit) <==> entries.len() - dropped + 1
            <= entry_limit && sums[entries.len() as int] + bytes <= byte_limit,
{
    lemma_counted(entries, dropped, sums, entries.len() as int);
    assert(entries.take(entries.len() as int) =~= entries);
}

proof fn lemma_counted<S>(entries: Seq<BankEntry<S>>, dropped: int, sums: Seq<int>, end: int)
    requires
        0 <= dropped <= end <= entries.len(),
        sums.len() == entries.len() + 1,
        sums[dropped] == 0,
        forall|i: int|
            dropped <= i < entries.len() ==> #[trigger] sums[i + 1] == sums[i] + entries[i].bytes,
    ensures
        total_bytes(entries.take(end).skip(dropped)) == sums[end],
    decreases end,
{
    let counted = entries.take(end).skip(dropped);
    if end > dropped {
        lemma_counted(entries, dropped, sums, end - 1);
        assert(counted.drop_last() =~= entries.take(end - 1).skip(dropped));
        assert(sums[(end - 1) + 1] == sums[end]);
    }
}

/// A bank can be kept if its memory is within the limit.
pub proof fn law_banks_within_the_limit_can_be_kept(key: BankKey, byte_limit: nat)
    requires
        key.phases < usize::MAX,
    ensures
        cachable(key, byte_limit) <==> 8 * key.taps * (key.phases + 1) <= byte_limit,
{
    law_banks_take_eight_bytes_per_coefficient(key);
}

/// Without wider instructions there are no tiles, and the widest available ones come first.
pub proof fn law_the_widest_instructions_are_preferred(features: CpuFeatures)
    ensures
        preferred_backend(features) == PhaseBatchBackend::Avx512 <==> features.avx512f,
        preferred_backend(features) == PhaseBatchBackend::Avx <==> features.avx
            && !features.avx512f,
        preferred_backend(features) == PhaseBatchBackend::Neon <==> features.neon && !features.avx
            && !features.avx512f,
{
}

/// The number that decimal digits stand for.
pub open spec fn number_of(digits: Seq<char>) -> nat
    decreases digits.len(),
{
    if digits.len() == 0 {
        0
    } else {
        (10 * number_of(digits.drop_last()) + (digits.last() as int - 48)) as nat
    }
}

/// Decimal text holds digits alone, stands for its number, and has no leading zeros.
pub proof fn law_decimal_text_stands_for_its_number(value: nat)
    ensures
        ({
            let text = decimal_text(value);
            &&& text.len() > 0
            &&& forall|i: int| 0 <= i < text.len() ==> 48 <= #[trigger] text[i] as int <= 57
            &&& number_of(text) == value
            &&& value > 0 ==> text[0] as int != 48
            &&& value < 10 ==> text.len() == 1
        }),
    decreases value,
{
    let text = decimal_text(value);
    let digit = value % 10;
    lemma_digit(digit);
    if value < 10 {
        assert(text.drop_last() =~= Seq::empty());
    } else {
        let higher = decimal_text(value / 10);
        law_decimal_text_stands_for_its_number(value / 10);
        assert(text.drop_last() =~= higher);
        assert(text.last() == digit_text(digit)[0]);
        assert(text[0] == higher[0]);
        assert forall|i: int| 0 <= i < text.len() implies 48 <= #[trigger] text[i] as int <= 57 by {
            if i < higher.len() {
                assert(text[i] == higher[i]);
            }
        }
    }
}

proof fn lemma_digit(digit: nat)
    requires
        digit < 10,
    ensures
        digit_text(digit).len() == 1,
        digit_text(digit)[0] as int == 48 + digit,
        number_of(digit_text(digit)) == digit,
{
    reveal_strlit("0");
    reveal_strlit("1");
    reveal_strlit("2");
    reveal_strlit("3");
    reveal_strlit("4");
    reveal_strlit("5");
    reveal_strlit("6");
    reveal_strlit("7");
    reveal_strlit("8");
    reveal_strlit("9");
    assert(digit_text(digit).drop_last() =~= Seq::empty());
    assert(number_of(Seq::empty()) == 0);
}

/// Messages name the limit that was missed with both numbers, or the rule that was broken.
pub proof fn law_messages_name_what_was_wrong(a: usize, b: usize)
    ensures
        (Error::InvalidFilterLength { requested: a, maximum: b }).message_text()
            == "filter length must be odd and between 3 and "@ + decimal_text(b as nat)
            + " taps (requested "@ + decimal_text(a as nat) + ")"@,
        (Error::IncompleteFrame { samples: a, channels: b }).message_text() == decimal_text(
            a as nat,
        )
            + " samples do not form complete "@ + decimal_text(b as nat) + "-channel frames"@,
        Error::ZeroSampleRate.message_text() == "sample rates must be nonzero"@,
        Error::ZeroChannels.message_text() == "channel count must be nonzero"@,
        Error::StreamFinished.message_text()
            == "reset the resampler before starting another stream"@,
        Error::SizeOverflow.message_text() == "sample count exceeds storage or timing limits"@,
{
}

} // verus!
