//! What holds of whole streams, however they are cut into blocks.

use vstd::arithmetic::div_mod::{
    lemma_div_is_ordered, lemma_fundamental_div_mod, lemma_fundamental_div_mod_converse,
};
use vstd::prelude::*;

use crate::arithmetic::Model;
use crate::design::ceil_div;
use crate::fir::{narrowed, promoted};
use crate::stream::{
    after_block, block_end, block_frames, block_output, channel_window, due_frames, due_limit,
    fresh_state, lemma_due_step, lemma_frames_ascend, lemma_ready, lemma_rendered_follows,
    lemma_steps_advance, output_sample, pads, rendered, run_end, step_frames, tail_blend_of,
    tap_samples, tap_weights, Geometry, StreamState, WINDOW_FRAMES,
};

verus! {

/// A block holds whole frames.
pub open spec fn whole_frames(g: Geometry, input: Seq<u64>) -> bool {
    input.len() % g.channels as nat == 0
}

/// Every block holds whole frames.
pub open spec fn whole_blocks(g: Geometry, blocks: Seq<Seq<u64>>) -> bool {
    forall|i: int| 0 <= i < blocks.len() ==> whole_frames(g, #[trigger] blocks[i])
}

/// The samples of all blocks.
pub open spec fn joined(blocks: Seq<Seq<u64>>) -> Seq<u64>
    decreases blocks.len(),
{
    if blocks.len() == 0 {
        Seq::empty()
    } else {
        joined(blocks.drop_last()) + blocks.last()
    }
}

/// A stream that has been given some blocks and goes on.
pub open spec fn fed(g: Geometry, periods: nat, blocks: Seq<Seq<u64>>) -> StreamState
    decreases blocks.len(),
{
    if blocks.len() == 0 {
        fresh_state()
    } else {
        after_block(g, periods, fed(g, periods, blocks.drop_last()), blocks.last(), false)
    }
}

/// What a stream that goes on has returned for its blocks.
pub open spec fn fed_output(
    model: Model,
    g: Geometry,
    bank: Seq<u64>,
    periods: nat,
    blocks: Seq<Seq<u64>>,
) -> Seq<u64>
    decreases blocks.len(),
{
    if blocks.len() == 0 {
        Seq::empty()
    } else {
        fed_output(model, g, bank, periods, blocks.drop_last()) + block_output(
            model,
            g,
            bank,
            periods,
            fed(g, periods, blocks.drop_last()),
            blocks.last(),
            false,
        )
    }
}

/// What a stream has returned in all, with its final block.
pub open spec fn stream_output(
    model: Model,
    g: Geometry,
    bank: Seq<u64>,
    periods: nat,
    blocks: Seq<Seq<u64>>,
    last: Seq<u64>,
) -> Seq<u64> {
    fed_output(model, g, bank, periods, blocks) + block_output(
        model,
        g,
        bank,
        periods,
        fed(g, periods, blocks),
        last,
        true,
    )
}

/// The conversion of a complete input: its output frames in order, each from the input
/// continued at both ends.
pub open spec fn conversion(model: Model, g: Geometry, bank: Seq<u64>, input: Seq<u64>) -> Seq<
    u64,
> {
    rendered(
        model,
        g,
        bank,
        input,
        0,
        0,
        ceil_div((g.frames(input) * g.step_den) as nat, g.step_num as nat),
    )
}

/// The last of several due frames makes all of them due.
pub proof fn lemma_due_steps(
    g: Geometry,
    total: int,
    end_of_stream: bool,
    position: int,
    frames: nat,
)
    requires
        g.valid(),
        frames > 0 ==> g.ready(position + (frames - 1) * g.step_num, total, end_of_stream),
    ensures
        due_frames(g, total, end_of_stream, position) == frames + due_frames(
            g,
            total,
            end_of_stream,
            position + frames * g.step_num,
        ),
    decreases frames,
{
    let num = g.step_num as int;
    if frames > 0 {
        lemma_ready(g, position + (frames - 1) * num, total, end_of_stream);
        assert(0 <= (frames - 1) * num && (frames - 1) * num + num == frames * num)
            by (nonlinear_arith)
            requires
                frames >= 1,
                num >= 0,
        ;
        if frames > 1 {
            assert((frames - 1 - 1) * num + num == (frames - 1) * num) by (nonlinear_arith);
            lemma_ready(g, position + (frames - 1 - 1) * num, total, end_of_stream);
        }
        lemma_due_steps(g, total, end_of_stream, position, (frames - 1) as nat);
        lemma_due_step(g, total, end_of_stream, position + (frames - 1) * num);
    } else {
        assert(0nat * num == 0) by (nonlinear_arith);
    }
}

/// A step emits frames that are due.
pub proof fn lemma_step_is_due(
    g: Geometry,
    periods: nat,
    total: int,
    first: int,
    end_of_stream: bool,
    padded: bool,
    position: int,
)
    requires
        g.valid(),
    ensures
        ({
            let frames = step_frames(g, periods, total, first, end_of_stream, padded, position);
            due_frames(g, total, end_of_stream, position) == frames + due_frames(
                g,
                total,
                end_of_stream,
                position + frames * g.step_num,
            )
        }),
{
    let frames = step_frames(g, periods, total, first, end_of_stream, padded, position);
    if frames > 0 {
        assert((frames - 1) * g.step_num == 0 || frames > 1) by (nonlinear_arith)
            requires
                frames >= 1,
        ;
        assert(frames == 4 ==> (frames - 1) * g.step_num == 3 * g.step_num);
    }
    lemma_due_steps(g, total, end_of_stream, position, frames);
}

/// Every call stops on the output grid after some of the frames that are due. The final
/// call of a stream emits all of them. Other calls leave less than one tile.
pub proof fn law_calls_emit_due_frames(
    g: Geometry,
    periods: nat,
    total: int,
    first: int,
    end_of_stream: bool,
    padded: bool,
    position: int,
)
    requires
        g.valid(),
    ensures
        ({
            let end = run_end(g, periods, total, first, end_of_stream, padded, position);
            let emitted = (end - position) / (g.step_num as int);
            let left = due_frames(g, total, end_of_stream, end);
            &&& 0 <= emitted
            &&& end == position + emitted * g.step_num
            &&& due_frames(g, total, end_of_stream, position) == emitted + left
            &&& left == 0 || left < periods * g.step_den
            &&& end_of_stream ==> left == 0
        }),
    decreases
            if position < total * g.step_den {
                total * g.step_den - position
            } else {
                0
            },
{
    let num = g.step_num as int;
    let end = run_end(g, periods, total, first, end_of_stream, padded, position);
    let frames = step_frames(g, periods, total, first, end_of_stream, padded, position);
    lemma_step_is_due(g, periods, total, first, end_of_stream, padded, position);
    if frames == 0 {
        lemma_fundamental_div_mod_converse(0, num, 0, 0);
        assert(0 * num == 0) by (nonlinear_arith);
        lemma_ready(g, position, total, end_of_stream);
        if g.ready(position, total, end_of_stream) {
            // A tile waits: its last frame is not due.
            let tile = periods * g.step_den as nat;
            assert(tile > 0) by (nonlinear_arith)
                requires
                    periods > 0,
                    g.step_den > 0,
                    tile == periods * g.step_den as nat,
            ;
            lemma_unready_bounds_due(g, total, end_of_stream, position, (tile - 1) as nat);
        }
    } else {
        lemma_steps_advance(g, periods, total, first, end_of_stream, padded, position);
        law_calls_emit_due_frames(
            g,
            periods,
            total,
            first,
            end_of_stream,
            padded,
            position + frames * num,
        );
        let rest = (end - (position + frames * num)) / num;
        assert(end - position == (frames + rest) * num + 0) by (nonlinear_arith)
            requires
                end == position + frames * num + rest * num,
        ;
        lemma_fundamental_div_mod_converse(end - position, num, frames + rest, 0);
        assert((frames + rest) * num == frames * num + rest * num) by (nonlinear_arith);
    }
}

/// A frame that is not due bounds the frames that are.
proof fn lemma_unready_bounds_due(
    g: Geometry,
    total: int,
    end_of_stream: bool,
    position: int,
    frames: nat,
)
    requires
        g.valid(),
        !g.ready(position + frames * g.step_num, total, end_of_stream),
    ensures
        due_frames(g, total, end_of_stream, position) <= frames,
{
    let num = g.step_num as int;
    let limit = due_limit(g, total, end_of_stream);
    lemma_ready(g, position + frames * num, total, end_of_stream);
    if position < limit {
        let left = limit - position;
        assert(left + num - 1 < (frames + 1) * num) by (nonlinear_arith)
            requires
                left <= frames * num,
                num >= 1,
        ;
        lemma_fundamental_div_mod(left + num - 1, num);
        assert((left + num - 1) / num <= frames) by (nonlinear_arith)
            requires
                left + num - 1 == num * ((left + num - 1) / num) + (left + num - 1) % num,
                0 <= (left + num - 1) % num,
                left + num - 1 < (frames + 1) * num,
                num >= 1,
        ;
    }
}

/// More input extends an earlier one.
pub open spec fn extends(history: Seq<u64>, earlier: Seq<u64>) -> bool {
    &&& earlier.len() <= history.len()
    &&& forall|i: int| 0 <= i < earlier.len() ==> history[i] == earlier[i]
}

/// Input of whole frames.
pub open spec fn whole_history(g: Geometry, history: Seq<u64>) -> bool {
    history.len() == g.frames(history) * g.channels
}

/// Samples of complete frames lie within the input.
proof fn lemma_frame_in_range(g: Geometry, history: Seq<u64>, frame: int, channel: int)
    requires
        g.valid(),
        whole_history(g, history),
        0 <= frame < g.frames(history),
        0 <= channel < g.channels,
    ensures
        0 <= frame * g.channels + channel < history.len(),
{
    assert(0 <= frame * g.channels && frame * g.channels + g.channels <= g.frames(history)
        * g.channels) by (nonlinear_arith)
        requires
            0 <= frame,
            frame + 1 <= g.frames(history),
            0 <= g.channels,
    ;
}

/// Longer input has no fewer frames.
proof fn lemma_frames_grow(g: Geometry, history: Seq<u64>, earlier: Seq<u64>)
    requires
        g.valid(),
        extends(history, earlier),
    ensures
        0 <= g.frames(earlier) <= g.frames(history),
{
    lemma_div_is_ordered(earlier.len() as int, history.len() as int, g.channels as int);
    lemma_div_is_ordered(0, earlier.len() as int, g.channels as int);
    lemma_fundamental_div_mod_converse(0, g.channels as int, 0, 0);
}

/// An output whose lookahead has arrived reads nothing that later input changes, and
/// nothing that has been dropped.
pub proof fn lemma_settled_output(
    model: Model,
    g: Geometry,
    bank: Seq<u64>,
    earlier: Seq<u64>,
    first: int,
    history: Seq<u64>,
    position: int,
    channel: int,
)
    requires
        g.valid(),
        whole_history(g, earlier),
        whole_history(g, history),
        extends(history, earlier),
        0 <= position,
        0 <= channel < g.channels,
        0 <= first,
        first == 0 || first <= g.frame_at(position) - g.half(),
        g.frame_at(position) + g.half() < g.frames(earlier),
    ensures
        output_sample(model, g, bank, earlier, first, position, channel) == output_sample(
            model,
            g,
            bank,
            history,
            0,
            position,
            channel,
        ),
{
    let before = tap_samples(model, g, earlier, first, position, channel);
    let after = tap_samples(model, g, history, 0, position, channel);
    lemma_frames_grow(g, history, earlier);
    lemma_frames_ascend(g, 0, position);
    lemma_fundamental_div_mod_converse(0, g.step_den as int, 0, 0);
    assert forall|tap: int| 0 <= tap < g.taps implies before[tap] == after[tap] by {
        let frame = g.frame_at(position) + tap - g.half();
        assert(frame < g.frames(earlier));
        if frame >= 0 {
            lemma_frame_in_range(g, earlier, frame, channel);
        } else {
            assert(first == 0);
            assert(-frame <= g.half() < g.frames(earlier));
            lemma_frame_in_range(g, earlier, 0, channel);
            lemma_frame_in_range(g, earlier, -frame, channel);
        }
    }
    assert(before =~= after);
}

/// An output of the final call reads nothing that has been dropped, if the last frames
/// of the input are retained.
pub proof fn lemma_final_output(
    model: Model,
    g: Geometry,
    bank: Seq<u64>,
    history: Seq<u64>,
    first: int,
    position: int,
    channel: int,
)
    requires
        g.valid(),
        whole_history(g, history),
        0 <= position,
        0 <= channel < g.channels,
        0 <= first,
        first == 0 || first < g.frame_at(position) - g.half(),
        first == 0 || first <= g.frames(history) - WINDOW_FRAMES,
        g.frame_at(position) < g.frames(history),
    ensures
        output_sample(model, g, bank, history, first, position, channel) == output_sample(
            model,
            g,
            bank,
            history,
            0,
            position,
            channel,
        ),
{
    if first > 0 {
        let retained = tap_samples(model, g, history, first, position, channel);
        let complete = tap_samples(model, g, history, 0, position, channel);
        assert(tail_blend_of(model, g, history, first, channel) == tail_blend_of(
            model,
            g,
            history,
            0,
            channel,
        ));
        assert forall|tap: int| 0 <= tap < g.taps implies retained[tap] == complete[tap] by {
            let frame = g.frame_at(position) + tap - g.half();
            assert(first <= frame);
        }
        assert(retained =~= complete);
    }
}

/// Frames rendered from two views of the input are equal where each sample is.
proof fn lemma_rendered_equal(
    model: Model,
    g: Geometry,
    bank: Seq<u64>,
    earlier: Seq<u64>,
    first: int,
    history: Seq<u64>,
    position: int,
    count: nat,
)
    requires
        g.valid(),
        forall|k: int, channel: int|
            #![trigger output_sample(model, g, bank, earlier, first, position + k * g.step_num, channel)]
            0 <= k < count && 0 <= channel < g.channels ==> output_sample(
                model,
                g,
                bank,
                earlier,
                first,
                position + k * g.step_num,
                channel,
            ) == output_sample(
                model,
                g,
                bank,
                history,
                0,
                position + k * g.step_num,
                channel,
            ),
    ensures
        rendered(model, g, bank, earlier, first, position, count) == rendered(
            model,
            g,
            bank,
            history,
            0,
            position,
            count,
        ),
{
    let c = g.channels as int;
    let a = rendered(model, g, bank, earlier, first, position, count);
    let b = rendered(model, g, bank, history, 0, position, count);
    assert forall|i: int| 0 <= i < a.len() implies a[i] == b[i] by {
        lemma_fundamental_div_mod(i, c);
        assert(0 <= i / c < count) by (nonlinear_arith)
            requires
                i == c * (i / c) + i % c,
                0 <= i % c < c,
                0 <= i < count * c,
        ;
        assert(output_sample(
            model,
            g,
            bank,
            earlier,
            first,
            position + (i / c) * g.step_num,
            i % c,
        ) == a[i]);
    }
    assert(a =~= b);
}

/// What holds of every stream between two blocks: it lies on the output grid after a
/// frame that was due, its taps and the last frames fall on retained frames (unless nothing
/// has been dropped yet), and less than one tile of due frames is held back.
pub open spec fn sound(g: Geometry, periods: nat, state: StreamState) -> bool {
    let total = g.frames(state.history);
    &&& whole_history(g, state.history)
    &&& 0 <= state.first <= total
    &&& state.first == 0 || state.first < g.frame_at(state.position) - g.half()
    &&& state.first == 0 || state.first <= total - WINDOW_FRAMES
    &&& 0 <= state.position
    &&& state.position == (state.position / (g.step_num as int)) * g.step_num
    &&& state.position == 0 || g.ready(state.position - g.step_num, total, false)
    &&& due_frames(g, total, false, state.position) == 0 || due_frames(
        g,
        total,
        false,
        state.position,
    ) < periods * g.step_den
}

/// Frames within the due count are due.
proof fn lemma_within_due(g: Geometry, total: int, end_of_stream: bool, position: int, k: int)
    requires
        g.valid(),
        0 <= k < due_frames(g, total, end_of_stream, position),
    ensures
        g.ready(position + k * g.step_num, total, end_of_stream),
{
    let num = g.step_num as int;
    let left = due_limit(g, total, end_of_stream) - position;
    lemma_ready(g, position + k * num, total, end_of_stream);
    lemma_fundamental_div_mod(left + num - 1, num);
    assert(k * num < left) by (nonlinear_arith)
        requires
            left + num - 1 == num * ((left + num - 1) / num) + (left + num - 1) % num,
            (left + num - 1) % num < num,
            (left + num - 1) % num >= 0,
            k + 1 <= (left + num - 1) / num,
            num >= 1,
    ;
}

/// Appending whole frames.
pub proof fn lemma_append_whole(g: Geometry, history: Seq<u64>, input: Seq<u64>)
    requires
        g.valid(),
        whole_history(g, history),
        whole_frames(g, input),
    ensures
        whole_history(g, history + input),
        g.frames(history + input) == g.frames(history) + input.len() as int / g.channels as int,
        extends(history + input, history),
        0 <= input.len() as int / g.channels as int,
{
    let c = g.channels as int;
    let more = input.len() as int / c;
    lemma_fundamental_div_mod(input.len() as int, c);
    lemma_div_is_ordered(0, input.len() as int, c);
    lemma_fundamental_div_mod_converse(0, c, 0, 0);
    assert((history + input).len() == (g.frames(history) + more) * c) by (nonlinear_arith)
        requires
            (history + input).len() == g.frames(history) * c + c * more,
    ;
    lemma_fundamental_div_mod_converse(
        (history + input).len() as int,
        c,
        g.frames(history) + more,
        0,
    );
}

/// A new stream is sound.
pub proof fn lemma_fresh_is_sound(g: Geometry, periods: nat)
    requires
        g.valid(),
    ensures
        sound(g, periods, fresh_state()),
{
    lemma_fundamental_div_mod_converse(0, g.channels as int, 0, 0);
    lemma_fundamental_div_mod_converse(0, g.step_num as int, 0, 0);
    assert(0int * g.step_num == 0) by (nonlinear_arith);
    assert(due_limit(g, 0, false) <= 0) by (nonlinear_arith)
        requires
            due_limit(g, 0, false) == (0 - g.half()) * g.step_den,
            g.half() >= 0,
            g.step_den > 0,
    ;
    assert(0int * g.channels == 0) by (nonlinear_arith);
}

/// Blocks keep streams sound, also where tiled and untiled blocks take turns.
pub proof fn law_blocks_keep_streams_sound(
    g: Geometry,
    held: nat,
    periods: nat,
    state: StreamState,
    input: Seq<u64>,
)
    requires
        g.valid(),
        sound(g, held, state),
        whole_frames(g, input),
    ensures
        sound(g, periods, after_block(g, periods, state, input, false)),
{
    let num = g.step_num as int;
    let history = state.history + input;
    let total = g.frames(history);
    let padded = pads(g, total, state.first, state.position, false);
    let end = block_end(g, periods, state, input, false);
    lemma_append_whole(g, state.history, input);
    law_calls_emit_due_frames(g, periods, total, state.first, false, padded, state.position);
    let emitted = (end - state.position) / num;
    let before = state.position / num;
    assert(end == (before + emitted) * num + 0) by (nonlinear_arith)
        requires
            end == before * num + emitted * num,
    ;
    lemma_fundamental_div_mod_converse(end, num, before + emitted, 0);
    assert(0 <= emitted * num) by (nonlinear_arith)
        requires
            0 <= emitted,
            0 < num,
    ;
    lemma_frames_ascend(g, state.position, end);
    if emitted > 0 {
        lemma_within_due(g, total, false, state.position, emitted - 1);
        assert((emitted - 1) * num == emitted * num - num) by (nonlinear_arith);
    }
}

/// Streams are sound after any blocks, and hold all of their input.
pub proof fn law_streams_are_sound(g: Geometry, periods: nat, blocks: Seq<Seq<u64>>)
    requires
        g.valid(),
        whole_blocks(g, blocks),
    ensures
        sound(g, periods, fed(g, periods, blocks)),
        fed(g, periods, blocks).history == joined(blocks),
    decreases blocks.len(),
{
    if blocks.len() == 0 {
        lemma_fresh_is_sound(g, periods);
    } else {
        law_streams_are_sound(g, periods, blocks.drop_last());
        assert(whole_frames(g, blocks[blocks.len() - 1]));
        law_blocks_keep_streams_sound(
            g,
            periods,
            periods,
            fed(g, periods, blocks.drop_last()),
            blocks.last(),
        );
    }
}

/// A block that is not the last brings output frames of the conversion of any input that
/// the stream may still become.
proof fn lemma_block_converts(
    model: Model,
    g: Geometry,
    bank: Seq<u64>,
    periods: nat,
    state: StreamState,
    input: Seq<u64>,
    history: Seq<u64>,
)
    requires
        g.valid(),
        sound(g, periods, state),
        whole_frames(g, input),
        whole_history(g, history),
        extends(history, state.history + input),
    ensures
        block_output(model, g, bank, periods, state, input, false) == rendered(
            model,
            g,
            bank,
            history,
            0,
            state.position,
            block_frames(g, periods, state, input, false),
        ),
{
    let num = g.step_num as int;
    let earlier = state.history + input;
    let total = g.frames(earlier);
    let padded = pads(g, total, state.first, state.position, false);
    lemma_append_whole(g, state.history, input);
    law_calls_emit_due_frames(g, periods, total, state.first, false, padded, state.position);
    let count = block_frames(g, periods, state, input, false);
    assert forall|k: int, channel: int|
        #![trigger output_sample(model, g, bank, earlier, state.first, state.position + k * g.step_num, channel)]
        0 <= k < count && 0 <= channel < g.channels implies output_sample(
        model,
        g,
        bank,
        earlier,
        state.first,
        state.position + k * g.step_num,
        channel,
    ) == output_sample(
        model,
        g,
        bank,
        history,
        0,
        state.position + k * g.step_num,
        channel,
    ) by {
        let position = state.position + k * num;
        lemma_within_due(g, total, false, state.position, k);
        assert(0 <= k * num) by (nonlinear_arith)
            requires
                0 <= k,
                0 < num,
        ;
        lemma_frames_ascend(g, state.position, position);
        lemma_settled_output(
            model,
            g,
            bank,
            earlier,
            state.first,
            history,
            position,
            channel,
        );
    }
    lemma_rendered_equal(
        model,
        g,
        bank,
        earlier,
        state.first,
        history,
        state.position,
        count,
    );
}

/// Until its last block, a stream has returned the first frames of the conversion of any
/// input that it may still become. Neither the cut into blocks nor the tiles matter.
pub proof fn law_output_so_far_is_a_prefix_of_the_conversion(
    model: Model,
    g: Geometry,
    bank: Seq<u64>,
    periods: nat,
    blocks: Seq<Seq<u64>>,
    history: Seq<u64>,
)
    requires
        g.valid(),
        whole_blocks(g, blocks),
        whole_history(g, history),
        extends(history, joined(blocks)),
    ensures
        fed_output(model, g, bank, periods, blocks) == rendered(
            model,
            g,
            bank,
            history,
            0,
            0,
            (fed(g, periods, blocks).position / (g.step_num as int)) as nat,
        ),
    decreases blocks.len(),
{
    let num = g.step_num as int;
    if blocks.len() == 0 {
        lemma_fundamental_div_mod_converse(0, num, 0, 0);
        assert(0nat * g.channels as nat == 0) by (nonlinear_arith);
        assert(rendered(model, g, bank, history, 0, 0, 0) =~= Seq::<u64>::empty());
    } else {
        let earlier = blocks.drop_last();
        let state = fed(g, periods, earlier);
        let input = blocks.last();
        assert(whole_frames(g, blocks[blocks.len() - 1]));
        law_streams_are_sound(g, periods, earlier);
        assert(extends(history, joined(earlier))) by {
            assert forall|i: int| 0 <= i < joined(earlier).len() implies history[i] == joined(
                earlier,
            )[i] by {
                assert(joined(blocks)[i] == joined(earlier)[i]);
            }
        }
        law_output_so_far_is_a_prefix_of_the_conversion(
            model,
            g,
            bank,
            periods,
            earlier,
            history,
        );
        lemma_block_converts(model, g, bank, periods, state, input, history);
        let before = (state.position / num) as nat;
        let count = block_frames(g, periods, state, input, false);
        lemma_append_whole(g, state.history, input);
        let total = g.frames(state.history + input);
        law_calls_emit_due_frames(
            g,
            periods,
            total,
            state.first,
            false,
            pads(g, total, state.first, state.position, false),
            state.position,
        );
        lemma_fundamental_div_mod(state.position, num);
        assert(state.position / num >= 0) by (nonlinear_arith)
            requires
                state.position == (state.position / num) * num,
                state.position >= 0,
                num > 0,
        ;
        lemma_rendered_follows(model, g, bank, history, 0, 0, before, count);
        let end = fed(g, periods, blocks).position;
        assert(end == (before + count) * num + 0) by (nonlinear_arith)
            requires
                end == before * num + count * num,
        ;
        lemma_fundamental_div_mod_converse(end, num, (before + count) as int, 0);
    }
}

/// Emitted and remaining frames of the final call make up the whole conversion.
proof fn lemma_final_count(
    g: Geometry,
    periods: nat,
    state: StreamState,
    last: Seq<u64>,
)
    requires
        g.valid(),
        sound(g, periods, state),
        whole_frames(g, last),
    ensures
        0 <= state.position / (g.step_num as int),
        state.position / (g.step_num as int) + block_frames(g, periods, state, last, true)
            == ceil_div(
            (g.frames(state.history + last) * g.step_den) as nat,
            g.step_num as nat,
        ),
{
    let num = g.step_num as int;
    let total = g.frames(state.history + last);
    let before = state.position / num;
    lemma_append_whole(g, state.history, last);
    assert(before >= 0) by (nonlinear_arith)
        requires
            state.position == before * num,
            state.position >= 0,
            num > 0,
    ;
    law_calls_emit_due_frames(
        g,
        periods,
        total,
        state.first,
        true,
        pads(g, total, state.first, state.position, true),
        state.position,
    );
    if before > 0 {
        assert((before - 1) * num == state.position - num) by (nonlinear_arith)
            requires
                state.position == before * num,
        ;
        assert(before * num > 0) by (nonlinear_arith)
            requires
                before > 0,
                num > 0,
        ;
    }
    lemma_due_steps(g, total, true, 0, before as nat);
    assert(0 <= total * g.step_den) by (nonlinear_arith)
        requires
            0 <= total,
    ;
    if total * g.step_den == 0 {
        assert(0 * num == 0) by (nonlinear_arith);
        lemma_fundamental_div_mod_converse(num - 1, num, 0, num - 1);
    }
}

/// A complete stream has `ceil(frames * step_den / step_num)` output frames, however it
/// was cut into blocks and whether or not it was tiled.
pub proof fn law_streams_have_the_length_of_the_conversion(
    model: Model,
    g: Geometry,
    bank: Seq<u64>,
    periods: nat,
    blocks: Seq<Seq<u64>>,
    last: Seq<u64>,
)
    requires
        g.valid(),
        whole_blocks(g, blocks),
        whole_frames(g, last),
    ensures
        stream_output(model, g, bank, periods, blocks, last).len() == ceil_div(
            (g.frames(joined(blocks) + last) * g.step_den) as nat,
            g.step_num as nat,
        ) * g.channels,
{
    let num = g.step_num as int;
    let state = fed(g, periods, blocks);
    law_streams_are_sound(g, periods, blocks);
    assert(extends(joined(blocks), joined(blocks)));
    law_output_so_far_is_a_prefix_of_the_conversion(
        model,
        g,
        bank,
        periods,
        blocks,
        joined(blocks),
    );
    lemma_final_count(g, periods, state, last);
    let before = (state.position / num) as nat;
    let count = block_frames(g, periods, state, last, true);
    assert(before * g.channels as nat + count * g.channels as nat == (before + count)
        * g.channels as nat) by (nonlinear_arith);
}

/// A complete stream returns the conversion of its input: neither the cut into blocks nor
/// the tiles change a sample.
pub proof fn law_streams_return_the_conversion(
    model: Model,
    g: Geometry,
    bank: Seq<u64>,
    periods: nat,
    blocks: Seq<Seq<u64>>,
    last: Seq<u64>,
)
    requires
        g.valid(),
        whole_blocks(g, blocks),
        whole_frames(g, last),
    ensures
        stream_output(model, g, bank, periods, blocks, last) == conversion(
            model,
            g,
            bank,
            joined(blocks) + last,
        ),
{
    let num = g.step_num as int;
    let state = fed(g, periods, blocks);
    let history = joined(blocks) + last;
    let total = g.frames(history);
    law_streams_are_sound(g, periods, blocks);
    lemma_append_whole(g, state.history, last);
    law_output_so_far_is_a_prefix_of_the_conversion(model, g, bank, periods, blocks, history);
    lemma_final_count(g, periods, state, last);
    let before = (state.position / num) as nat;
    let count = block_frames(g, periods, state, last, true);
    law_calls_emit_due_frames(
        g,
        periods,
        total,
        state.first,
        true,
        pads(g, total, state.first, state.position, true),
        state.position,
    );
    assert forall|k: int, channel: int|
        #![trigger output_sample(model, g, bank, history, state.first, state.position + k * g.step_num, channel)]
        0 <= k < count && 0 <= channel < g.channels implies output_sample(
        model,
        g,
        bank,
        history,
        state.first,
        state.position + k * g.step_num,
        channel,
    ) == output_sample(
        model,
        g,
        bank,
        history,
        0,
        state.position + k * g.step_num,
        channel,
    ) by {
        let position = state.position + k * num;
        lemma_within_due(g, total, true, state.position, k);
        assert(0 <= k * num) by (nonlinear_arith)
            requires
                0 <= k,
                0 < num,
        ;
        lemma_frames_ascend(g, state.position, position);
        lemma_final_output(model, g, bank, history, state.first, position, channel);
    }
    lemma_rendered_equal(
        model,
        g,
        bank,
        history,
        state.first,
        history,
        state.position,
        count,
    );
    lemma_rendered_follows(model, g, bank, history, 0, 0, before, count);
}

/// Streams retain the frames that decide how the input continues past its end: the last
/// [`WINDOW_FRAMES`] ones, or all of a shorter stream, whatever the length of the filter.
pub proof fn law_streams_retain_the_tail(
    g: Geometry,
    periods: nat,
    blocks: Seq<Seq<u64>>,
    last: Seq<u64>,
)
    requires
        g.valid(),
        whole_blocks(g, blocks),
        whole_frames(g, last),
    ensures
        ({
            let first = fed(g, periods, blocks).first;
            first == 0 || first <= g.frames(joined(blocks) + last) - WINDOW_FRAMES
        }),
{
    law_streams_are_sound(g, periods, blocks);
    lemma_append_whole(g, joined(blocks), last);
}

/// Cutting one input into blocks in two ways, tiled or not, gives the same output.
pub proof fn law_blocks_do_not_change_the_output(
    model: Model,
    g: Geometry,
    bank: Seq<u64>,
    periods: nat,
    blocks: Seq<Seq<u64>>,
    last: Seq<u64>,
    other_periods: nat,
    other_blocks: Seq<Seq<u64>>,
    other_last: Seq<u64>,
)
    requires
        g.valid(),
        whole_blocks(g, blocks),
        whole_frames(g, last),
        whole_blocks(g, other_blocks),
        whole_frames(g, other_last),
        joined(blocks) + last == joined(other_blocks) + other_last,
    ensures
        stream_output(model, g, bank, periods, blocks, last) == stream_output(
            model,
            g,
            bank,
            other_periods,
            other_blocks,
            other_last,
        ),
{
    law_streams_return_the_conversion(model, g, bank, periods, blocks, last);
    law_streams_return_the_conversion(model, g, bank, other_periods, other_blocks, other_last);
}

/// While a stream goes on, a tiled one has returned a prefix of what an untiled one has,
/// and lags by less than one tile.
pub proof fn law_tiles_lag_by_less_than_one_tile(
    model: Model,
    g: Geometry,
    bank: Seq<u64>,
    periods: nat,
    blocks: Seq<Seq<u64>>,
)
    requires
        g.valid(),
        whole_blocks(g, blocks),
    ensures
        ({
            let tiled = fed_output(model, g, bank, periods, blocks);
            let untiled = fed_output(model, g, bank, 0, blocks);
            &&& extends(untiled, tiled)
            &&& untiled.len() == tiled.len() || untiled.len() - tiled.len() < periods * g.step_den
                * g.channels
        }),
{
    let num = g.step_num as int;
    let c = g.channels as nat;
    let history = joined(blocks);
    let total = g.frames(history);
    let a = fed(g, periods, blocks);
    let b = fed(g, 0, blocks);
    law_streams_are_sound(g, periods, blocks);
    law_streams_are_sound(g, 0, blocks);
    assert(extends(history, history));
    law_output_so_far_is_a_prefix_of_the_conversion(model, g, bank, periods, blocks, history);
    law_output_so_far_is_a_prefix_of_the_conversion(model, g, bank, 0, blocks, history);
    lemma_grid_count(g, total, a.position);
    lemma_grid_count(g, total, b.position);
    assert(0nat * g.step_den == 0) by (nonlinear_arith);
    let m = (a.position / num) as nat;
    let lag = due_frames(g, total, false, a.position);
    assert((b.position / num) as nat == m + lag);
    lemma_rendered_follows(model, g, bank, history, 0, 0, m, lag);
    assert((m + lag) * c == m * c + lag * c) by (nonlinear_arith);
    if lag > 0 {
        assert(lag * c < periods * g.step_den * c) by (nonlinear_arith)
            requires
                lag < periods * g.step_den,
                c > 0,
        ;
    } else {
        assert(lag * c == 0) by (nonlinear_arith)
            requires
                lag == 0,
        ;
    }
}

/// Emitted and due frames together do not depend on how far a stream has come.
proof fn lemma_grid_count(g: Geometry, total: int, position: int)
    requires
        g.valid(),
        0 <= position,
        position == (position / (g.step_num as int)) * g.step_num,
        position == 0 || g.ready(position - g.step_num, total, false),
    ensures
        0 <= position / (g.step_num as int),
        due_frames(g, total, false, 0) == position / (g.step_num as int) + due_frames(
            g,
            total,
            false,
            position,
        ),
{
    let num = g.step_num as int;
    let before = position / num;
    assert(before >= 0) by (nonlinear_arith)
        requires
            position == before * num,
            position >= 0,
            num > 0,
    ;
    if before > 0 {
        assert((before - 1) * num == position - num) by (nonlinear_arith)
            requires
                position == before * num,
        ;
        assert(before * num > 0) by (nonlinear_arith)
            requires
                before > 0,
                num > 0,
        ;
    }
    lemma_due_steps(g, total, false, 0, before as nat);
}

/// The input that a stream has not yet answered is bounded by the lookahead and the
/// periods of one tile.
pub proof fn law_held_back_input_is_bounded(g: Geometry, periods: nat, state: StreamState)
    requires
        g.valid(),
        sound(g, periods, state),
    ensures
        g.frames(state.history) - g.frame_at(state.position) <= g.half() + periods * g.step_num,
{
    let num = g.step_num as int;
    let den = g.step_den as int;
    let total = g.frames(state.history);
    let due = due_frames(g, total, false, state.position);
    lemma_ready(g, state.position, total, false);
    assert(0 <= periods * num) by (nonlinear_arith)
        requires
            0 <= num,
    ;
    if g.ready(state.position, total, false) {
        lemma_due_step(g, total, false, state.position);
        let limit = due_limit(g, total, false);
        let left = limit - state.position;
        lemma_fundamental_div_mod(left + num - 1, num);
        assert(left <= due * num) by (nonlinear_arith)
            requires
                left + num - 1 == num * due + (left + num - 1) % num,
                (left + num - 1) % num <= num - 1,
        ;
        assert(due * num <= periods * num * den - num) by (nonlinear_arith)
            requires
                due <= periods * den - 1,
                num >= 1,
        ;
        lemma_fundamental_div_mod(state.position, den);
        let frame = state.position / den;
        assert(total - g.half() <= frame + periods * num) by (nonlinear_arith)
            requires
                (total - g.half()) * den - state.position <= periods * num * den - num,
                state.position == den * frame + state.position % den,
                state.position % den <= den - 1,
                num >= 1,
                den >= 1,
        ;
    }
}

/// A stream that goes on retains no more than both sides of the filter, one frame, and
/// the periods of one tile, or the frames that decide how it continues past its end.
pub proof fn law_retained_input_is_bounded(
    g: Geometry,
    periods: nat,
    state: StreamState,
    input: Seq<u64>,
)
    requires
        g.valid(),
        sound(g, periods, state),
        whole_frames(g, input),
    ensures
        ({
            let after = after_block(g, periods, state, input, false);
            let retained = g.frames(after.history) - after.first;
            retained <= 2 * g.half() + 1 + periods * g.step_num || retained <= WINDOW_FRAMES
        }),
{
    let after = after_block(g, periods, state, input, false);
    law_blocks_keep_streams_sound(g, periods, periods, state, input);
    law_held_back_input_is_bounded(g, periods, after);
    assert(0 <= periods * g.step_num) by (nonlinear_arith);
}

/// After the final block nothing is retained and nothing is due: another empty final
/// block returns nothing and changes nothing.
pub proof fn law_finishing_twice_changes_nothing(
    model: Model,
    g: Geometry,
    bank: Seq<u64>,
    periods: nat,
    state: StreamState,
    last: Seq<u64>,
)
    requires
        g.valid(),
    ensures
        ({
            let done = after_block(g, periods, state, last, true);
            &&& done.first == g.frames(done.history)
            &&& after_block(g, periods, done, Seq::empty(), true) == done
            &&& block_output(model, g, bank, periods, done, Seq::empty(), true) == Seq::<
                u64,
            >::empty()
        }),
{
    let done = after_block(g, periods, state, last, true);
    let total = g.frames(done.history);
    assert(done.history + Seq::<u64>::empty() =~= done.history);
    law_calls_emit_due_frames(
        g,
        periods,
        total,
        state.first,
        true,
        pads(g, total, state.first, state.position, true),
        state.position,
    );
    law_calls_emit_due_frames(
        g,
        periods,
        total,
        done.first,
        true,
        pads(g, total, done.first, done.position, true),
        done.position,
    );
    lemma_fundamental_div_mod_converse(0, g.step_num as int, 0, 0);
    assert(0int * g.step_num == 0) by (nonlinear_arith);
    assert(0nat * g.channels as nat == 0) by (nonlinear_arith);
    assert(block_output(model, g, bank, periods, done, Seq::empty(), true) =~= Seq::<u64>::empty());
}

/// Whole tiles return to the phase they started at.
pub proof fn law_tiles_keep_the_phase(g: Geometry, periods: nat, position: int)
    requires
        g.valid(),
    ensures
        g.phase_at(position + periods * g.step_den * g.step_num) == g.phase_at(position),
        g.frame_at(position + periods * g.step_den * g.step_num) == g.frame_at(position) + periods
            * g.step_num,
{
    let den = g.step_den as int;
    let num = g.step_num as int;
    lemma_fundamental_div_mod(position, den);
    assert(position + periods * den * num == (position / den + periods * num) * den + position
        % den) by (nonlinear_arith)
        requires
            position == den * (position / den) + position % den,
    ;
    lemma_fundamental_div_mod_converse(
        position + periods * den * num,
        den,
        position / den + periods * num,
        position % den,
    );
}

/// The `k`-th output frame lies `k * step_num / step_den` input frames after the first:
/// rounding never accumulates.
pub proof fn law_output_frames_lie_on_the_exact_grid(
    g: Geometry,
    periods: nat,
    state: StreamState,
    input: Seq<u64>,
    end_of_stream: bool,
)
    requires
        g.valid(),
    ensures
        after_block(g, periods, state, input, end_of_stream).position == state.position
            + block_frames(g, periods, state, input, end_of_stream) * g.step_num,
{
    let total = g.frames(state.history + input);
    law_calls_emit_due_frames(
        g,
        periods,
        total,
        state.first,
        end_of_stream,
        pads(g, total, state.first, state.position, end_of_stream),
        state.position,
    );
}

/// Two inputs of one length that agree on a channel.
pub open spec fn agree(g: Geometry, channel: int, a: Seq<u64>, b: Seq<u64>) -> bool {
    &&& a.len() == b.len()
    &&& forall|i: int|
        0 <= i < a.len() && i % g.channels as int == channel ==> #[trigger] a[i] == b[i]
}

/// Agreeing inputs have the same samples in that channel of every frame.
proof fn lemma_agreeing_sample(
    g: Geometry,
    channel: int,
    a: Seq<u64>,
    b: Seq<u64>,
    frame: int,
)
    requires
        g.valid(),
        whole_history(g, a),
        agree(g, channel, a, b),
        0 <= channel < g.channels,
        0 <= frame < g.frames(a),
    ensures
        a[frame * g.channels + channel] == b[frame * g.channels + channel],
{
    lemma_frame_in_range(g, a, frame, channel);
    lemma_fundamental_div_mod_converse(
        frame * g.channels + channel,
        g.channels as int,
        frame,
        channel,
    );
}

/// Outputs of agreeing inputs agree.
proof fn lemma_agreeing_output(
    model: Model,
    g: Geometry,
    bank: Seq<u64>,
    channel: int,
    a: Seq<u64>,
    b: Seq<u64>,
    first: int,
    position: int,
)
    requires
        g.valid(),
        whole_history(g, a),
        agree(g, channel, a, b),
        0 <= channel < g.channels,
        0 <= first,
    ensures
        output_sample(model, g, bank, a, first, position, channel) == output_sample(
            model,
            g,
            bank,
            b,
            first,
            position,
            channel,
        ),
{
    let total = g.frames(a);
    let from = if total - WINDOW_FRAMES < first {
        first
    } else {
        total - WINDOW_FRAMES
    };
    if first < total {
        let window = channel_window(g, a, from, total, channel);
        let other = channel_window(g, b, from, total, channel);
        assert forall|i: int| 0 <= i < window.len() implies window[i] == other[i] by {
            lemma_agreeing_sample(g, channel, a, b, from + i);
        }
        assert(window =~= other);
    }
    let samples = tap_samples(model, g, a, first, position, channel);
    let others = tap_samples(model, g, b, first, position, channel);
    assert forall|tap: int| 0 <= tap < g.taps implies samples[tap] == others[tap] by {
        let frame = g.frame_at(position) + tap - g.half();
        let last = total - 1;
        if first < total {
            if first <= frame < total {
                lemma_agreeing_sample(g, channel, a, b, frame);
            }
            lemma_agreeing_sample(g, channel, a, b, first);
            lemma_agreeing_sample(g, channel, a, b, last);
            if frame < first && first + (first - frame) < last {
                lemma_agreeing_sample(g, channel, a, b, first + (first - frame));
            }
            if frame >= total && last - (frame - last) > first {
                lemma_agreeing_sample(g, channel, a, b, last - (frame - last));
            }
        }
    }
    assert(samples =~= others);
}

/// Channels are independent: what a channel of the output holds depends on nothing but
/// that channel of the input.
pub proof fn law_channels_are_independent(
    model: Model,
    g: Geometry,
    bank: Seq<u64>,
    periods: nat,
    state: StreamState,
    other: StreamState,
    input: Seq<u64>,
    other_input: Seq<u64>,
    end_of_stream: bool,
    channel: int,
)
    requires
        g.valid(),
        0 <= channel < g.channels,
        whole_history(g, state.history),
        whole_frames(g, input),
        0 <= state.first,
        state.first == other.first,
        state.position == other.position,
        agree(g, channel, state.history, other.history),
        agree(g, channel, input, other_input),
    ensures
        ({
            let after = after_block(g, periods, state, input, end_of_stream);
            let other_after = after_block(g, periods, other, other_input, end_of_stream);
            &&& after.first == other_after.first
            &&& after.position == other_after.position
            &&& agree(g, channel, after.history, other_after.history)
        }),
        agree(
            g,
            channel,
            block_output(model, g, bank, periods, state, input, end_of_stream),
            block_output(model, g, bank, periods, other, other_input, end_of_stream),
        ),
{
    let c = g.channels as int;
    let a = state.history + input;
    let b = other.history + other_input;
    lemma_append_whole(g, state.history, input);
    assert forall|i: int| 0 <= i < a.len() && i % c == channel implies #[trigger] a[i] == b[i] by {
        if i >= state.history.len() {
            let j = i - state.history.len();
            lemma_fundamental_div_mod(j, c);
            lemma_fundamental_div_mod(i, c);
            let before = g.frames(state.history);
            assert(i == (before + j / c) * c + j % c) by (nonlinear_arith)
                requires
                    j == c * (j / c) + j % c,
                    i == j + before * c,
            ;
            lemma_fundamental_div_mod_converse(i, c, before + j / c, j % c);
            assert(input[j] == other_input[j]);
        } else {
            assert(state.history[i] == other.history[i]);
        }
    }
    let output = block_output(model, g, bank, periods, state, input, end_of_stream);
    let other_output = block_output(
        model,
        g,
        bank,
        periods,
        other,
        other_input,
        end_of_stream,
    );
    assert forall|i: int| 0 <= i < output.len() && i % c == channel implies #[trigger] output[i]
        == other_output[i] by {
        lemma_agreeing_output(
            model,
            g,
            bank,
            channel,
            a,
            b,
            state.first,
            state.position + (i / c) * g.step_num,
        );
    }
}

/// The same conversion of a single channel.
pub open spec fn mono(g: Geometry) -> Geometry {
    Geometry { channels: 1, ..g }
}

/// The samples of one channel.
pub open spec fn channel_samples(g: Geometry, input: Seq<u64>, channel: int) -> Seq<u64> {
    channel_window(g, input, 0, g.frames(input), channel)
}

/// A sample of the output is that of the channel alone.
proof fn lemma_mono_output(
    model: Model,
    g: Geometry,
    bank: Seq<u64>,
    history: Seq<u64>,
    position: int,
    channel: int,
)
    requires
        g.valid(),
        whole_history(g, history),
        0 <= channel < g.channels,
    ensures
        output_sample(model, g, bank, history, 0, position, channel) == output_sample(
            model,
            mono(g),
            bank,
            channel_samples(g, history, channel),
            0,
            position,
            0,
        ),
{
    let alone = channel_samples(g, history, channel);
    let total = g.frames(history);
    lemma_fundamental_div_mod_converse(alone.len() as int, 1, alone.len() as int, 0);
    assert(mono(g).frames(alone) == total);
    let from = if total - WINDOW_FRAMES < 0 {
        0
    } else {
        total - WINDOW_FRAMES
    };
    assert(channel_window(g, history, from, total, channel) =~= channel_window(
        mono(g),
        alone,
        from,
        total,
        0,
    ));
    assert(tap_samples(model, g, history, 0, position, channel) =~= tap_samples(
        model,
        mono(g),
        alone,
        0,
        position,
        0,
    ));
    assert(tap_weights(model, g, bank, position) =~= tap_weights(model, mono(g), bank, position));
}

/// Each channel of a stream returns what a stream of that channel alone returns, whatever
/// the other channels hold, however the two are cut into blocks, tiled or not.
pub proof fn law_channels_return_their_mono_streams(
    model: Model,
    g: Geometry,
    bank: Seq<u64>,
    periods: nat,
    blocks: Seq<Seq<u64>>,
    last: Seq<u64>,
    channel: int,
    mono_periods: nat,
    mono_blocks: Seq<Seq<u64>>,
    mono_last: Seq<u64>,
)
    requires
        g.valid(),
        0 <= channel < g.channels,
        whole_blocks(g, blocks),
        whole_frames(g, last),
        joined(mono_blocks) + mono_last == channel_samples(g, joined(blocks) + last, channel),
    ensures
        ({
            let output = stream_output(model, g, bank, periods, blocks, last);
            let alone = stream_output(model, mono(g), bank, mono_periods, mono_blocks, mono_last);
            &&& output.len() == alone.len() * g.channels
            &&& forall|k: int|
                0 <= k < alone.len() ==> output[k * g.channels + channel] == #[trigger] alone[k]
        }),
{
    let c = g.channels as int;
    let history = joined(blocks) + last;
    let samples = channel_samples(g, history, channel);
    let output = stream_output(model, g, bank, periods, blocks, last);
    let alone = stream_output(model, mono(g), bank, mono_periods, mono_blocks, mono_last);
    law_streams_are_sound(g, periods, blocks);
    lemma_append_whole(g, joined(blocks), last);
    law_streams_return_the_conversion(model, g, bank, periods, blocks, last);
    assert forall|i: int| 0 <= i < mono_blocks.len() implies whole_frames(
        mono(g),
        #[trigger] mono_blocks[i],
    ) by {
        lemma_fundamental_div_mod_converse(
            mono_blocks[i].len() as int,
            1,
            mono_blocks[i].len() as int,
            0,
        );
    }
    lemma_fundamental_div_mod_converse(mono_last.len() as int, 1, mono_last.len() as int, 0);
    law_streams_return_the_conversion(
        model,
        mono(g),
        bank,
        mono_periods,
        mono_blocks,
        mono_last,
    );
    lemma_fundamental_div_mod_converse(samples.len() as int, 1, samples.len() as int, 0);
    assert(mono(g).frames(samples) == g.frames(history));
    assert forall|k: int| 0 <= k < alone.len() implies output[k * g.channels + channel]
        == #[trigger] alone[k] by {
        assert(0 <= k * c + channel < alone.len() * c) by (nonlinear_arith)
            requires
                0 <= k < alone.len(),
                0 <= channel < c,
        ;
        lemma_fundamental_div_mod_converse(k * c + channel, c, k, channel);
        lemma_fundamental_div_mod_converse(k, 1, k, 0);
        lemma_mono_output(model, g, bank, history, k * g.step_num, channel);
    }
}

/// What a stream of narrow samples that goes on has returned for its blocks.
pub open spec fn narrow_fed_output(
    model: Model,
    g: Geometry,
    bank: Seq<u64>,
    blocks: Seq<Seq<u32>>,
) -> Seq<u32>
    decreases blocks.len(),
{
    if blocks.len() == 0 {
        Seq::empty()
    } else {
        narrow_fed_output(model, g, bank, blocks.drop_last()) + narrowed(
            model,
            block_output(
                model,
                g,
                bank,
                0,
                fed(g, 0, promoted_blocks(model, blocks.drop_last())),
                promoted(model, blocks.last()),
                false,
            ),
        )
    }
}

/// What a stream of narrow samples has returned in all, with its final block.
pub open spec fn narrow_stream_output(
    model: Model,
    g: Geometry,
    bank: Seq<u64>,
    blocks: Seq<Seq<u32>>,
    last: Seq<u32>,
) -> Seq<u32> {
    narrow_fed_output(model, g, bank, blocks) + narrowed(
        model,
        block_output(
            model,
            g,
            bank,
            0,
            fed(g, 0, promoted_blocks(model, blocks)),
            promoted(model, last),
            true,
        ),
    )
}

/// Blocks of samples of blocks of narrow samples.
pub open spec fn promoted_blocks(model: Model, blocks: Seq<Seq<u32>>) -> Seq<Seq<u64>> {
    Seq::new(blocks.len(), |i: int| promoted(model, blocks[i]))
}

/// Narrowing goes sample by sample.
proof fn lemma_narrowed_parts(model: Model, a: Seq<u64>, b: Seq<u64>)
    ensures
        narrowed(model, a) + narrowed(model, b) == narrowed(model, a + b),
{
    assert(narrowed(model, a) + narrowed(model, b) =~= narrowed(model, a + b));
}

/// Narrow streams round what the wide stream of their promoted samples returns.
proof fn lemma_narrow_fed(model: Model, g: Geometry, bank: Seq<u64>, blocks: Seq<Seq<u32>>)
    ensures
        narrow_fed_output(model, g, bank, blocks) == narrowed(
            model,
            fed_output(model, g, bank, 0, promoted_blocks(model, blocks)),
        ),
    decreases blocks.len(),
{
    let wide = promoted_blocks(model, blocks);
    if blocks.len() == 0 {
        assert(narrowed(model, Seq::empty()) =~= Seq::<u32>::empty());
    } else {
        let earlier = blocks.drop_last();
        lemma_narrow_fed(model, g, bank, earlier);
        assert(wide.drop_last() =~= promoted_blocks(model, earlier));
        lemma_narrowed_parts(
            model,
            fed_output(model, g, bank, 0, wide.drop_last()),
            block_output(model, g, bank, 0, fed(g, 0, wide.drop_last()), wide.last(), false),
        );
    }
}

/// A stream of narrow samples returns the rounded samples of the wide stream, tiled or
/// not, of the same input promoted: narrow streams lose nothing but the final rounding.
pub proof fn law_narrow_streams_round_the_wide_stream(
    model: Model,
    g: Geometry,
    bank: Seq<u64>,
    periods: nat,
    blocks: Seq<Seq<u32>>,
    last: Seq<u32>,
)
    requires
        g.valid(),
        whole_blocks(g, promoted_blocks(model, blocks)),
        whole_frames(g, promoted(model, last)),
    ensures
        narrow_stream_output(model, g, bank, blocks, last) == narrowed(
            model,
            stream_output(
                model,
                g,
                bank,
                periods,
                promoted_blocks(model, blocks),
                promoted(model, last),
            ),
        ),
        ({
            let narrow = narrow_stream_output(model, g, bank, blocks, last);
            let wide = stream_output(
                model,
                g,
                bank,
                periods,
                promoted_blocks(model, blocks),
                promoted(model, last),
            );
            &&& narrow.len() == wide.len()
            &&& forall|i: int|
                0 <= i < wide.len() ==> #[trigger] narrow[i] == (model.narrow)(wide[i])
        }),
{
    let wide = promoted_blocks(model, blocks);
    lemma_narrow_fed(model, g, bank, blocks);
    lemma_narrowed_parts(
        model,
        fed_output(model, g, bank, 0, wide),
        block_output(model, g, bank, 0, fed(g, 0, wide), promoted(model, last), true),
    );
    law_blocks_do_not_change_the_output(
        model,
        g,
        bank,
        0,
        wide,
        promoted(model, last),
        periods,
        wide,
        promoted(model, last),
    );
}

/// Output frames of a block are bounded by its input and what was held back before.
pub proof fn law_block_output_is_bounded(
    g: Geometry,
    held: nat,
    periods: nat,
    state: StreamState,
    input: Seq<u64>,
    end_of_stream: bool,
)
    requires
        g.valid(),
        sound(g, held, state),
        whole_frames(g, input),
    ensures
        block_frames(g, periods, state, input, end_of_stream) <= ceil_div(
            ((input.len() as int / g.channels as int + g.half() + held * g.step_num) * g.step_den)
                as nat,
            g.step_num as nat,
        ),
{
    let num = g.step_num as int;
    let den = g.step_den as int;
    let total = g.frames(state.history + input);
    let frames = input.len() as int / g.channels as int;
    let pending = g.half() + held * num;
    lemma_append_whole(g, state.history, input);
    law_held_back_input_is_bounded(g, held, state);
    law_calls_emit_due_frames(
        g,
        periods,
        total,
        state.first,
        end_of_stream,
        pads(g, total, state.first, state.position, end_of_stream),
        state.position,
    );
    assert(due_limit(g, total, end_of_stream) <= total * den) by (nonlinear_arith)
        requires
            due_limit(g, total, end_of_stream) <= total * den || due_limit(
                g,
                total,
                end_of_stream,
            ) == (total - g.half()) * den,
            g.half() >= 0,
            den >= 1,
    ;
    let left = due_limit(g, total, end_of_stream) - state.position;
    let bound = (frames + pending) * den;
    lemma_fundamental_div_mod(state.position, den);
    let frame = state.position / den;
    assert(0 <= held * num) by (nonlinear_arith)
        requires
            0 <= num,
    ;
    assert(left <= bound) by (nonlinear_arith)
        requires
            left <= total * den - state.position,
            state.position == den * frame + state.position % den,
            0 <= state.position % den,
            total - frame <= frames + pending,
            bound == (frames + pending) * den,
            den >= 1,
    ;
    assert(0 <= bound) by (nonlinear_arith)
        requires
            bound == (frames + pending) * den,
            0 <= frames,
            0 <= pending,
            den >= 1,
    ;
    if left > 0 {
        lemma_div_is_ordered(left + num - 1, bound + num - 1, num);
    }
}

} // verus!
