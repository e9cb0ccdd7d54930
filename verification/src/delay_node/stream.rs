//! What a delay makes of a stream of samples, where the delay is a whole number of frames.
//!
//! These laws hold for arithmetic of which the usual things hold: they say which. Samples are
//! compared as numbers, for zero has two signs.
use crate::arithmetic::{
    difference_is, fract_is, mix_is, number_is, product_is, sum_is, Arithmetic, DoubleArithmetic,
    Mixing,
};
use crate::audio_node::{BlockInfo, ParamUpdate};
use crate::binary;
use crate::block::{zeros, Block, ChannelInterpretation, FRAMES_PER_BLOCK_USIZE};
use crate::delay_node::channel_count::output_channel_count;
use crate::delay_node::delay_line::{line_after, UpmixedBlock};
use crate::delay_node::delay_reader::{delayed_output, read_output};
use crate::delay_node::delay_writer::{capacity_for, delay_blocks_is};
use crate::delay_node::laws::{
    is_read, lemma_line_holds_the_last_blocks, lemma_output_channel_count, line_after_all,
};
use crate::delay_node::taps::{
    accumulated, block_of, interpolated, offset_of, place_of, position_is, positions_are, rendered,
    tap_applied,
};
use crate::delay_node::{processed, DelayNode};
use crate::direct_delay_node;
use vstd::prelude::*;

verus! {

/// Delays in frames stay below this bound, so that their positions stay below `2^24`, up to which
/// sums of whole numbers are exact in single precision.
pub open spec fn delay_bound() -> int {
    0x100_0000 - FRAMES_PER_BLOCK_USIZE
}

/// Whether a number is finite, and the integer `n`.
pub open spec fn is_whole(bits: u32, n: int) -> bool {
    binary::magnitude(bits) < 0x7f80_0000 && binary::scaled(bits) == n * binary::scaled_one()
}

/// Whether nothing is left of a number that has no fractional part, and the usual things hold
/// of zero and one.
pub open spec fn neutral_elements<A: Arithmetic>(ops: &A) -> bool {
    &&& forall|a: u32, n: int, r: u32| #[trigger]
        is_whole(a, n) && #[trigger] fract_is(ops, a, r) ==> binary::is_zero_number(r)
    &&& forall|a: u32, r: u32|
        binary::is_zero_number(a) && #[trigger] difference_is(ops, binary::ONE, a, r) ==> r
            == binary::ONE
    &&& forall|a: u32, r: u32|
        !binary::not_a_number(a) && #[trigger] product_is(ops, binary::ONE, a, r)
            ==> binary::equal_numbers(r, a)
    &&& forall|a: u32, r: u32|
        !binary::not_a_number(a) && #[trigger] sum_is(ops, 0, a, r) ==> binary::equal_numbers(r, a)
}

/// Whether integers of up to 24 bits, and their sums, are represented as they are.
pub open spec fn exact_integers<A: Arithmetic>(ops: &A) -> bool {
    &&& forall|n: i32, r: u32|
        -0x100_0000 <= n <= 0x100_0000 && #[trigger] number_is(ops, n, r) ==> is_whole(r, n as int)
    &&& forall|a: u32, b: u32, m: int, n: int, r: u32|
        #![trigger sum_is(ops, a, b, r), is_whole(a, m), is_whole(b, n)]
        -0x100_0000 <= m <= 0x100_0000 && -0x100_0000 <= n <= 0x100_0000 && -0x100_0000 <= m + n
            <= 0x100_0000 && is_whole(a, m) && is_whole(b, n) && sum_is(ops, a, b, r) ==> is_whole(
            r,
            m + n,
        )
}

/// Whether mixing a block to the channels that it has leaves its samples.
pub open spec fn keeps_channels<M: Mixing>(
    ops: &M,
    interpretation: ChannelInterpretation,
) -> bool {
    forall|source: Block, r: Block, place: int, channel: int|
        #![trigger mix_is(ops, source, source.channels, interpretation, r), r.sample(
            place,
            channel,
        )]
        mix_is(ops, source, source.channels, interpretation, r) ==> r.sample(place, channel)
            == source.sample(place, channel)
}

/// Whether the arithmetic and the mixing are such that a whole delay is exact.
pub open spec fn exact<A: Arithmetic + Mixing>(
    ops: &A,
    interpretation: ChannelInterpretation,
) -> bool {
    neutral_elements(ops) && exact_integers(ops) && keeps_channels(ops, interpretation)
}

/// Whether a delay time comes to `frames` frames.
pub open spec fn comes_to<A: Arithmetic>(
    ops: &A,
    delay_time: u32,
    sample_rate: u32,
    frames: int,
) -> bool {
    forall|r: u32| #[trigger] product_is(ops, delay_time, sample_rate, r) ==> is_whole(r, frames)
}

/// Whether `frames` is not more than the longest delay.
pub open spec fn within_longest_delay<A: DoubleArithmetic>(
    ops: &A,
    max_delay_time: u64,
    sample_rate: u32,
    frames: int,
) -> bool {
    forall|blocks: usize| #[trigger]
        delay_blocks_is(ops, max_delay_time, sample_rate, blocks) ==> frames <= blocks
            * FRAMES_PER_BLOCK_USIZE
}

/// Whether all blocks have so many channels, and none is silent.
pub open spec fn uniform(blocks: Seq<Block>, channels: int) -> bool {
    &&& 0 < channels
    &&& forall|i: int|
        0 <= i < blocks.len() ==> (#[trigger] blocks[i]).channels == channels
            && !blocks[i].silent()
}

/// The sample of a frame of the delay line. Zero where the line does not hold it.
pub open spec fn line_sample(line: Seq<Block>, frame: int, channel: int) -> u32 {
    if block_of(frame) < line.len() {
        line[block_of(frame)].sample(place_of(frame), channel)
    } else {
        0
    }
}

/// The sample of a stream of blocks at a frame, where the first frame has the number zero.
pub open spec fn stream_sample(blocks: Seq<Block>, n: int, channel: int) -> u32 {
    blocks[n / FRAMES_PER_BLOCK_USIZE as int].sample(n % FRAMES_PER_BLOCK_USIZE as int, channel)
}

/// A position that is a whole number reads one frame, of a block mixed to the channels of the
/// output. A frame that the delay line does not hold is zero.
pub proof fn lemma_whole_position<A: Arithmetic + Mixing>(
    ops: &A,
    line: Seq<Block>,
    interpretation: ChannelInterpretation,
    position: u32,
    frame: int,
    column: Seq<u32>,
    channel: int,
)
    requires
        neutral_elements(ops),
        is_whole(position, frame),
        0 <= frame <= usize::MAX,
        interpolated(ops, line, interpretation, position, column),
        0 <= channel < column.len(),
    ensures
        block_of(frame) >= line.len() ==> column[channel] == 0,
        block_of(frame) < line.len() ==> exists|mixed: Block| #[trigger]
            mix_is(ops, line[block_of(frame)], column.len() as u8, interpretation, mixed) && (
            !binary::not_a_number(mixed.sample(place_of(frame), channel)) ==> binary::equal_numbers(
                column[channel],
                mixed.sample(place_of(frame), channel),
            )),
{
    binary::lemma_whole_number(position, frame);
    let (factor, rest, lower) = choose|factor: u32, rest: u32, lower: Seq<u32>|
        {
            &&& #[trigger] fract_is(ops, position, factor)
            &&& #[trigger] difference_is(ops, binary::ONE, factor, rest)
            &&& #[trigger] tap_applied(
                ops,
                line,
                interpretation,
                binary::floor_of(position),
                rest,
                zeros(column.len()),
                lower,
            )
            &&& tap_applied(
                ops,
                line,
                interpretation,
                binary::ceil_of(position),
                factor,
                lower,
                column,
            )
        };
    assert(is_whole(position, frame));
    assert(binary::is_zero_number(factor));
    assert(lower == column);
    assert(rest == binary::ONE);
    assert(!binary::is_zero_number(binary::ONE)) by {
        assert(binary::magnitude(binary::ONE) == 0x3f80_0000);
        binary::lemma_zero_magnitude(binary::ONE);
    }
    if block_of(frame) < line.len() {
        let before = zeros(column.len());
        let mixed = choose|mixed: Block|
            #[trigger] mix_is(
                ops,
                line[block_of(frame)],
                before.len() as u8,
                interpretation,
                mixed,
            ) && forall|c: int|
                #![trigger lower[c]]
                0 <= c < before.len() ==> accumulated(
                    ops,
                    before[c],
                    rest,
                    mixed.sample(place_of(frame), c),
                    lower[c],
                );
        let value = mixed.sample(place_of(frame), channel);
        assert(accumulated(ops, before[channel], rest, value, lower[channel]));
        let weighted = choose|weighted: u32|
            #[trigger] product_is(ops, rest, value, weighted) && sum_is(
                ops,
                before[channel],
                weighted,
                lower[channel],
            );
        assert(mix_is(ops, line[block_of(frame)], column.len() as u8, interpretation, mixed));
        if !binary::not_a_number(value) {
            assert(binary::equal_numbers(weighted, value));
            assert(binary::equal_numbers(lower[channel], weighted));
        }
    }
}

/// The position of a frame of the output, where its delay is a whole number.
proof fn lemma_positions<A: Arithmetic>(
    ops: &A,
    delays: Seq<u32>,
    reads_first: bool,
    positions: Seq<u32>,
    frames: int,
    tick: int,
)
    requires
        exact_integers(ops),
        positions_are(ops, delays, reads_first, positions),
        0 <= tick < FRAMES_PER_BLOCK_USIZE,
        tick < delays.len(),
        0 <= frames < delay_bound(),
        is_whole(delays[tick], frames),
    ensures
        is_whole(positions[tick], frames + offset_of(reads_first, tick)),
{
    let offset = offset_of(reads_first, tick) as i32;
    assert(position_is(ops, delays[tick], offset, positions[tick]));
    let shift = choose|shift: u32|
        #[trigger] number_is(ops, offset, shift) && sum_is(
            ops,
            delays[tick],
            shift,
            positions[tick],
        );
    assert(is_whole(shift, offset as int));
    assert(is_whole(delays[tick], frames));
}

/// Whether `output` is what reading at these positions gives: a single channel of silence where
/// nothing that is read has a channel, and the block that was read otherwise.
pub open spec fn read_block<A: Arithmetic + Mixing>(
    ops: &A,
    line: Seq<Block>,
    interpretation: ChannelInterpretation,
    positions: Seq<u32>,
    silent_too: bool,
    output: Block,
) -> bool {
    let channel_count = output_channel_count(positions, line, silent_too);
    if channel_count == 0 {
        output.is_explicit_silence()
    } else {
        rendered(ops, line, interpretation, positions, output) && output.channels == channel_count
    }
}

/// One sample of the output, where its position is a whole number and the block that holds the
/// frame, if there is one, has the channels of the output.
proof fn lemma_read_sample<A: Arithmetic + Mixing>(
    ops: &A,
    line: Seq<Block>,
    interpretation: ChannelInterpretation,
    positions: Seq<u32>,
    silent_too: bool,
    output: Block,
    frame: int,
    tick: int,
    channel: int,
)
    requires
        neutral_elements(ops),
        keeps_channels(ops, interpretation),
        read_block(ops, line, interpretation, positions, silent_too, output),
        positions.len() == FRAMES_PER_BLOCK_USIZE,
        0 <= tick < FRAMES_PER_BLOCK_USIZE,
        is_whole(positions[tick], frame),
        0 <= frame <= usize::MAX,
        0 <= channel,
        block_of(frame) < line.len() ==> line[block_of(frame)].channels > 0
            && output_channel_count(positions, line, silent_too) == line[block_of(frame)].channels
            && channel < output.channels,
    ensures
        block_of(frame) >= line.len() ==> output.sample(tick, channel) == 0,
        !binary::not_a_number(line_sample(line, frame, channel)) ==> binary::equal_numbers(
            output.sample(tick, channel),
            line_sample(line, frame, channel),
        ),
{
    if output_channel_count(positions, line, silent_too) != 0 && channel < output.channels {
        let column = output.column(tick);
        assert(interpolated(ops, line, interpretation, positions[tick], column));
        lemma_whole_position(
            ops,
            line,
            interpretation,
            positions[tick],
            frame,
            column,
            channel,
        );
        assert(column[channel] == output.sample(tick, channel));
        if block_of(frame) < line.len() {
            let source = line[block_of(frame)];
            let mixed = choose|mixed: Block| #[trigger]
                mix_is(ops, source, column.len() as u8, interpretation, mixed) && (
                !binary::not_a_number(mixed.sample(place_of(frame), channel))
                    ==> binary::equal_numbers(
                    column[channel],
                    mixed.sample(place_of(frame), channel),
                ));
            assert(mix_is(ops, source, source.channels, interpretation, mixed));
            assert(mixed.sample(place_of(frame), channel) == source.sample(
                place_of(frame),
                channel,
            ));
        }
    } else {
        assert(output.sample(tick, channel) == 0);
    }
}

/// The channel count of the output, where all blocks have the same: theirs, or none where no
/// frame is held.
proof fn lemma_uniform_channels(
    line: Seq<Block>,
    positions: Seq<u32>,
    silent_too: bool,
    channels: int,
    tick: int,
    frame: int,
)
    requires
        uniform(line, channels),
        0 <= tick < positions.len(),
        is_whole(positions[tick], frame),
        0 <= frame <= usize::MAX,
    ensures
        output_channel_count(positions, line, silent_too) == 0 || output_channel_count(
            positions,
            line,
            silent_too,
        ) == channels,
        block_of(frame) < line.len() ==> output_channel_count(positions, line, silent_too)
            == channels,
{
    lemma_output_channel_count(positions, line, silent_too);
    binary::lemma_whole_number(positions[tick], frame);
    if block_of(frame) < line.len() {
        assert(is_read(positions, line, tick, block_of(frame)));
    }
}

/// The output for the last of some blocks that were written to a delay line: so many frames
/// before, zero where there are none.
proof fn lemma_shift<A: Arithmetic + Mixing>(
    ops: &A,
    interpretation: ChannelInterpretation,
    capacity: int,
    inputs: Seq<Block>,
    channels: int,
    frames: int,
    delays: Seq<u32>,
    positions: Seq<u32>,
    silent_too: bool,
    output: Block,
    tick: int,
    channel: int,
)
    requires
        exact(ops, interpretation),
        0 < inputs.len(),
        uniform(inputs, channels),
        0 <= frames < delay_bound(),
        frames <= (capacity - 1) * FRAMES_PER_BLOCK_USIZE,
        delays.len() == FRAMES_PER_BLOCK_USIZE,
        forall|t: int| 0 <= t < delays.len() ==> is_whole(#[trigger] delays[t], frames),
        positions_are(ops, delays, false, positions),
        read_block(
            ops,
            line_after_all(capacity, inputs),
            interpretation,
            positions,
            silent_too,
            output,
        ),
        0 <= tick < FRAMES_PER_BLOCK_USIZE,
        0 <= channel < channels,
    ensures
        output.channels == if (inputs.len() - 1) * FRAMES_PER_BLOCK_USIZE + FRAMES_PER_BLOCK_USIZE
            - 1 >= frames {
            channels
        } else {
            1
        },
        ({
            let n = (inputs.len() - 1) * FRAMES_PER_BLOCK_USIZE + tick;
            let written = stream_sample(inputs, n - frames, channel);
            &&& n < frames ==> output.sample(tick, channel) == 0
            &&& n >= frames && !binary::not_a_number(written) ==> binary::equal_numbers(
                output.sample(tick, channel),
                written,
            )
        }),
{
    let line = line_after_all(capacity, inputs);
    let frame = frames + offset_of(false, tick);
    lemma_line_holds_the_last_blocks(capacity, inputs);
    assert(uniform(line, channels)) by {
        assert forall|i: int| 0 <= i < line.len() implies (#[trigger] line[i]).channels == channels
            && !line[i].silent() by {
            assert(line[i] == inputs[inputs.len() - 1 - i]);
        }
    }
    assert(is_whole(delays[tick], frames));
    lemma_positions(ops, delays, false, positions, frames, tick);
    lemma_uniform_channels(line, positions, silent_too, channels, tick, frame);
    lemma_read_sample(
        ops,
        line,
        interpretation,
        positions,
        silent_too,
        output,
        frame,
        tick,
        channel,
    );
    let last = FRAMES_PER_BLOCK_USIZE - 1;
    assert(is_whole(delays[last], frames));
    lemma_positions(ops, delays, false, positions, frames, last);
    lemma_uniform_channels(line, positions, silent_too, channels, last, frames);
    if (inputs.len() - 1) * FRAMES_PER_BLOCK_USIZE + last >= frames {
        assert(block_of(frames) < inputs.len());
        assert(block_of(frames) < line.len());
    } else {
        lemma_output_channel_count(positions, line, silent_too);
        assert forall|t: int, index: int| !#[trigger] is_read(positions, line, t, index) by {
            if 0 <= t < positions.len() && 0 <= index < line.len() {
                let f = frames + offset_of(false, t);
                assert(is_whole(delays[t], frames));
                lemma_positions(ops, delays, false, positions, frames, t);
                binary::lemma_whole_number(positions[t], f);
                assert(block_of(f) >= inputs.len());
            }
        }
    }
    let n = (inputs.len() - 1) * FRAMES_PER_BLOCK_USIZE + tick;
    assert(n - frames == inputs.len() * FRAMES_PER_BLOCK_USIZE - 1 - frame);
    if n >= frames {
        assert(block_of(frame) < inputs.len());
        assert(block_of(frame) < line.len());
        assert((n - frames) / FRAMES_PER_BLOCK_USIZE as int == inputs.len() - 1 - block_of(frame));
        assert((n - frames) % FRAMES_PER_BLOCK_USIZE as int == place_of(frame));
        assert(line[block_of(frame)] == inputs[inputs.len() - 1 - block_of(frame)]);
    } else {
        assert(block_of(frame) >= inputs.len());
    }
}

/// Some render quanta of a node, one after the other: `nodes[k]` is the node before the quantum
/// `k`, and the first one has nothing written yet.
pub open spec fn ran<E, A: Arithmetic + DoubleArithmetic + Mixing>(
    ops: &A,
    info: BlockInfo,
    updates: Seq<Seq<ParamUpdate>>,
    nodes: Seq<DelayNode<E>>,
    inputs: Seq<Block>,
    outputs: Seq<Seq<Block>>,
) -> bool {
    &&& nodes.len() == inputs.len() + 1
    &&& outputs.len() == inputs.len()
    &&& nodes[0].state.delay_line@ == Seq::<Block>::empty()
    &&& nodes[0].state.delay_line.capacity == 0
    &&& forall|k: int|
        0 <= k < inputs.len() ==> #[trigger] processed(
            ops,
            nodes[k],
            nodes[k + 1],
            inputs[k],
            info,
            updates[k],
            outputs[k],
        )
}

proof fn lemma_ran<E, A: Arithmetic + DoubleArithmetic + Mixing>(
    ops: &A,
    info: BlockInfo,
    updates: Seq<Seq<ParamUpdate>>,
    nodes: Seq<DelayNode<E>>,
    inputs: Seq<Block>,
    outputs: Seq<Seq<Block>>,
    k: int,
)
    requires
        ran(ops, info, updates, nodes, inputs, outputs),
        0 <= k < inputs.len(),
    ensures
        nodes[k].delay_writer == nodes[0].delay_writer,
        nodes[k].delay_reader.channel_info == nodes[0].delay_reader.channel_info,
        nodes[k].delay_reader.is_cycle_breaker == nodes[0].delay_reader.is_cycle_breaker,
        exists|blocks: usize| #[trigger]
            delay_blocks_is(ops, nodes[0].delay_writer.max_delay_time, info.sample_rate, blocks)
                && nodes[k + 1].state.delay_line.capacity == capacity_for(0, blocks),
        nodes[k + 1].state.delay_line@ == line_after_all(
            nodes[k + 1].state.delay_line.capacity as int,
            inputs.take(k + 1),
        ),
    decreases k,
{
    assert(processed(ops, nodes[k], nodes[k + 1], inputs[k], info, updates[k], outputs[k]));
    assert(inputs.take(k + 1).drop_last() =~= inputs.take(k));
    if k > 0 {
        lemma_ran(ops, info, updates, nodes, inputs, outputs, k - 1);
        assert(processed(
            ops,
            nodes[k - 1],
            nodes[k],
            inputs[k - 1],
            info,
            updates[k - 1],
            outputs[k - 1],
        ));
    }
    let capacity = nodes[k + 1].state.delay_line.capacity as int;
    assert(line_after_all(capacity, inputs.take(0)) == Seq::<Block>::empty());
    assert(inputs.take(k + 1).last() == inputs[k]);
    assert(nodes[k].state.delay_line@ == line_after_all(capacity, inputs.take(k)));
}

/// A delay of a whole number of frames, which stays the same, shifts the stream of samples by so
/// many frames, across the borders of blocks: zeros come out before the first sample that went
/// in, and none is lost up to the longest delay. The output has the channels of the input from the
/// block on that has the first sample of it, and a single channel before.
pub proof fn lemma_stream_is_shifted<E, A: Arithmetic + DoubleArithmetic + Mixing>(
    ops: &A,
    info: BlockInfo,
    updates: Seq<Seq<ParamUpdate>>,
    nodes: Seq<DelayNode<E>>,
    inputs: Seq<Block>,
    outputs: Seq<Seq<Block>>,
    channels: int,
    frames: int,
    k: int,
    tick: int,
    channel: int,
)
    requires
        exact(ops, nodes[0].delay_reader.channel_info.interpretation),
        ran(ops, info, updates, nodes, inputs, outputs),
        !nodes[0].delay_reader.is_cycle_breaker,
        uniform(inputs, channels),
        0 <= frames < delay_bound(),
        within_longest_delay(
            ops,
            nodes[0].delay_writer.max_delay_time,
            info.sample_rate,
            frames,
        ),
        forall|i: int, t: int|
            0 <= i < inputs.len() && 0 <= t < FRAMES_PER_BLOCK_USIZE ==> comes_to(
                ops,
                (#[trigger] updates[i][t]).value,
                info.sample_rate,
                frames,
            ),
        0 <= k < inputs.len(),
        0 <= tick < FRAMES_PER_BLOCK_USIZE,
        0 <= channel < channels,
    ensures
        outputs[k].len() == 1,
        outputs[k][0].channels == if k * FRAMES_PER_BLOCK_USIZE + FRAMES_PER_BLOCK_USIZE - 1
            >= frames {
            channels
        } else {
            1
        },
        ({
            let n = k * FRAMES_PER_BLOCK_USIZE + tick;
            let written = stream_sample(inputs, n - frames, channel);
            &&& n < frames ==> outputs[k][0].sample(tick, channel) == 0
            &&& n >= frames && !binary::not_a_number(written) ==> binary::equal_numbers(
                outputs[k][0].sample(tick, channel),
                written,
            )
        }),
{
    lemma_ran(ops, info, updates, nodes, inputs, outputs, k);
    let node = nodes[k + 1];
    let capacity = node.state.delay_line.capacity as int;
    let written = inputs.take(k + 1);
    let interpretation = nodes[0].delay_reader.channel_info.interpretation;
    let delays = node.delay_reader.delay_frames@;
    assert(processed(ops, nodes[k], node, inputs[k], info, updates[k], outputs[k]));
    let positions = choose|positions: Seq<u32>|
        {
            &&& #[trigger] positions_are(ops, delays, false, positions)
            &&& read_output(
                ops,
                node.state.delay_line@,
                interpretation,
                positions,
                false,
                outputs[k],
            )
        };
    assert forall|t: int| 0 <= t < delays.len() implies is_whole(#[trigger] delays[t], frames) by {
        assert(comes_to(ops, updates[k][t].value, info.sample_rate, frames));
    }
    assert(uniform(written, channels)) by {
        assert forall|i: int| 0 <= i < written.len() implies (#[trigger] written[i]).channels
            == channels && !written[i].silent() by {
            assert(written[i] == inputs[i]);
        }
    }
    lemma_shift(
        ops,
        interpretation,
        capacity,
        written,
        channels,
        frames,
        delays,
        positions,
        false,
        outputs[k][0],
        tick,
        channel,
    );
    let n = k * FRAMES_PER_BLOCK_USIZE + tick;
    if n >= frames {
        assert(0 <= (n - frames) / FRAMES_PER_BLOCK_USIZE as int <= k);
    }
}

/// Some render quanta of a direct node, one after the other, as `ran` has them for a node made
/// of a writer and a reader.
pub open spec fn direct_ran<E, A: Arithmetic + DoubleArithmetic + Mixing>(
    ops: &A,
    info: BlockInfo,
    updates: Seq<Seq<ParamUpdate>>,
    nodes: Seq<direct_delay_node::DelayNode<E>>,
    inputs: Seq<Block>,
    outputs: Seq<Seq<Block>>,
) -> bool {
    &&& nodes.len() == inputs.len() + 1
    &&& outputs.len() == inputs.len()
    &&& nodes[0].state.delay_line@ == Seq::<Block>::empty()
    &&& nodes[0].state.delay_line.capacity == 0
    &&& forall|k: int|
        0 <= k < inputs.len() ==> updates[k].len() == FRAMES_PER_BLOCK_USIZE
            && #[trigger] direct_delay_node::processed(
            ops,
            nodes[k],
            nodes[k + 1],
            inputs[k],
            info,
            updates[k],
            outputs[k],
        )
}

proof fn lemma_direct_ran<E, A: Arithmetic + DoubleArithmetic + Mixing>(
    ops: &A,
    info: BlockInfo,
    updates: Seq<Seq<ParamUpdate>>,
    nodes: Seq<direct_delay_node::DelayNode<E>>,
    inputs: Seq<Block>,
    outputs: Seq<Seq<Block>>,
    k: int,
)
    requires
        direct_ran(ops, info, updates, nodes, inputs, outputs),
        0 <= k < inputs.len(),
    ensures
        nodes[k].channel_info == nodes[0].channel_info,
        nodes[k].max_delay_time == nodes[0].max_delay_time,
        exists|blocks: usize| #[trigger]
            delay_blocks_is(ops, nodes[0].max_delay_time, info.sample_rate, blocks) && nodes[k
                + 1].state.delay_line.capacity == capacity_for(0, blocks),
        nodes[k + 1].state.delay_line@ == line_after_all(
            nodes[k + 1].state.delay_line.capacity as int,
            inputs.take(k + 1),
        ),
    decreases k,
{
    assert(direct_delay_node::processed(
        ops,
        nodes[k],
        nodes[k + 1],
        inputs[k],
        info,
        updates[k],
        outputs[k],
    ));
    assert(inputs.take(k + 1).drop_last() =~= inputs.take(k));
    if k > 0 {
        lemma_direct_ran(ops, info, updates, nodes, inputs, outputs, k - 1);
        assert(direct_delay_node::processed(
            ops,
            nodes[k - 1],
            nodes[k],
            inputs[k - 1],
            info,
            updates[k - 1],
            outputs[k - 1],
        ));
    }
    let capacity = nodes[k + 1].state.delay_line.capacity as int;
    assert(line_after_all(capacity, inputs.take(0)) == Seq::<Block>::empty());
    assert(inputs.take(k + 1).last() == inputs[k]);
    assert(nodes[k].state.delay_line@ == line_after_all(capacity, inputs.take(k)));
}

/// A direct node too shifts the stream of samples by a whole delay: zeros come out before the
/// first sample that went in, and none is lost up to the longest delay. The output has the
/// channels of the input from the block on that has the first sample of it, and a single channel
/// before.
pub proof fn lemma_direct_stream_is_shifted<E, A: Arithmetic + DoubleArithmetic + Mixing>(
    ops: &A,
    info: BlockInfo,
    updates: Seq<Seq<ParamUpdate>>,
    nodes: Seq<direct_delay_node::DelayNode<E>>,
    inputs: Seq<Block>,
    outputs: Seq<Seq<Block>>,
    channels: int,
    frames: int,
    k: int,
    tick: int,
    channel: int,
)
    requires
        exact(ops, nodes[0].channel_info.interpretation),
        direct_ran(ops, info, updates, nodes, inputs, outputs),
        uniform(inputs, channels),
        0 <= frames < delay_bound(),
        within_longest_delay(ops, nodes[0].max_delay_time, info.sample_rate, frames),
        forall|i: int, t: int|
            0 <= i < inputs.len() && 0 <= t < FRAMES_PER_BLOCK_USIZE ==> comes_to(
                ops,
                (#[trigger] updates[i][t]).value,
                info.sample_rate,
                frames,
            ),
        0 <= k < inputs.len(),
        0 <= tick < FRAMES_PER_BLOCK_USIZE,
        0 <= channel < channels,
    ensures
        outputs[k].len() == 1,
        outputs[k][0].channels == if k * FRAMES_PER_BLOCK_USIZE + FRAMES_PER_BLOCK_USIZE - 1
            >= frames {
            channels
        } else {
            1
        },
        ({
            let n = k * FRAMES_PER_BLOCK_USIZE + tick;
            let written = stream_sample(inputs, n - frames, channel);
            &&& n < frames ==> outputs[k][0].sample(tick, channel) == 0
            &&& n >= frames && !binary::not_a_number(written) ==> binary::equal_numbers(
                outputs[k][0].sample(tick, channel),
                written,
            )
        }),
{
    lemma_direct_ran(ops, info, updates, nodes, inputs, outputs, k);
    let node = nodes[k + 1];
    let capacity = node.state.delay_line.capacity as int;
    let written = inputs.take(k + 1);
    let interpretation = nodes[0].channel_info.interpretation;
    let delays = node.delay_frames@;
    assert(direct_delay_node::processed(
        ops,
        nodes[k],
        node,
        inputs[k],
        info,
        updates[k],
        outputs[k],
    ));
    let positions = choose|positions: Seq<u32>|
        #[trigger] positions_are(ops, delays, false, positions)
            && direct_delay_node::direct_output(
            ops,
            node.state.delay_line@,
            interpretation,
            positions,
            node.state.upmixed_block,
            outputs[k],
        );
    assert forall|t: int| 0 <= t < delays.len() implies is_whole(#[trigger] delays[t], frames) by {
        assert(comes_to(ops, updates[k][t].value, info.sample_rate, frames));
    }
    assert(uniform(written, channels)) by {
        assert forall|i: int| 0 <= i < written.len() implies (#[trigger] written[i]).channels
            == channels && !written[i].silent() by {
            assert(written[i] == inputs[i]);
        }
    }
    lemma_shift(
        ops,
        interpretation,
        capacity,
        written,
        channels,
        frames,
        delays,
        positions,
        true,
        outputs[k][0],
        tick,
        channel,
    );
    let n = k * FRAMES_PER_BLOCK_USIZE + tick;
    if n >= frames {
        assert(0 <= (n - frames) / FRAMES_PER_BLOCK_USIZE as int <= k);
    }
}

/// Without a delay only the newest block is read, and its samples come out.
proof fn lemma_newest_block<A: Arithmetic + Mixing>(
    ops: &A,
    line: Seq<Block>,
    interpretation: ChannelInterpretation,
    delays: Seq<u32>,
    positions: Seq<u32>,
    silent_too: bool,
    output: Block,
)
    requires
        exact(ops, interpretation),
        0 < line.len(),
        line[0].channels > 0,
        !line[0].silent(),
        delays.len() == FRAMES_PER_BLOCK_USIZE,
        forall|t: int| 0 <= t < delays.len() ==> is_whole(#[trigger] delays[t], 0),
        positions_are(ops, delays, false, positions),
        read_block(ops, line, interpretation, positions, silent_too, output),
    ensures
        output.channels == line[0].channels,
        forall|tick: int, channel: int|
            0 <= tick < FRAMES_PER_BLOCK_USIZE && 0 <= channel < line[0].channels
                && !binary::not_a_number(line[0].sample(tick, channel)) ==> binary::equal_numbers(
                #[trigger] output.sample(tick, channel),
                line[0].sample(tick, channel),
            ),
{
    assert forall|tick: int| 0 <= tick < FRAMES_PER_BLOCK_USIZE implies is_whole(
        #[trigger] positions[tick],
        FRAMES_PER_BLOCK_USIZE - 1 - tick,
    ) by {
        assert(is_whole(delays[tick], 0));
        lemma_positions(ops, delays, false, positions, 0, tick);
    }
    lemma_output_channel_count(positions, line, silent_too);
    assert forall|tick: int, index: int| #[trigger] is_read(positions, line, tick, index) implies index
        == 0 by {
        assert(is_whole(positions[tick], FRAMES_PER_BLOCK_USIZE - 1 - tick));
        binary::lemma_whole_number(positions[tick], FRAMES_PER_BLOCK_USIZE - 1 - tick);
    }
    assert(is_read(positions, line, 0, 0)) by {
        assert(is_whole(positions[0], FRAMES_PER_BLOCK_USIZE - 1));
        binary::lemma_whole_number(positions[0], FRAMES_PER_BLOCK_USIZE - 1);
    }
    assert(output_channel_count(positions, line, silent_too) == line[0].channels);
    assert forall|tick: int, channel: int|
        0 <= tick < FRAMES_PER_BLOCK_USIZE && 0 <= channel < line[0].channels
            && !binary::not_a_number(
            line[0].sample(tick, channel),
        ) implies binary::equal_numbers(
        #[trigger] output.sample(tick, channel),
        line[0].sample(tick, channel),
    ) by {
        let frame = FRAMES_PER_BLOCK_USIZE - 1 - tick;
        assert(is_whole(positions[tick], frame));
        assert(place_of(frame) == tick);
        lemma_read_sample(
            ops,
            line,
            interpretation,
            positions,
            silent_too,
            output,
            frame,
            tick,
            channel,
        );
    }
}

/// A delay of zero puts out what goes in, whatever went in before.
pub proof fn lemma_no_delay<E, A: Arithmetic + DoubleArithmetic + Mixing>(
    ops: &A,
    before: DelayNode<E>,
    after: DelayNode<E>,
    input: Block,
    info: BlockInfo,
    updates: Seq<ParamUpdate>,
    output: Seq<Block>,
)
    requires
        exact(ops, before.delay_reader.channel_info.interpretation),
        processed(ops, before, after, input, info, updates, output),
        !before.delay_reader.is_cycle_breaker,
        input.channels > 0,
        !input.silent(),
        forall|t: int|
            0 <= t < FRAMES_PER_BLOCK_USIZE ==> comes_to(
                ops,
                (#[trigger] updates[t]).value,
                info.sample_rate,
                0,
            ),
    ensures
        output.len() == 1,
        output[0].channels == input.channels,
        forall|tick: int, channel: int|
            0 <= tick < FRAMES_PER_BLOCK_USIZE && 0 <= channel < input.channels
                && !binary::not_a_number(input.sample(tick, channel)) ==> binary::equal_numbers(
                #[trigger] output[0].sample(tick, channel),
                input.sample(tick, channel),
            ),
{
    let delays = after.delay_reader.delay_frames@;
    let line = after.state.delay_line@;
    let interpretation = before.delay_reader.channel_info.interpretation;
    let positions = choose|positions: Seq<u32>|
        {
            &&& #[trigger] positions_are(ops, delays, false, positions)
            &&& read_output(ops, line, interpretation, positions, false, output)
        };
    assert forall|t: int| 0 <= t < delays.len() implies is_whole(#[trigger] delays[t], 0) by {
        assert(comes_to(ops, updates[t].value, info.sample_rate, 0));
    }
    lemma_newest_block(ops, line, interpretation, delays, positions, false, output[0]);
}

/// A delay of zero puts out what goes in, whatever went in before, in a direct node too.
pub proof fn lemma_direct_no_delay<E, A: Arithmetic + DoubleArithmetic + Mixing>(
    ops: &A,
    before: direct_delay_node::DelayNode<E>,
    after: direct_delay_node::DelayNode<E>,
    input: Block,
    info: BlockInfo,
    updates: Seq<ParamUpdate>,
    output: Seq<Block>,
)
    requires
        exact(ops, before.channel_info.interpretation),
        direct_delay_node::processed(ops, before, after, input, info, updates, output),
        updates.len() == FRAMES_PER_BLOCK_USIZE,
        input.channels > 0,
        !input.silent(),
        forall|t: int|
            0 <= t < FRAMES_PER_BLOCK_USIZE ==> comes_to(
                ops,
                (#[trigger] updates[t]).value,
                info.sample_rate,
                0,
            ),
    ensures
        output.len() == 1,
        output[0].channels == input.channels,
        forall|tick: int, channel: int|
            0 <= tick < FRAMES_PER_BLOCK_USIZE && 0 <= channel < input.channels
                && !binary::not_a_number(input.sample(tick, channel)) ==> binary::equal_numbers(
                #[trigger] output[0].sample(tick, channel),
                input.sample(tick, channel),
            ),
{
    let delays = after.delay_frames@;
    let line = after.state.delay_line@;
    let interpretation = before.channel_info.interpretation;
    let positions = choose|positions: Seq<u32>|
        #[trigger] positions_are(ops, delays, false, positions)
            && direct_delay_node::direct_output(
            ops,
            line,
            interpretation,
            positions,
            after.state.upmixed_block,
            output,
        );
    assert forall|t: int| 0 <= t < delays.len() implies is_whole(#[trigger] delays[t], 0) by {
        assert(comes_to(ops, updates[t].value, info.sample_rate, 0));
    }
    lemma_newest_block(ops, line, interpretation, delays, positions, true, output[0]);
}

/// At the last frame of a block, a reader that acts before the block of this render quantum is
/// written puts out the sample that it would put out after, for a delay of at least a render
/// quantum. `line` is the delay line before that block, and `first` is what is read from it.
pub proof fn lemma_reading_first_agrees_at_the_last_frame<A: Arithmetic + Mixing>(
    ops: &A,
    interpretation: ChannelInterpretation,
    line: Seq<Block>,
    capacity: int,
    block: Block,
    channels: int,
    delays: Seq<u32>,
    frames: int,
    cache: Option<UpmixedBlock>,
    cache_left_first: Option<UpmixedBlock>,
    cache_left_second: Option<UpmixedBlock>,
    first: Seq<Block>,
    second: Seq<Block>,
    channel: int,
)
    requires
        exact(ops, interpretation),
        uniform(line, channels),
        block.channels == channels,
        !block.silent(),
        delays.len() == FRAMES_PER_BLOCK_USIZE,
        forall|t: int| 0 <= t < delays.len() ==> is_whole(#[trigger] delays[t], frames),
        FRAMES_PER_BLOCK_USIZE <= frames < delay_bound(),
        block_of(frames) < capacity,
        block_of(frames - FRAMES_PER_BLOCK_USIZE) < line.len(),
        delayed_output(
            ops,
            line,
            interpretation,
            delays,
            true,
            false,
            cache,
            cache_left_first,
            first,
        ),
        delayed_output(
            ops,
            line_after(line, capacity, block),
            interpretation,
            delays,
            false,
            false,
            cache,
            cache_left_second,
            second,
        ),
        0 <= channel < channels,
        !binary::not_a_number(
            line_sample(line, frames - FRAMES_PER_BLOCK_USIZE, channel),
        ),
    ensures
        first.len() == 1,
        second.len() == 1,
        binary::equal_numbers(
            first[0].sample(FRAMES_PER_BLOCK_USIZE - 1, channel),
            second[0].sample(FRAMES_PER_BLOCK_USIZE - 1, channel),
        ),
{
    let tick = FRAMES_PER_BLOCK_USIZE - 1;
    let after = line_after(line, capacity, block);
    let earlier = frames - FRAMES_PER_BLOCK_USIZE;
    let positions = choose|positions: Seq<u32>|
        {
            &&& #[trigger] positions_are(ops, delays, true, positions)
            &&& read_output(ops, line, interpretation, positions, false, first)
        };
    let positions_after = choose|positions: Seq<u32>|
        {
            &&& #[trigger] positions_are(ops, delays, false, positions)
            &&& read_output(ops, after, interpretation, positions, false, second)
        };
    assert(is_whole(delays[tick], frames));
    lemma_positions(ops, delays, true, positions, frames, tick);
    lemma_positions(ops, delays, false, positions_after, frames, tick);
    assert(uniform(after, channels)) by {
        assert forall|i: int| 0 <= i < after.len() implies (#[trigger] after[i]).channels
            == channels && !after[i].silent() by {
            if i > 0 {
                assert(after[i] == line[i - 1]);
            }
        }
    }
    lemma_uniform_channels(line, positions, false, channels, tick, earlier);
    assert(block_of(frames) == block_of(earlier) + 1);
    assert(place_of(frames) == place_of(earlier));
    assert(after[block_of(frames)] == line[block_of(earlier)]);
    lemma_uniform_channels(after, positions_after, false, channels, tick, frames);
    lemma_read_sample(
        ops,
        line,
        interpretation,
        positions,
        false,
        first[0],
        earlier,
        tick,
        channel,
    );
    lemma_read_sample(
        ops,
        after,
        interpretation,
        positions_after,
        false,
        second[0],
        frames,
        tick,
        channel,
    );
}

} // verus!
