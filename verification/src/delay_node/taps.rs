//! Where in the delay line the frames of the output come from.
//!
//! A frame in the delay line is known by the number of frames that were written after it. One
//! frame of the output is put together from the two frames around a position, which need not be
//! whole.
use crate::arithmetic::{
    difference_is, fract_is, mix_is, number_is, product_is, sum_is, Arithmetic, Mixing,
};
use crate::binary;
use crate::block::{zeros, Block, ChannelInterpretation, FRAMES_PER_BLOCK_USIZE};
use crate::delay_node::delay_line::DelayState;
use vstd::prelude::*;

verus! {

/// The block of the delay line that holds a frame.
pub open spec fn block_of(frame: int) -> int {
    frame / FRAMES_PER_BLOCK_USIZE as int
}

/// The place of a frame in its block, which runs from the oldest frame to the newest.
pub open spec fn place_of(frame: int) -> int {
    FRAMES_PER_BLOCK_USIZE - 1 - frame % FRAMES_PER_BLOCK_USIZE as int
}

/// The block of the delay line that holds a frame.
pub fn find_block_with_index(delay_frame_index: usize) -> (r: usize)
    ensures
        r == block_of(delay_frame_index as int),
{
    delay_frame_index / FRAMES_PER_BLOCK_USIZE
}

/// `accumulator + weight * value` may come to `r`.
pub open spec fn accumulated<A: Arithmetic>(
    ops: &A,
    accumulator: u32,
    weight: u32,
    value: u32,
    r: u32,
) -> bool {
    exists|weighted: u32|
        #[trigger] product_is(ops, weight, value, weighted) && sum_is(ops, accumulator, weighted, r)
}

/// Adding one frame of the delay line, mixed to the channels at hand and weighted, to `before`
/// may give `after`. A weight of zero adds nothing, and neither does a frame that the line does
/// not hold.
pub open spec fn tap_applied<A: Arithmetic + Mixing>(
    ops: &A,
    line: Seq<Block>,
    interpretation: ChannelInterpretation,
    frame: int,
    weight: u32,
    before: Seq<u32>,
    after: Seq<u32>,
) -> bool {
    if binary::is_zero_number(weight) || block_of(frame) >= line.len() {
        after == before
    } else {
        &&& after.len() == before.len()
        &&& exists|mixed: Block|
            #[trigger] mix_is(
                ops,
                line[block_of(frame)],
                before.len() as u8,
                interpretation,
                mixed,
            ) && forall|channel: int|
                #![trigger after[channel]]
                0 <= channel < before.len() ==> accumulated(
                    ops,
                    before[channel],
                    weight,
                    mixed.sample(place_of(frame), channel),
                    after[channel],
                )
    }
}

/// `delay + offset` may come to `position`.
pub open spec fn position_is<A: Arithmetic>(
    ops: &A,
    delay: u32,
    offset: i32,
    position: u32,
) -> bool {
    exists|shift: u32|
        #[trigger] number_is(ops, offset, shift) && sum_is(ops, delay, shift, position)
}

/// The linear interpolation of the frames around a position may come to `column`, which has a
/// sample for each channel: the frame at the floor of the position, weighted by what the
/// fractional part of the position misses to one, and then the frame at its ceiling, weighted by
/// the fractional part.
pub open spec fn interpolated<A: Arithmetic + Mixing>(
    ops: &A,
    line: Seq<Block>,
    interpretation: ChannelInterpretation,
    position: u32,
    column: Seq<u32>,
) -> bool {
    exists|factor: u32, rest: u32, lower: Seq<u32>|
        {
            &&& #[trigger] fract_is(ops, position, factor)
            &&& #[trigger] difference_is(ops, binary::ONE, factor, rest)
            &&& #[trigger] tap_applied(
                ops,
                line,
                interpretation,
                binary::floor_of(position),
                rest,
                zeros(column.len()),
                lower,
            )
            &&& tap_applied(
                ops,
                line,
                interpretation,
                binary::ceil_of(position),
                factor,
                lower,
                column,
            )
        }
}

/// Adds one frame of the delay line to the samples of a column.
fn apply_tap<A: Arithmetic + Mixing>(
    state: &mut DelayState,
    interpretation: ChannelInterpretation,
    frame: usize,
    weight: u32,
    column: &mut Vec<u32>,
    ops: &A,
)
    requires
        old(column)@.len() < 256,
        old(state).cache_valid(ops, interpretation),
        old(state).upmixed_block matches Some(upmixed) ==> upmixed.channel_count
            == old(column)@.len(),
    ensures
        final(state).read_from(*old(state), old(column)@.len() as u8),
        final(state).cache_valid(ops, interpretation),
        final(column)@.len() == old(column)@.len(),
        tap_applied(
            ops,
            old(state).delay_line@,
            interpretation,
            frame as int,
            weight,
            old(column)@,
            final(column)@,
        ),
{
    if binary::is_zero(weight) {
        return;
    }
    let index: usize = find_block_with_index(frame);
    if index >= state.delay_line.blocks.len() {
        return;
    }
    let channel_count: usize = column.len();
    state.upmix_block(index, channel_count as u8, interpretation, ops);
    let place: usize = FRAMES_PER_BLOCK_USIZE - 1 - frame % FRAMES_PER_BLOCK_USIZE;
    if let Some(upmixed) = state.upmixed_block.as_ref() {
        let mixed = upmixed.get_block();
        let mut channel: usize = 0;
        while channel < channel_count
            invariant
                channel <= channel_count < 256,
                channel_count == old(column)@.len(),
                column@.len() == channel_count,
                place == place_of(frame as int),
                forall|c: int| channel <= c < channel_count ==> column@[c] == old(column)@[c],
                forall|c: int|
                    #![trigger column@[c]]
                    0 <= c < channel ==> accumulated(
                        ops,
                        old(column)@[c],
                        weight,
                        mixed.sample(place as int, c),
                        column@[c],
                    ),
            decreases channel_count - channel,
        {
            let value: u32 = mixed.data_chan_frame(place, channel as u8);
            let weighted: u32 = ops.product(weight, value);
            let total: u32 = ops.sum(column[channel], weighted);
            assert(product_is(ops, weight, value, weighted));
            column.set(channel, total);
            channel += 1;
        }
        assert(mix_is(
            ops,
            state.delay_line@[index as int],
            channel_count as u8,
            interpretation,
            *mixed,
        ));
    }
}

/// Puts one frame of the output together, from the frames around a position in the delay line.
pub fn interpolate<A: Arithmetic + Mixing>(
    state: &mut DelayState,
    interpretation: ChannelInterpretation,
    position: u32,
    channel_count: u8,
    ops: &A,
) -> (column: Vec<u32>)
    requires
        old(state).cache_valid(ops, interpretation),
    ensures
        final(state).read_from(*old(state), channel_count),
        final(state).cache_valid(ops, interpretation),
        column@.len() == channel_count,
        interpolated(ops, old(state).delay_line@, interpretation, position, column@),
{
    let lower_frame_index: usize = binary::floor_index(position);
    let higher_frame_index: usize = binary::ceil_index(position);
    let factor: u32 = ops.fract(position);
    let rest: u32 = ops.difference(binary::ONE, factor);
    let mut column: Vec<u32> = Vec::new();
    let mut channel: u8 = 0;
    while channel < channel_count
        invariant
            channel <= channel_count,
            column@ == zeros(channel as nat),
        decreases channel_count - channel,
    {
        column.push(0);
        channel += 1;
    }
    state.keep_mixed_to(channel_count);
    apply_tap(state, interpretation, lower_frame_index, rest, &mut column, ops);
    let ghost lower = column@;
    apply_tap(state, interpretation, higher_frame_index, factor, &mut column, ops);
    assert(fract_is(ops, position, factor));
    assert(difference_is(ops, binary::ONE, factor, rest));
    assert(tap_applied(
        ops,
        old(state).delay_line@,
        interpretation,
        binary::floor_of(position),
        rest,
        zeros(column@.len()),
        lower,
    ));
    column
}

/// The position in the delay line from which one frame of the output is put together.
pub fn locate<A: Arithmetic>(delay: u32, offset: i32, ops: &A) -> (position: u32)
    ensures
        position_is(ops, delay, offset, position),
{
    let shift: u32 = ops.number(offset);
    let position: u32 = ops.sum(delay, shift);
    assert(number_is(ops, offset, shift));
    position
}

/// By how much the position of a frame of the output exceeds its delay.
///
/// The delay of a frame counts from the time of that frame. In the delay line, where the newest
/// frame has position zero, the frame at `tick` of the newest block has the position
/// `FRAMES_PER_BLOCK_USIZE - 1 - tick`. Where the block of this render quantum has not been
/// written yet, one block is missing from the line.
pub open spec fn offset_of(reads_first: bool, tick: int) -> int {
    if reads_first {
        -(FRAMES_PER_BLOCK_USIZE as int)
    } else {
        FRAMES_PER_BLOCK_USIZE - 1 - tick
    }
}

/// By how much the position of a frame of the output exceeds its delay.
pub fn delay_offset(reads_first: bool, tick: usize) -> (r: i32)
    requires
        tick < FRAMES_PER_BLOCK_USIZE,
    ensures
        r == offset_of(reads_first, tick as int),
{
    if reads_first {
        -(FRAMES_PER_BLOCK_USIZE as i32)
    } else {
        (FRAMES_PER_BLOCK_USIZE - 1 - tick) as i32
    }
}

/// `positions` may be the positions in the delay line for the frames of the output, from the
/// delay of each of them.
pub open spec fn positions_are<A: Arithmetic>(
    ops: &A,
    delays: Seq<u32>,
    reads_first: bool,
    positions: Seq<u32>,
) -> bool {
    &&& positions.len() == delays.len()
    &&& forall|tick: int|
        0 <= tick < delays.len() ==> position_is(
            ops,
            delays[tick],
            offset_of(reads_first, tick) as i32,
            #[trigger] positions[tick],
        )
}

/// The positions in the delay line for the frames of the output.
pub fn locate_all<A: Arithmetic>(delays: &[u32], reads_first: bool, ops: &A) -> (positions: Vec<
    u32,
>)
    requires
        delays@.len() == FRAMES_PER_BLOCK_USIZE,
    ensures
        positions_are(ops, delays@, reads_first, positions@),
{
    let mut positions: Vec<u32> = Vec::with_capacity(FRAMES_PER_BLOCK_USIZE);
    let mut tick: usize = 0;
    while tick < FRAMES_PER_BLOCK_USIZE
        invariant
            tick <= FRAMES_PER_BLOCK_USIZE,
            delays@.len() == FRAMES_PER_BLOCK_USIZE,
            positions_are(ops, delays@.take(tick as int), reads_first, positions@),
        decreases FRAMES_PER_BLOCK_USIZE - tick,
    {
        let offset: i32 = delay_offset(reads_first, tick);
        let position: u32 = locate(delays[tick], offset, ops);
        assert(offset == offset_of(reads_first, tick as int) as i32);
        positions.push(position);
        tick += 1;
    }
    assert(delays@.take(tick as int) =~= delays@);
    positions
}

/// `block` may be what reading the delay line gives, for the position of each of its frames.
pub open spec fn rendered<A: Arithmetic + Mixing>(
    ops: &A,
    line: Seq<Block>,
    interpretation: ChannelInterpretation,
    positions: Seq<u32>,
    block: Block,
) -> bool {
    &&& block.explicit()
    &&& forall|tick: int|
        0 <= tick < FRAMES_PER_BLOCK_USIZE ==> interpolated(
            ops,
            line,
            interpretation,
            positions[tick],
            #[trigger] block.column(tick),
        )
}

/// Reads a block from the delay line.
pub fn render<A: Arithmetic + Mixing>(
    state: &mut DelayState,
    interpretation: ChannelInterpretation,
    positions: &[u32],
    channel_count: u8,
    ops: &A,
) -> (block: Block)
    requires
        positions@.len() == FRAMES_PER_BLOCK_USIZE,
        old(state).cache_valid(ops, interpretation),
    ensures
        final(state).read_from(*old(state), channel_count),
        final(state).cache_valid(ops, interpretation),
        block.channels == channel_count,
        rendered(ops, old(state).delay_line@, interpretation, positions@, block),
{
    let mut block = Block::for_channels_explicit(channel_count);
    let mut tick: usize = 0;
    while tick < FRAMES_PER_BLOCK_USIZE
        invariant
            tick <= FRAMES_PER_BLOCK_USIZE,
            positions@.len() == FRAMES_PER_BLOCK_USIZE,
            tick == 0 ==> *state == *old(state),
            tick > 0 ==> state.read_from(*old(state), channel_count),
            state.delay_line == old(state).delay_line,
            state.cache_valid(ops, interpretation),
            block.explicit(),
            block.channels == channel_count,
            forall|t: int|
                0 <= t < tick ==> interpolated(
                    ops,
                    state.delay_line@,
                    interpretation,
                    positions@[t],
                    #[trigger] block.column(t),
                ),
        decreases FRAMES_PER_BLOCK_USIZE - tick,
    {
        let column: Vec<u32> = interpolate(
            state,
            interpretation,
            positions[tick],
            channel_count,
            ops,
        );
        let ghost before = block;
        block.set_column(tick, &column);
        assert forall|t: int| 0 <= t <= tick implies interpolated(
            ops,
            state.delay_line@,
            interpretation,
            positions@[t],
            #[trigger] block.column(t),
        ) by {
            if t < tick {
                assert(block.column(t) == before.column(t));
            }
        }
        tick += 1;
    }
    block
}

} // verus!
