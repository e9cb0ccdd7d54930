//! The side of a delay that writes.
use crate::arithmetic::{
    double_number_is, double_product_is, double_quotient_is, widen_is, DoubleArithmetic,
    Mixing,
};
use crate::audio_node::{AudioNodeType, BlockInfo, ChannelInfo};
use crate::binary;
use crate::block::{Block, ChannelInterpretation, Chunk, FRAMES_PER_BLOCK_USIZE};
use crate::delay_node::delay_line::{lesser, line_after, DelayState, UpmixedBlock};
use vstd::prelude::*;

verus! {

/// The blocks that a delay time takes may come to `blocks`.
pub open spec fn delay_blocks_is<A: DoubleArithmetic>(
    ops: &A,
    delay_time: u64,
    sample_rate: u32,
    blocks: usize,
) -> bool {
    exists|rate: u64, frames: u64, length: u64, quotient: u64|
        {
            &&& #[trigger] widen_is(ops, sample_rate, rate)
            &&& #[trigger] double_product_is(ops, delay_time, rate, frames)
            &&& #[trigger] double_number_is(ops, FRAMES_PER_BLOCK_USIZE, length)
            &&& #[trigger] double_quotient_is(ops, frames, length, quotient)
            &&& blocks == binary::double_ceil_of(quotient)
        }
}

/// The number of blocks that a delay time takes.
pub fn delay_blocks<A: DoubleArithmetic>(delay_time: u64, sample_rate: u32, ops: &A) -> (blocks:
    usize)
    ensures
        delay_blocks_is(ops, delay_time, sample_rate, blocks),
{
    let rate: u64 = ops.widen(sample_rate);
    let frames: u64 = ops.double_product(delay_time, rate);
    let length: u64 = ops.double_number(FRAMES_PER_BLOCK_USIZE);
    let quotient: u64 = ops.double_quotient(frames, length);
    assert(widen_is(ops, sample_rate, rate));
    assert(double_product_is(ops, delay_time, rate, frames));
    assert(double_number_is(ops, FRAMES_PER_BLOCK_USIZE, length));
    assert(double_quotient_is(ops, frames, length, quotient));
    binary::double_ceil_index(quotient)
}

/// The capacity of a delay line after it was asked to hold `blocks` blocks and the one that is
/// being written. A capacity that was set before stays.
pub open spec fn capacity_for(before: usize, blocks: usize) -> int {
    if before != 0 {
        before as int
    } else {
        lesser(blocks + 1, usize::MAX as int)
    }
}

/// The mixed block after another block was put at the front of the delay line.
pub open spec fn upmixed_after(upmixed: Option<UpmixedBlock>) -> Option<UpmixedBlock> {
    match upmixed {
        Some(block) => Some(UpmixedBlock { index: (block.index + 1) as usize, ..block }),
        None => None,
    }
}

/// A block at the front moves every other one back by one place, for as long as there is room.
pub proof fn lemma_write_shifts(line: Seq<Block>, capacity: int, block: Block)
    requires
        0 < capacity,
    ensures
        line_after(line, capacity, block)[0] == block,
        line_after(line, capacity, block).len() == lesser(
            line.len() as int + 1,
            capacity,
        ),
        forall|i: int|
            0 <= i < line.len() && i + 1 < capacity ==> line_after(line, capacity, block)[i + 1]
                == #[trigger] line[i],
{
}

/// The mixed block goes on to be what mixing its source gives, though both have moved.
pub proof fn lemma_write_keeps_cache<M: Mixing>(
    before: DelayState,
    after: DelayState,
    block: Block,
    ops: &M,
    interpretation: ChannelInterpretation,
)
    requires
        before.cache_valid(ops, interpretation),
        before.upmixed_block matches Some(upmixed) ==> upmixed.index < usize::MAX,
        0 < before.delay_line.capacity,
        after.delay_line@ == line_after(
            before.delay_line@,
            before.delay_line.capacity as int,
            block,
        ),
        after.upmixed_block == upmixed_after(before.upmixed_block),
    ensures
        after.cache_valid(ops, interpretation),
{
}

/// The side of a delay that writes.
#[derive(Debug)]
pub struct DelayWriter {
    pub channel_info: ChannelInfo,
    /// The longest delay time, in seconds, as a `binary64` number.
    pub max_delay_time: u64,
}

impl DelayWriter {
    /// A writer for delays up to `max_delay_time`.
    pub fn new(channel_info: ChannelInfo, max_delay_time: u64) -> (r: DelayWriter)
        ensures
            r.channel_info == channel_info,
            r.max_delay_time == max_delay_time,
    {
        DelayWriter { channel_info, max_delay_time }
    }

    /// Sets the capacity of the delay line, unless it has been set before.
    pub fn update_delay_line_capacity(&self, state: &mut DelayState, capacity: usize)
        requires
            old(state).delay_line.wf(),
        ensures
            final(state).delay_line.wf(),
            final(state).delay_line@ == old(state).delay_line@,
            final(state).upmixed_block == old(state).upmixed_block,
            final(state).delay_line.capacity == if old(state).delay_line.capacity == 0 {
                capacity
            } else {
                old(state).delay_line.capacity
            },
    {
        state.delay_line.update_capacity(capacity);
    }

    /// Writes the last block of a chunk to the delay line. A chunk without blocks changes
    /// nothing.
    pub fn write(&self, input: Chunk, state: &mut DelayState)
        requires
            old(state).delay_line.wf(),
            input@.len() > 0 ==> old(state).delay_line.capacity > 0,
            input@.len() > 0 ==> (old(state).upmixed_block matches Some(upmixed) ==> upmixed.index
                < usize::MAX),
        ensures
            final(state).delay_line.wf(),
            final(state).delay_line.capacity == old(state).delay_line.capacity,
            input@.len() == 0 ==> *final(state) == *old(state),
            input@.len() > 0 ==> final(state).delay_line@ == line_after(
                old(state).delay_line@,
                old(state).delay_line.capacity as int,
                input@.last(),
            ) && final(state).upmixed_block == upmixed_after(old(state).upmixed_block),
    {
        let mut input = input;
        let Some(block) = input.pop() else {
            return;
        };
        state.delay_line.push(block);
        if let Some(upmixed_block) = &mut state.upmixed_block {
            upmixed_block.increment_index();
        }
    }

    /// The kind of this node.
    pub fn node_type(&self) -> (r: AudioNodeType)
        ensures
            r == AudioNodeType::DelayWriter,
    {
        AudioNodeType::DelayWriter
    }

    /// Writes a chunk to the delay line, which holds as many blocks as the longest delay takes,
    /// and the newest one. The writer puts nothing out.
    pub fn process<A: DoubleArithmetic>(
        &self,
        inputs: Chunk,
        info: &BlockInfo,
        state: &mut DelayState,
        ops: &A,
    ) -> (output: Chunk)
        requires
            inputs@.len() == 1,
            old(state).delay_line.wf(),
            old(state).upmixed_block matches Some(upmixed) ==> upmixed.index < usize::MAX,
        ensures
            output@ == Seq::<Block>::empty(),
            final(state).delay_line.wf(),
            exists|blocks: usize| #[trigger]
                delay_blocks_is(ops, self.max_delay_time, info.sample_rate, blocks)
                    && final(state).delay_line.capacity == capacity_for(
                    old(state).delay_line.capacity,
                    blocks,
                ),
            final(state).delay_line@ == line_after(
                old(state).delay_line@,
                final(state).delay_line.capacity as int,
                inputs@[0],
            ),
            final(state).upmixed_block == upmixed_after(old(state).upmixed_block),
    {
        let max_delay_block: usize = delay_blocks(self.max_delay_time, info.sample_rate, ops);
        self.update_delay_line_capacity(state, max_delay_block.saturating_add(1));
        self.write(inputs, state);
        Chunk::default()
    }
}

} // verus!
