//! The blocks that a delay node keeps.
use crate::arithmetic::{mix_is, Mixing};
use crate::block::{usize_is_zero, Block, ChannelInterpretation};
use std::collections::VecDeque;
use vstd::prelude::*;

verus! {

/// The smaller of two integers.
pub open spec fn lesser(a: int, b: int) -> int {
    if a <= b {
        a
    } else {
        b
    }
}

/// The delay line after a block was put at its front.
pub open spec fn line_after(line: Seq<Block>, capacity: int, block: Block) -> Seq<Block> {
    seq![block] + line.take(lesser(line.len() as int, capacity - 1))
}

/// The blocks that were written last, the newest first.
///
/// New blocks are put at the front, so that the oldest ones are at the back. At most `capacity`
/// blocks are kept; a capacity of zero is one that has not been set.
#[derive(Debug)]
pub struct DelayBuffer {
    pub blocks: VecDeque<Block>,
    pub capacity: usize,
}

impl View for DelayBuffer {
    type V = Seq<Block>;

    open spec fn view(&self) -> Seq<Block> {
        self.blocks@
    }
}

impl DelayBuffer {
    /// Whether the buffer keeps to its capacity.
    pub open spec fn wf(self) -> bool {
        self@.len() <= self.capacity
    }

    /// A buffer without blocks, whose capacity has not been set.
    pub fn new() -> (r: DelayBuffer)
        ensures
            r.wf(),
            r.capacity == 0,
            r@ == Seq::<Block>::empty(),
    {
        DelayBuffer { blocks: VecDeque::new(), capacity: 0 }
    }

    /// Sets the capacity, unless it has been set before.
    pub fn update_capacity(&mut self, capacity: usize)
        requires
            old(self).wf(),
        ensures
            final(self).wf(),
            final(self)@ == old(self)@,
            final(self).capacity == if old(self).capacity == 0 {
                capacity
            } else {
                old(self).capacity
            },
    {
        if usize_is_zero(self.capacity) {
            self.capacity = capacity;
        }
    }

    /// Puts a block at the front, and drops the oldest one if the buffer is full.
    pub fn push(&mut self, block: Block)
        requires
            old(self).wf(),
            old(self).capacity > 0,
        ensures
            final(self).wf(),
            final(self).capacity == old(self).capacity,
            final(self)@ == line_after(old(self)@, old(self).capacity as int, block),
    {
        let last_index: usize = self.capacity - 1;
        self.blocks.truncate(last_index);
        self.blocks.push_front(block);
        assert(self@ =~= line_after(old(self)@, old(self).capacity as int, block));
    }
}

/// A block that has been mixed to the channel count of the output.
#[derive(Debug)]
pub struct UpmixedBlock {
    pub index: usize,
    pub channel_count: u8,
    pub block: Block,
}

impl UpmixedBlock {
    /// Mixes the block at `index` of a delay line to `channel_count` channels.
    pub fn new<M: Mixing>(
        index: usize,
        channel_count: u8,
        channel_interpretation: ChannelInterpretation,
        block: &Block,
        ops: &M,
    ) -> (r: UpmixedBlock)
        ensures
            r.index == index,
            r.channel_count == channel_count,
            mix_is(ops, *block, channel_count, channel_interpretation, r.block),
    {
        let mixed = ops.mix(block, channel_count, channel_interpretation);
        UpmixedBlock { index, channel_count, block: mixed }
    }

    /// The position in the delay line of the block that was mixed.
    pub fn get_index(&self) -> (r: usize)
        ensures
            r == self.index,
    {
        self.index
    }

    /// The mixed block.
    pub fn get_block(&self) -> (r: &Block)
        ensures
            *r == self.block,
    {
        &self.block
    }

    /// Follows the block as another one is put in front of it.
    pub fn increment_index(&mut self)
        requires
            old(self).index < usize::MAX,
        ensures
            *final(self) == (UpmixedBlock { index: (old(self).index + 1) as usize, ..*old(self) }),
    {
        self.index += 1;
    }
}

/// Whether the mixed block `after` may be what reading a delay line leaves of the mixed block
/// `before`: it has been mixed to the channel count of the output, and it is the one from before
/// unless its source is in the line.
pub open spec fn left_by_reading(
    before: Option<UpmixedBlock>,
    after: Option<UpmixedBlock>,
    line: Seq<Block>,
    channel_count: int,
) -> bool {
    after matches Some(upmixed) ==> upmixed.channel_count == channel_count && (after == before
        || upmixed.index < line.len())
}

/// What the writing and the reading side of a delay share.
#[derive(Debug)]
pub struct DelayState {
    pub delay_line: DelayBuffer,
    /// The block that was mixed last, kept for as long as its neighbours are read too.
    pub upmixed_block: Option<UpmixedBlock>,
}

impl DelayState {
    /// Whether the mixed block, as long as its source is still in the delay line, is what mixing
    /// that source gives.
    pub open spec fn cache_valid<M: Mixing>(
        self,
        ops: &M,
        interpretation: ChannelInterpretation,
    ) -> bool {
        self.upmixed_block matches Some(upmixed) ==> upmixed.index < self.delay_line@.len()
            ==> mix_is(
            ops,
            self.delay_line@[upmixed.index as int],
            upmixed.channel_count,
            interpretation,
            upmixed.block,
        )
    }

    /// Whether reading with this channel count has left the delay line as it was, and the mixed
    /// block is one that reading may leave behind.
    pub open spec fn read_from(self, before: DelayState, channel_count: u8) -> bool {
        &&& self.delay_line == before.delay_line
        &&& left_by_reading(
            before.upmixed_block,
            self.upmixed_block,
            self.delay_line@,
            channel_count as int,
        )
    }

    /// A delay that has nothing written yet.
    pub fn new() -> (r: DelayState)
        ensures
            r.delay_line.wf(),
            r.delay_line.capacity == 0,
            r.delay_line@ == Seq::<Block>::empty(),
            r.upmixed_block is None,
    {
        DelayState { delay_line: DelayBuffer::new(), upmixed_block: None }
    }

    /// Gives up a mixed block that has been mixed to another channel count.
    pub fn keep_mixed_to(&mut self, channel_count: u8)
        ensures
            final(self).delay_line == old(self).delay_line,
            final(self).upmixed_block == match old(self).upmixed_block {
                Some(upmixed) if upmixed.channel_count == channel_count => Some(upmixed),
                _ => None,
            },
    {
        let stale: bool = match self.upmixed_block.as_ref() {
            Some(upmixed) => upmixed.channel_count != channel_count,
            None => false,
        };
        if stale {
            self.upmixed_block = None;
        }
    }

    /// Makes `upmixed_block` the block at `index`, mixed to `channel_count` channels. It is
    /// mixed only if it has not been.
    pub fn upmix_block<M: Mixing>(
        &mut self,
        index: usize,
        channel_count: u8,
        interpretation: ChannelInterpretation,
        ops: &M,
    )
        requires
            old(self).cache_valid(ops, interpretation),
            index < old(self).delay_line@.len(),
        ensures
            final(self).read_from(*old(self), channel_count),
            final(self).cache_valid(ops, interpretation),
            final(self).upmixed_block matches Some(upmixed) && upmixed.index == index
                && upmixed.channel_count == channel_count,
            old(self).upmixed_block matches Some(upmixed) ==> upmixed.index == index
                && upmixed.channel_count == channel_count ==> *final(self) == *old(self),
    {
        if let Some(upmixed) = self.upmixed_block.as_ref() {
            if upmixed.get_index() == index && upmixed.channel_count == channel_count {
                return;
            }
        }
        let upmixed = UpmixedBlock::new(
            index,
            channel_count,
            interpretation,
            &self.delay_line.blocks[index],
            ops,
        );
        self.upmixed_block = Some(upmixed);
    }
}

} // verus!
