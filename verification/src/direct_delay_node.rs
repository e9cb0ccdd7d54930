//! A delay node that writes and reads in one step.
//!
//! It shares the delay line and the reading of it with `delay_node`. It is not made for cycles,
//! and has a silent block count for as many channels as it says.
use crate::arithmetic::{
    double_number_is, double_product_is, narrow_is, product_is, Arithmetic, DoubleArithmetic,
    Mixing,
};
use crate::audio_node::{
    AudioNodeType, BlockInfo, ChannelInfo, Param, ParamRate, ParamType, ParamUpdate,
};
use crate::block::{
    u8_is_zero, usize_is_zero, Block, ChannelInterpretation, Chunk, FRAMES_PER_BLOCK_USIZE,
};
use crate::delay_node::channel_count::{calc_channel_count, output_channel_count};
use crate::delay_node::delay_line::{left_by_reading, line_after, DelayState, UpmixedBlock};
use crate::delay_node::delay_writer::{capacity_for, delay_blocks, delay_blocks_is};
use crate::delay_node::taps::{
    block_of, find_block_with_index, locate_all, positions_are, render, rendered,
};
use crate::delay_node::DelayNodeOptions;
use std::collections::VecDeque;
use vstd::prelude::*;

verus! {

/// A delay time, in seconds, may come to `frames`.
pub open spec fn delay_frames_is<A: DoubleArithmetic>(
    ops: &A,
    delay_time: u64,
    sample_rate: u64,
    frames: u64,
) -> bool {
    exists|samples: u64, length: u64|
        #[trigger] double_product_is(ops, delay_time, sample_rate, samples)
            && #[trigger] double_number_is(ops, FRAMES_PER_BLOCK_USIZE, length)
            && double_product_is(ops, samples, length, frames)
}

/// The product of a delay time, a sample rate and the frames of a block.
pub fn calc_delay_frames<A: DoubleArithmetic>(delay_time: u64, sample_rate: u64, ops: &A) -> (r:
    u64)
    ensures
        delay_frames_is(ops, delay_time, sample_rate, r),
{
    let samples: u64 = ops.double_product(delay_time, sample_rate);
    let length: u64 = ops.double_number(FRAMES_PER_BLOCK_USIZE);
    let frames: u64 = ops.double_product(samples, length);
    assert(double_product_is(ops, delay_time, sample_rate, samples));
    assert(double_number_is(ops, FRAMES_PER_BLOCK_USIZE, length));
    frames
}

/// A delay by single samples rather than by blocks.
#[derive(Debug)]
pub struct DelayBuffer<E> {
    /// The delay in frames. Below zero before it is known.
    pub delay_frames: u32,
    pub delay_time: Param<E>,
    /// The samples that are being delayed.
    pub block_buffers: VecDeque<u32>,
    /// Samples that did not fit into the block before.
    pub leftover_frames: VecDeque<u32>,
}

impl<E> DelayBuffer<E> {
    /// A delay that holds no samples.
    pub fn new(options: DelayNodeOptions, delay_time: Param<E>) -> (r: DelayBuffer<E>)
        ensures
            r.delay_frames == 0xbf80_0000,
            r.delay_time == delay_time,
            r.block_buffers@ == Seq::<u32>::empty(),
            r.leftover_frames@ == Seq::<u32>::empty(),
    {
        DelayBuffer {
            delay_frames: 0xbf80_0000,
            delay_time,
            block_buffers: VecDeque::new(),
            leftover_frames: VecDeque::new(),
        }
    }
}

/// `output` may be what reading the delay line at these positions gives: a single channel of
/// silence where nothing that is read has a channel, and the block that was read otherwise.
/// `upmixed` is the mixed block that is left.
pub open spec fn direct_output<A: Arithmetic + Mixing>(
    ops: &A,
    line: Seq<Block>,
    interpretation: ChannelInterpretation,
    positions: Seq<u32>,
    upmixed: Option<UpmixedBlock>,
    output: Seq<Block>,
) -> bool {
    let channel_count = output_channel_count(positions, line, true);
    &&& output.len() == 1
    &&& if channel_count == 0 {
        &&& output[0].is_explicit_silence()
        &&& upmixed is None
    } else {
        &&& rendered(ops, line, interpretation, positions, output[0])
        &&& output[0].channels == channel_count
        &&& left_by_reading(None, upmixed, line, channel_count)
    }
}

/// `delays` may be the delays, in frames, for the delay times that the automation gives.
pub open spec fn delays_are<A: Arithmetic>(
    ops: &A,
    updates: Seq<ParamUpdate>,
    sample_rate: u32,
    delays: Seq<u32>,
) -> bool {
    &&& delays.len() == updates.len()
    &&& forall|tick: int|
        0 <= tick < updates.len() ==> product_is(
            ops,
            updates[tick].value,
            sample_rate,
            #[trigger] delays[tick],
        )
}

/// A render quantum may have led from the node `before` to the node `after`, with this input and
/// output: the input has been put at the front of the delay line, whose capacity is set with the
/// first block, and then the output has been read from it, for the delay times that the
/// automation gives.
pub open spec fn processed<E, A: Arithmetic + DoubleArithmetic + Mixing>(
    ops: &A,
    before: DelayNode<E>,
    after: DelayNode<E>,
    input: Block,
    info: BlockInfo,
    updates: Seq<ParamUpdate>,
    output: Seq<Block>,
) -> bool {
    &&& after.channel_info == before.channel_info
    &&& after.max_delay_time == before.max_delay_time
    &&& after.delay_time == (Param { value: updates.last().value, ..before.delay_time })
    &&& delays_are(ops, updates, info.sample_rate, after.delay_frames@)
    &&& exists|blocks: usize| #[trigger]
        delay_blocks_is(ops, before.max_delay_time, info.sample_rate, blocks)
            && after.state.delay_line.capacity == capacity_for(
            before.state.delay_line.capacity,
            blocks,
        )
    &&& after.state.delay_line@ == line_after(
        before.state.delay_line@,
        after.state.delay_line.capacity as int,
        input,
    )
    &&& exists|positions: Seq<u32>| #[trigger]
        positions_are(ops, after.delay_frames@, false, positions) && direct_output(
            ops,
            after.state.delay_line@,
            before.channel_info.interpretation,
            positions,
            after.state.upmixed_block,
            output,
        )
}

/// A delay node that writes and reads in one step. `E` is an event of the automation of the delay
/// time.
#[derive(Debug)]
pub struct DelayNode<E> {
    pub channel_info: ChannelInfo,
    pub delay_time: Param<E>,
    /// The longest delay time, in seconds, as a `binary64` number.
    pub max_delay_time: u64,
    /// The delay of each frame of the block at hand, in frames.
    pub delay_frames: Vec<u32>,
    pub state: DelayState,
}

impl<E> DelayNode<E> {
    /// A delay that has nothing written yet.
    pub fn new<A: DoubleArithmetic>(
        options: DelayNodeOptions,
        channel_info: ChannelInfo,
        ops: &A,
    ) -> (r: DelayNode<E>)
        ensures
            r.channel_info == channel_info,
            narrow_is(ops, options.delay_time, r.delay_time.value),
            r.delay_time.rate == ParamRate::ARate,
            r.delay_time.events@ == Seq::<(E, u32)>::empty(),
            r.max_delay_time == options.max_delay_time,
            r.delay_frames@ == Seq::<u32>::empty(),
            r.state.delay_line.wf(),
            r.state.delay_line.capacity == 0,
            r.state.delay_line@ == Seq::<Block>::empty(),
            r.state.upmixed_block is None,
    {
        DelayNode {
            channel_info,
            delay_time: Param::new(ops.narrow(options.delay_time)),
            max_delay_time: options.max_delay_time,
            delay_frames: Vec::with_capacity(FRAMES_PER_BLOCK_USIZE),
            state: DelayState::new(),
        }
    }

    /// Takes over the delay time at one frame, and says whether it is a new one.
    pub fn update_parameters<A: Arithmetic>(
        &mut self,
        info: &BlockInfo,
        update: ParamUpdate,
        ops: &A,
    ) -> (updated: bool)
        ensures
            updated == update.updated,
            final(self).delay_time == (Param { value: update.value, ..old(self).delay_time }),
            final(self).channel_info == old(self).channel_info,
            final(self).max_delay_time == old(self).max_delay_time,
            final(self).state == old(self).state,
            final(self).delay_frames@.len() == old(self).delay_frames@.len() + 1,
            final(self).delay_frames@.drop_last() == old(self).delay_frames@,
            product_is(ops, update.value, info.sample_rate, final(self).delay_frames@.last()),
    {
        let updated: bool = self.delay_time.update(update);
        let frames: u32 = ops.product(self.delay_time.value, info.sample_rate);
        self.delay_frames.push(frames);
        assert(self.delay_frames@.drop_last() =~= old(self).delay_frames@);
        updated
    }

    /// The block of the delay line that holds a frame.
    pub fn find_block_with_index(&self, delay_frame_index: usize) -> (r: usize)
        ensures
            r == block_of(delay_frame_index as int),
    {
        find_block_with_index(delay_frame_index)
    }

    /// Mixes the block at `index` of the delay line to `channel_count` channels, if it has not
    /// been.
    pub fn upmix_block<M: Mixing>(&mut self, index: usize, channel_count: u8, ops: &M)
        requires
            old(self).state.cache_valid(ops, old(self).channel_info.interpretation),
            index < old(self).state.delay_line@.len(),
        ensures
            final(self).channel_info == old(self).channel_info,
            final(self).delay_time == old(self).delay_time,
            final(self).max_delay_time == old(self).max_delay_time,
            final(self).delay_frames == old(self).delay_frames,
            final(self).state.read_from(old(self).state, channel_count),
            final(self).state.cache_valid(ops, old(self).channel_info.interpretation),
            final(self).state.upmixed_block matches Some(upmixed) && upmixed.index == index
                && upmixed.channel_count == channel_count,
            old(self).state.upmixed_block matches Some(upmixed) ==> upmixed.index == index
                && upmixed.channel_count == channel_count ==> *final(self) == *old(self),
    {
        self.state.upmix_block(index, channel_count, self.channel_info.interpretation, ops);
    }

    /// The kind of this node.
    pub fn node_type(&self) -> (r: AudioNodeType)
        ensures
            r == AudioNodeType::DelayNode,
    {
        AudioNodeType::DelayNode
    }

    /// Writes the input to the delay line, then reads the output from it.
    pub fn process<A: Arithmetic + DoubleArithmetic + Mixing>(
        &mut self,
        inputs: Chunk,
        info: &BlockInfo,
        updates: &[ParamUpdate],
        ops: &A,
    ) -> (output: Chunk)
        requires
            inputs@.len() == 1,
            !inputs@[0].silent(),
            updates@.len() == FRAMES_PER_BLOCK_USIZE,
            old(self).state.delay_line.wf(),
        ensures
            final(self).state.delay_line.wf(),
            final(self).state.cache_valid(ops, old(self).channel_info.interpretation),
            processed(ops, *old(self), *final(self), inputs@[0], *info, updates@, output@),
    {
        let max_delay_block: usize = delay_blocks(self.max_delay_time, info.sample_rate, ops);
        if usize_is_zero(self.state.delay_line.capacity) {
            self.state.delay_line.capacity = max_delay_block.saturating_add(1);
        }
        let ghost input = inputs@[0];
        let mut inputs = inputs;
        if let Some(block) = inputs.pop() {
            self.state.delay_line.push(block);
        }
        self.state.upmixed_block = None;
        assert(self.state.delay_line@ == line_after(
            old(self).state.delay_line@,
            self.state.delay_line.capacity as int,
            input,
        ));
        self.delay_frames.clear();
        let ghost state = self.state;
        let mut tick: usize = 0;
        while tick < FRAMES_PER_BLOCK_USIZE
            invariant
                tick <= FRAMES_PER_BLOCK_USIZE,
                updates@.len() == FRAMES_PER_BLOCK_USIZE,
                self.channel_info == old(self).channel_info,
                self.max_delay_time == old(self).max_delay_time,
                self.state == state,
                tick == 0 ==> self.delay_time == old(self).delay_time,
                tick > 0 ==> self.delay_time == (Param {
                    value: updates@[tick - 1].value,
                    ..old(self).delay_time
                }),
                delays_are(ops, updates@.take(tick as int), info.sample_rate, self.delay_frames@),
            decreases FRAMES_PER_BLOCK_USIZE - tick,
        {
            let ghost before = self.delay_frames@;
            self.update_parameters(info, updates[tick], ops);
            proof {
                let after = self.delay_frames@;
                assert(after =~= before.push(after.last()));
            }
            tick += 1;
        }
        assert(updates@.take(tick as int) =~= updates@);
        let positions: Vec<u32> = locate_all(self.delay_frames.as_slice(), false, ops);
        let channel_count: u8 = calc_channel_count(
            positions.as_slice(),
            &self.state.delay_line,
            true,
        );
        if u8_is_zero(channel_count) {
            return Chunk::explicit_silence();
        }
        let block = render(
            &mut self.state,
            self.channel_info.interpretation,
            positions.as_slice(),
            channel_count,
            ops,
        );
        let output = Chunk::new(block);
        assert(positions_are(ops, self.delay_frames@, false, positions@));
        assert(direct_output(
            ops,
            self.state.delay_line@,
            old(self).channel_info.interpretation,
            positions@,
            self.state.upmixed_block,
            output@,
        ));
        output
    }

    /// The parameter of this node.
    pub fn get_param(&mut self, id: ParamType) -> (r: &mut Param<E>)
        requires
            id == ParamType::DelayTime,
        ensures
            *r == old(self).delay_time,
            *final(self) == (DelayNode { delay_time: *final(r), ..*old(self) }),
    {
        &mut self.delay_time
    }
}

} // verus!
