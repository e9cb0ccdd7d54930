//! The side of a delay that reads.
use crate::arithmetic::{number_is, product_is, quotient_is, Arithmetic, Mixing};
use crate::audio_node::{AudioNodeType, BlockInfo, ChannelInfo, Param, ParamType, ParamUpdate};
use crate::binary;
use crate::block::{
    u8_is_zero, zeros, Block, ChannelInterpretation, Chunk, FRAMES_PER_BLOCK_USIZE,
};
use crate::delay_node::channel_count::{calc_channel_count, output_channel_count};
use crate::delay_node::delay_line::{left_by_reading, DelayBuffer, DelayState, UpmixedBlock};
use crate::delay_node::taps::{locate_all, positions_are, render, rendered};
use vstd::prelude::*;

verus! {

/// Whether any sample of a block is at least `2^-126` in size.
pub open spec fn is_active(block: Block) -> bool {
    exists|i: int| 0 <= i < block.buffer@.len() && binary::is_normal_size(#[trigger] block.buffer@[i])
}

/// Whether any sample of a block is at least `2^-126` in size.
fn has_active_value(block: &Block) -> (r: bool)
    ensures
        r == is_active(*block),
{
    let mut i: usize = 0;
    while i < block.buffer.len()
        invariant
            i <= block.buffer@.len(),
            forall|j: int| 0 <= j < i ==> !binary::is_normal_size(#[trigger] block.buffer@[j]),
        decreases block.buffer@.len() - i,
    {
        if binary::is_normal(block.buffer[i]) {
            return true;
        }
        i += 1;
    }
    false
}

/// A delay time may come to `frames` frames. As part of a cycle a delay takes at least one
/// render quantum.
pub open spec fn delay_is<A: Arithmetic>(
    ops: &A,
    is_cycle_breaker: bool,
    delay_time: u32,
    sample_rate: u32,
    frames: u32,
) -> bool {
    if is_cycle_breaker {
        exists|length: u32, quantum: u32|
            #[trigger] number_is(ops, FRAMES_PER_BLOCK_USIZE as i32, length)
                && #[trigger] quotient_is(ops, length, sample_rate, quantum) && product_is(
                ops,
                binary::maximum_of(delay_time, quantum),
                sample_rate,
                frames,
            )
    } else {
        product_is(ops, delay_time, sample_rate, frames)
    }
}

/// `output` may be what reading the delay line at these positions gives.
///
/// Nothing that is read has a channel: a single channel of silence. The same for a delay that
/// is part of a cycle and has no active sample in its output. Otherwise the block that was
/// read.
pub open spec fn read_output<A: Arithmetic + Mixing>(
    ops: &A,
    line: Seq<Block>,
    interpretation: ChannelInterpretation,
    positions: Seq<u32>,
    is_cycle_breaker: bool,
    output: Seq<Block>,
) -> bool {
    let channel_count = output_channel_count(positions, line, false);
    &&& output.len() == 1
    &&& if channel_count == 0 {
        output[0].is_explicit_silence()
    } else {
        exists|block: Block|
            {
                &&& #[trigger] rendered(ops, line, interpretation, positions, block)
                &&& block.channels == channel_count
                &&& if is_cycle_breaker && !is_active(block) {
                    output[0].is_explicit_silence()
                } else {
                    output[0] == block
                }
            }
    }
}

/// `output` may be what reading the delay line with these delays gives, with the mixed block
/// `before` and the mixed block `after`. Where nothing that is read has a channel, the mixed
/// block stays.
pub open spec fn delayed_output<A: Arithmetic + Mixing>(
    ops: &A,
    line: Seq<Block>,
    interpretation: ChannelInterpretation,
    delays: Seq<u32>,
    reads_first: bool,
    is_cycle_breaker: bool,
    before: Option<UpmixedBlock>,
    after: Option<UpmixedBlock>,
    output: Seq<Block>,
) -> bool {
    exists|positions: Seq<u32>|
        {
            &&& #[trigger] positions_are(ops, delays, reads_first, positions)
            &&& read_output(ops, line, interpretation, positions, is_cycle_breaker, output)
            &&& if output_channel_count(positions, line, false) == 0 {
                after == before
            } else {
                left_by_reading(before, after, line, output_channel_count(positions, line, false))
            }
        }
}

/// The side of a delay that reads. `E` is an event of the automation of the delay time.
#[derive(Debug)]
pub struct DelayReader<E> {
    pub channel_info: ChannelInfo,
    /// The delay of each frame of the block at hand, in frames.
    pub delay_frames: [u32; 128],
    /// The delay time, in seconds.
    pub delay_time: Param<E>,
    /// Whether the delay is part of a cycle, which it breaks.
    pub is_cycle_breaker: bool,
}

impl<E> DelayReader<E> {
    /// A reader for a delay that is not part of a cycle.
    pub fn new(delay_time: Param<E>, channel_info: ChannelInfo) -> (r: DelayReader<E>)
        ensures
            r.channel_info == channel_info,
            r.delay_time == delay_time,
            r.delay_frames@ == zeros(FRAMES_PER_BLOCK_USIZE as nat),
            !r.is_cycle_breaker,
    {
        DelayReader {
            channel_info,
            delay_frames: [0u32; 128],
            delay_time,
            is_cycle_breaker: false,
        }
    }

    /// Takes over the delay time at one frame, and says whether it is a new one.
    pub fn update_parameters<A: Arithmetic>(
        &mut self,
        info: &BlockInfo,
        tick: usize,
        update: ParamUpdate,
        ops: &A,
    ) -> (updated: bool)
        requires
            tick < FRAMES_PER_BLOCK_USIZE,
        ensures
            updated == update.updated,
            final(self).delay_time == (Param { value: update.value, ..old(self).delay_time }),
            final(self).channel_info == old(self).channel_info,
            final(self).is_cycle_breaker == old(self).is_cycle_breaker,
            final(self).delay_frames@ == old(self).delay_frames@.update(
                tick as int,
                final(self).delay_frames@[tick as int],
            ),
            delay_is(
                ops,
                old(self).is_cycle_breaker,
                update.value,
                info.sample_rate,
                final(self).delay_frames@[tick as int],
            ),
    {
        let updated: bool = self.delay_time.update(update);
        let mut delay_time: u32 = self.delay_time.value;
        if self.is_cycle_breaker {
            let length: u32 = ops.number(FRAMES_PER_BLOCK_USIZE as i32);
            let quantum: u32 = ops.quotient(length, info.sample_rate);
            delay_time = binary::maximum(delay_time, quantum);
            assert(number_is(ops, FRAMES_PER_BLOCK_USIZE as i32, length));
            assert(quotient_is(ops, length, info.sample_rate, quantum));
        }
        let frames: u32 = ops.product(delay_time, info.sample_rate);
        self.update_delay_frames(tick, frames);
        updated
    }

    /// Sets the delay of one frame.
    pub fn update_delay_frames(&mut self, tick: usize, value: u32)
        requires
            tick < FRAMES_PER_BLOCK_USIZE,
        ensures
            final(self).delay_frames@ == old(self).delay_frames@.update(tick as int, value),
            final(self).delay_time == old(self).delay_time,
            final(self).channel_info == old(self).channel_info,
            final(self).is_cycle_breaker == old(self).is_cycle_breaker,
    {
        self.delay_frames[tick] = value;
    }

    /// The channel count of the output, for the positions in the delay line from which its
    /// frames are read: the highest channel count of the blocks read, where silent blocks do not
    /// count.
    pub fn calc_output_channel_count(&self, positions: &[u32], delay_line: &DelayBuffer) -> (r: u8)
        ensures
            r == output_channel_count(positions@, delay_line@, false),
    {
        calc_channel_count(positions, delay_line, false)
    }

    /// Says whether the delay is part of a cycle.
    pub fn set_cycle_breaker_status(&mut self, status: bool)
        ensures
            *final(self) == (DelayReader { is_cycle_breaker: status, ..*old(self) }),
    {
        self.is_cycle_breaker = status;
    }

    /// Reads a block from the delay line, for the delays of its frames.
    ///
    /// `accessed_first` says whether the reader acts before the writer in this render quantum.
    /// It is turned over. Where nothing that is read has a channel, nothing else changes.
    pub fn read<A: Arithmetic + Mixing>(
        &self,
        state: &mut DelayState,
        accessed_first: &mut bool,
        ops: &A,
    ) -> (output: Chunk)
        requires
            old(state).cache_valid(ops, self.channel_info.interpretation),
        ensures
            final(state).delay_line == old(state).delay_line,
            final(state).cache_valid(ops, self.channel_info.interpretation),
            *final(accessed_first) == !*old(accessed_first),
            delayed_output(
                ops,
                old(state).delay_line@,
                self.channel_info.interpretation,
                self.delay_frames@,
                *old(accessed_first),
                self.is_cycle_breaker,
                old(state).upmixed_block,
                final(state).upmixed_block,
                output@,
            ),
    {
        let positions: Vec<u32> = locate_all(self.delay_frames.as_slice(), *accessed_first, ops);
        let channel_count: u8 = self.calc_output_channel_count(
            positions.as_slice(),
            &state.delay_line,
        );
        if u8_is_zero(channel_count) {
            *accessed_first = !*accessed_first;
            return Chunk::explicit_silence();
        }
        let block = render(
            state,
            self.channel_info.interpretation,
            positions.as_slice(),
            channel_count,
            ops,
        );
        *accessed_first = !*accessed_first;
        if self.is_cycle_breaker && !has_active_value(&block) {
            Chunk::explicit_silence()
        } else {
            Chunk::new(block)
        }
    }

    /// The kind of this node.
    pub fn node_type(&self) -> (r: AudioNodeType)
        ensures
            r == AudioNodeType::DelayReader,
    {
        AudioNodeType::DelayReader
    }

    /// Reads a block from the delay line, for the delay times that the automation gives for its
    /// frames.
    pub fn process<A: Arithmetic + Mixing>(
        &mut self,
        info: &BlockInfo,
        updates: &[ParamUpdate],
        state: &mut DelayState,
        accessed_first: &mut bool,
        ops: &A,
    ) -> (output: Chunk)
        requires
            updates@.len() == FRAMES_PER_BLOCK_USIZE,
            old(state).cache_valid(ops, old(self).channel_info.interpretation),
        ensures
            final(self).channel_info == old(self).channel_info,
            final(self).is_cycle_breaker == old(self).is_cycle_breaker,
            final(self).delay_time == (Param {
                value: updates@.last().value,
                ..old(self).delay_time
            }),
            forall|tick: int|
                0 <= tick < FRAMES_PER_BLOCK_USIZE ==> delay_is(
                    ops,
                    old(self).is_cycle_breaker,
                    updates@[tick].value,
                    info.sample_rate,
                    #[trigger] final(self).delay_frames@[tick],
                ),
            final(state).delay_line == old(state).delay_line,
            final(state).cache_valid(ops, old(self).channel_info.interpretation),
            *final(accessed_first) == !*old(accessed_first),
            delayed_output(
                ops,
                old(state).delay_line@,
                old(self).channel_info.interpretation,
                final(self).delay_frames@,
                *old(accessed_first),
                old(self).is_cycle_breaker,
                old(state).upmixed_block,
                final(state).upmixed_block,
                output@,
            ),
    {
        self.delay_frames = [0u32; 128];
        let mut tick: usize = 0;
        while tick < FRAMES_PER_BLOCK_USIZE
            invariant
                tick <= FRAMES_PER_BLOCK_USIZE,
                updates@.len() == FRAMES_PER_BLOCK_USIZE,
                self.channel_info == old(self).channel_info,
                self.is_cycle_breaker == old(self).is_cycle_breaker,
                tick == 0 ==> self.delay_time == old(self).delay_time,
                tick > 0 ==> self.delay_time == (Param {
                    value: updates@[tick - 1].value,
                    ..old(self).delay_time
                }),
                forall|t: int|
                    0 <= t < tick ==> delay_is(
                        ops,
                        old(self).is_cycle_breaker,
                        updates@[t].value,
                        info.sample_rate,
                        #[trigger] self.delay_frames@[t],
                    ),
            decreases FRAMES_PER_BLOCK_USIZE - tick,
        {
            self.update_parameters(info, tick, updates[tick], ops);
            tick += 1;
        }
        self.read(state, accessed_first, ops)
    }

    /// The parameter of this node.
    pub fn get_param(&mut self, id: ParamType) -> (r: &mut Param<E>)
        requires
            id == ParamType::DelayTime,
        ensures
            *r == old(self).delay_time,
            *final(self) == (DelayReader { delay_time: *final(r), ..*old(self) }),
    {
        &mut self.delay_time
    }
}

} // verus!
