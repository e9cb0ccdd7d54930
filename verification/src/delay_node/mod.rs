//! A node that puts its input out again after a while.
//!
//! The node is made of a writer and a reader, which share a line of the blocks that were written
//! last. Either can also be used as a node of its own, where a delay is part of a cycle.
use crate::arithmetic::{narrow_is, Arithmetic, DoubleArithmetic, Mixing};
use crate::audio_node::{
    event_inserted, AudioNodeMessage, AudioNodeType, Automation, BlockInfo, ChannelInfo, Param,
    ParamRate, ParamType, ParamUpdate,
};
use crate::block::{zeros, Block, Chunk, FRAMES_PER_BLOCK_USIZE};
use crate::delay_node::delay_line::{line_after, DelayBuffer, DelayState};
use crate::delay_node::delay_reader::{delay_is, delayed_output, DelayReader};
use crate::delay_node::delay_writer::{
    capacity_for, delay_blocks_is, lemma_write_keeps_cache, upmixed_after, DelayWriter,
};
use vstd::prelude::*;

pub mod channel_count;
pub mod delay_line;
pub mod delay_reader;
pub mod delay_writer;
pub mod laws;
pub mod longest;
pub mod stream;
pub mod taps;
pub mod values;

verus! {

/// With what a delay node is made. The times are in seconds, as `binary64` numbers.
#[derive(Clone, Copy, Debug, PartialEq, Eq, Structural)]
pub struct DelayNodeOptions {
    pub max_delay_time: u64,
    pub delay_time: u64,
}

impl Default for DelayNodeOptions {
    /// No delay, and at most one second of it.
    fn default() -> (r: DelayNodeOptions)
        ensures
            r.max_delay_time == 0x3ff0_0000_0000_0000,
            r.delay_time == 0,
    {
        DelayNodeOptions { max_delay_time: 0x3ff0_0000_0000_0000, delay_time: 0 }
    }
}

/// What is left to do for a message.
#[derive(Debug)]
pub enum DelayReply<E> {
    /// Nothing.
    Done,
    /// Answer with this value of the parameter.
    ParamValue(u32),
    /// The message is none that every node understands.
    Specific(AudioNodeMessage<E>),
}

/// Whether a message is about the delay time, if it is about a parameter.
pub open spec fn about_delay_time<E>(message: AudioNodeMessage<E>) -> bool {
    match message {
        AudioNodeMessage::GetParamValue(id) => id == ParamType::DelayTime,
        AudioNodeMessage::SetParam(id, event) => id == ParamType::DelayTime,
        AudioNodeMessage::SetParamRate(id, rate) => id == ParamType::DelayTime,
        _ => true,
    }
}

/// A render quantum may have led from the node `before` to the node `after`, with this input and
/// output: the input has been put at the front of the delay line, whose capacity is set with the
/// first block, and then the output has been read from it, for the delay times that the
/// automation gives.
pub open spec fn processed<E, A: Arithmetic + DoubleArithmetic + Mixing>(
    ops: &A,
    before: DelayNode<E>,
    after: DelayNode<E>,
    input: Block,
    info: BlockInfo,
    updates: Seq<ParamUpdate>,
    output: Seq<Block>,
) -> bool {
    &&& after.channel_info == before.channel_info
    &&& after.delay_time == before.delay_time
    &&& after.delay_writer == before.delay_writer
    &&& after.delay_reader.channel_info == before.delay_reader.channel_info
    &&& after.delay_reader.is_cycle_breaker == before.delay_reader.is_cycle_breaker
    &&& after.delay_reader.delay_time == (Param {
        value: updates.last().value,
        ..before.delay_reader.delay_time
    })
    &&& forall|tick: int|
        0 <= tick < FRAMES_PER_BLOCK_USIZE ==> delay_is(
            ops,
            before.delay_reader.is_cycle_breaker,
            updates[tick].value,
            info.sample_rate,
            #[trigger] after.delay_reader.delay_frames@[tick],
        )
    &&& exists|blocks: usize| #[trigger]
        delay_blocks_is(ops, before.delay_writer.max_delay_time, info.sample_rate, blocks)
            && after.state.delay_line.capacity == capacity_for(
            before.state.delay_line.capacity,
            blocks,
        )
    &&& after.state.delay_line@ == line_after(
        before.state.delay_line@,
        after.state.delay_line.capacity as int,
        input,
    )
    &&& delayed_output(
        ops,
        after.state.delay_line@,
        before.delay_reader.channel_info.interpretation,
        after.delay_reader.delay_frames@,
        false,
        before.delay_reader.is_cycle_breaker,
        upmixed_after(before.state.upmixed_block),
        after.state.upmixed_block,
        output,
    )
}

/// A node that puts its input out again after a while.
///
/// The delay time that the graph sets is the one of the reader. The node has a copy of it, as of
/// when it was last asked for. `E` is an event of the automation of the delay time.
#[derive(Debug)]
pub struct DelayNode<E> {
    pub channel_info: ChannelInfo,
    pub delay_time: Param<E>,
    pub delay_writer: DelayWriter,
    pub delay_reader: DelayReader<E>,
    pub state: DelayState,
}

impl<E: Copy> DelayNode<E> {
    /// The node with another delay time in its reader.
    pub open spec fn with_shared_delay_time(self, delay_time: Param<E>) -> DelayNode<E> {
        DelayNode { delay_reader: DelayReader { delay_time, ..self.delay_reader }, ..self }
    }

    /// Whether the delay line keeps to its capacity, and the mixed block is what mixing gives.
    pub open spec fn wf<M: Mixing>(self, ops: &M) -> bool {
        &&& self.state.delay_line.wf()
        &&& self.state.cache_valid(ops, self.delay_reader.channel_info.interpretation)
    }

    /// A delay that has nothing written yet.
    pub fn new<A: DoubleArithmetic>(
        options: DelayNodeOptions,
        channel_info: ChannelInfo,
        ops: &A,
    ) -> (r: DelayNode<E>)
        ensures
            r.channel_info == channel_info,
            narrow_is(ops, options.delay_time, r.delay_time.value),
            r.delay_writer.channel_info == channel_info,
            r.delay_writer.max_delay_time == options.max_delay_time,
            r.delay_reader.channel_info == channel_info,
            r.delay_time.rate == ParamRate::ARate,
            r.delay_time.events@ == Seq::<(E, u32)>::empty(),
            r.delay_reader.delay_time.same(r.delay_time),
            r.delay_reader.delay_frames@ == zeros(FRAMES_PER_BLOCK_USIZE as nat),
            !r.delay_reader.is_cycle_breaker,
            r.state.delay_line.wf(),
            r.state.delay_line.capacity == 0,
            r.state.delay_line@ == Seq::<Block>::empty(),
            r.state.upmixed_block is None,
    {
        let delay_time: Param<E> = Param::new(ops.narrow(options.delay_time));
        let shared_delay_time: Param<E> = delay_time.duplicate();
        DelayNode {
            channel_info,
            delay_time,
            delay_writer: DelayWriter::new(channel_info, options.max_delay_time),
            delay_reader: DelayReader::new(shared_delay_time, channel_info),
            state: DelayState::new(),
        }
    }

    /// Inserts an event into the automation of a parameter.
    pub fn set_param<A: Automation<E>>(
        &mut self,
        id: ParamType,
        event: E,
        sample_rate: u32,
        ops: &A,
    )
        requires
            id == ParamType::DelayTime,
        ensures
            event_inserted(
                ops,
                old(self).delay_reader.delay_time,
                event,
                sample_rate,
                final(self).delay_reader.delay_time,
            ),
            *final(self) == old(self).with_shared_delay_time(final(self).delay_reader.delay_time),
    {
        self.delay_reader.delay_time.insert_event(event, sample_rate, ops);
    }

    /// Sets how often the automation of a parameter computes its value.
    pub fn set_param_rate(&mut self, id: ParamType, rate: ParamRate)
        requires
            id == ParamType::DelayTime,
        ensures
            *final(self) == old(self).with_shared_delay_time(
                (Param { rate, ..old(self).delay_reader.delay_time }),
            ),
    {
        self.delay_reader.delay_time.set_rate(rate);
    }

    /// The kind of this node.
    pub fn node_type(&self) -> (r: AudioNodeType)
        ensures
            r == AudioNodeType::DelayNode,
    {
        AudioNodeType::DelayNode
    }

    /// Writes the input to the delay line, then reads the output from it.
    pub fn process<A: Arithmetic + DoubleArithmetic + Mixing>(
        &mut self,
        inputs: Chunk,
        info: &BlockInfo,
        updates: &[ParamUpdate],
        ops: &A,
    ) -> (output: Chunk)
        requires
            inputs@.len() == 1,
            updates@.len() == FRAMES_PER_BLOCK_USIZE,
            old(self).wf(ops),
            old(self).state.upmixed_block matches Some(upmixed) ==> upmixed.index < usize::MAX,
        ensures
            final(self).wf(ops),
            processed(ops, *old(self), *final(self), inputs@[0], *info, updates@, output@),
    {
        let ghost block = inputs@[0];
        self.delay_writer.process(inputs, info, &mut self.state, ops);
        proof {
            let before = DelayState {
                delay_line: DelayBuffer {
                    capacity: self.state.delay_line.capacity,
                    ..old(self).state.delay_line
                },
                ..old(self).state
            };
            lemma_write_keeps_cache(
                before,
                self.state,
                block,
                ops,
                self.delay_reader.channel_info.interpretation,
            );
        }
        // The writer has acted in this render quantum.
        let mut accessed_first: bool = false;
        self.delay_reader.process(info, updates, &mut self.state, &mut accessed_first, ops)
    }

    /// Does what a message asks for, as far as the node can, and says what is left to do.
    pub fn message<A: Automation<E>>(
        &mut self,
        message: AudioNodeMessage<E>,
        sample_rate: u32,
        ops: &A,
    ) -> (reply: DelayReply<E>)
        requires
            about_delay_time(message),
        ensures
            match message {
                AudioNodeMessage::GetParamValue(id) => reply == DelayReply::<E>::ParamValue(
                    old(self).delay_reader.delay_time.value,
                ) && final(self).delay_time.same(old(self).delay_reader.delay_time) && *final(self)
                    == (DelayNode { delay_time: final(self).delay_time, ..*old(self) }),
                AudioNodeMessage::SetChannelCount(count) => reply == DelayReply::<E>::Done
                    && *final(self) == (DelayNode {
                    channel_info: ChannelInfo { count, ..old(self).channel_info },
                    ..*old(self)
                }),
                AudioNodeMessage::SetChannelMode(mode) => reply == DelayReply::<E>::Done
                    && *final(self) == (DelayNode {
                    channel_info: ChannelInfo { mode, ..old(self).channel_info },
                    ..*old(self)
                }),
                AudioNodeMessage::SetChannelInterpretation(interpretation) => reply
                    == DelayReply::<E>::Done && *final(self) == (DelayNode {
                    channel_info: ChannelInfo { interpretation, ..old(self).channel_info },
                    ..*old(self)
                }),
                AudioNodeMessage::SetParam(id, event) => reply == DelayReply::<E>::Done
                    && event_inserted(
                    ops,
                    old(self).delay_reader.delay_time,
                    event,
                    sample_rate,
                    final(self).delay_reader.delay_time,
                ) && *final(self) == old(self).with_shared_delay_time(
                    final(self).delay_reader.delay_time,
                ),
                AudioNodeMessage::SetParamRate(id, rate) => reply == DelayReply::<E>::Done
                    && *final(self) == old(self).with_shared_delay_time(
                    (Param { rate, ..old(self).delay_reader.delay_time }),
                ),
                AudioNodeMessage::Specific => reply == DelayReply::Specific(message)
                    && *final(self) == *old(self),
            },
    {
        match message {
            AudioNodeMessage::GetParamValue(id) => DelayReply::ParamValue(
                self.get_param(id).value,
            ),
            AudioNodeMessage::SetChannelCount(count) => {
                self.channel_info.count = count;
                DelayReply::Done
            },
            AudioNodeMessage::SetChannelMode(mode) => {
                self.channel_info.mode = mode;
                DelayReply::Done
            },
            AudioNodeMessage::SetChannelInterpretation(interpretation) => {
                self.channel_info.interpretation = interpretation;
                DelayReply::Done
            },
            AudioNodeMessage::SetParam(id, event) => {
                self.set_param(id, event, sample_rate, ops);
                DelayReply::Done
            },
            AudioNodeMessage::SetParamRate(id, rate) => {
                self.set_param_rate(id, rate);
                DelayReply::Done
            },
            AudioNodeMessage::Specific => DelayReply::Specific(AudioNodeMessage::Specific),
        }
    }

    /// A copy of the delay time as it is now, with every event and the rate that have been set.
    pub fn get_param(&mut self, id: ParamType) -> (r: &mut Param<E>)
        requires
            id == ParamType::DelayTime,
        ensures
            (*r).same(old(self).delay_reader.delay_time),
            *final(self) == (DelayNode { delay_time: *final(r), ..*old(self) }),
    {
        self.delay_time = self.delay_reader.delay_time.duplicate();
        &mut self.delay_time
    }
}

} // verus!
