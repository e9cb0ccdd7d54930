//! What the nodes of an audio graph have in common.
use crate::block::ChannelInterpretation;
use vstd::prelude::*;

verus! {

/// How the number of channels of an input is derived from its connections.
#[derive(Clone, Copy, Debug, PartialEq, Eq, Structural)]
pub enum ChannelCountMode {
    Max,
    ClampedMax,
    Explicit,
}

/// The channel settings of a node.
#[derive(Clone, Copy, Debug, PartialEq, Eq, Structural)]
pub struct ChannelInfo {
    pub count: u8,
    pub mode: ChannelCountMode,
    pub interpretation: ChannelInterpretation,
}

/// What is known of the render quantum at hand.
#[derive(Clone, Copy, Debug, PartialEq, Eq, Structural)]
pub struct BlockInfo {
    /// Frames per second, as a `binary32` number.
    pub sample_rate: u32,
}

/// The kinds of nodes of this crate.
#[derive(Clone, Copy, Debug, PartialEq, Eq, Structural)]
pub enum AudioNodeType {
    ConvolverNode,
    DelayNode,
    DelayReader,
    DelayWriter,
}

/// The parameters of nodes, as far as a delay node tells them apart.
#[derive(Clone, Copy, Debug, PartialEq, Eq, Structural)]
pub enum ParamType {
    DelayTime,
    Other,
}

/// How often the value of a parameter is computed.
#[derive(Clone, Copy, Debug, PartialEq, Eq, Structural)]
pub enum ParamRate {
    ARate,
    KRate,
}

/// A parameter, with what has been set of its automation. `E` is an event of the automation.
#[derive(Debug)]
pub struct Param<E> {
    /// The value that the parameter had last, as a `binary32` number.
    pub value: u32,
    /// How often the value is computed.
    pub rate: ParamRate,
    /// The events, in the order in which they came, each with the sample rate at which its times
    /// are counted.
    pub events: Vec<(E, u32)>,
}

/// What the automation of a parameter makes of it at one frame: its value, as a `binary32`
/// number, and whether that is a new one.
#[derive(Clone, Copy, Debug, PartialEq, Eq, Structural)]
pub struct ParamUpdate {
    pub value: u32,
    pub updated: bool,
}

/// What the automation of parameters does. Nothing is assumed of an implementation.
pub trait Automation<E> {
    /// The value that a parameter has once an event has been inserted.
    fn value_after(&self, param: &Param<E>, event: E, sample_rate: u32) -> u32;
}

/// The value of `param`, once an event has been inserted, may come to `r`.
pub open spec fn value_after_is<E, A: Automation<E>>(
    ops: &A,
    param: Param<E>,
    event: E,
    sample_rate: u32,
    r: u32,
) -> bool {
    call_ensures(A::value_after, (ops, &param, event, sample_rate), r)
}

/// Inserting an event into the parameter `before` may give `after`.
pub open spec fn event_inserted<E, A: Automation<E>>(
    ops: &A,
    before: Param<E>,
    event: E,
    sample_rate: u32,
    after: Param<E>,
) -> bool {
    &&& value_after_is(ops, before, event, sample_rate, after.value)
    &&& after.rate == before.rate
    &&& after.events@ == before.events@.push((event, sample_rate))
}

impl<E> Param<E> {
    /// Whether two parameters have the same value, the same rate and the same events.
    pub open spec fn same(self, other: Param<E>) -> bool {
        &&& self.value == other.value
        &&& self.rate == other.rate
        &&& self.events@ == other.events@
    }

    /// A parameter with its first value, without any events, which is computed for every frame.
    pub fn new(value: u32) -> (r: Param<E>)
        ensures
            r.value == value,
            r.rate == ParamRate::ARate,
            r.events@ == Seq::<(E, u32)>::empty(),
    {
        Param { value, rate: ParamRate::ARate, events: Vec::new() }
    }

    /// Takes over what the automation gives, and says whether the value is a new one.
    pub fn update(&mut self, update: ParamUpdate) -> (r: bool)
        ensures
            *final(self) == (Param { value: update.value, ..*old(self) }),
            r == update.updated,
    {
        self.value = update.value;
        update.updated
    }

    /// Sets how often the value is computed.
    pub fn set_rate(&mut self, rate: ParamRate)
        ensures
            *final(self) == (Param { rate, ..*old(self) }),
    {
        self.rate = rate;
    }
}

impl<E: Copy> Param<E> {
    /// Inserts an event, with its times counted at a sample rate.
    pub fn insert_event<A: Automation<E>>(&mut self, event: E, sample_rate: u32, ops: &A)
        ensures
            event_inserted(ops, *old(self), event, sample_rate, *final(self)),
    {
        let value: u32 = ops.value_after(&*self, event, sample_rate);
        self.events.push((event, sample_rate));
        self.value = value;
    }

    /// The same parameter once more.
    pub fn duplicate(&self) -> (r: Param<E>)
        ensures
            r.same(*self),
    {
        let mut events: Vec<(E, u32)> = Vec::new();
        let mut i: usize = 0;
        while i < self.events.len()
            invariant
                i <= self.events@.len(),
                events@ == self.events@.take(i as int),
            decreases self.events@.len() - i,
        {
            events.push(self.events[i]);
            i += 1;
            assert(events@ =~= self.events@.take(i as int));
        }
        assert(events@ =~= self.events@);
        Param { value: self.value, rate: self.rate, events }
    }
}

/// What the audio graph tells a node. `E` is an event of the automation of a parameter.
#[derive(Debug)]
pub enum AudioNodeMessage<E> {
    GetParamValue(ParamType),
    SetChannelCount(u8),
    SetChannelMode(ChannelCountMode),
    SetChannelInterpretation(ChannelInterpretation),
    SetParam(ParamType, E),
    SetParamRate(ParamType, ParamRate),
    /// A message that only some kinds of nodes understand.
    Specific,
}

} // verus!
