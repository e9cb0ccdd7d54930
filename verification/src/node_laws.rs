//! What holds of blocks, of parameters, and of the convolver node that scripts see.
use crate::audio_buffer::AudioBuffer;
use crate::audio_node::{
    event_inserted, value_after_is, Automation, ChannelCountMode, Param,
};
use crate::binary::{not_a_number, scaled};
use crate::block::{Block, ChannelInterpretation};
use crate::convolver_node::{ConvolverNodeMessage, ConvolverNodeOptions};
use crate::delay_node::DelayNode;
use crate::dom_convolver_node::{
    buffer_answer, channels_are, construction_answer, refused, AudioNode, BufferHandle, ConvolverNode,
    ConvolverOptions, Error, Host,
};
use vstd::prelude::*;

verus! {

/// Where the samples of a block stand: those of a channel behind those of the channel before, in
/// the order of the frames. Where a block has no sample, it is zero.
pub proof fn lemma_samples_of_a_block(block: Block, frame: int, channel: int)
    ensures
        block.explicit() <==> block.buffer@.len() == block.channels * 128,
        0 <= frame < 128 && 0 <= channel < block.channels && channel * 128 + frame
            < block.buffer@.len() ==> block.sample(frame, channel) == block.buffer@[channel * 128
            + frame],
        !(0 <= frame < 128 && 0 <= channel < block.channels && channel * 128 + frame
            < block.buffer@.len()) ==> block.sample(frame, channel) == 0,
        0 <= frame < 128 ==> block.channel(channel)[frame] == block.sample(frame, channel),
        0 <= channel < block.channels ==> block.column(frame)[channel] == block.sample(
            frame,
            channel,
        ),
        block.channel(channel).len() == 128,
        block.column(frame).len() == block.channels,
{
}

/// A block without samples is silent, and all of its samples are zero.
pub proof fn lemma_silent_block(block: Block, frame: int, channel: int)
    ensures
        block.silent() <==> block.buffer@.len() == 0,
        block.silent() ==> block.sample(frame, channel) == 0,
        block.is_explicit_silence() <==> block.channels == 1 && block.buffer@.len() == 128 && (
        forall|i: int| 0 <= i < 128 ==> #[trigger] block.buffer@[i] == 0),
{
    if block.channels == 1 && block.buffer@.len() == 128 && (forall|i: int|
        0 <= i < 128 ==> #[trigger] block.buffer@[i] == 0) {
        assert(block.buffer@ =~= crate::block::zeros(128));
    }
    if block.is_explicit_silence() {
        assert(block.buffer@.len() == 128);
        assert forall|i: int| 0 <= i < 128 implies #[trigger] block.buffer@[i] == 0 by {}
    }
}

/// A recording of fewer than 256 channels has the channels that it holds.
pub proof fn lemma_channels_of_a_recording(buffer: AudioBuffer)
    requires
        buffer.buffers@.len() < 256,
    ensures
        buffer.channel_count() == buffer.buffers@.len(),
{
}

/// Inserting an event keeps every event from before, and puts the new one behind them.
pub proof fn lemma_events_are_kept<E, A: Automation<E>>(
    ops: &A,
    before: Param<E>,
    event: E,
    sample_rate: u32,
    after: Param<E>,
)
    requires
        event_inserted(ops, before, event, sample_rate, after),
    ensures
        after.events@.len() == before.events@.len() + 1,
        after.events@[before.events@.len() as int] == (event, sample_rate),
        forall|i: int|
            0 <= i < before.events@.len() ==> #[trigger] after.events@[i] == before.events@[i],
        after.rate == before.rate,
        value_after_is(ops, before, event, sample_rate, after.value),
{
}

/// Two parameters that are the same agree in everything that has been set of them.
pub proof fn lemma_same_parameter<E>(a: Param<E>, b: Param<E>)
    ensures
        a.same(b) <==> a.value == b.value && a.rate == b.rate && a.events@ == b.events@,
{
}

/// Setting a response succeeds exactly for a recording of one, two or four channels that has the
/// sample rate of the context. What is sent then is what the recording holds, if anything.
pub proof fn lemma_setting_a_response<H: Host>(
    host: &H,
    source_node: AudioNode,
    buffer: BufferHandle,
    r: Result<Option<ConvolverNodeMessage>, Error>,
)
    requires
        buffer_answer(host, source_node, Some(buffer), r),
    ensures
        r is Ok <==> (buffer.number_of_channels == 1 || buffer.number_of_channels == 2
            || buffer.number_of_channels == 4) && !not_a_number(buffer.sample_rate)
            && !not_a_number(source_node.context_sample_rate) && scaled(buffer.sample_rate)
            == scaled(source_node.context_sample_rate),
        r matches Ok(Some(message)) ==> {
            &&& message matches ConvolverNodeMessage::SetBuffer(Some(contents))
            &&& channels_are(host, buffer, Some(contents))
        },
        r matches Ok(None) ==> channels_are(host, buffer, None),
        r matches Err(error) ==> {
            &&& error matches Error::NotSupported(Some(text))
            &&& text@ == if buffer.number_of_channels != 1 && buffer.number_of_channels != 2
                && buffer.number_of_channels != 4 {
                "Buffer number of channels is not 1, 2 or 4"@
            } else {
                "Buffer sample rate not equal to sample rate of convolver node's associated base audio context"@
            }
        },
{
}

/// A refusal is that of something that is not supported, with its reason.
pub proof fn lemma_refusal<T>(r: Result<T, Error>, reason: Seq<char>)
    ensures
        refused(r, reason) <==> (r matches Err(Error::NotSupported(Some(text))) && text@ == reason),
{
}

/// Another delay time in the reader leaves the rest of a delay node as it is.
pub proof fn lemma_other_delay_time<E: Copy>(node: DelayNode<E>, delay_time: Param<E>)
    ensures
        ({
            let r = node.with_shared_delay_time(delay_time);
            &&& r.delay_reader.delay_time == delay_time
            &&& r.delay_reader.channel_info == node.delay_reader.channel_info
            &&& r.delay_reader.delay_frames == node.delay_reader.delay_frames
            &&& r.delay_reader.is_cycle_breaker == node.delay_reader.is_cycle_breaker
            &&& r.channel_info == node.channel_info
            &&& r.delay_time == node.delay_time
            &&& r.delay_writer == node.delay_writer
            &&& r.state == node.state
        }),
{
}

/// Taking a response away succeeds, and nothing is sent.
pub proof fn lemma_taking_a_response_away<H: Host>(
    host: &H,
    source_node: AudioNode,
    r: Result<Option<ConvolverNodeMessage>, Error>,
)
    requires
        buffer_answer(host, source_node, None, r),
    ensures
        r == Ok::<Option<ConvolverNodeMessage>, Error>(None),
{
}

/// The node that comes of asking for one stands for the node that was made in the audio graph,
/// has the response that was named, and normalizes unless that was switched off. It comes if and
/// only if the node in the graph was made and the response was accepted.
pub proof fn lemma_asking_for_a_node<H: Host>(
    host: &H,
    options: ConvolverOptions,
    created: Result<AudioNode, Error>,
    r: Result<(ConvolverNode, Option<ConvolverNodeMessage>), Error>,
)
    requires
        construction_answer(host, options, created, r),
    ensures
        created matches Err(error) ==> r == Err::<
            (ConvolverNode, Option<ConvolverNodeMessage>),
            Error,
        >(error),
        created matches Ok(source_node) ==> {
            let named = match options.buffer {
                Some(Some(buffer)) => Some(buffer),
                _ => None,
            };
            &&& r matches Ok((node, message)) ==> {
                &&& node.source_node == source_node
                &&& node.buffer == named
                &&& node.normalize == !options.disable_normalization
                &&& buffer_answer(
                    host,
                    source_node,
                    named,
                    Ok::<Option<ConvolverNodeMessage>, Error>(message),
                )
            }
            &&& r matches Err(error) ==> buffer_answer(
                host,
                source_node,
                named,
                Err::<Option<ConvolverNodeMessage>, Error>(error),
            )
        },
{
}

/// What a script asks for is completed with two channels, a clamped count and speakers, and goes
/// on to the audio graph with the contents of the recording that it names.
pub proof fn lemma_options_of_a_node<H: Host>(
    host: &H,
    options: ConvolverOptions,
    init: ConvolverNodeOptions,
)
    requires
        options.converted_is(host, init),
    ensures
        options.node_options().count == match options.parent.channel_count {
            Some(count) => count,
            None => 2,
        },
        options.node_options().mode == match options.parent.channel_count_mode {
            Some(mode) => mode,
            None => ChannelCountMode::ClampedMax,
        },
        options.node_options().interpretation == match options.parent.channel_interpretation {
            Some(interpretation) => interpretation,
            None => ChannelInterpretation::Speakers,
        },
        init.normalize == !options.disable_normalization,
        match options.buffer {
            Some(Some(buffer)) => channels_are(host, buffer, init.buffer),
            _ => init.buffer is None,
        },
{
}

} // verus!
