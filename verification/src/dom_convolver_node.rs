//! The convolver node as scripts see it.
//!
//! The methods have the names of the interface that scripts use. What they would send to the
//! audio graph is returned as a message.
use crate::audio_buffer::AudioBuffer;
use crate::audio_node::ChannelCountMode;
use crate::binary;
use crate::block::ChannelInterpretation;
use crate::convolver_node::{routes, ConvolverNodeMessage, ConvolverNodeOptions};
use vstd::prelude::*;

verus! {

/// Why an operation was refused.
#[derive(Debug)]
pub enum Error {
    NotSupported(Option<String>),
    /// A refusal of another kind, which comes from the audio graph.
    Other(String),
}

/// A recording as scripts see it: which one it is, its number of channels, and its sample rate as
/// a `binary32` number.
#[derive(Clone, Copy, Debug, PartialEq, Eq, Structural)]
pub struct BufferHandle {
    pub id: u64,
    pub number_of_channels: u32,
    pub sample_rate: u32,
}

/// The channel settings with which a script asks for a node.
#[derive(Clone, Copy, Debug, PartialEq, Eq, Structural)]
pub struct AudioNodeOptions {
    pub channel_count: Option<u32>,
    pub channel_count_mode: Option<ChannelCountMode>,
    pub channel_interpretation: Option<ChannelInterpretation>,
}

/// Channel settings that are complete.
#[derive(Clone, Copy, Debug, PartialEq, Eq, Structural)]
pub struct UnwrappedAudioNodeOptions {
    pub count: u32,
    pub mode: ChannelCountMode,
    pub interpretation: ChannelInterpretation,
}

impl AudioNodeOptions {
    /// The settings, with these defaults.
    pub open spec fn or_default(
        self,
        count: u32,
        mode: ChannelCountMode,
        interpretation: ChannelInterpretation,
    ) -> UnwrappedAudioNodeOptions {
        UnwrappedAudioNodeOptions {
            count: match self.channel_count {
                Some(given) => given,
                None => count,
            },
            mode: match self.channel_count_mode {
                Some(given) => given,
                None => mode,
            },
            interpretation: match self.channel_interpretation {
                Some(given) => given,
                None => interpretation,
            },
        }
    }

    /// The settings, with these defaults.
    pub fn unwrap_or(
        &self,
        count: u32,
        mode: ChannelCountMode,
        interpretation: ChannelInterpretation,
    ) -> (r: UnwrappedAudioNodeOptions)
        ensures
            r == self.or_default(count, mode, interpretation),
    {
        UnwrappedAudioNodeOptions {
            count: match self.channel_count {
                Some(given) => given,
                None => count,
            },
            mode: match self.channel_count_mode {
                Some(given) => given,
                None => mode,
            },
            interpretation: match self.channel_interpretation {
                Some(given) => given,
                None => interpretation,
            },
        }
    }
}

/// The node of the audio graph that stands behind a node of a script.
#[derive(Clone, Copy, Debug, PartialEq, Eq, Structural)]
pub struct AudioNode {
    pub id: u64,
    /// The sample rate of the context of the node, as a `binary32` number.
    pub context_sample_rate: u32,
}

/// What the surroundings of a script do. Nothing is assumed of an implementation.
pub trait Host {
    /// The contents of a recording, unless the script has taken them away.
    fn get_channels(&self, buffer: BufferHandle) -> Option<AudioBuffer>;

    /// Makes a convolver node in the audio graph.
    fn new_inherited(
        &self,
        init: ConvolverNodeOptions,
        options: UnwrappedAudioNodeOptions,
        number_of_inputs: u32,
        number_of_outputs: u32,
    ) -> Result<AudioNode, Error>;
}

/// The contents of a recording may come to `r`.
pub open spec fn channels_are<H: Host>(
    host: &H,
    buffer: BufferHandle,
    r: Option<AudioBuffer>,
) -> bool {
    call_ensures(H::get_channels, (host, buffer), r)
}

/// Making a convolver node, with one input and one output, may come to `r`.
pub open spec fn creation_is<H: Host>(
    host: &H,
    init: ConvolverNodeOptions,
    options: UnwrappedAudioNodeOptions,
    r: Result<AudioNode, Error>,
) -> bool {
    call_ensures(H::new_inherited, (host, init, options, 1u32, 1u32), r)
}

/// With what a script asks for a convolver node.
#[derive(Clone, Copy, Debug, PartialEq, Eq, Structural)]
pub struct ConvolverOptions {
    pub parent: AudioNodeOptions,
    pub buffer: Option<Option<BufferHandle>>,
    pub disable_normalization: bool,
}

impl ConvolverOptions {
    /// The recording that the options name, if they do.
    pub open spec fn named_buffer(self) -> Option<BufferHandle> {
        match self.buffer {
            Some(Some(buffer)) => Some(buffer),
            _ => None,
        }
    }

    /// The channel settings that the options amount to.
    pub open spec fn node_options(self) -> UnwrappedAudioNodeOptions {
        self.parent.or_default(2, ChannelCountMode::ClampedMax, ChannelInterpretation::Speakers)
    }

    /// `r` may be the options for the node in the audio graph.
    pub open spec fn converted_is<H: Host>(self, host: &H, r: ConvolverNodeOptions) -> bool {
        &&& r.normalize == !self.disable_normalization
        &&& match self.named_buffer() {
            Some(buffer) => channels_are(host, buffer, r.buffer),
            None => r.buffer is None,
        }
    }

    /// The options for the node in the audio graph.
    pub fn convert<H: Host>(&self, host: &H) -> (r: ConvolverNodeOptions)
        ensures
            self.converted_is(host, r),
    {
        let buffer: Option<AudioBuffer> = match self.buffer {
            Some(Some(buffer)) => host.get_channels(buffer),
            _ => None,
        };
        ConvolverNodeOptions { buffer, normalize: !self.disable_normalization }
    }
}

/// Whether a result is the refusal of something that is not supported, with this reason.
pub open spec fn refused<T>(r: Result<T, Error>, reason: Seq<char>) -> bool {
    r matches Err(Error::NotSupported(Some(text))) && text@ == reason
}

/// Whether a recording has a number of channels that a response can have.
pub open spec fn has_response_channels(buffer: BufferHandle) -> bool {
    buffer.number_of_channels == 1 || buffer.number_of_channels == 2 || buffer.number_of_channels
        == 4
}

/// Whether a recording can be the response of a node: it has one, two or four channels, and the
/// sample rate of the context.
pub open spec fn acceptable(buffer: BufferHandle, source_node: AudioNode) -> bool {
    has_response_channels(buffer) && binary::equal_numbers(
        buffer.sample_rate,
        source_node.context_sample_rate,
    )
}

/// `r` may be the answer to setting a recording as the response.
pub open spec fn buffer_answer<H: Host>(
    host: &H,
    source_node: AudioNode,
    new_buffer: Option<BufferHandle>,
    r: Result<Option<ConvolverNodeMessage>, Error>,
) -> bool {
    match new_buffer {
        None => r == Ok::<Option<ConvolverNodeMessage>, Error>(None),
        Some(buffer) => if !has_response_channels(buffer) {
            refused(r, "Buffer number of channels is not 1, 2 or 4"@)
        } else if !acceptable(buffer, source_node) {
            refused(
                r,
                "Buffer sample rate not equal to sample rate of convolver node's associated base audio context"@,
            )
        } else {
            exists|channels: Option<AudioBuffer>| #[trigger]
                channels_are(host, buffer, channels) && r == Ok::<
                    Option<ConvolverNodeMessage>,
                    Error,
                >(
                    match channels {
                        Some(contents) => Some(ConvolverNodeMessage::SetBuffer(Some(contents))),
                        None => None,
                    },
                )
        },
    }
}

/// A response that was accepted can be applied to every mono or stereo input.
pub proof fn lemma_accepted_response_has_routes(
    buffer: BufferHandle,
    source_node: AudioNode,
    input_channels: u8,
)
    requires
        acceptable(buffer, source_node),
        input_channels == 1 || input_channels == 2,
    ensures
        routes(input_channels, buffer.number_of_channels as u8) is Some,
{
}

/// A convolver node as scripts see it.
#[derive(Debug)]
pub struct ConvolverNode {
    pub source_node: AudioNode,
    pub buffer: Option<BufferHandle>,
    pub normalize: bool,
}

/// `r` may be the answer to asking for a convolver node, once its node in the audio graph has
/// been asked for, with what came of that. Along with the node comes what is to be sent to it.
pub open spec fn construction_answer<H: Host>(
    host: &H,
    options: ConvolverOptions,
    created: Result<AudioNode, Error>,
    r: Result<(ConvolverNode, Option<ConvolverNodeMessage>), Error>,
) -> bool {
    match created {
        Err(error) => r == Err::<(ConvolverNode, Option<ConvolverNodeMessage>), Error>(error),
        Ok(source_node) => exists|answer: Result<Option<ConvolverNodeMessage>, Error>| #[trigger]
            buffer_answer(host, source_node, options.named_buffer(), answer) && match answer {
                Err(error) => r == Err::<(ConvolverNode, Option<ConvolverNodeMessage>), Error>(
                    error,
                ),
                Ok(message) => r == Ok::<(ConvolverNode, Option<ConvolverNodeMessage>), Error>(
                    (
                        ConvolverNode {
                            source_node,
                            buffer: options.named_buffer(),
                            normalize: !options.disable_normalization,
                        },
                        message,
                    ),
                ),
            },
    }
}

impl ConvolverNode {
    /// Makes a convolver node, and says what is to be sent to its node in the audio graph.
    #[allow(non_snake_case)]
    pub fn Constructor<H: Host>(options: &ConvolverOptions, host: &H) -> (r: Result<
        (ConvolverNode, Option<ConvolverNodeMessage>),
        Error,
    >)
        ensures
            if options.node_options().count > 2 {
                refused(r, "Channel count greater than 2 is not supported"@)
            } else if options.node_options().mode == ChannelCountMode::Max {
                refused(r, "Channel count mode Max is not supported"@)
            } else {
                exists|init: ConvolverNodeOptions, created: Result<AudioNode, Error>|
                    options.converted_is(host, init) && #[trigger] creation_is(
                        host,
                        init,
                        options.node_options(),
                        created,
                    ) && construction_answer(host, *options, created, r)
            },
    {
        let node_options: UnwrappedAudioNodeOptions = options.parent.unwrap_or(
            2,
            ChannelCountMode::ClampedMax,
            ChannelInterpretation::Speakers,
        );
        if node_options.count > 2 {
            return Err(
                Error::NotSupported(
                    Some("Channel count greater than 2 is not supported".to_string()),
                ),
            );
        }
        if node_options.mode == ChannelCountMode::Max {
            return Err(
                Error::NotSupported(Some("Channel count mode Max is not supported".to_string())),
            );
        }
        let convolver_options: ConvolverNodeOptions = options.convert(host);
        let ghost init = convolver_options;
        let created: Result<AudioNode, Error> = host.new_inherited(
            convolver_options,
            node_options,
            1,
            1,
        );
        assert(creation_is(host, init, options.node_options(), created));
        match created {
            Err(error) => Err(error),
            Ok(source_node) => {
                let mut node = ConvolverNode {
                    source_node,
                    buffer: None,
                    normalize: !options.disable_normalization,
                };
                let buffer: Option<BufferHandle> = match options.buffer {
                    Some(Some(buffer)) => Some(buffer),
                    _ => None,
                };
                let answer: Result<Option<ConvolverNodeMessage>, Error> = node.SetBuffer(
                    buffer,
                    host,
                );
                assert(buffer_answer(host, source_node, options.named_buffer(), answer));
                match answer {
                    Err(error) => Err(error),
                    Ok(message) => Ok((node, message)),
                }
            },
        }
    }

    /// The response.
    #[allow(non_snake_case)]
    pub fn GetBuffer(&self) -> (r: Result<Option<BufferHandle>, Error>)
        ensures
            r == Ok::<Option<BufferHandle>, Error>(self.buffer),
    {
        Ok(self.buffer)
    }

    /// Sets the response, or takes it away, and says what is to be sent to the node in the audio
    /// graph. Where the response is refused, nothing changes.
    #[allow(non_snake_case)]
    pub fn SetBuffer<H: Host>(&mut self, new_buffer: Option<BufferHandle>, host: &H) -> (r: Result<
        Option<ConvolverNodeMessage>,
        Error,
    >)
        ensures
            buffer_answer(host, old(self).source_node, new_buffer, r),
            r is Err ==> *final(self) == *old(self),
            r is Ok ==> *final(self) == (ConvolverNode { buffer: new_buffer, ..*old(self) }),
    {
        let Some(buffer) = new_buffer else {
            self.buffer = None;
            return Ok(None);
        };
        let channels: u32 = buffer.number_of_channels;
        if channels != 1 && channels != 2 && channels != 4 {
            return Err(
                Error::NotSupported(
                    Some("Buffer number of channels is not 1, 2 or 4".to_string()),
                ),
            );
        }
        if !binary::equal(buffer.sample_rate, self.source_node.context_sample_rate) {
            return Err(
                Error::NotSupported(
                    Some(
                        "Buffer sample rate not equal to sample rate of convolver node's associated base audio context".to_string(),
                    ),
                ),
            );
        }
        self.buffer = Some(buffer);
        let contents: Option<AudioBuffer> = host.get_channels(buffer);
        assert(channels_are(host, buffer, contents));
        match contents {
            Some(contents) => Ok(Some(ConvolverNodeMessage::SetBuffer(Some(contents)))),
            None => Ok(None),
        }
    }

    /// Whether the response is normalized.
    #[allow(non_snake_case)]
    pub fn Normalize(&self) -> (r: bool)
        ensures
            r == self.normalize,
    {
        self.normalize
    }

    /// Sets whether the response is normalized, and says what is to be sent to the node in the
    /// audio graph.
    #[allow(non_snake_case)]
    pub fn SetNormalize(&mut self, value: bool) -> (r: ConvolverNodeMessage)
        ensures
            *final(self) == (ConvolverNode { normalize: value, ..*old(self) }),
            r == ConvolverNodeMessage::SetNormalize(value),
    {
        self.normalize = value;
        ConvolverNodeMessage::SetNormalize(value)
    }
}

} // verus!
