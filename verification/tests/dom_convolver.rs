use audio_nodes::audio_buffer::AudioBuffer;
use audio_nodes::audio_node::ChannelCountMode;
use audio_nodes::block::ChannelInterpretation;
use audio_nodes::convolver_node::{ConvolverNodeMessage, ConvolverNodeOptions};
use audio_nodes::dom_convolver_node::{
    AudioNode, AudioNodeOptions, BufferHandle, ConvolverNode, ConvolverOptions, Error, Host,
    UnwrappedAudioNodeOptions,
};

/// A page whose recordings with an odd number have no contents.
struct Page {
    refuse: bool,
}

const RATE: f32 = 48000.0;

impl Host for Page {
    fn get_channels(&self, buffer: BufferHandle) -> Option<AudioBuffer> {
        if buffer.id % 2 == 1 {
            return None;
        }
        Some(AudioBuffer {
            buffers: vec![vec![1, 2, 3]; buffer.number_of_channels as usize],
            sample_rate: buffer.sample_rate,
        })
    }

    fn new_inherited(
        &self,
        init: ConvolverNodeOptions,
        options: UnwrappedAudioNodeOptions,
        number_of_inputs: u32,
        number_of_outputs: u32,
    ) -> Result<AudioNode, Error> {
        assert_eq!((number_of_inputs, number_of_outputs), (1, 1));
        assert!(options.count <= 2);
        assert!(options.mode != ChannelCountMode::Max);
        if self.refuse {
            return Err(Error::Other(format!("refused, normalize: {}", init.normalize)));
        }
        Ok(AudioNode { id: 5, context_sample_rate: RATE.to_bits() })
    }
}

fn handle(id: u64, channels: u32) -> BufferHandle {
    BufferHandle { id, number_of_channels: channels, sample_rate: RATE.to_bits() }
}

fn options() -> ConvolverOptions {
    ConvolverOptions {
        parent: AudioNodeOptions {
            channel_count: None,
            channel_count_mode: None,
            channel_interpretation: None,
        },
        buffer: None,
        disable_normalization: false,
    }
}

fn node() -> ConvolverNode {
    ConvolverNode::Constructor(&options(), &Page { refuse: false }).unwrap().0
}

fn reason(error: Error) -> String {
    match error {
        Error::NotSupported(Some(text)) => text,
        Error::NotSupported(None) => String::new(),
        Error::Other(text) => text,
    }
}

#[test]
fn defaults_of_the_constructor() {
    let unwrapped = options().parent.unwrap_or(
        2,
        ChannelCountMode::ClampedMax,
        ChannelInterpretation::Speakers,
    );
    assert_eq!(unwrapped.count, 2);
    assert_eq!(unwrapped.mode, ChannelCountMode::ClampedMax);
    assert_eq!(unwrapped.interpretation, ChannelInterpretation::Speakers);
    let (node, message) =
        ConvolverNode::Constructor(&options(), &Page { refuse: false }).unwrap();
    assert_eq!(node.source_node.id, 5);
    assert_eq!(node.GetBuffer().unwrap(), None);
    assert!(node.Normalize());
    assert!(message.is_none());
}

#[test]
fn more_than_two_channels_are_refused() {
    let mut many = options();
    many.parent.channel_count = Some(3);
    many.parent.channel_count_mode = Some(ChannelCountMode::Max);
    let error = ConvolverNode::Constructor(&many, &Page { refuse: false }).unwrap_err();
    assert_eq!(reason(error), "Channel count greater than 2 is not supported");
}

#[test]
fn the_maximum_of_channels_is_refused() {
    let mut most = options();
    most.parent.channel_count_mode = Some(ChannelCountMode::Max);
    let error = ConvolverNode::Constructor(&most, &Page { refuse: true }).unwrap_err();
    assert_eq!(reason(error), "Channel count mode Max is not supported");
}

#[test]
fn what_the_graph_refuses_is_refused() {
    let mut plain = options();
    plain.disable_normalization = true;
    let error = ConvolverNode::Constructor(&plain, &Page { refuse: true }).unwrap_err();
    assert_eq!(reason(error), "refused, normalize: false");
}

#[test]
fn a_response_from_the_options_is_sent() {
    let mut with_buffer = options();
    with_buffer.buffer = Some(Some(handle(2, 4)));
    with_buffer.disable_normalization = true;
    let page = Page { refuse: false };
    let converted = with_buffer.convert(&page);
    assert!(!converted.normalize);
    assert_eq!(converted.buffer.unwrap().buffers.len(), 4);
    let (node, message) = ConvolverNode::Constructor(&with_buffer, &page).unwrap();
    assert_eq!(node.GetBuffer().unwrap(), Some(handle(2, 4)));
    assert!(!node.Normalize());
    assert!(matches!(
        message,
        Some(ConvolverNodeMessage::SetBuffer(Some(contents))) if contents.buffers.len() == 4
    ));
}

#[test]
fn an_unsuitable_response_from_the_options_is_refused() {
    let mut with_buffer = options();
    with_buffer.buffer = Some(Some(handle(2, 3)));
    let error = ConvolverNode::Constructor(&with_buffer, &Page { refuse: false }).unwrap_err();
    assert_eq!(reason(error), "Buffer number of channels is not 1, 2 or 4");
    with_buffer.buffer = Some(None);
    assert!(ConvolverNode::Constructor(&with_buffer, &Page { refuse: false }).is_ok());
    assert!(with_buffer.convert(&Page { refuse: false }).buffer.is_none());
}

#[test]
fn responses_of_one_two_or_four_channels_are_accepted() {
    let page = Page { refuse: false };
    for channels in 0..6 {
        let mut node = node();
        let accepted = node.SetBuffer(Some(handle(0, channels)), &page).is_ok();
        assert_eq!(accepted, channels == 1 || channels == 2 || channels == 4);
    }
}

#[test]
fn a_refused_response_changes_nothing() {
    let page = Page { refuse: false };
    let mut node = node();
    assert!(node.SetBuffer(Some(handle(2, 1)), &page).is_ok());
    let mut other = handle(4, 1);
    other.sample_rate = 44100.0f32.to_bits();
    let error = node.SetBuffer(Some(other), &page).unwrap_err();
    assert_eq!(
        reason(error),
        "Buffer sample rate not equal to sample rate of convolver node's associated base audio context"
    );
    assert_eq!(node.GetBuffer().unwrap(), Some(handle(2, 1)));
}

#[test]
fn a_response_without_contents_is_not_sent() {
    let mut node = node();
    let message = node.SetBuffer(Some(handle(3, 2)), &Page { refuse: false }).unwrap();
    assert!(message.is_none());
    assert_eq!(node.GetBuffer().unwrap(), Some(handle(3, 2)));
}

#[test]
fn taking_the_response_away_sends_nothing() {
    let page = Page { refuse: false };
    let mut node = node();
    assert!(node.SetBuffer(Some(handle(2, 2)), &page).unwrap().is_some());
    assert!(node.SetBuffer(None, &page).unwrap().is_none());
    assert_eq!(node.GetBuffer().unwrap(), None);
}

#[test]
fn normalization_is_sent() {
    let mut node = node();
    assert!(matches!(node.SetNormalize(false), ConvolverNodeMessage::SetNormalize(false)));
    assert!(!node.Normalize());
}
