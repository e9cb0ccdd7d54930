use audio_nodes::arithmetic::{Arithmetic, DoubleArithmetic, Mixing};
use audio_nodes::audio_node::{
    AudioNodeMessage, AudioNodeType, Automation, BlockInfo, ChannelCountMode, ChannelInfo, Param, ParamRate,
    ParamType, ParamUpdate,
};
use audio_nodes::block::{Block, ChannelInterpretation, Chunk};
use audio_nodes::delay_node::delay_line::{DelayState, UpmixedBlock};
use audio_nodes::delay_node::delay_reader::DelayReader;
use audio_nodes::delay_node::delay_writer::{delay_blocks, DelayWriter};
use audio_nodes::delay_node::taps::{delay_offset, find_block_with_index, locate_all};
use audio_nodes::delay_node::{DelayNode, DelayNodeOptions, DelayReply};
use audio_nodes::direct_delay_node;

/// The arithmetic of the machine, and mixing that repeats a single channel.
struct Machine;

fn single(bits: u32) -> f32 {
    f32::from_bits(bits)
}

fn double(bits: u64) -> f64 {
    f64::from_bits(bits)
}

impl Arithmetic for Machine {
    fn sum(&self, a: u32, b: u32) -> u32 {
        (single(a) + single(b)).to_bits()
    }
    fn difference(&self, a: u32, b: u32) -> u32 {
        (single(a) - single(b)).to_bits()
    }
    fn product(&self, a: u32, b: u32) -> u32 {
        (single(a) * single(b)).to_bits()
    }
    fn quotient(&self, a: u32, b: u32) -> u32 {
        (single(a) / single(b)).to_bits()
    }
    fn fract(&self, a: u32) -> u32 {
        single(a).fract().to_bits()
    }
    fn number(&self, n: i32) -> u32 {
        (n as f32).to_bits()
    }
}

impl DoubleArithmetic for Machine {
    fn double_sum(&self, a: u64, b: u64) -> u64 {
        (double(a) + double(b)).to_bits()
    }
    fn double_product(&self, a: u64, b: u64) -> u64 {
        (double(a) * double(b)).to_bits()
    }
    fn double_quotient(&self, a: u64, b: u64) -> u64 {
        (double(a) / double(b)).to_bits()
    }
    fn square_root(&self, a: u64) -> u64 {
        double(a).sqrt().to_bits()
    }
    fn square(&self, a: u32) -> u32 {
        single(a).powi(2).to_bits()
    }
    fn double_number(&self, n: usize) -> u64 {
        (n as f64).to_bits()
    }
    fn widen(&self, a: u32) -> u64 {
        (single(a) as f64).to_bits()
    }
    fn narrow(&self, a: u64) -> u32 {
        (double(a) as f32).to_bits()
    }
}

impl Mixing for Machine {
    fn mix(&self, block: &Block, channel_count: u8, _: ChannelInterpretation) -> Block {
        let mut mixed = Block::empty();
        for channel in 0..channel_count {
            let source = if block.chan_count() == 1 { 0 } else { channel };
            mixed.push_chan(&block.data_chan(source));
        }
        mixed
    }
}

/// An event that sets the value to its number, at once.
impl Automation<u8> for Machine {
    fn value_after(&self, _: &Param<u8>, event: u8, _: u32) -> u32 {
        (event as f32).to_bits()
    }
}

type Node = DelayNode<u8>;

type DirectNode = direct_delay_node::DelayNode<u8>;

const RATE: f32 = 44100.0;

fn settings() -> ChannelInfo {
    ChannelInfo {
        count: 2,
        mode: ChannelCountMode::Max,
        interpretation: ChannelInterpretation::Speakers,
    }
}

fn info() -> BlockInfo {
    BlockInfo { sample_rate: RATE.to_bits() }
}

/// A block of one channel that counts up from `first`.
fn ramp(first: usize) -> Block {
    Block::for_vec((0..128).map(|i| ((first + i) as f32).to_bits()).collect())
}

fn stereo(left: f32, right: f32) -> Block {
    let mut samples = vec![left.to_bits(); 128];
    samples.extend(vec![right.to_bits(); 128]);
    Block::for_vec(samples)
}

fn silence(channels: u8) -> Block {
    Block { channels, buffer: vec![] }
}

fn samples(block: &Block) -> Vec<f32> {
    block.buffer.iter().map(|bits| single(*bits)).collect()
}

fn updates(time: f32) -> Vec<ParamUpdate> {
    vec![ParamUpdate { value: time.to_bits(), updated: true }; 128]
}

/// A delay line with these blocks, of which the first is the newest.
fn state(blocks: Vec<Block>) -> DelayState {
    let mut state = DelayState::new();
    state.delay_line.update_capacity(blocks.len().max(1));
    for block in blocks.into_iter().rev() {
        state.delay_line.push(block);
    }
    state
}

/// A reader with the same delay, in frames, at each tick.
fn reader(frames: f32) -> DelayReader<u8> {
    let mut reader = DelayReader::<u8>::new(Param::new(0), settings());
    for tick in 0..128 {
        reader.update_delay_frames(tick, frames.to_bits());
    }
    reader
}

fn read(reader: &DelayReader<u8>, state: &mut DelayState, reads_first: bool) -> Vec<f32> {
    let mut accessed_first = reads_first;
    let output = reader.read(state, &mut accessed_first, &Machine);
    assert_eq!(accessed_first, !reads_first);
    assert_eq!(output.len(), 1);
    samples(output.block(0))
}

#[test]
fn frames_are_found_in_their_block() {
    assert_eq!(find_block_with_index(0), 0);
    assert_eq!(find_block_with_index(127), 0);
    assert_eq!(find_block_with_index(128), 1);
    assert_eq!(find_block_with_index(1000), 7);
}

#[test]
fn offsets_of_ticks() {
    assert_eq!(delay_offset(false, 0), 127);
    assert_eq!(delay_offset(false, 127), 0);
    assert_eq!(delay_offset(true, 0), -128);
    assert_eq!(delay_offset(true, 127), -128);
}

#[test]
fn a_chunk_is_a_list_of_blocks() {
    let mut chunk = Chunk::default();
    assert_eq!(chunk.len(), 0);
    assert!(chunk.pop().is_none());
    chunk.push(ramp(0));
    chunk.push(ramp(1000));
    assert_eq!(chunk.len(), 2);
    assert_eq!(samples(chunk.block(0))[0], 0.0);
    assert_eq!(samples(chunk.block(1))[0], 1000.0);
    assert_eq!(samples(&chunk.pop().unwrap())[1], 1001.0);
    assert_eq!(chunk.len(), 1);
}

#[test]
fn blocks_have_channels_and_frames() {
    let block = stereo(1.0, 2.0);
    assert_eq!(block.chan_count(), 2);
    assert!(!block.is_silence());
    assert_eq!(single(block.data_chan_frame(5, 1)), 2.0);
    assert_eq!(block.data_chan_frame(5, 2), 0);
    assert_eq!(block.data_chan_frame(128, 0), 0);
    assert_eq!(block.data_chan(0), vec![1.0f32.to_bits(); 128]);
    assert_eq!(silence(1).data_chan(0), vec![0; 128]);
    let mut zeros = Block::for_channels_explicit(2);
    assert_eq!(zeros.buffer.len(), 256);
    zeros.set_column(3, &vec![7, 9]);
    assert_eq!(zeros.data_chan_frame(3, 0), 7);
    assert_eq!(zeros.data_chan_frame(3, 1), 9);
    assert_eq!(zeros.data_chan_frame(4, 1), 0);
    assert_eq!(Block::for_vec(vec![0; 300]).chan_count(), 2);
    assert_eq!(Block::for_vec(vec![0; 257 * 128]).chan_count(), 1);
}

#[test]
fn writing_shifts_the_line() {
    let writer = DelayWriter::new(settings(), 1.0f64.to_bits());
    let mut line = state(vec![]);
    line.delay_line.capacity = 2;
    for first in [0, 128, 256] {
        writer.write(Chunk::new(ramp(first)), &mut line);
    }
    assert_eq!(line.delay_line.blocks.len(), 2);
    assert_eq!(samples(&line.delay_line.blocks[0])[0], 256.0);
    assert_eq!(samples(&line.delay_line.blocks[1])[0], 128.0);
}

#[test]
fn writing_takes_the_last_block_of_a_chunk() {
    let writer = DelayWriter::new(settings(), 1.0f64.to_bits());
    let mut line = state(vec![]);
    let mut chunk = Chunk::new(ramp(0));
    chunk.push(ramp(500));
    writer.write(chunk, &mut line);
    assert_eq!(samples(&line.delay_line.blocks[0])[0], 500.0);
}

#[test]
fn writing_nothing_changes_nothing() {
    let writer = DelayWriter::new(settings(), 1.0f64.to_bits());
    let mut line = state(vec![ramp(0)]);
    line.upmix_block(0, 1, ChannelInterpretation::Speakers, &Machine);
    writer.write(Chunk::default(), &mut line);
    assert_eq!(line.delay_line.blocks.len(), 1);
    assert_eq!(line.upmixed_block.unwrap().get_index(), 0);
}

#[test]
fn a_mixed_block_follows_its_source() {
    let writer = DelayWriter::new(settings(), 1.0f64.to_bits());
    let mut line = state(vec![ramp(0), ramp(128)]);
    line.upmix_block(0, 2, ChannelInterpretation::Speakers, &Machine);
    writer.write(Chunk::new(ramp(256)), &mut line);
    let upmixed = line.upmixed_block.unwrap();
    assert_eq!(upmixed.get_index(), 1);
    assert_eq!(upmixed.get_block().chan_count(), 2);
    assert_eq!(samples(upmixed.get_block())[128], 0.0);
    assert_eq!(samples(upmixed.get_block())[129], 1.0);
}

#[test]
fn a_mixed_block_is_mixed_again_for_another_count() {
    let mut line = state(vec![ramp(0)]);
    line.upmix_block(0, 1, ChannelInterpretation::Speakers, &Machine);
    line.upmix_block(0, 2, ChannelInterpretation::Speakers, &Machine);
    assert_eq!(line.upmixed_block.unwrap().get_block().chan_count(), 2);
    let mut upmixed =
        UpmixedBlock::new(4, 3, ChannelInterpretation::Discrete, &ramp(0), &Machine);
    upmixed.increment_index();
    assert_eq!(upmixed.get_index(), 5);
    assert_eq!(upmixed.get_block().chan_count(), 3);
}

#[test]
fn the_line_holds_the_longest_delay() {
    assert_eq!(delay_blocks(1.0f64.to_bits(), RATE.to_bits(), &Machine), 345);
    let writer = DelayWriter::new(settings(), 1.0f64.to_bits());
    let mut line = DelayState::new();
    let output = writer.process(Chunk::new(ramp(0)), &info(), &mut line, &Machine);
    assert_eq!(output.len(), 0);
    assert_eq!(line.delay_line.capacity, 346);
    assert_eq!(line.delay_line.blocks.len(), 1);
    // The capacity is set only once.
    writer.update_delay_line_capacity(&mut line, 5);
    assert_eq!(line.delay_line.capacity, 346);
}

#[test]
fn no_delay_gives_the_newest_block() {
    let mut line = state(vec![ramp(128), ramp(0)]);
    let output = read(&reader(0.0), &mut line, false);
    assert_eq!(output, samples(&ramp(128)));
}

#[test]
fn a_delay_of_whole_frames_reaches_back() {
    let mut line = state(vec![ramp(256), ramp(128), ramp(0)]);
    assert_eq!(read(&reader(128.0), &mut line, false), samples(&ramp(128)));
    assert_eq!(read(&reader(100.0), &mut line, false), samples(&ramp(156)));
    assert_eq!(read(&reader(256.0), &mut line, false), samples(&ramp(0)));
}

#[test]
fn frames_that_were_never_written_are_zero() {
    let mut line = state(vec![ramp(1000), ramp(872)]);
    let output = read(&reader(130.0), &mut line, false);
    assert_eq!(output[0..2], [0.0, 0.0]);
    assert_eq!(output[2], 872.0);
    assert_eq!(output[127], 997.0);
    let nothing = read(&reader(1000.0), &mut line, false);
    assert_eq!(nothing, vec![0.0; 128]);
}

#[test]
fn a_fraction_weighs_the_two_frames_around_it() {
    let mut line = state(vec![ramp(128), ramp(0)]);
    let output = read(&reader(0.25), &mut line, false);
    // At the last tick the position is 0.25: three quarters of frame 255, one of frame 254.
    assert_eq!(output[127], 0.75 * 255.0 + 0.25 * 254.0);
    assert_eq!(output[0], 0.75 * 128.0 + 0.25 * 127.0);
}

#[test]
fn the_older_of_two_frames_can_be_missing() {
    let mut line = state(vec![ramp(128)]);
    let output = read(&reader(0.25), &mut line, false);
    assert_eq!(output[0], 0.75 * 128.0);
    assert_eq!(output[1], 0.75 * 129.0 + 0.25 * 128.0);
}

#[test]
fn a_quarter_of_a_frame_on_a_fresh_node() {
    let rate = BlockInfo { sample_rate: 128.0f32.to_bits() };
    let time = updates(0.25 / 128.0);
    let expected: Vec<f32> = (0..128).map(|t| t as f32 + 0.75).collect();
    let mut node = Node::new(DelayNodeOptions::default(), settings(), &Machine);
    let output = node.process(Chunk::new(ramp(1)), &rate, &time, &Machine);
    assert_eq!(samples(output.block(0)), expected);
    let mut direct = DirectNode::new(DelayNodeOptions::default(), settings(), &Machine);
    let output = direct.process(Chunk::new(ramp(1)), &rate, &time, &Machine);
    assert_eq!(samples(output.block(0)), expected);
}

#[test]
fn a_read_without_channels_leaves_the_mixed_block() {
    let mut line = state(vec![ramp(0)]);
    line.upmix_block(0, 7, ChannelInterpretation::Speakers, &Machine);
    assert_eq!(read(&reader(5000.0), &mut line, false), vec![0.0; 128]);
    let upmixed = line.upmixed_block.unwrap();
    assert_eq!((upmixed.get_index(), upmixed.channel_count), (0, 7));
}

#[test]
fn a_read_leaves_a_block_mixed_to_its_channels() {
    let mut line = state(vec![stereo(1.0, 2.0)]);
    line.upmix_block(0, 9, ChannelInterpretation::Speakers, &Machine);
    assert_eq!(read(&reader(0.0), &mut line, false).len(), 256);
    let upmixed = line.upmixed_block.as_ref().unwrap();
    assert_eq!((upmixed.get_index(), upmixed.channel_count), (0, 2));
    assert_eq!(upmixed.get_block().chan_count(), 2);
    line.keep_mixed_to(2);
    assert!(line.upmixed_block.is_some());
    line.keep_mixed_to(3);
    assert!(line.upmixed_block.is_none());
}

#[test]
fn reading_before_writing_skips_no_block() {
    let mut line = state(vec![ramp(128), ramp(0)]);
    let output = read(&reader(200.0), &mut line, true);
    // The position is 200 - 128 at every tick.
    assert_eq!(output, vec![183.0; 128]);
    // A position below zero is that of the newest frame.
    assert_eq!(read(&reader(0.0), &mut line, true), vec![255.0; 128]);
}

/// The channel count of the output, with the same delay at each tick.
fn count(frames: f32, line: &DelayState, reads_first: bool) -> u8 {
    let reader = reader(frames);
    let positions = locate_all(&reader.delay_frames, reads_first, &Machine);
    reader.calc_output_channel_count(&positions, &line.delay_line)
}

#[test]
fn positions_of_the_frames() {
    let delays = [2.5f32.to_bits(); 128];
    let after = locate_all(&delays, false, &Machine);
    assert_eq!(after.len(), 128);
    assert_eq!(single(after[0]), 129.5);
    assert_eq!(single(after[127]), 2.5);
    let before = locate_all(&delays, true, &Machine);
    assert_eq!(single(before[0]), -125.5);
    assert_eq!(single(before[127]), -125.5);
}

#[test]
fn channels_of_the_output() {
    let line = state(vec![ramp(0), stereo(1.0, 2.0), silence(6)]);
    assert_eq!(count(0.0, &line, false), 1);
    assert_eq!(count(128.0, &line, false), 2);
    // Silence calls for no channel.
    assert_eq!(count(256.0, &line, false), 0);
    assert_eq!(count(5000.0, &line, false), 0);
    assert_eq!(count(0.0, &state(vec![]), false), 0);
    // Before this quantum is written, the positions are a block further to the front.
    assert_eq!(count(128.0, &line, true), 1);
    assert_eq!(count(256.0, &line, true), 2);
}

#[test]
fn the_widest_block_that_is_read_sets_the_channels() {
    // With a delay of half a block the frames of two blocks are read.
    assert_eq!(count(64.0, &state(vec![ramp(0), stereo(1.0, 2.0)]), false), 2);
    assert_eq!(count(64.0, &state(vec![stereo(1.0, 2.0), ramp(0)]), false), 2);
    // A block between two that are read does not affect the output.
    let line = state(vec![ramp(0), stereo(1.0, 2.0), ramp(0)]);
    let mut far = reader(0.0);
    far.update_delay_frames(127, 300.0f32.to_bits());
    let positions = locate_all(&far.delay_frames, false, &Machine);
    assert_eq!(far.calc_output_channel_count(&positions, &line.delay_line), 1);
    // A position between two blocks reads both.
    assert_eq!(count(0.5, &line, false), 2);
}

#[test]
fn the_output_narrows_when_wide_input_is_over() {
    let mut node = Node::new(DelayNodeOptions::default(), settings(), &Machine);
    let rate = BlockInfo { sample_rate: 65536.0f32.to_bits() };
    let time = updates(64.0 / 65536.0);
    node.process(Chunk::new(stereo(1.0, 2.0)), &rate, &time, &Machine);
    let still_wide = node.process(Chunk::new(ramp(0)), &rate, &time, &Machine);
    assert_eq!(still_wide.block(0).chan_count(), 2);
    assert_eq!(samples(still_wide.block(0))[0], 1.0);
    assert_eq!(samples(still_wide.block(0))[128], 2.0);
    assert_eq!(samples(still_wide.block(0))[127], 63.0);
    let narrow = node.process(Chunk::new(ramp(128)), &rate, &time, &Machine);
    assert_eq!(narrow.block(0).chan_count(), 1);
}

#[test]
fn reading_first_agrees_at_the_last_frame() {
    let mut before = state(vec![ramp(128), ramp(0)]);
    let mut after = state(vec![ramp(256), ramp(128), ramp(0)]);
    for frames in [128.0, 200.0, 300.0] {
        let first = read(&reader(frames), &mut before, true);
        let second = read(&reader(frames), &mut after, false);
        assert_eq!(first[127], second[127]);
    }
}

#[test]
fn a_narrow_block_is_mixed_up() {
    let mut line = state(vec![ramp(0), stereo(1.0, 2.0)]);
    let mut wide = reader(0.0);
    wide.update_delay_frames(127, 128.0f32.to_bits());
    let output = read(&wide, &mut line, false);
    assert_eq!(output.len(), 256);
    assert_eq!(output[5], 5.0);
    assert_eq!(output[128 + 5], 5.0);
    assert_eq!(output[127], 1.0);
    assert_eq!(output[255], 2.0);
}

#[test]
fn nothing_to_read_is_a_channel_of_silence() {
    let mut line = state(vec![silence(2)]);
    assert_eq!(read(&reader(0.0), &mut line, false), vec![0.0; 128]);
    let mut empty = state(vec![]);
    assert_eq!(read(&reader(0.0), &mut empty, true), vec![0.0; 128]);
}

#[test]
fn a_cycle_is_silent_without_an_active_sample() {
    let tiny = 1.0e-39f32;
    let mut line = state(vec![stereo(tiny, tiny)]);
    let mut cycle = reader(0.0);
    assert_eq!(read(&cycle, &mut line, false), vec![tiny; 256]);
    cycle.set_cycle_breaker_status(true);
    assert_eq!(read(&cycle, &mut line, false), vec![0.0; 128]);
    let mut loud = state(vec![stereo(tiny, -f32::MIN_POSITIVE)]);
    let output = read(&cycle, &mut loud, false);
    assert_eq!(output[0], tiny);
    assert_eq!(output[128], -f32::MIN_POSITIVE);
}

#[test]
fn a_cycle_takes_at_least_a_quantum() {
    let mut cycle = DelayReader::<u8>::new(Param::new(0), settings());
    let update = ParamUpdate { value: 0.001f32.to_bits(), updated: true };
    assert!(cycle.update_parameters(&info(), 3, update, &Machine));
    assert_eq!(single(cycle.delay_frames[3]), 0.001 * RATE);
    cycle.set_cycle_breaker_status(true);
    let still = ParamUpdate { value: 0.001f32.to_bits(), updated: false };
    assert!(!cycle.update_parameters(&info(), 3, still, &Machine));
    assert_eq!(single(cycle.delay_frames[3]), 128.0 / RATE * RATE);
    assert_eq!(single(cycle.delay_time.value), 0.001);
    let long = ParamUpdate { value: 0.5f32.to_bits(), updated: true };
    cycle.update_parameters(&info(), 4, long, &Machine);
    assert_eq!(single(cycle.delay_frames[4]), 22050.0);
}

#[test]
fn a_reader_takes_over_its_delay_times() {
    let mut line = state(vec![ramp(128), ramp(0)]);
    let mut node = DelayReader::<u8>::new(Param::new(0), settings());
    let mut accessed_first = false;
    let time = updates(128.0 / 65536.0);
    let rate = BlockInfo { sample_rate: 65536.0f32.to_bits() };
    let output = node.process(&rate, &time, &mut line, &mut accessed_first, &Machine);
    assert!(accessed_first);
    assert_eq!(samples(output.block(0)), samples(&ramp(0)));
    assert_eq!(node.delay_time.value, time[127].value);
    assert_eq!(node.get_param(ParamType::DelayTime).value, time[127].value);
    assert_eq!(node.node_type(), AudioNodeType::DelayReader);
}

#[test]
fn a_node_writes_before_it_reads() {
    let options = DelayNodeOptions::default();
    assert_eq!(double(options.max_delay_time), 1.0);
    assert_eq!(double(options.delay_time), 0.0);
    let mut node = Node::new(options, settings(), &Machine);
    let first = node.process(Chunk::new(ramp(0)), &info(), &updates(0.0), &Machine);
    assert_eq!(samples(first.block(0)), samples(&ramp(0)));
    let second = node.process(Chunk::new(ramp(128)), &info(), &updates(0.0), &Machine);
    assert_eq!(samples(second.block(0)), samples(&ramp(128)));
    assert_eq!(node.state.delay_line.blocks.len(), 2);
    assert_eq!(node.state.delay_line.capacity, 346);
    assert_eq!(node.node_type(), AudioNodeType::DelayNode);
    assert_eq!(node.delay_writer.node_type(), AudioNodeType::DelayWriter);
}

#[test]
fn a_node_delays_by_its_delay_time() {
    let rate = BlockInfo { sample_rate: 65536.0f32.to_bits() };
    let mut node = Node::new(DelayNodeOptions::default(), settings(), &Machine);
    let time = updates(192.0 / 65536.0);
    for quantum in 0..4 {
        let input = Chunk::new(ramp(1 + 128 * quantum));
        let output = samples(node.process(input, &rate, &time, &Machine).block(0));
        for tick in 0..128 {
            let index = 128 * quantum + tick;
            let expected = if index < 192 { 0.0 } else { (index - 192 + 1) as f32 };
            assert_eq!(output[tick], expected);
        }
    }
    assert_eq!(node.state.delay_line.capacity, 513);
}

#[test]
fn a_stereo_stream_is_shifted() {
    let rate = BlockInfo { sample_rate: 65536.0f32.to_bits() };
    let mut node = Node::new(DelayNodeOptions::default(), settings(), &Machine);
    let time = updates(200.0 / 65536.0);
    for quantum in 0..5usize {
        let first = 128 * quantum;
        let mut input = ramp(1 + first);
        input.push_chan(&ramp(5001 + first).buffer);
        let output = node.process(Chunk::new(input), &rate, &time, &Machine);
        for tick in 0..128usize {
            let n = first + tick;
            for (channel, base) in [(0, 1), (1, 5001)] {
                let expected = if n < 200 { 0.0 } else { (base + n - 200) as f32 };
                assert_eq!(single(output.block(0).data_chan_frame(tick, channel)), expected);
            }
        }
    }
}

#[test]
fn a_direct_node_shifts_a_stream() {
    // The longest delay there is room for.
    let rate = BlockInfo { sample_rate: 256.0f32.to_bits() };
    let mut node = DirectNode::new(DelayNodeOptions::default(), settings(), &Machine);
    let time = updates(1.0);
    for quantum in 0..6usize {
        let input = Chunk::new(ramp(1 + 128 * quantum));
        let output = node.process(input, &rate, &time, &Machine);
        assert_eq!(output.block(0).chan_count(), 1);
        for (tick, sample) in samples(output.block(0)).into_iter().enumerate() {
            let n = 128 * quantum + tick;
            assert_eq!(sample, if n < 256 { 0.0 } else { (n - 256 + 1) as f32 });
        }
        assert_eq!(node.delay_frames.len(), 128);
    }
    assert_eq!(node.state.delay_line.blocks.len(), 3);
}

#[test]
fn a_direct_node_without_a_delay_puts_out_its_input() {
    let mut node = DirectNode::new(DelayNodeOptions::default(), settings(), &Machine);
    node.process(Chunk::new(ramp(0)), &info(), &updates(0.5), &Machine);
    let output = node.process(Chunk::new(stereo(3.0, -4.0)), &info(), &updates(0.0), &Machine);
    assert_eq!(samples(output.block(0)), samples(&stereo(3.0, -4.0)));
}

#[test]
fn messages_to_a_delay_node() {
    let options = DelayNodeOptions { max_delay_time: 2.0f64.to_bits(), delay_time: 0.5f64.to_bits() };
    let mut node = Node::new(options, settings(), &Machine);
    assert_eq!(single(node.delay_time.value), 0.5);
    assert_eq!(node.delay_time.rate, ParamRate::ARate);
    assert!(node.delay_time.events.is_empty());
    let get = || AudioNodeMessage::GetParamValue(ParamType::DelayTime);
    let reply = node.message(get(), 0, &Machine);
    assert!(matches!(reply, DelayReply::ParamValue(v) if single(v) == 0.5));
    node.process(Chunk::new(ramp(0)), &info(), &updates(0.25), &Machine);
    assert_eq!(single(node.delay_time.value), 0.5);
    assert_eq!(single(node.get_param(ParamType::DelayTime).value), 0.25);
    assert_eq!(single(node.delay_time.value), 0.25);
    let count = AudioNodeMessage::SetChannelCount(7);
    assert!(matches!(node.message(count, 0, &Machine), DelayReply::Done));
    assert_eq!(node.channel_info.count, 7);
    let mode = AudioNodeMessage::SetChannelMode(ChannelCountMode::Explicit);
    assert!(matches!(node.message(mode, 0, &Machine), DelayReply::Done));
    assert_eq!(node.channel_info.mode, ChannelCountMode::Explicit);
    let interpretation =
        AudioNodeMessage::SetChannelInterpretation(ChannelInterpretation::Discrete);
    assert!(matches!(node.message(interpretation, 0, &Machine), DelayReply::Done));
    assert_eq!(node.channel_info.interpretation, ChannelInterpretation::Discrete);
    assert_eq!(node.delay_reader.channel_info, settings());
    let other = AudioNodeMessage::Specific;
    let reply = node.message(other, 0, &Machine);
    assert!(matches!(reply, DelayReply::Specific(AudioNodeMessage::Specific)));
}

#[test]
fn what_is_set_of_a_parameter_is_in_it_at_once() {
    let mut node = Node::new(DelayNodeOptions::default(), settings(), &Machine);
    let event = AudioNodeMessage::SetParam(ParamType::DelayTime, 9);
    assert!(matches!(node.message(event, 44, &Machine), DelayReply::Done));
    let rate = AudioNodeMessage::SetParamRate(ParamType::DelayTime, ParamRate::KRate);
    assert!(matches!(node.message(rate, 44, &Machine), DelayReply::Done));
    node.set_param(ParamType::DelayTime, 3, 55, &Machine);
    // The copy of the node is made when it is asked for.
    assert!(node.delay_time.events.is_empty());
    let get = AudioNodeMessage::GetParamValue(ParamType::DelayTime);
    let reply = node.message(get, 44, &Machine);
    assert!(matches!(reply, DelayReply::ParamValue(v) if single(v) == 3.0));
    let param = node.get_param(ParamType::DelayTime);
    assert_eq!(param.events, vec![(9, 44), (3, 55)]);
    assert_eq!(param.rate, ParamRate::KRate);
    // A render quantum changes the value alone.
    node.set_param_rate(ParamType::DelayTime, ParamRate::ARate);
    node.process(Chunk::new(ramp(0)), &info(), &updates(0.25), &Machine);
    let param = node.get_param(ParamType::DelayTime);
    assert_eq!(single(param.value), 0.25);
    assert_eq!(param.events, vec![(9, 44), (3, 55)]);
    assert_eq!(param.rate, ParamRate::ARate);
}

/// Numbers of all kinds, the infinite ones included, and none that is not a number.
fn numbers() -> Vec<f32> {
    let mut numbers = vec![0.0, 1.0e-45, 1.0e-40, f32::MIN_POSITIVE, 0.1, 0.5, 1.0, 1.5, 3.0, 127.0];
    numbers.extend([8388607.5, 16777215.0, 16777216.0, 1.0e10, 3.0e38, f32::MAX, f32::INFINITY]);
    let negative: Vec<f32> = numbers.iter().map(|x| -x).collect();
    numbers.extend(negative);
    numbers
}

#[test]
fn zero_and_one_are_neutral_on_the_machine() {
    for a in numbers() {
        assert_eq!(single(Machine.product(1.0f32.to_bits(), a.to_bits())), a);
        assert_eq!(single(Machine.sum(0, a.to_bits())), a);
        if a.is_finite() && a.floor() == a {
            assert_eq!(single(Machine.fract(a.to_bits())), 0.0, "{}", a);
        }
    }
    // What is left of an infinite number is not a number.
    assert!(single(Machine.fract(f32::INFINITY.to_bits())).is_nan());
    for zero in [0.0f32, -0.0] {
        assert_eq!(Machine.difference(1.0f32.to_bits(), zero.to_bits()), 1.0f32.to_bits());
    }
}

#[test]
fn integers_are_exact_on_the_machine() {
    let mut integers: Vec<i32> = vec![0, 1, 127, 128, 129, 4095, 65537, 8388609, 16777088];
    integers.extend([16777214, 16777215, 16777216]);
    let negative: Vec<i32> = integers.iter().map(|n| -n).collect();
    integers.extend(negative);
    for m in &integers {
        let a = Machine.number(*m);
        assert_eq!(single(a) as f64, *m as f64);
        for n in &integers {
            if (m + n).abs() <= 16777216 {
                assert_eq!(single(Machine.sum(a, Machine.number(*n))) as f64, (m + n) as f64);
            }
        }
    }
}

#[test]
fn mixing_to_the_same_channels_keeps_samples() {
    for block in [ramp(3), stereo(1.0, 2.0), silence(2), silence(0)] {
        let channels = block.chan_count();
        let mixed = Machine.mix(&block, channels, ChannelInterpretation::Speakers);
        for channel in 0..channels {
            assert_eq!(mixed.data_chan(channel), block.data_chan(channel));
        }
    }
}

#[test]
fn the_channels_of_a_stream_come_with_its_first_sample() {
    let rate = BlockInfo { sample_rate: 65536.0f32.to_bits() };
    let mut node = Node::new(DelayNodeOptions::default(), settings(), &Machine);
    let time = updates(255.0 / 65536.0);
    let mut counts = vec![];
    for _ in 0..3 {
        let output = node.process(Chunk::new(stereo(1.0, 2.0)), &rate, &time, &Machine);
        counts.push(output.block(0).chan_count());
        if counts.len() == 2 {
            assert_eq!(single(output.block(0).data_chan_frame(126, 1)), 0.0);
            assert_eq!(single(output.block(0).data_chan_frame(127, 1)), 2.0);
        }
    }
    assert_eq!(counts, vec![1, 2, 2]);
}

#[test]
fn a_direct_node_delays_by_its_delay_time() {
    let rate = BlockInfo { sample_rate: 65536.0f32.to_bits() };
    let mut node = DirectNode::new(DelayNodeOptions::default(), settings(), &Machine);
    let time = updates(64.0 / 65536.0);
    node.process(Chunk::new(ramp(0)), &rate, &time, &Machine);
    let output = node.process(Chunk::new(ramp(128)), &rate, &time, &Machine);
    assert_eq!(samples(output.block(0)), samples(&ramp(64)));
    assert_eq!(node.delay_frames, vec![64.0f32.to_bits(); 128]);
    assert_eq!(node.state.delay_line.capacity, 513);
    assert_eq!(node.find_block_with_index(128), 1);
    assert_eq!(node.get_param(ParamType::DelayTime).value, time[0].value);
    assert_eq!(node.node_type(), AudioNodeType::DelayNode);
    node.upmix_block(1, 2, &Machine);
    assert_eq!(node.state.upmixed_block.unwrap().get_block().chan_count(), 2);
}

#[test]
fn a_direct_node_without_anything_to_read_is_silent() {
    let mut node = DirectNode::new(DelayNodeOptions::default(), settings(), &Machine);
    let output = node.process(Chunk::new(stereo(1.0, 2.0)), &info(), &updates(0.5), &Machine);
    assert_eq!(samples(output.block(0)), vec![0.0; 128]);
}

#[test]
fn a_direct_node_counts_the_channels_of_silence() {
    let mut node = DirectNode::new(DelayNodeOptions::default(), settings(), &Machine);
    node.state.delay_line.update_capacity(4);
    node.state.delay_line.push(silence(3));
    let rate = BlockInfo { sample_rate: 65536.0f32.to_bits() };
    let output =
        node.process(Chunk::new(ramp(0)), &rate, &updates(128.0 / 65536.0), &Machine);
    assert_eq!(output.block(0).chan_count(), 3);
    assert_eq!(samples(output.block(0)), vec![0.0; 384]);
}

#[test]
fn a_delay_by_samples_starts_empty() {
    let buffer =
        direct_delay_node::DelayBuffer::<u8>::new(DelayNodeOptions::default(), Param::new(3));
    assert_eq!(single(buffer.delay_frames), -1.0);
    assert_eq!(buffer.delay_time.value, 3);
    assert!(buffer.block_buffers.is_empty());
    assert!(buffer.leftover_frames.is_empty());
    let frames =
        direct_delay_node::calc_delay_frames(0.5f64.to_bits(), 100.0f64.to_bits(), &Machine);
    assert_eq!(double(frames), 6400.0);
}
