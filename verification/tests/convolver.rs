use audio_nodes::arithmetic::{Complex, DoubleArithmetic, Transform};
use audio_nodes::audio_buffer::AudioBuffer;
use audio_nodes::audio_node::{AudioNodeType, ChannelCountMode, ChannelInfo};
use audio_nodes::block::{Block, ChannelInterpretation, Chunk};
use audio_nodes::convolver_node::{
    calculate_buffer_fft, calculate_normalization_scale, clamp_power, linear_convolution,
    rms_power, route, scale_from_power, ConvolverNode, ConvolverNodeMessage,
    ConvolverNodeOptions, DOUBLE_HALF, DOUBLE_ONE, GAIN_CALIBRATION,
    GAIN_CALIBRATION_SAMPLE_RATE, MIN_POWER,
};
use num_complex::Complex64;
use realfft::RealFftPlanner;

/// The arithmetic of the machine, and the transform of the `realfft` crate.
struct Machine;

fn single(bits: u32) -> f32 {
    f32::from_bits(bits)
}

fn double(bits: u64) -> f64 {
    f64::from_bits(bits)
}

fn complex(bits: Complex) -> Complex64 {
    Complex64::new(double(bits.0), double(bits.1))
}

impl DoubleArithmetic for Machine {
    fn double_sum(&self, a: u64, b: u64) -> u64 {
        (double(a) + double(b)).to_bits()
    }
    fn double_product(&self, a: u64, b: u64) -> u64 {
        (double(a) * double(b)).to_bits()
    }
    fn double_quotient(&self, a: u64, b: u64) -> u64 {
        (double(a) / double(b)).to_bits()
    }
    fn square_root(&self, a: u64) -> u64 {
        double(a).sqrt().to_bits()
    }
    fn square(&self, a: u32) -> u32 {
        single(a).powi(2).to_bits()
    }
    fn double_number(&self, n: usize) -> u64 {
        (n as f64).to_bits()
    }
    fn widen(&self, a: u32) -> u64 {
        (single(a) as f64).to_bits()
    }
    fn narrow(&self, a: u64) -> u32 {
        (double(a) as f32).to_bits()
    }
}

impl Transform for Machine {
    fn forward(&self, signal: Vec<u64>) -> Vec<Complex> {
        let fft = RealFftPlanner::<f64>::new().plan_fft_forward(signal.len());
        let mut input: Vec<f64> = signal.iter().map(|x| double(*x)).collect();
        let mut output = fft.make_output_vec();
        fft.process(&mut input, &mut output).unwrap();
        output.iter().map(|z| (z.re.to_bits(), z.im.to_bits())).collect()
    }
    fn inverse(&self, spectrum: Vec<Complex>, length: usize) -> Vec<u64> {
        let fft = RealFftPlanner::<f64>::new().plan_fft_inverse(length);
        let mut input: Vec<Complex64> = spectrum.iter().map(|z| complex(*z)).collect();
        let mut output = fft.make_output_vec();
        fft.process(&mut input, &mut output).unwrap();
        output.iter().map(|x| x.to_bits()).collect()
    }
    fn complex_product(&self, a: Complex, b: Complex) -> Complex {
        let product = complex(a) * complex(b);
        (product.re.to_bits(), product.im.to_bits())
    }
}

fn settings() -> ChannelInfo {
    ChannelInfo {
        count: 2,
        mode: ChannelCountMode::ClampedMax,
        interpretation: ChannelInterpretation::Speakers,
    }
}

fn bits(samples: &[f32]) -> Vec<u32> {
    samples.iter().map(|x| x.to_bits()).collect()
}

fn response(channels: &[&[f32]]) -> AudioBuffer {
    AudioBuffer {
        buffers: channels.iter().map(|channel| bits(channel)).collect(),
        sample_rate: 44100.0f32.to_bits(),
    }
}

fn node(channels: &[&[f32]], normalize: bool) -> ConvolverNode {
    let options = ConvolverNodeOptions { buffer: None, normalize };
    let mut node = ConvolverNode::new(options, settings(), &Machine);
    let message = ConvolverNodeMessage::SetBuffer(Some(response(channels)));
    node.handle_convolver_message(message, &Machine);
    node
}

fn ramp(first: usize) -> Vec<f32> {
    (0..128).map(|i| (first + i) as f32).collect()
}

fn block(channels: &[Vec<f32>]) -> Block {
    Block::for_vec(channels.iter().flat_map(|channel| bits(channel)).collect())
}

fn samples(block: &Block) -> Vec<f32> {
    block.buffer.iter().map(|x| single(*x)).collect()
}

fn assert_near(actual: &[f32], expected: &[f32]) {
    assert_eq!(actual.len(), expected.len());
    for i in 0..actual.len() {
        assert!((actual[i] - expected[i]).abs() < 1.0e-3, "{}: {} {}", i, actual[i], expected[i]);
    }
}

/// The convolution by its definition, with zeros up to a length.
fn by_definition(input: &[f32], response: &[f32], length: usize) -> Vec<f32> {
    let mut output = vec![0.0; length];
    for i in 0..input.len() {
        for j in 0..response.len() {
            output[i + j] += input[i] * response[j];
        }
    }
    output
}

#[test]
fn constants_are_the_numbers_they_stand_for() {
    assert_eq!(double(GAIN_CALIBRATION), 0.00125);
    assert_eq!(double(GAIN_CALIBRATION_SAMPLE_RATE), 44100.0);
    assert_eq!(double(MIN_POWER), 0.000125);
    assert_eq!(double(DOUBLE_ONE), 1.0);
    assert_eq!(double(DOUBLE_HALF), 0.5);
}

#[test]
fn spectra_are_as_long_as_the_transform_needs() {
    let length = |frames: usize| calculate_buffer_fft(&vec![0; frames], &Machine).len();
    assert_eq!(length(1), 65);
    assert_eq!(length(2), 129);
    assert_eq!(length(65), 129);
    assert_eq!(length(66), 129);
    assert_eq!(length(100), 129);
    assert_eq!(length(129), 129);
    assert_eq!(length(130), 193);
}

#[test]
fn convolutions_are_as_long_as_the_transform() {
    let spectrum = calculate_buffer_fft(&vec![0; 66], &Machine);
    assert_eq!(linear_convolution(&vec![0; 128], &spectrum, &Machine).len(), 256);
    let response = [0.5f32; 66];
    let output = node(&[&response, &response], false)
        .process(Chunk::new(block(&[ramp(0)])), &Machine);
    assert_eq!(output.block(0).buffer.len(), 512);
    assert_eq!(output.block(0).chan_count(), 4);
    let expected = by_definition(&ramp(0), &response, 256);
    assert_near(&samples(output.block(0))[256..], &expected);
}

#[test]
fn equal_inputs_give_equal_outputs() {
    let node = node(&[&[1.0, -0.5, 0.25]], true);
    let first = node.process(Chunk::new(block(&[ramp(3)])), &Machine);
    node.process(Chunk::new(block(&[ramp(900)])), &Machine);
    let again = node.process(Chunk::new(block(&[ramp(3)])), &Machine);
    assert_eq!(first.block(0).buffer, again.block(0).buffer);
    assert_eq!(first.block(0).channels, again.block(0).channels);
}

#[test]
fn a_normalized_output_is_the_plain_one_times_the_scale() {
    let channels: [&[f32]; 2] = [&[0.5, 0.25], &[-1.0, 3.0]];
    let scale = calculate_normalization_scale(&Some(response(&channels)), true, &Machine);
    let scale = double(scale.unwrap());
    let plain = node(&channels, false).process(Chunk::new(block(&[ramp(1)])), &Machine);
    let output = node(&channels, true).process(Chunk::new(block(&[ramp(1)])), &Machine);
    let expected: Vec<f32> = samples(plain.block(0))
        .into_iter()
        .map(|sample| (sample as f64 * scale) as f32)
        .collect();
    assert_eq!(samples(output.block(0)), expected);
}

#[test]
fn operations_have_one_result_on_the_machine() {
    let values = [0.0, -0.0, 1.5, -3.25, 1.0e300, f64::INFINITY, f64::NEG_INFINITY, f64::NAN];
    let same = |a: f64, b: f64| a.to_bits() == b.to_bits() || a.is_nan() && b.is_nan();
    let other_nan = |a: f64| if a.is_nan() { f64::from_bits(a.to_bits() | 1) } else { a };
    for x in values {
        for y in values {
            let (a, b) = (x.to_bits(), y.to_bits());
            let (c, d) = (other_nan(x).to_bits(), other_nan(y).to_bits());
            assert!(same(double(Machine.double_product(a, b)), double(Machine.double_product(c, d))));
            assert!(same(double(Machine.double_quotient(a, b)), double(Machine.double_quotient(c, d))));
            assert!(same(double(Machine.double_sum(a, b)), double(Machine.double_sum(c, d))));
            let first = Machine.complex_product((a, b), (b, a));
            let again = Machine.complex_product((c, d), (d, c));
            assert!(same(double(first.0), double(again.0)));
            assert!(same(double(first.1), double(again.1)));
        }
        let (a, c) = (Machine.narrow(x.to_bits()), Machine.narrow(other_nan(x).to_bits()));
        assert!(same(single(a) as f64, single(c) as f64));
        assert!(same(double(Machine.widen(a)), double(Machine.widen(c))));
    }
    let signal: Vec<u64> = (0..128).map(|i| (i as f64 * 0.1).to_bits()).collect();
    let spectrum = Machine.forward(signal.clone());
    assert_eq!(spectrum, Machine.forward(signal));
    assert_eq!(Machine.inverse(spectrum.clone(), 128), Machine.inverse(spectrum, 128));
}

/// A transform that gives whole spectra in place of half ones.
struct Whole;

impl DoubleArithmetic for Whole {
    fn double_sum(&self, a: u64, b: u64) -> u64 {
        Machine.double_sum(a, b)
    }
    fn double_product(&self, a: u64, b: u64) -> u64 {
        Machine.double_product(a, b)
    }
    fn double_quotient(&self, a: u64, b: u64) -> u64 {
        Machine.double_quotient(a, b)
    }
    fn square_root(&self, a: u64) -> u64 {
        Machine.square_root(a)
    }
    fn square(&self, a: u32) -> u32 {
        Machine.square(a)
    }
    fn double_number(&self, n: usize) -> u64 {
        Machine.double_number(n)
    }
    fn widen(&self, a: u32) -> u64 {
        Machine.widen(a)
    }
    fn narrow(&self, a: u64) -> u32 {
        Machine.narrow(a)
    }
}

impl Transform for Whole {
    fn forward(&self, signal: Vec<u64>) -> Vec<Complex> {
        signal.into_iter().map(|x| (x, 0)).collect()
    }
    fn inverse(&self, spectrum: Vec<Complex>, length: usize) -> Vec<u64> {
        Machine.inverse(spectrum, length)
    }
    fn complex_product(&self, a: Complex, b: Complex) -> Complex {
        Machine.complex_product(a, b)
    }
}

#[test]
fn spectra_that_are_not_half_of_the_whole_are_not_kept() {
    let options = ConvolverNodeOptions { buffer: None, normalize: false };
    let mut node = ConvolverNode::new(options, settings(), &Whole);
    let message = ConvolverNodeMessage::SetBuffer(Some(response(&[&[2.0]])));
    node.handle_convolver_message(message, &Whole);
    assert!(node.buffer.is_some());
    assert!(node.buffer_ffts.is_none());
    let output = node.process(Chunk::new(block(&[ramp(7)])), &Whole);
    assert_eq!(samples(output.block(0)), ramp(7));
}

#[test]
fn convolution_matches_its_definition() {
    let impulse = [1.0, -0.5, 0.25, 2.0];
    let input = ramp(3);
    let spectrum = calculate_buffer_fft(&bits(&impulse), &Machine);
    let output = linear_convolution(&bits(&input), &spectrum, &Machine);
    let narrow: Vec<f32> = output.iter().map(|x| double(*x) as f32).collect();
    assert_near(&narrow, &by_definition(&input, &impulse, 256));
}

#[test]
fn mono_input_and_mono_response() {
    let output = node(&[&[0.5]], false).process(Chunk::new(block(&[ramp(0)])), &Machine);
    assert_eq!(output.len(), 1);
    assert_eq!(output.block(0).chan_count(), 1);
    assert_near(&samples(output.block(0)), &by_definition(&ramp(0), &[0.5], 128));
}

#[test]
fn mono_input_and_stereo_response() {
    let output = node(&[&[1.0], &[2.0]], false).process(Chunk::new(block(&[ramp(0)])), &Machine);
    let mut expected = by_definition(&ramp(0), &[1.0], 128);
    expected.extend(by_definition(&ramp(0), &[2.0], 128));
    assert_eq!(output.block(0).chan_count(), 2);
    assert_near(&samples(output.block(0)), &expected);
}

#[test]
fn stereo_input_and_mono_response() {
    let input = block(&[ramp(0), ramp(500)]);
    let output = node(&[&[3.0]], false).process(Chunk::new(input), &Machine);
    let mut expected = by_definition(&ramp(0), &[3.0], 128);
    expected.extend(by_definition(&ramp(500), &[3.0], 128));
    assert_near(&samples(output.block(0)), &expected);
}

#[test]
fn stereo_input_and_stereo_response() {
    let input = block(&[ramp(0), ramp(500)]);
    let output = node(&[&[3.0], &[4.0]], false).process(Chunk::new(input), &Machine);
    let mut expected = by_definition(&ramp(0), &[3.0], 128);
    expected.extend(by_definition(&ramp(500), &[4.0], 128));
    assert_near(&samples(output.block(0)), &expected);
}

#[test]
fn stereo_input_and_matrix_response() {
    let input = block(&[ramp(0), ramp(500)]);
    let matrix: [&[f32]; 4] = [&[1.0], &[2.0], &[3.0], &[4.0]];
    let output = node(&matrix, false).process(Chunk::new(input), &Machine);
    let mut expected = by_definition(&ramp(0), &[1.0], 128);
    expected.extend(by_definition(&ramp(0), &[2.0], 128));
    expected.extend(by_definition(&ramp(500), &[3.0], 128));
    expected.extend(by_definition(&ramp(500), &[4.0], 128));
    assert_eq!(output.block(0).chan_count(), 4);
    assert_near(&samples(output.block(0)), &expected);
}

#[test]
fn mono_input_and_matrix_response() {
    let matrix: [&[f32]; 4] = [&[1.0], &[2.0], &[3.0], &[4.0]];
    let output = node(&matrix, false).process(Chunk::new(block(&[ramp(0)])), &Machine);
    let mut expected = vec![];
    for factor in [1.0, 2.0, 3.0, 4.0] {
        expected.extend(by_definition(&ramp(0), &[factor], 128));
    }
    assert_near(&samples(output.block(0)), &expected);
}

#[test]
fn routes_of_channels() {
    assert_eq!(route(1, 1), Some(vec![(0, 0)]));
    assert_eq!(route(1, 2), Some(vec![(0, 0), (0, 1)]));
    assert_eq!(route(2, 1), Some(vec![(0, 0), (1, 0)]));
    assert_eq!(route(2, 2), Some(vec![(0, 0), (1, 1)]));
    assert_eq!(route(2, 4), Some(vec![(0, 0), (0, 1), (1, 2), (1, 3)]));
    assert_eq!(route(1, 4), Some(vec![(0, 0), (0, 1), (0, 2), (0, 3)]));
    assert_eq!(route(3, 1), None);
    assert_eq!(route(1, 3), None);
    assert_eq!(route(0, 1), None);
}

#[test]
fn other_inputs_pass_as_they_are() {
    let three = block(&[ramp(0), ramp(1), ramp(2)]);
    let output = node(&[&[2.0]], false).process(Chunk::new(three), &Machine);
    assert_eq!(output.block(0).chan_count(), 3);
    assert_eq!(samples(output.block(0))[130], 3.0);
}

#[test]
fn without_a_response_the_input_passes() {
    let options = ConvolverNodeOptions { buffer: None, normalize: true };
    let mut node = ConvolverNode::new(options, settings(), &Machine);
    assert_eq!(node.node_type(), AudioNodeType::ConvolverNode);
    assert_eq!(node.normalization_scale, None);
    let output = node.process(Chunk::new(block(&[ramp(7)])), &Machine);
    assert_eq!(samples(output.block(0)), ramp(7));
    node.handle_convolver_message(ConvolverNodeMessage::SetBuffer(None), &Machine);
    assert!(node.buffer_ffts.is_none());
}

#[test]
fn a_response_from_the_options_has_no_spectra_yet() {
    let options = ConvolverNodeOptions { buffer: Some(response(&[&[2.0]])), normalize: true };
    let node = ConvolverNode::new(options, settings(), &Machine);
    assert!(node.normalization_scale.is_some());
    assert!(node.buffer_ffts.is_none());
    let output = node.process(Chunk::new(block(&[ramp(7)])), &Machine);
    assert_eq!(samples(output.block(0)), ramp(7));
}

#[test]
fn power_of_a_response() {
    let buffer = response(&[&[3.0, 0.0], &[4.0, 5.0]]);
    assert_eq!(buffer.chans(), 2);
    assert_eq!(buffer.len(), 2);
    assert_eq!(double(rms_power(&buffer, &Machine)), (50.0f64 / 4.0).sqrt());
}

#[test]
fn power_has_a_lower_bound() {
    assert_eq!(clamp_power(0.0f64.to_bits()), MIN_POWER);
    assert_eq!(clamp_power(f64::NAN.to_bits()), MIN_POWER);
    assert_eq!(clamp_power(f64::INFINITY.to_bits()), MIN_POWER);
    assert_eq!(double(clamp_power(0.25f64.to_bits())), 0.25);
}

#[test]
fn scale_of_a_response() {
    let rate = 22050.0f32.to_bits();
    let two = 2.0f64.to_bits();
    assert_eq!(double(scale_from_power(two, rate, 2, &Machine)), 1.0 / 2.0 * 0.00125 * 2.0);
    assert_eq!(double(scale_from_power(two, rate, 4, &Machine)), 1.0 / 2.0 * 0.00125 * 2.0 * 0.5);
    let buffer = Some(response(&[&[3.0, 4.0]]));
    let scale = calculate_normalization_scale(&buffer, true, &Machine).unwrap();
    assert_eq!(double(scale), 1.0 / 12.5f64.sqrt() * 0.00125);
    let silent = Some(response(&[&[0.0, 0.0]]));
    let largest = calculate_normalization_scale(&silent, true, &Machine).unwrap();
    assert_eq!(double(largest), 1.0 / 0.000125 * 0.00125);
    assert_eq!(calculate_normalization_scale(&buffer, false, &Machine), None);
    assert_eq!(calculate_normalization_scale(&None, true, &Machine), None);
}

#[test]
fn a_normalized_response_is_scaled() {
    let output = node(&[&[2.0]], true).process(Chunk::new(block(&[ramp(0)])), &Machine);
    let expected: Vec<f32> = ramp(0).iter().map(|x| x * 2.0 * (0.5 * 0.00125)).collect();
    assert_near(&samples(output.block(0)), &expected);
    assert!(samples(output.block(0))[127] < 0.2);
}

#[test]
fn normalization_is_computed_with_the_response() {
    let mut late = node(&[&[2.0]], false);
    assert_eq!(late.normalization_scale, None);
    late.handle_convolver_message(ConvolverNodeMessage::SetNormalize(true), &Machine);
    assert!(late.normalize);
    assert_eq!(late.normalization_scale, None);
    let output = late.process(Chunk::new(block(&[ramp(0)])), &Machine);
    assert_near(&samples(output.block(0)), &by_definition(&ramp(0), &[2.0], 128));
}

#[test]
fn normalization_can_be_switched_off() {
    let mut node = node(&[&[2.0]], true);
    node.handle_convolver_message(ConvolverNodeMessage::SetNormalize(false), &Machine);
    assert!(node.normalization_scale.is_some());
    let output = node.process(Chunk::new(block(&[ramp(0)])), &Machine);
    assert_near(&samples(output.block(0)), &by_definition(&ramp(0), &[2.0], 128));
}
