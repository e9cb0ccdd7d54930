//! A node that applies the response of a room, or of a device, to its input.
use crate::arithmetic::{
    complex_product_is, double_number_is, double_product_is, double_quotient_is, double_sum_is,
    forward_is, inverse_is, narrow_is, square_is, square_root_is, widen_is, Complex,
    DoubleArithmetic, Transform,
};
use crate::audio_buffer::AudioBuffer;
use crate::audio_node::{AudioNodeType, ChannelInfo};
use crate::binary;
use crate::block::{Block, Chunk, FRAMES_PER_BLOCK_USIZE};
use vstd::prelude::*;

verus! {

/// `0.00125`, which makes a processed sound about as loud as it was.
pub const GAIN_CALIBRATION: u64 = 0x3f54_7ae1_47ae_147b;

/// `44100`, the sample rate to which the calibration belongs.
pub const GAIN_CALIBRATION_SAMPLE_RATE: u64 = 0x40e5_8880_0000_0000;

/// `0.000125`, the least power that a response is taken to have.
pub const MIN_POWER: u64 = 0x3f20_624d_d2f1_a9fc;

/// `1`
pub const DOUBLE_ONE: u64 = 0x3ff0_0000_0000_0000;

/// `0.5`
pub const DOUBLE_HALF: u64 = 0x3fe0_0000_0000_0000;

/// With what a convolver node is made.
#[derive(Clone, Debug)]
pub struct ConvolverNodeOptions {
    pub buffer: Option<AudioBuffer>,
    pub normalize: bool,
}

/// What a convolver node is told.
#[derive(Clone, Debug)]
pub enum ConvolverNodeMessage {
    SetBuffer(Option<AudioBuffer>),
    SetNormalize(bool),
}

/// Adding the square of a sample to `before` may give `after`.
pub open spec fn sample_power_is<A: DoubleArithmetic>(
    ops: &A,
    before: u64,
    sample: u32,
    after: u64,
) -> bool {
    exists|squared: u32, wide: u64|
        #[trigger] square_is(ops, sample, squared) && #[trigger] widen_is(ops, squared, wide)
            && double_sum_is(ops, before, wide, after)
}

/// The squares of some samples may add up to `power`.
pub open spec fn channel_power_is<A: DoubleArithmetic>(
    ops: &A,
    samples: Seq<u32>,
    power: u64,
) -> bool
    decreases samples.len(),
{
    if samples.len() == 0 {
        power == 0
    } else {
        exists|before: u64|
            channel_power_is(ops, samples.drop_last(), before) && #[trigger] sample_power_is(
                ops,
                before,
                samples.last(),
                power,
            )
    }
}

/// Adding the squares of the samples of a channel to `before` may give `after`.
pub open spec fn channel_added_is<A: DoubleArithmetic>(
    ops: &A,
    before: u64,
    samples: Seq<u32>,
    after: u64,
) -> bool {
    exists|power: u64|
        #[trigger] channel_power_is(ops, samples, power) && double_sum_is(ops, before, power, after)
}

/// The squares of the samples of some channels may add up to `power`.
pub open spec fn total_power_is<A: DoubleArithmetic>(
    ops: &A,
    channels: Seq<Vec<u32>>,
    power: u64,
) -> bool
    decreases channels.len(),
{
    if channels.len() == 0 {
        power == 0
    } else {
        exists|before: u64|
            total_power_is(ops, channels.drop_last(), before) && #[trigger] channel_added_is(
                ops,
                before,
                channels.last()@,
                power,
            )
    }
}

/// The root of the mean square of the samples of a recording may come to `power`.
pub open spec fn rms_power_is<A: DoubleArithmetic>(
    ops: &A,
    buffer: AudioBuffer,
    power: u64,
) -> bool {
    exists|total: u64, channels: u64, length: u64, count: u64, mean: u64|
        {
            &&& #[trigger] total_power_is(ops, buffer.buffers@, total)
            &&& #[trigger] double_number_is(ops, buffer.channel_count() as usize, channels)
            &&& #[trigger] double_number_is(ops, buffer.buffers@[0]@.len() as usize, length)
            &&& #[trigger] double_product_is(ops, channels, length, count)
            &&& #[trigger] double_quotient_is(ops, total, count, mean)
            &&& square_root_is(ops, mean, power)
        }
}

/// The power that a response is taken to have: at least `MIN_POWER`, and just that if it is
/// infinite or not a number.
pub open spec fn clamped_power(power: u64) -> u64 {
    if binary::double_magnitude(power) == 0x7ff0_0000_0000_0000 {
        MIN_POWER
    } else {
        binary::double_maximum_of(power, MIN_POWER)
    }
}

/// The factor that normalizes a response of this power may come to `scale`.
pub open spec fn scale_is<A: DoubleArithmetic>(
    ops: &A,
    power: u64,
    sample_rate: u32,
    channels: int,
    scale: u64,
) -> bool {
    exists|inverse: u64, calibrated: u64, rate: u64, ratio: u64, adjusted: u64|
        {
            &&& #[trigger] double_quotient_is(ops, DOUBLE_ONE, power, inverse)
            &&& #[trigger] double_product_is(ops, inverse, GAIN_CALIBRATION, calibrated)
            &&& #[trigger] widen_is(ops, sample_rate, rate)
            &&& #[trigger] double_quotient_is(ops, GAIN_CALIBRATION_SAMPLE_RATE, rate, ratio)
            &&& #[trigger] double_product_is(ops, calibrated, ratio, adjusted)
            &&& if channels == 4 {
                double_product_is(ops, adjusted, DOUBLE_HALF, scale)
            } else {
                scale == adjusted
            }
        }
}

/// The factor that normalizes a response may come to `scale`.
pub open spec fn normalization_scale_is<A: DoubleArithmetic>(
    ops: &A,
    buffer: AudioBuffer,
    scale: u64,
) -> bool {
    exists|power: u64|
        #[trigger] rms_power_is(ops, buffer, power) && scale_is(
            ops,
            clamped_power(power),
            buffer.sample_rate,
            buffer.channel_count(),
            scale,
        )
}

/// `scale` may be the factor that normalizes a response: there is one exactly where there is a
/// response and it is to be normalized.
pub open spec fn scale_for<A: DoubleArithmetic>(
    ops: &A,
    buffer: Option<AudioBuffer>,
    normalize: bool,
    scale: Option<u64>,
) -> bool {
    match (normalize, buffer) {
        (true, Some(response)) => scale matches Some(factor) && normalization_scale_is(
            ops,
            response,
            factor,
        ),
        _ => scale is None,
    }
}

/// The sum of the squares of some samples.
fn channel_power<A: DoubleArithmetic>(samples: &Vec<u32>, ops: &A) -> (power: u64)
    ensures
        channel_power_is(ops, samples@, power),
{
    let mut power: u64 = 0;
    let mut i: usize = 0;
    while i < samples.len()
        invariant
            i <= samples@.len(),
            channel_power_is(ops, samples@.take(i as int), power),
        decreases samples@.len() - i,
    {
        let squared: u32 = ops.square(samples[i]);
        let wide: u64 = ops.widen(squared);
        let ghost before = power;
        power = ops.double_sum(power, wide);
        proof {
            assert(square_is(ops, samples@[i as int], squared));
            assert(widen_is(ops, squared, wide));
            assert(samples@.take(i + 1).drop_last() =~= samples@.take(i as int));
            assert(sample_power_is(ops, before, samples@.take(i + 1).last(), power));
        }
        i += 1;
    }
    assert(samples@.take(i as int) =~= samples@);
    power
}

/// The sum of the squares of the samples of all channels.
fn total_power<A: DoubleArithmetic>(channels: &Vec<Vec<u32>>, ops: &A) -> (power: u64)
    ensures
        total_power_is(ops, channels@, power),
{
    let mut power: u64 = 0;
    let mut i: usize = 0;
    while i < channels.len()
        invariant
            i <= channels@.len(),
            total_power_is(ops, channels@.take(i as int), power),
        decreases channels@.len() - i,
    {
        let last: u64 = channel_power(&channels[i], ops);
        let ghost before = power;
        power = ops.double_sum(power, last);
        proof {
            assert(channels@.take(i + 1).drop_last() =~= channels@.take(i as int));
            assert(channel_power_is(ops, channels@[i as int]@, last));
            assert(channel_added_is(ops, before, channels@.take(i + 1).last()@, power));
        }
        i += 1;
    }
    assert(channels@.take(i as int) =~= channels@);
    power
}

/// The root of the mean square of the samples of a recording.
pub fn rms_power<A: DoubleArithmetic>(buffer: &AudioBuffer, ops: &A) -> (power: u64)
    requires
        buffer.buffers@.len() > 0,
    ensures
        rms_power_is(ops, *buffer, power),
{
    let number_of_channels: u64 = ops.double_number(buffer.chans() as usize);
    let buffer_length: u64 = ops.double_number(buffer.len());
    let total: u64 = total_power(&buffer.buffers, ops);
    let count: u64 = ops.double_product(number_of_channels, buffer_length);
    let mean: u64 = ops.double_quotient(total, count);
    proof {
        assert(double_number_is(ops, buffer.channel_count() as usize, number_of_channels));
        assert(double_number_is(ops, buffer.buffers@[0]@.len() as usize, buffer_length));
        assert(double_product_is(ops, number_of_channels, buffer_length, count));
        assert(double_quotient_is(ops, total, count, mean));
    }
    ops.square_root(mean)
}

/// The power that a response is taken to have.
pub fn clamp_power(power: u64) -> (r: u64)
    ensures
        r == clamped_power(power),
{
    if binary::double_is_infinite(power) {
        MIN_POWER
    } else {
        binary::double_maximum(power, MIN_POWER)
    }
}

/// The factor that normalizes a response of this power.
pub fn scale_from_power<A: DoubleArithmetic>(
    power: u64,
    sample_rate: u32,
    channels: u8,
    ops: &A,
) -> (scale: u64)
    ensures
        scale_is(ops, power, sample_rate, channels as int, scale),
{
    let inverse: u64 = ops.double_quotient(DOUBLE_ONE, power);
    let calibrated: u64 = ops.double_product(inverse, GAIN_CALIBRATION);
    let rate: u64 = ops.widen(sample_rate);
    let ratio: u64 = ops.double_quotient(GAIN_CALIBRATION_SAMPLE_RATE, rate);
    let adjusted: u64 = ops.double_product(calibrated, ratio);
    proof {
        assert(double_quotient_is(ops, DOUBLE_ONE, power, inverse));
        assert(double_product_is(ops, inverse, GAIN_CALIBRATION, calibrated));
        assert(widen_is(ops, sample_rate, rate));
        assert(double_quotient_is(ops, GAIN_CALIBRATION_SAMPLE_RATE, rate, ratio));
        assert(double_product_is(ops, calibrated, ratio, adjusted));
    }
    if channels == 4 {
        ops.double_product(adjusted, DOUBLE_HALF)
    } else {
        adjusted
    }
}

/// The factor that normalizes a response, if there is one and it is to be normalized.
pub fn calculate_normalization_scale<A: DoubleArithmetic>(
    buffer: &Option<AudioBuffer>,
    normalize: bool,
    ops: &A,
) -> (scale: Option<u64>)
    requires
        normalize ==> (buffer matches Some(response) ==> response.buffers@.len() > 0),
    ensures
        scale_for(ops, *buffer, normalize, scale),
{
    if !normalize {
        return None;
    }
    match buffer {
        Some(response) => {
            let power: u64 = rms_power(response, ops);
            assert(rms_power_is(ops, *response, power));
            Some(
                scale_from_power(
                    clamp_power(power),
                    response.sample_rate,
                    response.chans(),
                    ops,
                ),
            )
        },
        None => None,
    }
}

/// The length of the transform for a response of `length` frames: the next multiple of the
/// frames of a block that holds the convolution of a block with the response, `N + M - 1` frames
/// for a block of `N` and a response of `M`.
pub open spec fn transform_length(length: int) -> int {
    let needed = FRAMES_PER_BLOCK_USIZE + length - 1;
    (needed + FRAMES_PER_BLOCK_USIZE - 1) / FRAMES_PER_BLOCK_USIZE as int
        * FRAMES_PER_BLOCK_USIZE
}

/// The transform is the next whole number of blocks that holds what the response makes of a
/// block, so that its end does not wrap around to its beginning.
pub proof fn lemma_transform_length(length: int)
    requires
        0 < length,
    ensures
        transform_length(length) % FRAMES_PER_BLOCK_USIZE as int == 0,
        transform_length(length) >= FRAMES_PER_BLOCK_USIZE + length - 1,
        transform_length(length) - FRAMES_PER_BLOCK_USIZE < FRAMES_PER_BLOCK_USIZE + length - 1,
{
}

/// The length of the transform for a response of `length` frames.
fn fft_length(length: usize) -> (r: usize)
    requires
        0 < length,
        transform_length(length as int) <= usize::MAX,
    ensures
        r == transform_length(length as int),
{
    proof {
        lemma_transform_length(length as int);
    }
    let needed: usize = FRAMES_PER_BLOCK_USIZE - 1 + length;
    let mut blocks: usize = needed / FRAMES_PER_BLOCK_USIZE;
    if needed % FRAMES_PER_BLOCK_USIZE != 0 {
        blocks += 1;
    }
    blocks * FRAMES_PER_BLOCK_USIZE
}

/// Whether the spectra of real signals that the transform gives are half of the whole, with the
/// middle.
pub open spec fn gives_half_spectra<T: Transform>(ops: &T) -> bool {
    forall|signal: Vec<u64>, spectrum: Vec<Complex>| #[trigger]
        forward_is(ops, signal, spectrum) ==> spectrum@.len() == signal@.len() / 2 + 1
}

/// Whether the inverse transform gives signals of the length that it is asked for.
pub open spec fn gives_asked_length<T: Transform>(ops: &T) -> bool {
    forall|spectrum: Vec<Complex>, length: usize, signal: Vec<u64>| #[trigger]
        inverse_is(ops, spectrum, length, signal) ==> signal@.len() == length
}

/// `signal` may be the samples in double precision, filled up with zeros to a length.
pub open spec fn padded_is<A: DoubleArithmetic>(
    ops: &A,
    samples: Seq<u32>,
    length: int,
    signal: Seq<u64>,
) -> bool {
    &&& signal.len() == length
    &&& forall|i: int|
        0 <= i < length ==> if i < samples.len() {
            widen_is(ops, samples[i], #[trigger] signal[i])
        } else {
            signal[i] == 0
        }
}

/// The samples in double precision, filled up with zeros to a length.
fn pad<A: DoubleArithmetic>(samples: &Vec<u32>, length: usize, ops: &A) -> (signal: Vec<u64>)
    ensures
        padded_is(ops, samples@, length as int, signal@),
{
    let mut signal: Vec<u64> = Vec::new();
    let mut i: usize = 0;
    while i < length
        invariant
            i <= length,
            padded_is(ops, samples@, i as int, signal@),
        decreases length - i,
    {
        let sample: u64 = if i < samples.len() {
            ops.widen(samples[i])
        } else {
            0
        };
        signal.push(sample);
        i += 1;
    }
    signal
}

/// The spectrum of a response may come to `spectrum`.
pub open spec fn buffer_fft_is<A: DoubleArithmetic + Transform>(
    ops: &A,
    response: Seq<u32>,
    spectrum: Vec<Complex>,
) -> bool {
    exists|signal: Vec<u64>|
        padded_is(ops, response, transform_length(response.len() as int), signal@)
            && #[trigger] forward_is(ops, signal, spectrum)
}

/// The spectrum of a response.
pub fn calculate_buffer_fft<A: DoubleArithmetic + Transform>(buffer: &Vec<u32>, ops: &A) -> (
    spectrum: Vec<Complex>)
    requires
        buffer@.len() > 0,
        transform_length(buffer@.len() as int) <= usize::MAX,
    ensures
        buffer_fft_is(ops, buffer@, spectrum),
{
    let length: usize = fft_length(buffer.len());
    let signal: Vec<u64> = pad(buffer, length, ops);
    let ghost padded = signal;
    let spectrum: Vec<Complex> = ops.forward(signal);
    assert(forward_is(ops, padded, spectrum));
    spectrum
}

/// The length of the signal to which a half spectrum belongs.
pub open spec fn signal_length(spectrum_length: int) -> int {
    (spectrum_length - 1) * 2
}

/// The spectrum of a response tells how long the transform was.
pub proof fn lemma_spectrum_tells_length<A: DoubleArithmetic + Transform>(
    ops: &A,
    response: Seq<u32>,
    spectrum: Vec<Complex>,
)
    requires
        0 < response.len(),
        gives_half_spectra(ops),
        buffer_fft_is(ops, response, spectrum),
    ensures
        signal_length(spectrum@.len() as int) == transform_length(response.len() as int),
{
    lemma_transform_length(response.len() as int);
}

/// The products of the elements of two spectra, in pairs, may be `r`.
pub open spec fn spectrum_product_is<T: Transform>(
    ops: &T,
    a: Seq<Complex>,
    b: Seq<Complex>,
    r: Seq<Complex>,
) -> bool {
    &&& r.len() == if a.len() < b.len() {
        a.len()
    } else {
        b.len()
    }
    &&& forall|i: int|
        0 <= i < r.len() ==> complex_product_is(ops, a[i], b[i], #[trigger] r[i])
}

/// Dividing some numbers by `divisor` may give `r`.
pub open spec fn quotients_are<A: DoubleArithmetic>(
    ops: &A,
    numbers: Seq<u64>,
    divisor: u64,
    r: Seq<u64>,
) -> bool {
    &&& r.len() == numbers.len()
    &&& forall|i: int|
        0 <= i < r.len() ==> double_quotient_is(ops, numbers[i], divisor, #[trigger] r[i])
}

/// The convolution of some samples with a response, of which the spectrum is given, may come to
/// `r`: the inverse transform of the product of the two spectra.
pub open spec fn linear_convolution_is<A: DoubleArithmetic + Transform>(
    ops: &A,
    input: Seq<u32>,
    response: Seq<Complex>,
    r: Seq<u64>,
) -> bool {
    let length = signal_length(response.len() as int);
    exists|
        signal: Vec<u64>,
        spectrum: Vec<Complex>,
        product: Vec<Complex>,
        raw: Vec<u64>,
        divisor: u64,
    |
        {
            &&& padded_is(ops, input, length, signal@)
            &&& #[trigger] forward_is(ops, signal, spectrum)
            &&& spectrum_product_is(ops, spectrum@, response, product@)
            &&& #[trigger] inverse_is(ops, product, length as usize, raw)
            &&& #[trigger] double_number_is(ops, length as usize, divisor)
            &&& quotients_are(ops, raw@, divisor, r)
        }
}

/// The convolution of a block with a response has the length of the transform, which has room for
/// all of it: nothing of the end wraps around to the beginning.
pub proof fn lemma_convolution_has_room<A: DoubleArithmetic + Transform>(
    ops: &A,
    input: Seq<u32>,
    response: Seq<u32>,
    spectrum: Vec<Complex>,
    r: Seq<u64>,
)
    requires
        0 < response.len(),
        transform_length(response.len() as int) <= usize::MAX,
        gives_half_spectra(ops),
        gives_asked_length(ops),
        buffer_fft_is(ops, response, spectrum),
        linear_convolution_is(ops, input, spectrum@, r),
    ensures
        r.len() == 2 * (spectrum@.len() - 1),
        r.len() >= FRAMES_PER_BLOCK_USIZE + response.len() - 1,
{
    lemma_spectrum_tells_length(ops, response, spectrum);
    lemma_transform_length(response.len() as int);
}

/// The convolution of some samples with a response, of which the spectrum is given.
pub fn linear_convolution<A: DoubleArithmetic + Transform>(
    input: &Vec<u32>,
    impulse_response_fft: &Vec<Complex>,
    ops: &A,
) -> (r: Vec<u64>)
    requires
        impulse_response_fft@.len() > 0,
        signal_length(impulse_response_fft@.len() as int) <= usize::MAX,
    ensures
        linear_convolution_is(ops, input@, impulse_response_fft@, r@),
        gives_asked_length(ops) ==> r@.len() == signal_length(impulse_response_fft@.len() as int),
{
    let length: usize = (impulse_response_fft.len() - 1) * 2;
    let signal: Vec<u64> = pad(input, length, ops);
    let ghost padded = signal;
    let spectrum: Vec<Complex> = ops.forward(signal);
    let mut product: Vec<Complex> = Vec::new();
    let mut i: usize = 0;
    while i < spectrum.len() && i < impulse_response_fft.len()
        invariant
            i <= spectrum@.len(),
            i <= impulse_response_fft@.len(),
            product@.len() == i,
            forall|j: int|
                0 <= j < i ==> complex_product_is(
                    ops,
                    spectrum@[j],
                    impulse_response_fft@[j],
                    #[trigger] product@[j],
                ),
        decreases spectrum@.len() - i,
    {
        product.push(ops.complex_product(spectrum[i], impulse_response_fft[i]));
        i += 1;
    }
    let ghost multiplied = product;
    let raw: Vec<u64> = ops.inverse(product, length);
    let divisor: u64 = ops.double_number(length);
    let mut convolution: Vec<u64> = Vec::new();
    let mut k: usize = 0;
    while k < raw.len()
        invariant
            k <= raw@.len(),
            convolution@.len() == k,
            forall|j: int|
                0 <= j < k ==> double_quotient_is(
                    ops,
                    raw@[j],
                    divisor,
                    #[trigger] convolution@[j],
                ),
        decreases raw@.len() - k,
    {
        convolution.push(ops.double_quotient(raw[k], divisor));
        k += 1;
    }
    proof {
        assert(forward_is(ops, padded, spectrum));
        assert(inverse_is(ops, multiplied, length, raw));
        assert(double_number_is(ops, length, divisor));
        assert(spectrum_product_is(ops, spectrum@, impulse_response_fft@, multiplied@));
        assert(quotients_are(ops, raw@, divisor, convolution@));
    }
    convolution
}

/// Which input channel meets which channel of the response, in the order of the output. There is
/// an answer for a mono or stereo input, and for a response that is mono, stereo, or a matrix of
/// four channels for true stereo.
pub open spec fn routes(input_channels: u8, response_channels: u8) -> Option<Seq<(u8, usize)>> {
    match (input_channels, response_channels) {
        (1u8, 1u8) => Some(seq![(0u8, 0usize)]),
        (1u8, 2u8) => Some(seq![(0u8, 0usize), (0u8, 1usize)]),
        (2u8, 1u8) => Some(seq![(0u8, 0usize), (1u8, 0usize)]),
        (2u8, 2u8) => Some(seq![(0u8, 0usize), (1u8, 1usize)]),
        (2u8, 4u8) => Some(seq![(0u8, 0usize), (0u8, 1usize), (1u8, 2usize), (1u8, 3usize)]),
        (1u8, 4u8) => Some(seq![(0u8, 0usize), (0u8, 1usize), (0u8, 2usize), (0u8, 3usize)]),
        _ => None,
    }
}

/// A route uses channels that the input and the response have, and every mono or stereo input
/// can be routed to every response of one, two or four channels.
pub proof fn lemma_routes(input_channels: u8, response_channels: u8)
    ensures
        routes(input_channels, response_channels) is Some <==> (input_channels == 1
            || input_channels == 2) && (response_channels == 1 || response_channels == 2
            || response_channels == 4),
        routes(input_channels, response_channels) matches Some(list) ==> (forall|i: int|
            0 <= i < list.len() ==> (#[trigger] list[i]).0 < input_channels && list[i].1
                < response_channels),
        routes(input_channels, response_channels) matches Some(list) ==> list.len()
            == if response_channels < input_channels {
            input_channels
        } else {
            response_channels
        },
{
}

/// Which input channel meets which channel of the response.
pub fn route(input_channels: u8, response_channels: u8) -> (r: Option<Vec<(u8, usize)>>)
    ensures
        match r {
            Some(list) => routes(input_channels, response_channels) == Some(list@),
            None => routes(input_channels, response_channels) is None,
        },
{
    let list: Vec<(u8, usize)> = match (input_channels, response_channels) {
        (1, 1) => vec![(0u8, 0usize)],
        (1, 2) => vec![(0u8, 0usize), (0u8, 1usize)],
        (2, 1) => vec![(0u8, 0usize), (1u8, 0usize)],
        (2, 2) => vec![(0u8, 0usize), (1u8, 1usize)],
        (2, 4) => vec![(0u8, 0usize), (0u8, 1usize), (1u8, 2usize), (1u8, 3usize)],
        (1, 4) => vec![(0u8, 0usize), (0u8, 1usize), (0u8, 2usize), (0u8, 3usize)],
        _ => {
            return None;
        },
    };
    assert(list@ =~= routes(input_channels, response_channels)->0);
    Some(list)
}

/// The convolution of some samples with a response may come to `r`, in single precision.
pub open spec fn convolved_is<A: DoubleArithmetic + Transform>(
    ops: &A,
    input: Seq<u32>,
    response: Seq<Complex>,
    r: Seq<u32>,
) -> bool {
    exists|wide: Seq<u64>|
        {
            &&& #[trigger] linear_convolution_is(ops, input, response, wide)
            &&& r.len() == wide.len()
            &&& forall|i: int| 0 <= i < r.len() ==> narrow_is(ops, wide[i], #[trigger] r[i])
        }
}

/// Appending the convolution along one more route to `before` may give `after`.
pub open spec fn route_added_is<A: DoubleArithmetic + Transform>(
    ops: &A,
    before: Seq<u32>,
    block: Block,
    spectra: Seq<Vec<Complex>>,
    last: (u8, usize),
    after: Seq<u32>,
) -> bool {
    exists|convolved: Seq<u32>|
        #[trigger] convolved_is(
            ops,
            block.channel(last.0 as int),
            spectra[last.1 as int]@,
            convolved,
        ) && after == before + convolved
}

/// The convolutions along some routes, one after the other, may come to `r`.
pub open spec fn routed_is<A: DoubleArithmetic + Transform>(
    ops: &A,
    block: Block,
    spectra: Seq<Vec<Complex>>,
    list: Seq<(u8, usize)>,
    r: Seq<u32>,
) -> bool
    decreases list.len(),
{
    if list.len() == 0 {
        r == Seq::<u32>::empty()
    } else {
        exists|before: Seq<u32>|
            routed_is(ops, block, spectra, list.drop_last(), before) && #[trigger] route_added_is(
                ops,
                before,
                block,
                spectra,
                list.last(),
                r,
            )
    }
}

/// The convolution of some samples with a response, in single precision.
fn convolve<A: DoubleArithmetic + Transform>(
    input: &Vec<u32>,
    response: &Vec<Complex>,
    ops: &A,
) -> (r: Vec<u32>)
    requires
        response@.len() > 0,
        signal_length(response@.len() as int) <= usize::MAX,
    ensures
        convolved_is(ops, input@, response@, r@),
{
    let wide: Vec<u64> = linear_convolution(input, response, ops);
    let mut narrow: Vec<u32> = Vec::new();
    let mut i: usize = 0;
    while i < wide.len()
        invariant
            i <= wide@.len(),
            narrow@.len() == i,
            forall|j: int| 0 <= j < i ==> narrow_is(ops, wide@[j], #[trigger] narrow@[j]),
        decreases wide@.len() - i,
    {
        narrow.push(ops.narrow(wide[i]));
        i += 1;
    }
    assert(linear_convolution_is(ops, input@, response@, wide@));
    narrow
}

/// The convolutions along some routes, one after the other.
fn convolve_routes<A: DoubleArithmetic + Transform>(
    block: &Block,
    spectra: &Vec<Vec<Complex>>,
    list: &Vec<(u8, usize)>,
    ops: &A,
) -> (output: Vec<u32>)
    requires
        forall|i: int| 0 <= i < list@.len() ==> (#[trigger] list@[i]).1 < spectra@.len(),
        forall|i: int|
            0 <= i < spectra@.len() ==> (#[trigger] spectra@[i])@.len() > 0 && signal_length(
                spectra@[i]@.len() as int,
            ) <= usize::MAX,
    ensures
        routed_is(ops, *block, spectra@, list@, output@),
{
    let mut output: Vec<u32> = Vec::new();
    let mut i: usize = 0;
    while i < list.len()
        invariant
            i <= list@.len(),
            forall|j: int| 0 <= j < list@.len() ==> (#[trigger] list@[j]).1 < spectra@.len(),
            forall|j: int|
                0 <= j < spectra@.len() ==> (#[trigger] spectra@[j])@.len() > 0 && signal_length(
                    spectra@[j]@.len() as int,
                ) <= usize::MAX,
            routed_is(ops, *block, spectra@, list@.take(i as int), output@),
        decreases list@.len() - i,
    {
        let (channel, response): (u8, usize) = list[i];
        let ghost before = output@;
        let mut convolved: Vec<u32> = convolve(
            &block.data_chan(channel),
            &spectra[response],
            ops,
        );
        let ghost added = convolved@;
        output.append(&mut convolved);
        proof {
            assert(list@.take(i + 1).drop_last() =~= list@.take(i as int));
            assert(output@ =~= before + added);
            assert(convolved_is(
                ops,
                block.channel(list@[i as int].0 as int),
                spectra@[list@[i as int].1 as int]@,
                added,
            ));
            assert(route_added_is(
                ops,
                before,
                *block,
                spectra@,
                list@.take(i + 1).last(),
                output@,
            ));
        }
        i += 1;
    }
    assert(list@.take(i as int) =~= list@);
    output
}

/// A sample times a factor of double precision may come to `r`.
pub open spec fn scaled_sample_is<A: DoubleArithmetic>(
    ops: &A,
    sample: u32,
    scale: u64,
    r: u32,
) -> bool {
    exists|wide: u64, product: u64|
        #[trigger] widen_is(ops, sample, wide) && #[trigger] double_product_is(
            ops,
            wide,
            scale,
            product,
        ) && narrow_is(ops, product, r)
}

/// Some samples, each times a factor, may come to `r`. Without a factor they stay.
pub open spec fn scaled_samples_are<A: DoubleArithmetic>(
    ops: &A,
    samples: Seq<u32>,
    scale: Option<u64>,
    r: Seq<u32>,
) -> bool {
    match scale {
        Some(factor) => {
            &&& r.len() == samples.len()
            &&& forall|i: int|
                0 <= i < r.len() ==> scaled_sample_is(ops, samples[i], factor, #[trigger] r[i])
        },
        None => r == samples,
    }
}

/// Some samples, each times a factor.
fn scale_samples<A: DoubleArithmetic>(samples: Vec<u32>, scale: u64, ops: &A) -> (r: Vec<u32>)
    ensures
        scaled_samples_are(ops, samples@, Some(scale), r@),
{
    let mut scaled: Vec<u32> = Vec::new();
    let mut i: usize = 0;
    while i < samples.len()
        invariant
            i <= samples@.len(),
            scaled@.len() == i,
            forall|j: int|
                0 <= j < i ==> scaled_sample_is(ops, samples@[j], scale, #[trigger] scaled@[j]),
        decreases samples@.len() - i,
    {
        let wide: u64 = ops.widen(samples[i]);
        let product: u64 = ops.double_product(wide, scale);
        assert(widen_is(ops, samples@[i as int], wide));
        assert(double_product_is(ops, wide, scale, product));
        scaled.push(ops.narrow(product));
        i += 1;
    }
    scaled
}

/// `spectra` may be what the transform gives for the channels of a response.
pub open spec fn spectra_are<A: DoubleArithmetic + Transform>(
    ops: &A,
    response: AudioBuffer,
    spectra: Vec<Vec<Complex>>,
) -> bool {
    &&& spectra@.len() == response.buffers@.len()
    &&& forall|i: int|
        0 <= i < spectra@.len() ==> buffer_fft_is(
            ops,
            response.buffers@[i]@,
            #[trigger] spectra@[i],
        )
}

/// Whether each spectrum is half of the whole, with the middle, for its channel of the response.
pub open spec fn are_half_spectra(response: AudioBuffer, spectra: Seq<Vec<Complex>>) -> bool {
    &&& spectra.len() == response.buffers@.len()
    &&& forall|i: int|
        0 <= i < spectra.len() ==> (#[trigger] spectra[i])@.len() == transform_length(
            response.buffers@[i]@.len() as int,
        ) / 2 + 1
}

/// `kept` may be the spectra that a node keeps for a response: those that the transform gives,
/// unless one of them is not half of the whole, and none without a response.
pub open spec fn spectra_for<A: DoubleArithmetic + Transform>(
    ops: &A,
    buffer: Option<AudioBuffer>,
    kept: Option<Vec<Vec<Complex>>>,
) -> bool {
    match buffer {
        Some(response) => exists|spectra: Vec<Vec<Complex>>| #[trigger]
            spectra_are(ops, response, spectra) && kept == if are_half_spectra(
                response,
                spectra@,
            ) {
                Some(spectra)
            } else {
                None
            },
        None => kept is None,
    }
}

/// With a transform that gives half spectra, a node keeps the spectra of every response.
pub proof fn lemma_spectra_are_kept<A: DoubleArithmetic + Transform>(
    ops: &A,
    response: AudioBuffer,
    kept: Option<Vec<Vec<Complex>>>,
)
    requires
        gives_half_spectra(ops),
        transformable(response),
        spectra_for(ops, Some(response), kept),
    ensures
        kept matches Some(spectra) && spectra_are(ops, response, spectra),
{
    let spectra = choose|spectra: Vec<Vec<Complex>>| #[trigger]
        spectra_are(ops, response, spectra) && kept == if are_half_spectra(response, spectra@) {
            Some(spectra)
        } else {
            None
        };
    assert forall|i: int| 0 <= i < spectra@.len() implies (#[trigger] spectra@[i])@.len()
        == transform_length(response.buffers@[i]@.len() as int) / 2 + 1 by {
        lemma_spectrum_tells_length(ops, response.buffers@[i]@, spectra@[i]);
    }
}

/// Whether the channels of a response can be transformed: none is empty or too long.
pub open spec fn transformable(response: AudioBuffer) -> bool {
    forall|i: int|
        0 <= i < response.buffers@.len() ==> (#[trigger] response.buffers@[i])@.len() > 0
            && transform_length(response.buffers@[i]@.len() as int) <= usize::MAX
}

/// The spectra of the channels of a response.
fn response_spectra<A: DoubleArithmetic + Transform>(response: &AudioBuffer, ops: &A) -> (spectra:
    Vec<Vec<Complex>>)
    requires
        transformable(*response),
    ensures
        spectra_are(ops, *response, spectra),
{
    let mut spectra: Vec<Vec<Complex>> = Vec::new();
    let mut i: usize = 0;
    while i < response.buffers.len()
        invariant
            i <= response.buffers@.len(),
            transformable(*response),
            spectra@.len() == i,
            forall|j: int|
                0 <= j < i ==> buffer_fft_is(
                    ops,
                    response.buffers@[j]@,
                    #[trigger] spectra@[j],
                ),
        decreases response.buffers@.len() - i,
    {
        spectra.push(calculate_buffer_fft(&response.buffers[i], ops));
        i += 1;
    }
    spectra
}

/// Whether each spectrum is half of the whole, with the middle, for its channel of the response.
fn check_half_spectra(response: &AudioBuffer, spectra: &Vec<Vec<Complex>>) -> (r: bool)
    requires
        transformable(*response),
        spectra@.len() == response.buffers@.len(),
    ensures
        r == are_half_spectra(*response, spectra@),
{
    let mut i: usize = 0;
    while i < spectra.len()
        invariant
            i <= spectra@.len(),
            transformable(*response),
            spectra@.len() == response.buffers@.len(),
            forall|j: int|
                0 <= j < i ==> (#[trigger] spectra@[j])@.len() == transform_length(
                    response.buffers@[j]@.len() as int,
                ) / 2 + 1,
        decreases spectra@.len() - i,
    {
        let length: usize = fft_length(response.buffers[i].len());
        if spectra[i].len() != length / 2 + 1 {
            assert(spectra@[i as int]@.len() != length / 2 + 1);
            return false;
        }
        i += 1;
    }
    true
}

/// The number of samples that the convolutions along some routes come to.
pub open spec fn routed_length(response: AudioBuffer, list: Seq<(u8, usize)>) -> int
    decreases list.len(),
{
    if list.len() == 0 {
        0
    } else {
        routed_length(response, list.drop_last()) + transform_length(
            response.buffers@[list.last().1 as int]@.len() as int,
        )
    }
}

/// Where all channels of a response have the same length, each route comes to as many blocks.
pub proof fn lemma_routed_length(response: AudioBuffer, list: Seq<(u8, usize)>, length: int)
    requires
        forall|i: int|
            0 <= i < response.buffers@.len() ==> (#[trigger] response.buffers@[i])@.len()
                == length,
        forall|i: int| 0 <= i < list.len() ==> (#[trigger] list[i]).1 < response.buffers@.len(),
    ensures
        routed_length(response, list) == list.len() * transform_length(length),
    decreases list.len(),
{
    if list.len() > 0 {
        let before = list.drop_last();
        assert forall|i: int| 0 <= i < before.len() implies (#[trigger] before[i]).1
            < response.buffers@.len() by {
            assert(before[i] == list[i]);
        }
        lemma_routed_length(response, before, length);
        assert(list.last() == list[list.len() - 1]);
        let one = transform_length(length);
        assert((list.len() - 1) * one + one == list.len() * one) by (nonlinear_arith);
    }
}

/// The convolutions along some routes have as many samples as `routed_length` says.
proof fn lemma_routed_has_length<A: DoubleArithmetic + Transform>(
    ops: &A,
    block: Block,
    response: AudioBuffer,
    spectra: Seq<Vec<Complex>>,
    list: Seq<(u8, usize)>,
    r: Seq<u32>,
)
    requires
        gives_asked_length(ops),
        transformable(response),
        are_half_spectra(response, spectra),
        forall|i: int| 0 <= i < list.len() ==> (#[trigger] list[i]).1 < spectra.len(),
        routed_is(ops, block, spectra, list, r),
    ensures
        r.len() == routed_length(response, list),
    decreases list.len(),
{
    if list.len() > 0 {
        let last = list.last();
        assert(last == list[list.len() - 1]);
        let before = choose|before: Seq<u32>|
            routed_is(ops, block, spectra, list.drop_last(), before) && #[trigger] route_added_is(
                ops,
                before,
                block,
                spectra,
                last,
                r,
            );
        assert forall|i: int| 0 <= i < list.drop_last().len() implies (
        #[trigger] list.drop_last()[i]).1 < spectra.len() by {
            assert(list.drop_last()[i] == list[i]);
        }
        lemma_routed_has_length(ops, block, response, spectra, list.drop_last(), before);
        let spectrum = spectra[last.1 as int];
        let convolved = choose|convolved: Seq<u32>|
            #[trigger] convolved_is(ops, block.channel(last.0 as int), spectrum@, convolved) && r
                == before + convolved;
        let wide = choose|wide: Seq<u64>|
            {
                &&& #[trigger] linear_convolution_is(
                    ops,
                    block.channel(last.0 as int),
                    spectrum@,
                    wide,
                )
                &&& convolved.len() == wide.len()
            };
        let channel_length = response.buffers@[last.1 as int]@.len() as int;
        assert(spectrum@.len() == transform_length(channel_length) / 2 + 1);
        lemma_transform_length(channel_length);
        assert(signal_length(spectrum@.len() as int) == transform_length(channel_length));
    }
}

/// A node that applies the response of a room, or of a device, to its input.
#[derive(Debug)]
pub struct ConvolverNode {
    pub channel_info: ChannelInfo,
    pub buffer: Option<AudioBuffer>,
    pub normalize: bool,
    pub normalization_scale: Option<u64>,
    pub buffer_ffts: Option<Vec<Vec<Complex>>>,
}

/// Whether a node has a response, its spectra, and a route for an input of so many channels.
pub open spec fn can_convolve(node: ConvolverNode, input_channels: u8) -> bool {
    &&& node.buffer matches Some(response)
    &&& node.buffer_ffts is Some
    &&& routes(input_channels, response.channel_count() as u8) is Some
}

/// `output` may be what a convolver node makes of a block.
pub open spec fn convolver_output<A: DoubleArithmetic + Transform>(
    ops: &A,
    node: ConvolverNode,
    block: Block,
    output: Seq<Block>,
) -> bool {
    let list = routes(block.channels, node.buffer->0.channel_count() as u8)->0;
    let scale = if node.normalize {
        node.normalization_scale
    } else {
        None
    };
    exists|samples: Seq<u32>|
        {
            &&& #[trigger] routed_is(ops, block, node.buffer_ffts->0@, list, samples)
            &&& output.len() == 1
            &&& scaled_samples_are(ops, samples, scale, output[0].buffer@)
            &&& output[0].channels == (output[0].buffer@.len() / FRAMES_PER_BLOCK_USIZE as nat)
                % 256
        }
}

/// `output` may be what a convolver node puts out: without a response, and for an input that it
/// has no route for, the input as it came.
pub open spec fn processed<A: DoubleArithmetic + Transform>(
    ops: &A,
    node: ConvolverNode,
    inputs: Seq<Block>,
    output: Seq<Block>,
) -> bool {
    if can_convolve(node, inputs[0].channels) {
        convolver_output(ops, node, inputs[0], output)
    } else {
        output == inputs
    }
}

impl ConvolverNode {
    /// Whether the spectra, if there are some, are those of channels like the ones of the
    /// response.
    pub open spec fn wf(self) -> bool {
        self.buffer matches Some(response) ==> self.buffer_ffts matches Some(spectra)
            ==> transformable(response) && are_half_spectra(response, spectra@)
    }

    /// A convolver without spectra. It puts out what it gets until it is told a response.
    pub fn new<A: DoubleArithmetic>(
        options: ConvolverNodeOptions,
        channel_info: ChannelInfo,
        ops: &A,
    ) -> (r: ConvolverNode)
        requires
            options.normalize ==> (options.buffer matches Some(response)
                ==> response.buffers@.len() > 0),
        ensures
            r.wf(),
            r.channel_info == channel_info,
            r.buffer == options.buffer,
            r.normalize == options.normalize,
            scale_for(ops, options.buffer, options.normalize, r.normalization_scale),
            r.buffer_ffts is None,
    {
        let normalization_scale: Option<u64> = calculate_normalization_scale(
            &options.buffer,
            options.normalize,
            ops,
        );
        ConvolverNode {
            channel_info,
            buffer: options.buffer,
            normalize: options.normalize,
            normalization_scale,
            buffer_ffts: None,
        }
    }

    /// Takes over a response, or whether it is to be normalized. The factor that normalizes the
    /// response is computed when the response comes, and not again. Where the transform gives
    /// something else than half spectra, none are kept.
    pub fn handle_convolver_message<A: DoubleArithmetic + Transform>(
        &mut self,
        message: ConvolverNodeMessage,
        ops: &A,
    )
        requires
            message matches ConvolverNodeMessage::SetBuffer(Some(response)) ==> {
                &&& old(self).normalize ==> response.buffers@.len() > 0
                &&& transformable(response)
            },
            old(self).wf(),
        ensures
            final(self).wf(),
            final(self).channel_info == old(self).channel_info,
            match message {
                ConvolverNodeMessage::SetBuffer(buffer) => {
                    &&& final(self).buffer == buffer
                    &&& final(self).normalize == old(self).normalize
                    &&& scale_for(
                        ops,
                        buffer,
                        old(self).normalize,
                        final(self).normalization_scale,
                    )
                    &&& spectra_for(ops, buffer, final(self).buffer_ffts)
                },
                ConvolverNodeMessage::SetNormalize(normalize) => *final(self) == (ConvolverNode {
                    normalize,
                    ..*old(self)
                }),
            },
    {
        match message {
            ConvolverNodeMessage::SetBuffer(buffer) => {
                let normalization_scale: Option<u64> = calculate_normalization_scale(
                    &buffer,
                    self.normalize,
                    ops,
                );
                let buffer_ffts: Option<Vec<Vec<Complex>>> = match &buffer {
                    Some(response) => {
                        let spectra: Vec<Vec<Complex>> = response_spectra(response, ops);
                        assert(spectra_are(ops, *response, spectra));
                        if check_half_spectra(response, &spectra) {
                            Some(spectra)
                        } else {
                            None
                        }
                    },
                    None => None,
                };
                self.buffer = buffer;
                self.normalization_scale = normalization_scale;
                self.buffer_ffts = buffer_ffts;
            },
            ConvolverNodeMessage::SetNormalize(normalize) => {
                self.normalize = normalize;
            },
        }
    }

    /// The kind of this node.
    pub fn node_type(&self) -> (r: AudioNodeType)
        ensures
            r == AudioNodeType::ConvolverNode,
    {
        AudioNodeType::ConvolverNode
    }

    /// Applies the response to a block. Without a response, and for an input that it has no route
    /// for, the input is put out as it came.
    pub fn process<A: DoubleArithmetic + Transform>(&self, inputs: Chunk, ops: &A) -> (output:
        Chunk)
        requires
            inputs@.len() == 1,
            self.wf(),
        ensures
            processed(ops, *self, inputs@, output@),
            gives_asked_length(ops) && can_convolve(*self, inputs@[0].channels)
                ==> output@[0].buffer@.len() == routed_length(
                self.buffer->0,
                routes(inputs@[0].channels, self.buffer->0.channel_count() as u8)->0,
            ),
    {
        let Some(buffer) = self.buffer.as_ref() else {
            return inputs;
        };
        let Some(buffer_ffts) = self.buffer_ffts.as_ref() else {
            return inputs;
        };
        let input_block = inputs.block(0);
        let Some(list) = route(input_block.chan_count(), buffer.chans()) else {
            return inputs;
        };
        proof {
            lemma_routes(input_block.channels, buffer.channel_count() as u8);
            assert forall|i: int| 0 <= i < buffer_ffts@.len() implies (#[trigger] buffer_ffts@[
                i
            ])@.len() > 0 && signal_length(buffer_ffts@[i]@.len() as int) <= usize::MAX by {
                assert(buffer.buffers@[i]@.len() > 0);
                lemma_transform_length(buffer.buffers@[i]@.len() as int);
            }
        }
        let mut convolution_output: Vec<u32> = convolve_routes(
            input_block,
            buffer_ffts,
            &list,
            ops,
        );
        proof {
            assert(routed_is(ops, inputs@[0], buffer_ffts@, list@, convolution_output@));
            if gives_asked_length(ops) {
                lemma_routed_has_length(
                    ops,
                    inputs@[0],
                    *buffer,
                    buffer_ffts@,
                    list@,
                    convolution_output@,
                );
            }
        }
        if self.normalize {
            if let Some(normalization_scale) = self.normalization_scale {
                convolution_output = scale_samples(convolution_output, normalization_scale, ops);
            }
        }
        let mut chunk = Chunk::default();
        chunk.push(Block::for_vec(convolution_output));
        chunk
    }
}

} // verus!
