//! What the power of a response and the factor that normalizes it are worth.
//!
//! Values of single precision are on the scale of `binary::scaled`, those of double precision on
//! that of `binary::double_scaled`, where `double_one()` stands for one.
use crate::arithmetic::{
    double_number_is, double_product_is, double_quotient_is, double_sum_is, square_is,
    square_root_is, widen_is, DoubleArithmetic,
};
use crate::audio_buffer::AudioBuffer;
use crate::binary::{double_not_a_number, double_scaled, scaled, scaled_one};
use crate::convolver_node::{
    channel_added_is, channel_power_is, clamped_power, rms_power_is, sample_power_is, scale_for,
    scale_is, total_power_is, DOUBLE_HALF, DOUBLE_ONE, GAIN_CALIBRATION,
    GAIN_CALIBRATION_SAMPLE_RATE, MIN_POWER,
};
use crate::rounding::{
    double_faithful, double_finite, double_one, faithful_powers, finite, lemma_double_exact,
    lemma_exact, lemma_representable, lemma_same_double_value, lemma_value_of_double_bits, widening,
};
use vstd::arithmetic::power2::{lemma2_to64, lemma2_to64_rest, lemma_pow2_adds, lemma_pow2_pos, pow2};
use vstd::prelude::*;

verus! {

/// `2^776`, by which the scale of `double_scaled` is finer than that of squares of `scaled`.
pub open spec fn squaring() -> int {
    pow2(776) as int
}

/// The sum of the squares of the first `count` samples.
pub open spec fn sum_of_squares(samples: Seq<u32>, count: int) -> int
    decreases count,
{
    if count <= 0 {
        0
    } else {
        sum_of_squares(samples, count - 1) + scaled(samples[count - 1]) * scaled(samples[count - 1])
    }
}

/// The sum of the squares of all samples of the first `count` channels.
pub open spec fn sum_over_channels(channels: Seq<Vec<u32>>, count: int) -> int
    decreases count,
{
    if count <= 0 {
        0
    } else {
        sum_over_channels(channels, count - 1) + sum_of_squares(
            channels[count - 1]@,
            channels[count - 1]@.len() as int,
        )
    }
}

/// Whether a value is a `binary64` number.
pub open spec fn is_double(value: int) -> bool {
    exists|x: u64| #[trigger] double_finite(x) && double_scaled(x) == value
}

/// Whether the square of every sample is a number of single precision.
pub open spec fn squares_are_exact(samples: Seq<u32>) -> bool {
    forall|i: int|
        0 <= i < samples.len() ==> finite(#[trigger] samples[i]) && exists|q: u32| #[trigger]
            finite(q) && scaled(q) * scaled_one() == scaled(samples[i]) * scaled(samples[i])
}

/// Whether the sums of the squares of the samples, from the first one on, are numbers.
pub open spec fn sums_are_exact(samples: Seq<u32>) -> bool {
    forall|count: int|
        0 <= count <= samples.len() ==> is_double(
            #[trigger] sum_of_squares(samples, count) * squaring(),
        )
}

proof fn lemma_scales()
    ensures
        widening() == squaring() * scaled_one(),
        0 < squaring(),
        0 < scaled_one(),
        0 < double_one(),
        0 < widening(),
{
    lemma_pow2_adds(776, 149);
    lemma_pow2_pos(776);
    lemma_pow2_pos(149);
    lemma_pow2_pos(1074);
    lemma_pow2_pos(925);
}

/// Adding the square of a sample to `before` may give `after`.
pub open spec fn square_added<A: DoubleArithmetic>(
    ops: &A,
    before: u64,
    sample: u32,
    after: u64,
) -> bool {
    exists|squared: u32, wide: u64|
        #[trigger] square_is(ops, sample, squared) && #[trigger] widen_is(ops, squared, wide)
            && double_sum_is(ops, before, wide, after)
}

/// Each sample of a channel adds its square, from the first to the last: `partial[i]` is the sum
/// before the sample `i`.
pub proof fn lemma_every_sample_counts<A: DoubleArithmetic>(
    ops: &A,
    samples: Seq<u32>,
    power: u64,
) -> (partial: Seq<u64>)
    requires
        channel_power_is(ops, samples, power),
    ensures
        partial.len() == samples.len() + 1,
        partial[0] == 0,
        partial[samples.len() as int] == power,
        forall|i: int|
            0 <= i < samples.len() ==> square_added(
                ops,
                partial[i],
                #[trigger] samples[i],
                partial[i + 1],
            ),
    decreases samples.len(),
{
    if samples.len() == 0 {
        seq![power]
    } else {
        let rest = samples.drop_last();
        let before = choose|before: u64|
            channel_power_is(ops, rest, before) && #[trigger] sample_power_is(
                ops,
                before,
                samples.last(),
                power,
            );
        let earlier = lemma_every_sample_counts(ops, rest, before);
        let partial = earlier.push(power);
        assert forall|i: int| 0 <= i < samples.len() implies square_added(
            ops,
            partial[i],
            #[trigger] samples[i],
            partial[i + 1],
        ) by {
            if i < rest.len() {
                assert(rest[i] == samples[i]);
                assert(partial[i] == earlier[i] && partial[i + 1] == earlier[i + 1]);
            } else {
                assert(samples.last() == samples[i]);
                assert(partial[i] == before && partial[i + 1] == power);
                assert(sample_power_is(ops, before, samples[i], power));
            }
        }
        partial
    }
}

/// Where no step has to be rounded, the power of a channel is the sum of the squares of all of
/// its samples.
pub proof fn lemma_power_of_a_channel<A: DoubleArithmetic>(ops: &A, samples: Seq<u32>, power: u64)
    requires
        double_faithful(ops),
        faithful_powers(ops),
        channel_power_is(ops, samples, power),
        squares_are_exact(samples),
        sums_are_exact(samples),
    ensures
        double_finite(power),
        double_scaled(power) == sum_of_squares(samples, samples.len() as int) * squaring(),
{
    let partial = lemma_every_sample_counts(ops, samples, power);
    lemma_partial_sum(ops, samples, partial, samples.len() as int);
}

proof fn lemma_partial_sum<A: DoubleArithmetic>(
    ops: &A,
    samples: Seq<u32>,
    partial: Seq<u64>,
    count: int,
)
    requires
        double_faithful(ops),
        faithful_powers(ops),
        squares_are_exact(samples),
        sums_are_exact(samples),
        0 <= count <= samples.len(),
        partial.len() == samples.len() + 1,
        partial[0] == 0,
        forall|i: int|
            0 <= i < samples.len() ==> square_added(
                ops,
                partial[i],
                #[trigger] samples[i],
                partial[i + 1],
            ),
    ensures
        double_finite(partial[count]),
        double_scaled(partial[count]) == sum_of_squares(samples, count) * squaring(),
    decreases count,
{
    lemma_scales();
    if count == 0 {
        lemma_value_of_double_bits(0);
        assert(0 * squaring() == 0) by (nonlinear_arith);
    } else {
        let i = count - 1;
        lemma_partial_sum(ops, samples, partial, i);
        let sample = samples[i];
        assert(square_added(ops, partial[i], sample, partial[i + 1]));
        let (squared, wide) = choose|squared: u32, wide: u64|
            #[trigger] square_is(ops, sample, squared) && #[trigger] widen_is(ops, squared, wide)
                && double_sum_is(ops, partial[i], wide, partial[i + 1]);
        let s = scaled(sample) * scaled(sample);
        let q = choose|q: u32| #[trigger] finite(q) && scaled(q) * scaled_one() == s;
        lemma_exact(q, s, scaled_one(), squared);
        assert(double_scaled(wide) == s * squaring()) by (nonlinear_arith)
            requires
                double_scaled(wide) == scaled(q) * widening(),
                widening() == squaring() * scaled_one(),
                scaled(q) * scaled_one() == s,
        ;
        let before = sum_of_squares(samples, i);
        assert(before * squaring() + s * squaring() == (before + s) * squaring())
            by (nonlinear_arith);
        assert(is_double(sum_of_squares(samples, count) * squaring()));
        let x = choose|x: u64| #[trigger]
            double_finite(x) && double_scaled(x) == sum_of_squares(samples, count) * squaring();
        lemma_double_exact(x, double_scaled(partial[i]) + double_scaled(wide), 1, partial[count]);
    }
}

/// Each channel of a response adds the power of its samples, from the first to the last:
/// `partial[i]` is the sum before the channel `i`, and `powers[i]` its power.
pub proof fn lemma_every_channel_counts<A: DoubleArithmetic>(
    ops: &A,
    channels: Seq<Vec<u32>>,
    power: u64,
) -> (r: (Seq<u64>, Seq<u64>))
    requires
        total_power_is(ops, channels, power),
    ensures
        r.0.len() == channels.len() + 1,
        r.1.len() == channels.len(),
        r.0[0] == 0,
        r.0[channels.len() as int] == power,
        forall|i: int|
            0 <= i < channels.len() ==> channel_power_is(ops, (#[trigger] channels[i])@, r.1[i])
                && double_sum_is(ops, r.0[i], r.1[i], r.0[i + 1]),
    decreases channels.len(),
{
    if channels.len() == 0 {
        (seq![power], Seq::empty())
    } else {
        let rest = channels.drop_last();
        let last = channels.last();
        let before = choose|before: u64|
            total_power_is(ops, rest, before) && #[trigger] channel_added_is(
                ops,
                before,
                last@,
                power,
            );
        let added = choose|added: u64|
            #[trigger] channel_power_is(ops, last@, added) && double_sum_is(
                ops,
                before,
                added,
                power,
            );
        let earlier = lemma_every_channel_counts(ops, rest, before);
        let r = (earlier.0.push(power), earlier.1.push(added));
        assert forall|i: int| 0 <= i < channels.len() implies channel_power_is(
            ops,
            (#[trigger] channels[i])@,
            r.1[i],
        ) && double_sum_is(ops, r.0[i], r.1[i], r.0[i + 1]) by {
            if i < rest.len() {
                assert(rest[i] == channels[i]);
                assert(r.0[i] == earlier.0[i] && r.0[i + 1] == earlier.0[i + 1]);
                assert(r.1[i] == earlier.1[i]);
            } else {
                assert(channels[i] == last);
            }
        }
        r
    }
}

/// Whether no step in adding up the squares of all samples of all channels has to be rounded.
pub open spec fn power_is_exact(channels: Seq<Vec<u32>>) -> bool {
    &&& forall|i: int|
        0 <= i < channels.len() ==> squares_are_exact(#[trigger] channels[i]@) && sums_are_exact(
            channels[i]@,
        )
    &&& forall|count: int|
        0 <= count <= channels.len() ==> is_double(
            #[trigger] sum_over_channels(channels, count) * squaring(),
        )
}

/// Where no step has to be rounded, the power of a response is the sum of the squares of all
/// samples of all of its channels.
pub proof fn lemma_power_of_all_channels<A: DoubleArithmetic>(
    ops: &A,
    channels: Seq<Vec<u32>>,
    power: u64,
)
    requires
        double_faithful(ops),
        faithful_powers(ops),
        total_power_is(ops, channels, power),
        power_is_exact(channels),
    ensures
        double_finite(power),
        double_scaled(power) == sum_over_channels(channels, channels.len() as int) * squaring(),
    decreases channels.len(),
{
    lemma_scales();
    if channels.len() == 0 {
        lemma_value_of_double_bits(0);
        assert(0 * squaring() == 0) by (nonlinear_arith);
    } else {
        let rest = channels.drop_last();
        let last = channels.last();
        let count = channels.len() as int;
        let before = choose|before: u64|
            total_power_is(ops, rest, before) && #[trigger] channel_added_is(
                ops,
                before,
                last@,
                power,
            );
        assert forall|i: int| 0 <= i < rest.len() implies squares_are_exact(
            #[trigger] rest[i]@,
        ) && sums_are_exact(rest[i]@) by {
            assert(rest[i] == channels[i]);
        }
        assert forall|n: int| 0 <= n <= rest.len() implies is_double(
            #[trigger] sum_over_channels(rest, n) * squaring(),
        ) by {
            lemma_sum_of_prefix(channels, n);
            assert(is_double(sum_over_channels(channels, n) * squaring()));
        }
        lemma_power_of_all_channels(ops, rest, before);
        lemma_sum_of_prefix(channels, count - 1);
        let added = choose|added: u64|
            #[trigger] channel_power_is(ops, last@, added) && double_sum_is(
                ops,
                before,
                added,
                power,
            );
        assert(channels[count - 1] == last);
        lemma_power_of_a_channel(ops, last@, added);
        let (a, b) = (
            sum_over_channels(channels, count - 1),
            sum_of_squares(last@, last@.len() as int),
        );
        assert(a * squaring() + b * squaring() == (a + b) * squaring()) by (nonlinear_arith);
        assert(is_double(sum_over_channels(channels, count) * squaring()));
        let x = choose|x: u64| #[trigger]
            double_finite(x) && double_scaled(x) == sum_over_channels(channels, count) * squaring();
        lemma_double_exact(x, double_scaled(before) + double_scaled(added), 1, power);
    }
}

proof fn lemma_sum_of_prefix(channels: Seq<Vec<u32>>, n: int)
    requires
        0 <= n < channels.len(),
    ensures
        sum_over_channels(channels.drop_last(), n) == sum_over_channels(channels, n),
    decreases n,
{
    if n > 0 {
        lemma_sum_of_prefix(channels, n - 1);
        assert(channels.drop_last()[n - 1] == channels[n - 1]);
    }
}

/// The power of a response is the root of the mean of the squares of all samples of all channels,
/// where no step has to be rounded: `mean` and `root` are that mean and that root.
pub proof fn lemma_root_of_the_mean_square<A: DoubleArithmetic>(
    ops: &A,
    buffer: AudioBuffer,
    power: u64,
    mean: u64,
    root: u64,
)
    requires
        double_faithful(ops),
        faithful_powers(ops),
        rms_power_is(ops, buffer, power),
        0 < buffer.buffers@.len() < 256,
        0 < buffer.buffers@[0]@.len(),
        buffer.buffers@.len() * buffer.buffers@[0]@.len() < 0x20_0000_0000_0000,
        power_is_exact(buffer.buffers@),
        double_finite(mean),
        double_scaled(mean) * (buffer.buffers@.len() * buffer.buffers@[0]@.len())
            == sum_over_channels(buffer.buffers@, buffer.buffers@.len() as int) * squaring(),
        double_finite(root),
        0 <= double_scaled(root),
        double_scaled(root) * double_scaled(root) == double_scaled(mean) * double_one(),
    ensures
        double_finite(power),
        double_scaled(power) == double_scaled(root),
{
    lemma_scales();
    let one = double_one();
    let (c, l) = (buffer.buffers@.len() as int, buffer.buffers@[0]@.len() as int);
    let (total, channels, length, count, quotient) = choose|
        total: u64,
        channels: u64,
        length: u64,
        count: u64,
        mean: u64,
    |
        {
            &&& #[trigger] total_power_is(ops, buffer.buffers@, total)
            &&& #[trigger] double_number_is(ops, buffer.channel_count() as usize, channels)
            &&& #[trigger] double_number_is(ops, buffer.buffers@[0]@.len() as usize, length)
            &&& #[trigger] double_product_is(ops, channels, length, count)
            &&& #[trigger] double_quotient_is(ops, total, count, mean)
            &&& square_root_is(ops, mean, power)
        };
    lemma_power_of_all_channels(ops, buffer.buffers@, total);
    assert(c <= c * l && l <= c * l) by (nonlinear_arith)
        requires
            0 < c,
            0 < l,
    ;
    let x = lemma_representable(c, 1074);
    lemma_double_exact(x, c * one, 1, channels);
    let y = lemma_representable(l, 1074);
    assert(buffer.buffers@[0].len() == l);
    lemma_double_exact(y, l * one, 1, length);
    let z = lemma_representable(c * l, 1074);
    assert(((c * l) * one) * one == (c * one) * (l * one)) by (nonlinear_arith);
    lemma_double_exact(z, double_scaled(channels) * double_scaled(length), one, count);
    assert(0 < (c * l) * one) by (nonlinear_arith)
        requires
            0 < c,
            0 < l,
            0 < one,
    ;
    let sum = sum_over_channels(buffer.buffers@, c) * squaring();
    assert(double_scaled(mean) * ((c * l) * one) == sum * one) by (nonlinear_arith)
        requires
            double_scaled(mean) * (c * l) == sum,
    ;
    lemma_double_exact(mean, double_scaled(total) * one, double_scaled(count), quotient);
    assert(0 <= double_scaled(mean)) by (nonlinear_arith)
        requires
            double_scaled(root) * double_scaled(root) == double_scaled(mean) * one,
            0 < one,
    ;
    assert(double_finite(root));
    lemma_same_double_value(power, root);
}

/// The power of a response whose samples are all worth the same is that value, whatever its
/// length and its number of channels, where no step has to be rounded.
pub proof fn lemma_power_of_a_constant<A: DoubleArithmetic>(
    ops: &A,
    buffer: AudioBuffer,
    power: u64,
    length: int,
    value: int,
    mean: u64,
    root: u64,
)
    requires
        double_faithful(ops),
        faithful_powers(ops),
        rms_power_is(ops, buffer, power),
        0 < buffer.buffers@.len() < 256,
        0 < length,
        buffer.buffers@.len() * length < 0x20_0000_0000_0000,
        forall|i: int|
            0 <= i < buffer.buffers@.len() ==> (#[trigger] buffer.buffers@[i])@.len() == length,
        forall|i: int, j: int|
            0 <= i < buffer.buffers@.len() && 0 <= j < length ==> scaled(
                #[trigger] buffer.buffers@[i]@[j],
            ) == value,
        power_is_exact(buffer.buffers@),
        0 <= value,
        double_finite(mean),
        double_scaled(mean) == value * value * squaring(),
        double_finite(root),
        double_scaled(root) == value * widening(),
    ensures
        double_finite(power),
        double_scaled(power) == value * widening(),
{
    lemma_scales();
    let c = buffer.buffers@.len() as int;
    lemma_sum_of_a_constant(buffer.buffers@, c, length, value);
    assert(buffer.buffers@[0]@.len() == length);
    let square = value * value;
    assert((square * squaring()) * (c * length) == (c * length * square) * squaring())
        by (nonlinear_arith);
    lemma_pow2_adds(776, 149);
    lemma_pow2_adds(925, 149);
    let (w, one) = (widening(), double_one());
    assert(w * scaled_one() == one);
    assert((value * w) * (value * w) == (square * squaring()) * one) by (nonlinear_arith)
        requires
            w == squaring() * scaled_one(),
            w * scaled_one() == one,
            square == value * value,
    ;
    assert(0 <= value * w) by (nonlinear_arith)
        requires
            0 <= value,
            0 < w,
    ;
    lemma_root_of_the_mean_square(ops, buffer, power, mean, root);
}

proof fn lemma_sum_of_a_constant(channels: Seq<Vec<u32>>, count: int, length: int, value: int)
    requires
        0 <= count <= channels.len(),
        0 <= length,
        forall|i: int| 0 <= i < channels.len() ==> (#[trigger] channels[i])@.len() == length,
        forall|i: int, j: int|
            0 <= i < channels.len() && 0 <= j < length ==> scaled(#[trigger] channels[i]@[j])
                == value,
    ensures
        sum_over_channels(channels, count) == count * length * (value * value),
    decreases count,
{
    let square = value * value;
    if count > 0 {
        lemma_sum_of_a_constant(channels, count - 1, length, value);
        lemma_sum_of_a_constant_channel(channels[count - 1]@, length, value);
        assert(((count - 1) * length) * square + length * square == (count * length) * square)
            by (nonlinear_arith);
    } else {
        assert((0 * length) * square == 0) by (nonlinear_arith);
    }
}

proof fn lemma_sum_of_a_constant_channel(samples: Seq<u32>, count: int, value: int)
    requires
        0 <= count <= samples.len(),
        forall|j: int| 0 <= j < samples.len() ==> scaled(#[trigger] samples[j]) == value,
    ensures
        sum_of_squares(samples, count) == count * (value * value),
    decreases count,
{
    let square = value * value;
    if count > 0 {
        lemma_sum_of_a_constant_channel(samples, count - 1, value);
        assert(scaled(samples[count - 1]) == value);
        assert((count - 1) * square + square == count * square) by (nonlinear_arith);
    } else {
        assert(0 * square == 0) by (nonlinear_arith);
    }
}

/// The power that a response is taken to have is its own, unless that is below `MIN_POWER`,
/// infinite or not a number: then it is `MIN_POWER`.
pub proof fn lemma_clamped_power(power: u64)
    ensures
        double_finite(power) && double_scaled(power) >= double_scaled(MIN_POWER)
            ==> clamped_power(power) == power,
        !double_finite(power) || double_scaled(power) < double_scaled(MIN_POWER)
            ==> clamped_power(power) == MIN_POWER,
        double_scaled(clamped_power(power)) >= double_scaled(MIN_POWER),
{
    assert(!double_not_a_number(MIN_POWER));
}

/// The factor that normalizes a response, times its power and its sample rate, is the calibration
/// times the sample rate of the calibration, and half of that for a response of four channels,
/// where no step has to be rounded: `inverse`, `calibrated`, `ratio` and `adjusted` are `1 / power`,
/// that times the calibration, the ratio of the sample rates, and the product of the two.
pub proof fn lemma_normalization_scale<A: DoubleArithmetic>(
    ops: &A,
    power: u64,
    sample_rate: u32,
    channels: int,
    scale: u64,
    inverse: u64,
    calibrated: u64,
    ratio: u64,
    adjusted: u64,
    halved: u64,
)
    requires
        double_faithful(ops),
        scale_is(ops, power, sample_rate, channels, scale),
        double_finite(power),
        0 < double_scaled(power),
        finite(sample_rate),
        0 < scaled(sample_rate),
        double_finite(inverse),
        double_scaled(inverse) * double_scaled(power) == double_one() * double_one(),
        double_finite(calibrated),
        double_scaled(calibrated) * double_one() == double_scaled(inverse) * double_scaled(
            GAIN_CALIBRATION,
        ),
        double_finite(ratio),
        double_scaled(ratio) * (scaled(sample_rate) * widening()) == double_scaled(
            GAIN_CALIBRATION_SAMPLE_RATE,
        ) * double_one(),
        double_finite(adjusted),
        double_scaled(adjusted) * double_one() == double_scaled(calibrated) * double_scaled(ratio),
        double_finite(halved),
        2 * double_scaled(halved) == double_scaled(adjusted),
    ensures
        double_finite(scale),
        (if channels == 4 {
            2 * double_scaled(scale)
        } else {
            double_scaled(scale)
        }) * (double_scaled(power) * (scaled(sample_rate) * widening())) == double_scaled(
            GAIN_CALIBRATION,
        ) * double_scaled(GAIN_CALIBRATION_SAMPLE_RATE) * double_one(),
{
    lemma_scales();
    lemma_value_of_constants();
    let one = double_one();
    let (i1, c1, r1, q1, d1) = choose|
        inverse: u64,
        calibrated: u64,
        rate: u64,
        ratio: u64,
        adjusted: u64,
    |
        {
            &&& #[trigger] double_quotient_is(ops, DOUBLE_ONE, power, inverse)
            &&& #[trigger] double_product_is(ops, inverse, GAIN_CALIBRATION, calibrated)
            &&& #[trigger] widen_is(ops, sample_rate, rate)
            &&& #[trigger] double_quotient_is(ops, GAIN_CALIBRATION_SAMPLE_RATE, rate, ratio)
            &&& #[trigger] double_product_is(ops, calibrated, ratio, adjusted)
            &&& if channels == 4 {
                double_product_is(ops, adjusted, DOUBLE_HALF, scale)
            } else {
                scale == adjusted
            }
        };
    let rate = scaled(sample_rate) * widening();
    assert(0 < rate) by (nonlinear_arith)
        requires
            rate == scaled(sample_rate) * widening(),
            0 < scaled(sample_rate),
            0 < widening(),
    ;
    lemma_double_exact(inverse, double_scaled(DOUBLE_ONE) * one, double_scaled(power), i1);
    lemma_double_exact(
        calibrated,
        double_scaled(i1) * double_scaled(GAIN_CALIBRATION),
        one,
        c1,
    );
    lemma_double_exact(
        ratio,
        double_scaled(GAIN_CALIBRATION_SAMPLE_RATE) * one,
        double_scaled(r1),
        q1,
    );
    lemma_double_exact(adjusted, double_scaled(c1) * double_scaled(q1), one, d1);
    if channels == 4 {
        assert(double_scaled(halved) * one == double_scaled(adjusted) * double_scaled(DOUBLE_HALF))
            by (nonlinear_arith)
            requires
                2 * double_scaled(halved) == double_scaled(adjusted),
                2 * double_scaled(DOUBLE_HALF) == one,
        ;
        lemma_double_exact(halved, double_scaled(d1) * double_scaled(DOUBLE_HALF), one, scale);
    }
    let (i, p, c, q, a) = (
        double_scaled(inverse),
        double_scaled(power),
        double_scaled(calibrated),
        double_scaled(ratio),
        double_scaled(adjusted),
    );
    let (gain, base) = (
        double_scaled(GAIN_CALIBRATION),
        double_scaled(GAIN_CALIBRATION_SAMPLE_RATE),
    );
    assert(a * (p * rate) == gain * base * one) by {
        assert((a * (p * rate)) * (one * one) == (a * one) * one * (p * rate))
            by (nonlinear_arith);
        assert((c * q) * one * (p * rate) == (c * one) * q * (p * rate)) by (nonlinear_arith);
        assert((i * gain) * q * (p * rate) == (i * p) * gain * (q * rate)) by (nonlinear_arith);
        assert((one * one) * gain * (base * one) == (gain * base * one) * (one * one))
            by (nonlinear_arith);
        let (left, right, square) = (a * (p * rate), gain * base * one, one * one);
        assert(0 < square) by (nonlinear_arith)
            requires
                0 < one,
                square == one * one,
        ;
        assert(left == right) by (nonlinear_arith)
            requires
                left * square == right * square,
                0 < square,
        ;
    }
}

/// The constants of the normalization are one, a half, and positive numbers.
pub proof fn lemma_value_of_constants()
    ensures
        double_finite(DOUBLE_ONE),
        double_scaled(DOUBLE_ONE) == double_one(),
        double_finite(DOUBLE_HALF),
        2 * double_scaled(DOUBLE_HALF) == double_one(),
        double_finite(GAIN_CALIBRATION),
        double_finite(GAIN_CALIBRATION_SAMPLE_RATE),
        double_finite(MIN_POWER),
        double_scaled(GAIN_CALIBRATION_SAMPLE_RATE) == 44100 * double_one(),
        // `GAIN_CALIBRATION` and `MIN_POWER` are the numbers next to `1 / 800` and `1 / 8000`.
        double_scaled(GAIN_CALIBRATION) == 0x14_7ae1_47ae_147b * pow2(1012),
        double_one() == 0x4000_0000_0000_0000 * pow2(1012),
        double_scaled(MIN_POWER) == 0x10_624d_d2f1_a9fc * pow2(1009),
        double_one() == 0x2_0000_0000_0000_0000 * pow2(1009),
{
    lemma2_to64();
    lemma2_to64_rest();
    lemma_value_of_double_bits(DOUBLE_ONE);
    lemma_value_of_double_bits(DOUBLE_HALF);
    lemma_value_of_double_bits(GAIN_CALIBRATION);
    lemma_value_of_double_bits(GAIN_CALIBRATION_SAMPLE_RATE);
    lemma_value_of_double_bits(MIN_POWER);
    lemma_pow2_adds(52, 1022);
    lemma_pow2_adds(52, 1021);
    lemma_pow2_adds(1, 1073);
    lemma_pow2_adds(62, 1012);
    lemma_pow2_adds(1, 64);
    lemma_pow2_adds(65, 1009);
    lemma_pow2_adds(37, 1037);
    assert(44100 * (0x20_0000_0000 * pow2(1037)) == 0x15_8880_0000_0000 * pow2(1037));
}

/// There is a factor that normalizes a response exactly where there is a response and it is to be
/// normalized, and it belongs to the power that the response is taken to have.
pub proof fn lemma_when_there_is_a_scale<A: DoubleArithmetic>(
    ops: &A,
    buffer: Option<AudioBuffer>,
    normalize: bool,
    scale: Option<u64>,
)
    requires
        scale_for(ops, buffer, normalize, scale),
    ensures
        scale is Some <==> normalize && buffer is Some,
        scale is Some ==> exists|power: u64| #[trigger]
            rms_power_is(ops, buffer->0, power) && scale_is(
                ops,
                clamped_power(power),
                buffer->0.sample_rate,
                buffer->0.buffers@.len() as int % 256,
                scale->0,
            ),
{
}

} // verus!
