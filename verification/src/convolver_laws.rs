//! What holds of several calls of a convolver node.
//!
//! These laws hold where each operation that the caller supplies has one result for the same
//! arguments. Which of its many bit patterns stands for a result that is not a number is left
//! open, in what is asked of the operations and in what is said of the nodes.
use crate::arithmetic::{
    complex_product_is, double_number_is, double_product_is, double_quotient_is, double_sum_is,
    forward_is, inverse_is, narrow_is, square_is, square_root_is, widen_is, Complex,
    DoubleArithmetic, Transform,
};
use crate::audio_buffer::AudioBuffer;
use crate::binary;
use crate::block::Block;
use crate::convolver_node::{
    are_half_spectra, buffer_fft_is, can_convolve, channel_added_is, channel_power_is,
    clamped_power, convolved_is, convolver_output, lemma_routes, linear_convolution_is,
    normalization_scale_is, padded_is, processed, quotients_are, rms_power_is, route_added_is,
    routed_is, routes, sample_power_is, scale_for, scale_is, scaled_sample_is, scaled_samples_are,
    signal_length, spectra_are, spectra_for, spectrum_product_is, total_power_is,
    transform_length, ConvolverNode, DOUBLE_HALF, DOUBLE_ONE, GAIN_CALIBRATION,
    GAIN_CALIBRATION_SAMPLE_RATE,
};
use vstd::prelude::*;

verus! {

/// Whether two `binary32` bit patterns are the same, or both are not a number.
pub open spec fn same_single(a: u32, b: u32) -> bool {
    a == b || binary::not_a_number(a) && binary::not_a_number(b)
}

/// Whether two `binary64` bit patterns are the same, or both are not a number.
pub open spec fn same_double(a: u64, b: u64) -> bool {
    a == b || binary::double_not_a_number(a) && binary::double_not_a_number(b)
}

/// Whether two complex numbers are the same in both parts.
pub open spec fn same_complex(a: Complex, b: Complex) -> bool {
    same_double(a.0, b.0) && same_double(a.1, b.1)
}

/// Whether two sequences of `binary32` numbers are the same.
pub open spec fn same_singles(a: Seq<u32>, b: Seq<u32>) -> bool {
    &&& a.len() == b.len()
    &&& forall|i: int|
        #![trigger a[i]]
        #![trigger b[i]]
        0 <= i < a.len() ==> same_single(a[i], b[i])
}

/// Whether two sequences of `binary64` numbers are the same.
pub open spec fn same_doubles(a: Seq<u64>, b: Seq<u64>) -> bool {
    &&& a.len() == b.len()
    &&& forall|i: int|
        #![trigger a[i]]
        #![trigger b[i]]
        0 <= i < a.len() ==> same_double(a[i], b[i])
}

/// Whether two sequences of complex numbers are the same.
pub open spec fn same_complexes(a: Seq<Complex>, b: Seq<Complex>) -> bool {
    &&& a.len() == b.len()
    &&& forall|i: int|
        #![trigger a[i]]
        #![trigger b[i]]
        0 <= i < a.len() ==> same_complex(a[i], b[i])
}

/// Whether the operations of a convolution have one result for the same arguments.
pub open spec fn repeatable<A: DoubleArithmetic + Transform>(ops: &A) -> bool {
    &&& forall|a: u64, b: u64, c: u64, d: u64, r: u64, s: u64|
        same_double(a, c) && same_double(b, d) && #[trigger] double_product_is(ops, a, b, r)
            && #[trigger] double_product_is(ops, c, d, s) ==> same_double(r, s)
    &&& forall|a: u64, b: u64, c: u64, d: u64, r: u64, s: u64|
        same_double(a, c) && same_double(b, d) && #[trigger] double_quotient_is(ops, a, b, r)
            && #[trigger] double_quotient_is(ops, c, d, s) ==> same_double(r, s)
    &&& forall|n: usize, r: u64, s: u64| #[trigger]
        double_number_is(ops, n, r) && #[trigger] double_number_is(ops, n, s) ==> same_double(r, s)
    &&& forall|a: u32, c: u32, r: u64, s: u64|
        same_single(a, c) && #[trigger] widen_is(ops, a, r) && #[trigger] widen_is(ops, c, s)
            ==> same_double(r, s)
    &&& forall|a: u64, c: u64, r: u32, s: u32|
        same_double(a, c) && #[trigger] narrow_is(ops, a, r) && #[trigger] narrow_is(ops, c, s)
            ==> same_single(r, s)
    &&& forall|a: Complex, b: Complex, c: Complex, d: Complex, r: Complex, s: Complex|
        same_complex(a, c) && same_complex(b, d) && #[trigger] complex_product_is(ops, a, b, r)
            && #[trigger] complex_product_is(ops, c, d, s) ==> same_complex(r, s)
    &&& forall|a: Vec<u64>, c: Vec<u64>, r: Vec<Complex>, s: Vec<Complex>|
        same_doubles(a@, c@) && #[trigger] forward_is(ops, a, r) && #[trigger] forward_is(ops, c, s)
            ==> same_complexes(r@, s@)
    &&& forall|a: Vec<Complex>, c: Vec<Complex>, length: usize, r: Vec<u64>, s: Vec<u64>|
        same_complexes(a@, c@) && #[trigger] inverse_is(ops, a, length, r) && #[trigger] inverse_is(
            ops,
            c,
            length,
            s,
        ) ==> same_doubles(r@, s@)
}

/// Whether the operations that only the power of a response needs have one result for the same
/// arguments.
pub open spec fn repeatable_power<A: DoubleArithmetic>(ops: &A) -> bool {
    &&& forall|a: u64, b: u64, c: u64, d: u64, r: u64, s: u64|
        same_double(a, c) && same_double(b, d) && #[trigger] double_sum_is(ops, a, b, r)
            && #[trigger] double_sum_is(ops, c, d, s) ==> same_double(r, s)
    &&& forall|a: u64, c: u64, r: u64, s: u64|
        same_double(a, c) && #[trigger] square_root_is(ops, a, r) && #[trigger] square_root_is(
            ops,
            c,
            s,
        ) ==> same_double(r, s)
    &&& forall|a: u32, r: u32, s: u32| #[trigger]
        square_is(ops, a, r) && #[trigger] square_is(ops, a, s) ==> same_single(r, s)
}

proof fn lemma_padded_again<A: DoubleArithmetic + Transform>(
    ops: &A,
    samples: Seq<u32>,
    length: int,
    a: Seq<u64>,
    b: Seq<u64>,
)
    requires
        repeatable(ops),
        padded_is(ops, samples, length, a),
        padded_is(ops, samples, length, b),
    ensures
        same_doubles(a, b),
{
    assert forall|i: int| 0 <= i < a.len() implies same_double(a[i], b[i]) by {
        if i < samples.len() {
            assert(widen_is(ops, samples[i], a[i]));
            assert(widen_is(ops, samples[i], b[i]));
        }
    }
}

proof fn lemma_buffer_fft_again<A: DoubleArithmetic + Transform>(
    ops: &A,
    response: Seq<u32>,
    a: Vec<Complex>,
    b: Vec<Complex>,
)
    requires
        repeatable(ops),
        buffer_fft_is(ops, response, a),
        buffer_fft_is(ops, response, b),
    ensures
        same_complexes(a@, b@),
{
    let length = transform_length(response.len() as int);
    let x = choose|signal: Vec<u64>|
        padded_is(ops, response, length, signal@) && #[trigger] forward_is(ops, signal, a);
    let y = choose|signal: Vec<u64>|
        padded_is(ops, response, length, signal@) && #[trigger] forward_is(ops, signal, b);
    lemma_padded_again(ops, response, length, x@, y@);
}

proof fn lemma_convolution_again<A: DoubleArithmetic + Transform>(
    ops: &A,
    input: Seq<u32>,
    response_a: Seq<Complex>,
    response_b: Seq<Complex>,
    a: Seq<u64>,
    b: Seq<u64>,
)
    requires
        repeatable(ops),
        same_complexes(response_a, response_b),
        linear_convolution_is(ops, input, response_a, a),
        linear_convolution_is(ops, input, response_b, b),
    ensures
        same_doubles(a, b),
{
    let length = signal_length(response_a.len() as int);
    let (s1, f1, p1, r1, d1) = choose|
        signal: Vec<u64>,
        spectrum: Vec<Complex>,
        product: Vec<Complex>,
        raw: Vec<u64>,
        divisor: u64,
    |
        {
            &&& padded_is(ops, input, length, signal@)
            &&& #[trigger] forward_is(ops, signal, spectrum)
            &&& spectrum_product_is(ops, spectrum@, response_a, product@)
            &&& #[trigger] inverse_is(ops, product, length as usize, raw)
            &&& #[trigger] double_number_is(ops, length as usize, divisor)
            &&& quotients_are(ops, raw@, divisor, a)
        };
    let (s2, f2, p2, r2, d2) = choose|
        signal: Vec<u64>,
        spectrum: Vec<Complex>,
        product: Vec<Complex>,
        raw: Vec<u64>,
        divisor: u64,
    |
        {
            &&& padded_is(ops, input, length, signal@)
            &&& #[trigger] forward_is(ops, signal, spectrum)
            &&& spectrum_product_is(ops, spectrum@, response_b, product@)
            &&& #[trigger] inverse_is(ops, product, length as usize, raw)
            &&& #[trigger] double_number_is(ops, length as usize, divisor)
            &&& quotients_are(ops, raw@, divisor, b)
        };
    lemma_padded_again(ops, input, length, s1@, s2@);
    assert(same_complexes(f1@, f2@));
    assert(same_complexes(p1@, p2@)) by {
        assert forall|i: int| 0 <= i < p1@.len() implies same_complex(p1@[i], p2@[i]) by {
            assert(complex_product_is(ops, f1@[i], response_a[i], p1@[i]));
            assert(complex_product_is(ops, f2@[i], response_b[i], p2@[i]));
            assert(same_complex(f1@[i], f2@[i]));
            assert(same_complex(response_a[i], response_b[i]));
        }
    }
    assert(same_doubles(r1@, r2@));
    assert(same_double(d1, d2));
    assert forall|i: int| 0 <= i < a.len() implies same_double(a[i], b[i]) by {
        assert(double_quotient_is(ops, r1@[i], d1, a[i]));
        assert(double_quotient_is(ops, r2@[i], d2, b[i]));
        assert(same_double(r1@[i], r2@[i]));
    }
}

proof fn lemma_convolved_again<A: DoubleArithmetic + Transform>(
    ops: &A,
    input: Seq<u32>,
    response_a: Seq<Complex>,
    response_b: Seq<Complex>,
    a: Seq<u32>,
    b: Seq<u32>,
)
    requires
        repeatable(ops),
        same_complexes(response_a, response_b),
        convolved_is(ops, input, response_a, a),
        convolved_is(ops, input, response_b, b),
    ensures
        same_singles(a, b),
{
    let x = choose|wide: Seq<u64>|
        {
            &&& #[trigger] linear_convolution_is(ops, input, response_a, wide)
            &&& a.len() == wide.len()
            &&& forall|i: int| 0 <= i < a.len() ==> narrow_is(ops, wide[i], #[trigger] a[i])
        };
    let y = choose|wide: Seq<u64>|
        {
            &&& #[trigger] linear_convolution_is(ops, input, response_b, wide)
            &&& b.len() == wide.len()
            &&& forall|i: int| 0 <= i < b.len() ==> narrow_is(ops, wide[i], #[trigger] b[i])
        };
    lemma_convolution_again(ops, input, response_a, response_b, x, y);
    assert forall|i: int| 0 <= i < a.len() implies same_single(a[i], b[i]) by {
        assert(narrow_is(ops, x[i], a[i]));
        assert(narrow_is(ops, y[i], b[i]));
        assert(same_double(x[i], y[i]));
    }
}

/// Whether two blocks have the same channels and the same samples.
pub open spec fn same_block(a: Block, b: Block) -> bool {
    a.channels == b.channels && same_singles(a.buffer@, b.buffer@)
}

/// Whether two lists of spectra hold the same numbers.
pub open spec fn same_spectra(a: Seq<Vec<Complex>>, b: Seq<Vec<Complex>>) -> bool {
    &&& a.len() == b.len()
    &&& forall|i: int|
        #![trigger a[i]]
        #![trigger b[i]]
        0 <= i < a.len() ==> same_complexes(a[i]@, b[i]@)
}

proof fn lemma_same_spectra(spectra: Seq<Vec<Complex>>)
    ensures
        same_spectra(spectra, spectra),
{
}

proof fn lemma_routed_again<A: DoubleArithmetic + Transform>(
    ops: &A,
    block_a: Block,
    block_b: Block,
    spectra_a: Seq<Vec<Complex>>,
    spectra_b: Seq<Vec<Complex>>,
    list: Seq<(u8, usize)>,
    a: Seq<u32>,
    b: Seq<u32>,
)
    requires
        repeatable(ops),
        block_a.channels == block_b.channels,
        block_a.buffer@ == block_b.buffer@,
        same_spectra(spectra_a, spectra_b),
        forall|i: int| 0 <= i < list.len() ==> (#[trigger] list[i]).1 < spectra_a.len(),
        routed_is(ops, block_a, spectra_a, list, a),
        routed_is(ops, block_b, spectra_b, list, b),
    ensures
        same_singles(a, b),
    decreases list.len(),
{
    if list.len() > 0 {
        let rest = list.drop_last();
        let last = list.last();
        assert(last == list[list.len() - 1]);
        let x = choose|before: Seq<u32>|
            routed_is(ops, block_a, spectra_a, rest, before) && #[trigger] route_added_is(
                ops,
                before,
                block_a,
                spectra_a,
                last,
                a,
            );
        let y = choose|before: Seq<u32>|
            routed_is(ops, block_b, spectra_b, rest, before) && #[trigger] route_added_is(
                ops,
                before,
                block_b,
                spectra_b,
                last,
                b,
            );
        assert forall|i: int| 0 <= i < rest.len() implies (#[trigger] rest[i]).1
            < spectra_a.len() by {
            assert(rest[i] == list[i]);
        }
        lemma_routed_again(ops, block_a, block_b, spectra_a, spectra_b, rest, x, y);
        let channel = last.0 as int;
        let response = last.1 as int;
        assert(block_a.channel(channel) =~= block_b.channel(channel));
        assert(same_complexes(spectra_a[response]@, spectra_b[response]@));
        let u = choose|convolved: Seq<u32>|
            #[trigger] convolved_is(
                ops,
                block_a.channel(channel),
                spectra_a[response]@,
                convolved,
            ) && a == x + convolved;
        let v = choose|convolved: Seq<u32>|
            #[trigger] convolved_is(
                ops,
                block_b.channel(channel),
                spectra_b[response]@,
                convolved,
            ) && b == y + convolved;
        lemma_convolved_again(
            ops,
            block_a.channel(channel),
            spectra_a[response]@,
            spectra_b[response]@,
            u,
            v,
        );
        assert forall|i: int| 0 <= i < a.len() implies same_single(a[i], b[i]) by {
            if i < x.len() {
                assert(same_single(x[i], y[i]));
            } else {
                assert(same_single(u[i - x.len()], v[i - x.len()]));
            }
        }
    }
}

proof fn lemma_scaled_again<A: DoubleArithmetic + Transform>(
    ops: &A,
    samples_a: Seq<u32>,
    samples_b: Seq<u32>,
    scale: Option<u64>,
    a: Seq<u32>,
    b: Seq<u32>,
)
    requires
        repeatable(ops),
        same_singles(samples_a, samples_b),
        scaled_samples_are(ops, samples_a, scale, a),
        scaled_samples_are(ops, samples_b, scale, b),
    ensures
        same_singles(a, b),
{
    if scale is Some {
        let factor = scale->0;
        assert forall|i: int| 0 <= i < a.len() implies same_single(a[i], b[i]) by {
            assert(same_single(samples_a[i], samples_b[i]));
            assert(scaled_sample_is(ops, samples_a[i], factor, a[i]));
            assert(scaled_sample_is(ops, samples_b[i], factor, b[i]));
            let (w1, p1) = choose|wide: u64, product: u64|
                #[trigger] widen_is(ops, samples_a[i], wide) && #[trigger] double_product_is(
                    ops,
                    wide,
                    factor,
                    product,
                ) && narrow_is(ops, product, a[i]);
            let (w2, p2) = choose|wide: u64, product: u64|
                #[trigger] widen_is(ops, samples_b[i], wide) && #[trigger] double_product_is(
                    ops,
                    wide,
                    factor,
                    product,
                ) && narrow_is(ops, product, b[i]);
            assert(same_double(w1, w2));
            assert(same_double(p1, p2));
        }
    }
}

/// The samples that a node makes of a block, before they are scaled.
spec fn unscaled<A: DoubleArithmetic + Transform>(
    ops: &A,
    node: ConvolverNode,
    block: Block,
    output: Seq<Block>,
) -> Seq<u32> {
    let list = routes(block.channels, node.buffer->0.channel_count() as u8)->0;
    let scale = if node.normalize {
        node.normalization_scale
    } else {
        None
    };
    choose|samples: Seq<u32>|
        {
            &&& #[trigger] routed_is(ops, block, node.buffer_ffts->0@, list, samples)
            &&& output.len() == 1
            &&& scaled_samples_are(ops, samples, scale, output[0].buffer@)
        }
}

/// A convolver node puts the same out for the same input, whatever it has processed between: it
/// carries nothing from block to block. In particular the samples are equal wherever they are
/// numbers.
pub proof fn lemma_same_input_same_output<A: DoubleArithmetic + Transform>(
    ops: &A,
    node: ConvolverNode,
    input: Block,
    again: Block,
    output: Seq<Block>,
    output_again: Seq<Block>,
)
    requires
        repeatable(ops),
        node.wf(),
        input.channels == again.channels,
        input.buffer@ == again.buffer@,
        processed(ops, node, seq![input], output),
        processed(ops, node, seq![again], output_again),
    ensures
        output.len() == 1,
        output_again.len() == 1,
        same_block(output[0], output_again[0]),
{
    if can_convolve(node, input.channels) {
        let response = node.buffer->0;
        let list = routes(input.channels, response.channel_count() as u8)->0;
        let spectra = node.buffer_ffts->0@;
        lemma_routes(input.channels, response.channel_count() as u8);
        assert(convolver_output(ops, node, input, output));
        assert(convolver_output(ops, node, again, output_again));
        let a = unscaled(ops, node, input, output);
        let b = unscaled(ops, node, again, output_again);
        lemma_same_spectra(spectra);
        lemma_routed_again(ops, input, again, spectra, spectra, list, a, b);
        let scale = if node.normalize {
            node.normalization_scale
        } else {
            None
        };
        lemma_scaled_again(ops, a, b, scale, output[0].buffer@, output_again[0].buffer@);
    }
}

proof fn lemma_channel_power_again<A: DoubleArithmetic + Transform>(
    ops: &A,
    samples: Seq<u32>,
    a: u64,
    b: u64,
)
    requires
        repeatable(ops),
        repeatable_power(ops),
        channel_power_is(ops, samples, a),
        channel_power_is(ops, samples, b),
    ensures
        same_double(a, b),
    decreases samples.len(),
{
    if samples.len() > 0 {
        let rest = samples.drop_last();
        let last = samples.last();
        let x = choose|before: u64|
            channel_power_is(ops, rest, before) && #[trigger] sample_power_is(
                ops,
                before,
                last,
                a,
            );
        let y = choose|before: u64|
            channel_power_is(ops, rest, before) && #[trigger] sample_power_is(
                ops,
                before,
                last,
                b,
            );
        lemma_channel_power_again(ops, rest, x, y);
        let (q1, w1) = choose|squared: u32, wide: u64|
            #[trigger] square_is(ops, last, squared) && #[trigger] widen_is(ops, squared, wide)
                && double_sum_is(ops, x, wide, a);
        let (q2, w2) = choose|squared: u32, wide: u64|
            #[trigger] square_is(ops, last, squared) && #[trigger] widen_is(ops, squared, wide)
                && double_sum_is(ops, y, wide, b);
        assert(same_single(q1, q2));
        assert(same_double(w1, w2));
    }
}

proof fn lemma_total_power_again<A: DoubleArithmetic + Transform>(
    ops: &A,
    channels: Seq<Vec<u32>>,
    a: u64,
    b: u64,
)
    requires
        repeatable(ops),
        repeatable_power(ops),
        total_power_is(ops, channels, a),
        total_power_is(ops, channels, b),
    ensures
        same_double(a, b),
    decreases channels.len(),
{
    if channels.len() > 0 {
        let rest = channels.drop_last();
        let last = channels.last()@;
        let x = choose|before: u64|
            total_power_is(ops, rest, before) && #[trigger] channel_added_is(
                ops,
                before,
                last,
                a,
            );
        let y = choose|before: u64|
            total_power_is(ops, rest, before) && #[trigger] channel_added_is(
                ops,
                before,
                last,
                b,
            );
        lemma_total_power_again(ops, rest, x, y);
        let p1 = choose|power: u64|
            #[trigger] channel_power_is(ops, last, power) && double_sum_is(ops, x, power, a);
        let p2 = choose|power: u64|
            #[trigger] channel_power_is(ops, last, power) && double_sum_is(ops, y, power, b);
        lemma_channel_power_again(ops, last, p1, p2);
    }
}

proof fn lemma_rms_power_again<A: DoubleArithmetic + Transform>(
    ops: &A,
    buffer: AudioBuffer,
    a: u64,
    b: u64,
)
    requires
        repeatable(ops),
        repeatable_power(ops),
        rms_power_is(ops, buffer, a),
        rms_power_is(ops, buffer, b),
    ensures
        same_double(a, b),
{
    let (t1, c1, l1, n1, m1) = choose|total: u64, channels: u64, length: u64, count: u64, mean: u64|
        {
            &&& #[trigger] total_power_is(ops, buffer.buffers@, total)
            &&& #[trigger] double_number_is(ops, buffer.channel_count() as usize, channels)
            &&& #[trigger] double_number_is(ops, buffer.buffers@[0]@.len() as usize, length)
            &&& #[trigger] double_product_is(ops, channels, length, count)
            &&& #[trigger] double_quotient_is(ops, total, count, mean)
            &&& square_root_is(ops, mean, a)
        };
    let (t2, c2, l2, n2, m2) = choose|total: u64, channels: u64, length: u64, count: u64, mean: u64|
        {
            &&& #[trigger] total_power_is(ops, buffer.buffers@, total)
            &&& #[trigger] double_number_is(ops, buffer.channel_count() as usize, channels)
            &&& #[trigger] double_number_is(ops, buffer.buffers@[0]@.len() as usize, length)
            &&& #[trigger] double_product_is(ops, channels, length, count)
            &&& #[trigger] double_quotient_is(ops, total, count, mean)
            &&& square_root_is(ops, mean, b)
        };
    lemma_total_power_again(ops, buffer.buffers@, t1, t2);
    assert(same_double(c1, c2) && same_double(l1, l2));
    assert(same_double(n1, n2));
    assert(same_double(m1, m2));
}

proof fn lemma_scale_again<A: DoubleArithmetic + Transform>(
    ops: &A,
    power: u64,
    sample_rate: u32,
    channels: int,
    a: u64,
    b: u64,
)
    requires
        repeatable(ops),
        scale_is(ops, power, sample_rate, channels, a),
        scale_is(ops, power, sample_rate, channels, b),
    ensures
        same_double(a, b),
{
    let (i1, c1, r1, q1, d1) = choose|
        inverse: u64,
        calibrated: u64,
        rate: u64,
        ratio: u64,
        adjusted: u64,
    |
        {
            &&& #[trigger] double_quotient_is(ops, DOUBLE_ONE, power, inverse)
            &&& #[trigger] double_product_is(ops, inverse, GAIN_CALIBRATION, calibrated)
            &&& #[trigger] widen_is(ops, sample_rate, rate)
            &&& #[trigger] double_quotient_is(ops, GAIN_CALIBRATION_SAMPLE_RATE, rate, ratio)
            &&& #[trigger] double_product_is(ops, calibrated, ratio, adjusted)
            &&& if channels == 4 {
                double_product_is(ops, adjusted, DOUBLE_HALF, a)
            } else {
                a == adjusted
            }
        };
    let (i2, c2, r2, q2, d2) = choose|
        inverse: u64,
        calibrated: u64,
        rate: u64,
        ratio: u64,
        adjusted: u64,
    |
        {
            &&& #[trigger] double_quotient_is(ops, DOUBLE_ONE, power, inverse)
            &&& #[trigger] double_product_is(ops, inverse, GAIN_CALIBRATION, calibrated)
            &&& #[trigger] widen_is(ops, sample_rate, rate)
            &&& #[trigger] double_quotient_is(ops, GAIN_CALIBRATION_SAMPLE_RATE, rate, ratio)
            &&& #[trigger] double_product_is(ops, calibrated, ratio, adjusted)
            &&& if channels == 4 {
                double_product_is(ops, adjusted, DOUBLE_HALF, b)
            } else {
                b == adjusted
            }
        };
    assert(same_double(i1, i2) && same_double(r1, r2));
    assert(same_double(c1, c2) && same_double(q1, q2));
    assert(same_double(d1, d2));
}

/// There is one factor that normalizes a response, where also squares and their sums have one
/// result.
pub proof fn lemma_one_normalization_scale<A: DoubleArithmetic + Transform>(
    ops: &A,
    response: AudioBuffer,
    a: u64,
    b: u64,
)
    requires
        repeatable(ops),
        repeatable_power(ops),
        normalization_scale_is(ops, response, a),
        normalization_scale_is(ops, response, b),
    ensures
        same_double(a, b),
{
    let p1 = choose|power: u64|
        #[trigger] rms_power_is(ops, response, power) && scale_is(
            ops,
            clamped_power(power),
            response.sample_rate,
            response.channel_count(),
            a,
        );
    let p2 = choose|power: u64|
        #[trigger] rms_power_is(ops, response, power) && scale_is(
            ops,
            clamped_power(power),
            response.sample_rate,
            response.channel_count(),
            b,
        );
    lemma_rms_power_again(ops, response, p1, p2);
    assert(clamped_power(p1) == clamped_power(p2));
    lemma_scale_again(
        ops,
        clamped_power(p1),
        response.sample_rate,
        response.channel_count(),
        a,
        b,
    );
}

/// Whether a node has been told a response, at a time when it normalized or not.
pub open spec fn has_response<A: DoubleArithmetic + Transform>(
    ops: &A,
    node: ConvolverNode,
    response: AudioBuffer,
    normalize: bool,
) -> bool {
    &&& node.wf()
    &&& node.buffer == Some(response)
    &&& node.normalize == normalize
    &&& scale_for(ops, Some(response), normalize, node.normalization_scale)
    &&& spectra_for(ops, Some(response), node.buffer_ffts)
}

/// A node that normalizes puts out what one that does not puts out, each sample that is a number
/// times the factor that normalizes the response.
pub proof fn lemma_normalized_output<A: DoubleArithmetic + Transform>(
    ops: &A,
    plain: ConvolverNode,
    normalizing: ConvolverNode,
    response: AudioBuffer,
    scale: u64,
    input: Block,
    plain_output: Seq<Block>,
    output: Seq<Block>,
)
    requires
        repeatable(ops),
        has_response(ops, plain, response, false),
        has_response(ops, normalizing, response, true),
        normalizing.normalization_scale == Some(scale),
        can_convolve(plain, input.channels),
        processed(ops, plain, seq![input], plain_output),
        processed(ops, normalizing, seq![input], output),
    ensures
        plain_output.len() == 1,
        output.len() == 1,
        output[0].channels == plain_output[0].channels,
        output[0].buffer@.len() == plain_output[0].buffer@.len(),
        normalization_scale_is(ops, response, scale),
        forall|i: int|
            0 <= i < output[0].buffer@.len() && !binary::not_a_number(
                plain_output[0].buffer@[i],
            ) ==> scaled_sample_is(
                ops,
                plain_output[0].buffer@[i],
                scale,
                #[trigger] output[0].buffer@[i],
            ),
{
    let s1 = choose|spectra: Vec<Vec<Complex>>| #[trigger]
        spectra_are(ops, response, spectra) && plain.buffer_ffts == if are_half_spectra(
            response,
            spectra@,
        ) {
            Some(spectra)
        } else {
            None
        };
    let s2 = choose|spectra: Vec<Vec<Complex>>| #[trigger]
        spectra_are(ops, response, spectra) && normalizing.buffer_ffts == if are_half_spectra(
            response,
            spectra@,
        ) {
            Some(spectra)
        } else {
            None
        };
    assert(same_spectra(s1@, s2@)) by {
        assert forall|i: int| 0 <= i < s1@.len() implies same_complexes(
            s1@[i]@,
            s2@[i]@,
        ) by {
            lemma_buffer_fft_again(ops, response.buffers@[i]@, s1@[i], s2@[i]);
        }
    }
    assert(are_half_spectra(response, s1@));
    assert(are_half_spectra(response, s2@)) by {
        assert forall|i: int| 0 <= i < s2@.len() implies (#[trigger] s2@[i])@.len()
            == transform_length(response.buffers@[i]@.len() as int) / 2 + 1 by {
            assert(same_complexes(s1@[i]@, s2@[i]@));
        }
    }
    let list = routes(input.channels, response.channel_count() as u8)->0;
    lemma_routes(input.channels, response.channel_count() as u8);
    assert(convolver_output(ops, plain, input, plain_output));
    assert(convolver_output(ops, normalizing, input, output));
    let a = unscaled(ops, plain, input, plain_output);
    let b = unscaled(ops, normalizing, input, output);
    lemma_routed_again(ops, input, input, s1@, s2@, list, a, b);
    assert forall|i: int|
        0 <= i < output[0].buffer@.len() && !binary::not_a_number(
            plain_output[0].buffer@[i],
        ) implies scaled_sample_is(
        ops,
        plain_output[0].buffer@[i],
        scale,
        #[trigger] output[0].buffer@[i],
    ) by {
        assert(same_single(a[i], b[i]));
    }
}

} // verus!
