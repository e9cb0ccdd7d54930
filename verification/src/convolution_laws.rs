//! What the samples that a convolver node puts out are worth.
//!
//! Values of single precision are on the scale of `binary::scaled`, those of double precision on
//! that of `binary::double_scaled`, where `double_one()` stands for one.
use crate::arithmetic::{
    complex_product_is, double_number_is, double_product_is, double_quotient_is, forward_is,
    inverse_is, narrow_is, widen_is, Complex, DoubleArithmetic, Transform,
};
use crate::audio_buffer::AudioBuffer;
use crate::binary::{double_scaled, scaled};
use crate::block::{Block, FRAMES_PER_BLOCK_USIZE};
use crate::convolver_laws::has_response;
use crate::convolver_node::{
    buffer_fft_is, can_convolve, convolved_is, convolver_output, gives_asked_length,
    gives_half_spectra, lemma_routes, lemma_spectrum_tells_length, lemma_transform_length,
    linear_convolution_is, padded_is, processed, quotients_are, route_added_is, routed_is, routes,
    scaled_sample_is, signal_length, spectrum_product_is, transform_length, transformable,
    ConvolverNode,
};
use crate::rounding::{
    double_faithful, double_finite, double_one, double_rounded, finite, lemma_double_exact,
    lemma_representable, rounded, widening,
};
use vstd::arithmetic::power2::lemma_pow2_pos;
use vstd::prelude::*;

verus! {

/// The value of a sample. Outside of the samples it is zero.
pub open spec fn value_at(samples: Seq<u32>, i: int) -> int {
    if 0 <= i < samples.len() {
        scaled(samples[i])
    } else {
        0
    }
}

/// The first `count` terms of the linear convolution of `x` and `h` at `n`: the products of
/// `x[k]` and `h[n - k]`.
pub open spec fn convolution_terms(x: Seq<u32>, h: Seq<u32>, n: int, count: int) -> int
    decreases count,
{
    if count <= 0 {
        0
    } else {
        convolution_terms(x, h, n, count - 1) + value_at(x, count - 1) * value_at(h, n - (count - 1))
    }
}

/// The linear convolution of `x` and `h` at `n`.
pub open spec fn convolution_at(x: Seq<u32>, h: Seq<u32>, n: int) -> int {
    convolution_terms(x, h, n, x.len() as int)
}

/// The first `count` terms of the circular convolution of two signals at `n`, where the second
/// one starts over at its end.
pub open spec fn circular_terms(a: Seq<u64>, b: Seq<u64>, n: int, count: int) -> int
    decreases count,
{
    if count <= 0 {
        0
    } else {
        circular_terms(a, b, n, count - 1) + double_scaled(a[count - 1]) * double_scaled(
            b[if n >= count - 1 {
                n - (count - 1)
            } else {
                n - (count - 1) + b.len()
            }],
        )
    }
}

/// Whether all values of a signal are finite and not above `bound` in size.
pub open spec fn bounded(signal: Seq<u64>, bound: int) -> bool {
    forall|i: int|
        0 <= i < signal.len() ==> double_finite(#[trigger] signal[i]) && -bound <= double_scaled(
            signal[i],
        ) <= bound
}

/// Whether the convolution theorem holds of the transform, up to `slack`, for signals of this
/// length and bound: the inverse transform of the products of two spectra is the circular
/// convolution of the signals, times their length.
pub open spec fn transforms_convolution<T: Transform>(
    ops: &T,
    length: usize,
    bound: int,
    slack: int,
) -> bool {
    forall|
        a: Vec<u64>,
        b: Vec<u64>,
        spectrum_a: Vec<Complex>,
        spectrum_b: Vec<Complex>,
        product: Vec<Complex>,
        raw: Vec<u64>,
    |
        {
            &&& #[trigger] forward_is(ops, a, spectrum_a)
            &&& #[trigger] forward_is(ops, b, spectrum_b)
            &&& #[trigger] inverse_is(ops, product, length, raw)
            &&& a@.len() == length
            &&& b@.len() == length
            &&& bounded(a@, bound)
            &&& bounded(b@, bound)
            &&& product@.len() == length / 2 + 1
            &&& forall|i: int|
                0 <= i < product@.len() ==> complex_product_is(
                    ops,
                    spectrum_a@[i],
                    spectrum_b@[i],
                    #[trigger] product@[i],
                )
        } ==> raw@.len() == length && forall|n: int|
            0 <= n < length ==> double_finite(#[trigger] raw@[n]) && -slack <= double_scaled(raw@[n])
                * double_one() - length * circular_terms(a@, b@, n, length as int) <= slack
}

/// What goes into the transform for a response, or for a block: every sample of it in double
/// precision, in its place, and zeros behind.
pub proof fn lemma_every_sample_is_transformed<A: DoubleArithmetic + Transform>(
    ops: &A,
    response: Seq<u32>,
    spectrum: Vec<Complex>,
) -> (signal: Vec<u64>)
    requires
        0 < response.len(),
        buffer_fft_is(ops, response, spectrum),
    ensures
        forward_is(ops, signal, spectrum),
        signal@.len() % 128 == 0,
        response.len() + 127 <= signal@.len() < response.len() + 255,
        forall|i: int| 0 <= i < response.len() ==> widen_is(ops, response[i], #[trigger] signal@[i]),
        forall|i: int| response.len() <= i < signal@.len() ==> #[trigger] signal@[i] == 0,
{
    let signal = choose|signal: Vec<u64>|
        padded_is(ops, response, transform_length(response.len() as int), signal@)
            && #[trigger] forward_is(ops, signal, spectrum);
    lemma_transform_length(response.len() as int);
    assert forall|i: int| 0 <= i < response.len() implies widen_is(
        ops,
        response[i],
        #[trigger] signal@[i],
    ) by {}
    signal
}

proof fn lemma_widened<A: DoubleArithmetic + Transform>(
    ops: &A,
    samples: Seq<u32>,
    signal: Seq<u64>,
    i: int,
)
    requires
        double_faithful(ops),
        forall|j: int| 0 <= j < samples.len() ==> finite(#[trigger] samples[j]),
        samples.len() <= signal.len(),
        forall|j: int| 0 <= j < samples.len() ==> widen_is(ops, samples[j], #[trigger] signal[j]),
        forall|j: int| samples.len() <= j < signal.len() ==> #[trigger] signal[j] == 0,
        0 <= i < signal.len(),
    ensures
        double_finite(signal[i]),
        double_scaled(signal[i]) == value_at(samples, i) * widening(),
{
    if i < samples.len() {
        assert(widen_is(ops, samples[i], signal[i]));
    } else {
        crate::rounding::lemma_value_of_double_bits(0);
        assert(crate::binary::double_magnitude(0) == 0);
        assert(0 * widening() == 0) by (nonlinear_arith);
    }
}

/// A circular convolution that is long enough is a linear one.
proof fn lemma_no_wrapping<A: DoubleArithmetic + Transform>(
    ops: &A,
    x: Seq<u32>,
    h: Seq<u32>,
    a: Seq<u64>,
    b: Seq<u64>,
    n: int,
    count: int,
)
    requires
        double_faithful(ops),
        a.len() == b.len(),
        x.len() + h.len() <= a.len() + 1,
        0 < h.len(),
        forall|i: int| 0 <= i < a.len() ==> double_scaled(#[trigger] a[i]) == value_at(x, i)
            * widening(),
        forall|i: int| 0 <= i < b.len() ==> double_scaled(#[trigger] b[i]) == value_at(h, i)
            * widening(),
        0 <= n < a.len(),
        0 <= count <= a.len(),
    ensures
        circular_terms(a, b, n, count) == convolution_terms(x, h, n, count) * (widening()
            * widening()),
    decreases count,
{
    let w = widening();
    if count > 0 {
        let k = count - 1;
        lemma_no_wrapping(ops, x, h, a, b, n, k);
        let j = if n >= k {
            n - k
        } else {
            n - k + b.len()
        };
        let (p, q) = (value_at(x, k), value_at(h, n - k));
        assert(double_scaled(a[k]) == p * w);
        assert(double_scaled(b[j]) == value_at(h, j) * w);
        if n < k {
            if k < x.len() {
                assert(j >= h.len());
            }
            assert(q == 0);
            assert(p * value_at(h, j) == p * q) by (nonlinear_arith)
                requires
                    p == 0 || value_at(h, j) == 0,
                    q == 0,
            ;
        }
        assert((p * w) * (value_at(h, j) * w) == (p * value_at(h, j)) * (w * w))
            by (nonlinear_arith);
        let before = convolution_terms(x, h, n, k);
        assert(before * (w * w) + (p * q) * (w * w) == (before + p * q) * (w * w))
            by (nonlinear_arith);
    } else {
        assert(0 * (w * w) == 0) by (nonlinear_arith);
    }
}

/// Beyond the samples of `x` there are no more terms.
proof fn lemma_all_terms(x: Seq<u32>, h: Seq<u32>, n: int, count: int)
    requires
        x.len() <= count,
    ensures
        convolution_terms(x, h, n, count) == convolution_at(x, h, n),
    decreases count,
{
    if count > x.len() {
        lemma_all_terms(x, h, n, count - 1);
        assert(value_at(x, count - 1) * value_at(h, n - (count - 1)) == 0) by (nonlinear_arith)
            requires
                value_at(x, count - 1) == 0,
        ;
    }
}

/// Convolving a block with a response gives the linear convolution of the two, with every sample
/// of both in it: at each `n`, the sum of the products of `input[k]` and `response[n - k]`. It has
/// the length of the transform, and is zero behind the last product.
///
/// What comes out is next to `raw / length`, and `raw` is off by no more than the transform is:
/// by nothing for an exact one, for which the slack is zero.
pub proof fn lemma_linear_convolution<A: DoubleArithmetic + Transform>(
    ops: &A,
    input: Seq<u32>,
    response: Seq<u32>,
    spectrum: Vec<Complex>,
    r: Seq<u64>,
    bound: int,
    slack: int,
    n: int,
) -> (raw: u64)
    requires
        double_faithful(ops),
        gives_half_spectra(ops),
        input.len() <= 128,
        0 < response.len(),
        transform_length(response.len() as int) <= usize::MAX,
        transform_length(response.len() as int) < 0x20_0000_0000_0000,
        forall|i: int|
            0 <= i < input.len() ==> finite(#[trigger] input[i]) && -bound <= scaled(input[i])
                * widening() <= bound,
        forall|i: int|
            0 <= i < response.len() ==> finite(#[trigger] response[i]) && -bound <= scaled(
                response[i],
            ) * widening() <= bound,
        0 <= bound,
        transforms_convolution(
            ops,
            transform_length(response.len() as int) as usize,
            bound,
            slack,
        ),
        buffer_fft_is(ops, response, spectrum),
        linear_convolution_is(ops, input, spectrum@, r),
        0 <= n < transform_length(response.len() as int),
    ensures
        r.len() == transform_length(response.len() as int),
        double_finite(raw),
        -slack <= double_scaled(raw) * double_one() - transform_length(response.len() as int) * (
        convolution_at(input, response, n) * (widening() * widening())) <= slack,
        double_rounded(double_scaled(raw), transform_length(response.len() as int), r[n]),
{
    let length = transform_length(response.len() as int);
    let one = double_one();
    lemma_transform_length(response.len() as int);
    lemma_spectrum_tells_length(ops, response, spectrum);
    assert(signal_length(spectrum@.len() as int) == length);
    let padded = lemma_every_sample_is_transformed(ops, response, spectrum);
    let (signal, transformed, product, raw, divisor) = choose|
        signal: Vec<u64>,
        transformed: Vec<Complex>,
        product: Vec<Complex>,
        raw: Vec<u64>,
        divisor: u64,
    |
        {
            &&& padded_is(ops, input, length, signal@)
            &&& #[trigger] forward_is(ops, signal, transformed)
            &&& spectrum_product_is(ops, transformed@, spectrum@, product@)
            &&& #[trigger] inverse_is(ops, product, length as usize, raw)
            &&& #[trigger] double_number_is(ops, length as usize, divisor)
            &&& quotients_are(ops, raw@, divisor, r)
        };
    assert(padded@.len() == length);
    assert forall|j: int| 0 <= j < input.len() implies widen_is(
        ops,
        input[j],
        #[trigger] signal@[j],
    ) by {}
    assert forall|j: int| input.len() <= j < signal@.len() implies #[trigger] signal@[j] == 0 by {}
    assert forall|i: int| 0 <= i < signal@.len() implies double_finite(#[trigger] signal@[i])
        && double_scaled(signal@[i]) == value_at(input, i) * widening() && -bound <= double_scaled(
        signal@[i],
    ) <= bound by {
        lemma_widened(ops, input, signal@, i);
        assert(0 * widening() == 0) by (nonlinear_arith);
        if i < input.len() {
            assert(finite(input[i]));
        }
    }
    assert forall|i: int| 0 <= i < padded@.len() implies double_finite(#[trigger] padded@[i])
        && double_scaled(padded@[i]) == value_at(response, i) * widening() && -bound
        <= double_scaled(padded@[i]) <= bound by {
        lemma_widened(ops, response, padded@, i);
        assert(0 * widening() == 0) by (nonlinear_arith);
        if i < response.len() {
            assert(finite(response[i]));
        }
    }
    assert(bounded(signal@, bound));
    assert(bounded(padded@, bound));
    assert(transformed@.len() == length / 2 + 1);
    assert(product@.len() == length / 2 + 1);
    assert(raw@.len() == length);
    assert(double_finite(raw@[n]));
    lemma_no_wrapping(ops, input, response, signal@, padded@, n, length);
    lemma_all_terms(input, response, n, length);
    lemma_pow2_pos(1074);
    let x = lemma_representable(length, 1074);
    lemma_double_exact(x, length * one, 1, divisor);
    assert(0 < length * one) by (nonlinear_arith)
        requires
            0 < length,
            0 < one,
    ;
    assert(double_quotient_is(ops, raw@[n], divisor, r[n]));
    lemma_reduced(double_scaled(raw@[n]), length, one, r[n]);
    raw@[n]
}

proof fn lemma_reduced(n: int, d: int, factor: int, r: u64)
    requires
        0 < factor,
        double_rounded(n * factor, d * factor, r),
    ensures
        double_rounded(n, d, r),
{
    assert forall|x: u64| #[trigger] double_finite(x) && double_scaled(x) * d
        <= n implies double_scaled(x) <= double_scaled(r) by {
        assert(double_scaled(x) * (d * factor) <= n * factor) by (nonlinear_arith)
            requires
                double_scaled(x) * d <= n,
                0 < factor,
        ;
    }
    assert forall|x: u64| #[trigger] double_finite(x) && double_scaled(x) * d
        >= n implies double_scaled(x) >= double_scaled(r) by {
        assert(double_scaled(x) * (d * factor) >= n * factor) by (nonlinear_arith)
            requires
                double_scaled(x) * d >= n,
                0 < factor,
        ;
    }
}

/// With an exact transform, a convolution whose sum of products is a number comes out as that
/// number.
pub proof fn lemma_exact_convolution<A: DoubleArithmetic + Transform>(
    ops: &A,
    input: Seq<u32>,
    response: Seq<u32>,
    spectrum: Vec<Complex>,
    r: Seq<u64>,
    bound: int,
    n: int,
    sum: u64,
)
    requires
        double_faithful(ops),
        gives_half_spectra(ops),
        input.len() <= 128,
        0 < response.len(),
        transform_length(response.len() as int) <= usize::MAX,
        transform_length(response.len() as int) < 0x20_0000_0000_0000,
        forall|i: int|
            0 <= i < input.len() ==> finite(#[trigger] input[i]) && -bound <= scaled(input[i])
                * widening() <= bound,
        forall|i: int|
            0 <= i < response.len() ==> finite(#[trigger] response[i]) && -bound <= scaled(
                response[i],
            ) * widening() <= bound,
        0 <= bound,
        transforms_convolution(
            ops,
            transform_length(response.len() as int) as usize,
            bound,
            0,
        ),
        buffer_fft_is(ops, response, spectrum),
        linear_convolution_is(ops, input, spectrum@, r),
        0 <= n < transform_length(response.len() as int),
        double_finite(sum),
        double_scaled(sum) * double_one() == convolution_at(input, response, n) * (widening()
            * widening()),
    ensures
        double_finite(r[n]),
        double_scaled(r[n]) == double_scaled(sum),
{
    let raw = lemma_linear_convolution(ops, input, response, spectrum, r, bound, 0, n);
    let length = transform_length(response.len() as int);
    let one = double_one();
    lemma_pow2_pos(1074);
    let s = convolution_at(input, response, n) * (widening() * widening());
    assert(double_scaled(sum) * length == double_scaled(raw)) by (nonlinear_arith)
        requires
            double_scaled(raw) * one == length * s,
            double_scaled(sum) * one == s,
            0 < one,
    ;
    lemma_double_exact(sum, double_scaled(raw), length, r[n]);
}

/// Which input channel meets which channel of the response, for each channel of the output: the
/// response channel is the one of the same number, unless there is only one, and the input channel
/// is the one of the same number, unless there is only one, or two for each of the two halves of
/// a matrix of four.
pub proof fn lemma_what_is_routed(input_channels: u8, response_channels: u8, i: int)
    requires
        input_channels == 1 || input_channels == 2,
        response_channels == 1 || response_channels == 2 || response_channels == 4,
        0 <= i,
        i < input_channels || i < response_channels,
    ensures
        routes(input_channels, response_channels) is Some,
        routes(input_channels, response_channels)->0.len() == if input_channels
            < response_channels {
            response_channels
        } else {
            input_channels
        },
        routes(input_channels, response_channels)->0[i].1 == if response_channels == 1 {
            0
        } else {
            i
        },
        routes(input_channels, response_channels)->0[i].0 == if input_channels == 1 {
            0
        } else if response_channels == 4 {
            i / 2
        } else {
            i
        },
{
}

/// A node without a response, or one whose spectra were not kept, and a node whose input or
/// response has another number of channels, puts out what it gets. Every other node convolves.
pub proof fn lemma_when_a_node_convolves<A: DoubleArithmetic + Transform>(
    ops: &A,
    node: ConvolverNode,
    inputs: Seq<Block>,
    output: Seq<Block>,
)
    requires
        processed(ops, node, inputs, output),
    ensures
        ({
            let n = inputs[0].channels;
            let m = node.buffer->0.buffers@.len() as int % 256;
            let convolves = node.buffer is Some && node.buffer_ffts is Some && (n == 1 || n == 2)
                && (m == 1 || m == 2 || m == 4);
            &&& !convolves ==> output == inputs
            &&& convolves ==> convolver_output(ops, node, inputs[0], output)
        }),
{
    if node.buffer is Some {
        lemma_routes(inputs[0].channels, node.buffer->0.channel_count() as u8);
    }
}

/// The convolutions along some routes stand one after the other, each as long as the transform.
proof fn lemma_route_in_its_place<A: DoubleArithmetic + Transform>(
    ops: &A,
    block: Block,
    spectra: Seq<Vec<Complex>>,
    list: Seq<(u8, usize)>,
    r: Seq<u32>,
    length: int,
    i: int,
)
    requires
        routed_is(ops, block, spectra, list, r),
        gives_asked_length(ops),
        0 <= length <= usize::MAX,
        forall|j: int|
            0 <= j < list.len() ==> signal_length(
                spectra[(#[trigger] list[j]).1 as int]@.len() as int,
            ) == length,
        0 <= i < list.len(),
    ensures
        r.len() == list.len() * length,
        0 <= i * length <= (i + 1) * length <= r.len(),
        convolved_is(
            ops,
            block.channel(list[i].0 as int),
            spectra[list[i].1 as int]@,
            r.subrange(i * length, (i + 1) * length),
        ),
    decreases list.len(),
{
    let rest = list.drop_last();
    let last = list.last();
    let count = list.len() as int;
    assert(last == list[count - 1]);
    let before = choose|before: Seq<u32>|
        routed_is(ops, block, spectra, rest, before) && #[trigger] route_added_is(
            ops,
            before,
            block,
            spectra,
            last,
            r,
        );
    let convolved = choose|convolved: Seq<u32>|
        #[trigger] convolved_is(
            ops,
            block.channel(last.0 as int),
            spectra[last.1 as int]@,
            convolved,
        ) && r == before + convolved;
    lemma_convolved_length(
        ops,
        block.channel(last.0 as int),
        spectra[last.1 as int]@,
        convolved,
        length,
    );
    assert forall|j: int| 0 <= j < rest.len() implies signal_length(
        spectra[(#[trigger] rest[j]).1 as int]@.len() as int,
    ) == length by {
        assert(rest[j] == list[j]);
    }
    assert((count - 1) * length + length == count * length) by (nonlinear_arith);
    assert((i + 1) * length == i * length + length && 0 <= i * length <= (count - 1) * length)
        by (nonlinear_arith)
        requires
            0 <= i <= count - 1,
            0 <= length,
    ;
    if count > 1 {
        lemma_route_in_its_place(
            ops,
            block,
            spectra,
            rest,
            before,
            length,
            if i < count - 1 {
                i
            } else {
                0
            },
        );
    } else {
        assert(before.len() == 0);
        assert(0 * length == 0) by (nonlinear_arith);
    }
    assert(before.len() == (count - 1) * length);
    if i < count - 1 {
        assert(rest[i] == list[i]);
        assert((i + 1) * length <= (count - 1) * length) by (nonlinear_arith)
            requires
                i + 1 <= count - 1,
                0 <= length,
        ;
        assert(r.subrange(i * length, (i + 1) * length) =~= before.subrange(
            i * length,
            (i + 1) * length,
        ));
    } else {
        assert(r.subrange(i * length, (i + 1) * length) =~= convolved);
    }
}

proof fn lemma_convolved_length<A: DoubleArithmetic + Transform>(
    ops: &A,
    input: Seq<u32>,
    response: Seq<Complex>,
    r: Seq<u32>,
    length: int,
)
    requires
        convolved_is(ops, input, response, r),
        gives_asked_length(ops),
        signal_length(response.len() as int) == length,
        0 <= length <= usize::MAX,
    ensures
        r.len() == length,
{
    let wide = choose|wide: Seq<u64>|
        {
            &&& #[trigger] linear_convolution_is(ops, input, response, wide)
            &&& r.len() == wide.len()
            &&& forall|i: int| 0 <= i < r.len() ==> narrow_is(ops, wide[i], #[trigger] r[i])
        };
}

/// A sample that a convolver node puts out: on each channel of the output, the linear convolution
/// of the input channel and the response channel that `lemma_what_is_routed` names, in single
/// precision, and times the factor that normalizes the response, if the node does that. The
/// output holds one transform after the other.
///
/// The second of the results is the samples in double precision, which `lemma_linear_convolution`
/// speaks of for the spectrum that comes first. The third one is the sample in single precision,
/// and the others are that sample in double precision again, and its product with the factor.
pub proof fn lemma_convolver_sample<A: DoubleArithmetic + Transform>(
    ops: &A,
    node: ConvolverNode,
    response: AudioBuffer,
    input: Block,
    output: Seq<Block>,
    length: int,
    i: int,
    n: int,
) -> (found: (Vec<Complex>, Seq<u64>, u32, u64, u64))
    requires
        gives_half_spectra(ops),
        gives_asked_length(ops),
        has_response(ops, node, response, node.normalize),
        transformable(response),
        0 < length,
        transform_length(length) <= usize::MAX,
        forall|j: int|
            0 <= j < response.buffers@.len() ==> (#[trigger] response.buffers@[j])@.len()
                == length,
        input.channels == 1 || input.channels == 2,
        response.buffers@.len() == 1 || response.buffers@.len() == 2 || response.buffers@.len()
            == 4,
        processed(ops, node, seq![input], output),
        0 <= i,
        i < input.channels || i < response.buffers@.len(),
        0 <= n < transform_length(length),
    ensures
        output.len() == 1,
        output[0].buffer@.len() == (if input.channels < response.buffers@.len() {
            response.buffers@.len() as int
        } else {
            input.channels as int
        }) * transform_length(length),
        output[0].channels == (output[0].buffer@.len() / 128) % 256,
        ({
            let (spectrum, wide, sample, again, product) = found;
            let from = if input.channels == 1 {
                0
            } else if response.buffers@.len() == 4 {
                i / 2
            } else {
                i
            };
            let with = if response.buffers@.len() == 1 {
                0
            } else {
                i
            };
            let at = i * transform_length(length) + n;
            &&& 0 <= at < output[0].buffer@.len()
            &&& buffer_fft_is(ops, response.buffers@[with]@, spectrum)
            &&& linear_convolution_is(ops, input.channel(from), spectrum@, wide)
            &&& n < wide.len()
            &&& narrow_is(ops, wide[n], sample)
            &&& if node.normalize {
                &&& node.normalization_scale is Some
                &&& widen_is(ops, sample, again)
                &&& double_product_is(ops, again, node.normalization_scale->0, product)
                &&& narrow_is(ops, product, output[0].buffer@[at])
            } else {
                output[0].buffer@[at] == sample
            }
        }),
{
    let total = transform_length(length);
    lemma_transform_length(length);
    crate::convolver_node::lemma_spectra_are_kept(ops, response, node.buffer_ffts);
    let spectra = node.buffer_ffts->0;
    let m = response.buffers@.len() as u8;
    assert(response.channel_count() == m);
    lemma_what_is_routed(input.channels, m, i);
    lemma_routes(input.channels, m);
    let list = routes(input.channels, m)->0;
    assert(can_convolve(node, input.channels));
    assert(convolver_output(ops, node, input, output));
    let scale = if node.normalize {
        node.normalization_scale
    } else {
        None
    };
    let samples = choose|samples: Seq<u32>|
        {
            &&& #[trigger] routed_is(ops, input, spectra@, list, samples)
            &&& output.len() == 1
            &&& crate::convolver_node::scaled_samples_are(
                ops,
                samples,
                scale,
                output[0].buffer@,
            )
            &&& output[0].channels == (output[0].buffer@.len() / FRAMES_PER_BLOCK_USIZE as nat)
                % 256
        };
    assert forall|j: int| 0 <= j < list.len() implies signal_length(
        spectra@[(#[trigger] list[j]).1 as int]@.len() as int,
    ) == total by {
        let c = list[j].1 as int;
        assert(0 <= c < spectra@.len());
        assert(response.buffers@[c]@.len() == length);
        lemma_spectrum_tells_length(ops, response.buffers@[c]@, spectra@[c]);
    }
    lemma_route_in_its_place(ops, input, spectra@, list, samples, total, i);
    let segment = samples.subrange(i * total, (i + 1) * total);
    let (from, with) = (list[i].0 as int, list[i].1 as int);
    let spectrum = spectra@[with];
    let wide = choose|wide: Seq<u64>|
        {
            &&& #[trigger] linear_convolution_is(ops, input.channel(from), spectrum@, wide)
            &&& segment.len() == wide.len()
            &&& forall|j: int|
                0 <= j < segment.len() ==> narrow_is(ops, wide[j], #[trigger] segment[j])
        };
    assert((i + 1) * total == i * total + total) by (nonlinear_arith);
    let at = i * total + n;
    assert(segment[n] == samples[at]);
    assert(buffer_fft_is(ops, response.buffers@[with]@, spectrum));
    if node.normalize {
        let scale = node.normalization_scale->0;
        assert(scaled_sample_is(ops, samples[at], scale, output[0].buffer@[at]));
        let (again, product) = choose|again: u64, product: u64|
            #[trigger] widen_is(ops, samples[at], again) && #[trigger] double_product_is(
                ops,
                again,
                scale,
                product,
            ) && narrow_is(ops, product, output[0].buffer@[at]);
        (spectrum, wide, samples[at], again, product)
    } else {
        (spectrum, wide, samples[at], 0, 0)
    }
}

/// A sample times the factor that normalizes a response is next to the product of their values,
/// where that product is a number of double precision.
pub proof fn lemma_scaled_sample<A: DoubleArithmetic>(
    ops: &A,
    sample: u32,
    scale: u64,
    r: u32,
    product: u64,
)
    requires
        double_faithful(ops),
        scaled_sample_is(ops, sample, scale, r),
        finite(sample),
        double_finite(scale),
        double_finite(product),
        double_scaled(product) * double_one() == (scaled(sample) * widening()) * double_scaled(
            scale,
        ),
    ensures
        rounded(double_scaled(product), widening(), r),
{
    let (wide, found) = choose|wide: u64, found: u64|
        #[trigger] widen_is(ops, sample, wide) && #[trigger] double_product_is(
            ops,
            wide,
            scale,
            found,
        ) && narrow_is(ops, found, r);
    lemma_double_exact(
        product,
        double_scaled(wide) * double_scaled(scale),
        double_one(),
        found,
    );
}

} // verus!
