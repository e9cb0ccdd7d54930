//! How far a delay reaches back, by the values of its times and of the sample rate.
use crate::arithmetic::{
    double_number_is, double_product_is, double_quotient_is, number_is, product_is, quotient_is,
    sum_is, widen_is, Arithmetic, DoubleArithmetic, Mixing,
};
use crate::audio_node::{BlockInfo, ParamUpdate};
use crate::binary::{self, double_ceil_of, double_scaled, scaled, scaled_one};
use crate::block::{Block, FRAMES_PER_BLOCK_USIZE};
use crate::delay_node::delay_reader::delay_is;
use crate::delay_node::delay_writer::delay_blocks_is;
use crate::delay_node::stream::{
    comes_to, delay_bound, direct_ran, exact, is_whole, lemma_direct_stream_is_shifted,
    lemma_stream_is_shifted, ran, stream_sample, uniform, within_longest_delay,
};
use crate::delay_node::values::{
    interpolation_is, is_one_silent_channel, is_place_of, lemma_delayed_sample,
    lemma_direct_sample, nothing_at,
};
use crate::delay_node::taps::{position_is, positions_are};
use crate::delay_node::{processed, DelayNode};
use crate::direct_delay_node;
use crate::rounding::{
    double_faithful, double_finite, double_one, double_rounded, faithful, finite,
    lemma_double_ceiling, lemma_double_exact, lemma_exact, lemma_integer, lemma_representable,
    widening,
};
use vstd::arithmetic::power2::{lemma2_to64, lemma_pow2_adds, lemma_pow2_pos, pow2};
use vstd::prelude::*;

verus! {

/// A delay time, in seconds, times a sample rate, on the scale of `double_one() * double_one()`.
pub open spec fn time_in_frames(delay_time: u64, sample_rate: u32) -> int {
    double_scaled(delay_time) * (scaled(sample_rate) * widening())
}

/// The blocks that a delay time takes: enough for every whole number of frames that is not longer
/// than the delay time, and no more than any number of blocks that is long enough.
pub proof fn lemma_blocks_of_a_delay_time<A: DoubleArithmetic>(
    ops: &A,
    delay_time: u64,
    sample_rate: u32,
    blocks: usize,
    n: int,
)
    requires
        double_faithful(ops),
        delay_blocks_is(ops, delay_time, sample_rate, blocks),
        double_finite(delay_time),
        0 <= double_scaled(delay_time),
        finite(sample_rate),
        0 < scaled(sample_rate),
        time_in_frames(delay_time, sample_rate) < 0x1f_ffff_ffff_ffff * double_one() * double_one(),
        0 <= n < 0x3fff_ffff_ffff,
    ensures
        n * double_one() * double_one() <= time_in_frames(delay_time, sample_rate) ==> n <= blocks
            * 128 || blocks == usize::MAX,
        time_in_frames(delay_time, sample_rate) <= (n * 128) * double_one() * double_one() && n
            <= usize::MAX ==> blocks <= n,
{
    let one = double_one();
    lemma_pow2_pos(1074);
    lemma_pow2_pos(925);
    lemma_pow2_pos(1067);
    lemma2_to64();
    let (rate, frames, length, quotient) = choose|
        rate: u64,
        frames: u64,
        length: u64,
        quotient: u64,
    |
        {
            &&& #[trigger] widen_is(ops, sample_rate, rate)
            &&& #[trigger] double_product_is(ops, delay_time, rate, frames)
            &&& #[trigger] double_number_is(ops, FRAMES_PER_BLOCK_USIZE, length)
            &&& #[trigger] double_quotient_is(ops, frames, length, quotient)
            &&& blocks == double_ceil_of(quotient)
        };
    let e = time_in_frames(delay_time, sample_rate);
    assert(double_rounded(e, one, frames));
    let top = lemma_representable(0x1f_ffff_ffff_ffff, 1074);
    assert(double_finite(top));
    assert(double_scaled(frames) <= double_scaled(top));
    let nought = lemma_representable(0, 1074);
    assert(double_scaled(nought) == 0) by (nonlinear_arith)
        requires
            double_scaled(nought) == 0 * pow2(1074),
    ;
    assert(0 <= e) by (nonlinear_arith)
        requires
            e == double_scaled(delay_time) * (scaled(sample_rate) * widening()),
            0 <= double_scaled(delay_time),
            0 < scaled(sample_rate),
            0 < widening(),
    ;
    assert(double_finite(nought));
    assert(0 <= double_scaled(frames)) by {
        assert(double_scaled(nought) * one <= e) by (nonlinear_arith)
            requires
                double_scaled(nought) == 0,
                0 <= e,
        ;
    }
    lemma_below_is_finite(frames, top);
    let block = lemma_representable(128, 1074);
    lemma_double_exact(block, 128 * one, 1, length);
    assert(double_scaled(length) == 128 * one);
    assert(double_rounded(double_scaled(frames) * one, 128 * one, quotient));
    if n * one * one <= e {
        let x = lemma_representable(n, 1074);
        assert(double_finite(x));
        assert(n * one <= double_scaled(frames));
        let y = lemma_representable(n, 1067);
        assert(double_finite(y));
        lemma_pow2_adds(7, 1067);
        let part = pow2(1067) as int;
        assert(one == 128 * part);
        assert((n * part) * (128 * one) == (n * one) * one) by (nonlinear_arith)
            requires
                one == 128 * part,
        ;
        assert((n * one) * one <= double_scaled(frames) * one) by (nonlinear_arith)
            requires
                n * one <= double_scaled(frames),
                0 < one,
        ;
        assert(double_scaled(y) <= double_scaled(quotient));
        lemma_double_ceiling(quotient, blocks as int);
        if blocks < usize::MAX {
            assert(n <= blocks * 128) by (nonlinear_arith)
                requires
                    n * part <= blocks * one,
                    one == 128 * part,
                    0 < part,
            ;
        }
    }
    if e <= (n * 128) * one * one && n <= usize::MAX {
        let z = lemma_representable(n * 128, 1074);
        assert(double_finite(z));
        assert(double_scaled(frames) <= (n * 128) * one);
        let u = lemma_representable(n, 1074);
        assert(double_finite(u));
        assert((n * one) * (128 * one) >= double_scaled(frames) * one) by (nonlinear_arith)
            requires
                double_scaled(frames) <= (n * 128) * one,
                0 < one,
        ;
        assert(double_scaled(quotient) <= n * one);
        lemma_double_ceiling(quotient, n);
    }
}

proof fn lemma_below_is_finite(a: u64, b: u64)
    requires
        0 <= double_scaled(a) <= double_scaled(b),
        double_finite(b),
        !binary::double_not_a_number(a),
    ensures
        double_finite(a),
{
    let (m, n) = (binary::double_magnitude(a), binary::double_magnitude(b));
    if !double_finite(a) {
        binary::lemma_magnitude_order(n, m, 52);
    }
}

/// Every whole delay up to the longest delay time fits into the delay line.
pub proof fn lemma_within_longest_delay<A: DoubleArithmetic>(
    ops: &A,
    max_delay_time: u64,
    sample_rate: u32,
    frames: int,
)
    requires
        double_faithful(ops),
        double_finite(max_delay_time),
        0 <= double_scaled(max_delay_time),
        finite(sample_rate),
        0 < scaled(sample_rate),
        time_in_frames(max_delay_time, sample_rate) < 0x1f_ffff_ffff_ffff * double_one()
            * double_one(),
        0 <= frames < delay_bound(),
        frames * double_one() * double_one() <= time_in_frames(max_delay_time, sample_rate),
    ensures
        within_longest_delay(ops, max_delay_time, sample_rate, frames),
{
    assert forall|blocks: usize| #[trigger]
        delay_blocks_is(ops, max_delay_time, sample_rate, blocks) implies frames <= blocks
        * FRAMES_PER_BLOCK_USIZE by {
        lemma_blocks_of_a_delay_time(ops, max_delay_time, sample_rate, blocks, frames);
    }
}

/// A delay time whose product with the sample rate is a whole number comes to so many frames.
pub proof fn lemma_comes_to<A: Arithmetic>(ops: &A, delay_time: u32, sample_rate: u32, frames: int)
    requires
        faithful(ops),
        finite(delay_time),
        finite(sample_rate),
        0 <= frames < delay_bound(),
        scaled(delay_time) * scaled(sample_rate) == frames * scaled_one() * scaled_one(),
    ensures
        comes_to(ops, delay_time, sample_rate, frames),
{
    assert forall|r: u32| #[trigger] product_is(ops, delay_time, sample_rate, r) implies is_whole(
        r,
        frames,
    ) by {
        let x = lemma_integer(frames);
        lemma_exact(x, scaled(delay_time) * scaled(sample_rate), scaled_one(), r);
    }
}

/// A delay whose time, times the sample rate, is a whole number of frames shifts the stream of
/// samples by so many frames, for every time up to the longest one that the node was made for:
/// zeros come out before the first sample that went in, and none is lost.
pub proof fn lemma_stream_up_to_the_longest_delay<E, A: Arithmetic + DoubleArithmetic + Mixing>(
    ops: &A,
    info: BlockInfo,
    updates: Seq<Seq<ParamUpdate>>,
    nodes: Seq<DelayNode<E>>,
    inputs: Seq<Block>,
    outputs: Seq<Seq<Block>>,
    channels: int,
    frames: int,
    k: int,
    tick: int,
    channel: int,
)
    requires
        faithful(ops),
        double_faithful(ops),
        exact(ops, nodes[0].delay_reader.channel_info.interpretation),
        ran(ops, info, updates, nodes, inputs, outputs),
        !nodes[0].delay_reader.is_cycle_breaker,
        uniform(inputs, channels),
        finite(info.sample_rate),
        0 < scaled(info.sample_rate),
        double_finite(nodes[0].delay_writer.max_delay_time),
        0 <= double_scaled(nodes[0].delay_writer.max_delay_time),
        time_in_frames(nodes[0].delay_writer.max_delay_time, info.sample_rate)
            < 0x1f_ffff_ffff_ffff * double_one() * double_one(),
        0 <= frames < delay_bound(),
        frames * double_one() * double_one() <= time_in_frames(
            nodes[0].delay_writer.max_delay_time,
            info.sample_rate,
        ),
        forall|i: int, t: int|
            0 <= i < inputs.len() && 0 <= t < FRAMES_PER_BLOCK_USIZE ==> finite(
                (#[trigger] updates[i][t]).value,
            ) && scaled(updates[i][t].value) * scaled(info.sample_rate) == frames * scaled_one()
                * scaled_one(),
        0 <= k < inputs.len(),
        0 <= tick < FRAMES_PER_BLOCK_USIZE,
        0 <= channel < channels,
    ensures
        outputs[k].len() == 1,
        outputs[k][0].channels == if k * 128 + 127 >= frames {
            channels
        } else {
            1
        },
        k * 128 + tick < frames ==> outputs[k][0].sample(tick, channel) == 0,
        k * 128 + tick >= frames && !binary::not_a_number(
            stream_sample(inputs, k * 128 + tick - frames, channel),
        ) ==> binary::equal_numbers(
            outputs[k][0].sample(tick, channel),
            stream_sample(inputs, k * 128 + tick - frames, channel),
        ),
{
    lemma_within_longest_delay(
        ops,
        nodes[0].delay_writer.max_delay_time,
        info.sample_rate,
        frames,
    );
    assert forall|i: int, t: int|
        0 <= i < inputs.len() && 0 <= t < FRAMES_PER_BLOCK_USIZE implies comes_to(
        ops,
        (#[trigger] updates[i][t]).value,
        info.sample_rate,
        frames,
    ) by {
        lemma_comes_to(ops, updates[i][t].value, info.sample_rate, frames);
    }
    lemma_stream_is_shifted(
        ops,
        info,
        updates,
        nodes,
        inputs,
        outputs,
        channels,
        frames,
        k,
        tick,
        channel,
    );
}

/// A direct node too shifts the stream of samples by a whole delay, for every time up to the
/// longest one that the node was made for.
pub proof fn lemma_direct_stream_up_to_the_longest_delay<
    E,
    A: Arithmetic + DoubleArithmetic + Mixing,
>(
    ops: &A,
    info: BlockInfo,
    updates: Seq<Seq<ParamUpdate>>,
    nodes: Seq<direct_delay_node::DelayNode<E>>,
    inputs: Seq<Block>,
    outputs: Seq<Seq<Block>>,
    channels: int,
    frames: int,
    k: int,
    tick: int,
    channel: int,
)
    requires
        faithful(ops),
        double_faithful(ops),
        exact(ops, nodes[0].channel_info.interpretation),
        direct_ran(ops, info, updates, nodes, inputs, outputs),
        uniform(inputs, channels),
        finite(info.sample_rate),
        0 < scaled(info.sample_rate),
        double_finite(nodes[0].max_delay_time),
        0 <= double_scaled(nodes[0].max_delay_time),
        time_in_frames(nodes[0].max_delay_time, info.sample_rate) < 0x1f_ffff_ffff_ffff
            * double_one() * double_one(),
        0 <= frames < delay_bound(),
        frames * double_one() * double_one() <= time_in_frames(
            nodes[0].max_delay_time,
            info.sample_rate,
        ),
        forall|i: int, t: int|
            0 <= i < inputs.len() && 0 <= t < FRAMES_PER_BLOCK_USIZE ==> finite(
                (#[trigger] updates[i][t]).value,
            ) && scaled(updates[i][t].value) * scaled(info.sample_rate) == frames * scaled_one()
                * scaled_one(),
        0 <= k < inputs.len(),
        0 <= tick < FRAMES_PER_BLOCK_USIZE,
        0 <= channel < channels,
    ensures
        outputs[k].len() == 1,
        outputs[k][0].channels == if k * 128 + 127 >= frames {
            channels
        } else {
            1
        },
        k * 128 + tick < frames ==> outputs[k][0].sample(tick, channel) == 0,
        k * 128 + tick >= frames && !binary::not_a_number(
            stream_sample(inputs, k * 128 + tick - frames, channel),
        ) ==> binary::equal_numbers(
            outputs[k][0].sample(tick, channel),
            stream_sample(inputs, k * 128 + tick - frames, channel),
        ),
{
    lemma_within_longest_delay(ops, nodes[0].max_delay_time, info.sample_rate, frames);
    assert forall|i: int, t: int|
        0 <= i < inputs.len() && 0 <= t < FRAMES_PER_BLOCK_USIZE implies comes_to(
        ops,
        (#[trigger] updates[i][t]).value,
        info.sample_rate,
        frames,
    ) by {
        lemma_comes_to(ops, updates[i][t].value, info.sample_rate, frames);
    }
    lemma_direct_stream_is_shifted(
        ops,
        info,
        updates,
        nodes,
        inputs,
        outputs,
        channels,
        frames,
        k,
        tick,
        channel,
    );
}

/// The delay of a frame is its delay time, times the sample rate. As part of a cycle it is that,
/// or the frames of a block, whichever is longer. `quantum` is the time that a block takes.
pub proof fn lemma_delay_in_frames<A: Arithmetic>(
    ops: &A,
    is_cycle_breaker: bool,
    delay_time: u32,
    sample_rate: u32,
    delay: u32,
    quantum: u32,
    expected: u32,
)
    requires
        faithful(ops),
        delay_is(ops, is_cycle_breaker, delay_time, sample_rate, delay),
        finite(delay_time),
        finite(sample_rate),
        0 < scaled(sample_rate),
        finite(quantum),
        scaled(quantum) * scaled(sample_rate) == 128 * scaled_one() * scaled_one(),
        finite(expected),
        scaled(expected) * scaled_one() == (if is_cycle_breaker && scaled(delay_time) < scaled(
            quantum,
        ) {
            scaled(quantum)
        } else {
            scaled(delay_time)
        }) * scaled(sample_rate),
    ensures
        finite(delay),
        scaled(delay) == scaled(expected),
        is_cycle_breaker ==> scaled(delay) >= 128 * scaled_one(),
{
    lemma_pow2_pos(149);
    let one = scaled_one();
    if is_cycle_breaker {
        let (length, least) = choose|length: u32, least: u32|
            #[trigger] number_is(ops, FRAMES_PER_BLOCK_USIZE as i32, length)
                && #[trigger] quotient_is(ops, length, sample_rate, least) && product_is(
                ops,
                binary::maximum_of(delay_time, least),
                sample_rate,
                delay,
            );
        let block = lemma_integer(128);
        lemma_exact(block, 128 * one, 1, length);
        lemma_exact(quantum, scaled(length) * one, scaled(sample_rate), least);
        let clamped = binary::maximum_of(delay_time, least);
        lemma_exact(expected, scaled(clamped) * scaled(sample_rate), one, delay);
        assert(scaled(expected) >= 128 * one) by (nonlinear_arith)
            requires
                scaled(expected) * one == scaled(clamped) * scaled(sample_rate),
                scaled(clamped) >= scaled(quantum),
                scaled(quantum) * scaled(sample_rate) == 128 * one * one,
                0 < scaled(sample_rate),
                0 < one,
        ;
    } else {
        lemma_exact(expected, scaled(delay_time) * scaled(sample_rate), one, delay);
    }
}

/// What a node that is not part of a cycle puts out in a render quantum: each sample is the linear
/// interpolation of what went in around the time that lies its delay time back, on its own
/// channel. The line that it is read from has the input at its front, before what it held.
///
/// `delay` is the delay time at the tick, times the sample rate.
pub proof fn lemma_processed_sample<E, A: Arithmetic + DoubleArithmetic + Mixing>(
    ops: &A,
    before: DelayNode<E>,
    after: DelayNode<E>,
    input: Block,
    info: BlockInfo,
    updates: Seq<ParamUpdate>,
    output: Seq<Block>,
    tick: int,
    channel: int,
    delay: u32,
    position: u32,
    x: int,
    y: int,
    weight: u32,
    near: u32,
    far: u32,
    total: u32,
)
    requires
        faithful(ops),
        processed(ops, before, after, input, info, updates, output),
        !before.delay_reader.is_cycle_breaker,
        0 <= tick < 128,
        0 <= channel < output[0].channels,
        finite(updates[tick].value),
        finite(info.sample_rate),
        finite(delay),
        scaled(delay) * scaled_one() == scaled(updates[tick].value) * scaled(info.sample_rate),
        is_place_of(position, delay, false, tick),
        interpolation_is(
            ops,
            after.state.delay_line@,
            before.delay_reader.channel_info.interpretation,
            output[0].channels,
            position,
            channel,
            x,
            y,
            weight,
            near,
            far,
            total,
        ),
    ensures
        output.len() == 1,
        after.state.delay_line@.len() > 0,
        after.state.delay_line@[0] == input,
        forall|i: int|
            0 < i < after.state.delay_line@.len() ==> #[trigger] after.state.delay_line@[i]
                == before.state.delay_line@[i - 1],
        ({
            let lower = scaled(position) / scaled_one();
            let f = scaled(position) % scaled_one();
            ||| finite(output[0].sample(tick, channel)) && scaled(output[0].sample(tick, channel))
                * scaled_one() == (scaled_one() - f) * x + f * y
            ||| is_one_silent_channel(output[0]) && nothing_at(after.state.delay_line@, lower) && (f
                != 0 ==> nothing_at(after.state.delay_line@, lower + 1))
        }),
{
    let delays = after.delay_reader.delay_frames@;
    assert(product_is(ops, updates[tick].value, info.sample_rate, delays[tick])) by {
        assert(delay_is(ops, false, updates[tick].value, info.sample_rate, delays[tick]));
    }
    lemma_exact(
        delay,
        scaled(updates[tick].value) * scaled(info.sample_rate),
        scaled_one(),
        delays[tick],
    );
    lemma_delayed_sample(
        ops,
        after.state.delay_line@,
        before.delay_reader.channel_info.interpretation,
        delays,
        false,
        crate::delay_node::delay_writer::upmixed_after(before.state.upmixed_block),
        after.state.upmixed_block,
        output,
        tick,
        channel,
        position,
        x,
        y,
        weight,
        near,
        far,
        total,
    );
}

/// What a direct node puts out in a render quantum: each sample is the linear interpolation of
/// what went in around the time that lies its delay time back, on its own channel.
///
/// `delay` is the delay time at the tick, times the sample rate.
pub proof fn lemma_direct_processed_sample<E, A: Arithmetic + DoubleArithmetic + Mixing>(
    ops: &A,
    before: direct_delay_node::DelayNode<E>,
    after: direct_delay_node::DelayNode<E>,
    input: Block,
    info: BlockInfo,
    updates: Seq<ParamUpdate>,
    output: Seq<Block>,
    tick: int,
    channel: int,
    delay: u32,
    position: u32,
    x: int,
    y: int,
    weight: u32,
    near: u32,
    far: u32,
    total: u32,
)
    requires
        faithful(ops),
        direct_delay_node::processed(ops, before, after, input, info, updates, output),
        updates.len() == 128,
        0 <= tick < 128,
        0 <= channel < output[0].channels,
        finite(updates[tick].value),
        finite(info.sample_rate),
        finite(delay),
        scaled(delay) * scaled_one() == scaled(updates[tick].value) * scaled(info.sample_rate),
        is_place_of(position, delay, false, tick),
        interpolation_is(
            ops,
            after.state.delay_line@,
            before.channel_info.interpretation,
            output[0].channels,
            position,
            channel,
            x,
            y,
            weight,
            near,
            far,
            total,
        ),
    ensures
        output.len() == 1,
        after.delay_frames@.len() == 128,
        scaled(after.delay_frames@[tick]) == scaled(delay),
        after.state.delay_line@.len() > 0,
        after.state.delay_line@[0] == input,
        forall|i: int|
            0 < i < after.state.delay_line@.len() ==> #[trigger] after.state.delay_line@[i]
                == before.state.delay_line@[i - 1],
        ({
            let lower = scaled(position) / scaled_one();
            let f = scaled(position) % scaled_one();
            ||| finite(output[0].sample(tick, channel)) && scaled(output[0].sample(tick, channel))
                * scaled_one() == (scaled_one() - f) * x + f * y
            ||| is_one_silent_channel(output[0]) && nothing_at(after.state.delay_line@, lower) && (f
                != 0 ==> nothing_at(after.state.delay_line@, lower + 1))
        }),
{
    let delays = after.delay_frames@;
    assert(product_is(ops, updates[tick].value, info.sample_rate, delays[tick]));
    lemma_exact(
        delay,
        scaled(updates[tick].value) * scaled(info.sample_rate),
        scaled_one(),
        delays[tick],
    );
    let positions = choose|positions: Seq<u32>|
        #[trigger] positions_are(ops, delays, false, positions)
            && direct_delay_node::direct_output(
            ops,
            after.state.delay_line@,
            before.channel_info.interpretation,
            positions,
            after.state.upmixed_block,
            output,
        );
    lemma_direct_sample(
        ops,
        after.state.delay_line@,
        before.channel_info.interpretation,
        delays,
        positions,
        after.state.upmixed_block,
        output,
        tick,
        channel,
        position,
        x,
        y,
        weight,
        near,
        far,
        total,
    );
}

/// The frames of a delay time are its product with the sample rate and the frames of a block,
/// where no step has to be rounded: `samples` and `expected` are the two products.
pub proof fn lemma_delay_frames<A: DoubleArithmetic>(
    ops: &A,
    delay_time: u64,
    sample_rate: u64,
    frames: u64,
    samples: u64,
    expected: u64,
)
    requires
        double_faithful(ops),
        direct_delay_node::delay_frames_is(ops, delay_time, sample_rate, frames),
        double_finite(delay_time),
        double_finite(sample_rate),
        double_finite(samples),
        double_scaled(samples) * double_one() == double_scaled(delay_time) * double_scaled(
            sample_rate,
        ),
        double_finite(expected),
        double_scaled(expected) == double_scaled(samples) * 128,
    ensures
        double_finite(frames),
        double_scaled(frames) * double_one() == double_scaled(delay_time) * double_scaled(
            sample_rate,
        ) * 128,
{
    let one = double_one();
    let (first, length) = choose|first: u64, length: u64|
        #[trigger] double_product_is(ops, delay_time, sample_rate, first)
            && #[trigger] double_number_is(ops, FRAMES_PER_BLOCK_USIZE, length)
            && double_product_is(ops, first, length, frames);
    lemma_double_exact(
        samples,
        double_scaled(delay_time) * double_scaled(sample_rate),
        one,
        first,
    );
    let block = lemma_representable(128, 1074);
    lemma_double_exact(block, 128 * one, 1, length);
    assert(double_scaled(expected) * one == double_scaled(first) * double_scaled(length))
        by (nonlinear_arith)
        requires
            double_scaled(expected) == double_scaled(samples) * 128,
            double_scaled(first) == double_scaled(samples),
            double_scaled(length) == 128 * one,
    ;
    lemma_double_exact(expected, double_scaled(first) * double_scaled(length), one, frames);
    assert((double_scaled(samples) * 128) * one == (double_scaled(samples) * one) * 128)
        by (nonlinear_arith);
}

/// The delay of each frame is the product of its delay time and the sample rate, and the copy of
/// the delay time in the reader has the last of them.
pub proof fn lemma_processed_delays<E, A: Arithmetic + DoubleArithmetic + Mixing>(
    ops: &A,
    before: DelayNode<E>,
    after: DelayNode<E>,
    input: Block,
    info: BlockInfo,
    updates: Seq<ParamUpdate>,
    output: Seq<Block>,
    tick: int,
)
    requires
        processed(ops, before, after, input, info, updates, output),
        !before.delay_reader.is_cycle_breaker,
        updates.len() == 128,
        0 <= tick < 128,
    ensures
        product_is(
            ops,
            updates[tick].value,
            info.sample_rate,
            after.delay_reader.delay_frames@[tick],
        ),
        after.delay_reader.delay_time.value == updates[127].value,
        after.delay_reader.delay_time.rate == before.delay_reader.delay_time.rate,
        after.delay_reader.delay_time.events == before.delay_reader.delay_time.events,
        after.delay_time == before.delay_time,
        after.channel_info == before.channel_info,
        after.delay_writer == before.delay_writer,
{
    assert(delay_is(
        ops,
        false,
        updates[tick].value,
        info.sample_rate,
        after.delay_reader.delay_frames@[tick],
    ));
}

/// As part of a cycle a delay time that is shorter than a block is taken to be as long as one, and
/// a longer one is taken as it is.
pub proof fn lemma_cycle_clamps<A: Arithmetic>(
    ops: &A,
    delay_time: u32,
    sample_rate: u32,
    delay: u32,
)
    requires
        delay_is(ops, true, delay_time, sample_rate, delay),
    ensures
        exists|length: u32, quantum: u32|
            {
                &&& #[trigger] number_is(ops, 128, length)
                &&& #[trigger] quotient_is(ops, length, sample_rate, quantum)
                &&& !binary::not_a_number(delay_time) && !binary::not_a_number(quantum) && scaled(
                    delay_time,
                ) < scaled(quantum) ==> product_is(ops, quantum, sample_rate, delay)
                &&& !binary::not_a_number(delay_time) && !binary::not_a_number(quantum) && scaled(
                    delay_time,
                ) >= scaled(quantum) ==> product_is(ops, delay_time, sample_rate, delay)
            },
{
    let (length, quantum) = choose|length: u32, quantum: u32|
        #[trigger] number_is(ops, FRAMES_PER_BLOCK_USIZE as i32, length)
            && #[trigger] quotient_is(ops, length, sample_rate, quantum) && product_is(
            ops,
            binary::maximum_of(delay_time, quantum),
            sample_rate,
            delay,
        );
    assert(number_is(ops, 128, length));
    assert(quotient_is(ops, length, sample_rate, quantum));
}

/// The place in the delay line of each frame of the output is the sum of its delay and of the
/// place of its own time there: the frames that the newest block has behind it, or a block less
/// than none, before that block is written.
pub proof fn lemma_places<A: Arithmetic>(
    ops: &A,
    delays: Seq<u32>,
    reads_first: bool,
    positions: Seq<u32>,
    tick: int,
    offset: i32,
)
    requires
        positions_are(ops, delays, reads_first, positions),
        0 <= tick < delays.len() == 128,
        offset == if reads_first {
            -128
        } else {
            127 - tick
        },
    ensures
        positions.len() == 128,
        exists|shift: u32|
            #[trigger] number_is(ops, offset, shift) && sum_is(
                ops,
                delays[tick],
                shift,
                positions[tick],
            ),
{
    assert(position_is(ops, delays[tick], offset, positions[tick]));
}

} // verus!
