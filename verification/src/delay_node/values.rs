//! What the samples that a delay puts out are worth.
//!
//! A delay need not be a whole number of frames. Values are on the scale of `binary::scaled`,
//! where `scaled_one()` stands for one.
use crate::arithmetic::{
    difference_is, fract_is, mix_is, number_is, product_is, sum_is, Arithmetic, Mixing,
};
use crate::binary::{self, floor_of, is_zero_number, not_a_number, scaled, scaled_one, ONE};
use crate::block::{zeros, Block, ChannelInterpretation, FRAMES_PER_BLOCK_USIZE};
use crate::delay_node::channel_count::output_channel_count;
use crate::delay_node::delay_line::UpmixedBlock;
use crate::delay_node::delay_reader::{delayed_output, read_output};
use crate::delay_node::laws::{is_read, lemma_output_channel_count};
use crate::delay_node::stream::{read_block, uniform};
use crate::delay_node::taps::{
    accumulated, interpolated, position_is, positions_are, rendered, tap_applied,
};
use crate::direct_delay_node::direct_output;
use crate::rounding::{
    faithful, finite, lemma_exact, lemma_floor_and_ceiling, lemma_floor_and_ceiling_beyond,
    lemma_integer, lemma_same_value, lemma_value_of_bits,
};
use vstd::arithmetic::power2::{lemma2_to64, lemma_pow2_pos, pow2};
use vstd::prelude::*;

verus! {

/// Whether a frame of the delay line, known by the number of frames that were written after it,
/// has this value on a channel, in a block mixed to the channels of the output. A frame that the
/// line does not hold counts as zero.
pub open spec fn frame_is_worth<M: Mixing>(
    ops: &M,
    line: Seq<Block>,
    interpretation: ChannelInterpretation,
    channels: u8,
    frame: int,
    channel: int,
    value: int,
) -> bool {
    if frame / 128 < line.len() {
        forall|mixed: Block| #[trigger]
            mix_is(ops, line[frame / 128], channels, interpretation, mixed) ==> finite(
                mixed.sample(127 - frame % 128, channel),
            ) && scaled(mixed.sample(127 - frame % 128, channel)) == value
    } else {
        value == 0
    }
}

/// Adding a frame of the delay line, times a weight, to the sample `before` of a channel may give
/// `after`.
pub open spec fn frame_added<A: Arithmetic + Mixing>(
    ops: &A,
    line: Seq<Block>,
    interpretation: ChannelInterpretation,
    channels: u8,
    frame: int,
    channel: int,
    weight: u32,
    before: u32,
    after: u32,
) -> bool {
    if scaled(weight) == 0 || frame / 128 >= line.len() {
        after == before
    } else {
        exists|mixed: Block, weighted: u32|
            #[trigger] mix_is(ops, line[frame / 128], channels, interpretation, mixed)
                && #[trigger] product_is(
                ops,
                weight,
                mixed.sample(127 - frame % 128, channel),
                weighted,
            ) && sum_is(ops, before, weighted, after)
    }
}

/// One channel of a frame of the output may come to `r`: the frame at the floor of the position,
/// times `rest`, and the frame at its ceiling, times `factor`.
pub open spec fn two_frames_added<A: Arithmetic + Mixing>(
    ops: &A,
    line: Seq<Block>,
    interpretation: ChannelInterpretation,
    channels: u8,
    position: u32,
    channel: int,
    factor: u32,
    rest: u32,
    r: u32,
) -> bool {
    exists|lower: u32|
        #[trigger] frame_added(
            ops,
            line,
            interpretation,
            channels,
            binary::floor_of(position),
            channel,
            rest,
            0,
            lower,
        ) && frame_added(
            ops,
            line,
            interpretation,
            channels,
            binary::ceil_of(position),
            channel,
            factor,
            lower,
            r,
        )
}

/// Every channel of a frame of the output is put together alike, from two frames of the same
/// channel: the one at the floor of the position, with what the fraction misses to one, and the
/// one at its ceiling, with the fraction.
pub proof fn lemma_channels_are_interpolated_alike<A: Arithmetic + Mixing>(
    ops: &A,
    line: Seq<Block>,
    interpretation: ChannelInterpretation,
    position: u32,
    column: Seq<u32>,
)
    requires
        interpolated(ops, line, interpretation, position, column),
        forall|r: u32| #[trigger] fract_is(ops, position, r) ==> !not_a_number(r),
        forall|a: u32, r: u32|
            !not_a_number(a) && #[trigger] difference_is(ops, ONE, a, r) ==> !not_a_number(r),
    ensures
        exists|factor: u32, rest: u32|
            {
                &&& #[trigger] fract_is(ops, position, factor)
                &&& #[trigger] difference_is(ops, ONE, factor, rest)
                &&& forall|channel: int|
                    0 <= channel < column.len() ==> two_frames_added(
                        ops,
                        line,
                        interpretation,
                        column.len() as u8,
                        position,
                        channel,
                        factor,
                        rest,
                        #[trigger] column[channel],
                    )
            },
{
    let (factor, rest, lower) = choose|factor: u32, rest: u32, lower: Seq<u32>|
        {
            &&& #[trigger] fract_is(ops, position, factor)
            &&& #[trigger] difference_is(ops, ONE, factor, rest)
            &&& #[trigger] tap_applied(
                ops,
                line,
                interpretation,
                binary::floor_of(position),
                rest,
                zeros(column.len()),
                lower,
            )
            &&& tap_applied(
                ops,
                line,
                interpretation,
                binary::ceil_of(position),
                factor,
                lower,
                column,
            )
        };
    assert(!not_a_number(factor));
    assert(!not_a_number(rest));
    assert forall|channel: int| 0 <= channel < column.len() implies two_frames_added(
        ops,
        line,
        interpretation,
        column.len() as u8,
        position,
        channel,
        factor,
        rest,
        #[trigger] column[channel],
    ) by {
        let none = zeros(column.len());
        assert(none[channel] == 0);
        assert(lower.len() == column.len());
        lemma_tap_of_channel(
            ops,
            line,
            interpretation,
            binary::floor_of(position),
            rest,
            none,
            lower,
            channel,
        );
        lemma_tap_of_channel(
            ops,
            line,
            interpretation,
            binary::ceil_of(position),
            factor,
            lower,
            column,
            channel,
        );
        assert(frame_added(
            ops,
            line,
            interpretation,
            column.len() as u8,
            binary::floor_of(position),
            channel,
            rest,
            0,
            lower[channel],
        ));
    }
    assert(fract_is(ops, position, factor));
    assert(difference_is(ops, ONE, factor, rest));
}

proof fn lemma_tap_of_channel<A: Arithmetic + Mixing>(
    ops: &A,
    line: Seq<Block>,
    interpretation: ChannelInterpretation,
    frame: int,
    weight: u32,
    before: Seq<u32>,
    after: Seq<u32>,
    channel: int,
)
    requires
        tap_applied(ops, line, interpretation, frame, weight, before, after),
        !not_a_number(weight),
        0 <= channel < before.len(),
    ensures
        after.len() == before.len(),
        frame_added(
            ops,
            line,
            interpretation,
            before.len() as u8,
            frame,
            channel,
            weight,
            before[channel],
            after[channel],
        ),
{
    lemma_zero(weight);
    if scaled(weight) != 0 && frame / 128 < line.len() {
        let mixed = choose|mixed: Block|
            #[trigger] mix_is(
                ops,
                line[frame / 128],
                before.len() as u8,
                interpretation,
                mixed,
            ) && forall|c: int|
                #![trigger after[c]]
                0 <= c < before.len() ==> accumulated(
                    ops,
                    before[c],
                    weight,
                    mixed.sample(127 - frame % 128, c),
                    after[c],
                );
        let value = mixed.sample(127 - frame % 128, channel);
        assert(accumulated(ops, before[channel], weight, value, after[channel]));
        let weighted = choose|weighted: u32|
            #[trigger] product_is(ops, weight, value, weighted) && sum_is(
                ops,
                before[channel],
                weighted,
                after[channel],
            );
        assert(mix_is(ops, line[frame / 128], before.len() as u8, interpretation, mixed));
        assert(product_is(ops, weight, value, weighted));
    }
}

proof fn lemma_zero(weight: u32)
    requires
        !not_a_number(weight),
    ensures
        is_zero_number(weight) <==> scaled(weight) == 0,
{
    lemma_value_of_bits(0);
    assert(binary::magnitude(0) == 0);
}

proof fn lemma_tap_value<A: Arithmetic + Mixing>(
    ops: &A,
    line: Seq<Block>,
    interpretation: ChannelInterpretation,
    frame: int,
    weight: u32,
    before: Seq<u32>,
    after: Seq<u32>,
    channel: int,
    value: int,
    product: u32,
    total: u32,
)
    requires
        faithful(ops),
        tap_applied(ops, line, interpretation, frame, weight, before, after),
        finite(weight),
        0 <= channel < before.len(),
        finite(before[channel]),
        frame_is_worth(
            ops,
            line,
            interpretation,
            before.len() as u8,
            frame,
            channel,
            value,
        ),
        finite(product),
        scaled(product) * scaled_one() == scaled(weight) * value,
        finite(total),
        scaled(total) == scaled(before[channel]) + scaled(product),
    ensures
        after.len() == before.len(),
        finite(after[channel]),
        scaled(after[channel]) == scaled(total),
{
    lemma_pow2_pos(149);
    lemma_tap_of_channel(ops, line, interpretation, frame, weight, before, after, channel);
    if scaled(weight) == 0 || frame / 128 >= line.len() {
        assert(scaled(product) == 0) by (nonlinear_arith)
            requires
                scaled(product) * scaled_one() == scaled(weight) * value,
                scaled(weight) == 0 || value == 0,
                0 < scaled_one(),
        ;
    } else {
        let (mixed, weighted) = choose|mixed: Block, weighted: u32|
            #[trigger] mix_is(
                ops,
                line[frame / 128],
                before.len() as u8,
                interpretation,
                mixed,
            ) && #[trigger] product_is(
                ops,
                weight,
                mixed.sample(127 - frame % 128, channel),
                weighted,
            ) && sum_is(ops, before[channel], weighted, after[channel]);
        let sample = mixed.sample(127 - frame % 128, channel);
        assert(finite(sample) && scaled(sample) == value);
        lemma_exact(product, scaled(weight) * scaled(sample), scaled_one(), weighted);
        lemma_exact(total, scaled(before[channel]) + scaled(weighted), 1, after[channel]);
    }
}

/// Linear interpolation: where no step has to be rounded, a frame of the output is worth
/// `(1 - f) * x + f * y` on each channel, for a position with the fraction `f` between a frame
/// that is worth `x` and the frame before it in time, which is worth `y`.
///
/// `weight`, `near`, `far` and `total` are the numbers `1 - f`, `(1 - f) * x`, `f * y` and the
/// sum of the last two.
pub proof fn lemma_linear_interpolation<A: Arithmetic + Mixing>(
    ops: &A,
    line: Seq<Block>,
    interpretation: ChannelInterpretation,
    position: u32,
    column: Seq<u32>,
    channel: int,
    x: int,
    y: int,
    weight: u32,
    near: u32,
    far: u32,
    total: u32,
)
    requires
        faithful(ops),
        interpolated(ops, line, interpretation, position, column),
        0 <= channel < column.len() < 256,
        finite(position),
        0 <= scaled(position) < 0xffff_ffff * scaled_one(),
        frame_is_worth(
            ops,
            line,
            interpretation,
            column.len() as u8,
            scaled(position) / scaled_one(),
            channel,
            x,
        ),
        frame_is_worth(
            ops,
            line,
            interpretation,
            column.len() as u8,
            scaled(position) / scaled_one() + 1,
            channel,
            y,
        ),
        finite(weight),
        scaled(weight) == scaled_one() - scaled(position) % scaled_one(),
        finite(near),
        scaled(near) * scaled_one() == scaled(weight) * x,
        finite(far),
        scaled(far) * scaled_one() == (scaled(position) % scaled_one()) * y,
        finite(total),
        scaled(total) == scaled(near) + scaled(far),
    ensures
        finite(column[channel]),
        scaled(column[channel]) == scaled(total),
        scaled(column[channel]) * scaled_one() == (scaled_one() - scaled(position) % scaled_one())
            * x + (scaled(position) % scaled_one()) * y,
{
    lemma_pow2_pos(149);
    let one = scaled_one();
    let f = scaled(position) % one;
    lemma_floor_and_ceiling(position, 0xffff_ffff);
    let (factor, rest, lower) = choose|factor: u32, rest: u32, lower: Seq<u32>|
        {
            &&& #[trigger] fract_is(ops, position, factor)
            &&& #[trigger] difference_is(ops, ONE, factor, rest)
            &&& #[trigger] tap_applied(
                ops,
                line,
                interpretation,
                binary::floor_of(position),
                rest,
                zeros(column.len()),
                lower,
            )
            &&& tap_applied(
                ops,
                line,
                interpretation,
                binary::ceil_of(position),
                factor,
                lower,
                column,
            )
        };
    assert(finite(factor) && scaled(factor) == f);
    lemma_value_of_one();
    lemma_exact(weight, scaled(ONE) - scaled(factor), 1, rest);
    lemma_value_of_bits(0);
    assert(binary::magnitude(0) == 0);
    assert(zeros(column.len())[channel] == 0);
    lemma_tap_value(
        ops,
        line,
        interpretation,
        binary::floor_of(position),
        rest,
        zeros(column.len()),
        lower,
        channel,
        x,
        near,
        near,
    );
    if f == 0 {
        assert(scaled(far) == 0) by (nonlinear_arith)
            requires
                scaled(far) * one == f * y,
                f == 0,
                0 < one,
        ;
        lemma_zero(factor);
    } else {
        lemma_tap_value(
            ops,
            line,
            interpretation,
            binary::ceil_of(position),
            factor,
            lower,
            column,
            channel,
            y,
            far,
            total,
        );
    }
    assert((scaled(near) + scaled(far)) * one == scaled(near) * one + scaled(far) * one)
        by (nonlinear_arith);
    lemma_same_value(column[channel], total);
}

/// `ONE` is worth one.
pub proof fn lemma_value_of_one()
    ensures
        finite(ONE),
        scaled(ONE) == scaled_one(),
{
    lemma_value_of_bits(ONE);
    lemma2_to64();
    assert(ONE as int % 0x8000_0000 == 0x3f80_0000);
    assert(0x3f80_0000int / 0x80_0000 == 127);
    assert(ONE as int % 0x80_0000 == 0);
    vstd::arithmetic::power2::lemma_pow2_adds(23, 126);
}

/// Whether the delay line has nothing to hear at a frame: it does not hold it, or the block that
/// does is silent or without channels.
pub open spec fn nothing_at(line: Seq<Block>, frame: int) -> bool {
    frame / 128 < line.len() ==> line[frame / 128].buffer@.len() == 0 || line[frame
        / 128].channels == 0
}

/// Whether a block is a single channel of zeros.
pub open spec fn is_one_silent_channel(block: Block) -> bool {
    &&& block.channels == 1
    &&& block.buffer@.len() == 128
    &&& forall|i: int| 0 <= i < 128 ==> #[trigger] block.buffer@[i] == 0
}

/// Whether `position` is the place in the delay line of the frame of the output at `tick`: as far
/// back as its delay, from the frame at this tick of the newest block. Before the block of the
/// render quantum is written, a block less.
pub open spec fn is_place_of(position: u32, delay: u32, reads_first: bool, tick: int) -> bool {
    &&& finite(position)
    &&& 0 <= scaled(position) < 0xffff_ffff * scaled_one()
    &&& scaled(position) == scaled(delay) + (if reads_first {
        -128
    } else {
        127 - tick
    }) * scaled_one()
}

proof fn lemma_place<A: Arithmetic>(
    ops: &A,
    delays: Seq<u32>,
    reads_first: bool,
    positions: Seq<u32>,
    tick: int,
    position: u32,
)
    requires
        faithful(ops),
        positions_are(ops, delays, reads_first, positions),
        0 <= tick < delays.len() == FRAMES_PER_BLOCK_USIZE,
        finite(delays[tick]),
        is_place_of(position, delays[tick], reads_first, tick),
    ensures
        finite(positions[tick]),
        scaled(positions[tick]) == scaled(position),
        floor_of(positions[tick]) == scaled(position) / scaled_one(),
        binary::ceil_of(positions[tick]) == scaled(position) / scaled_one() + if scaled(position)
            % scaled_one() == 0 {
            0int
        } else {
            1int
        },
        0 <= scaled(position) / scaled_one(),
{
    let offset: int = if reads_first {
        -128
    } else {
        127 - tick
    };
    assert(position_is(ops, delays[tick], offset as i32, positions[tick]));
    let shift = choose|shift: u32|
        #[trigger] number_is(ops, offset as i32, shift) && sum_is(
            ops,
            delays[tick],
            shift,
            positions[tick],
        );
    let exact = lemma_integer(offset);
    lemma_exact(exact, offset * scaled_one(), 1, shift);
    lemma_exact(position, scaled(delays[tick]) + scaled(shift), 1, positions[tick]);
    lemma_floor_and_ceiling(positions[tick], 0xffff_ffff);
}

proof fn lemma_silence(block: Block)
    requires
        block.is_explicit_silence(),
    ensures
        is_one_silent_channel(block),
{
}

proof fn lemma_block_value<A: Arithmetic + Mixing>(
    ops: &A,
    line: Seq<Block>,
    interpretation: ChannelInterpretation,
    delays: Seq<u32>,
    reads_first: bool,
    positions: Seq<u32>,
    silent_too: bool,
    output: Block,
    tick: int,
    channel: int,
    position: u32,
    x: int,
    y: int,
    weight: u32,
    near: u32,
    far: u32,
    total: u32,
)
    requires
        faithful(ops),
        positions_are(ops, delays, reads_first, positions),
        read_block(ops, line, interpretation, positions, silent_too, output),
        0 <= tick < delays.len() == FRAMES_PER_BLOCK_USIZE,
        0 <= channel < output.channels,
        finite(delays[tick]),
        is_place_of(position, delays[tick], reads_first, tick),
        interpolation_is(
            ops,
            line,
            interpretation,
            output.channels,
            position,
            channel,
            x,
            y,
            weight,
            near,
            far,
            total,
        ),
    ensures
        ({
            let lower = scaled(position) / scaled_one();
            let f = scaled(position) % scaled_one();
            ||| finite(output.sample(tick, channel)) && scaled(output.sample(tick, channel))
                * scaled_one() == (scaled_one() - f) * x + f * y
            ||| is_one_silent_channel(output) && nothing_at(line, lower) && (f != 0 ==> nothing_at(
                line,
                lower + 1,
            ))
        }),
{
    lemma_place(ops, delays, reads_first, positions, tick, position);
    lemma_output_channel_count(positions, line, silent_too);
    let lower = scaled(position) / scaled_one();
    let f = scaled(position) % scaled_one();
    if output_channel_count(positions, line, silent_too) == 0 {
        lemma_silence(output);
        if lower / 128 < line.len() {
            assert(is_read(positions, line, tick, lower / 128));
        }
        if f != 0 && (lower + 1) / 128 < line.len() {
            assert(is_read(positions, line, tick, (lower + 1) / 128));
        }
    } else {
        let column = output.column(tick);
        assert(interpolated(ops, line, interpretation, positions[tick], column));
        assert(column.len() == output.channels);
        lemma_linear_interpolation(
            ops,
            line,
            interpretation,
            positions[tick],
            column,
            channel,
            x,
            y,
            weight,
            near,
            far,
            total,
        );
        assert(column[channel] == output.sample(tick, channel));
    }
}

/// A sample of a block that was read is the linear interpolation of the frames around the place
/// that its delay reaches back to, on its own channel, also as part of a cycle.
pub proof fn lemma_rendered_sample<A: Arithmetic + Mixing>(
    ops: &A,
    line: Seq<Block>,
    interpretation: ChannelInterpretation,
    delays: Seq<u32>,
    reads_first: bool,
    positions: Seq<u32>,
    block: Block,
    tick: int,
    channel: int,
    position: u32,
    x: int,
    y: int,
    weight: u32,
    near: u32,
    far: u32,
    total: u32,
)
    requires
        faithful(ops),
        positions_are(ops, delays, reads_first, positions),
        rendered(ops, line, interpretation, positions, block),
        0 <= tick < delays.len() == FRAMES_PER_BLOCK_USIZE,
        0 <= channel < block.channels,
        finite(delays[tick]),
        is_place_of(position, delays[tick], reads_first, tick),
        interpolation_is(
            ops,
            line,
            interpretation,
            block.channels,
            position,
            channel,
            x,
            y,
            weight,
            near,
            far,
            total,
        ),
    ensures
        finite(block.sample(tick, channel)),
        scaled(block.sample(tick, channel)) * scaled_one() == (scaled_one() - scaled(position)
            % scaled_one()) * x + (scaled(position) % scaled_one()) * y,
{
    lemma_place(ops, delays, reads_first, positions, tick, position);
    let column = block.column(tick);
    assert(interpolated(ops, line, interpretation, positions[tick], column));
    assert(column.len() == block.channels);
    lemma_linear_interpolation(
        ops,
        line,
        interpretation,
        positions[tick],
        column,
        channel,
        x,
        y,
        weight,
        near,
        far,
        total,
    );
    assert(column[channel] == block.sample(tick, channel));
}

/// Whether the frames around a position are worth `x` and `y` on a channel, and their linear
/// interpolation can be computed without rounding: `weight`, `near`, `far` and `total` are
/// `1 - f`, `(1 - f) * x`, `f * y` and the sum of the last two, for the fraction `f`.
pub open spec fn interpolation_is<M: Mixing>(
    ops: &M,
    line: Seq<Block>,
    interpretation: ChannelInterpretation,
    channels: u8,
    position: u32,
    channel: int,
    x: int,
    y: int,
    weight: u32,
    near: u32,
    far: u32,
    total: u32,
) -> bool {
    let lower = scaled(position) / scaled_one();
    let f = scaled(position) % scaled_one();
    &&& frame_is_worth(ops, line, interpretation, channels, lower, channel, x)
    &&& frame_is_worth(ops, line, interpretation, channels, lower + 1, channel, y)
    &&& finite(weight) && scaled(weight) == scaled_one() - f
    &&& finite(near) && scaled(near) * scaled_one() == scaled(weight) * x
    &&& finite(far) && scaled(far) * scaled_one() == f * y
    &&& finite(total) && scaled(total) == scaled(near) + scaled(far)
}

/// A sample of the output of a delay is the linear interpolation of the frames around the place
/// that its delay reaches back to, on its own channel. It is silence where there is nothing to
/// hear at any tick.
pub proof fn lemma_delayed_sample<A: Arithmetic + Mixing>(
    ops: &A,
    line: Seq<Block>,
    interpretation: ChannelInterpretation,
    delays: Seq<u32>,
    reads_first: bool,
    before: Option<UpmixedBlock>,
    after: Option<UpmixedBlock>,
    output: Seq<Block>,
    tick: int,
    channel: int,
    position: u32,
    x: int,
    y: int,
    weight: u32,
    near: u32,
    far: u32,
    total: u32,
)
    requires
        faithful(ops),
        delayed_output(
            ops,
            line,
            interpretation,
            delays,
            reads_first,
            false,
            before,
            after,
            output,
        ),
        0 <= tick < delays.len() == FRAMES_PER_BLOCK_USIZE,
        0 <= channel < output[0].channels,
        finite(delays[tick]),
        is_place_of(position, delays[tick], reads_first, tick),
        interpolation_is(
            ops,
            line,
            interpretation,
            output[0].channels,
            position,
            channel,
            x,
            y,
            weight,
            near,
            far,
            total,
        ),
    ensures
        output.len() == 1,
        ({
            let lower = scaled(position) / scaled_one();
            let f = scaled(position) % scaled_one();
            ||| finite(output[0].sample(tick, channel)) && scaled(output[0].sample(tick, channel))
                * scaled_one() == (scaled_one() - f) * x + f * y
            ||| is_one_silent_channel(output[0]) && nothing_at(line, lower) && (f != 0
                ==> nothing_at(line, lower + 1))
        }),
{
    let positions = choose|positions: Seq<u32>|
        {
            &&& #[trigger] positions_are(ops, delays, reads_first, positions)
            &&& read_output(ops, line, interpretation, positions, false, output)
        };
    lemma_block_value(
        ops,
        line,
        interpretation,
        delays,
        reads_first,
        positions,
        false,
        output[0],
        tick,
        channel,
        position,
        x,
        y,
        weight,
        near,
        far,
        total,
    );
}

/// A sample of the output of a direct node is the linear interpolation of the frames around the
/// place that its delay reaches back to, on its own channel.
pub proof fn lemma_direct_sample<A: Arithmetic + Mixing>(
    ops: &A,
    line: Seq<Block>,
    interpretation: ChannelInterpretation,
    delays: Seq<u32>,
    positions: Seq<u32>,
    upmixed: Option<UpmixedBlock>,
    output: Seq<Block>,
    tick: int,
    channel: int,
    position: u32,
    x: int,
    y: int,
    weight: u32,
    near: u32,
    far: u32,
    total: u32,
)
    requires
        faithful(ops),
        positions_are(ops, delays, false, positions),
        direct_output(ops, line, interpretation, positions, upmixed, output),
        0 <= tick < delays.len() == FRAMES_PER_BLOCK_USIZE,
        0 <= channel < output[0].channels,
        finite(delays[tick]),
        is_place_of(position, delays[tick], false, tick),
        interpolation_is(
            ops,
            line,
            interpretation,
            output[0].channels,
            position,
            channel,
            x,
            y,
            weight,
            near,
            far,
            total,
        ),
    ensures
        output.len() == 1,
        ({
            let lower = scaled(position) / scaled_one();
            let f = scaled(position) % scaled_one();
            ||| finite(output[0].sample(tick, channel)) && scaled(output[0].sample(tick, channel))
                * scaled_one() == (scaled_one() - f) * x + f * y
            ||| is_one_silent_channel(output[0]) && nothing_at(line, lower) && (f != 0
                ==> nothing_at(line, lower + 1))
        }),
{
    lemma_block_value(
        ops,
        line,
        interpretation,
        delays,
        false,
        positions,
        true,
        output[0],
        tick,
        channel,
        position,
        x,
        y,
        weight,
        near,
        far,
        total,
    );
}

/// Whether a block of the delay line is read for some frame of the output: it holds a frame next
/// to one of these places.
pub open spec fn block_is_read(line: Seq<Block>, places: Seq<u32>, tick: int, index: int) -> bool {
    &&& 0 <= tick < places.len()
    &&& 0 <= index < line.len()
    &&& index * 128 <= scaled(places[tick]) / scaled_one() < index * 128 + 128 || (scaled(
        places[tick],
    ) % scaled_one() != 0 && index * 128 <= scaled(places[tick]) / scaled_one() + 1 < index * 128
        + 128)
}

proof fn lemma_read_alike(
    line: Seq<Block>,
    places: Seq<u32>,
    positions: Seq<u32>,
    tick: int,
    index: int,
)
    requires
        places.len() == positions.len(),
        forall|t: int|
            0 <= t < places.len() ==> {
                &&& floor_of(#[trigger] positions[t]) == scaled(places[t]) / scaled_one()
                &&& binary::ceil_of(positions[t]) == scaled(places[t]) / scaled_one() + if scaled(
                    places[t],
                ) % scaled_one() == 0 {
                    0int
                } else {
                    1int
                }
                &&& 0 <= scaled(places[t]) / scaled_one()
            },
    ensures
        block_is_read(line, places, tick, index) == is_read(positions, line, tick, index),
{
    if 0 <= tick < positions.len() {
        let lower = floor_of(positions[tick]);
        assert(index * 128 <= lower < index * 128 + 128 <==> index == lower / 128);
        assert(index * 128 <= lower + 1 < index * 128 + 128 <==> index == (lower + 1) / 128);
    }
}

/// The output has the highest channel count of the blocks that are read and not silent, and
/// unless there is one with channels, it is a single channel of zeros.
pub proof fn lemma_channels_of_the_output<A: Arithmetic + Mixing>(
    ops: &A,
    line: Seq<Block>,
    interpretation: ChannelInterpretation,
    delays: Seq<u32>,
    reads_first: bool,
    before: Option<UpmixedBlock>,
    after: Option<UpmixedBlock>,
    output: Seq<Block>,
    places: Seq<u32>,
)
    requires
        faithful(ops),
        delayed_output(
            ops,
            line,
            interpretation,
            delays,
            reads_first,
            false,
            before,
            after,
            output,
        ),
        places.len() == delays.len() == FRAMES_PER_BLOCK_USIZE,
        forall|t: int|
            0 <= t < delays.len() ==> finite(#[trigger] delays[t]) && is_place_of(
                places[t],
                delays[t],
                reads_first,
                t,
            ),
    ensures
        output.len() == 1,
        output[0].buffer@.len() == output[0].channels * 128,
        forall|tick: int, index: int| #[trigger]
            block_is_read(line, places, tick, index) && line[index].buffer@.len() > 0
                ==> line[index].channels <= output[0].channels,
        is_one_silent_channel(output[0]) || exists|tick: int, index: int| #[trigger]
            block_is_read(line, places, tick, index) && line[index].buffer@.len() > 0
                && line[index].channels == output[0].channels,
        (exists|tick: int, index: int| #[trigger]
            block_is_read(line, places, tick, index) && line[index].buffer@.len() > 0
                && line[index].channels > 1) ==> !is_one_silent_channel(output[0]),
{
    let positions = choose|positions: Seq<u32>|
        {
            &&& #[trigger] positions_are(ops, delays, reads_first, positions)
            &&& read_output(ops, line, interpretation, positions, false, output)
        };
    assert forall|t: int| 0 <= t < places.len() implies {
        &&& floor_of(#[trigger] positions[t]) == scaled(places[t]) / scaled_one()
        &&& binary::ceil_of(positions[t]) == scaled(places[t]) / scaled_one() + if scaled(
            places[t],
        ) % scaled_one() == 0 {
            0int
        } else {
            1int
        }
        &&& 0 <= scaled(places[t]) / scaled_one()
    } by {
        assert(finite(delays[t]));
        lemma_place(ops, delays, reads_first, positions, t, places[t]);
    }
    lemma_output_channel_count(positions, line, false);
    let count = output_channel_count(positions, line, false);
    assert forall|tick: int, index: int| #[trigger]
        block_is_read(line, places, tick, index) && line[index].buffer@.len()
            > 0 implies line[index].channels <= count by {
        lemma_read_alike(line, places, positions, tick, index);
        assert(is_read(positions, line, tick, index));
    }
    if count == 0 {
        lemma_silence(output[0]);
    } else {
        let (tick, index) = choose|tick: int, index: int| #[trigger]
            is_read(positions, line, tick, index)
                && crate::delay_node::channel_count::channels_called_for(line[index], false)
                == count;
        lemma_read_alike(line, places, positions, tick, index);
        assert(block_is_read(line, places, tick, index));
    }
}

/// Whether a sample is at least `2^-126` in size.
pub open spec fn is_audible(sample: u32) -> bool {
    !not_a_number(sample) && (scaled(sample) >= 0x80_0000 || scaled(sample) <= -0x80_0000)
}

/// As part of a cycle a delay is active where any sample of its output is at least `2^-126` in
/// size, at any tick and on any channel: then it puts out what it read, and otherwise a single
/// channel of zeros.
pub proof fn lemma_activity_in_a_cycle<A: Arithmetic + Mixing>(
    ops: &A,
    line: Seq<Block>,
    interpretation: ChannelInterpretation,
    positions: Seq<u32>,
    output: Seq<Block>,
)
    requires
        read_output(ops, line, interpretation, positions, true, output),
    ensures
        output.len() == 1,
        is_one_silent_channel(output[0]) || exists|tick: int, channel: int|
            0 <= tick < 128 && 0 <= channel < output[0].channels && is_audible(
                #[trigger] output[0].sample(tick, channel),
            ),
        output_channel_count(positions, line, false) != 0 ==> exists|block: Block|
            {
                &&& #[trigger] rendered(ops, line, interpretation, positions, block)
                &&& block.channels == output_channel_count(positions, line, false)
                &&& forall|tick: int, channel: int|
                    0 <= tick < 128 && 0 <= channel < block.channels && is_audible(
                        #[trigger] block.sample(tick, channel),
                    ) ==> output[0] == block
                &&& output[0] == block || is_one_silent_channel(output[0])
            },
{
    if output_channel_count(positions, line, false) == 0 {
        lemma_silence(output[0]);
    } else {
        let block = choose|block: Block|
            {
                &&& #[trigger] rendered(ops, line, interpretation, positions, block)
                &&& block.channels == output_channel_count(positions, line, false)
                &&& if !crate::delay_node::delay_reader::is_active(block) {
                    output[0].is_explicit_silence()
                } else {
                    output[0] == block
                }
            };
        lemma2_to64();
        assert(pow2(23) == 0x80_0000);
        assert forall|tick: int, channel: int|
            0 <= tick < 128 && 0 <= channel < block.channels && is_audible(
                #[trigger] block.sample(tick, channel),
            ) implies output[0] == block by {
            let i = channel * 128 + tick;
            assert(0 <= i < block.buffer@.len());
            lemma_audible(block.buffer@[i]);
        }
        if crate::delay_node::delay_reader::is_active(block) {
            let i = choose|i: int|
                0 <= i < block.buffer@.len() && binary::is_normal_size(
                    #[trigger] block.buffer@[i],
                );
            lemma_audible(block.buffer@[i]);
            let (tick, channel) = (i % 128, i / 128);
            assert(0 <= channel < block.channels);
            assert(block.sample(tick, channel) == block.buffer@[i]);
        } else {
            lemma_silence(output[0]);
        }
    }
}

proof fn lemma_audible(sample: u32)
    ensures
        is_audible(sample) == binary::is_normal_size(sample),
{
    lemma2_to64();
    lemma_value_of_bits(sample);
    assert(pow2(23) == 0x80_0000);
    if binary::magnitude(sample) > 0 {
        lemma_value_of_bits(0);
        assert(binary::scaled_magnitude(0, 23) == 0);
        binary::lemma_magnitude_order(0, binary::magnitude(sample), 23);
    } else {
        assert(binary::scaled_magnitude(0, 23) == 0);
    }
}

/// A sample of the output of a delay that is part of a cycle, where all blocks have the same
/// channels: the linear interpolation of the frames around the place that its delay reaches back
/// to. A sample of at least `2^-126` in size makes the whole block come out. Other samples may be
/// replaced by silence.
pub proof fn lemma_cycle_sample<A: Arithmetic + Mixing>(
    ops: &A,
    line: Seq<Block>,
    interpretation: ChannelInterpretation,
    delays: Seq<u32>,
    reads_first: bool,
    before: Option<UpmixedBlock>,
    after: Option<UpmixedBlock>,
    output: Seq<Block>,
    channels: u8,
    tick: int,
    channel: int,
    position: u32,
    x: int,
    y: int,
    weight: u32,
    near: u32,
    far: u32,
    total: u32,
)
    requires
        faithful(ops),
        delayed_output(
            ops,
            line,
            interpretation,
            delays,
            reads_first,
            true,
            before,
            after,
            output,
        ),
        uniform(line, channels as int),
        0 <= tick < delays.len() == FRAMES_PER_BLOCK_USIZE,
        0 <= channel < channels,
        finite(delays[tick]),
        is_place_of(position, delays[tick], reads_first, tick),
        interpolation_is(
            ops,
            line,
            interpretation,
            channels,
            position,
            channel,
            x,
            y,
            weight,
            near,
            far,
            total,
        ),
    ensures
        output.len() == 1,
        scaled(total) >= 0x80_0000 || scaled(total) <= -0x80_0000 ==> output[0].channels
            == channels && scaled(output[0].sample(tick, channel)) == scaled(total),
        output[0].channels == channels && scaled(output[0].sample(tick, channel)) == scaled(total)
            || is_one_silent_channel(output[0]),
{
    lemma_pow2_pos(149);
    let positions = choose|positions: Seq<u32>|
        {
            &&& #[trigger] positions_are(ops, delays, reads_first, positions)
            &&& read_output(ops, line, interpretation, positions, true, output)
        };
    lemma_place(ops, delays, reads_first, positions, tick, position);
    lemma_output_channel_count(positions, line, false);
    let count = output_channel_count(positions, line, false);
    let lower = scaled(position) / scaled_one();
    if lower / 128 < line.len() {
        assert(is_read(positions, line, tick, lower / 128));
        assert(line[lower / 128].channels == channels);
    } else {
        assert(x == 0 && y == 0);
        assert(scaled(near) == 0 && scaled(far) == 0) by (nonlinear_arith)
            requires
                scaled(near) * scaled_one() == scaled(weight) * x,
                scaled(far) * scaled_one() == (scaled(position) % scaled_one()) * y,
                x == 0,
                y == 0,
                0 < scaled_one(),
        ;
    }
    assert(count == 0 || count == channels);
    if count == 0 {
        lemma_silence(output[0]);
    } else {
        lemma_activity_in_a_cycle(ops, line, interpretation, positions, output);
        let block = choose|block: Block|
            {
                &&& #[trigger] rendered(ops, line, interpretation, positions, block)
                &&& block.channels == count
                &&& forall|tick: int, channel: int|
                    0 <= tick < 128 && 0 <= channel < block.channels && is_audible(
                        #[trigger] block.sample(tick, channel),
                    ) ==> output[0] == block
                &&& output[0] == block || is_one_silent_channel(output[0])
            };
        let column = block.column(tick);
        assert(interpolated(ops, line, interpretation, positions[tick], column));
        assert(column.len() == block.channels);
        lemma_linear_interpolation(
            ops,
            line,
            interpretation,
            positions[tick],
            column,
            channel,
            x,
            y,
            weight,
            near,
            far,
            total,
        );
        assert(column[channel] == block.sample(tick, channel));
    }
}

/// A place before the newest frame counts as the newest frame: where no step has to be rounded,
/// the output is worth what that frame is worth.
///
/// `weight`, `near`, `far` and `total` are `1 - f`, `(1 - f) * x`, `f * x` and `x`, for the
/// fraction `f`, which is not above zero.
pub proof fn lemma_before_the_newest_frame<A: Arithmetic + Mixing>(
    ops: &A,
    line: Seq<Block>,
    interpretation: ChannelInterpretation,
    position: u32,
    column: Seq<u32>,
    channel: int,
    x: int,
    weight: u32,
    near: u32,
    far: u32,
    total: u32,
)
    requires
        faithful(ops),
        interpolated(ops, line, interpretation, position, column),
        0 <= channel < column.len() < 256,
        finite(position),
        scaled(position) < 0,
        frame_is_worth(ops, line, interpretation, column.len() as u8, 0, channel, x),
        finite(weight),
        scaled(weight) == scaled_one() + (-scaled(position)) % scaled_one(),
        finite(near),
        scaled(near) * scaled_one() == scaled(weight) * x,
        finite(far),
        scaled(far) * scaled_one() == -((-scaled(position)) % scaled_one()) * x,
        finite(total),
        scaled(total) == x,
    ensures
        finite(column[channel]),
        scaled(column[channel]) == x,
{
    lemma_pow2_pos(149);
    let one = scaled_one();
    let g = (-scaled(position)) % one;
    lemma_floor_and_ceiling_beyond(position);
    let (factor, rest, lower) = choose|factor: u32, rest: u32, lower: Seq<u32>|
        {
            &&& #[trigger] fract_is(ops, position, factor)
            &&& #[trigger] difference_is(ops, ONE, factor, rest)
            &&& #[trigger] tap_applied(
                ops,
                line,
                interpretation,
                binary::floor_of(position),
                rest,
                zeros(column.len()),
                lower,
            )
            &&& tap_applied(
                ops,
                line,
                interpretation,
                binary::ceil_of(position),
                factor,
                lower,
                column,
            )
        };
    assert(finite(factor) && scaled(factor) == -g);
    lemma_value_of_one();
    lemma_exact(weight, scaled(ONE) - scaled(factor), 1, rest);
    lemma_value_of_bits(0);
    assert(binary::magnitude(0) == 0);
    assert(zeros(column.len())[channel] == 0);
    lemma_tap_value(
        ops,
        line,
        interpretation,
        0,
        rest,
        zeros(column.len()),
        lower,
        channel,
        x,
        near,
        near,
    );
    assert(scaled(near) + scaled(far) == x) by (nonlinear_arith)
        requires
            scaled(near) * one == (one + g) * x,
            scaled(far) * one == -g * x,
            0 < one,
    ;
    lemma_tap_value(
        ops,
        line,
        interpretation,
        0,
        factor,
        lower,
        column,
        channel,
        x,
        far,
        total,
    );
}

/// The output of a direct node has the highest channel count of the blocks that are read, silent
/// or not, and unless there is one with channels, it is a single channel of zeros.
pub proof fn lemma_channels_of_the_direct_output<A: Arithmetic + Mixing>(
    ops: &A,
    line: Seq<Block>,
    interpretation: ChannelInterpretation,
    delays: Seq<u32>,
    positions: Seq<u32>,
    upmixed: Option<UpmixedBlock>,
    output: Seq<Block>,
    places: Seq<u32>,
)
    requires
        faithful(ops),
        positions_are(ops, delays, false, positions),
        direct_output(ops, line, interpretation, positions, upmixed, output),
        places.len() == delays.len() == FRAMES_PER_BLOCK_USIZE,
        forall|t: int|
            0 <= t < delays.len() ==> finite(#[trigger] delays[t]) && is_place_of(
                places[t],
                delays[t],
                false,
                t,
            ),
    ensures
        output.len() == 1,
        output[0].buffer@.len() == output[0].channels * 128,
        forall|tick: int, index: int| #[trigger]
            block_is_read(line, places, tick, index) ==> line[index].channels
                <= output[0].channels,
        is_one_silent_channel(output[0]) || exists|tick: int, index: int| #[trigger]
            block_is_read(line, places, tick, index) && line[index].channels
                == output[0].channels,
{
    assert forall|t: int| 0 <= t < places.len() implies {
        &&& floor_of(#[trigger] positions[t]) == scaled(places[t]) / scaled_one()
        &&& binary::ceil_of(positions[t]) == scaled(places[t]) / scaled_one() + if scaled(
            places[t],
        ) % scaled_one() == 0 {
            0int
        } else {
            1int
        }
        &&& 0 <= scaled(places[t]) / scaled_one()
    } by {
        assert(finite(delays[t]));
        lemma_place(ops, delays, false, positions, t, places[t]);
    }
    lemma_output_channel_count(positions, line, true);
    let count = output_channel_count(positions, line, true);
    assert forall|tick: int, index: int| #[trigger]
        block_is_read(line, places, tick, index) implies line[index].channels <= count by {
        lemma_read_alike(line, places, positions, tick, index);
        assert(is_read(positions, line, tick, index));
    }
    if count == 0 {
        lemma_silence(output[0]);
    } else {
        let (tick, index) = choose|tick: int, index: int| #[trigger]
            is_read(positions, line, tick, index)
                && crate::delay_node::channel_count::channels_called_for(line[index], true)
                == count;
        lemma_read_alike(line, places, positions, tick, index);
        assert(block_is_read(line, places, tick, index));
    }
}

} // verus!
