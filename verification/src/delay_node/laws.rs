//! What holds of the delay line as a whole.
use crate::arithmetic::{number_is, product_is, quotient_is, Arithmetic};
use crate::binary;
use crate::block::{Block, FRAMES_PER_BLOCK_USIZE};
use crate::delay_node::channel_count::{channels_at, channels_called_for, output_channel_count};
use crate::delay_node::delay_line::{lesser, line_after};
use crate::delay_node::delay_reader::delay_is;
use crate::delay_node::taps::{block_of, offset_of, place_of};
use vstd::prelude::*;

verus! {

/// All samples of a channel that the delay line holds, from the oldest to the newest.
pub open spec fn history(line: Seq<Block>, channel: int) -> Seq<u32>
    decreases line.len(),
{
    if line.len() == 0 {
        Seq::empty()
    } else {
        history(line.drop_first(), channel) + line[0].channel(channel)
    }
}

/// The frame that the delay line knows by `frame` is the one that so many frames were written
/// after.
pub proof fn lemma_frame_in_history(line: Seq<Block>, channel: int, frame: int)
    requires
        0 <= frame < line.len() * FRAMES_PER_BLOCK_USIZE,
    ensures
        history(line, channel).len() == line.len() * FRAMES_PER_BLOCK_USIZE,
        history(line, channel)[line.len() * FRAMES_PER_BLOCK_USIZE - 1 - frame]
            == line[block_of(frame)].sample(place_of(frame), channel),
    decreases line.len(),
{
    let rest = line.drop_first();
    lemma_history_length(line, channel);
    lemma_history_length(rest, channel);
    if frame >= FRAMES_PER_BLOCK_USIZE {
        let before = frame - FRAMES_PER_BLOCK_USIZE;
        lemma_frame_in_history(rest, channel, before);
        assert(block_of(frame) == block_of(before) + 1);
        assert(place_of(frame) == place_of(before));
        assert(rest[block_of(before)] == line[block_of(frame)]);
    }
}

proof fn lemma_history_length(line: Seq<Block>, channel: int)
    ensures
        history(line, channel).len() == line.len() * FRAMES_PER_BLOCK_USIZE,
    decreases line.len(),
{
    if line.len() > 0 {
        lemma_history_length(line.drop_first(), channel);
    }
}

/// The delay line after some blocks were written to it, the last one last.
pub open spec fn line_after_all(capacity: int, written: Seq<Block>) -> Seq<Block>
    decreases written.len(),
{
    if written.len() == 0 {
        Seq::empty()
    } else {
        line_after(line_after_all(capacity, written.drop_last()), capacity, written.last())
    }
}

/// The delay line holds the blocks that were written last, the newest first, and as many of them
/// as its capacity allows.
pub proof fn lemma_line_holds_the_last_blocks(capacity: int, written: Seq<Block>)
    requires
        0 < capacity,
    ensures
        line_after_all(capacity, written).len() == lesser(written.len() as int, capacity),
        forall|i: int|
            0 <= i < line_after_all(capacity, written).len() ==> #[trigger] line_after_all(
                capacity,
                written,
            )[i] == written[written.len() - 1 - i],
    decreases written.len(),
{
    if written.len() > 0 {
        let before = written.drop_last();
        lemma_line_holds_the_last_blocks(capacity, before);
        let line = line_after_all(capacity, before);
        let after = line_after_all(capacity, written);
        assert(after.len() == lesser(written.len() as int, capacity));
        assert forall|i: int| 0 <= i < after.len() implies #[trigger] after[i]
            == written[written.len() - 1 - i] by {
            if i > 0 {
                assert(after[i] == line[i - 1]);
                assert(line[i - 1] == before[before.len() - 1 - (i - 1)]);
            }
        }
    }
}

/// A delay line with room for the blocks of the longest delay, and one more, has a place for
/// every frame that a delay up to the longest can ask for.
pub proof fn lemma_capacity_suffices(longest_blocks: int, frames: int, tick: int)
    requires
        0 <= frames <= longest_blocks * FRAMES_PER_BLOCK_USIZE,
        0 <= tick < FRAMES_PER_BLOCK_USIZE,
    ensures
        0 <= block_of(frames + offset_of(false, tick)) < longest_blocks + 1,
{
}

/// As part of a cycle a delay takes at least a render quantum.
pub proof fn lemma_cycle_takes_a_quantum<A: Arithmetic>(
    ops: &A,
    delay_time: u32,
    sample_rate: u32,
    frames: u32,
)
    requires
        delay_is(ops, true, delay_time, sample_rate, frames),
        forall|length: u32, quantum: u32| #[trigger]
            number_is(ops, FRAMES_PER_BLOCK_USIZE as i32, length) && #[trigger] quotient_is(
                ops,
                length,
                sample_rate,
                quantum,
            ) ==> !binary::not_a_number(quantum),
    ensures
        exists|length: u32, quantum: u32, clamped: u32|
            {
                &&& #[trigger] number_is(ops, FRAMES_PER_BLOCK_USIZE as i32, length)
                &&& #[trigger] quotient_is(ops, length, sample_rate, quantum)
                &&& #[trigger] product_is(ops, clamped, sample_rate, frames)
                &&& !binary::not_a_number(clamped)
                &&& binary::scaled(clamped) >= binary::scaled(quantum)
                &&& binary::scaled(clamped) >= binary::scaled(delay_time)
                    || binary::not_a_number(delay_time)
            },
{
    let (length, quantum) = choose|length: u32, quantum: u32|
        #[trigger] number_is(ops, FRAMES_PER_BLOCK_USIZE as i32, length)
            && #[trigger] quotient_is(ops, length, sample_rate, quantum) && product_is(
            ops,
            binary::maximum_of(delay_time, quantum),
            sample_rate,
            frames,
        );
    let clamped = binary::maximum_of(delay_time, quantum);
    assert(product_is(ops, clamped, sample_rate, frames));
}

/// Where the delay line does not hold the frame before a position, it does not hold the one
/// behind it either.
pub proof fn lemma_missing_frames(position: u32, length: int)
    requires
        block_of(binary::floor_of(position)) >= length,
    ensures
        block_of(binary::ceil_of(position)) >= length,
{
    binary::lemma_floor_below_ceiling(position);
}

/// Whether the block at a place of the delay line holds one of the frames around a position.
pub open spec fn is_read(positions: Seq<u32>, line: Seq<Block>, tick: int, index: int) -> bool {
    &&& 0 <= tick < positions.len()
    &&& 0 <= index < line.len()
    &&& index == block_of(binary::floor_of(positions[tick])) || index == block_of(
        binary::ceil_of(positions[tick]),
    )
}

/// The channel count of the output is the highest one of the blocks that are read: none of them
/// calls for more channels, and unless there are none, one of them calls for as many.
pub proof fn lemma_output_channel_count(positions: Seq<u32>, line: Seq<Block>, silent_too: bool)
    ensures
        0 <= output_channel_count(positions, line, silent_too) <= 255,
        forall|tick: int, index: int| #[trigger]
            is_read(positions, line, tick, index) ==> channels_called_for(line[index], silent_too)
                <= output_channel_count(positions, line, silent_too),
        output_channel_count(positions, line, silent_too) == 0 || exists|tick: int, index: int|
            #[trigger] is_read(positions, line, tick, index) && channels_called_for(
                line[index],
                silent_too,
            ) == output_channel_count(positions, line, silent_too),
    decreases positions.len(),
{
    if positions.len() > 0 {
        let before = positions.drop_last();
        let count = output_channel_count(positions, line, silent_too);
        let last = positions.len() - 1;
        let lower = block_of(binary::floor_of(positions.last()));
        let higher = block_of(binary::ceil_of(positions.last()));
        lemma_output_channel_count(before, line, silent_too);
        assert forall|tick: int, index: int| #[trigger]
            is_read(positions, line, tick, index) implies channels_called_for(
            line[index],
            silent_too,
        ) <= count by {
            if tick < last {
                assert(is_read(before, line, tick, index));
            }
        }
        if count == channels_at(line, lower, silent_too) && count != 0 {
            assert(is_read(positions, line, last, lower));
        } else if count == channels_at(line, higher, silent_too) && count != 0 {
            assert(is_read(positions, line, last, higher));
        } else if count != 0 {
            let (tick, index) = choose|tick: int, index: int| #[trigger]
                is_read(before, line, tick, index) && channels_called_for(line[index], silent_too)
                    == count;
            assert(is_read(positions, line, tick, index));
        }
    }
}

} // verus!
