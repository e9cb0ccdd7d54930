//! How many channels the output of a delay has.
//!
//! Input with more channels than before must widen the output as soon as it affects it, and
//! input with fewer channels must not narrow it as long as older input still affects it. So the
//! output has the highest channel count of the blocks that are read.
use crate::binary;
use crate::block::Block;
use crate::delay_node::delay_line::DelayBuffer;
use crate::delay_node::taps::{block_of, find_block_with_index};
use vstd::prelude::*;

verus! {

/// The channels that a block calls for. A silent block calls for none, unless `silent_too`.
pub open spec fn channels_called_for(block: Block, silent_too: bool) -> int {
    if block.silent() && !silent_too {
        0
    } else {
        block.channels as int
    }
}

/// The channels that the block at a place of the delay line calls for. There are none outside of
/// the line.
pub open spec fn channels_at(line: Seq<Block>, index: int, silent_too: bool) -> int {
    if 0 <= index < line.len() {
        channels_called_for(line[index], silent_too)
    } else {
        0
    }
}

/// The greater of two integers.
pub open spec fn greater(a: int, b: int) -> int {
    if a < b {
        b
    } else {
        a
    }
}

/// The channel count of the output, for these positions in the delay line: the most channels
/// that any block around one of them calls for.
pub open spec fn output_channel_count(
    positions: Seq<u32>,
    line: Seq<Block>,
    silent_too: bool,
) -> int
    decreases positions.len(),
{
    if positions.len() == 0 {
        0
    } else {
        greater(
            output_channel_count(positions.drop_last(), line, silent_too),
            greater(
                channels_at(line, block_of(binary::floor_of(positions.last())), silent_too),
                channels_at(line, block_of(binary::ceil_of(positions.last())), silent_too),
            ),
        )
    }
}

/// The channels that the block at a place of the delay line calls for.
fn channels_of(line: &DelayBuffer, index: usize, silent_too: bool) -> (r: u8)
    ensures
        r == channels_at(line@, index as int, silent_too),
{
    if index >= line.blocks.len() {
        return 0;
    }
    let block = &line.blocks[index];
    if block.is_silence() && !silent_too {
        0
    } else {
        block.chan_count()
    }
}

/// The channel count of the output, for these positions in the delay line.
pub fn calc_channel_count(positions: &[u32], line: &DelayBuffer, silent_too: bool) -> (r: u8)
    ensures
        r == output_channel_count(positions@, line@, silent_too),
{
    let mut channel_count: u8 = 0;
    let mut tick: usize = 0;
    while tick < positions.len()
        invariant
            tick <= positions@.len(),
            channel_count == output_channel_count(
                positions@.take(tick as int),
                line@,
                silent_too,
            ),
        decreases positions@.len() - tick,
    {
        assert(positions@.take(tick + 1).drop_last() =~= positions@.take(tick as int));
        let lower_block: usize = find_block_with_index(binary::floor_index(positions[tick]));
        let higher_block: usize = find_block_with_index(binary::ceil_index(positions[tick]));
        let lower: u8 = channels_of(line, lower_block, silent_too);
        let higher: u8 = channels_of(line, higher_block, silent_too);
        if channel_count < lower {
            channel_count = lower;
        }
        if channel_count < higher {
            channel_count = higher;
        }
        tick += 1;
    }
    assert(positions@.take(tick as int) =~= positions@);
    channel_count
}

} // verus!
