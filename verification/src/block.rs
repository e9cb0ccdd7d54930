//! Blocks of samples, and the chunks of blocks that nodes exchange.
use num_traits::Zero;
use smallvec::SmallVec;
use vstd::prelude::*;

verus! {

/// The number of frames in a render quantum.
pub const FRAMES_PER_BLOCK_USIZE: usize = 128;

/// So many zero samples.
pub open spec fn zeros(count: nat) -> Seq<u32> {
    Seq::new(count, |i: int| 0u32)
}

/// How channels are matched when blocks are mixed.
#[derive(Clone, Copy, Debug, PartialEq, Eq, Structural)]
pub enum ChannelInterpretation {
    Discrete,
    Speakers,
}

/// `Zero::is_zero` of the `num_traits` crate, on `u8`: whether a number is `0`.
#[verifier::external_body]
pub(crate) fn u8_is_zero(n: u8) -> (r: bool)
    ensures
        r == (n == 0),
{
    n.is_zero()
}

/// `Zero::is_zero` of the `num_traits` crate, on `usize`: whether a number is `0`.
#[verifier::external_body]
pub(crate) fn usize_is_zero(n: usize) -> (r: bool)
    ensures
        r == (n == 0),
{
    n.is_zero()
}

/// One render quantum of samples.
///
/// `buffer` holds the samples of the first channel, then those of the second, and so on, each
/// channel from its oldest sample to its newest. An empty buffer stands for silence.
#[derive(Debug)]
pub struct Block {
    pub channels: u8,
    pub buffer: Vec<u32>,
}

impl Block {
    /// Whether the block is silent without any samples of its own.
    pub open spec fn silent(self) -> bool {
        self.buffer@.len() == 0
    }

    /// The sample of a channel at a frame. Zero where the block has none.
    pub open spec fn sample(self, frame: int, channel: int) -> u32 {
        let index = channel * FRAMES_PER_BLOCK_USIZE + frame;
        if 0 <= frame < FRAMES_PER_BLOCK_USIZE && 0 <= channel < self.channels && index
            < self.buffer@.len() {
            self.buffer@[index]
        } else {
            0
        }
    }

    /// The samples of one channel.
    pub open spec fn channel(self, channel: int) -> Seq<u32> {
        Seq::new(FRAMES_PER_BLOCK_USIZE as nat, |frame: int| self.sample(frame, channel))
    }

    /// The samples of all channels at one frame.
    pub open spec fn column(self, frame: int) -> Seq<u32> {
        Seq::new(self.channels as nat, |channel: int| self.sample(frame, channel))
    }

    /// Whether the block has samples for all of its channels, and no others.
    pub open spec fn explicit(self) -> bool {
        self.buffer@.len() == self.channels * FRAMES_PER_BLOCK_USIZE
    }

    /// Whether the block is a single channel of explicit zeros.
    pub open spec fn is_explicit_silence(self) -> bool {
        &&& self.channels == 1
        &&& self.buffer@ == zeros(FRAMES_PER_BLOCK_USIZE as nat)
    }

    /// A block without channels.
    pub fn empty() -> (r: Block)
        ensures
            r.channels == 0,
            r.buffer@ == Seq::<u32>::empty(),
    {
        Block { channels: 0, buffer: Vec::new() }
    }

    /// A block with explicit zeros on every channel.
    pub fn for_channels_explicit(channels: u8) -> (r: Block)
        ensures
            r.channels == channels,
            r.buffer@ == zeros((channels * FRAMES_PER_BLOCK_USIZE) as nat),
    {
        let length: usize = channels as usize * FRAMES_PER_BLOCK_USIZE;
        let mut buffer: Vec<u32> = Vec::new();
        let mut i: usize = 0;
        while i < length
            invariant
                i <= length,
                buffer@ == zeros(i as nat),
            decreases length - i,
        {
            buffer.push(0);
            i += 1;
        }
        Block { channels, buffer }
    }

    /// A block of samples, with as many channels as they fill, as far as a `u8` counts them.
    pub fn for_vec(buffer: Vec<u32>) -> (r: Block)
        ensures
            r.buffer@ == buffer@,
            r.channels == (buffer@.len() / FRAMES_PER_BLOCK_USIZE as nat) % 256,
    {
        let channels: usize = buffer.len() / FRAMES_PER_BLOCK_USIZE;
        Block { channels: (channels % 256) as u8, buffer }
    }

    /// Appends a channel.
    pub fn push_chan(&mut self, data: &[u32])
        requires
            old(self).channels < 255,
            old(self).explicit(),
            data@.len() == FRAMES_PER_BLOCK_USIZE,
        ensures
            final(self).channels == old(self).channels + 1,
            final(self).buffer@ == old(self).buffer@ + data@,
    {
        self.buffer.extend_from_slice(data);
        self.channels = self.channels + 1;
        assert(self.buffer@ =~= old(self).buffer@ + data@);
    }

    /// Sets the samples of all channels at one frame.
    pub fn set_column(&mut self, frame: usize, column: &Vec<u32>)
        requires
            old(self).explicit(),
            frame < FRAMES_PER_BLOCK_USIZE,
            column@.len() == old(self).channels,
        ensures
            final(self).explicit(),
            final(self).channels == old(self).channels,
            final(self).column(frame as int) == column@,
            forall|other: int|
                0 <= other < FRAMES_PER_BLOCK_USIZE && other != frame
                    ==> #[trigger] final(self).column(other) == old(self).column(other),
    {
        let mut channel: usize = 0;
        while channel < column.len()
            invariant
                channel <= column@.len(),
                column@.len() == self.channels,
                self.channels == old(self).channels,
                self.explicit(),
                old(self).explicit(),
                frame < FRAMES_PER_BLOCK_USIZE,
                forall|c: int, f: int|
                    0 <= c < self.channels && 0 <= f < FRAMES_PER_BLOCK_USIZE && (f != frame || c
                        >= channel) ==> #[trigger] self.sample(f, c) == old(self).sample(f, c),
                forall|c: int| 0 <= c < channel ==> self.sample(frame as int, c) == column@[c],
            decreases column@.len() - channel,
        {
            let ghost before = *self;
            let index: usize = channel * FRAMES_PER_BLOCK_USIZE + frame;
            self.buffer.set(index, column[channel]);
            assert forall|c: int, f: int|
                0 <= c < self.channels && 0 <= f < FRAMES_PER_BLOCK_USIZE && (f != frame || c
                    != channel) implies #[trigger] self.sample(f, c) == before.sample(f, c) by {
                assert(c * FRAMES_PER_BLOCK_USIZE + f != index);
            }
            channel += 1;
        }
        assert(self.column(frame as int) =~= column@);
        assert forall|other: int|
            0 <= other < FRAMES_PER_BLOCK_USIZE && other != frame implies #[trigger] self.column(
            other,
        ) == old(self).column(other) by {
            assert(self.column(other) =~= old(self).column(other));
        }
    }

    /// The number of channels.
    pub fn chan_count(&self) -> (r: u8)
        ensures
            r == self.channels,
    {
        self.channels
    }

    /// Whether the block is silent without any samples of its own.
    pub fn is_silence(&self) -> (r: bool)
        ensures
            r == self.silent(),
    {
        self.buffer.len() == 0
    }

    /// The sample of a channel at a frame. Zero where the block has none.
    pub fn data_chan_frame(&self, frame: usize, channel: u8) -> (r: u32)
        ensures
            r == self.sample(frame as int, channel as int),
    {
        if frame < FRAMES_PER_BLOCK_USIZE && channel < self.channels {
            let index: usize = channel as usize * FRAMES_PER_BLOCK_USIZE + frame;
            if index < self.buffer.len() {
                return self.buffer[index];
            }
        }
        0
    }

    /// The samples of a channel.
    pub fn data_chan(&self, channel: u8) -> (r: Vec<u32>)
        ensures
            r@ == self.channel(channel as int),
    {
        let mut data: Vec<u32> = Vec::new();
        let mut frame: usize = 0;
        while frame < FRAMES_PER_BLOCK_USIZE
            invariant
                frame <= FRAMES_PER_BLOCK_USIZE,
                data@ == self.channel(channel as int).take(frame as int),
            decreases FRAMES_PER_BLOCK_USIZE - frame,
        {
            data.push(self.data_chan_frame(frame, channel));
            frame += 1;
            assert(data@ =~= self.channel(channel as int).take(frame as int));
        }
        assert(data@ =~= self.channel(channel as int));
        data
    }
}

/// A list of blocks, of which the first needs no allocation.
#[verifier::external_body]
#[derive(Debug)]
pub struct BlockList {
    list: SmallVec<[Block; 1]>,
}

/// The blocks of a list, in their order.
pub uninterp spec fn blocks_of(list: BlockList) -> Seq<Block>;

impl BlockList {
    /// `SmallVec::new` of the `smallvec` crate: a list without blocks.
    #[verifier::external_body]
    fn new() -> (r: BlockList)
        ensures
            blocks_of(r) == Seq::<Block>::empty(),
    {
        BlockList { list: SmallVec::new() }
    }

    /// `SmallVec::push` of the `smallvec` crate: the block is appended. A full list grows to the
    /// next power of two, and panics where that many blocks exceed the largest allocation,
    /// `isize::MAX` bytes. A block takes no more than 32 bytes, so that up to the bound on the
    /// length there is room to grow.
    #[verifier::external_body]
    fn push(&mut self, block: Block)
        requires
            blocks_of(*old(self)).len() < usize::MAX / 128,
        ensures
            blocks_of(*final(self)) == blocks_of(*old(self)).push(block),
    {
        self.list.push(block)
    }

    /// `SmallVec::pop` of the `smallvec` crate: the last block is taken off, if there is one.
    #[verifier::external_body]
    fn pop(&mut self) -> (r: Option<Block>)
        ensures
            blocks_of(*old(self)).len() == 0 ==> r is None && blocks_of(*final(self)) == blocks_of(
                *old(self),
            ),
            blocks_of(*old(self)).len() > 0 ==> r == Some(blocks_of(*old(self)).last())
                && blocks_of(*final(self)) == blocks_of(*old(self)).drop_last(),
    {
        self.list.pop()
    }

    /// `SmallVec::len` of the `smallvec` crate: the number of blocks.
    #[verifier::external_body]
    fn len(&self) -> (r: usize)
        ensures
            r == blocks_of(*self).len(),
    {
        self.list.len()
    }

    /// `SmallVec` of the `smallvec` crate, indexed: the block at a position. It panics where
    /// there is none.
    #[verifier::external_body]
    fn at(&self, index: usize) -> (r: &Block)
        requires
            index < blocks_of(*self).len(),
        ensures
            *r == blocks_of(*self)[index as int],
    {
        &self.list[index]
    }
}

/// The blocks that a node receives or produces in one render quantum, one for each port.
#[derive(Debug)]
pub struct Chunk {
    pub blocks: BlockList,
}

impl View for Chunk {
    type V = Seq<Block>;

    open spec fn view(&self) -> Seq<Block> {
        blocks_of(self.blocks)
    }
}

impl Default for Chunk {
    /// A chunk without blocks.
    fn default() -> (r: Chunk)
        ensures
            r@ == Seq::<Block>::empty(),
    {
        Chunk { blocks: BlockList::new() }
    }
}

impl Chunk {
    /// A chunk of a single block.
    pub fn new(block: Block) -> (r: Chunk)
        ensures
            r@ == seq![block],
    {
        let mut blocks = BlockList::new();
        blocks.push(block);
        assert(blocks_of(blocks) =~= seq![block]);
        Chunk { blocks }
    }

    /// A chunk of a single block, with a single channel of explicit zeros.
    pub fn explicit_silence() -> (r: Chunk)
        ensures
            r@.len() == 1,
            r@[0].is_explicit_silence(),
    {
        Chunk::new(Block::for_channels_explicit(1))
    }

    /// The number of blocks.
    pub fn len(&self) -> (r: usize)
        ensures
            r == self@.len(),
    {
        self.blocks.len()
    }

    /// The block at a position.
    pub fn block(&self, index: usize) -> (r: &Block)
        requires
            index < self@.len(),
        ensures
            *r == self@[index as int],
    {
        self.blocks.at(index)
    }

    /// Appends a block, as far as memory can hold one more.
    pub fn push(&mut self, block: Block)
        requires
            old(self)@.len() < usize::MAX / 128,
        ensures
            final(self)@ == old(self)@.push(block),
    {
        self.blocks.push(block);
    }

    /// Takes off the last block, if there is one.
    pub fn pop(&mut self) -> (r: Option<Block>)
        ensures
            old(self)@.len() == 0 ==> r is None && final(self)@ == old(self)@,
            old(self)@.len() > 0 ==> r == Some(old(self)@.last()) && final(self)@
                == old(self)@.drop_last(),
    {
        self.blocks.pop()
    }
}

} // verus!
