//! The block splitter: partitions an input byte stream into fixed-size,
//! sequentially ranked blocks.

use vstd::prelude::*;

verus! {

/// A pre-codec block: an owned slice of the original byte stream paired with
/// its rank. Created by the splitter, consumed exactly once by a worker.
pub struct Block {
    pub rank: usize,
    pub data: Vec<u8>,
}

/// The partition of `data` into consecutive chunks of `bsize` bytes, the
/// last possibly shorter; empty input yields no chunks, so no chunk is ever
/// empty.
pub open spec fn split_spec(data: Seq<u8>, bsize: int) -> Seq<Seq<u8>>
    decreases data.len(),
    when bsize >= 1
{
    if data.len() == 0 {
        Seq::empty()
    } else if data.len() <= bsize {
        seq![data]
    } else {
        seq![data.take(bsize)] + split_spec(data.skip(bsize), bsize)
    }
}

/// The data carried by a sequence of blocks, in the order given.
pub open spec fn block_data(blocks: Seq<Block>) -> Seq<Seq<u8>> {
    blocks.map_values(|b: Block| b.data@)
}

/// Split `input` into blocks of up to `bsize` bytes, tagged with ascending
/// ranks starting at 0. The final block may be shorter; a zero-length input
/// produces no blocks at all.
#[verifier::loop_isolation(false)]
pub fn split_blocks(input: &Vec<u8>, bsize: usize) -> (blocks: Vec<Block>)
    requires
        bsize >= 1,
    ensures
        block_data(blocks@) == split_spec(input@, bsize as int),
        forall|i: int| 0 <= i < blocks@.len() ==> (#[trigger] blocks@[i]).rank == i,
{
    let ghost b = bsize as int;
    let mut blocks: Vec<Block> = Vec::new();
    let mut pos: usize = 0;
    proof {
        assert(input@.skip(0) =~= input@);
        assert(block_data(blocks@) =~= Seq::<Seq<u8>>::empty());
        assert(block_data(blocks@) + split_spec(input@, b) =~= split_spec(input@, b));
    }
    while pos < input.len()
        invariant
            pos <= input@.len(),
            block_data(blocks@) + split_spec(input@.skip(pos as int), b) == split_spec(
                input@,
                b,
            ),
            forall|i: int| 0 <= i < blocks@.len() ==> (#[trigger] blocks@[i]).rank == i,
        decreases input@.len() - pos,
    {
        let ghost rem = input@.skip(pos as int);
        let remaining = input.len() - pos;
        let chunk = if remaining > bsize {
            bsize
        } else {
            remaining
        };
        let piece = vstd::slice::slice_to_vec(
            vstd::slice::slice_subrange(input.as_slice(), pos, pos + chunk),
        );
        proof {
            assert(piece@ =~= rem.take(chunk as int));
            if remaining <= bsize {
                assert(piece@ =~= rem);
            }
        }
        let rank = blocks.len();
        blocks.push(Block { rank, data: piece });
        proof {
            assert(block_data(blocks@) =~= block_data(blocks@.drop_last()).push(
                blocks@.last().data@,
            ));
            assert(rem.skip(chunk as int) =~= input@.skip(pos + chunk));
            if remaining > bsize {
                assert(split_spec(rem, b) == seq![rem.take(b)] + split_spec(rem.skip(b), b));
            }
            assert(block_data(blocks@) + split_spec(input@.skip(pos + chunk), b) =~= split_spec(
                input@,
                b,
            ));
        }
        pos = pos + chunk;
    }
    proof {
        assert(input@.skip(input@.len() as int) =~= Seq::<u8>::empty());
        assert(block_data(blocks@) + Seq::<Seq<u8>>::empty() =~= block_data(blocks@));
    }
    blocks
}

} // verus!
