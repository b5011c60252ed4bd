//! Cutting the stream of one channel into blocks of a fixed length.

use crate::model::Sample;
use vstd::prelude::*;

verus! {

/// How many blocks of `block_len` samples are cut from a stream of `len`
/// samples: as many as can be taken while more than `block_len` samples are
/// left.
pub open spec fn block_count(len: int, block_len: int) -> int {
    if len <= 0 {
        0
    } else {
        (len - 1) / block_len
    }
}

proof fn lemma_block_count(len: int, block_len: int)
    requires
        0 <= len,
        0 < block_len,
    ensures
        0 <= block_count(len, block_len),
        block_count(len, block_len) * block_len <= len,
        len > block_len ==> block_count(len, block_len) == block_count(len - block_len, block_len)
            + 1,
        len <= block_len ==> block_count(len, block_len) == 0,
{
    if len > 0 {
        vstd::arithmetic::div_mod::lemma_fundamental_div_mod(len - 1, block_len);
        vstd::arithmetic::div_mod::lemma_mod_bound(len - 1, block_len);
        vstd::arithmetic::div_mod::lemma_div_pos_is_pos(len - 1, block_len);
        assert(block_len * ((len - 1) / block_len) == ((len - 1) / block_len) * block_len)
            by (nonlinear_arith);
        if len > block_len {
            vstd::arithmetic::div_mod::lemma_div_plus_one(len - 1 - block_len, block_len);
        } else {
            vstd::arithmetic::div_mod::lemma_basic_div(len - 1, block_len);
        }
    }
}

/// Takes from the front of `stream` every block of `block_len` samples that
/// still leaves samples behind it, and returns the blocks in the order of
/// the stream. At most `block_len` samples stay in `stream`, and at least
/// one where it was not empty.
pub fn take_blocks(stream: &mut Vec<Sample>, block_len: usize) -> (blocks: Vec<Vec<Sample>>)
    requires
        block_len > 0,
    ensures
        blocks.len() == block_count(old(stream).len() as int, block_len as int),
        forall|i: int|
            0 <= i < blocks.len() ==> (#[trigger] blocks[i])@ == old(stream)@.subrange(
                i * block_len,
                i * block_len + block_len,
            ),
        final(stream)@ == old(stream)@.skip(blocks.len() * block_len),
        final(stream).len() <= block_len,
        old(stream).len() > 0 ==> final(stream).len() > 0,
{
    let ghost whole = stream@;
    let mut blocks: Vec<Vec<Sample>> = Vec::new();
    proof {
        lemma_block_count(whole.len() as int, block_len as int);
        assert(blocks.len() * block_len == 0) by (nonlinear_arith)
            requires
                blocks.len() == 0,
        ;
        assert(whole.skip(0) == whole);
    }
    while stream.len() > block_len
        invariant
            block_len > 0,
            whole == old(stream)@,
            blocks.len() * block_len + stream.len() == whole.len(),
            blocks.len() + block_count(stream.len() as int, block_len as int) == block_count(
                whole.len() as int,
                block_len as int,
            ),
            forall|i: int|
                0 <= i < blocks.len() ==> (#[trigger] blocks[i])@ == whole.subrange(
                    i * block_len,
                    i * block_len + block_len,
                ),
            stream@ == whole.skip(blocks.len() * block_len),
            whole.len() > 0 ==> stream.len() > 0,
        decreases stream.len(),
    {
        let ghost taken = blocks.len() * block_len;
        let ghost before = blocks@;
        proof {
            lemma_block_count(stream.len() as int, block_len as int);
            assert((blocks.len() + 1) * block_len == taken + block_len) by (nonlinear_arith)
                requires
                    taken == blocks.len() * block_len,
            ;
        }
        let mut block = stream.split_off(block_len);
        std::mem::swap(stream, &mut block);
        proof {
            assert(block@ == whole.subrange(taken, taken + block_len));
            assert(stream@ == whole.skip(taken + block_len));
        }
        blocks.push(block);
        proof {
            assert forall|i: int| 0 <= i < blocks.len() implies (#[trigger] blocks[i])@
                == whole.subrange(i * block_len, i * block_len + block_len) by {
                if i < before.len() {
                    assert(blocks[i] == before[i]);
                }
            }
        }
    }
    proof {
        lemma_block_count(stream.len() as int, block_len as int);
    }
    blocks
}

} // verus!
