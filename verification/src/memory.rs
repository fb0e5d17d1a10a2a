//! The words that the allocator itself keeps in free blocks: the first
//! pointer-sized word of a free block holds the address of the next one.

use vstd::prelude::*;
use std::collections::HashMap;

verus! {

broadcast use vstd::std_specs::hash::group_hash_axioms;

/// The link words of all free blocks, by block address. A word that was
/// never written reads as 0, as a fresh page does.
pub struct BlockMemory {
    words: HashMap<usize, usize>,
}

impl BlockMemory {
    /// The word at `addr`.
    pub closed spec fn spec_read(&self, addr: usize) -> usize {
        if self.words@.contains_key(addr) {
            self.words@[addr]
        } else {
            0
        }
    }

    /// Memory in which every word is 0.
    pub fn new() -> (r: BlockMemory)
        ensures
            forall|a: usize| #[trigger] r.spec_read(a) == 0,
    {
        BlockMemory { words: HashMap::new() }
    }

    /// The word at `addr`.
    #[verifier::when_used_as_spec(spec_read)]
    pub fn read(&self, addr: usize) -> (r: usize)
        ensures
            r == self.spec_read(addr),
    {
        match self.words.get(&addr) {
            Some(w) => *w,
            None => 0,
        }
    }

    /// Stores `value` at `addr`.
    pub fn write(&mut self, addr: usize, value: usize)
        ensures
            forall|a: usize|
                #[trigger] final(self).spec_read(a) == if a == addr {
                    value
                } else {
                    old(self).spec_read(a)
                },
    {
        self.words.insert(addr, value);
    }
}

/// The address of block `i` of the superblock at `sb`, with blocks of `bs`
/// bytes.
#[verifier::opaque]
pub open spec fn spec_block_addr(sb: usize, bs: u32, i: int) -> usize {
    (sb + i * bs) as usize
}

impl BlockMemory {
    /// Whether block `j` of the superblock at `sb` is linked to block
    /// `j + 1`.
    pub open spec fn threaded_at(&self, sb: usize, bs: u32, j: int) -> bool {
        self.spec_read(spec_block_addr(sb, bs, j)) == spec_block_addr(sb, bs, j + 1)
    }

    /// Links each of the `count` blocks at `sb` to the next. The word of the
    /// last block is left as it is, and so is every word outside the
    /// superblock.
    pub fn thread(&mut self, sb: usize, bs: u32, count: u32)
        requires
            bs > 0,
            count > 0,
            sb + count * bs <= usize::MAX,
        ensures
            forall|j: int| 0 <= j < count - 1 ==> #[trigger] final(self).threaded_at(sb, bs, j),
            forall|a: usize|
                a < sb || a >= sb + (count - 1) * bs || (a - sb) % (bs as int) != 0
                    ==> #[trigger] final(self).spec_read(a) == old(self).spec_read(a),
    {
        let mut i: u32 = 0;
        let mut block: usize = sb;
        proof {
            reveal(spec_block_addr);
            lemma_block_offsets(0, count as int, bs as int);
        }
        while i < count - 1
            invariant
                i <= count - 1,
                bs > 0,
                sb + count * bs <= usize::MAX,
                block == sb + i * bs,
                forall|j: int| 0 <= j < i ==> #[trigger] self.threaded_at(sb, bs, j),
                forall|a: usize|
                    a < sb || a >= sb + i * bs || (a - sb) % (bs as int) != 0
                        ==> #[trigger] self.spec_read(a) == old(self).spec_read(a),
            decreases count - 1 - i,
        {
            proof {
                reveal(spec_block_addr);
                lemma_block_offsets(i as int, count as int, bs as int);
                lemma_block_offsets(i + 1, count as int, bs as int);
            }
            let next: usize = block + bs as usize;
            let ghost prev = *self;
            self.write(block, next);
            proof {
                assert(block == spec_block_addr(sb, bs, i as int));
                assert(next == spec_block_addr(sb, bs, i + 1));
                vstd::arithmetic::div_mod::lemma_mod_multiples_basic(i as int, bs as int);
                assert forall|j: int| 0 <= j < i + 1 implies #[trigger] self.threaded_at(sb, bs, j) by {
                    if j < i {
                        assert(prev.threaded_at(sb, bs, j));
                        lemma_block_offsets(j, i as int, bs as int);
                        assert(spec_block_addr(sb, bs, j) != block);
                    }
                }
            }
            block = next;
            i += 1;
        }
        proof {
            reveal(spec_block_addr);
            lemma_block_offsets(count - 1, count as int, bs as int);
        }
    }
}

/// Offsets of blocks: they are not negative, rise by the block size, and
/// stay within the blocks counted.
pub proof fn lemma_block_offsets(i: int, n: int, bs: int)
    requires
        0 <= i < n,
        bs > 0,
    ensures
        0 <= i * bs,
        (i + 1) * bs == i * bs + bs,
        (i + 1) * bs <= n * bs,
{
    assert(0 <= i * bs) by (nonlinear_arith)
        requires
            0 <= i,
            bs > 0,
    ;
    assert((i + 1) * bs == i * bs + bs) by (nonlinear_arith);
    assert((i + 1) * bs <= n * bs) by (nonlinear_arith)
        requires
            i + 1 <= n,
            bs > 0,
    ;
}

} // verus!
