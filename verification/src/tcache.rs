//! A thread's cache of free blocks of one size class.

use vstd::prelude::*;
use crate::memory::BlockMemory;

verus! {

/// A stack of free blocks threaded through the blocks themselves: `block` is
/// the top, and the first word of each block holds the address of the one
/// below it.
#[derive(Clone, Copy, Debug)]
pub struct TCacheBin {
    block: usize,
    block_num: u32,
}

impl TCacheBin {
    /// The block on top.
    pub closed spec fn spec_peek_block(&self) -> usize {
        self.block
    }

    /// The number of blocks on the stack.
    pub closed spec fn spec_get_block_num(&self) -> u32 {
        self.block_num
    }

    /// An empty stack.
    pub fn new() -> (r: TCacheBin)
        ensures
            r.spec_peek_block() == 0,
            r.spec_get_block_num() == 0,
    {
        TCacheBin { block: 0, block_num: 0 }
    }

    /// The number of blocks on the stack.
    #[verifier::when_used_as_spec(spec_get_block_num)]
    pub fn get_block_num(&self) -> (r: u32)
        ensures
            r == self.spec_get_block_num(),
    {
        self.block_num
    }

    /// The block on top, without taking it.
    #[verifier::when_used_as_spec(spec_peek_block)]
    pub fn peek_block(&self) -> (r: usize)
        ensures
            r == self.spec_peek_block(),
    {
        self.block
    }

    /// Puts `block` on top, writing the old top into its first word.
    pub fn push_block(&mut self, mem: &mut BlockMemory, block: usize)
        requires
            old(self).spec_get_block_num() < u32::MAX,
        ensures
            final(self).spec_peek_block() == block,
            final(self).spec_get_block_num() == old(self).spec_get_block_num() + 1,
            forall|a: usize|
                #[trigger] final(mem).spec_read(a) == if a == block {
                    old(self).spec_peek_block()
                } else {
                    old(mem).spec_read(a)
                },
    {
        mem.write(block, self.block);
        self.block = block;
        self.block_num += 1;
    }

    /// Makes the chain of `length` blocks that starts at `block` the stack.
    pub fn push_list(&mut self, block: usize, length: u32)
        requires
            old(self).spec_get_block_num() == 0,
        ensures
            final(self).spec_peek_block() == block,
            final(self).spec_get_block_num() == length,
    {
        self.block = block;
        self.block_num = length;
    }

    /// Takes the block on top; the new top is read from its first word.
    pub fn pop_block(&mut self, mem: &BlockMemory) -> (r: usize)
        requires
            old(self).spec_get_block_num() > 0,
        ensures
            r == old(self).spec_peek_block(),
            final(self).spec_peek_block() == mem.spec_read(r),
            final(self).spec_get_block_num() == old(self).spec_get_block_num() - 1,
    {
        let ret: usize = self.block;
        self.block = mem.read(ret);
        self.block_num -= 1;
        ret
    }

    /// Drops the `length` blocks on top; `block` is the one below them.
    pub fn pop_list(&mut self, block: usize, length: u32)
        requires
            old(self).spec_get_block_num() >= length,
        ensures
            final(self).spec_peek_block() == block,
            final(self).spec_get_block_num() == old(self).spec_get_block_num() - length,
    {
        self.block = block;
        self.block_num -= length;
    }
}

} // verus!
