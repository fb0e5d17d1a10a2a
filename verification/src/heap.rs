//! Superblock descriptors: the packed anchor word, tagged descriptor
//! references, and the descriptor record itself.

use vstd::prelude::*;
use std::collections::HashMap;
use atomic::Atomic;
use crate::bits::{field_get, field_set, get_field, set_field};
use crate::cells::{
    cell_compare_exchange, cell_load, cell_load64, cell_new, cell_new64, cell_store, cell_store64,
    cell_word, cell_word64,
};
use crate::size_classes::{SizeClassData, SizeClassTable, MAX_SZ_IDX};

verus! {

broadcast use vstd::std_specs::hash::group_hash_axioms;

/// log2 of the bound on blocks per superblock.
pub const LG_MAX_BLOCK_NUM: u32 = 31;

/// Bound on the blocks of one superblock: counts stay below it.
pub const MAX_BLOCK_NUM: u64 = 0x8000_0000;

/// Bytes acquired at a time to hold descriptors.
pub const DESCRIPTOR_BLOCK_SZ: usize = 65536;

/// What a superblock has left.
#[derive(Clone, Copy, Debug, PartialEq, Eq, Structural)]
pub enum SbState {
    /// Every block is with a thread or a user.
    Full,
    /// Some blocks are owned by the superblock itself.
    Partial,
    /// Every block came back; the pages are released.
    Empty,
}

impl SbState {
    /// The two-bit code stored in an anchor.
    pub open spec fn spec_code(self) -> u32 {
        match self {
            SbState::Full => 0,
            SbState::Partial => 1,
            SbState::Empty => 2,
        }
    }

    /// The two-bit code stored in an anchor.
    #[verifier::when_used_as_spec(spec_code)]
    pub fn code(self) -> (r: u32)
        ensures
            r == self.spec_code(),
    {
        match self {
            SbState::Full => 0,
            SbState::Partial => 1,
            SbState::Empty => 2,
        }
    }
}

/// The mask of an anchor's index and count fields: 31 bits.
pub const ANCHOR_FIELD_MASK: u64 = 0x7FFF_FFFF;

/// The state of a superblock in one word: two bits of state, then the index
/// of the first free block, then the number of free blocks that the
/// superblock itself owns, 31 bits each.
#[derive(Clone, Copy, Debug, PartialEq, Eq, Structural)]
pub struct Anchor {
    anch: u64,
}

impl Anchor {
    /// The packed word.
    pub closed spec fn word(&self) -> u64 {
        self.anch
    }

    /// The state code.
    pub closed spec fn spec_state(&self) -> u32 {
        field_get(self.anch, 0, 3) as u32
    }

    /// The index of the first free block.
    pub closed spec fn spec_avail(&self) -> u32 {
        field_get(self.anch, 2, 0x7FFF_FFFF) as u32
    }

    /// The number of free blocks owned by the superblock.
    pub closed spec fn spec_count(&self) -> u32 {
        field_get(self.anch, 33, 0x7FFF_FFFF) as u32
    }

    /// The all-zero anchor: state `Full`, index 0, count 0.
    pub fn new() -> (r: Anchor)
        ensures
            r.word() == 0,
            r.spec_state() == 0,
            r.spec_avail() == 0,
            r.spec_count() == 0,
    {
        proof {
            lemma_anchor_bounds(0);
        }
        Anchor { anch: 0 }
    }

    /// The packed word, as a lock-free host compares and swaps it.
    #[verifier::when_used_as_spec(word)]
    pub fn to_bits(&self) -> (r: u64)
        ensures
            r == self.word(),
    {
        self.anch
    }

    /// The anchor with the packed word `word`.
    pub fn from_bits(word: u64) -> (r: Anchor)
        ensures
            r.word() == word,
    {
        Anchor { anch: word }
    }

    /// The state code.
    #[verifier::when_used_as_spec(spec_state)]
    pub fn state(&self) -> (r: u32)
        ensures
            r == self.spec_state(),
            r <= 3,
    {
        get_field(self.anch, 0, 3) as u32
    }

    /// The index of the first free block.
    #[verifier::when_used_as_spec(spec_avail)]
    pub fn avail(&self) -> (r: u32)
        ensures
            r == self.spec_avail(),
            r <= 0x7FFF_FFFF,
    {
        get_field(self.anch, 2, ANCHOR_FIELD_MASK) as u32
    }

    /// The number of free blocks owned by the superblock.
    #[verifier::when_used_as_spec(spec_count)]
    pub fn count(&self) -> (r: u32)
        ensures
            r == self.spec_count(),
            r <= 0x7FFF_FFFF,
    {
        get_field(self.anch, 33, ANCHOR_FIELD_MASK) as u32
    }

    /// Stores the low two bits of `state`.
    pub fn set_state(&mut self, state: u32)
        ensures
            final(self).spec_state() == state & 3,
            state <= 3 ==> final(self).spec_state() == state,
            final(self).spec_avail() == old(self).spec_avail(),
            final(self).spec_count() == old(self).spec_count(),
    {
        proof {
            lemma_store_state(self.anch, state);
            lemma_fits(state);
        }
        self.anch = set_field(self.anch, 0, 3, state as u64);
    }

    /// Stores the low 31 bits of `avail`.
    pub fn set_avail(&mut self, avail: u32)
        ensures
            final(self).spec_avail() == avail & 0x7FFF_FFFF,
            avail <= 0x7FFF_FFFF ==> final(self).spec_avail() == avail,
            final(self).spec_state() == old(self).spec_state(),
            final(self).spec_count() == old(self).spec_count(),
    {
        proof {
            lemma_store_avail(self.anch, avail);
            lemma_fits(avail);
        }
        self.anch = set_field(self.anch, 2, ANCHOR_FIELD_MASK, avail as u64);
    }

    /// Stores the low 31 bits of `count`.
    pub fn set_count(&mut self, count: u32)
        ensures
            final(self).spec_count() == count & 0x7FFF_FFFF,
            count <= 0x7FFF_FFFF ==> final(self).spec_count() == count,
            final(self).spec_state() == old(self).spec_state(),
            final(self).spec_avail() == old(self).spec_avail(),
    {
        proof {
            lemma_store_count(self.anch, count);
            lemma_fits(count);
        }
        self.anch = set_field(self.anch, 33, ANCHOR_FIELD_MASK, count as u64);
    }
}

/// The fields of an anchor word are within their widths, and those of the
/// zero word are zero.
proof fn lemma_anchor_bounds(w: u64)
    by (bit_vector)
    ensures
        field_get(w, 0, 3) <= 3,
        field_get(w, 2, 0x7FFF_FFFF) <= 0x7FFF_FFFF,
        field_get(w, 33, 0x7FFF_FFFF) <= 0x7FFF_FFFF,
        w == 0 ==> field_get(w, 0, 3) == 0 && field_get(w, 2, 0x7FFF_FFFF) == 0 && field_get(
            w,
            33,
            0x7FFF_FFFF,
        ) == 0,
{
}

/// A value within a field's width is stored whole.
proof fn lemma_fits(v: u32)
    by (bit_vector)
    ensures
        v <= 3 ==> v & 3 == v,
        v <= 0x7FFF_FFFF ==> v & 0x7FFF_FFFF == v,
{
}

/// Storing the state field changes it alone.
proof fn lemma_store_state(w: u64, v: u32)
    by (bit_vector)
    ensures
        field_get(field_set(w, 0, 3, v as u64), 0, 3) == (v & 3) as u64,
        field_get(field_set(w, 0, 3, v as u64), 2, 0x7FFF_FFFF) == field_get(w, 2, 0x7FFF_FFFF),
        field_get(field_set(w, 0, 3, v as u64), 33, 0x7FFF_FFFF) == field_get(w, 33, 0x7FFF_FFFF),
{
}

/// Storing the index field changes it alone.
proof fn lemma_store_avail(w: u64, v: u32)
    by (bit_vector)
    ensures
        field_get(field_set(w, 2, 0x7FFF_FFFF, v as u64), 2, 0x7FFF_FFFF) == (v & 0x7FFF_FFFF) as u64,
        field_get(field_set(w, 2, 0x7FFF_FFFF, v as u64), 0, 3) == field_get(w, 0, 3),
        field_get(field_set(w, 2, 0x7FFF_FFFF, v as u64), 33, 0x7FFF_FFFF) == field_get(
            w,
            33,
            0x7FFF_FFFF,
        ),
{
}

/// Storing the count field changes it alone.
proof fn lemma_store_count(w: u64, v: u32)
    by (bit_vector)
    ensures
        field_get(field_set(w, 33, 0x7FFF_FFFF, v as u64), 33, 0x7FFF_FFFF) == (v & 0x7FFF_FFFF) as u64,
        field_get(field_set(w, 33, 0x7FFF_FFFF, v as u64), 0, 3) == field_get(w, 0, 3),
        field_get(field_set(w, 33, 0x7FFF_FFFF, v as u64), 2, 0x7FFF_FFFF) == field_get(
            w,
            2,
            0x7FFF_FFFF,
        ),
{
}

/// A reference to a descriptor with a small counter in the bits that the
/// descriptor's alignment leaves free. The counter changes whenever the head
/// of a list is replaced, so a stale head is never mistaken for the current
/// one.
#[derive(Clone, Copy, Debug, PartialEq, Eq, Structural)]
pub struct DescriptorNode {
    desc: usize,
}

impl DescriptorNode {
    /// The packed word.
    pub closed spec fn word(&self) -> usize {
        self.desc
    }

    /// The packed word, as a lock-free host compares and swaps it.
    #[verifier::when_used_as_spec(word)]
    pub fn to_bits(&self) -> (r: usize)
        ensures
            r == self.word(),
    {
        self.desc
    }

    /// The address of the descriptor, 0 for none.
    pub closed spec fn spec_get_desc(&self) -> usize {
        self.desc & !63usize
    }

    /// The counter, below 64.
    pub closed spec fn spec_get_counter(&self) -> usize {
        self.desc & 63usize
    }

    /// The node whose word is `desc`: a cache-line aligned address gives a
    /// reference to the descriptor there, with counter 0.
    pub fn new(desc: usize) -> (r: DescriptorNode)
        ensures
            r.word() == desc,
            r.spec_get_desc() == desc & !63usize,
            r.spec_get_counter() == desc & 63usize,
            desc & 63 == 0 ==> r.spec_get_desc() == desc && r.spec_get_counter() == 0,
            desc == 0 ==> r.spec_get_desc() == 0 && r.spec_get_counter() == 0,
    {
        proof {
            lemma_tagged(desc, 0);
        }
        DescriptorNode { desc }
    }

    /// Points the node at `desc` and gives it the low six bits of `counter`.
    pub fn set_desc(&mut self, desc: usize, counter: usize)
        requires
            desc & 63 == 0,
        ensures
            final(self).spec_get_desc() == desc,
            final(self).spec_get_counter() == counter & 63,
    {
        proof {
            lemma_tagged(desc, counter);
        }
        self.desc = desc | (counter & crate::defines::CACHELINE_MASK);
    }

    /// The address of the descriptor, 0 for none.
    #[verifier::when_used_as_spec(spec_get_desc)]
    pub fn get_desc(&self) -> (r: usize)
        ensures
            r == self.spec_get_desc(),
            r & 63 == 0,
    {
        proof {
            lemma_tagged(self.desc, 0);
        }
        self.desc & !crate::defines::CACHELINE_MASK
    }

    /// The counter.
    #[verifier::when_used_as_spec(spec_get_counter)]
    pub fn get_counter(&self) -> (r: usize)
        ensures
            r == self.spec_get_counter(),
            r < 64,
    {
        proof {
            lemma_tagged(self.desc, 0);
        }
        self.desc & crate::defines::CACHELINE_MASK
    }
}

/// An aligned address and a six-bit tag share a word without loss.
pub proof fn lemma_tagged(a: usize, c: usize)
    by (bit_vector)
    ensures
        (a & !63usize) & 63 == 0,
        a & 63usize < 64,
        a & 63 == 0 ==> (a | (c & 63)) & !63usize == a,
        a & 63 == 0 ==> (a | (c & 63)) & 63usize == c & 63,
        a & 63 == 0 ==> a & !63usize == a,
        c < 64 ==> c & 63 == c,
        a == 0 ==> a & !63usize == 0 && a & 63usize == 0,
{
}

/// The record kept for one superblock, or for one large block.
#[derive(Clone, Copy, Debug)]
pub struct Descriptor {
    next_free: DescriptorNode,
    next_partial: DescriptorNode,
    anchor: Anchor,
    superblock: usize,
    heap: usize,
    block_size: u32,
    maxcount: u32,
}

impl Descriptor {
    /// The next descriptor on the pool's free stack.
    pub closed spec fn spec_get_next_free(&self) -> DescriptorNode {
        self.next_free
    }

    /// The next descriptor on a heap's partial list.
    pub closed spec fn spec_get_next_partial(&self) -> DescriptorNode {
        self.next_partial
    }

    /// The state word of the superblock.
    pub closed spec fn spec_get_anchor(&self) -> Anchor {
        self.anchor
    }

    /// The base address of the superblock.
    pub closed spec fn spec_get_superblock(&self) -> usize {
        self.superblock
    }

    /// The index of the owning heap, 0 for a large block.
    pub closed spec fn spec_get_heap(&self) -> usize {
        self.heap
    }

    /// Bytes per block; for a large block, its whole size.
    pub closed spec fn spec_get_block_size(&self) -> u32 {
        self.block_size
    }

    /// Blocks in the superblock.
    pub closed spec fn spec_get_maxcount(&self) -> u32 {
        self.maxcount
    }

    /// A descriptor as fresh pages hold it: every field zero.
    pub closed spec fn spec_zeroed() -> Descriptor {
        Descriptor {
            next_free: DescriptorNode { desc: 0 },
            next_partial: DescriptorNode { desc: 0 },
            anchor: Anchor { anch: 0 },
            superblock: 0,
            heap: 0,
            block_size: 0,
            maxcount: 0,
        }
    }

    /// A descriptor as fresh pages hold it: every field zero.
    #[verifier::when_used_as_spec(spec_zeroed)]
    pub fn zeroed() -> (r: Descriptor)
        ensures
            r == Descriptor::spec_zeroed(),
            r.spec_get_next_free().spec_get_desc() == 0,
            r.spec_get_next_partial().spec_get_desc() == 0,
            r.spec_get_anchor().spec_state() == 0,
            r.spec_get_anchor().spec_avail() == 0,
            r.spec_get_anchor().spec_count() == 0,
            r.spec_get_superblock() == 0,
            r.spec_get_heap() == 0,
            r.spec_get_block_size() == 0,
            r.spec_get_maxcount() == 0,
    {
        Descriptor {
            next_free: DescriptorNode::new(0),
            next_partial: DescriptorNode::new(0),
            anchor: Anchor::new(),
            superblock: 0,
            heap: 0,
            block_size: 0,
            maxcount: 0,
        }
    }

    /// The next descriptor on the pool's free stack.
    #[verifier::when_used_as_spec(spec_get_next_free)]
    pub fn get_next_free(&self) -> (r: DescriptorNode)
        ensures
            r == self.spec_get_next_free(),
    {
        self.next_free
    }

    /// The next descriptor on a heap's partial list.
    #[verifier::when_used_as_spec(spec_get_next_partial)]
    pub fn get_next_partial(&self) -> (r: DescriptorNode)
        ensures
            r == self.spec_get_next_partial(),
    {
        self.next_partial
    }

    /// The state word of the superblock.
    #[verifier::when_used_as_spec(spec_get_anchor)]
    pub fn get_anchor(&self) -> (r: Anchor)
        ensures
            r == self.spec_get_anchor(),
    {
        self.anchor
    }

    /// The base address of the superblock.
    #[verifier::when_used_as_spec(spec_get_superblock)]
    pub fn get_superblock(&self) -> (r: usize)
        ensures
            r == self.spec_get_superblock(),
    {
        self.superblock
    }

    /// The index of the owning heap, 0 for a large block.
    #[verifier::when_used_as_spec(spec_get_heap)]
    pub fn get_heap(&self) -> (r: usize)
        ensures
            r == self.spec_get_heap(),
    {
        self.heap
    }

    /// Bytes per block; for a large block, its whole size.
    #[verifier::when_used_as_spec(spec_get_block_size)]
    pub fn get_block_size(&self) -> (r: u32)
        ensures
            r == self.spec_get_block_size(),
    {
        self.block_size
    }

    /// Blocks in the superblock.
    #[verifier::when_used_as_spec(spec_get_maxcount)]
    pub fn get_maxcount(&self) -> (r: u32)
        ensures
            r == self.spec_get_maxcount(),
    {
        self.maxcount
    }

    /// Whether `other` differs from `self` at most in the named field.
    pub open spec fn same_but(&self, other: Descriptor, field: int) -> bool {
        &&& field == 0 || self.spec_get_next_free() == other.spec_get_next_free()
        &&& field == 1 || self.spec_get_next_partial() == other.spec_get_next_partial()
        &&& field == 2 || self.spec_get_anchor() == other.spec_get_anchor()
        &&& field == 3 || self.spec_get_superblock() == other.spec_get_superblock()
        &&& field == 4 || self.spec_get_heap() == other.spec_get_heap()
        &&& field == 5 || self.spec_get_block_size() == other.spec_get_block_size()
        &&& field == 6 || self.spec_get_maxcount() == other.spec_get_maxcount()
    }

    /// Sets the link on the pool's free stack.
    pub fn set_next_free(&mut self, next: DescriptorNode)
        ensures
            final(self).spec_get_next_free() == next,
            final(self).same_but(*old(self), 0),
    {
        self.next_free = next;
    }

    /// Sets the link on a heap's partial list.
    pub fn set_next_partial(&mut self, next: DescriptorNode)
        ensures
            final(self).spec_get_next_partial() == next,
            final(self).same_but(*old(self), 1),
    {
        self.next_partial = next;
    }

    /// Sets the state word.
    pub fn set_anchor(&mut self, anchor: Anchor)
        ensures
            final(self).spec_get_anchor() == anchor,
            final(self).same_but(*old(self), 2),
    {
        self.anchor = anchor;
    }

    /// Sets the base address of the superblock.
    pub fn set_superblock(&mut self, superblock: usize)
        ensures
            final(self).spec_get_superblock() == superblock,
            final(self).same_but(*old(self), 3),
    {
        self.superblock = superblock;
    }

    /// Sets the owning heap.
    pub fn set_heap(&mut self, heap: usize)
        ensures
            final(self).spec_get_heap() == heap,
            final(self).same_but(*old(self), 4),
    {
        self.heap = heap;
    }

    /// Sets the block size.
    pub fn set_block_size(&mut self, block_size: u32)
        ensures
            final(self).spec_get_block_size() == block_size,
            final(self).same_but(*old(self), 5),
    {
        self.block_size = block_size;
    }

    /// Sets the number of blocks.
    pub fn set_maxcount(&mut self, maxcount: u32)
        ensures
            final(self).spec_get_maxcount() == maxcount,
            final(self).same_but(*old(self), 6),
    {
        self.maxcount = maxcount;
    }
}

/// A multiple of the cache line size has its low six bits clear.
pub proof fn lemma_aligned_mask(a: usize)
    by (bit_vector)
    ensures
        (a % 64 == 0) == (a & 63 == 0),
{
}

/// Descriptors in one block of descriptor storage.
pub const DESCRIPTORS_PER_BLOCK: usize = 1024;

/// A descriptor in its place. The words that threads share, the two links
/// and the anchor, lie in atomic cells.
pub struct DescriptorSlot {
    next_free: Atomic<usize>,
    next_partial: Atomic<usize>,
    anchor: Atomic<u64>,
    superblock: usize,
    heap: usize,
    block_size: u32,
    maxcount: u32,
}

impl DescriptorSlot {
    /// The descriptor that the slot holds.
    pub closed spec fn value(&self) -> Descriptor {
        Descriptor {
            next_free: DescriptorNode { desc: cell_word(self.next_free) },
            next_partial: DescriptorNode { desc: cell_word(self.next_partial) },
            anchor: Anchor { anch: cell_word64(self.anchor) },
            superblock: self.superblock,
            heap: self.heap,
            block_size: self.block_size,
            maxcount: self.maxcount,
        }
    }

    /// A slot that holds `value`.
    pub fn new(value: Descriptor) -> (r: DescriptorSlot)
        ensures
            r.value() == value,
    {
        DescriptorSlot {
            next_free: cell_new(value.next_free.to_bits()),
            next_partial: cell_new(value.next_partial.to_bits()),
            anchor: cell_new64(value.anchor.to_bits()),
            superblock: value.superblock,
            heap: value.heap,
            block_size: value.block_size,
            maxcount: value.maxcount,
        }
    }

    /// The descriptor that the slot holds.
    pub fn load(&self) -> (r: Descriptor)
        ensures
            r == self.value(),
    {
        Descriptor {
            next_free: DescriptorNode::new(cell_load(&self.next_free)),
            next_partial: DescriptorNode::new(cell_load(&self.next_partial)),
            anchor: Anchor::from_bits(cell_load64(&self.anchor)),
            superblock: self.superblock,
            heap: self.heap,
            block_size: self.block_size,
            maxcount: self.maxcount,
        }
    }

    /// Puts `value` into the slot.
    pub fn store(&mut self, value: Descriptor)
        ensures
            final(self).value() == value,
    {
        cell_store(&mut self.next_free, value.next_free.to_bits());
        cell_store(&mut self.next_partial, value.next_partial.to_bits());
        cell_store64(&mut self.anchor, value.anchor.to_bits());
        self.superblock = value.superblock;
        self.heap = value.heap;
        self.block_size = value.block_size;
        self.maxcount = value.maxcount;
    }
}

/// All descriptors, by address, and the stack of those that are free. The
/// head of the stack lies in an atomic cell.
pub struct DescriptorTable {
    descs: HashMap<usize, DescriptorSlot>,
    avail: Atomic<usize>,
    free: Ghost<Seq<usize>>,
}

impl View for DescriptorTable {
    type V = Map<usize, Descriptor>;

    closed spec fn view(&self) -> Map<usize, Descriptor> {
        Map::new(|d: usize| self.descs@.contains_key(d), |d: usize| self.descs@[d].value())
    }
}

/// The address of slot `i` of the descriptor block at `base`.
pub open spec fn spec_slot(base: usize, i: int) -> usize {
    (base + 64 * i) as usize
}

impl DescriptorTable {
    /// The free descriptors, the top of the stack first.
    pub closed spec fn free_list(&self) -> Seq<usize> {
        self.free@
    }

    /// The head of the free stack.
    pub closed spec fn avail_node(&self) -> DescriptorNode {
        DescriptorNode { desc: cell_word(self.avail) }
    }

    /// The head of the free stack.
    fn head(&self) -> (r: DescriptorNode)
        ensures
            r == self.avail_node(),
    {
        DescriptorNode::new(cell_load(&self.avail))
    }

    /// Replaces the head of the free stack, which is `old_head`, in one
    /// step. With the table to itself, the step cannot fail.
    fn swap_head(&mut self, old_head: DescriptorNode, new_head: DescriptorNode)
        requires
            old_head == old(self).avail_node(),
        ensures
            final(self).avail_node() == new_head,
            final(self)@ == old(self)@,
            final(self).free_list() == old(self).free_list(),
    {
        let swapped = cell_compare_exchange(&mut self.avail, old_head.to_bits(), new_head.to_bits());
        assert(swapped.is_ok());
    }

    /// Puts `value` into the slot at `desc`, or into a new slot if there is
    /// none.
    fn insert_slot(&mut self, desc: usize, value: Descriptor)
        ensures
            final(self)@ == old(self)@.insert(desc, value),
            final(self).avail_node() == old(self).avail_node(),
            final(self).free_list() == old(self).free_list(),
    {
        match self.descs.remove(&desc) {
            Some(mut slot) => {
                slot.store(value);
                self.descs.insert(desc, slot);
            },
            None => {
                self.descs.insert(desc, DescriptorSlot::new(value));
            },
        }
        assert(self@ =~= old(self)@.insert(desc, value));
    }

    /// The descriptor that follows position `i` of a list, 0 at its end.
    pub open spec fn next_in(list: Seq<usize>, i: int) -> usize {
        if i + 1 < list.len() {
            list[i + 1]
        } else {
            0
        }
    }

    /// The first descriptor of a list, 0 if it is empty.
    pub open spec fn head_of(list: Seq<usize>) -> usize {
        if list.len() > 0 {
            list[0]
        } else {
            0
        }
    }

    /// Every descriptor lies at a cache-line aligned address other than 0,
    /// and the free stack is a chain of distinct retired descriptors.
    pub open spec fn wf(&self) -> bool {
        &&& forall|d: usize| #[trigger] self@.contains_key(d) ==> d != 0 && d % 64 == 0
        &&& self.free_list().no_duplicates()
        &&& forall|i: int| 0 <= i < self.free_list().len() ==> #[trigger] self.free_entry_ok(i)
        &&& self.avail_node().spec_get_desc() == Self::head_of(self.free_list())
    }

    /// Whether the descriptor at position `i` of the free stack is retired
    /// and linked to the one below it.
    pub open spec fn free_entry_ok(&self, i: int) -> bool {
        let d = self.free_list()[i];
        &&& self@.contains_key(d)
        &&& self@[d].spec_get_block_size() == 0
        &&& self@[d].spec_get_next_free().spec_get_desc() == Self::next_in(self.free_list(), i)
    }

    /// Whether a block of fresh pages at `base` can hold descriptors: it is
    /// page aligned, not at 0, fits the address space, and none of its slots
    /// is a descriptor already.
    pub open spec fn accepts(&self, base: usize) -> bool {
        &&& base != 0
        &&& base % 4096 == 0
        &&& base + DESCRIPTOR_BLOCK_SZ <= usize::MAX
        &&& forall|i: int|
            0 <= i < DESCRIPTORS_PER_BLOCK ==> !self@.contains_key(#[trigger] spec_slot(base, i))
    }

    /// A table without descriptors.
    pub fn new() -> (r: DescriptorTable)
        ensures
            r.wf(),
            r@ == Map::<usize, Descriptor>::empty(),
            r.free_list() == Seq::<usize>::empty(),
    {
        let r = DescriptorTable { descs: HashMap::new(), avail: cell_new(0), free: Ghost(Seq::empty()) };
        proof {
            lemma_tagged(0, 0);
            assert(r@ =~= Map::<usize, Descriptor>::empty());
        }
        r
    }

    /// Whether there is a descriptor at `desc`.
    pub fn contains(&self, desc: usize) -> (r: bool)
        ensures
            r == self@.contains_key(desc),
    {
        self.descs.contains_key(&desc)
    }

    /// The descriptor at `desc`.
    pub fn get(&self, desc: usize) -> (r: Descriptor)
        requires
            self@.contains_key(desc),
        ensures
            r == self@[desc],
    {
        match self.descs.get(&desc) {
            Some(slot) => slot.load(),
            None => Descriptor::zeroed(),
        }
    }

    /// Whether the free stack is empty.
    pub fn is_empty(&self) -> (r: bool)
        requires
            self.wf(),
        ensures
            r == (self.free_list().len() == 0),
    {
        proof {
            if self.free_list().len() > 0 {
                assert(self.free_entry_ok(0));
            }
        }
        self.head().get_desc() == 0
    }

    /// Replaces the descriptor at `desc`.
    pub fn put(&mut self, desc: usize, value: Descriptor)
        requires
            old(self)@.contains_key(desc),
        ensures
            final(self)@ == old(self)@.insert(desc, value),
            final(self).free_list() == old(self).free_list(),
            final(self).avail_node() == old(self).avail_node(),
    {
        self.insert_slot(desc, value);
    }

    /// Replacing a descriptor that is not on the free stack, or keeping its
    /// block size and its link, leaves the table well formed.
    pub proof fn lemma_put_keeps_wf(&self, before: DescriptorTable, desc: usize)
        requires
            before.wf(),
            before@.contains_key(desc),
            self@ == before@.insert(desc, self@[desc]),
            self.free_list() == before.free_list(),
            self.avail_node() == before.avail_node(),
            !before.free_list().contains(desc) || (self@[desc].spec_get_block_size()
                == before@[desc].spec_get_block_size() && self@[desc].spec_get_next_free()
                == before@[desc].spec_get_next_free()),
        ensures
            self.wf(),
    {
        assert forall|i: int| 0 <= i < self.free_list().len() implies #[trigger] self.free_entry_ok(
            i,
        ) by {
            let d = before.free_list()[i];
            assert(before.free_entry_ok(i));
            assert(before.free_list().contains(d));
        }
    }

    /// Checks that none of the slots of the block at `base` is a descriptor.
    fn slots_are_new(&self, base: usize) -> (r: bool)
        requires
            base + DESCRIPTOR_BLOCK_SZ <= usize::MAX,
        ensures
            r == forall|i: int|
                0 <= i < DESCRIPTORS_PER_BLOCK ==> !self@.contains_key(#[trigger] spec_slot(base, i)),
    {
        let mut i: usize = 0;
        while i < DESCRIPTORS_PER_BLOCK
            invariant
                i <= DESCRIPTORS_PER_BLOCK,
                base + DESCRIPTOR_BLOCK_SZ <= usize::MAX,
                forall|j: int| 0 <= j < i ==> !self@.contains_key(#[trigger] spec_slot(base, j)),
            decreases DESCRIPTORS_PER_BLOCK - i,
        {
            if self.descs.contains_key(&(base + 64 * i)) {
                assert(self@.contains_key(spec_slot(base, i as int)));
                return false;
            }
            i += 1;
        }
        true
    }

    /// Whether a block of fresh pages at `base` can hold descriptors.
    pub fn can_accept(&self, base: usize) -> (r: bool)
        ensures
            r == self.accepts(base),
    {
        if base == 0 || base % 4096 != 0 || base > usize::MAX - DESCRIPTOR_BLOCK_SZ {
            return false;
        }
        self.slots_are_new(base)
    }
}

impl DescriptorTable {
    /// The free list that a fresh block at `base` yields: all its slots but
    /// the first, in rising order.
    pub open spec fn carved_list(base: usize) -> Seq<usize> {
        Seq::new((DESCRIPTORS_PER_BLOCK - 1) as nat, |t: int| spec_slot(base, t + 1))
    }

    /// Whether this table is `before` with the descriptors of the block at
    /// `base` added, each with block size 0.
    pub open spec fn extends(&self, before: DescriptorTable, base: usize) -> bool {
        &&& forall|d: usize| #[trigger]
            before@.contains_key(d) ==> self@.contains_key(d) && self@[d] == before@[d]
        &&& forall|d: usize| #[trigger]
            self@.contains_key(d) && !before@.contains_key(d) ==> self@[d].spec_get_block_size() == 0
                && base <= d < base + DESCRIPTOR_BLOCK_SZ && self@[d].same_but(
                Descriptor::spec_zeroed(),
                0,
            )
    }

    /// Whether slot `j` of the block at `base` holds a retired descriptor
    /// that is linked to the next slot, or to nothing if it is the last.
    pub open spec fn slot_carved(&self, base: usize, j: int) -> bool {
        let d = spec_slot(base, j);
        &&& self@.contains_key(d)
        &&& self@[d].spec_get_block_size() == 0
        &&& self@[d].spec_get_next_free().spec_get_desc() == (if j + 1 < DESCRIPTORS_PER_BLOCK {
            spec_slot(base, j + 1)
        } else {
            0
        })
    }

    /// Takes the descriptor on top of the free stack. The head keeps its
    /// counter.
    fn pop(&mut self) -> (r: usize)
        requires
            old(self).wf(),
            old(self).free_list().len() > 0,
        ensures
            final(self).wf(),
            r == old(self).free_list()[0],
            final(self).free_list() == old(self).free_list().skip(1),
            final(self)@ == old(self)@,
            final(self).avail_node().spec_get_counter() == old(self).avail_node().spec_get_counter(),
    {
        let old_head = self.head();
        let desc: usize = old_head.get_desc();
        assert(desc == self.free_list()[0]);
        assert(self.free_entry_ok(0));
        let mut new_head = self.get(desc).get_next_free();
        new_head.set_desc(new_head.get_desc(), old_head.get_counter());
        proof {
            lemma_tagged(0, old_head.get_counter());
        }
        self.swap_head(old_head, new_head);
        self.free = Ghost(self.free@.skip(1));
        proof {
            let before = old(self).free_list();
            let after = self.free_list();
            assert forall|i: int, j: int| 0 <= i < j < after.len() implies after[i] != after[j] by {
                assert(after[i] == before[i + 1] && after[j] == before[j + 1]);
            }
            assert forall|i: int| 0 <= i < after.len() implies #[trigger] self.free_entry_ok(i) by {
                assert(after[i] == before[i + 1]);
                assert(old(self).free_entry_ok(i + 1));
                assert(Self::next_in(after, i) == Self::next_in(before, i + 1));
            }
        }
        desc
    }

    /// Puts the descriptor at `desc` on top of the free stack, with block
    /// size 0. The head's counter goes up by one.
    fn push(&mut self, desc: usize)
        requires
            old(self).wf(),
            old(self)@.contains_key(desc),
            !old(self).free_list().contains(desc),
        ensures
            final(self).wf(),
            final(self).free_list() == seq![desc] + old(self).free_list(),
            final(self)@.dom() == old(self)@.dom(),
            forall|d: usize| d != desc && old(self)@.contains_key(d) ==> final(self)@[d] == old(self)@[d],
            final(self)@[desc].spec_get_block_size() == 0,
            final(self)@[desc].spec_get_next_partial() == old(self)@[desc].spec_get_next_partial(),
            final(self)@[desc].spec_get_anchor() == old(self)@[desc].spec_get_anchor(),
            final(self)@[desc].spec_get_superblock() == old(self)@[desc].spec_get_superblock(),
            final(self)@[desc].spec_get_heap() == old(self)@[desc].spec_get_heap(),
            final(self)@[desc].spec_get_maxcount() == old(self)@[desc].spec_get_maxcount(),
            final(self)@[desc].spec_get_next_free() == old(self).avail_node(),
            final(self).avail_node().spec_get_desc() == desc,
            final(self).avail_node().spec_get_counter() == (old(self).avail_node().spec_get_counter()
                + 1) % 64,
    {
        let old_head = self.head();
        let counter: usize = old_head.get_counter();
        let mut d = self.get(desc);
        d.set_block_size(0);
        d.set_next_free(old_head);
        proof {
            lemma_aligned_mask(desc);
            lemma_counter_step(counter);
        }
        let mut new_head = DescriptorNode::new(0);
        new_head.set_desc(desc, counter + 1);
        self.insert_slot(desc, d);
        self.swap_head(old_head, new_head);
        self.free = Ghost(seq![desc] + self.free@);
        proof {
            let before = old(self).free_list();
            let after = self.free_list();
            assert(self@ == old(self)@.insert(desc, d));
            assert(self@.dom() =~= old(self)@.dom());
            assert(after.len() == before.len() + 1);
            assert(after[0] == desc);
            assert forall|i: int| 1 <= i < after.len() implies after[i] == before[i - 1] && after[i]
                != desc by {
                assert(before.contains(before[i - 1]));
            }
            assert forall|i: int, j: int| 0 <= i < j < after.len() implies after[i] != after[j] by {
                if i > 0 {
                    assert(before[i - 1] != before[j - 1]);
                }
            }
            assert forall|i: int| 0 <= i < after.len() implies #[trigger] self.free_entry_ok(i) by {
                if i > 0 {
                    let e = before[i - 1];
                    assert(old(self).free_entry_ok(i - 1));
                    assert(self@[e] == old(self)@[e]);
                    assert(Self::next_in(after, i) == Self::next_in(before, i - 1));
                } else {
                    assert(Self::next_in(after, 0) == Self::head_of(before));
                }
            }
            assert forall|e: usize| #[trigger] self@.contains_key(e) implies e != 0 && e % 64 == 0 by {
                assert(old(self)@.contains_key(e));
            }
        }
    }

    /// Cuts the fresh block at `base` into descriptors. The first is handed
    /// out; the others go on the free stack, which was empty. The head's
    /// counter goes up by one.
    fn carve(&mut self, base: usize) -> (r: usize)
        requires
            old(self).wf(),
            old(self).free_list().len() == 0,
            old(self).accepts(base),
        ensures
            final(self).wf(),
            r == base,
            final(self).free_list() == Self::carved_list(base),
            final(self).extends(*old(self), base),
            final(self)@.contains_key(base),
            final(self).avail_node().spec_get_counter() == (old(self).avail_node().spec_get_counter()
                + 1) % 64,
    {
        let old_head = self.head();
        let counter: usize = old_head.get_counter();
        assert(base % 64 == 0) by {
            assert(base as int == 4096 * (base as int / 4096));
        }
        let mut i: usize = DESCRIPTORS_PER_BLOCK;
        let ghost list: Seq<usize> = Seq::empty();
        let mut next: usize = 0;
        while i > 1
            invariant
                1 <= i <= DESCRIPTORS_PER_BLOCK,
                self.avail_node() == old_head,
                base != 0,
                base % 64 == 0,
                base + DESCRIPTOR_BLOCK_SZ <= usize::MAX,
                next == (if i < DESCRIPTORS_PER_BLOCK {
                    spec_slot(base, i as int)
                } else {
                    0
                }),
                forall|d: usize| old(self)@.contains_key(d) ==> d != 0 && d % 64 == 0,
                forall|j: int|
                    0 <= j < DESCRIPTORS_PER_BLOCK ==> !old(self)@.contains_key(
                        #[trigger] spec_slot(base, j),
                    ),
                forall|d: usize|
                    #[trigger] old(self)@.contains_key(d) ==> self@.contains_key(d) && self@[d] == old(self)@[d],
                forall|d: usize|
                    #[trigger] self@.contains_key(d) && !old(self)@.contains_key(d) ==> base < d < base
                        + DESCRIPTOR_BLOCK_SZ && d % 64 == 0 && self@[d].spec_get_block_size() == 0
                        && self@[d].same_but(Descriptor::spec_zeroed(), 0),
                forall|j: int| i <= j < DESCRIPTORS_PER_BLOCK ==> #[trigger] self.slot_carved(base, j),
            decreases i,
        {
            i -= 1;
            let addr: usize = base + 64 * i;
            let mut d = Descriptor::zeroed();
            proof {
                lemma_aligned_mask(next);
            }
            d.set_next_free(DescriptorNode::new(next));
            let ghost map_before = self@;
            let ghost before_insert = *self;
            self.insert_slot(addr, d);
            next = addr;
            proof {
                assert(addr == spec_slot(base, i as int));
                assert(addr % 64 == 0);
                assert(d.spec_get_block_size() == 0);
                assert(base < addr < base + DESCRIPTOR_BLOCK_SZ);
                assert(self@ == map_before.insert(addr, d));
                assert(!old(self)@.contains_key(addr));
                assert forall|e: usize| #[trigger] old(self)@.contains_key(e) implies self@.contains_key(
                    e,
                ) && self@[e] == old(self)@[e] by {
                    assert(map_before.contains_key(e));
                    assert(e != addr);
                }
                assert forall|e: usize| #[trigger]
                    self@.contains_key(e) && !old(self)@.contains_key(e) implies base < e < base
                    + DESCRIPTOR_BLOCK_SZ && e % 64 == 0 && self@[e].spec_get_block_size() == 0
                    && self@[e].same_but(Descriptor::spec_zeroed(), 0) by {
                    if e != addr {
                        assert(map_before.contains_key(e));
                    }
                }
                assert forall|j: int| i <= j < DESCRIPTORS_PER_BLOCK implies #[trigger] self.slot_carved(
                    base,
                    j,
                ) by {
                    if j > i {
                        assert(spec_slot(base, j) != addr);
                        assert(before_insert.slot_carved(base, j));
                    }
                }
            }
        }
        let first = Descriptor::zeroed();
        let ghost before_first = *self;
        self.insert_slot(base, first);
        proof {
            lemma_aligned_mask(next);
            lemma_counter_step(counter);
        }
        let mut new_head = DescriptorNode::new(0);
        new_head.set_desc(next, counter + 1);
        self.swap_head(old_head, new_head);
        self.free = Ghost(Self::carved_list(base));
        proof {
            let after = self.free_list();
            assert(base == spec_slot(base, 0));
            assert(self@ == before_first@.insert(base, first));
            assert forall|d: usize| #[trigger] self@.contains_key(d) implies d != 0 && d % 64 == 0 by {
                if !old(self)@.contains_key(d) && d != base {
                    assert(before_first@.contains_key(d));
                }
            }
            assert forall|d: usize| #[trigger]
                self@.contains_key(d) && !old(self)@.contains_key(d) implies self@[d].spec_get_block_size()
                == 0 && base <= d < base + DESCRIPTOR_BLOCK_SZ && self@[d].same_but(
                Descriptor::spec_zeroed(),
                0,
            ) by {
                if d != base {
                    assert(before_first@.contains_key(d));
                }
            }
            assert forall|d: usize| #[trigger] old(self)@.contains_key(d) implies self@.contains_key(d)
                && self@[d] == old(self)@[d] by {
                assert(before_first@.contains_key(d));
                assert(d != base);
            }
            assert forall|i: int, j: int| 0 <= i < j < after.len() implies after[i] != after[j] by {
                assert(after[i] == spec_slot(base, i + 1));
                assert(after[j] == spec_slot(base, j + 1));
            }
            assert forall|i: int| 0 <= i < after.len() implies #[trigger] self.free_entry_ok(i) by {
                assert(after[i] == spec_slot(base, i + 1));
                assert(before_first.slot_carved(base, i + 1));
                assert(spec_slot(base, i + 1) != base);
                if i + 1 < after.len() {
                    assert(after[i + 1] == spec_slot(base, i + 2));
                }
            }
            assert(before_first.slot_carved(base, 1));
            assert(after[0] == spec_slot(base, 1));
        }
        base
    }
}

/// A counter below 64, stepped by one and cut to six bits.
pub proof fn lemma_counter_step(c: usize)
    by (bit_vector)
    requires
        c < 64,
    ensures
        (c + 1) as usize & 63 == (c + 1) % 64,
{
}

impl Descriptor {
    /// Hands out a retired descriptor: the one on top of the pool's free
    /// stack, or, if the stack is empty, the first of those cut from the
    /// block of fresh pages at `fresh_block`, whose others go on the stack.
    /// The result is 0 if the stack is empty and the block cannot be used;
    /// `fresh_block` is not looked at unless the stack is empty.
    pub fn allocate(table: &mut DescriptorTable, fresh_block: usize) -> (r: usize)
        requires
            old(table).wf(),
        ensures
            final(table).wf(),
            old(table).free_list().len() > 0 ==> {
                &&& r == old(table).free_list()[0]
                &&& final(table).free_list() == old(table).free_list().skip(1)
                &&& final(table)@ == old(table)@
                &&& final(table).avail_node().spec_get_counter() == old(table).avail_node().spec_get_counter()
            },
            old(table).free_list().len() == 0 && old(table).accepts(fresh_block) ==> {
                &&& r == fresh_block
                &&& final(table).free_list() == DescriptorTable::carved_list(fresh_block)
                &&& final(table).extends(*old(table), fresh_block)
                &&& final(table).avail_node().spec_get_counter() == (old(table).avail_node().spec_get_counter() + 1) % 64
            },
            old(table).free_list().len() == 0 && !old(table).accepts(fresh_block) ==> {
                &&& r == 0
                &&& final(table)@ == old(table)@
                &&& final(table).free_list() == old(table).free_list()
                &&& final(table).avail_node() == old(table).avail_node()
            },
            r != 0 ==> final(table)@.contains_key(r) && !final(table).free_list().contains(r)
                && final(table)@[r].spec_get_block_size() == 0,
    {
        if !table.is_empty() {
            let ghost before = table.free_list();
            assert(table.free_entry_ok(0));
            let desc = table.pop();
            proof {
                if table.free_list().contains(desc) {
                    let j = choose|j: int| 0 <= j < table.free_list().len() && table.free_list()[j] == desc;
                    assert(before[j + 1] == desc && before[0] == desc);
                }
            }
            desc
        } else if table.can_accept(fresh_block) {
            let desc = table.carve(fresh_block);
            proof {
                if table.free_list().contains(desc) {
                    let j = choose|j: int| 0 <= j < table.free_list().len() && table.free_list()[j] == desc;
                    assert(table.free_list()[j] == spec_slot(fresh_block, j + 1));
                }
                assert(!old(table)@.contains_key(spec_slot(fresh_block, 0)));
            }
            desc
        } else {
            0
        }
    }

    /// Retires the descriptor at `desc`: its block size becomes 0 and it
    /// goes on top of the pool's free stack.
    pub fn retire(table: &mut DescriptorTable, desc: usize)
        requires
            old(table).wf(),
            old(table)@.contains_key(desc),
            !old(table).free_list().contains(desc),
        ensures
            final(table).wf(),
            final(table).free_list() == seq![desc] + old(table).free_list(),
            final(table)@.dom() == old(table)@.dom(),
            forall|d: usize|
                d != desc && old(table)@.contains_key(d) ==> final(table)@[d] == old(table)@[d],
            final(table)@[desc].spec_get_block_size() == 0,
            final(table)@[desc].spec_get_next_partial() == old(table)@[desc].spec_get_next_partial(),
            final(table)@[desc].spec_get_anchor() == old(table)@[desc].spec_get_anchor(),
            final(table)@[desc].spec_get_superblock() == old(table)@[desc].spec_get_superblock(),
            final(table)@[desc].spec_get_heap() == old(table)@[desc].spec_get_heap(),
            final(table)@[desc].spec_get_maxcount() == old(table)@[desc].spec_get_maxcount(),
            final(table)@[desc].spec_get_next_free() == old(table).avail_node(),
            final(table).avail_node().spec_get_desc() == desc,
            final(table).avail_node().spec_get_counter() == (old(table).avail_node().spec_get_counter()
                + 1) % 64,
    {
        table.push(desc);
    }
}

/// The heap of one size class: the list of its superblocks that have free
/// blocks of their own. The head of the list lies in an atomic cell.
pub struct ProcHeap {
    partial_list: Atomic<usize>,
    sc_idx: usize,
    partial: Ghost<Seq<usize>>,
}

impl ProcHeap {
    /// The descriptors on the partial list, the head first.
    pub closed spec fn partial(&self) -> Seq<usize> {
        self.partial@
    }

    /// The head of the partial list.
    pub closed spec fn spec_get_partial_list(&self) -> DescriptorNode {
        DescriptorNode { desc: cell_word(self.partial_list) }
    }

    /// Replaces the head of the partial list, which is `old_head`, in one
    /// step. With the heap to itself, the step cannot fail.
    fn swap_head(&mut self, old_head: DescriptorNode, new_head: DescriptorNode)
        requires
            old_head == old(self).spec_get_partial_list(),
        ensures
            final(self).spec_get_partial_list() == new_head,
            final(self).spec_get_sc_idx() == old(self).spec_get_sc_idx(),
            final(self).partial() == old(self).partial(),
    {
        let swapped = cell_compare_exchange(
            &mut self.partial_list,
            old_head.to_bits(),
            new_head.to_bits(),
        );
        assert(swapped.is_ok());
    }

    /// The size class of the heap.
    pub closed spec fn spec_get_sc_idx(&self) -> usize {
        self.sc_idx
    }

    /// Whether the descriptor at position `i` of the partial list belongs to
    /// this heap and is linked to the one behind it.
    pub open spec fn partial_entry_ok(&self, table: &DescriptorTable, i: int) -> bool {
        let d = self.partial()[i];
        &&& table@.contains_key(d)
        &&& table@[d].spec_get_heap() == self.spec_get_sc_idx()
        &&& table@[d].spec_get_next_partial().spec_get_desc() == DescriptorTable::next_in(
            self.partial(),
            i,
        )
    }

    /// The partial list is a chain of distinct descriptors of this heap.
    pub open spec fn wf(&self, table: &DescriptorTable) -> bool {
        &&& self.partial().no_duplicates()
        &&& forall|i: int| 0 <= i < self.partial().len() ==> #[trigger] self.partial_entry_ok(table, i)
        &&& self.spec_get_partial_list().spec_get_desc() == DescriptorTable::head_of(self.partial())
    }

    /// A change of the table that leaves the descriptors on the partial
    /// list in place, with their heap and their link, leaves the list well
    /// formed.
    pub proof fn lemma_frame(&self, before: &DescriptorTable, after: &DescriptorTable)
        requires
            self.wf(before),
            forall|i: int|
                0 <= i < self.partial().len() ==> {
                    let d = #[trigger] self.partial()[i];
                    &&& after@.contains_key(d)
                    &&& after@[d].spec_get_heap() == before@[d].spec_get_heap()
                    &&& after@[d].spec_get_next_partial() == before@[d].spec_get_next_partial()
                },
        ensures
            self.wf(after),
    {
        assert forall|i: int| 0 <= i < self.partial().len() implies #[trigger] self.partial_entry_ok(
            after,
            i,
        ) by {
            assert(self.partial_entry_ok(before, i));
            let d = self.partial()[i];
        }
    }

    /// The heap of class `sc_idx`, with an empty partial list.
    pub fn const_new(sc_idx: usize) -> (r: ProcHeap)
        ensures
            r.spec_get_sc_idx() == sc_idx,
            r.partial() == Seq::<usize>::empty(),
            r.spec_get_partial_list().spec_get_desc() == 0,
            r.spec_get_partial_list().spec_get_counter() == 0,
    {
        proof {
            lemma_tagged(0, 0);
        }
        ProcHeap { partial_list: cell_new(0), sc_idx, partial: Ghost(Seq::empty()) }
    }

    /// Sets the size class of the heap.
    pub fn set_sc_idx(&mut self, sc_idx: usize)
        ensures
            final(self).spec_get_sc_idx() == sc_idx,
            final(self).partial() == old(self).partial(),
            final(self).spec_get_partial_list() == old(self).spec_get_partial_list(),
    {
        self.sc_idx = sc_idx;
    }

    /// The size class of the heap.
    #[verifier::when_used_as_spec(spec_get_sc_idx)]
    pub fn get_sc_idx(&self) -> (r: usize)
        ensures
            r == self.spec_get_sc_idx(),
    {
        self.sc_idx
    }

    /// The head of the partial list.
    #[verifier::when_used_as_spec(spec_get_partial_list)]
    pub fn get_partial_list(&self) -> (r: DescriptorNode)
        ensures
            r == self.spec_get_partial_list(),
    {
        DescriptorNode::new(cell_load(&self.partial_list))
    }

    /// The data of the heap's size class.
    pub fn get_size_class(&self, classes: &SizeClassTable) -> (r: SizeClassData)
        requires
            self.spec_get_sc_idx() < MAX_SZ_IDX,
        ensures
            r == classes.class(self.spec_get_sc_idx() as int),
    {
        classes.get(self.sc_idx)
    }
}

/// Takes the first descriptor off the partial list of `heap`. The result is
/// 0 if the list is empty. The head keeps its counter.
pub fn heap_pop_partial(table: &DescriptorTable, heap: &mut ProcHeap) -> (r: usize)
    requires
        table.wf(),
        old(heap).wf(table),
    ensures
        final(heap).wf(table),
        final(heap).spec_get_sc_idx() == old(heap).spec_get_sc_idx(),
        old(heap).partial().len() == 0 ==> r == 0 && final(heap).partial() == old(heap).partial(),
        old(heap).partial().len() > 0 ==> r == old(heap).partial()[0] && r != 0 && final(heap).partial() == old(heap).partial().skip(1),
        final(heap).spec_get_partial_list().spec_get_counter() == old(heap).spec_get_partial_list().spec_get_counter(),
{
    let old_head = heap.get_partial_list();
    let old_desc: usize = old_head.get_desc();
    proof {
        if heap.partial().len() > 0 {
            assert(heap.partial_entry_ok(table, 0));
        }
        lemma_tagged(0, old_head.get_counter());
        lemma_tagged(old_head.get_counter(), old_head.get_counter());
    }
    if old_desc == 0 {
        return 0;
    }
    let mut new_head = table.get(old_desc).get_next_partial();
    let desc: usize = new_head.get_desc();
    let counter: usize = old_head.get_counter();
    new_head.set_desc(desc, counter);
    heap.swap_head(old_head, new_head);
    heap.partial = Ghost(heap.partial@.skip(1));
    proof {
        let before = old(heap).partial();
        let after = heap.partial();
        assert forall|i: int, j: int| 0 <= i < j < after.len() implies after[i] != after[j] by {
            assert(after[i] == before[i + 1] && after[j] == before[j + 1]);
        }
        assert forall|i: int| 0 <= i < after.len() implies #[trigger] heap.partial_entry_ok(table, i) by {
            assert(after[i] == before[i + 1]);
            assert(old(heap).partial_entry_ok(table, i + 1));
            assert(DescriptorTable::next_in(after, i) == DescriptorTable::next_in(before, i + 1));
        }
    }
    old_desc
}

/// Puts the descriptor at `desc` in front of the partial list of `heap`,
/// its own heap. The head's counter goes up by one.
pub fn heap_push_partial(table: &mut DescriptorTable, heap: &mut ProcHeap, desc: usize)
    requires
        old(table).wf(),
        old(heap).wf(old(table)),
        old(table)@.contains_key(desc),
        old(table)@[desc].spec_get_heap() == old(heap).spec_get_sc_idx(),
        !old(heap).partial().contains(desc),
    ensures
        final(table).wf(),
        final(heap).wf(final(table)),
        final(heap).spec_get_sc_idx() == old(heap).spec_get_sc_idx(),
        final(heap).partial() == seq![desc] + old(heap).partial(),
        final(table).free_list() == old(table).free_list(),
        final(table)@ == old(table)@.insert(desc, final(table)@[desc]),
        final(table)@[desc].same_but(old(table)@[desc], 1),
        final(heap).spec_get_partial_list().spec_get_counter() == (old(heap).spec_get_partial_list().spec_get_counter() + 1) % 64,
{
    let old_head = heap.get_partial_list();
    let counter: usize = old_head.get_counter();
    let mut d = table.get(desc);
    d.set_next_partial(old_head);
    proof {
        lemma_aligned_mask(desc);
        lemma_counter_step(counter);
    }
    let mut new_head = DescriptorNode::new(0);
    new_head.set_desc(desc, counter + 1);
    let ghost table_before = *table;
    table.put(desc, d);
    heap.swap_head(old_head, new_head);
    heap.partial = Ghost(seq![desc] + heap.partial@);
    proof {
        table.lemma_put_keeps_wf(table_before, desc);
        let before = old(heap).partial();
        let after = heap.partial();
        assert(after[0] == desc);
        assert forall|i: int| 1 <= i < after.len() implies after[i] == before[i - 1] && after[i]
            != desc by {
            assert(before.contains(before[i - 1]));
        }
        assert forall|i: int, j: int| 0 <= i < j < after.len() implies after[i] != after[j] by {
            if i > 0 {
                assert(before[i - 1] != before[j - 1]);
            }
        }
        assert forall|i: int| 0 <= i < after.len() implies #[trigger] heap.partial_entry_ok(table, i) by {
            if i > 0 {
                let e = before[i - 1];
                assert(old(heap).partial_entry_ok(&table_before, i - 1));
                assert(table@[e] == table_before@[e]);
                assert(DescriptorTable::next_in(after, i) == DescriptorTable::next_in(before, i - 1));
            } else {
                assert(DescriptorTable::next_in(after, 0) == DescriptorTable::head_of(before));
            }
        }
    }
}

} // verus!
