//! The page map: from any address inside a live superblock to the
//! superblock's descriptor and size class.

use vstd::prelude::*;
use std::collections::HashMap;
use atomic::Atomic;
use crate::cells::{cell_load, cell_new, cell_store, cell_word};
use crate::defines::LG_PAGE;
use crate::size_classes::MAX_SZ_IDX;

verus! {

broadcast use vstd::std_specs::hash::group_hash_axioms;

/// Mask of the size-class index inside a page-map entry.
pub const SC_MASK: usize = 63;

/// Address bits above those that the page map distinguishes.
pub const PM_NHS: usize = 14;

/// Address bits inside a page.
pub const PM_NLS: usize = LG_PAGE;

/// Address bits that select a page-map entry.
pub const PM_SB: usize = 38;

/// Shift that brings the page number to bit 0.
pub const PM_KEY_SHIFT: usize = PM_NLS;

/// Mask of a page-map key.
pub const PM_KEY_MASK: u64 = 0x3F_FFFF_FFFF;

/// Number of page-map entries.
pub const PM_NUM: u64 = 0x40_0000_0000;

/// Addresses at or above this bound share page-map entries with lower ones.
pub const ADDRESS_LIMIT: u64 = 0x4_0000_0000_0000;

/// One page-map entry: a descriptor address with the size-class index in the
/// six bits that the descriptor's alignment leaves free.
#[derive(Clone, Copy, Debug, PartialEq, Eq, Structural)]
pub struct PageInfo {
    desc: usize,
}

impl PageInfo {
    /// The packed word.
    pub closed spec fn word(&self) -> usize {
        self.desc
    }

    /// The packed word.
    #[verifier::when_used_as_spec(word)]
    pub fn to_bits(&self) -> (r: usize)
        ensures
            r == self.word(),
    {
        self.desc
    }

    /// The descriptor address, 0 for none.
    pub closed spec fn spec_get_desc(&self) -> usize {
        self.desc & !63usize
    }

    /// The size-class index, 0 for a large block or none.
    pub closed spec fn spec_get_sc_idx(&self) -> usize {
        self.desc & 63usize
    }

    /// Whether the entry names no descriptor and no class.
    pub open spec fn is_empty(&self) -> bool {
        self.spec_get_desc() == 0 && self.spec_get_sc_idx() == 0
    }

    /// The entry of a page that was never written.
    pub closed spec fn empty() -> PageInfo {
        PageInfo { desc: 0 }
    }

    /// The entry of a page that was never written names nothing.
    pub proof fn lemma_empty()
        ensures
            PageInfo::empty().is_empty(),
    {
        crate::heap::lemma_tagged(0, 0);
    }

    /// The empty entry.
    pub fn new() -> (r: PageInfo)
        ensures
            r == PageInfo::empty(),
            r.is_empty(),
    {
        proof {
            crate::heap::lemma_tagged(0, 0);
        }
        PageInfo { desc: 0 }
    }

    /// Packs a descriptor address and a size-class index.
    pub fn set_desc(&mut self, desc: usize, sc_idx: usize)
        requires
            desc & 63 == 0,
            sc_idx < MAX_SZ_IDX,
        ensures
            final(self).spec_get_desc() == desc,
            final(self).spec_get_sc_idx() == sc_idx,
    {
        proof {
            crate::heap::lemma_tagged(desc, sc_idx);
        }
        self.desc = desc | sc_idx;
    }

    /// The descriptor address, 0 for none.
    #[verifier::when_used_as_spec(spec_get_desc)]
    pub fn get_desc(&self) -> (r: usize)
        ensures
            r == self.spec_get_desc(),
            r & 63 == 0,
    {
        proof {
            crate::heap::lemma_tagged(self.desc, 0);
        }
        self.desc & !SC_MASK
    }

    /// The size-class index.
    #[verifier::when_used_as_spec(spec_get_sc_idx)]
    pub fn get_sc_idx(&self) -> (r: usize)
        ensures
            r == self.spec_get_sc_idx(),
            r < 64,
    {
        proof {
            crate::heap::lemma_tagged(self.desc, 0);
        }
        self.desc & SC_MASK
    }
}

/// The key under which the page map files the address `ptr`: its page number,
/// cut to the bits that the map distinguishes.
pub open spec fn spec_addr_to_key(ptr: usize) -> u64 {
    ((ptr as u64) >> 12) & 0x3F_FFFF_FFFF
}

/// Below the address limit the key is the page number.
pub proof fn lemma_key_is_page_number(ptr: usize)
    requires
        ptr < ADDRESS_LIMIT,
    ensures
        spec_addr_to_key(ptr) == ptr as int / 4096,
{
    let p = ptr as u64;
    assert(p < 0x4_0000_0000_0000 ==> ((p >> 12) & 0x3F_FFFF_FFFF) == p / 4096) by (bit_vector);
}

/// A sparse table from page number to entry, each entry in an atomic cell. A
/// page that was never written holds the empty entry.
pub struct PageMap {
    pagemap: HashMap<u64, Atomic<usize>>,
}

impl PageMap {
    /// The entry filed under `key`.
    pub closed spec fn entry(&self, key: u64) -> PageInfo {
        if self.pagemap@.contains_key(key) {
            PageInfo { desc: cell_word(self.pagemap@[key]) }
        } else {
            PageInfo::empty()
        }
    }

    /// The entry for the page that holds `ptr`.
    pub open spec fn spec_get_page_info(&self, ptr: usize) -> PageInfo {
        self.entry(spec_addr_to_key(ptr))
    }

    /// A map in which every entry is empty.
    pub fn def() -> (r: PageMap)
        ensures
            forall|k: u64| #[trigger] r.entry(k) == PageInfo::empty(),
    {
        PageMap { pagemap: HashMap::new() }
    }

    /// Empties the map.
    pub fn init(&mut self)
        ensures
            forall|k: u64| #[trigger] final(self).entry(k) == PageInfo::empty(),
    {
        self.pagemap = HashMap::new();
    }

    /// The key under which the map files `ptr`.
    pub fn addr_to_key(ptr: usize) -> (r: u64)
        ensures
            r == spec_addr_to_key(ptr),
    {
        ((ptr as u64) >> 12) & PM_KEY_MASK
    }

    /// The entry for the page that holds `ptr`.
    #[verifier::when_used_as_spec(spec_get_page_info)]
    pub fn get_page_info(&self, ptr: usize) -> (r: PageInfo)
        ensures
            r == self.spec_get_page_info(ptr),
    {
        let key: u64 = Self::addr_to_key(ptr);
        match self.pagemap.get(&key) {
            Some(cell) => PageInfo { desc: cell_load(cell) },
            None => PageInfo::new(),
        }
    }

    /// Files `info` under the page that holds `ptr`.
    pub fn set_page_info(&mut self, info: PageInfo, ptr: usize)
        ensures
            forall|k: u64|
                #[trigger] final(self).entry(k) == if k == spec_addr_to_key(ptr) {
                    info
                } else {
                    old(self).entry(k)
                },
    {
        let key: u64 = Self::addr_to_key(ptr);
        match self.pagemap.remove(&key) {
            Some(mut cell) => {
                cell_store(&mut cell, info.to_bits());
                self.pagemap.insert(key, cell);
            },
            None => {
                self.pagemap.insert(key, cell_new(info.to_bits()));
            },
        }
    }
}

/// Whether `size` bytes at `base` are whole pages at a page boundary, not at
/// address 0 and below the address limit.
pub open spec fn spec_region_ok(base: usize, size: int) -> bool {
    &&& base != 0
    &&& base % 4096 == 0
    &&& size > 0
    &&& size % 4096 == 0
    &&& base + size <= ADDRESS_LIMIT
    &&& base + size <= usize::MAX
}

/// Whether `key` is the key of a page of the region of `size` bytes at
/// `base`.
pub open spec fn spec_key_in(key: u64, base: usize, size: int) -> bool {
    base as int / 4096 <= key < (base + size) / 4096
}

/// Whether `size` bytes at `base` are whole pages at a page boundary, not at
/// address 0 and below the address limit.
pub fn region_ok(base: usize, size: usize) -> (r: bool)
    ensures
        r == spec_region_ok(base, size as int),
{
    base != 0 && base % 4096 == 0 && size > 0 && size % 4096 == 0 && size <= usize::MAX - base
        && size as u64 <= ADDRESS_LIMIT && base as u64 <= ADDRESS_LIMIT - size as u64
}

impl PageMap {
    /// Files `info` under every page of the region of `size` bytes at
    /// `base`.
    pub fn set_range(&mut self, info: PageInfo, base: usize, size: usize)
        requires
            spec_region_ok(base, size as int),
        ensures
            forall|k: u64|
                #[trigger] final(self).entry(k) == if spec_key_in(k, base, size as int) {
                    info
                } else {
                    old(self).entry(k)
                },
    {
        let pages: usize = size / 4096;
        let mut i: usize = 0;
        while i < pages
            invariant
                i <= pages,
                pages == size / 4096,
                spec_region_ok(base, size as int),
                forall|k: u64|
                    #[trigger] self.entry(k) == if base as int / 4096 <= k < base as int / 4096 + i {
                        info
                    } else {
                        old(self).entry(k)
                    },
            decreases pages - i,
        {
            let ptr: usize = base + i * 4096;
            proof {
                lemma_key_is_page_number(ptr);
                assert(ptr as int / 4096 == base as int / 4096 + i);
            }
            self.set_page_info(info, ptr);
            i += 1;
        }
        proof {
            assert((base + size) / 4096 == base as int / 4096 + pages);
        }
    }

    /// Whether no page of the region of `size` bytes at `base` is filed
    /// under a descriptor.
    pub fn range_is_empty(&self, base: usize, size: usize) -> (r: bool)
        requires
            spec_region_ok(base, size as int),
        ensures
            r == forall|k: u64|
                spec_key_in(k, base, size as int) ==> (#[trigger] self.entry(k)).spec_get_desc() == 0,
    {
        let pages: usize = size / 4096;
        let mut i: usize = 0;
        proof {
            assert((base + size) / 4096 == base as int / 4096 + pages);
        }
        while i < pages
            invariant
                i <= pages,
                pages == size / 4096,
                spec_region_ok(base, size as int),
                forall|k: u64|
                    base as int / 4096 <= k < base as int / 4096 + i ==> (#[trigger] self.entry(
                        k,
                    )).spec_get_desc() == 0,
            decreases pages - i,
        {
            let ptr: usize = base + i * 4096;
            proof {
                lemma_key_is_page_number(ptr);
                assert(ptr as int / 4096 == base as int / 4096 + i);
            }
            if self.get_page_info(ptr).get_desc() != 0 {
                assert(spec_key_in(spec_addr_to_key(ptr), base, size as int));
                return false;
            }
            i += 1;
        }
        true
    }
}

} // verus!
