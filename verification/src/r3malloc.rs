//! The allocator engine: superblocks, their descriptors and the page map,
//! the partial lists of the heaps, and the caches of the threads.

use vstd::prelude::*;
use crate::apf::{Apf, ApfView};
use crate::defines::{
    align_addr, align_val, is_power_of_two, lemma_divides_page, page_ceiling, spec_align_val,
    spec_is_power_of_two, spec_page_ceiling, PAGE,
};
use crate::heap::{
    heap_pop_partial, heap_push_partial, Anchor, Descriptor, DescriptorTable, ProcHeap, SbState,
    DESCRIPTOR_BLOCK_SZ,
};
use crate::memory::{spec_block_addr, BlockMemory};
use crate::pagemap::{
    region_ok, spec_addr_to_key, spec_key_in, spec_region_ok, PageInfo, PageMap, ADDRESS_LIMIT,
};
use crate::size_classes::{init_size_class, SizeClassData, SizeClassTable, MAX_SZ, MAX_SZ_IDX};
use crate::tcache::TCacheBin;
use likely_stable::{likely, unlikely};

verus! {

/// Who holds a block.
pub enum Owner {
    /// It was handed out and not yet given back.
    User,
    /// It lies in the thread cache with this index.
    Cache(int),
    /// It is one of the free blocks of the superblock with this descriptor.
    Superblock(usize),
}

/// The allocator: the size classes, all descriptors and the pool of retired
/// ones, the heaps, the page map, the link words of free blocks, and for
/// each thread a cache and a predictor per size class.
pub struct R3Malloc {
    classes: SizeClassTable,
    table: DescriptorTable,
    heaps: Vec<ProcHeap>,
    pagemap: PageMap,
    memory: BlockMemory,
    bins: Vec<TCacheBin>,
    apfs: Vec<Apf>,
    released: Vec<(usize, usize)>,
    owner: Ghost<Map<usize, Owner>>,
    chains: Ghost<Seq<Seq<usize>>>,
    held: Ghost<Map<usize, Seq<usize>>>,
}

impl R3Malloc {
    // ---- what the allocator holds, as plain values ----

    /// The size classes.
    pub closed spec fn classes(&self) -> SizeClassTable {
        self.classes
    }

    /// All descriptors, by address.
    pub closed spec fn descriptors(&self) -> Map<usize, Descriptor> {
        self.table@
    }

    /// The retired descriptors, as the pool stacks them.
    pub closed spec fn pool(&self) -> Seq<usize> {
        self.table.free_list()
    }

    /// The partial list of the heap of class `sc_idx`.
    pub closed spec fn partial_list(&self, sc_idx: int) -> Seq<usize> {
        self.heaps@[sc_idx].partial()
    }

    /// The page-map entry filed under `key`.
    pub closed spec fn page_entry(&self, key: u64) -> PageInfo {
        self.pagemap.entry(key)
    }

    /// The page-map entry for the page that holds `ptr`.
    pub open spec fn page_info(&self, ptr: usize) -> PageInfo {
        self.page_entry(spec_addr_to_key(ptr))
    }

    /// The link word of the block at `addr`.
    pub closed spec fn word(&self, addr: usize) -> usize {
        self.memory.spec_read(addr)
    }

    /// The number of thread caches: one per thread and size class.
    pub closed spec fn num_bins(&self) -> int {
        self.bins@.len() as int
    }

    /// The number of threads.
    pub open spec fn num_threads(&self) -> int {
        self.num_bins() / (MAX_SZ_IDX as int)
    }

    /// The thread cache with index `n`.
    pub closed spec fn bin(&self, n: int) -> TCacheBin {
        self.bins@[n]
    }

    /// The blocks in the thread cache with index `n`, the top first.
    pub closed spec fn cache(&self, n: int) -> Seq<usize> {
        self.chains@[n]
    }

    /// For a superblock, the free blocks that it owns itself, the first
    /// free one first; for a large block, the address that was handed out.
    pub closed spec fn held(&self, desc: usize) -> Seq<usize> {
        self.held@[desc]
    }

    /// Who holds each block.
    pub closed spec fn owners(&self) -> Map<usize, Owner> {
        self.owner@
    }

    /// The regions that wait to be handed back to the page provider, as
    /// base and size.
    pub closed spec fn released(&self) -> Seq<(usize, usize)> {
        self.released@
    }

    /// Whether `ptr` was handed out and not yet given back.
    pub open spec fn live(&self, ptr: usize) -> bool {
        self.owners().contains_key(ptr) && self.owners()[ptr] == Owner::User
    }

    /// The bytes that the holder of `ptr` may use: the block size of the
    /// size class that the page map names, or, for a large block, the block
    /// size in its descriptor.
    pub open spec fn spec_usable_size(&self, ptr: usize) -> int {
        let info = self.page_info(ptr);
        if info.spec_get_sc_idx() == 0 {
            self.descriptors()[info.spec_get_desc()].spec_get_block_size() as int
        } else {
            self.classes().class(info.spec_get_sc_idx() as int).spec_get_block_size() as int
        }
    }

    /// The index of the cache of thread `tid` for class `sc_idx`.
    pub open spec fn spec_bin_index(tid: int, sc_idx: int) -> int {
        tid * MAX_SZ_IDX + sc_idx
    }

    /// The number of blocks that the cache with index `n` may keep.
    pub open spec fn capacity(&self, n: int) -> int {
        if n % (MAX_SZ_IDX as int) == 0 {
            0
        } else {
            self.classes().class(n % (MAX_SZ_IDX as int)).spec_get_cache_block_num() as int
        }
    }

    // ---- the invariant ----

    /// Whether the word of block `i` of `list` holds the address of block
    /// `i + 1`.
    pub open spec fn link_ok(&self, list: Seq<usize>, i: int) -> bool {
        self.word(list[i]) == list[i + 1]
    }

    /// Whether each block of `list` but the last is linked to the next.
    pub open spec fn linked(&self, list: Seq<usize>) -> bool {
        forall|i: int| 0 <= i < list.len() - 1 ==> #[trigger] self.link_ok(list, i)
    }

    /// Whether block `i` of `list` is held by `who`.
    pub open spec fn owned_by(&self, list: Seq<usize>, i: int, who: Owner) -> bool {
        self.owners().contains_key(list[i]) && self.owners()[list[i]] == who
    }

    /// Whether every block of `list` is held by `who`.
    pub open spec fn all_owned_by(&self, list: Seq<usize>, who: Owner) -> bool {
        forall|i: int| 0 <= i < list.len() ==> #[trigger] self.owned_by(list, i, who)
    }

    /// Whether the descriptor at `d` stands for mapped pages: it is in use,
    /// and if it is a superblock's, the superblock is not empty.
    pub open spec fn mapped(&self, d: usize) -> bool {
        let desc = self.descriptors()[d];
        &&& self.descriptors().contains_key(d)
        &&& desc.spec_get_block_size() != 0
        &&& desc.spec_get_heap() == 0 || desc.spec_get_anchor().spec_state() != 2
    }

    /// The bytes of the region that the descriptor at `d` stands for.
    pub open spec fn span(&self, d: usize) -> int {
        let desc = self.descriptors()[d];
        if desc.spec_get_heap() == 0 {
            desc.spec_get_block_size() as int
        } else {
            self.classes().class(desc.spec_get_heap() as int).spec_get_sb_size() as int
        }
    }

    /// Whether page `j` of the region of the descriptor at `d` is filed
    /// under it in the page map.
    pub open spec fn page_filed(&self, d: usize, j: int) -> bool {
        let desc = self.descriptors()[d];
        let e = self.page_entry((desc.spec_get_superblock() as int / 4096 + j) as u64);
        e.spec_get_desc() == d && e.spec_get_sc_idx() == desc.spec_get_heap()
    }

    /// Whether the region of the descriptor at `d` is well placed and every
    /// page of it is filed under `d`.
    pub open spec fn region_filed(&self, d: usize) -> bool {
        let desc = self.descriptors()[d];
        &&& spec_region_ok(desc.spec_get_superblock(), self.span(d))
        &&& forall|j: int| 0 <= j < self.span(d) / 4096 ==> #[trigger] self.page_filed(d, j)
    }

    /// What holds of the descriptor of a large block.
    pub open spec fn large_inv(&self, d: usize) -> bool {
        let desc = self.descriptors()[d];
        let sb = desc.spec_get_superblock();
        &&& desc.spec_get_maxcount() == 1
        &&& desc.spec_get_anchor().spec_state() == 0
        &&& desc.spec_get_anchor().spec_avail() == 0
        &&& desc.spec_get_anchor().spec_count() == 0
        &&& self.region_filed(d)
        &&& self.held(d).len() == 1
        &&& sb <= self.held(d)[0] < sb + desc.spec_get_block_size()
        &&& self.page_info(self.held(d)[0]).spec_get_desc() == d
        &&& self.live(self.held(d)[0])
    }

    /// Whether block `i` of the superblock of the descriptor at `d` has a
    /// holder.
    pub open spec fn block_known(&self, d: usize, i: int) -> bool {
        let desc = self.descriptors()[d];
        self.owners().contains_key(
            spec_block_addr(desc.spec_get_superblock(), desc.spec_get_block_size(), i),
        )
    }

    /// What holds of the descriptor of a superblock.
    pub open spec fn small_inv(&self, d: usize) -> bool {
        let desc = self.descriptors()[d];
        let anchor = desc.spec_get_anchor();
        let sc = self.classes().class(desc.spec_get_heap() as int);
        let chain = self.held(d);
        &&& 1 <= desc.spec_get_heap() < MAX_SZ_IDX
        &&& desc.spec_get_block_size() == sc.spec_get_block_size()
        &&& desc.spec_get_maxcount() == sc.spec_get_block_num()
        &&& anchor.spec_state() <= 2
        &&& anchor.spec_state() == 0 ==> anchor.spec_avail() == desc.spec_get_maxcount()
        &&& anchor.spec_state() == 2 ==> anchor.spec_count() == desc.spec_get_maxcount() - 1
            && anchor.spec_avail() < desc.spec_get_maxcount()
        &&& anchor.spec_state() != 2 ==> {
            &&& self.region_filed(d)
            &&& chain.len() == anchor.spec_count()
            &&& anchor.spec_count() < desc.spec_get_maxcount()
            &&& anchor.spec_avail() <= desc.spec_get_maxcount()
            &&& (anchor.spec_state() == 0) == (anchor.spec_count() == 0)
            &&& anchor.spec_state() == 1 ==> anchor.spec_avail() < desc.spec_get_maxcount()
                && chain[0] == spec_block_addr(
                desc.spec_get_superblock(),
                desc.spec_get_block_size(),
                anchor.spec_avail() as int,
            )
            &&& chain.no_duplicates()
            &&& self.all_owned_by(chain, Owner::Superblock(d))
            &&& self.linked(chain)
            &&& forall|i: int| 0 <= i < desc.spec_get_maxcount() ==> #[trigger] self.block_known(d, i)
            &&& (anchor.spec_state() == 1) == self.partial_list(
                desc.spec_get_heap() as int,
            ).contains(d)
        }
    }

    /// What holds of the descriptor at `d`: it is on the pool's stack
    /// exactly if its block size is 0, and else it stands for a large block
    /// or for a superblock.
    pub open spec fn desc_inv(&self, d: usize) -> bool {
        let desc = self.descriptors()[d];
        &&& self.pool().contains(d) == (desc.spec_get_block_size() == 0)
        &&& desc.spec_get_block_size() != 0 ==> if desc.spec_get_heap() == 0 {
            self.large_inv(d)
        } else {
            self.small_inv(d)
        }
    }

    /// What holds of the page-map entry filed under `key`: it is empty, or
    /// it names a descriptor of mapped pages, with its heap, and lies within
    /// the region of that descriptor.
    pub open spec fn page_inv(&self, key: u64) -> bool {
        let e = self.page_entry(key);
        let d = e.spec_get_desc();
        let desc = self.descriptors()[d];
        &&& d == 0 ==> e.spec_get_sc_idx() == 0
        &&& d != 0 ==> {
            &&& self.mapped(d)
            &&& e.spec_get_sc_idx() == desc.spec_get_heap()
            &&& desc.spec_get_superblock() as int / 4096 <= key < (desc.spec_get_superblock()
                + self.span(d)) / 4096
        }
    }

    /// What holds of a block with a holder: the page map knows its page; in
    /// a superblock it lies at a whole number of blocks from the base; a
    /// cache that holds it is one of its class and has it in its stack; a
    /// superblock that holds it has it in its chain; of a large block it is
    /// the address that was handed out.
    pub open spec fn block_inv(&self, b: usize) -> bool {
        let e = self.page_info(b);
        let d = e.spec_get_desc();
        let desc = self.descriptors()[d];
        &&& b < ADDRESS_LIMIT
        &&& d != 0
        &&& desc.spec_get_heap() == 0 ==> self.held(d) == seq![b] && self.owners()[b] == Owner::User
        &&& desc.spec_get_heap() != 0 ==> {
            &&& desc.spec_get_superblock() <= b
            &&& (b - desc.spec_get_superblock()) % (desc.spec_get_block_size() as int) == 0
            &&& match self.owners()[b] {
                Owner::User => true,
                Owner::Cache(n) => 0 <= n < self.num_bins() && n % (MAX_SZ_IDX as int)
                    == desc.spec_get_heap() && self.cache(n).contains(b),
                Owner::Superblock(o) => o == d && self.held(d).contains(b),
            }
        }
    }

    /// What holds of the thread cache with index `n`: its blocks are
    /// distinct, held by it, linked from the top down, and no more than it
    /// may keep.
    pub open spec fn cache_inv(&self, n: int) -> bool {
        let chain = self.cache(n);
        &&& chain.len() == self.bin(n).spec_get_block_num()
        &&& chain.len() <= self.capacity(n)
        &&& chain.no_duplicates()
        &&& self.all_owned_by(chain, Owner::Cache(n))
        &&& self.linked(chain)
        &&& chain.len() > 0 ==> self.bin(n).spec_peek_block() == chain[0]
    }

    /// What holds of the descriptor at position `i` of the partial list of
    /// class `c`: it is in use, for a superblock of that class.
    pub open spec fn listed_inv(&self, c: int, i: int) -> bool {
        let d = self.partial_list(c)[i];
        &&& self.descriptors().contains_key(d)
        &&& self.descriptors()[d].spec_get_block_size() != 0
        &&& self.descriptors()[d].spec_get_heap() == c
    }

    /// The parts fit together: the size classes are those of the schedule,
    /// there is one heap per class, and the pool and the partial lists are
    /// chains of descriptors.
    pub closed spec fn shape_inv(&self) -> bool {
        &&& self.classes.wf()
        &&& self.table.wf()
        &&& self.heaps@.len() == MAX_SZ_IDX
        &&& forall|c: int|
            0 <= c < MAX_SZ_IDX ==> (#[trigger] self.heaps@[c]).spec_get_sc_idx() == c
                && self.heaps@[c].wf(&self.table)
        &&& self.heaps@[0].partial().len() == 0
        &&& self.bins@.len() == self.apfs@.len()
        &&& self.bins@.len() == self.chains@.len()
        &&& self.bins@.len() as int % (MAX_SZ_IDX as int) == 0
        &&& forall|n: int| 0 <= n < self.apfs@.len() ==> (#[trigger] self.apfs@[n])@.reuse.wf()
    }

    /// The allocator's invariant.
    pub open spec fn inv(&self) -> bool {
        &&& self.shape_inv()
        &&& forall|d: usize| self.descriptors().contains_key(d) ==> #[trigger] self.desc_inv(d)
        &&& forall|c: int, i: int|
            0 <= c < MAX_SZ_IDX && 0 <= i < self.partial_list(c).len() ==> #[trigger] self.listed_inv(
                c,
                i,
            )
        &&& forall|key: u64| #[trigger] self.page_inv(key)
        &&& forall|b: usize| self.owners().contains_key(b) ==> #[trigger] self.block_inv(b)
        &&& forall|n: int| 0 <= n < self.num_bins() ==> #[trigger] self.cache_inv(n)
    }

    /// An allocator without threads, descriptors or blocks.
    pub fn new() -> (r: R3Malloc)
        ensures
            r.inv(),
            r.num_bins() == 0,
            r.descriptors() == Map::<usize, Descriptor>::empty(),
            r.owners() == Map::<usize, Owner>::empty(),
            r.released() == Seq::<(usize, usize)>::empty(),
    {
        let classes = init_size_class();
        let table = DescriptorTable::new();
        let mut heaps: Vec<ProcHeap> = Vec::new();
        let mut sz_idx: usize = 0;
        while sz_idx < MAX_SZ_IDX
            invariant
                sz_idx <= MAX_SZ_IDX,
                heaps@.len() == sz_idx,
                table.wf(),
                table@ == Map::<usize, Descriptor>::empty(),
                forall|c: int|
                    0 <= c < sz_idx ==> (#[trigger] heaps@[c]).spec_get_sc_idx() == c && heaps@[c].wf(
                        &table,
                    ) && heaps@[c].partial().len() == 0,
            decreases MAX_SZ_IDX - sz_idx,
        {
            let mut heap = ProcHeap::const_new(0);
            heap.set_sc_idx(sz_idx);
            heaps.push(heap);
            sz_idx += 1;
        }
        let r = R3Malloc {
            classes,
            table,
            heaps,
            pagemap: PageMap::def(),
            memory: BlockMemory::new(),
            bins: Vec::new(),
            apfs: Vec::new(),
            released: Vec::new(),
            owner: Ghost(Map::empty()),
            chains: Ghost(Seq::empty()),
            held: Ghost(Map::empty()),
        };
        proof {
            PageInfo::lemma_empty();
            assert forall|key: u64| #[trigger] r.page_inv(key) by {
                assert(r.page_entry(key) == PageInfo::empty());
            }
        }
        r
    }
}

impl R3Malloc {
    // ---- what an operation leaves alone ----

    /// Whether the descriptors, the pool, the partial lists and the blocks
    /// of the superblocks are as in `before`.
    pub open spec fn same_descriptors(&self, before: &R3Malloc) -> bool {
        &&& self.classes() == before.classes()
        &&& self.descriptors() == before.descriptors()
        &&& self.pool() == before.pool()
        &&& forall|c: int| 0 <= c < MAX_SZ_IDX ==> self.partial_list(c) == before.partial_list(c)
        &&& forall|d: usize| self.held(d) == before.held(d)
    }

    /// Whether the page map is as in `before`.
    pub open spec fn same_pages(&self, before: &R3Malloc) -> bool {
        forall|key: u64| self.page_entry(key) == before.page_entry(key)
    }

    /// Whether every cache but the one with index `n` is as in `before`.
    pub open spec fn same_caches_but(&self, before: &R3Malloc, n: int) -> bool {
        &&& self.num_bins() == before.num_bins()
        &&& forall|m: int|
            0 <= m < self.num_bins() && m != n ==> self.cache(m) == before.cache(m) && self.bin(m)
                == before.bin(m)
    }

    /// Takes the block on top of the cache with index `n` for a user.
    fn cache_pop(&mut self, n: usize) -> (p: usize)
        requires
            old(self).inv(),
            n < old(self).num_bins(),
            old(self).cache(n as int).len() > 0,
        ensures
            final(self).inv(),
            final(self).same_apfs(old(self)),
            p == old(self).cache(n as int)[0],
            final(self).cache(n as int) == old(self).cache(n as int).skip(1),
            final(self).owners() == old(self).owners().insert(p, Owner::User),
            old(self).owners().contains_key(p),
            old(self).owners()[p] == Owner::Cache(n as int),
            final(self).same_descriptors(old(self)),
            final(self).same_pages(old(self)),
            final(self).same_caches_but(old(self), n as int),
            final(self).released() == old(self).released(),
    {
        let mut bin = self.bins[n];
        assert(self.cache_inv(n as int));
        let ghost chain = self.chains@[n as int];
        assert(self.owned_by(chain, 0, Owner::Cache(n as int)));
        let p = bin.pop_block(&self.memory);
        self.bins.set(n, bin);
        proof {
            self.owner = Ghost(self.owner@.insert(p, Owner::User));
            self.chains = Ghost(self.chains@.update(n as int, chain.skip(1)));
        }
        proof {
            let before = old(self);
            let after = *self;
            assert(before.block_inv(p));
            assert(before.page_inv(spec_addr_to_key(p)));
            Self::lemma_descriptor_side_frame(before, &after);
            assert forall|b: usize| after.owners().contains_key(b) implies #[trigger] after.block_inv(
                b,
            ) by {
                assert(before.block_inv(b));
                if b != p {
                    Self::lemma_skip_contains(chain, b);
                    Self::lemma_block_frame(before, &after, b);
                }
            }
            assert forall|m: int| 0 <= m < after.num_bins() implies #[trigger] after.cache_inv(m) by {
                assert(before.cache_inv(m));
                let ch = after.cache(m);
                if m == n {
                    assert forall|i: int| 0 <= i < ch.len() implies #[trigger] after.owned_by(
                        ch,
                        i,
                        Owner::Cache(m),
                    ) by {
                        assert(before.owned_by(chain, i + 1, Owner::Cache(m)));
                        assert(chain[i + 1] != chain[0]);
                    }
                    assert forall|i: int| 0 <= i < ch.len() - 1 implies #[trigger] after.link_ok(
                        ch,
                        i,
                    ) by {
                        assert(before.link_ok(chain, i + 1));
                    }
                    assert forall|i: int, j: int| 0 <= i < j < ch.len() implies ch[i] != ch[j] by {
                        assert(chain[i + 1] != chain[j + 1]);
                    }
                    if ch.len() > 0 {
                        assert(before.link_ok(chain, 0));
                    }
                } else {
                    Self::lemma_cache_frame(before, &after, m);
                }
            }
        }
        p
    }
}

impl R3Malloc {
    // ---- each part of the invariant depends on little ----

    /// Whether the block at `a` is held by `who` after a change, with the
    /// link word that it had before.
    pub open spec fn kept(before: &R3Malloc, after: &R3Malloc, a: usize, who: Owner) -> bool {
        &&& after.owners().contains_key(a)
        &&& after.owners()[a] == who
        &&& after.word(a) == before.word(a)
    }

    /// Whether every block that `who` held before a change is held by it
    /// after, with the link word that it had.
    pub open spec fn keeps_blocks_of(before: &R3Malloc, after: &R3Malloc, who: Owner) -> bool {
        forall|a: usize|
            before.owners().contains_key(a) && before.owners()[a] == who ==> #[trigger] Self::kept(
                before,
                after,
                a,
                who,
            )
    }

    /// What holds of the descriptors, the partial lists and the page map
    /// still holds after a change that leaves them alone, and with them the
    /// blocks that the superblocks own and the holders of large blocks.
    pub proof fn lemma_descriptor_side_frame(before: &R3Malloc, after: &R3Malloc)
        requires
            before.inv(),
            after.same_descriptors(before),
            after.same_pages(before),
            forall|a: usize| #[trigger]
                before.owners().contains_key(a) ==> after.owners().contains_key(a),
            forall|a: usize| #[trigger]
                before.owners().contains_key(a) && (before.owners()[a] is Superblock
                    || before.descriptors()[before.page_info(a).spec_get_desc()].spec_get_heap() == 0)
                    ==> after.owners()[a] == before.owners()[a] && after.word(a) == before.word(a),
        ensures
            forall|d: usize| after.descriptors().contains_key(d) ==> #[trigger] after.desc_inv(d),
            forall|c: int, i: int|
                0 <= c < MAX_SZ_IDX && 0 <= i < after.partial_list(c).len() ==> #[trigger] after.listed_inv(
                    c,
                    i,
                ),
            forall|key: u64| #[trigger] after.page_inv(key),
    {
        assert forall|d: usize| after.descriptors().contains_key(d) implies #[trigger] after.desc_inv(
            d,
        ) by {
            assert(before.desc_inv(d));
            let desc = before.descriptors()[d];
            if desc.spec_get_block_size() != 0 && desc.spec_get_heap() != 0 {
                assert(before.small_inv(d));
            }
            if desc.spec_get_block_size() != 0 && desc.spec_get_heap() == 0 {
                assert(before.large_inv(d));
            }
            assert forall|i: int|
                0 <= i < desc.spec_get_maxcount() && before.block_known(d, i) implies #[trigger] after.block_known(
                d,
                i,
            ) by {}
            assert forall|a: usize|
                before.owners().contains_key(a) && before.owners()[a] == Owner::Superblock(
                    d,
                ) implies #[trigger] Self::kept(before, after, a, Owner::Superblock(d)) by {}
            Self::lemma_desc_frame(before, after, d);
        }
        assert forall|c: int, i: int|
            0 <= c < MAX_SZ_IDX && 0 <= i < after.partial_list(c).len() implies #[trigger] after.listed_inv(
            c,
            i,
        ) by {
            assert(before.listed_inv(c, i));
        }
        assert forall|key: u64| #[trigger] after.page_inv(key) by {
            assert(before.page_inv(key));
            Self::lemma_page_frame(before, after, key);
        }
    }

    /// What holds of a cache still holds after a change that leaves alone
    /// the cache and its blocks.
    pub proof fn lemma_cache_frame(before: &R3Malloc, after: &R3Malloc, m: int)
        requires
            before.cache_inv(m),
            after.classes() == before.classes(),
            after.cache(m) == before.cache(m),
            after.bin(m) == before.bin(m),
            Self::keeps_blocks_of(before, after, Owner::Cache(m)),
        ensures
            after.cache_inv(m),
    {
        let ch = after.cache(m);
        assert forall|i: int| 0 <= i < ch.len() implies #[trigger] after.owned_by(
            ch,
            i,
            Owner::Cache(m),
        ) by {
            assert(before.owned_by(ch, i, Owner::Cache(m)));
            assert(Self::kept(before, after, ch[i], Owner::Cache(m)));
        }
        assert forall|i: int| 0 <= i < ch.len() - 1 implies #[trigger] after.link_ok(ch, i) by {
            assert(before.link_ok(ch, i));
            assert(before.owned_by(ch, i, Owner::Cache(m)));
            assert(Self::kept(before, after, ch[i], Owner::Cache(m)));
        }
    }

    /// What holds of a page-map entry still holds after a change that
    /// leaves alone the entry and the place of the descriptor that it names.
    pub proof fn lemma_page_frame(before: &R3Malloc, after: &R3Malloc, key: u64)
        requires
            before.page_inv(key),
            after.classes() == before.classes(),
            after.page_entry(key) == before.page_entry(key),
            before.page_entry(key).spec_get_desc() != 0 ==> {
                let d = before.page_entry(key).spec_get_desc();
                let x = before.descriptors()[d];
                let y = after.descriptors()[d];
                &&& after.descriptors().contains_key(d)
                &&& y.spec_get_block_size() == x.spec_get_block_size()
                &&& y.spec_get_heap() == x.spec_get_heap()
                &&& y.spec_get_superblock() == x.spec_get_superblock()
                &&& (y.spec_get_anchor().spec_state() == 2) == (x.spec_get_anchor().spec_state() == 2)
            },
        ensures
            after.page_inv(key),
    {
    }

    /// What holds of a block still holds after a change that leaves alone
    /// its holder, its page and the place of its descriptor.
    pub proof fn lemma_block_frame(before: &R3Malloc, after: &R3Malloc, b: usize)
        requires
            before.block_inv(b),
            after.page_info(b) == before.page_info(b),
            after.owners()[b] == before.owners()[b],
            after.num_bins() >= before.num_bins(),
            ({
                let d = before.page_info(b).spec_get_desc();
                let x = before.descriptors()[d];
                let y = after.descriptors()[d];
                &&& y.spec_get_block_size() == x.spec_get_block_size()
                &&& y.spec_get_heap() == x.spec_get_heap()
                &&& y.spec_get_superblock() == x.spec_get_superblock()
                &&& x.spec_get_heap() == 0 ==> after.held(d) == before.held(d)
            }),
            match before.owners()[b] {
                Owner::User => true,
                Owner::Cache(n) => before.cache(n).contains(b) ==> after.cache(n).contains(b),
                Owner::Superblock(o) => before.held(o).contains(b) ==> after.held(o).contains(b),
            },
        ensures
            after.block_inv(b),
    {
    }
}

impl R3Malloc {
    /// Puts the block at `p`, which a user gives back, on top of the cache
    /// with index `n`.
    fn cache_push(&mut self, n: usize, p: usize)
        requires
            old(self).inv(),
            n < old(self).num_bins(),
            old(self).live(p),
            old(self).page_info(p).spec_get_sc_idx() == n % MAX_SZ_IDX,
            n % MAX_SZ_IDX != 0,
            old(self).cache(n as int).len() < old(self).capacity(n as int),
        ensures
            final(self).inv(),
            final(self).same_apfs(old(self)),
            final(self).cache(n as int) == seq![p] + old(self).cache(n as int),
            final(self).owners() == old(self).owners().insert(p, Owner::Cache(n as int)),
            final(self).same_descriptors(old(self)),
            final(self).same_pages(old(self)),
            final(self).same_caches_but(old(self), n as int),
            final(self).released() == old(self).released(),
    {
        let mut bin = self.bins[n];
        assert(self.cache_inv(n as int));
        let ghost chain = self.chains@[n as int];
        bin.push_block(&mut self.memory, p);
        self.bins.set(n, bin);
        proof {
            self.owner = Ghost(self.owner@.insert(p, Owner::Cache(n as int)));
            self.chains = Ghost(self.chains@.update(n as int, seq![p] + chain));
        }
        proof {
            let before = old(self);
            let after = *self;
            let e = before.page_info(p);
            let dp = e.spec_get_desc();
            assert(before.block_inv(p));
            assert(before.page_inv(spec_addr_to_key(p)));
            Self::lemma_descriptor_side_frame(before, &after);
            assert forall|b: usize| after.owners().contains_key(b) implies #[trigger] after.block_inv(
                b,
            ) by {
                Self::lemma_cons_contains(chain, p, b);
                if b != p {
                    assert(before.block_inv(b));
                    Self::lemma_block_frame(before, &after, b);
                }
            }
            assert forall|m: int| 0 <= m < after.num_bins() implies #[trigger] after.cache_inv(m) by {
                assert(before.cache_inv(m));
                let ch = after.cache(m);
                if m == n {
                    assert(ch[0] == p);
                    assert forall|i: int| 1 <= i < ch.len() implies ch[i] == chain[i - 1] && ch[i]
                        != p by {
                        assert(before.owned_by(chain, i - 1, Owner::Cache(m)));
                    }
                    assert forall|i: int| 0 <= i < ch.len() implies #[trigger] after.owned_by(
                        ch,
                        i,
                        Owner::Cache(m),
                    ) by {
                        if i > 0 {
                            assert(before.owned_by(chain, i - 1, Owner::Cache(m)));
                        }
                    }
                    assert forall|i: int| 0 <= i < ch.len() - 1 implies #[trigger] after.link_ok(
                        ch,
                        i,
                    ) by {
                        if i > 0 {
                            assert(before.link_ok(chain, i - 1));
                        }
                    }
                    assert forall|i: int, j: int| 0 <= i < j < ch.len() implies ch[i] != ch[j] by {
                        if i > 0 {
                            assert(chain[i - 1] != chain[j - 1]);
                        }
                    }
                } else {
                    assert(Self::keeps_blocks_of(before, &after, Owner::Cache(m)));
                    Self::lemma_cache_frame(before, &after, m);
                }
            }
        }
    }

    /// Admits a thread: it gets an empty cache and a predictor for each size
    /// class. The result is the number by which the thread is known.
    pub fn thread_init(&mut self) -> (tid: usize)
        requires
            old(self).inv(),
            old(self).num_bins() + MAX_SZ_IDX <= usize::MAX,
        ensures
            final(self).inv(),
            tid == old(self).num_threads(),
            final(self).num_bins() == old(self).num_bins() + MAX_SZ_IDX,
            forall|m: int|
                0 <= m < old(self).num_bins() ==> final(self).cache(m) == old(self).cache(m),
            forall|m: int|
                old(self).num_bins() <= m < final(self).num_bins() ==> final(self).cache(m).len() == 0,
            final(self).same_apf_states(old(self)),
            forall|m: int|
                old(self).num_bins() <= m < final(self).num_bins() ==> final(self).apf(m)
                    == ApfView::spec_new(),
            final(self).owners() == old(self).owners(),
            final(self).same_descriptors(old(self)),
            final(self).same_pages(old(self)),
            final(self).released() == old(self).released(),
    {
        let tid: usize = self.bins.len() / MAX_SZ_IDX;
        let ghost before = *self;
        let mut sc_idx: usize = 0;
        while sc_idx < MAX_SZ_IDX
            invariant
                sc_idx <= MAX_SZ_IDX,
                before.inv(),
                before.num_bins() + MAX_SZ_IDX <= usize::MAX,
                self.classes == before.classes,
                self.table == before.table,
                self.heaps == before.heaps,
                self.pagemap == before.pagemap,
                self.memory == before.memory,
                self.released == before.released,
                self.owner == before.owner,
                self.held == before.held,
                self.bins@.len() == before.bins@.len() + sc_idx,
                self.apfs@.len() == self.bins@.len(),
                self.chains@.len() == self.bins@.len(),
                forall|m: int| 0 <= m < before.bins@.len() ==> #[trigger] self.bins@[m] == before.bins@[m],
                forall|m: int|
                    0 <= m < before.bins@.len() ==> #[trigger] self.chains@[m] == before.chains@[m],
                forall|m: int| 0 <= m < before.bins@.len() ==> #[trigger] self.apfs@[m] == before.apfs@[m],
                forall|m: int|
                    before.bins@.len() <= m < self.bins@.len() ==> (#[trigger] self.bins@[m]).spec_get_block_num()
                        == 0,
                forall|m: int|
                    before.bins@.len() <= m < self.bins@.len() ==> (#[trigger] self.chains@[m]).len() == 0,
                forall|m: int|
                    before.bins@.len() <= m < self.bins@.len() ==> (#[trigger] self.apfs@[m])@.reuse.wf(),
                forall|m: int|
                    before.bins@.len() <= m < self.bins@.len() ==> (#[trigger] self.apfs@[m])@
                        == ApfView::spec_new(),
            decreases MAX_SZ_IDX - sc_idx,
        {
            self.bins.push(TCacheBin::new());
            let mut apf = Apf::new();
            apf.init();
            assert(apf@ =~~= ApfView::spec_new());
            self.apfs.push(apf);
            proof {
                self.chains = Ghost(self.chains@.push(Seq::empty()));
            }
            sc_idx += 1;
        }
        proof {
            let after = *self;
            assert forall|n: int| 0 <= n < after.apfs@.len() implies (#[trigger] after.apfs@[n])@.reuse.wf() by {
                if n < before.bins@.len() {
                    assert(after.apfs@[n] == before.apfs@[n]);
                }
            }
            Self::lemma_descriptor_side_frame(&before, &after);
            assert forall|b: usize| after.owners().contains_key(b) implies #[trigger] after.block_inv(
                b,
            ) by {
                assert(before.block_inv(b));
                Self::lemma_block_frame(&before, &after, b);
            }
            assert forall|m: int| 0 <= m < after.num_bins() implies #[trigger] after.cache_inv(m) by {
                if m < before.num_bins() {
                    assert(before.cache_inv(m));
                    Self::lemma_cache_frame(&before, &after, m);
                } else {
                    assert(after.bins@[m].spec_get_block_num() == 0);
                    assert(after.chains@[m].len() == 0);
                }
            }
            assert forall|m: int| before.num_bins() <= m < after.num_bins() implies after.cache(
                m,
            ).len() == 0 by {
                assert(after.chains@[m].len() == 0);
            }
        }
        tid
    }
}

impl R3Malloc {
    /// Whether every cache is as in `before`.
    pub open spec fn same_caches(&self, before: &R3Malloc) -> bool {
        &&& self.num_bins() == before.num_bins()
        &&& forall|m: int|
            0 <= m < self.num_bins() ==> self.cache(m) == before.cache(m) && self.bin(m)
                == before.bin(m)
    }

    /// Whether the partial lists of all classes but `sc_idx` are as in
    /// `before`.
    pub open spec fn same_partial_lists_but(&self, before: &R3Malloc, sc_idx: int) -> bool {
        forall|c: int|
            0 <= c < MAX_SZ_IDX && c != sc_idx ==> self.partial_list(c) == before.partial_list(c)
    }

    /// Whether the descriptors at all addresses but `d` are as in `before`,
    /// with the blocks of their superblocks.
    pub open spec fn same_descriptors_but(&self, before: &R3Malloc, d: usize) -> bool {
        &&& self.descriptors().dom() == before.descriptors().dom()
        &&& forall|o: usize|
            o != d && before.descriptors().contains_key(o) ==> self.descriptors()[o]
                == before.descriptors()[o]
        &&& forall|o: usize| o != d ==> self.held(o) == before.held(o)
    }

    /// The state of the superblock whose descriptor heads the partial list
    /// of class `sc_idx`.
    pub open spec fn head_state(&self, sc_idx: int) -> u32 {
        self.descriptors()[self.partial_list(sc_idx)[0]].spec_get_anchor().spec_state()
    }

    /// Takes the descriptor of an empty superblock off the head of the
    /// partial list of class `sc_idx` and retires it.
    fn retire_empty(&mut self, sc_idx: usize)
        requires
            old(self).inv(),
            1 <= sc_idx < MAX_SZ_IDX,
            old(self).partial_list(sc_idx as int).len() > 0,
            old(self).head_state(sc_idx as int) == 2,
        ensures
            final(self).inv(),
            final(self).same_apfs(old(self)),
            final(self).partial_list(sc_idx as int) == old(self).partial_list(sc_idx as int).skip(1),
            final(self).pool() == seq![old(self).partial_list(sc_idx as int)[0]] + old(self).pool(),
            final(self).same_partial_lists_but(old(self), sc_idx as int),
            final(self).same_descriptors_but(old(self), old(self).partial_list(sc_idx as int)[0]),
            final(self).classes() == old(self).classes(),
            final(self).owners() == old(self).owners(),
            final(self).same_pages(old(self)),
            final(self).same_caches(old(self)),
            final(self).released() == old(self).released(),
    {
        let ghost before = *self;
        let ghost list = self.partial_list(sc_idx as int);
        let d = heap_pop_partial(&self.table, &mut self.heaps[sc_idx]);
        assert(before.listed_inv(sc_idx as int, 0));
        assert(before.desc_inv(d));
        Descriptor::retire(&mut self.table, d);
        proof {
            let after = *self;
            assert(before.small_inv(d));
            // the lists
            assert forall|c: int| 0 <= c < MAX_SZ_IDX implies (#[trigger] after.heaps@[c]).spec_get_sc_idx()
                == c && after.heaps@[c].wf(&after.table) by {
                if c == sc_idx {
                    assert(after.heaps@[sc_idx as int].wf(&before.table));
                }
                let h = after.heaps@[c];
                assert(h.wf(&before.table));
                assert forall|i: int| 0 <= i < h.partial().len() implies {
                    let e = #[trigger] h.partial()[i];
                    &&& after.table@.contains_key(e)
                    &&& after.table@[e].spec_get_heap() == before.table@[e].spec_get_heap()
                    &&& after.table@[e].spec_get_next_partial() == before.table@[e].spec_get_next_partial()
                } by {
                    assert(h.partial_entry_ok(&before.table, i));
                }
                h.lemma_frame(&before.table, &after.table);
            }
            assert forall|o: usize| o != d implies after.pool().contains(o) == before.pool().contains(
                o,
            ) by {
                Self::lemma_cons_contains(before.pool(), d, o);
            }
            Self::lemma_cons_contains(before.pool(), d, d);
            assert forall|o: usize| o != d implies after.partial_list(sc_idx as int).contains(o)
                == list.contains(o) by {
                Self::lemma_skip_contains(list, o);
            }
            assert forall|o: usize| after.descriptors().contains_key(o) implies #[trigger] after.desc_inv(
                o,
            ) by {
                assert(before.descriptors().contains_key(o));
                assert(before.desc_inv(o));
                if o != d {
                    Self::lemma_desc_frame(&before, &after, o);
                }
            }
            assert forall|c: int, i: int|
                0 <= c < MAX_SZ_IDX && 0 <= i < after.partial_list(c).len() implies #[trigger] after.listed_inv(
                c,
                i,
            ) by {
                if c == sc_idx {
                    assert(before.listed_inv(c, i + 1));
                    assert(list[i + 1] != list[0]);
                } else {
                    assert(before.listed_inv(c, i));
                }
            }
            assert forall|key: u64| #[trigger] after.page_inv(key) by {
                assert(before.page_inv(key));
                Self::lemma_page_frame(&before, &after, key);
            }
            assert forall|b: usize| after.owners().contains_key(b) implies #[trigger] after.block_inv(
                b,
            ) by {
                assert(before.block_inv(b));
                assert(before.page_inv(spec_addr_to_key(b)));
                Self::lemma_block_frame(&before, &after, b);
            }
            assert forall|m: int| 0 <= m < after.num_bins() implies #[trigger] after.cache_inv(m) by {
                assert(before.cache_inv(m));
                Self::lemma_cache_frame(&before, &after, m);
            }
        }
    }

    /// A list with `x` put in front holds `y` exactly if `y` is `x` or the
    /// list held it.
    pub proof fn lemma_cons_contains(list: Seq<usize>, x: usize, y: usize)
        ensures
            (seq![x] + list).contains(y) == (y == x || list.contains(y)),
    {
        let l = seq![x] + list;
        if l.contains(y) {
            let i = choose|i: int| 0 <= i < l.len() && l[i] == y;
            if i > 0 {
                assert(list[i - 1] == y);
            }
        }
        if y == x {
            assert(l[0] == y);
        }
        if list.contains(y) {
            let i = choose|i: int| 0 <= i < list.len() && list[i] == y;
            assert(l[i + 1] == y);
        }
    }

    /// Two lists in a row hold what either holds.
    pub proof fn lemma_concat_contains(a: Seq<usize>, b: Seq<usize>, y: usize)
        ensures
            (a + b).contains(y) == (a.contains(y) || b.contains(y)),
    {
        let l = a + b;
        if l.contains(y) {
            let i = choose|i: int| 0 <= i < l.len() && l[i] == y;
            if i < a.len() {
                assert(a[i] == y);
            } else {
                assert(b[i - a.len()] == y);
            }
        }
        if a.contains(y) {
            let i = choose|i: int| 0 <= i < a.len() && a[i] == y;
            assert(l[i] == y);
        }
        if b.contains(y) {
            let i = choose|i: int| 0 <= i < b.len() && b[i] == y;
            assert(l[i + a.len()] == y);
        }
    }

    /// A list holds what its first `k` entries hold and what the rest
    /// holds.
    pub proof fn lemma_split_contains(list: Seq<usize>, k: int, y: usize)
        requires
            0 <= k <= list.len(),
        ensures
            list.contains(y) == (list.subrange(0, k).contains(y) || list.skip(k).contains(y)),
    {
        assert(list =~= list.subrange(0, k) + list.skip(k));
        Self::lemma_concat_contains(list.subrange(0, k), list.skip(k), y);
    }

    /// A list without its head holds what the list held, but for the head.
    pub proof fn lemma_skip_contains(list: Seq<usize>, y: usize)
        requires
            list.len() > 0,
            list.no_duplicates(),
        ensures
            list.skip(1).contains(y) == (y != list[0] && list.contains(y)),
    {
        let l = list.skip(1);
        if l.contains(y) {
            let i = choose|i: int| 0 <= i < l.len() && l[i] == y;
            assert(list[i + 1] == y);
        }
        if y != list[0] && list.contains(y) {
            let i = choose|i: int| 0 <= i < list.len() && list[i] == y;
            assert(l[i - 1] == y);
        }
    }
}

impl R3Malloc {
    /// Block `i` of a superblock lies within it, on the page that its
    /// offset gives.
    pub proof fn lemma_block_place(sb: usize, bs: u32, n: u32, i: int, size: int)
        requires
            sb % 4096 == 0,
            size == n * bs,
            bs > 0,
            0 <= i < n,
            sb + size <= usize::MAX,
        ensures
            0 <= i * bs <= size - bs,
            spec_block_addr(sb, bs, i) == sb + i * bs,
            sb <= spec_block_addr(sb, bs, i) < sb + size,
            (spec_block_addr(sb, bs, i) - sb) % (bs as int) == 0,
            (spec_block_addr(sb, bs, i) - sb) / (bs as int) == i,
            spec_block_addr(sb, bs, i) as int / 4096 == sb as int / 4096 + (i * bs) / 4096,
            0 <= (i * bs) / 4096 < size / 4096 || size % 4096 != 0,
    {
        reveal(spec_block_addr);
        assert(0 <= i * bs <= n * bs - bs) by (nonlinear_arith)
            requires
                0 <= i < n,
                bs > 0,
        ;
        vstd::arithmetic::div_mod::lemma_mod_multiples_basic(i, bs as int);
        vstd::arithmetic::div_mod::lemma_div_by_multiple(i, bs as int);
    }

    /// Takes all free blocks of the superblock whose descriptor heads the
    /// partial list of class `sc_idx` into the empty cache with index `n`.
    /// The superblock becomes full and leaves the list.
    fn take_partial(&mut self, sc_idx: usize, n: usize) -> (taken: u32)
        requires
            old(self).inv(),
            1 <= sc_idx < MAX_SZ_IDX,
            n < old(self).num_bins(),
            n % MAX_SZ_IDX == sc_idx,
            old(self).cache(n as int).len() == 0,
            old(self).partial_list(sc_idx as int).len() > 0,
            old(self).head_state(sc_idx as int) != 2,
        ensures
            final(self).inv(),
            final(self).same_apfs(old(self)),
            taken > 0,
            taken == final(self).cache(n as int).len(),
            final(self).cache(n as int) == old(self).held(old(self).partial_list(sc_idx as int)[0]),
            final(self).partial_list(sc_idx as int) == old(self).partial_list(sc_idx as int).skip(1),
            final(self).same_partial_lists_but(old(self), sc_idx as int),
            final(self).pool() == old(self).pool(),
            final(self).classes() == old(self).classes(),
            final(self).owners().dom() == old(self).owners().dom(),
            forall|p: usize| final(self).live(p) == old(self).live(p),
            final(self).same_pages(old(self)),
            final(self).same_caches_but(old(self), n as int),
            final(self).released() == old(self).released(),
            final(self).same_descriptors_but(old(self), old(self).partial_list(sc_idx as int)[0]),
            final(self).descriptors()[old(self).partial_list(sc_idx as int)[0]].same_but(
                old(self).descriptors()[old(self).partial_list(sc_idx as int)[0]],
                2,
            ),
            final(self).descriptors()[old(self).partial_list(
                sc_idx as int,
            )[0]].spec_get_anchor().spec_state() == 0,
            final(self).descriptors()[old(self).partial_list(
                sc_idx as int,
            )[0]].spec_get_anchor().spec_count() == 0,
            final(self).descriptors()[old(self).partial_list(
                sc_idx as int,
            )[0]].spec_get_anchor().spec_avail() == old(self).classes().class(
                sc_idx as int,
            ).spec_get_block_num(),
            final(self).held(old(self).partial_list(sc_idx as int)[0]) == Seq::<usize>::empty(),
    {
        let ghost before = *self;
        let ghost list = self.partial_list(sc_idx as int);
        let d = heap_pop_partial(&self.table, &mut self.heaps[sc_idx]);
        assert(before.listed_inv(sc_idx as int, 0));
        assert(before.desc_inv(d));
        assert(before.small_inv(d));
        let mut desc = self.table.get(d);
        let old_anchor = desc.get_anchor();
        let max_count: u32 = desc.get_maxcount();
        let block_size: u32 = desc.get_block_size();
        let superblock: usize = desc.get_superblock();
        let ghost chain = before.held(d);
        let ghost sc = before.classes().class(sc_idx as int);
        proof {
            assert(before.classes().class_follows_schedule(sc_idx as int));
            Self::lemma_skip_contains(list, d);
            assert(list.contains(d));
            Self::lemma_block_place(
                superblock,
                block_size,
                max_count,
                old_anchor.spec_avail() as int,
                sc.spec_get_sb_size() as int,
            );
        }
        let mut new_anchor = old_anchor;
        new_anchor.set_count(0);
        new_anchor.set_avail(max_count);
        new_anchor.set_state(SbState::Full.code());
        desc.set_anchor(new_anchor);
        self.table.put(d, desc);
        let blocks_taken: u32 = old_anchor.count();
        let avail: u32 = old_anchor.avail();
        let block: usize = superblock + (avail * block_size) as usize;
        let mut bin = self.bins[n];
        assert(before.cache_inv(n as int));
        bin.push_list(block, blocks_taken);
        self.bins.set(n, bin);
        proof {
            let old_owner = self.owner@;
            self.owner = Ghost(
                Map::new(
                    |b: usize| old_owner.contains_key(b),
                    |b: usize|
                        if chain.contains(b) {
                            Owner::Cache(n as int)
                        } else {
                            old_owner[b]
                        },
                ),
            );
            self.chains = Ghost(self.chains@.update(n as int, chain));
            self.held = Ghost(self.held@.insert(d, Seq::empty()));
        }
        proof {
            let after = *self;
            assert(after.owners().dom() =~= before.owners().dom());
            assert(after.descriptors().dom() =~= before.descriptors().dom());
            after.table.lemma_put_keeps_wf(before.table, d);
            // blocks of the chain change holder; all others keep theirs
            assert forall|i: int| 0 <= i < chain.len() implies before.owners().contains_key(chain[i])
                && before.owners()[chain[i]] == Owner::Superblock(d) by {
                assert(before.owned_by(chain, i, Owner::Superblock(d)));
            }
            assert forall|a: usize| before.owners().contains_key(a) && before.owners()[a]
                != Owner::Superblock(d) implies after.owners()[a] == before.owners()[a] by {
                if chain.contains(a) {
                    let i = choose|i: int| 0 <= i < chain.len() && chain[i] == a;
                }
            }
            assert forall|c: int| 0 <= c < MAX_SZ_IDX implies (#[trigger] after.heaps@[c]).spec_get_sc_idx()
                == c && after.heaps@[c].wf(&after.table) by {
                let h = after.heaps@[c];
                assert(h.wf(&before.table));
                assert forall|i: int| 0 <= i < h.partial().len() implies {
                    let e = #[trigger] h.partial()[i];
                    &&& after.table@.contains_key(e)
                    &&& after.table@[e].spec_get_heap() == before.table@[e].spec_get_heap()
                    &&& after.table@[e].spec_get_next_partial() == before.table@[e].spec_get_next_partial()
                } by {
                    assert(h.partial_entry_ok(&before.table, i));
                }
                h.lemma_frame(&before.table, &after.table);
            }
            assert forall|o: usize| after.descriptors().contains_key(o) implies #[trigger] after.desc_inv(
                o,
            ) by {
                assert(before.desc_inv(o));
                if o != d {
                    let x = before.descriptors()[o];
                    if x.spec_get_block_size() != 0 && x.spec_get_heap() != 0 {
                        assert(before.small_inv(o));
                        if x.spec_get_heap() == sc_idx {
                            Self::lemma_skip_contains(list, o);
                        }
                    }
                    assert forall|a: usize|
                        before.owners().contains_key(a) && before.owners()[a] == Owner::Superblock(
                            o,
                        ) implies #[trigger] Self::kept(&before, &after, a, Owner::Superblock(o)) by {}
                    if x.spec_get_block_size() != 0 && x.spec_get_heap() == 0 {
                        assert(before.large_inv(o));
                    }
                    Self::lemma_desc_frame(&before, &after, o);
                } else {
                    assert(after.span(d) == before.span(d));
                    assert forall|j: int| 0 <= j < after.span(d) / 4096 implies #[trigger] after.page_filed(
                        d,
                        j,
                    ) by {
                        assert(before.page_filed(d, j));
                    }
                    assert forall|i: int| 0 <= i < max_count implies #[trigger] after.block_known(
                        d,
                        i,
                    ) by {
                        assert(before.block_known(d, i));
                    }
                    assert(after.held(d).len() == 0);
                    assert(after.small_inv(d));
                }
            }
            assert forall|c: int, i: int|
                0 <= c < MAX_SZ_IDX && 0 <= i < after.partial_list(c).len() implies #[trigger] after.listed_inv(
                c,
                i,
            ) by {
                if c == sc_idx {
                    assert(before.listed_inv(c, i + 1));
                } else {
                    assert(before.listed_inv(c, i));
                }
            }
            assert forall|key: u64| #[trigger] after.page_inv(key) by {
                assert(before.page_inv(key));
                Self::lemma_page_frame(&before, &after, key);
            }
            assert forall|b: usize| after.owners().contains_key(b) implies #[trigger] after.block_inv(
                b,
            ) by {
                assert(before.block_inv(b));
                assert(before.page_inv(spec_addr_to_key(b)));
                if chain.contains(b) {
                    let i = choose|i: int| 0 <= i < chain.len() && chain[i] == b;
                    assert(before.owned_by(chain, i, Owner::Superblock(d)));
                } else {
                    Self::lemma_block_frame(&before, &after, b);
                }
            }
            assert forall|m: int| 0 <= m < after.num_bins() implies #[trigger] after.cache_inv(m) by {
                assert(before.cache_inv(m));
                if m == n {
                    assert forall|i: int| 0 <= i < chain.len() implies #[trigger] after.owned_by(
                        chain,
                        i,
                        Owner::Cache(m),
                    ) by {
                        assert(before.owned_by(chain, i, Owner::Superblock(d)));
                    }
                    assert forall|i: int| 0 <= i < chain.len() - 1 implies #[trigger] after.link_ok(
                        chain,
                        i,
                    ) by {
                        assert(before.link_ok(chain, i));
                    }
                } else {
                    assert forall|a: usize|
                        before.owners().contains_key(a) && before.owners()[a] == Owner::Cache(
                            m,
                        ) implies #[trigger] Self::kept(&before, &after, a, Owner::Cache(m)) by {}
                    Self::lemma_cache_frame(&before, &after, m);
                }
            }
            assert forall|p: usize| after.live(p) == before.live(p) by {
                if before.owners().contains_key(p) && chain.contains(p) {
                    let i = choose|i: int| 0 <= i < chain.len() && chain[i] == p;
                }
            }
        }
        blocks_taken
    }
}

impl R3Malloc {
    /// The state of the superblock whose descriptor is at position `i` of
    /// the partial list of class `sc_idx`.
    pub open spec fn listed_state(&self, sc_idx: int, i: int) -> u32 {
        self.descriptors()[self.partial_list(sc_idx)[i]].spec_get_anchor().spec_state()
    }

    /// Whether a superblock of class `sc_idx` with free blocks of its own is
    /// on the partial list.
    pub open spec fn has_partial(&self, sc_idx: int) -> bool {
        exists|i: int|
            0 <= i < self.partial_list(sc_idx).len() && #[trigger] self.listed_state(sc_idx, i) != 2
    }

    /// The first descriptor of `list` whose superblock is not empty, 0 if
    /// there is none.
    pub open spec fn spec_first_partial(list: Seq<usize>, descs: Map<usize, Descriptor>) -> usize
        decreases list.len(),
    {
        if list.len() == 0 {
            0
        } else if descs[list[0]].spec_get_anchor().spec_state() != 2 {
            list[0]
        } else {
            Self::spec_first_partial(list.skip(1), descs)
        }
    }

    /// The descriptor of the first superblock with free blocks of its own
    /// on the partial list of class `sc_idx`, 0 if there is none.
    pub open spec fn first_partial(&self, sc_idx: int) -> usize {
        Self::spec_first_partial(self.partial_list(sc_idx), self.descriptors())
    }

    /// The first descriptor with a superblock that is not empty depends on
    /// the descriptors of the list alone.
    pub proof fn lemma_first_partial_frame(
        list: Seq<usize>,
        a: Map<usize, Descriptor>,
        b: Map<usize, Descriptor>,
    )
        requires
            forall|i: int| 0 <= i < list.len() ==> a[#[trigger] list[i]] == b[list[i]],
        ensures
            Self::spec_first_partial(list, a) == Self::spec_first_partial(list, b),
        decreases list.len(),
    {
        if list.len() > 0 {
            assert(a[list[0]] == b[list[0]]);
            let rest = list.skip(1);
            assert forall|i: int| 0 <= i < rest.len() implies a[#[trigger] rest[i]] == b[rest[i]] by {
                assert(rest[i] == list[i + 1]);
            }
            Self::lemma_first_partial_frame(rest, a, b);
        }
    }

    /// The descriptors at the front of `list` whose superblocks are empty,
    /// up to the first whose superblock is not.
    pub open spec fn spec_leading_empties(list: Seq<usize>, descs: Map<usize, Descriptor>) -> Seq<
        usize,
    >
        decreases list.len(),
    {
        if list.len() == 0 || descs[list[0]].spec_get_anchor().spec_state() != 2 {
            Seq::empty()
        } else {
            seq![list[0]] + Self::spec_leading_empties(list.skip(1), descs)
        }
    }

    /// The descriptors of empty superblocks at the front of the partial list
    /// of class `sc_idx`: those that the next fill retires.
    pub open spec fn leading_empties(&self, sc_idx: int) -> Seq<usize> {
        Self::spec_leading_empties(self.partial_list(sc_idx), self.descriptors())
    }

    /// The pool after the descriptors of `empties` were retired, one after
    /// the other.
    pub open spec fn spec_retired_onto(pool: Seq<usize>, empties: Seq<usize>) -> Seq<usize>
        decreases empties.len(),
    {
        if empties.len() == 0 {
            pool
        } else {
            Self::spec_retired_onto(seq![empties[0]] + pool, empties.skip(1))
        }
    }

    /// The empty superblocks at the front of a list depend on the
    /// descriptors of the list alone.
    pub proof fn lemma_leading_empties_frame(
        list: Seq<usize>,
        a: Map<usize, Descriptor>,
        b: Map<usize, Descriptor>,
    )
        requires
            forall|i: int| 0 <= i < list.len() ==> a[#[trigger] list[i]] == b[list[i]],
        ensures
            Self::spec_leading_empties(list, a) == Self::spec_leading_empties(list, b),
        decreases list.len(),
    {
        if list.len() > 0 {
            assert(a[list[0]] == b[list[0]]);
            let rest = list.skip(1);
            assert forall|i: int| 0 <= i < rest.len() implies a[#[trigger] rest[i]] == b[rest[i]] by {
                assert(rest[i] == list[i + 1]);
            }
            Self::lemma_leading_empties_frame(rest, a, b);
        }
    }

    /// The blocks that fill an empty cache of class `sc_idx`: those of the
    /// first superblock with free blocks on the partial list, or else all
    /// blocks of a new superblock at `pages`.
    pub open spec fn filling(&self, sc_idx: int, pages: usize) -> Seq<usize> {
        if self.has_partial(sc_idx) {
            self.held(self.first_partial(sc_idx))
        } else {
            Seq::new(
                self.classes().class(sc_idx).spec_get_block_num() as nat,
                |i: int| spec_block_addr(pages, self.classes().class(sc_idx).spec_get_block_size(), i),
            )
        }
    }

    /// The descriptor of the superblock that fills an empty cache of class
    /// `sc_idx`: the first on the partial list with free blocks, or else the
    /// one that a new superblock gets, from the top of the pool as it is
    /// once the empty superblocks of the list were retired, or cut from the
    /// block at `fresh`.
    pub open spec fn fill_source(&self, sc_idx: int, fresh: usize) -> usize {
        if self.has_partial(sc_idx) {
            self.first_partial(sc_idx)
        } else {
            let pool = Self::spec_retired_onto(self.pool(), self.leading_empties(sc_idx));
            if pool.len() > 0 {
                pool[0]
            } else {
                fresh
            }
        }
    }

    /// Whether the superblock that filled a cache of class `sc_idx` is full
    /// since: all of its blocks are out, and none is left on its own list.
    pub open spec fn filled_from(&self, before: &R3Malloc, sc_idx: int, fresh: usize) -> bool {
        let d = before.fill_source(sc_idx, fresh);
        let anchor = self.descriptors()[d].spec_get_anchor();
        &&& anchor.spec_state() == 0
        &&& anchor.spec_count() == 0
        &&& anchor.spec_avail() == before.classes().class(sc_idx).spec_get_block_num()
        &&& self.held(d) == Seq::<usize>::empty()
    }

    /// Whether the users hold what they held in `before`, with the same
    /// page-map entries and usable sizes.
    pub open spec fn same_users(&self, before: &R3Malloc) -> bool {
        &&& self.classes() == before.classes()
        &&& forall|p: usize| self.live(p) == before.live(p)
        &&& forall|p: usize|
            before.live(p) ==> self.page_info(p) == before.page_info(p) && self.spec_usable_size(p)
                == before.spec_usable_size(p)
    }

    /// Where a partial list holds a superblock with free blocks, the first
    /// such is on the list and is not empty.
    pub proof fn lemma_first_partial_listed(&self, sc_idx: int)
        requires
            self.has_partial(sc_idx),
        ensures
            self.partial_list(sc_idx).contains(self.first_partial(sc_idx)),
            self.descriptors()[self.first_partial(sc_idx)].spec_get_anchor().spec_state() != 2,
    {
        let i = choose|i: int|
            0 <= i < self.partial_list(sc_idx).len() && #[trigger] self.listed_state(sc_idx, i) != 2;
        Self::lemma_first_partial_found(self.partial_list(sc_idx), self.descriptors(), i);
    }

    /// As `lemma_first_partial_listed`, for any list.
    pub proof fn lemma_first_partial_found(list: Seq<usize>, descs: Map<usize, Descriptor>, i: int)
        requires
            0 <= i < list.len(),
            descs[list[i]].spec_get_anchor().spec_state() != 2,
        ensures
            list.contains(Self::spec_first_partial(list, descs)),
            descs[Self::spec_first_partial(list, descs)].spec_get_anchor().spec_state() != 2,
        decreases list.len(),
    {
        if descs[list[0]].spec_get_anchor().spec_state() != 2 {
            assert(list[0] == Self::spec_first_partial(list, descs));
        } else {
            let rest = list.skip(1);
            assert(rest[i - 1] == list[i]);
            Self::lemma_first_partial_found(rest, descs, i - 1);
            let fp = Self::spec_first_partial(rest, descs);
            let j = choose|j: int| 0 <= j < rest.len() && rest[j] == fp;
            assert(list[j + 1] == fp);
        }
    }

    /// Fills the empty cache with index `n` from the first superblock with
    /// free blocks on the partial list of class `sc_idx`. Descriptors of
    /// empty superblocks that lie before it on the list are retired. The
    /// result is the number of blocks taken, 0 if the list holds no
    /// superblock with free blocks.
    fn malloc_from_partial(&mut self, sc_idx: usize, n: usize) -> (taken: usize)
        requires
            old(self).inv(),
            1 <= sc_idx < MAX_SZ_IDX,
            n < old(self).num_bins(),
            n % MAX_SZ_IDX == sc_idx,
            old(self).cache(n as int).len() == 0,
        ensures
            final(self).inv(),
            final(self).same_apfs(old(self)),
            taken == final(self).cache(n as int).len(),
            (taken > 0) == old(self).has_partial(sc_idx as int),
            taken > 0 ==> final(self).cache(n as int) == old(self).held(
                old(self).first_partial(sc_idx as int),
            ),
            final(self).pool() == Self::spec_retired_onto(
                old(self).pool(),
                old(self).leading_empties(sc_idx as int),
            ),
            final(self).partial_list(sc_idx as int) == old(self).partial_list(sc_idx as int).skip(
                old(self).leading_empties(sc_idx as int).len() + (if taken > 0 {
                    1int
                } else {
                    0int
                }),
            ),
            final(self).same_partial_lists_but(old(self), sc_idx as int),
            taken > 0 ==> {
                let d = old(self).first_partial(sc_idx as int);
                &&& final(self).descriptors()[d].same_but(old(self).descriptors()[d], 2)
                &&& final(self).descriptors()[d].spec_get_anchor().spec_state() == 0
                &&& final(self).descriptors()[d].spec_get_anchor().spec_count() == 0
                &&& final(self).descriptors()[d].spec_get_anchor().spec_avail() == old(self).classes().class(sc_idx as int).spec_get_block_num()
                &&& final(self).held(d) == Seq::<usize>::empty()
            },
            taken == 0 ==> final(self).partial_list(sc_idx as int).len() == 0 && (final(self).pool().len() > 0) == (old(self).pool().len() > 0 || old(self).partial_list(
                sc_idx as int,
            ).len() > 0),
            final(self).descriptors().dom() == old(self).descriptors().dom(),
            final(self).same_users(old(self)),
            final(self).same_pages(old(self)),
            final(self).same_caches_but(old(self), n as int),
            final(self).released() == old(self).released(),
    {
        let ghost before = *self;
        let ghost mut retired: int = 0;
        proof {
            assert(before.partial_list(sc_idx as int).skip(0) =~= before.partial_list(sc_idx as int));
        }
        loop
            invariant
                before == *old(self),
                self.inv(),
                self.same_apfs(&before),
                1 <= sc_idx < MAX_SZ_IDX,
                n < self.num_bins(),
                n % MAX_SZ_IDX == sc_idx,
                self.cache(n as int).len() == 0,
                self.has_partial(sc_idx as int) == before.has_partial(sc_idx as int),
                self.first_partial(sc_idx as int) == before.first_partial(sc_idx as int),
                self.has_partial(sc_idx as int) ==> self.held(self.first_partial(sc_idx as int))
                    == before.held(before.first_partial(sc_idx as int)) && self.descriptors()[self.first_partial(sc_idx as int)] == before.descriptors()[before.first_partial(sc_idx as int)],
                Self::spec_retired_onto(self.pool(), self.leading_empties(sc_idx as int))
                    == Self::spec_retired_onto(before.pool(), before.leading_empties(sc_idx as int)),
                0 <= retired <= before.leading_empties(sc_idx as int).len(),
                retired <= before.partial_list(sc_idx as int).len(),
                self.leading_empties(sc_idx as int).len() + retired == before.leading_empties(
                    sc_idx as int,
                ).len(),
                self.partial_list(sc_idx as int) == before.partial_list(sc_idx as int).skip(retired),
                self.same_partial_lists_but(&before, sc_idx as int),
                (self.pool().len() > 0 || self.partial_list(sc_idx as int).len() > 0) == (
                before.pool().len() > 0 || before.partial_list(sc_idx as int).len() > 0),
                self.descriptors().dom() == before.descriptors().dom(),
                self.same_users(&before),
                self.same_pages(&before),
                self.same_caches_but(&before, n as int),
                self.released() == before.released(),
            decreases self.partial_list(sc_idx as int).len(),
        {
            let ghost here = *self;
            let ghost list = self.partial_list(sc_idx as int);
            let head: usize = self.heaps[sc_idx].get_partial_list().get_desc();
            if head == 0 {
                proof {
                    if list.len() > 0 {
                        assert(self.heaps@[sc_idx as int].partial_entry_ok(&self.table, 0));
                    }
                    assert(self.leading_empties(sc_idx as int).len() == 0);
                }
                return 0;
            }
            proof {
                assert(list.len() > 0 && list[0] == head);
                assert(self.listed_inv(sc_idx as int, 0));
            }
            let state: u32 = self.table.get(head).get_anchor().state();
            if state == SbState::Empty.code() {
                self.retire_empty(sc_idx);
                proof {
                    let after = *self;
                    assert(here.listed_state(sc_idx as int, 0) == 2);
                    assert forall|i: int| 0 <= i < after.partial_list(sc_idx as int).len() implies after.listed_state(
                        sc_idx as int,
                        i,
                    ) == here.listed_state(sc_idx as int, i + 1) by {
                        assert(list[i + 1] != list[0]);
                        assert(here.listed_inv(sc_idx as int, i + 1));
                    }
                    if here.has_partial(sc_idx as int) {
                        let i = choose|i: int|
                            0 <= i < list.len() && #[trigger] here.listed_state(sc_idx as int, i) != 2;
                        assert(after.listed_state(sc_idx as int, i - 1) != 2);
                    }
                    if after.has_partial(sc_idx as int) {
                        let i = choose|i: int|
                            0 <= i < after.partial_list(sc_idx as int).len()
                                && #[trigger] after.listed_state(sc_idx as int, i) != 2;
                        assert(here.listed_state(sc_idx as int, i + 1) != 2);
                    }
                    // the first superblock with free blocks is the same, with the same blocks
                    let rest = list.skip(1);
                    assert forall|i: int| 0 <= i < rest.len() implies after.descriptors()[#[trigger] rest[i]]
                        == here.descriptors()[rest[i]] by {
                        assert(rest[i] == list[i + 1]);
                        assert(list[i + 1] != list[0]);
                        assert(here.listed_inv(sc_idx as int, i + 1));
                    }
                    Self::lemma_first_partial_frame(rest, after.descriptors(), here.descriptors());
                    Self::lemma_leading_empties_frame(rest, after.descriptors(), here.descriptors());
                    let tail = Self::spec_leading_empties(rest, here.descriptors());
                    assert(here.leading_empties(sc_idx as int) == seq![list[0]] + tail);
                    assert((seq![list[0]] + tail).skip(1) =~= tail);
                    assert(after.leading_empties(sc_idx as int) == tail);
                    assert(list == before.partial_list(sc_idx as int).skip(retired));
                    assert(list.len() == before.partial_list(sc_idx as int).len() - retired);
                    assert(list.skip(1) =~= before.partial_list(sc_idx as int).skip(retired + 1));
                    retired = retired + 1;
                    if after.has_partial(sc_idx as int) {
                        here.lemma_first_partial_listed(sc_idx as int);
                        let fp = here.first_partial(sc_idx as int);
                        assert(here.listed_state(sc_idx as int, 0) == 2);
                        assert(fp != list[0]);
                        let j = choose|j: int| 0 <= j < list.len() && list[j] == fp;
                        assert(here.listed_inv(sc_idx as int, j));
                    }
                    assert forall|p: usize| here.live(p) implies after.spec_usable_size(p)
                        == here.spec_usable_size(p) by {
                        assert(here.block_inv(p));
                        assert(here.page_inv(spec_addr_to_key(p)));
                    }
                }
            } else {
                proof {
                    assert(here.listed_state(sc_idx as int, 0) != 2);
                    assert(here.first_partial(sc_idx as int) == list[0]);
                    assert(here.leading_empties(sc_idx as int).len() == 0);
                    assert(list == before.partial_list(sc_idx as int).skip(retired));
                    assert(list.len() == before.partial_list(sc_idx as int).len() - retired);
                    assert(list.skip(1) =~= before.partial_list(sc_idx as int).skip(retired + 1));
                    assert(here.has_partial(sc_idx as int));
                }
                let taken = self.take_partial(sc_idx, n);
                proof {
                    let after = *self;
                    assert forall|p: usize| here.live(p) implies after.spec_usable_size(p)
                        == here.spec_usable_size(p) by {
                        assert(here.block_inv(p));
                        assert(here.page_inv(spec_addr_to_key(p)));
                    }
                }
                return taken as usize;
            }
        }
    }
}

impl R3Malloc {
    /// Whether the region of `size` bytes at `base` can become a superblock
    /// or a large block: it is well placed, and no page of it is filed in
    /// the page map.
    pub open spec fn accepts_region(&self, base: usize, size: int) -> bool {
        &&& spec_region_ok(base, size)
        &&& forall|k: u64|
            spec_key_in(k, base, size) ==> (#[trigger] self.page_entry(k)).spec_get_desc() == 0
    }

    /// Whether the block of fresh pages at `base` can hold descriptors.
    pub closed spec fn accepts_descriptors(&self, base: usize) -> bool {
        self.table.accepts(base)
    }

    /// Whether a descriptor can be had: from the pool, or from the block of
    /// fresh pages at `fresh`.
    pub open spec fn can_get_descriptor(&self, fresh: usize) -> bool {
        self.pool().len() > 0 || self.accepts_descriptors(fresh)
    }

    /// Whether the region of `size` bytes at `base` can become a superblock
    /// or a large block.
    fn region_is_new(&self, base: usize, size: usize) -> (r: bool)
        ensures
            r == self.accepts_region(base, size as int),
    {
        if !region_ok(base, size) {
            return false;
        }
        let r = self.pagemap.range_is_empty(base, size);
        proof {
            if r {
                assert forall|k: u64| spec_key_in(k, base, size as int) implies (#[trigger] self.page_entry(
                    k,
                )).spec_get_desc() == 0 by {
                    assert(self.pagemap.entry(k).spec_get_desc() == 0);
                }
            } else {
                if self.accepts_region(base, size as int) {
                    assert forall|k: u64| spec_key_in(k, base, size as int) implies (#[trigger] self.pagemap.entry(
                        k,
                    )).spec_get_desc() == 0 by {
                        assert(self.page_entry(k).spec_get_desc() == 0);
                    }
                }
            }
        }
        r
    }

    /// A block with a holder lies in no region that the page map does not
    /// know.
    proof fn lemma_known_block_outside(&self, b: usize, base: usize, size: int)
        requires
            self.inv(),
            self.owners().contains_key(b),
            self.accepts_region(base, size),
        ensures
            b < base || b >= base + size,
    {
        assert(self.block_inv(b));
        crate::pagemap::lemma_key_is_page_number(b);
        if base <= b < base + size {
            assert(spec_key_in(spec_addr_to_key(b), base, size));
        }
    }

    /// What making a superblock of class `sc_idx` of the fresh pages at
    /// `pages` leaves behind: its descriptor, taken from the top of the pool
    /// or cut from the block at `fresh`, names the class, the pages and the
    /// sizes; the superblock is full, with no free block of its own; and the
    /// partial lists are as they were.
    pub open spec fn new_superblock(
        &self,
        before: &R3Malloc,
        sc_idx: int,
        fresh: usize,
        pages: usize,
    ) -> bool {
        let d = self.page_info(pages).spec_get_desc();
        let desc = self.descriptors()[d];
        let sc = before.classes().class(sc_idx);
        &&& d == if before.pool().len() > 0 {
            before.pool()[0]
        } else {
            fresh
        }
        &&& self.pool() == if before.pool().len() > 0 {
            before.pool().skip(1)
        } else {
            DescriptorTable::carved_list(fresh)
        }
        &&& self.descriptors().contains_key(d)
        &&& desc.spec_get_heap() == sc_idx
        &&& desc.spec_get_block_size() == sc.spec_get_block_size()
        &&& desc.spec_get_maxcount() == sc.spec_get_block_num()
        &&& desc.spec_get_superblock() == pages
        &&& desc.spec_get_anchor().spec_state() == 0
        &&& desc.spec_get_anchor().spec_avail() == sc.spec_get_block_num()
        &&& desc.spec_get_anchor().spec_count() == 0
        &&& self.held(d) == Seq::<usize>::empty()
        &&& forall|c: int| 0 <= c < MAX_SZ_IDX ==> self.partial_list(c) == before.partial_list(c)
        &&& forall|o: usize|
            o != d && before.descriptors().contains_key(o) ==> self.descriptors()[o]
                == before.descriptors()[o]
        &&& forall|k: u64|
            self.page_entry(k).spec_get_desc() == if spec_key_in(
                k,
                pages,
                sc.spec_get_sb_size() as int,
            ) {
                d
            } else {
                before.page_entry(k).spec_get_desc()
            }
    }

    /// Fills the empty cache with index `n` with the blocks of a new
    /// superblock of class `sc_idx`, made of the fresh pages at `pages`. Its
    /// descriptor comes from the pool, or from the block of fresh pages at
    /// `fresh_descriptors` if the pool is empty. The result is the number of
    /// blocks, 0 if the pages cannot be used or no descriptor can be had;
    /// nothing has changed then.
    fn malloc_from_new_sb(
        &mut self,
        sc_idx: usize,
        n: usize,
        fresh_descriptors: usize,
        pages: usize,
    ) -> (taken: usize)
        requires
            old(self).inv(),
            1 <= sc_idx < MAX_SZ_IDX,
            n < old(self).num_bins(),
            n % MAX_SZ_IDX == sc_idx,
            old(self).cache(n as int).len() == 0,
        ensures
            final(self).inv(),
            final(self).same_apfs(old(self)),
            taken == final(self).cache(n as int).len(),
            (taken > 0) == (old(self).accepts_region(
                pages,
                old(self).classes().class(sc_idx as int).spec_get_sb_size() as int,
            ) && old(self).can_get_descriptor(fresh_descriptors)),
            taken > 0 ==> taken == old(self).classes().class(sc_idx as int).spec_get_block_num(),
            taken > 0 ==> final(self).cache(n as int) == Seq::new(
                old(self).classes().class(sc_idx as int).spec_get_block_num() as nat,
                |i: int|
                    spec_block_addr(
                        pages,
                        old(self).classes().class(sc_idx as int).spec_get_block_size(),
                        i,
                    ),
            ),
            taken > 0 ==> final(self).new_superblock(old(self), sc_idx as int, fresh_descriptors, pages),
            taken == 0 ==> final(self).same_descriptors(old(self)) && final(self).owners() == old(self).owners(),
            taken == 0 ==> final(self).same_pages(old(self)),
            final(self).same_users(old(self)),
            final(self).same_caches_but(old(self), n as int),
            final(self).released() == old(self).released(),
    {
        let ghost before = *self;
        let sc = self.classes.get(sc_idx);
        let sb_size: usize = sc.get_sb_size() as usize;
        let block_size: u32 = sc.get_block_size();
        let maxcount: u32 = sc.get_block_num();
        proof {
            assert(before.classes().class_follows_schedule(sc_idx as int));
            assert(before.cache_inv(n as int));
        }
        if !self.region_is_new(pages, sb_size) {
            return 0;
        }
        if self.table.is_empty() && !self.table.can_accept(fresh_descriptors) {
            return 0;
        }
        let d = Descriptor::allocate(&mut self.table, fresh_descriptors);
        let ghost mid = *self;
        proof {
            if before.table.free_list().len() > 0 {
                assert(before.table.free_entry_ok(0));
            }
        }
        let mut desc = self.table.get(d);
        desc.set_heap(sc_idx);
        desc.set_block_size(block_size);
        desc.set_maxcount(maxcount);
        desc.set_superblock(pages);
        let mut anchor = Anchor::new();
        anchor.set_avail(maxcount);
        anchor.set_count(0);
        anchor.set_state(SbState::Full.code());
        desc.set_anchor(anchor);
        self.table.put(d, desc);
        self.memory.thread(pages, block_size, maxcount);
        let mut bin = self.bins[n];
        bin.push_list(pages, maxcount);
        self.bins.set(n, bin);
        let mut info = PageInfo::new();
        proof {
            crate::heap::lemma_aligned_mask(d);
        }
        info.set_desc(d, sc_idx);
        self.pagemap.set_range(info, pages, sb_size);
        let ghost chain = Seq::new(maxcount as nat, |i: int| spec_block_addr(pages, block_size, i));
        proof {
            let old_owner = self.owner@;
            self.owner = Ghost(
                Map::new(
                    |b: usize|
                        old_owner.contains_key(b) || (pages <= b < pages + sb_size && (b - pages) % (
                        block_size as int) == 0),
                    |b: usize|
                        if old_owner.contains_key(b) {
                            old_owner[b]
                        } else {
                            Owner::Cache(n as int)
                        },
                ),
            );
            self.chains = Ghost(self.chains@.update(n as int, chain));
            self.held = Ghost(self.held@.insert(d, Seq::empty()));
        }
        proof {
            let after = *self;
            crate::memory::lemma_block_offsets(maxcount - 1, maxcount as int, block_size as int);
            assert forall|a: usize| a < pages || a >= pages + maxcount * block_size implies #[trigger] after.memory.spec_read(
                a,
            ) == before.memory.spec_read(a) by {}
            Self::lemma_new_sb(&before, &mid, &after, sc_idx, n, fresh_descriptors, pages, d);
        }
        maxcount as usize
    }

    /// The invariant holds after a new superblock was made.
    proof fn lemma_new_sb(
        before: &R3Malloc,
        mid: &R3Malloc,
        after: &R3Malloc,
        sc_idx: usize,
        n: usize,
        fresh: usize,
        pages: usize,
        d: usize,
    )
        requires
            before.inv(),
            1 <= sc_idx < MAX_SZ_IDX,
            n < before.num_bins(),
            n % MAX_SZ_IDX == sc_idx,
            before.cache(n as int).len() == 0,
            before.accepts_region(
                pages,
                before.classes().class(sc_idx as int).spec_get_sb_size() as int,
            ),
            d != 0,
            // the descriptor was handed out
            mid.table.wf(),
            before.table.free_list().len() > 0 ==> {
                &&& d == before.table.free_list()[0]
                &&& mid.table.free_list() == before.table.free_list().skip(1)
                &&& mid.table@ == before.table@
            },
            before.table.free_list().len() == 0 ==> {
                &&& before.table.accepts(fresh)
                &&& d == fresh
                &&& mid.table.free_list() == DescriptorTable::carved_list(fresh)
                &&& mid.table.extends(before.table, fresh)
            },
            mid.table@.contains_key(d),
            !mid.table.free_list().contains(d),
            // and filled in
            after.table@ == mid.table@.insert(d, after.table@[d]),
            after.table.free_list() == mid.table.free_list(),
            after.table.avail_node() == mid.table.avail_node(),
            ({
                let desc = after.table@[d];
                let sc = before.classes().class(sc_idx as int);
                &&& desc.spec_get_heap() == sc_idx
                &&& desc.spec_get_block_size() == sc.spec_get_block_size()
                &&& desc.spec_get_maxcount() == sc.spec_get_block_num()
                &&& desc.spec_get_superblock() == pages
                &&& desc.spec_get_anchor().spec_state() == 0
                &&& desc.spec_get_anchor().spec_count() == 0
                &&& desc.spec_get_anchor().spec_avail() == sc.spec_get_block_num()
                &&& desc.spec_get_next_partial() == mid.table@[d].spec_get_next_partial()
                &&& desc.spec_get_next_free() == mid.table@[d].spec_get_next_free()
            }),
            // the rest of the parts
            after.classes == before.classes,
            after.heaps == before.heaps,
            after.apfs == before.apfs,
            after.released == before.released,
            after.bins@ == before.bins@.update(n as int, after.bins@[n as int]),
            after.bins@[n as int].spec_peek_block() == pages,
            after.bins@[n as int].spec_get_block_num() == before.classes().class(
                sc_idx as int,
            ).spec_get_block_num(),
            forall|j: int|
                0 <= j < before.classes().class(sc_idx as int).spec_get_block_num() - 1
                    ==> #[trigger] after.memory.threaded_at(
                    pages,
                    before.classes().class(sc_idx as int).spec_get_block_size(),
                    j,
                ),
            forall|a: usize|
                a < pages || a >= pages + before.classes().class(sc_idx as int).spec_get_block_num()
                    * before.classes().class(sc_idx as int).spec_get_block_size()
                    ==> #[trigger] after.memory.spec_read(a) == before.memory.spec_read(a),
            forall|k: u64|
                #[trigger] after.pagemap.entry(k) == if spec_key_in(
                    k,
                    pages,
                    before.classes().class(sc_idx as int).spec_get_sb_size() as int,
                ) {
                    after.pagemap.entry((pages as int / 4096) as u64)
                } else {
                    before.pagemap.entry(k)
                },
            after.pagemap.entry((pages as int / 4096) as u64).spec_get_desc() == d,
            after.pagemap.entry((pages as int / 4096) as u64).spec_get_sc_idx() == sc_idx,
            after.owner@ == Map::new(
                |b: usize|
                    before.owner@.contains_key(b) || (pages <= b < pages + before.classes().class(
                        sc_idx as int,
                    ).spec_get_sb_size() && (b - pages) % (before.classes().class(
                        sc_idx as int,
                    ).spec_get_block_size() as int) == 0),
                |b: usize|
                    if before.owner@.contains_key(b) {
                        before.owner@[b]
                    } else {
                        Owner::Cache(n as int)
                    },
            ),
            after.chains@ == before.chains@.update(
                n as int,
                Seq::new(
                    before.classes().class(sc_idx as int).spec_get_block_num() as nat,
                    |i: int|
                        spec_block_addr(
                            pages,
                            before.classes().class(sc_idx as int).spec_get_block_size(),
                            i,
                        ),
                ),
            ),
            after.held@ == before.held@.insert(d, Seq::empty()),
        ensures
            after.inv(),
            after.same_users(before),
            after.same_caches_but(before, n as int),
            after.cache(n as int).len() == before.classes().class(sc_idx as int).spec_get_block_num(),
            after.page_info(pages).spec_get_desc() == d,
            after.held(d) == Seq::<usize>::empty(),
            after.pool() == if before.pool().len() > 0 {
                before.pool().skip(1)
            } else {
                DescriptorTable::carved_list(fresh)
            },
            d == if before.pool().len() > 0 {
                before.pool()[0]
            } else {
                fresh
            },
            forall|c: int| 0 <= c < MAX_SZ_IDX ==> after.partial_list(c) == before.partial_list(c),
    {
        let sc = before.classes().class(sc_idx as int);
        let bs = sc.spec_get_block_size();
        let count = sc.spec_get_block_num();
        let size = sc.spec_get_sb_size() as int;
        let chain = after.cache(n as int);
        assert(before.classes().class_follows_schedule(sc_idx as int));
        assert(size == count * bs);
        crate::pagemap::lemma_key_is_page_number(pages);
        assert(spec_key_in(spec_addr_to_key(pages), pages, size));
        assert(after.page_entry(spec_addr_to_key(pages)) == after.pagemap.entry(
            (pages as int / 4096) as u64,
        ));
        // where the new blocks lie
        assert forall|i: int| 0 <= i < count implies {
            let b = #[trigger] spec_block_addr(pages, bs, i);
            &&& pages <= b < pages + size
            &&& (b - pages) % (bs as int) == 0
            &&& (b - pages) / (bs as int) == i
            &&& !before.owners().contains_key(b)
            &&& after.owners().contains_key(b)
            &&& after.owners()[b] == Owner::Cache(n as int)
            &&& spec_key_in(spec_addr_to_key(b), pages, size)
            &&& b < ADDRESS_LIMIT
        } by {
            let b = spec_block_addr(pages, bs, i);
            Self::lemma_block_place(pages, bs, count, i, size);
            crate::pagemap::lemma_key_is_page_number(b);
            if before.owners().contains_key(b) {
                before.lemma_known_block_outside(b, pages, size);
            }
        }
        // blocks that were known lie elsewhere and keep holder and word
        assert forall|a: usize| before.owners().contains_key(a) implies (a < pages || a >= pages
            + size) && after.owners().contains_key(a) && after.owners()[a] == before.owners()[a]
            && after.word(a) == before.word(a) && after.page_info(a) == before.page_info(a) by {
            before.lemma_known_block_outside(a, pages, size);
            assert(before.block_inv(a));
            crate::pagemap::lemma_key_is_page_number(a);
        }
        // the descriptor was not in use
        assert(!before.descriptors().contains_key(d) || before.descriptors()[d].spec_get_block_size()
            == 0) by {
            if before.table.free_list().len() > 0 {
                assert(before.table.free_entry_ok(0));
            } else {
                assert(d == crate::heap::spec_slot(fresh, 0));
            }
        }
        assert forall|o: usize| before.descriptors().contains_key(o) && o != d implies after.descriptors().contains_key(
            o,
        ) && after.descriptors()[o] == before.descriptors()[o] by {}
        // shape
        after.table.lemma_put_keeps_wf(mid.table, d);
        assert forall|c: int| 0 <= c < MAX_SZ_IDX implies (#[trigger] after.heaps@[c]).spec_get_sc_idx()
            == c && after.heaps@[c].wf(&after.table) by {
            let h = after.heaps@[c];
            assert(h.wf(&before.table));
            assert forall|i: int| 0 <= i < h.partial().len() implies {
                let e = #[trigger] h.partial()[i];
                &&& after.table@.contains_key(e)
                &&& after.table@[e].spec_get_heap() == before.table@[e].spec_get_heap()
                &&& after.table@[e].spec_get_next_partial() == before.table@[e].spec_get_next_partial()
            } by {
                assert(h.partial_entry_ok(&before.table, i));
                assert(before.listed_inv(c, i));
            }
            h.lemma_frame(&before.table, &after.table);
        }
        assert forall|m: int| 0 <= m < after.apfs@.len() implies (#[trigger] after.apfs@[m])@.reuse.wf() by {}
        assert(after.shape_inv());
        // descriptors
        assert forall|o: usize| after.descriptors().contains_key(o) implies #[trigger] after.desc_inv(
            o,
        ) by {
            if o == d {
                assert(!after.pool().contains(d));
                assert(after.span(d) == size);
                assert forall|j: int| 0 <= j < after.span(d) / 4096 implies #[trigger] after.page_filed(
                    d,
                    j,
                ) by {
                    assert(spec_key_in((pages as int / 4096 + j) as u64, pages, size));
                }
                assert forall|i: int| 0 <= i < count implies #[trigger] after.block_known(d, i) by {
                    let b = spec_block_addr(pages, bs, i);
                    assert(after.owners().contains_key(b));
                }
                assert(after.held(d).len() == 0);
                if after.partial_list(sc_idx as int).contains(d) {
                    let i = choose|i: int|
                        0 <= i < after.partial_list(sc_idx as int).len() && after.partial_list(
                            sc_idx as int,
                        )[i] == d;
                    assert(before.listed_inv(sc_idx as int, i));
                }
                assert(after.small_inv(d));
            } else if before.descriptors().contains_key(o) {
                assert(before.desc_inv(o));
                let x = before.descriptors()[o];
                if before.table.free_list().len() > 0 {
                    Self::lemma_skip_contains(before.pool(), o);
                    assert(before.pool().no_duplicates());
                } else {
                    if after.pool().contains(o) {
                        let i = choose|i: int|
                            0 <= i < after.pool().len() && after.pool()[i] == o;
                        assert(o == crate::heap::spec_slot(fresh, i + 1));
                    }
                }
                if x.spec_get_block_size() != 0 {
                    if x.spec_get_heap() == 0 {
                        assert(before.large_inv(o));
                    } else {
                        assert(before.small_inv(o));
                    }
                    if x.spec_get_heap() == 0 || x.spec_get_anchor().spec_state() != 2 {
                        assert forall|j: int| 0 <= j < before.span(o) / 4096 implies #[trigger] after.page_entry(
                            (x.spec_get_superblock() as int / 4096 + j) as u64,
                        ) == before.page_entry(
                            (x.spec_get_superblock() as int / 4096 + j) as u64,
                        ) by {
                            assert(before.page_filed(o, j));
                        }
                    }
                }
                assert forall|a: usize|
                    before.owners().contains_key(a) && before.owners()[a] == Owner::Superblock(
                        o,
                    ) implies #[trigger] Self::kept(before, after, a, Owner::Superblock(o)) by {}
                assert forall|i: int|
                    0 <= i < x.spec_get_maxcount() && before.block_known(o, i) implies #[trigger] after.block_known(
                    o,
                    i,
                ) by {}
                Self::lemma_desc_frame(before, after, o);
            } else {
                // cut from the fresh block, and still in the pool
                assert(mid.table@.contains_key(o) && !before.table@.contains_key(o));
                assert(after.table@[o] == mid.table@[o]);
                assert(after.table@[o].spec_get_block_size() == 0);
                let j = (o - fresh) / 64;
                assert(o % 64 == 0 && fresh % 64 == 0) by {
                    assert(fresh as int == 4096 * (fresh as int / 4096));
                }
                assert(o == fresh + 64 * j);
                assert(after.pool()[j - 1] == crate::heap::spec_slot(fresh, j));
                assert(after.pool().contains(o));
            }
        }
        assert forall|c: int, i: int|
            0 <= c < MAX_SZ_IDX && 0 <= i < after.partial_list(c).len() implies #[trigger] after.listed_inv(
            c,
            i,
        ) by {
            assert(before.listed_inv(c, i));
        }
        assert forall|key: u64| #[trigger] after.page_inv(key) by {
            assert(before.page_inv(key));
            if !spec_key_in(key, pages, size) {
                Self::lemma_page_frame(before, after, key);
            }
        }
        assert forall|b: usize| after.owners().contains_key(b) implies #[trigger] after.block_inv(
            b,
        ) by {
            if before.owners().contains_key(b) {
                assert(before.block_inv(b));
                assert(before.page_inv(spec_addr_to_key(b)));
                Self::lemma_block_frame(before, after, b);
            } else {
                crate::pagemap::lemma_key_is_page_number(b);
                assert(spec_key_in(spec_addr_to_key(b), pages, size));
                let off = b - pages;
                let i = off / (bs as int);
                vstd::arithmetic::div_mod::lemma_fundamental_div_mod(off, bs as int);
                assert(off == i * bs) by (nonlinear_arith)
                    requires
                        off == bs * i + 0,
                ;
                assert(0 <= i < count) by (nonlinear_arith)
                    requires
                        0 <= i * bs < count * bs,
                        bs > 0,
                ;
                Self::lemma_block_place(pages, bs, count, i, size);
                assert(chain[i] == spec_block_addr(pages, bs, i));
                assert(chain[i] == b);
            }
        }
        assert forall|m: int| 0 <= m < after.num_bins() implies #[trigger] after.cache_inv(m) by {
            assert(before.cache_inv(m));
            if m == n {
                assert forall|i: int| 0 <= i < chain.len() implies #[trigger] after.owned_by(
                    chain,
                    i,
                    Owner::Cache(m),
                ) by {
                    assert(chain[i] == spec_block_addr(pages, bs, i));
                }
                assert forall|i: int| 0 <= i < chain.len() - 1 implies #[trigger] after.link_ok(
                    chain,
                    i,
                ) by {
                    assert(after.memory.threaded_at(pages, bs, i));
                }
                assert forall|i: int, j: int| 0 <= i < j < chain.len() implies chain[i] != chain[j] by {
                    assert(chain[i] == spec_block_addr(pages, bs, i));
                    assert(chain[j] == spec_block_addr(pages, bs, j));
                }
                assert(chain[0] == spec_block_addr(pages, bs, 0));
                Self::lemma_block_place(pages, bs, count, 0, size);
            } else {
                assert forall|a: usize|
                    before.owners().contains_key(a) && before.owners()[a] == Owner::Cache(
                        m,
                    ) implies #[trigger] Self::kept(before, after, a, Owner::Cache(m)) by {}
                Self::lemma_cache_frame(before, after, m);
            }
        }
        assert forall|p: usize| after.live(p) == before.live(p) by {}
        assert forall|p: usize| before.live(p) implies after.page_info(p) == before.page_info(p)
            && after.spec_usable_size(p) == before.spec_usable_size(p) by {
            assert(before.block_inv(p));
            assert(before.page_inv(spec_addr_to_key(p)));
        }
    }

    /// What holds of a descriptor still holds after a change that leaves
    /// alone the descriptor, its place on the lists, its pages and the
    /// blocks that its superblock owns.
    pub proof fn lemma_desc_frame(before: &R3Malloc, after: &R3Malloc, d: usize)
        requires
            before.descriptors().contains_key(d),
            after.descriptors().contains_key(d),
            before.desc_inv(d),
            after.classes() == before.classes(),
            after.descriptors()[d] == before.descriptors()[d],
            after.pool().contains(d) == before.pool().contains(d),
            after.held(d) == before.held(d),
            before.descriptors()[d].spec_get_block_size() != 0 && before.descriptors()[d].spec_get_heap()
                != 0 ==> after.partial_list(before.descriptors()[d].spec_get_heap() as int).contains(d)
                == before.partial_list(before.descriptors()[d].spec_get_heap() as int).contains(d),
            before.mapped(d) ==> forall|j: int|
                0 <= j < before.span(d) / 4096 ==> #[trigger] after.page_entry(
                    (before.descriptors()[d].spec_get_superblock() as int / 4096 + j) as u64,
                ) == before.page_entry(
                    (before.descriptors()[d].spec_get_superblock() as int / 4096 + j) as u64,
                ),
            before.mapped(d) ==> Self::keeps_blocks_of(before, after, Owner::Superblock(d)),
            before.mapped(d) && before.descriptors()[d].spec_get_heap() != 0 ==> forall|i: int|
                0 <= i < before.descriptors()[d].spec_get_maxcount() && before.block_known(d, i)
                    ==> #[trigger] after.block_known(d, i),
            before.descriptors()[d].spec_get_heap() == 0 && before.descriptors()[d].spec_get_block_size()
                != 0 ==> after.live(before.held(d)[0]) && after.page_info(before.held(d)[0])
                == before.page_info(before.held(d)[0]),
        ensures
            after.desc_inv(d),
    {
        let desc = after.descriptors()[d];
        if desc.spec_get_block_size() != 0 {
            assert(after.span(d) == before.span(d));
            if desc.spec_get_heap() == 0 {
                assert(before.large_inv(d));
                assert forall|j: int| 0 <= j < after.span(d) / 4096 implies #[trigger] after.page_filed(
                    d,
                    j,
                ) by {
                    assert(before.page_filed(d, j));
                }
            } else {
                assert(before.small_inv(d));
                if desc.spec_get_anchor().spec_state() != 2 {
                    assert forall|j: int| 0 <= j < after.span(d) / 4096 implies #[trigger] after.page_filed(
                        d,
                        j,
                    ) by {
                        assert(before.page_filed(d, j));
                    }
                    let chain = after.held(d);
                    assert forall|i: int| 0 <= i < chain.len() implies #[trigger] after.owned_by(
                        chain,
                        i,
                        Owner::Superblock(d),
                    ) by {
                        assert(before.owned_by(chain, i, Owner::Superblock(d)));
                        assert(Self::kept(before, after, chain[i], Owner::Superblock(d)));
                    }
                    assert forall|i: int| 0 <= i < chain.len() - 1 implies #[trigger] after.link_ok(
                        chain,
                        i,
                    ) by {
                        assert(before.link_ok(chain, i));
                        assert(before.owned_by(chain, i, Owner::Superblock(d)));
                        assert(Self::kept(before, after, chain[i], Owner::Superblock(d)));
                    }
                    assert forall|i: int| 0 <= i < desc.spec_get_maxcount() implies #[trigger] after.block_known(
                        d,
                        i,
                    ) by {
                        assert(before.block_known(d, i));
                    }
                }
            }
        }
    }
}

impl R3Malloc {
    /// Whether a block of fresh pages can hold descriptors depends on the
    /// addresses of the descriptors alone.
    pub proof fn lemma_accepts_descriptors(&self, other: &R3Malloc, base: usize)
        requires
            self.descriptors().dom() == other.descriptors().dom(),
        ensures
            self.accepts_descriptors(base) == other.accepts_descriptors(base),
    {
        if self.table.accepts(base) {
            assert forall|i: int| 0 <= i < crate::heap::DESCRIPTORS_PER_BLOCK implies !other.table@.contains_key(
                #[trigger] crate::heap::spec_slot(base, i),
            ) by {
                assert(!self.table@.contains_key(crate::heap::spec_slot(base, i)));
                assert(other.table@.dom().contains(crate::heap::spec_slot(base, i))
                    == self.table@.dom().contains(crate::heap::spec_slot(base, i)));
            }
        }
        if other.table.accepts(base) {
            assert forall|i: int| 0 <= i < crate::heap::DESCRIPTORS_PER_BLOCK implies !self.table@.contains_key(
                #[trigger] crate::heap::spec_slot(base, i),
            ) by {
                assert(!other.table@.contains_key(crate::heap::spec_slot(base, i)));
                assert(other.table@.dom().contains(crate::heap::spec_slot(base, i))
                    == self.table@.dom().contains(crate::heap::spec_slot(base, i)));
            }
        }
    }

    /// Whether filling a cache of class `sc_idx` takes fresh pages: no
    /// superblock with free blocks is on the partial list.
    pub open spec fn fill_wants_pages(&self, sc_idx: int) -> bool {
        !self.has_partial(sc_idx)
    }

    /// Whether filling a cache of class `sc_idx` takes a fresh block for
    /// descriptors: a new superblock is to be made, the pool is empty, and
    /// the partial list holds no descriptor that could be retired.
    pub open spec fn fill_wants_descriptors(&self, sc_idx: int) -> bool {
        self.fill_wants_pages(sc_idx) && self.pool().len() == 0 && self.partial_list(sc_idx).len()
            == 0
    }

    /// Whether a cache of class `sc_idx` can be filled with the fresh
    /// regions on offer.
    pub open spec fn can_fill(&self, sc_idx: int, fresh_descriptors: usize, pages: usize) -> bool {
        &&& self.fill_wants_pages(sc_idx) ==> self.accepts_region(
            pages,
            self.classes().class(sc_idx).spec_get_sb_size() as int,
        )
        &&& self.fill_wants_descriptors(sc_idx) ==> self.accepts_descriptors(fresh_descriptors)
    }

    /// Fills the empty cache with index `n`: from a superblock on the
    /// partial list of its class `sc_idx`, or else from a new superblock
    /// made of the fresh pages at `pages`. The result is the number of
    /// blocks in the cache: 0 if there was no superblock with free blocks
    /// and a new one could not be made.
    fn fill_cache(&mut self, sc_idx: usize, n: usize, fresh_descriptors: usize, pages: usize) -> (r: (
        usize,
        bool,
        bool,
    ))
        requires
            old(self).inv(),
            1 <= sc_idx < MAX_SZ_IDX,
            n < old(self).num_bins(),
            n % MAX_SZ_IDX == sc_idx,
            old(self).cache(n as int).len() == 0,
        ensures
            final(self).inv(),
            final(self).same_apfs(old(self)),
            r.0 == final(self).cache(n as int).len(),
            (r.0 > 0) == old(self).can_fill(sc_idx as int, fresh_descriptors, pages),
            r.0 > 0 ==> final(self).cache(n as int) == old(self).filling(sc_idx as int, pages),
            r.0 > 0 ==> final(self).filled_from(old(self), sc_idx as int, fresh_descriptors),
            r.0 == 0 ==> final(self).fill_wants_pages(sc_idx as int) && final(self).fill_wants_descriptors(sc_idx as int) == old(self).fill_wants_descriptors(sc_idx as int),
            r.1 == old(self).fill_wants_pages(sc_idx as int),
            r.2 == old(self).fill_wants_descriptors(sc_idx as int),
            final(self).same_users(old(self)),
            final(self).same_caches_but(old(self), n as int),
            final(self).released() == old(self).released(),
            r.0 == 0 ==> final(self).same_pages(old(self)) && final(self).descriptors().dom()
                == old(self).descriptors().dom(),
    {
        let ghost before = *self;
        let mut block_num: usize = self.malloc_from_partial(sc_idx, n);
        let mut new_pages: bool = false;
        let mut new_descriptors: bool = false;
        if block_num == 0 {
            new_pages = true;
            new_descriptors = self.table.is_empty();
            let ghost mid = *self;
            proof {
                mid.lemma_accepts_descriptors(&before, fresh_descriptors);
                assert(mid.accepts_region(
                    pages,
                    mid.classes().class(sc_idx as int).spec_get_sb_size() as int,
                ) == before.accepts_region(
                    pages,
                    before.classes().class(sc_idx as int).spec_get_sb_size() as int,
                )) by {
                    let size = mid.classes().class(sc_idx as int).spec_get_sb_size() as int;
                    if mid.accepts_region(pages, size) {
                        assert forall|k: u64| spec_key_in(k, pages, size) implies (#[trigger] before.page_entry(
                            k,
                        )).spec_get_desc() == 0 by {
                            assert(mid.page_entry(k).spec_get_desc() == 0);
                        }
                    }
                    if before.accepts_region(pages, size) {
                        assert forall|k: u64| spec_key_in(k, pages, size) implies (#[trigger] mid.page_entry(
                            k,
                        )).spec_get_desc() == 0 by {
                            assert(before.page_entry(k).spec_get_desc() == 0);
                        }
                    }
                }
                assert(!mid.has_partial(sc_idx as int)) by {
                    assert(mid.partial_list(sc_idx as int).len() == 0);
                }
            }
            block_num = self.malloc_from_new_sb(sc_idx, n, fresh_descriptors, pages);
            proof {
                let after = *self;
                if block_num == 0 {
                    assert(!after.has_partial(sc_idx as int)) by {
                        assert(after.partial_list(sc_idx as int) == mid.partial_list(sc_idx as int));
                    }
                }
                assert forall|m: int| 0 <= m < after.num_bins() && m != n implies after.cache(m)
                    == before.cache(m) && after.bin(m) == before.bin(m) by {
                    assert(mid.cache(m) == before.cache(m));
                }
            }
        }
        (block_num, new_pages, new_descriptors)
    }
}

/// The number of blocks at the front of `chain`, from position `k` on and
/// at most `max` in all, that lie from `lo` up to `hi`.
pub open spec fn spec_run(chain: Seq<usize>, lo: int, hi: int, k: int, max: int) -> int
    decreases max - k,
{
    if k < max && lo <= chain[k] < hi {
        spec_run(chain, lo, hi, k + 1, max)
    } else {
        k
    }
}

impl R3Malloc {
    /// The descriptor of the superblock that holds the block on top of the
    /// cache with index `n`.
    pub open spec fn top_desc(&self, n: int) -> usize {
        self.page_info(self.cache(n)[0]).spec_get_desc()
    }

    /// The number of blocks on top of the cache with index `n`, at most
    /// `limit`, that lie in the superblock of the topmost.
    pub open spec fn run_length(&self, n: int, limit: int) -> int {
        let desc = self.descriptors()[self.top_desc(n)];
        let sb = desc.spec_get_superblock() as int;
        let max = if limit < self.cache(n).len() {
            limit
        } else {
            self.cache(n).len() as int
        };
        spec_run(self.cache(n), sb, sb + self.span(self.top_desc(n)), 1, max)
    }

    /// What holds of a block with a holder in a superblock: it is one of the
    /// blocks of the superblock, and the page map files it under the
    /// superblock's descriptor.
    proof fn lemma_block_facts(&self, b: usize)
        requires
            self.inv(),
            self.owners().contains_key(b),
            self.descriptors()[self.page_info(b).spec_get_desc()].spec_get_heap() != 0,
        ensures
            ({
                let d = self.page_info(b).spec_get_desc();
                let desc = self.descriptors()[d];
                let sb = desc.spec_get_superblock();
                let bs = desc.spec_get_block_size();
                let i = (b - sb) / (bs as int);
                &&& d != 0
                &&& self.descriptors().contains_key(d)
                &&& self.mapped(d)
                &&& self.small_inv(d)
                &&& desc.spec_get_anchor().spec_state() != 2
                &&& 0 <= i < desc.spec_get_maxcount()
                &&& b == spec_block_addr(sb, bs, i)
                &&& b == sb + i * bs
                &&& sb <= b < sb + self.span(d)
                &&& self.page_info(b).spec_get_sc_idx() == desc.spec_get_heap()
            }),
    {
        reveal(spec_block_addr);
        let d = self.page_info(b).spec_get_desc();
        let desc = self.descriptors()[d];
        let sb = desc.spec_get_superblock();
        let bs = desc.spec_get_block_size();
        assert(self.block_inv(b));
        assert(self.page_inv(spec_addr_to_key(b)));
        assert(self.desc_inv(d));
        assert(self.small_inv(d));
        let sc = self.classes().class(desc.spec_get_heap() as int);
        assert(self.classes().class_follows_schedule(desc.spec_get_heap() as int));
        crate::pagemap::lemma_key_is_page_number(b);
        let size = self.span(d);
        assert(b < sb + size);
        let off = b - sb;
        let i = off / (bs as int);
        vstd::arithmetic::div_mod::lemma_fundamental_div_mod(off, bs as int);
        assert(off == i * bs) by (nonlinear_arith)
            requires
                off == bs * i + 0,
        ;
        assert(i < desc.spec_get_maxcount()) by (nonlinear_arith)
            requires
                i * bs < desc.spec_get_maxcount() * bs,
                bs > 0,
        ;
        assert(0 <= i) by (nonlinear_arith)
            requires
                i * bs >= 0,
                bs > 0,
        ;
    }

    /// Distinct blocks of one superblock are no more than the superblock
    /// has, and if they are as many, they are all blocks of the superblock
    /// that have a holder.
    proof fn lemma_count_blocks(&self, d: usize, s: Seq<usize>)
        requires
            self.inv(),
            self.descriptors().contains_key(d),
            self.descriptors()[d].spec_get_heap() != 0,
            s.no_duplicates(),
            forall|i: int|
                0 <= i < s.len() ==> self.owners().contains_key(#[trigger] s[i]) && self.page_info(
                    s[i],
                ).spec_get_desc() == d,
        ensures
            s.len() <= self.descriptors()[d].spec_get_maxcount(),
            s.len() == self.descriptors()[d].spec_get_maxcount() ==> forall|b: usize|
                self.owners().contains_key(b) && self.page_info(b).spec_get_desc() == d ==> s.contains(
                    b,
                ),
    {
        let desc = self.descriptors()[d];
        let sb = desc.spec_get_superblock();
        let bs = desc.spec_get_block_size();
        let n = desc.spec_get_maxcount() as int;
        let t = Seq::new(s.len(), |i: int| (s[i] - sb) / (bs as int));
        assert forall|i: int| 0 <= i < t.len() implies 0 <= #[trigger] t[i] < n by {
            self.lemma_block_facts(s[i]);
        }
        assert forall|i: int, j: int| 0 <= i < j < t.len() implies t[i] != t[j] by {
            self.lemma_block_facts(s[i]);
            self.lemma_block_facts(s[j]);
        }
        crate::counting::lemma_pigeonhole(t, n);
        if s.len() == n {
            assert forall|b: usize|
                self.owners().contains_key(b) && self.page_info(b).spec_get_desc() == d implies s.contains(
                b,
            ) by {
                self.lemma_block_facts(b);
                let v = (b - sb) / (bs as int);
                assert(t.contains(v));
                let i = choose|i: int| 0 <= i < t.len() && t[i] == v;
                self.lemma_block_facts(s[i]);
                assert(s[i] == b);
            }
        }
    }

    /// An address within the region of a mapped descriptor is filed under
    /// it.
    proof fn lemma_in_region_filed(&self, d: usize, a: usize)
        requires
            self.inv(),
            self.descriptors().contains_key(d),
            self.mapped(d),
            self.descriptors()[d].spec_get_superblock() <= a < self.descriptors()[d].spec_get_superblock()
                + self.span(d),
        ensures
            self.page_info(a).spec_get_desc() == d,
            self.page_info(a).spec_get_sc_idx() == self.descriptors()[d].spec_get_heap(),
            a < ADDRESS_LIMIT,
    {
        let desc = self.descriptors()[d];
        let sb = desc.spec_get_superblock();
        assert(self.desc_inv(d));
        if desc.spec_get_heap() == 0 {
            assert(self.large_inv(d));
        } else {
            assert(self.small_inv(d));
        }
        assert(self.region_filed(d));
        crate::pagemap::lemma_key_is_page_number(a);
        let j = a as int / 4096 - sb as int / 4096;
        assert(0 <= j < self.span(d) / 4096);
        assert(self.page_filed(d, j));
    }
}

impl R3Malloc {
    /// What the two ways of giving a run of blocks back have in common: the
    /// `k` blocks on top of the cache with index `n` lie in the superblock
    /// of the topmost; they leave the cache; the last of them is linked to
    /// the block that was the first free one of the superblock; and the
    /// descriptor at `d` gets a new anchor.
    pub open spec fn run_moved(before: &R3Malloc, after: &R3Malloc, n: int, k: int) -> bool {
        let chain = before.cache(n);
        let d = before.top_desc(n);
        let desc = before.descriptors()[d];
        let x = after.descriptors()[d];
        let sb = desc.spec_get_superblock();
        &&& 0 <= n < before.num_bins()
        &&& 1 <= k <= chain.len()
        &&& forall|i: int| 0 <= i < k ==> sb <= #[trigger] chain[i] < sb + before.span(d)
        &&& after.classes() == before.classes()
        &&& after.descriptors() == before.descriptors().insert(d, x)
        &&& x.spec_get_heap() == desc.spec_get_heap()
        &&& x.spec_get_block_size() == desc.spec_get_block_size()
        &&& x.spec_get_maxcount() == desc.spec_get_maxcount()
        &&& x.spec_get_superblock() == desc.spec_get_superblock()
        &&& after.pool() == before.pool()
        &&& forall|a: usize| a != chain[k - 1] ==> after.word(a) == before.word(a)
        &&& after.word(chain[k - 1]) == spec_block_addr(
            sb,
            desc.spec_get_block_size(),
            desc.spec_get_anchor().spec_avail() as int,
        )
        &&& after.same_caches_but(before, n)
        &&& after.bin(n).spec_get_block_num() == chain.len() - k
        &&& after.bin(n).spec_peek_block() == before.word(chain[k - 1])
        &&& after.cache(n) == chain.skip(k)
        &&& forall|o: usize| o != d ==> after.held(o) == before.held(o)
    }

    /// What giving a run of `k` blocks back does where the superblock keeps
    /// its pages: the run lies in front of the superblock's chain, the
    /// anchor names the head of the run and counts the run in, the state is
    /// partial, and a superblock that was full is on the partial list of its
    /// heap now.
    pub open spec fn run_stays(before: &R3Malloc, after: &R3Malloc, n: int, k: int) -> bool {
        let chain = before.cache(n);
        let d = before.top_desc(n);
        let desc = before.descriptors()[d];
        let x = after.descriptors()[d];
        let run = chain.subrange(0, k);
        &&& after.same_pages(before)
        &&& after.released() == before.released()
        &&& x.spec_get_anchor().spec_state() == 1
        &&& x.spec_get_anchor().spec_count() == desc.spec_get_anchor().spec_count() + k
        &&& x.spec_get_anchor().spec_avail() == (chain[0] - desc.spec_get_superblock()) / (
        desc.spec_get_block_size() as int)
        &&& forall|c: int|
            0 <= c < MAX_SZ_IDX && c != desc.spec_get_heap() ==> after.partial_list(c)
                == before.partial_list(c)
        &&& after.partial_list(desc.spec_get_heap() as int) == if desc.spec_get_anchor().spec_state()
            == 0 {
            seq![d] + before.partial_list(desc.spec_get_heap() as int)
        } else {
            before.partial_list(desc.spec_get_heap() as int)
        }
        &&& after.owners() == Map::new(
            |b: usize| before.owners().contains_key(b),
            |b: usize|
                if run.contains(b) {
                    Owner::Superblock(d)
                } else {
                    before.owners()[b]
                },
        )
        &&& after.held(d) == run + before.held(d)
    }

    /// What giving a run of `k` blocks back does where it completes the
    /// superblock: the state is empty, the count is one less than the
    /// superblock has blocks, the pages are out of the page map and put down
    /// for release, no block of the superblock has a holder, and the partial
    /// lists are as they were.
    pub open spec fn run_completes_it(before: &R3Malloc, after: &R3Malloc, n: int, k: int) -> bool {
        let d = before.top_desc(n);
        let desc = before.descriptors()[d];
        let x = after.descriptors()[d];
        let sb = desc.spec_get_superblock();
        &&& after.released() == before.released().push(before.top_region(n))
        &&& x.spec_get_anchor().spec_state() == 2
        &&& x.spec_get_anchor().spec_count() == desc.spec_get_maxcount() - 1
        &&& x.spec_get_anchor().spec_avail() == (before.cache(n)[0] - sb) / (
        desc.spec_get_block_size() as int)
        &&& forall|c: int| 0 <= c < MAX_SZ_IDX ==> after.partial_list(c) == before.partial_list(c)
        &&& forall|key: u64|
            after.page_entry(key) == if spec_key_in(key, sb, before.span(d)) {
                PageInfo::empty()
            } else {
                before.page_entry(key)
            }
        &&& after.owners() == Map::new(
            |b: usize| before.owners().contains_key(b) && !(sb <= b < sb + before.span(d)),
            |b: usize| before.owners()[b],
        )
    }

    /// What giving back the run of at most `limit` blocks on top of the cache
    /// with index `n` does.
    pub open spec fn run_returned(before: &R3Malloc, after: &R3Malloc, n: int, limit: int) -> bool {
        let k = before.run_length(n, limit);
        &&& Self::run_moved(before, after, n, k)
        &&& after.same_users(before)
        &&& after.same_apf_states(before)
        &&& if before.run_completes(n, limit) {
            Self::run_completes_it(before, after, n, k)
        } else {
            Self::run_stays(before, after, n, k)
        }
    }

    /// Whether `after` comes of `before` by giving back run after run from
    /// the top of the cache with index `n`.
    pub open spec fn runs_returned(before: &R3Malloc, after: &R3Malloc, n: int) -> bool
        decreases before.cache(n).len() - after.cache(n).len(),
    {
        ||| *after == *before
        ||| exists|mid: R3Malloc|
            {
                &&& after.cache(n).len() < mid.cache(n).len() <= before.cache(n).len()
                &&& mid.inv()
                &&& #[trigger] Self::run_returned(&mid, after, n, u32::MAX as int)
                &&& Self::runs_returned(before, &mid, n)
            }
    }

    /// The invariant holds after a run of blocks went back to a superblock
    /// that keeps its pages.
    proof fn lemma_run_kept(before: &R3Malloc, after: &R3Malloc, n: int, k: int)
        requires
            before.inv(),
            after.shape_inv(),
            Self::run_moved(before, after, n, k),
            after.same_pages(before),
            before.held(before.top_desc(n)).len() + k < before.descriptors()[before.top_desc(n)].spec_get_maxcount(),
            ({
                let chain = before.cache(n);
                let d = before.top_desc(n);
                let desc = before.descriptors()[d];
                let x = after.descriptors()[d];
                let run = chain.subrange(0, k);
                &&& x.spec_get_anchor().spec_state() == 1
                &&& x.spec_get_anchor().spec_count() == desc.spec_get_anchor().spec_count() + k
                &&& x.spec_get_anchor().spec_avail() == (chain[0] - desc.spec_get_superblock()) / (
                desc.spec_get_block_size() as int)
                &&& forall|c: int|
                    0 <= c < MAX_SZ_IDX && c != desc.spec_get_heap() ==> after.partial_list(c)
                        == before.partial_list(c)
                &&& after.partial_list(desc.spec_get_heap() as int) == if desc.spec_get_anchor().spec_state()
                    == 0 {
                    seq![d] + before.partial_list(desc.spec_get_heap() as int)
                } else {
                    before.partial_list(desc.spec_get_heap() as int)
                }
                &&& after.owners() == Map::new(
                    |b: usize| before.owners().contains_key(b),
                    |b: usize|
                        if run.contains(b) {
                            Owner::Superblock(d)
                        } else {
                            before.owners()[b]
                        },
                )
                &&& after.held(d) == run + before.held(d)
            }),
        ensures
            after.inv(),
            after.same_users(before),
    {
        let chain = before.cache(n);
        let d = before.top_desc(n);
        let desc = before.descriptors()[d];
        let x = after.descriptors()[d];
        let sb = desc.spec_get_superblock();
        let bs = desc.spec_get_block_size();
        let run = chain.subrange(0, k);
        let rest = chain.skip(k);
        let kept = before.held(d);
        let all = run + kept;
        let sc_idx = desc.spec_get_heap() as int;
        assert(before.cache_inv(n));
        assert(before.owned_by(chain, 0, Owner::Cache(n)));
        assert(before.block_inv(chain[0]));
        before.lemma_block_facts(chain[0]);
        assert(before.desc_inv(d));
        // the blocks of the run and of the rest
        assert forall|i: int| 0 <= i < chain.len() implies before.owners().contains_key(chain[i])
            && before.owners()[chain[i]] == Owner::Cache(n) && run.contains(chain[i]) == (i < k) by {
            assert(before.owned_by(chain, i, Owner::Cache(n)));
            if i < k {
                assert(run[i] == chain[i]);
            }
            if run.contains(chain[i]) {
                let j = choose|j: int| 0 <= j < run.len() && run[j] == chain[i];
                assert(chain[j] == chain[i]);
            }
        }
        assert forall|i: int| 0 <= i < kept.len() implies before.owners().contains_key(kept[i])
            && before.owners()[kept[i]] == Owner::Superblock(d) && !run.contains(kept[i]) by {
            assert(before.owned_by(kept, i, Owner::Superblock(d)));
            if run.contains(kept[i]) {
                let j = choose|j: int| 0 <= j < run.len() && run[j] == kept[i];
                assert(run[j] == chain[j]);
            }
        }
        assert forall|b: usize| run.contains(b) implies before.owners().contains_key(b)
            && before.owners()[b] == Owner::Cache(n) by {
            let j = choose|j: int| 0 <= j < run.len() && run[j] == b;
            assert(run[j] == chain[j]);
        }
        assert(after.owners().dom() =~= before.owners().dom());
        // descriptors
        assert forall|o: usize| after.descriptors().contains_key(o) implies #[trigger] after.desc_inv(
            o,
        ) by {
            assert(before.desc_inv(o));
            if o == d {
                assert(after.span(d) == before.span(d));
                assert forall|j: int| 0 <= j < after.span(d) / 4096 implies #[trigger] after.page_filed(
                    d,
                    j,
                ) by {
                    assert(before.page_filed(d, j));
                }
                assert forall|i: int| 0 <= i < desc.spec_get_maxcount() implies #[trigger] after.block_known(
                    d,
                    i,
                ) by {
                    assert(before.block_known(d, i));
                }
                assert forall|i: int| 0 <= i < all.len() implies #[trigger] after.owned_by(
                    all,
                    i,
                    Owner::Superblock(d),
                ) by {
                    if i < k {
                        assert(all[i] == chain[i]);
                    } else {
                        assert(all[i] == kept[i - k]);
                    }
                }
                assert forall|i: int| 0 <= i < all.len() - 1 implies #[trigger] after.link_ok(
                    all,
                    i,
                ) by {
                    if i < k - 1 {
                        assert(before.link_ok(chain, i));
                        assert(all[i] == chain[i] && all[i + 1] == chain[i + 1]);
                    } else if i == k - 1 {
                        assert(all[i] == chain[k - 1] && all[i + 1] == kept[0]);
                    } else {
                        assert(before.link_ok(kept, i - k));
                        assert(all[i] == kept[i - k] && all[i + 1] == kept[i - k + 1]);
                    }
                }
                assert forall|i: int, j: int| 0 <= i < j < all.len() implies all[i] != all[j] by {
                    if j < k {
                        assert(all[i] == chain[i] && all[j] == chain[j]);
                    } else if i < k {
                        assert(all[i] == chain[i] && all[j] == kept[j - k]);
                    } else {
                        assert(all[i] == kept[i - k] && all[j] == kept[j - k]);
                    }
                }
                assert(all[0] == chain[0]);
                if desc.spec_get_anchor().spec_state() == 0 {
                    Self::lemma_cons_contains(before.partial_list(sc_idx), d, d);
                }
                assert(after.small_inv(d));
            } else {
                let y = before.descriptors()[o];
                if y.spec_get_block_size() != 0 && y.spec_get_heap() != 0 {
                    assert(before.small_inv(o));
                    if y.spec_get_heap() == sc_idx && desc.spec_get_anchor().spec_state() == 0 {
                        Self::lemma_cons_contains(before.partial_list(sc_idx), d, o);
                    }
                }
                if y.spec_get_block_size() != 0 && y.spec_get_heap() == 0 {
                    assert(before.large_inv(o));
                }
                assert forall|a: usize|
                    before.owners().contains_key(a) && before.owners()[a] == Owner::Superblock(
                        o,
                    ) implies #[trigger] Self::kept(before, after, a, Owner::Superblock(o)) by {}
                assert forall|i: int|
                    0 <= i < y.spec_get_maxcount() && before.block_known(o, i) implies #[trigger] after.block_known(
                    o,
                    i,
                ) by {}
                Self::lemma_desc_frame(before, after, o);
            }
        }
        assert forall|c: int, i: int|
            0 <= c < MAX_SZ_IDX && 0 <= i < after.partial_list(c).len() implies #[trigger] after.listed_inv(
            c,
            i,
        ) by {
            if c == sc_idx && desc.spec_get_anchor().spec_state() == 0 {
                if i > 0 {
                    assert(before.listed_inv(c, i - 1));
                    assert(after.partial_list(c)[i] == before.partial_list(c)[i - 1]);
                }
            } else {
                assert(before.listed_inv(c, i));
            }
        }
        assert forall|key: u64| #[trigger] after.page_inv(key) by {
            assert(before.page_inv(key));
            Self::lemma_page_frame(before, after, key);
        }
        assert forall|b: usize| after.owners().contains_key(b) implies #[trigger] after.block_inv(
            b,
        ) by {
            assert(before.block_inv(b));
            assert(before.page_inv(spec_addr_to_key(b)));
            Self::lemma_concat_contains(run, kept, b);
            Self::lemma_split_contains(chain, k, b);
            if run.contains(b) {
                before.lemma_in_region_filed(d, b);
            } else {
                Self::lemma_block_frame(before, after, b);
            }
        }
        assert forall|m: int| 0 <= m < after.num_bins() implies #[trigger] after.cache_inv(m) by {
            assert(before.cache_inv(m));
            if m == n {
                assert forall|i: int| 0 <= i < rest.len() implies #[trigger] after.owned_by(
                    rest,
                    i,
                    Owner::Cache(m),
                ) by {
                    assert(rest[i] == chain[i + k]);
                }
                assert forall|i: int| 0 <= i < rest.len() - 1 implies #[trigger] after.link_ok(
                    rest,
                    i,
                ) by {
                    assert(before.link_ok(chain, i + k));
                    assert(rest[i] == chain[i + k] && rest[i + 1] == chain[i + k + 1]);
                }
                assert forall|i: int, j: int| 0 <= i < j < rest.len() implies rest[i] != rest[j] by {
                    assert(rest[i] == chain[i + k] && rest[j] == chain[j + k]);
                }
                if rest.len() > 0 {
                    assert(before.link_ok(chain, k - 1));
                    assert(rest[0] == chain[k]);
                }
            } else {
                assert forall|a: usize|
                    before.owners().contains_key(a) && before.owners()[a] == Owner::Cache(
                        m,
                    ) implies #[trigger] Self::kept(before, after, a, Owner::Cache(m)) by {}
                Self::lemma_cache_frame(before, after, m);
            }
        }
        assert forall|p: usize| after.live(p) == before.live(p) by {}
        assert forall|p: usize| before.live(p) implies after.page_info(p) == before.page_info(p)
            && after.spec_usable_size(p) == before.spec_usable_size(p) by {
            assert(before.block_inv(p));
            assert(before.page_inv(spec_addr_to_key(p)));
        }
    }
}

impl R3Malloc {
    /// The invariant holds after a run of blocks went back to a superblock
    /// and completed it, so that its pages were given up.
    proof fn lemma_run_released(before: &R3Malloc, after: &R3Malloc, n: int, k: int)
        requires
            before.inv(),
            after.shape_inv(),
            Self::run_moved(before, after, n, k),
            before.held(before.top_desc(n)).len() + k == before.descriptors()[before.top_desc(n)].spec_get_maxcount(),
            ({
                let d = before.top_desc(n);
                let desc = before.descriptors()[d];
                let x = after.descriptors()[d];
                let sb = desc.spec_get_superblock();
                &&& x.spec_get_anchor().spec_state() == 2
                &&& x.spec_get_anchor().spec_count() == desc.spec_get_maxcount() - 1
                &&& x.spec_get_anchor().spec_avail() == (before.cache(n)[0] - sb) / (
                desc.spec_get_block_size() as int)
                &&& forall|c: int| 0 <= c < MAX_SZ_IDX ==> after.partial_list(c) == before.partial_list(c)
                &&& forall|key: u64|
                    after.page_entry(key) == if spec_key_in(key, sb, before.span(d)) {
                        PageInfo::empty()
                    } else {
                        before.page_entry(key)
                    }
                &&& after.owners() == Map::new(
                    |b: usize| before.owners().contains_key(b) && !(sb <= b < sb + before.span(d)),
                    |b: usize| before.owners()[b],
                )
            }),
        ensures
            after.inv(),
            after.same_users(before),
    {
        let chain = before.cache(n);
        let d = before.top_desc(n);
        let desc = before.descriptors()[d];
        let x = after.descriptors()[d];
        let sb = desc.spec_get_superblock();
        let bs = desc.spec_get_block_size();
        let size = before.span(d);
        let run = chain.subrange(0, k);
        let rest = chain.skip(k);
        let kept = before.held(d);
        let all = run + kept;
        let sc_idx = desc.spec_get_heap() as int;
        PageInfo::lemma_empty();
        assert(before.cache_inv(n));
        assert(before.owned_by(chain, 0, Owner::Cache(n)));
        assert(before.block_inv(chain[0]));
        before.lemma_block_facts(chain[0]);
        assert(before.desc_inv(d));
        assert(before.small_inv(d));
        // the run and the blocks that the superblock held are all its blocks
        assert forall|i: int| 0 <= i < all.len() implies before.owners().contains_key(
            #[trigger] all[i],
        ) && before.page_info(all[i]).spec_get_desc() == d by {
            if i < k {
                assert(all[i] == chain[i]);
                assert(before.owned_by(chain, i, Owner::Cache(n)));
                before.lemma_in_region_filed(d, chain[i]);
            } else {
                assert(all[i] == kept[i - k]);
                assert(before.owned_by(kept, i - k, Owner::Superblock(d)));
                assert(before.block_inv(kept[i - k]));
            }
        }
        assert forall|i: int, j: int| 0 <= i < j < all.len() implies all[i] != all[j] by {
            if j < k {
                assert(all[i] == chain[i] && all[j] == chain[j]);
            } else if i < k {
                assert(all[i] == chain[i] && all[j] == kept[j - k]);
                assert(before.owned_by(chain, i, Owner::Cache(n)));
                assert(before.owned_by(kept, j - k, Owner::Superblock(d)));
            } else {
                assert(all[i] == kept[i - k] && all[j] == kept[j - k]);
            }
        }
        before.lemma_count_blocks(d, all);
        // so a block with a holder elsewhere lies outside the superblock
        assert forall|b: usize| #[trigger]
            before.owners().contains_key(b) && sb <= b < sb + size implies (before.owners()[b]
            == Owner::Cache(n) && run.contains(b)) || before.owners()[b] == Owner::Superblock(d) by {
            before.lemma_in_region_filed(d, b);
            assert(all.contains(b));
            let i = choose|i: int| 0 <= i < all.len() && all[i] == b;
            if i < k {
                assert(all[i] == chain[i]);
                assert(run[i] == chain[i]);
                assert(before.owned_by(chain, i, Owner::Cache(n)));
            } else {
                assert(all[i] == kept[i - k]);
                assert(before.owned_by(kept, i - k, Owner::Superblock(d)));
            }
        }
        assert forall|i: int| k <= i < chain.len() implies !(sb <= #[trigger] chain[i] < sb + size) by {
            assert(before.owned_by(chain, i, Owner::Cache(n)));
            if sb <= chain[i] < sb + size {
                assert(run.contains(chain[i]));
                let j = choose|j: int| 0 <= j < run.len() && run[j] == chain[i];
                assert(run[j] == chain[j]);
            }
        }
        // a page outside the superblock is filed as it was
        assert forall|a: usize| before.owners().contains_key(a) && !(sb <= a < sb + size) implies after.page_info(
            a,
        ) == before.page_info(a) by {
            assert(before.block_inv(a));
            crate::pagemap::lemma_key_is_page_number(a);
            if spec_key_in(spec_addr_to_key(a), sb, size) {
                assert(before.page_inv(spec_addr_to_key(a)));
            }
        }
        // descriptors
        assert forall|o: usize| after.descriptors().contains_key(o) implies #[trigger] after.desc_inv(
            o,
        ) by {
            assert(before.desc_inv(o));
            if o != d {
                let y = before.descriptors()[o];
                if y.spec_get_block_size() != 0 {
                    if y.spec_get_heap() == 0 {
                        assert(before.large_inv(o));
                        let q = before.held(o)[0];
                        if sb <= q < sb + size {
                            before.lemma_in_region_filed(d, q);
                        }
                    } else {
                        assert(before.small_inv(o));
                    }
                    if y.spec_get_heap() == 0 || y.spec_get_anchor().spec_state() != 2 {
                        assert forall|j: int| 0 <= j < before.span(o) / 4096 implies #[trigger] after.page_entry(
                            (y.spec_get_superblock() as int / 4096 + j) as u64,
                        ) == before.page_entry(
                            (y.spec_get_superblock() as int / 4096 + j) as u64,
                        ) by {
                            assert(before.page_filed(o, j));
                            let key = (y.spec_get_superblock() as int / 4096 + j) as u64;
                            if spec_key_in(key, sb, size) {
                                assert(before.page_filed(d, key - sb as int / 4096));
                            }
                        }
                        if y.spec_get_heap() != 0 {
                            assert forall|i: int|
                                0 <= i < y.spec_get_maxcount() && before.block_known(
                                    o,
                                    i,
                                ) implies #[trigger] after.block_known(o, i) by {
                                let b = spec_block_addr(
                                    y.spec_get_superblock(),
                                    y.spec_get_block_size(),
                                    i,
                                );
                                assert(before.classes().class_follows_schedule(
                                    y.spec_get_heap() as int,
                                ));
                                Self::lemma_block_place(
                                    y.spec_get_superblock(),
                                    y.spec_get_block_size(),
                                    y.spec_get_maxcount(),
                                    i,
                                    before.span(o),
                                );
                                before.lemma_in_region_filed(o, b);
                                if sb <= b < sb + size {
                                    before.lemma_in_region_filed(d, b);
                                }
                            }
                        }
                    }
                }
                assert forall|a: usize|
                    before.owners().contains_key(a) && before.owners()[a] == Owner::Superblock(
                        o,
                    ) implies #[trigger] Self::kept(before, after, a, Owner::Superblock(o)) by {
                    if a == chain[k - 1] {
                        assert(before.owned_by(chain, k - 1, Owner::Cache(n)));
                    }
                }
                Self::lemma_desc_frame(before, after, o);
            }
        }
        assert forall|c: int, i: int|
            0 <= c < MAX_SZ_IDX && 0 <= i < after.partial_list(c).len() implies #[trigger] after.listed_inv(
            c,
            i,
        ) by {
            assert(before.listed_inv(c, i));
        }
        assert forall|key: u64| #[trigger] after.page_inv(key) by {
            assert(before.page_inv(key));
            if !spec_key_in(key, sb, size) {
                Self::lemma_page_frame(before, after, key);
            }
        }
        assert forall|b: usize| after.owners().contains_key(b) implies #[trigger] after.block_inv(
            b,
        ) by {
            assert(before.block_inv(b));
            assert(before.page_inv(spec_addr_to_key(b)));
            Self::lemma_split_contains(chain, k, b);
            if run.contains(b) {
                let j = choose|j: int| 0 <= j < run.len() && run[j] == b;
                assert(run[j] == chain[j]);
            }
            Self::lemma_block_frame(before, after, b);
        }
        assert forall|m: int| 0 <= m < after.num_bins() implies #[trigger] after.cache_inv(m) by {
            assert(before.cache_inv(m));
            if m == n {
                assert forall|i: int| 0 <= i < rest.len() implies #[trigger] after.owned_by(
                    rest,
                    i,
                    Owner::Cache(m),
                ) by {
                    assert(rest[i] == chain[i + k]);
                    assert(before.owned_by(chain, i + k, Owner::Cache(n)));
                }
                assert forall|i: int| 0 <= i < rest.len() - 1 implies #[trigger] after.link_ok(
                    rest,
                    i,
                ) by {
                    assert(before.link_ok(chain, i + k));
                    assert(rest[i] == chain[i + k] && rest[i + 1] == chain[i + k + 1]);
                }
                assert forall|i: int, j: int| 0 <= i < j < rest.len() implies rest[i] != rest[j] by {
                    assert(rest[i] == chain[i + k] && rest[j] == chain[j + k]);
                }
                if rest.len() > 0 {
                    assert(before.link_ok(chain, k - 1));
                    assert(rest[0] == chain[k]);
                }
            } else {
                assert forall|a: usize|
                    before.owners().contains_key(a) && before.owners()[a] == Owner::Cache(
                        m,
                    ) implies #[trigger] Self::kept(before, after, a, Owner::Cache(m)) by {
                    if a == chain[k - 1] {
                        assert(before.owned_by(chain, k - 1, Owner::Cache(n)));
                    }
                }
                Self::lemma_cache_frame(before, after, m);
            }
        }
        assert forall|p: usize| after.live(p) == before.live(p) by {}
        assert forall|p: usize| before.live(p) implies after.page_info(p) == before.page_info(p)
            && after.spec_usable_size(p) == before.spec_usable_size(p) by {
            assert(before.block_inv(p));
            assert(before.page_inv(spec_addr_to_key(p)));
        }
    }
}

impl R3Malloc {
    /// Whether every page-map entry is as in `before` or empty.
    pub open spec fn pages_kept_or_cleared(&self, before: &R3Malloc) -> bool {
        forall|key: u64|
            #[trigger] self.page_entry(key) == before.page_entry(key) || self.page_entry(key)
                == PageInfo::empty()
    }

    /// Whether giving back the run of at most `limit` blocks on top of the
    /// cache with index `n` completes their superblock.
    pub open spec fn run_completes(&self, n: int, limit: int) -> bool {
        let d = self.top_desc(n);
        self.held(d).len() + self.run_length(n, limit) == self.descriptors()[d].spec_get_maxcount()
    }

    /// The region of the superblock that holds the block on top of the
    /// cache with index `n`, as base and size.
    pub open spec fn top_region(&self, n: int) -> (usize, usize) {
        let d = self.top_desc(n);
        (self.descriptors()[d].spec_get_superblock(), self.span(d) as usize)
    }

    /// Gives the blocks on top of the cache with index `n` that lie in the
    /// superblock of the topmost, at most `limit` of them, back to that
    /// superblock. If the superblock was full, it goes on the partial list
    /// of its heap. If it is complete with them, its pages leave the page
    /// map and are put down for release. The result is the number of blocks
    /// given back.
    fn return_run(&mut self, sc_idx: usize, n: usize, limit: u32) -> (count: u32)
        requires
            old(self).inv(),
            1 <= sc_idx < MAX_SZ_IDX,
            n < old(self).num_bins(),
            n % MAX_SZ_IDX == sc_idx,
            old(self).cache(n as int).len() > 0,
            limit >= 1,
        ensures
            final(self).inv(),
            final(self).same_apfs(old(self)),
            count == old(self).run_length(n as int, limit as int),
            1 <= count <= limit,
            count <= old(self).cache(n as int).len(),
            final(self).cache(n as int) == old(self).cache(n as int).skip(count as int),
            final(self).same_users(old(self)),
            final(self).same_caches_but(old(self), n as int),
            final(self).descriptors().dom() == old(self).descriptors().dom(),
            final(self).released() == if old(self).run_completes(n as int, limit as int) {
                old(self).released().push(old(self).top_region(n as int))
            } else {
                old(self).released()
            },
            final(self).pages_kept_or_cleared(old(self)),
            old(self).run_completes(n as int, limit as int) ==> final(self).accepts_region(
                old(self).top_region(n as int).0,
                old(self).top_region(n as int).1 as int,
            ),
            Self::run_returned(old(self), final(self), n as int, limit as int),
            old(self).mapped(old(self).top_desc(n as int)),
            final(self).mapped_from(old(self)),
            forall|o: usize|
                o != old(self).top_desc(n as int) && old(self).mapped(o) ==> #[trigger] final(self).mapped(o),
            final(self).mapped(old(self).top_desc(n as int)) == !old(self).run_completes(
                n as int,
                limit as int,
            ),
    {
        let ghost before = *self;
        let ghost chain = before.cache(n as int);
        let sc = self.classes.get(sc_idx);
        let sb_size: usize = sc.get_sb_size() as usize;
        let block_size: u32 = sc.get_block_size();
        let mut bin = self.bins[n];
        let head: usize = bin.peek_block();
        let len: u32 = bin.get_block_num();
        proof {
            assert(before.cache_inv(n as int));
            assert(before.owned_by(chain, 0, Owner::Cache(n as int)));
            assert(before.block_inv(head));
            before.lemma_block_facts(head);
            assert(before.classes().class_follows_schedule(sc_idx as int));
        }
        let info = self.pagemap.get_page_info(head);
        let d: usize = info.get_desc();
        let mut desc = self.table.get(d);
        let superblock: usize = desc.get_superblock();
        let maxcount: u32 = desc.get_maxcount();
        let ghost max: int = if limit < len {
            limit as int
        } else {
            len as int
        };
        // the blocks of the run lie in one superblock
        let mut tail: usize = head;
        let mut block_count: u32 = 1;
        let mut more: bool = block_count < limit && block_count < len;
        assert(!more ==> spec_run(chain, superblock as int, superblock + sb_size, 1, max) == 1);
        while more
            invariant
                before == *old(self),
                *self == before,
                before.inv(),
                chain == before.cache(n as int),
                before.cache_inv(n as int),
                spec_region_ok(superblock, sb_size as int),
                len == chain.len(),
                max == (if limit < len {
                    limit as int
                } else {
                    len as int
                }),
                1 <= block_count <= max,
                more ==> block_count < max,
                tail == chain[block_count - 1],
                forall|i: int| 0 <= i < block_count ==> superblock <= #[trigger] chain[i] < superblock
                    + sb_size,
                spec_run(chain, superblock as int, superblock + sb_size, 1, max) == (if more {
                    spec_run(chain, superblock as int, superblock + sb_size, block_count as int, max)
                } else {
                    block_count as int
                }),
            decreases len - block_count + (if more { 1int } else { 0int }),
        {
            let ptr: usize = self.memory.read(tail);
            proof {
                assert(before.link_ok(chain, block_count - 1));
                assert(ptr == chain[block_count as int]);
            }
            let ghost lo = superblock as int;
            let ghost hi = superblock + sb_size;
            assert(spec_run(chain, lo, hi, block_count as int, max) == if lo <= chain[block_count as int]
                < hi {
                spec_run(chain, lo, hi, block_count + 1, max)
            } else {
                block_count as int
            });
            if ptr < superblock || ptr >= superblock + sb_size {
                more = false;
            } else {
                block_count += 1;
                tail = ptr;
                more = block_count < limit && block_count < len;
                assert(!more ==> spec_run(chain, lo, hi, block_count as int, max) == block_count);
            }
        }
        let ghost run = chain.subrange(0, block_count as int);
        let ghost kept = before.held(d);
        proof {
            // the run and the blocks that the superblock holds are distinct blocks of it
            let all = run + kept;
            assert(before.small_inv(d));
            assert forall|i: int| 0 <= i < all.len() implies before.owners().contains_key(
                #[trigger] all[i],
            ) && before.page_info(all[i]).spec_get_desc() == d by {
                if i < block_count {
                    assert(all[i] == chain[i]);
                    assert(before.owned_by(chain, i, Owner::Cache(n as int)));
                    before.lemma_in_region_filed(d, chain[i]);
                } else {
                    assert(all[i] == kept[i - block_count]);
                    assert(before.owned_by(kept, i - block_count, Owner::Superblock(d)));
                    assert(before.block_inv(kept[i - block_count]));
                }
            }
            assert forall|i: int, j: int| 0 <= i < j < all.len() implies all[i] != all[j] by {
                if j < block_count {
                    assert(all[i] == chain[i] && all[j] == chain[j]);
                } else if i < block_count {
                    assert(all[i] == chain[i] && all[j] == kept[j - block_count]);
                    assert(before.owned_by(chain, i, Owner::Cache(n as int)));
                    assert(before.owned_by(kept, j - block_count, Owner::Superblock(d)));
                } else {
                    assert(all[i] == kept[i - block_count] && all[j] == kept[j - block_count]);
                }
            }
            before.lemma_count_blocks(d, all);
        }
        let next_head: usize = self.memory.read(tail);
        bin.pop_list(next_head, block_count);
        self.bins.set(n, bin);
        let idx: u32 = self.classes.compute_idx(superblock, head, sc_idx);
        let old_anchor = desc.get_anchor();
        let mut new_anchor = old_anchor;
        proof {
            reveal(spec_block_addr);
            if old_anchor.spec_avail() < maxcount {
                Self::lemma_block_place(
                    superblock,
                    block_size,
                    maxcount,
                    old_anchor.spec_avail() as int,
                    sb_size as int,
                );
            }
        }
        let next: usize = superblock + (old_anchor.avail() * block_size) as usize;
        self.memory.write(tail, next);
        new_anchor.set_avail(idx);
        if old_anchor.state() == SbState::Full.code() {
            new_anchor.set_state(SbState::Partial.code());
        }
        let completes: bool = old_anchor.count() + block_count == maxcount;
        if completes {
            new_anchor.set_count(maxcount - 1);
            new_anchor.set_state(SbState::Empty.code());
        } else {
            new_anchor.set_count(old_anchor.count() + block_count);
        }
        desc.set_anchor(new_anchor);
        self.table.put(d, desc);
        let ghost mid = *self;
        proof {
            mid.table.lemma_put_keeps_wf(before.table, d);
            assert forall|c: int| 0 <= c < MAX_SZ_IDX implies (#[trigger] mid.heaps@[c]).wf(
                &mid.table,
            ) by {
                let h = mid.heaps@[c];
                assert(h.wf(&before.table));
                assert forall|i: int| 0 <= i < h.partial().len() implies {
                    let e = #[trigger] h.partial()[i];
                    &&& mid.table@.contains_key(e)
                    &&& mid.table@[e].spec_get_heap() == before.table@[e].spec_get_heap()
                    &&& mid.table@[e].spec_get_next_partial() == before.table@[e].spec_get_next_partial()
                } by {
                    assert(h.partial_entry_ok(&before.table, i));
                }
                h.lemma_frame(&before.table, &mid.table);
            }
        }
        if completes {
            self.pagemap.set_range(PageInfo::new(), superblock, sb_size);
            self.released.push((superblock, sb_size));
            proof {
                let old_owner = self.owner@;
                self.owner = Ghost(
                    Map::new(
                        |b: usize|
                            old_owner.contains_key(b) && !(superblock <= b < superblock + sb_size),
                        |b: usize| old_owner[b],
                    ),
                );
                self.chains = Ghost(self.chains@.update(n as int, chain.skip(block_count as int)));
                let after = *self;
                assert(after.shape_inv());
                assert(after.descriptors().dom() =~= before.descriptors().dom());
                Self::lemma_run_released(&before, &after, n as int, block_count as int);
                PageInfo::lemma_empty();
                assert forall|k: u64| spec_key_in(k, superblock, sb_size as int) implies (#[trigger] after.page_entry(
                    k,
                )).spec_get_desc() == 0 by {}
            }
        } else {
            if old_anchor.state() == SbState::Full.code() {
                proof {
                    if self.heaps@[sc_idx as int].partial().contains(d) {
                        assert(before.partial_list(sc_idx as int).contains(d));
                    }
                }
                heap_push_partial(&mut self.table, &mut self.heaps[sc_idx], d);
                proof {
                    let after = *self;
                    assert forall|c: int| 0 <= c < MAX_SZ_IDX implies (#[trigger] after.heaps@[c]).wf(
                        &after.table,
                    ) by {
                        if c != sc_idx {
                            let h = after.heaps@[c];
                            assert(h.wf(&mid.table));
                            assert forall|i: int| 0 <= i < h.partial().len() implies {
                                let e = #[trigger] h.partial()[i];
                                &&& after.table@.contains_key(e)
                                &&& after.table@[e].spec_get_heap() == mid.table@[e].spec_get_heap()
                                &&& after.table@[e].spec_get_next_partial()
                                    == mid.table@[e].spec_get_next_partial()
                            } by {
                                assert(h.partial_entry_ok(&mid.table, i));
                                assert(before.listed_inv(c, i));
                            }
                            h.lemma_frame(&mid.table, &after.table);
                        }
                    }
                }
            }
            proof {
                let old_owner = self.owner@;
                self.owner = Ghost(
                    Map::new(
                        |b: usize| old_owner.contains_key(b),
                        |b: usize|
                            if run.contains(b) {
                                Owner::Superblock(d)
                            } else {
                                old_owner[b]
                            },
                    ),
                );
                self.chains = Ghost(self.chains@.update(n as int, chain.skip(block_count as int)));
                self.held = Ghost(self.held@.insert(d, run + kept));
                let after = *self;
                assert(after.shape_inv());
                assert(after.descriptors().dom() =~= before.descriptors().dom());
                assert(after.descriptors() =~= before.descriptors().insert(d, after.descriptors()[d]));
                Self::lemma_run_kept(&before, &after, n as int, block_count as int);
            }
        }
        block_count
    }
}

impl R3Malloc {
    /// Whether every region put down for release since `before` is out of
    /// the page map.
    pub open spec fn released_since(&self, before: &R3Malloc) -> bool {
        &&& before.released().len() <= self.released().len()
        &&& forall|i: int|
            0 <= i < before.released().len() ==> #[trigger] self.released()[i] == before.released()[i]
        &&& forall|i: int|
            before.released().len() <= i < self.released().len() ==> self.accepts_region(
                (#[trigger] self.released()[i]).0,
                self.released()[i].1 as int,
            )
    }

    /// Whether nothing is mapped that was not mapped in `before`: a
    /// descriptor that stands for mapped pages did so before, for the same
    /// region.
    pub open spec fn mapped_from(&self, before: &R3Malloc) -> bool {
        forall|d: usize| #[trigger]
            self.mapped(d) ==> {
                &&& before.mapped(d)
                &&& self.descriptors()[d].spec_get_superblock()
                    == before.descriptors()[d].spec_get_superblock()
                &&& self.span(d) == before.span(d)
            }
    }

    /// Whether `region` was the region of a descriptor in `before` that
    /// stands for no mapped pages any more.
    pub open spec fn was_unmapped(&self, before: &R3Malloc, region: (usize, usize)) -> bool {
        let d = before.page_info(region.0).spec_get_desc();
        &&& d != 0
        &&& before.descriptors()[d].spec_get_superblock() == region.0
        &&& before.span(d) == region.1
        &&& !self.mapped(d)
    }

    /// The regions put down for release since `before`.
    pub open spec fn newly_released(&self, before: &R3Malloc) -> Seq<(usize, usize)> {
        self.released().skip(before.released().len() as int)
    }

    /// Whether the regions put down for release since `before` are those,
    /// each once, of the superblocks and large blocks that gave up their
    /// pages since.
    pub open spec fn released_exactly(&self, before: &R3Malloc) -> bool {
        &&& before.released().len() <= self.released().len()
        &&& self.released().take(before.released().len() as int) == before.released()
        &&& self.newly_released(before).no_duplicates()
        &&& forall|r: (usize, usize)|
            self.newly_released(before).contains(r) <==> #[trigger] self.was_unmapped(before, r)
    }

    /// Where nothing was released and nothing unmapped, the account is
    /// exact.
    proof fn lemma_released_nothing(before: &R3Malloc, after: &R3Malloc)
        requires
            before.inv(),
            after.released() == before.released(),
            forall|d: usize| #[trigger] before.mapped(d) ==> after.mapped(d),
        ensures
            after.released_exactly(before),
    {
        let new = after.newly_released(before);
        assert(new =~= Seq::<(usize, usize)>::empty());
        assert(after.released().take(before.released().len() as int) =~= before.released());
        assert forall|r: (usize, usize)| new.contains(r) <==> #[trigger] after.was_unmapped(
            before,
            r,
        ) by {
            let d = before.page_info(r.0).spec_get_desc();
            if d != 0 {
                assert(before.page_inv(spec_addr_to_key(r.0)));
            }
        }
    }

    /// The account of what was released is the same between two states that
    /// differ from the two of an exact account in caches and predictors
    /// alone.
    proof fn lemma_released_transfer(b1: &R3Malloc, a1: &R3Malloc, b2: &R3Malloc, a2: &R3Malloc)
        requires
            a1.released_exactly(b1),
            b2.same_descriptors(b1),
            b2.same_pages(b1),
            b2.released() == b1.released(),
            a2.same_descriptors(a1),
            a2.released() == a1.released(),
        ensures
            a2.released_exactly(b2),
    {
        assert(a2.newly_released(b2) == a1.newly_released(b1));
        assert forall|r: (usize, usize)|
            a2.newly_released(b2).contains(r) <==> #[trigger] a2.was_unmapped(b2, r) by {
            assert(a1.was_unmapped(b1, r) == a1.newly_released(b1).contains(r));
            assert(b2.page_info(r.0) == b1.page_info(r.0));
        }
    }

    /// Two exact accounts in a row make one.
    proof fn lemma_released_compose(before: &R3Malloc, here: &R3Malloc, after: &R3Malloc)
        requires
            before.inv(),
            here.inv(),
            here.released_exactly(before),
            here.mapped_from(before),
            after.released_exactly(here),
            after.mapped_from(here),
        ensures
            after.released_exactly(before),
            after.mapped_from(before),
    {
        let first = here.newly_released(before);
        let second = after.newly_released(here);
        let new = after.newly_released(before);
        let k = before.released().len() as int;
        let h = here.released().len() as int;
        assert(here.released() =~= here.released().take(k) + first);
        assert(after.released() =~= after.released().take(h) + second);
        assert(new =~= first + second);
        assert(after.released().take(k) =~= before.released());
        assert forall|d: usize| #[trigger] after.mapped(d) implies {
            &&& before.mapped(d)
            &&& after.descriptors()[d].spec_get_superblock()
                == before.descriptors()[d].spec_get_superblock()
            &&& after.span(d) == before.span(d)
        } by {
            assert(here.mapped(d));
        }
        // what the second account names was mapped all along
        assert forall|r: (usize, usize)| #[trigger]
            after.was_unmapped(here, r) implies before.page_info(r.0).spec_get_desc()
            == here.page_info(r.0).spec_get_desc() && here.mapped(
            here.page_info(r.0).spec_get_desc(),
        ) by {
            let d = here.page_info(r.0).spec_get_desc();
            assert(here.page_inv(spec_addr_to_key(r.0)));
            assert(here.mapped(d));
            assert(here.desc_inv(d));
            if here.descriptors()[d].spec_get_heap() == 0 {
                assert(here.large_inv(d));
            } else {
                assert(here.small_inv(d));
            }
            assert(here.region_filed(d));
            before.lemma_in_region_filed(d, r.0);
        }
        assert forall|r: (usize, usize)| new.contains(r) <==> #[trigger] after.was_unmapped(
            before,
            r,
        ) by {
            let d = before.page_info(r.0).spec_get_desc();
            assert(first.contains(r) == here.was_unmapped(before, r));
            assert(second.contains(r) == after.was_unmapped(here, r));
            if new.contains(r) {
                let i = choose|i: int| 0 <= i < new.len() && new[i] == r;
                if i < first.len() {
                    assert(first[i] == r);
                    if after.mapped(d) {
                        assert(here.mapped(d));
                    }
                } else {
                    assert(second[i - first.len()] == r);
                }
            }
            if after.was_unmapped(before, r) {
                if here.mapped(d) {
                    assert(before.page_inv(spec_addr_to_key(r.0)));
                    assert(here.desc_inv(d));
                    if here.descriptors()[d].spec_get_heap() == 0 {
                        assert(here.large_inv(d));
                    } else {
                        assert(here.small_inv(d));
                    }
                    assert(here.region_filed(d));
                    here.lemma_in_region_filed(d, r.0);
                    assert(after.was_unmapped(here, r));
                    let i = choose|i: int| 0 <= i < second.len() && second[i] == r;
                    assert(new[i + first.len()] == r);
                } else {
                    assert(here.was_unmapped(before, r));
                    let i = choose|i: int| 0 <= i < first.len() && first[i] == r;
                    assert(new[i] == r);
                }
            }
        }
        assert forall|i: int, j: int| 0 <= i < j < new.len() implies new[i] != new[j] by {
            if j < first.len() {
                assert(new[i] == first[i] && new[j] == first[j]);
            } else if i >= first.len() {
                assert(new[i] == second[i - first.len()] && new[j] == second[j - first.len()]);
            } else {
                assert(new[i] == first[i] && new[j] == second[j - first.len()]);
                if new[i] == new[j] {
                    let r = new[i];
                    assert(first.contains(r));
                    assert(second.contains(r));
                    assert(here.was_unmapped(before, r));
                    assert(after.was_unmapped(here, r));
                }
            }
        }
    }

    /// One more step of giving blocks back keeps the account of what was
    /// released exact.
    proof fn lemma_released_step(
        before: &R3Malloc,
        here: &R3Malloc,
        after: &R3Malloc,
        top: usize,
        completes: bool,
    )
        requires
            before.inv(),
            here.inv(),
            here.released_exactly(before),
            here.mapped_from(before),
            here.mapped(top),
            after.mapped_from(here),
            forall|o: usize| o != top && here.mapped(o) ==> #[trigger] after.mapped(o),
            after.mapped(top) == !completes,
            after.released() == if completes {
                here.released().push(
                    (here.descriptors()[top].spec_get_superblock(), here.span(top) as usize),
                )
            } else {
                here.released()
            },
            here.span(top) <= usize::MAX,
        ensures
            after.released_exactly(before),
            after.mapped_from(before),
    {
        let old_new = here.newly_released(before);
        let new = after.newly_released(before);
        let k = before.released().len() as int;
        let region = (here.descriptors()[top].spec_get_superblock(), here.span(top) as usize);
        assert(here.released().take(k) =~= before.released());
        assert(after.released().take(k) =~= before.released());
        assert forall|d: usize| #[trigger] after.mapped(d) implies {
            &&& before.mapped(d)
            &&& after.descriptors()[d].spec_get_superblock()
                == before.descriptors()[d].spec_get_superblock()
            &&& after.span(d) == before.span(d)
        } by {
            assert(here.mapped(d));
        }
        // the region of the descriptor at the top is filed under it
        assert(before.mapped(top));
        assert(before.desc_inv(top));
        if before.descriptors()[top].spec_get_heap() == 0 {
            assert(before.large_inv(top));
        } else {
            assert(before.small_inv(top));
        }
        assert(before.region_filed(top));
        before.lemma_in_region_filed(top, region.0);
        if completes {
            assert(new =~= old_new.push(region));
            assert(after.was_unmapped(before, region));
            if old_new.contains(region) {
                assert(here.was_unmapped(before, region));
            }
            assert forall|i: int, j: int| 0 <= i < j < new.len() implies new[i] != new[j] by {
                if j == old_new.len() {
                    assert(old_new.contains(old_new[i]));
                }
            }
            assert forall|r: (usize, usize)| new.contains(r) <==> #[trigger] after.was_unmapped(
                before,
                r,
            ) by {
                let d = before.page_info(r.0).spec_get_desc();
                if new.contains(r) {
                    let i = choose|i: int| 0 <= i < new.len() && new[i] == r;
                    if i < old_new.len() {
                        assert(old_new[i] == r);
                        assert(old_new.contains(r));
                        assert(here.was_unmapped(before, r));
                        if after.mapped(d) {
                            assert(here.mapped(d));
                        }
                    }
                }
                if after.was_unmapped(before, r) {
                    if here.mapped(d) {
                        assert(d == top);
                        assert(r == region);
                        assert(new[old_new.len() as int] == region);
                    } else {
                        assert(here.was_unmapped(before, r));
                        assert(old_new.contains(r));
                        let i = choose|i: int| 0 <= i < old_new.len() && old_new[i] == r;
                        assert(new[i] == r);
                    }
                }
            }
        } else {
            assert(new =~= old_new);
            assert forall|r: (usize, usize)| new.contains(r) <==> #[trigger] after.was_unmapped(
                before,
                r,
            ) by {
                let d = before.page_info(r.0).spec_get_desc();
                assert(here.was_unmapped(before, r) == old_new.contains(r));
                if after.mapped(d) {
                    assert(here.mapped(d));
                }
            }
        }
    }

    /// A region whose pages are out of the page map stays so when entries
    /// are only cleared.
    proof fn lemma_accepts_after_clearing(&self, before: &R3Malloc, base: usize, size: int)
        requires
            before.accepts_region(base, size),
            self.pages_kept_or_cleared(before),
        ensures
            self.accepts_region(base, size),
    {
        PageInfo::lemma_empty();
        assert forall|k: u64| spec_key_in(k, base, size) implies (#[trigger] self.page_entry(
            k,
        )).spec_get_desc() == 0 by {
            assert(before.page_entry(k).spec_get_desc() == 0);
        }
    }

    /// Empties the cache with index `n`, of class `sc_idx`: run by run, its
    /// blocks go back to their superblocks. Superblocks that become
    /// complete are put down for release.
    fn flush_cache(&mut self, sc_idx: usize, n: usize)
        requires
            old(self).inv(),
            1 <= sc_idx < MAX_SZ_IDX,
            n < old(self).num_bins(),
            n % MAX_SZ_IDX == sc_idx,
        ensures
            final(self).inv(),
            Self::runs_returned(old(self), final(self), n as int),
            final(self).same_apfs(old(self)),
            final(self).cache(n as int).len() == 0,
            final(self).same_users(old(self)),
            final(self).same_caches_but(old(self), n as int),
            final(self).descriptors().dom() == old(self).descriptors().dom(),
            final(self).released_since(old(self)),
            final(self).released_exactly(old(self)),
            final(self).mapped_from(old(self)),
            final(self).pages_kept_or_cleared(old(self)),
    {
        let ghost before = *self;
        proof {
            Self::lemma_released_nothing(&before, &before);
        }
        while self.bins[n].get_block_num() > 0
            invariant
                before == *old(self),
                self.inv(),
                self.same_apfs(&before),
                1 <= sc_idx < MAX_SZ_IDX,
                n < self.num_bins(),
                n % MAX_SZ_IDX == sc_idx,
                self.same_users(&before),
                self.same_caches_but(&before, n as int),
                self.descriptors().dom() == before.descriptors().dom(),
                self.released_since(&before),
                self.released_exactly(&before),
                self.mapped_from(&before),
                before.inv(),
                self.pages_kept_or_cleared(&before),
                Self::runs_returned(&before, self, n as int),
                self.cache(n as int).len() <= before.cache(n as int).len(),
            decreases self.cache(n as int).len(),
        {
            let ghost here = *self;
            proof {
                assert(self.cache_inv(n as int));
            }
            let _ = self.return_run(sc_idx, n, u32::MAX);
            proof {
                let after = *self;
                Self::lemma_released_step(
                    &before,
                    &here,
                    &after,
                    here.top_desc(n as int),
                    here.run_completes(n as int, u32::MAX as int),
                );
                assert(Self::run_returned(&here, &after, n as int, u32::MAX as int));
                assert(Self::runs_returned(&before, &after, n as int));
                assert forall|i: int|
                    before.released().len() <= i < after.released().len() implies after.accepts_region(
                    (#[trigger] after.released()[i]).0,
                    after.released()[i].1 as int,
                ) by {
                    if i < here.released().len() {
                        assert(after.released()[i] == here.released()[i]);
                        after.lemma_accepts_after_clearing(
                            &here,
                            here.released()[i].0,
                            here.released()[i].1 as int,
                        );
                    }
                }
                assert forall|i: int| 0 <= i < before.released().len() implies #[trigger] after.released()[i]
                    == before.released()[i] by {
                    assert(here.released()[i] == before.released()[i]);
                }
                assert forall|key: u64|
                    #[trigger] after.page_entry(key) == before.page_entry(key) || after.page_entry(key)
                        == PageInfo::empty() by {
                    assert(after.page_entry(key) == here.page_entry(key) || after.page_entry(key)
                        == PageInfo::empty());
                    assert(here.page_entry(key) == before.page_entry(key) || here.page_entry(key)
                        == PageInfo::empty());
                }
                assert forall|p: usize| before.live(p) implies after.page_info(p) == before.page_info(p)
                    && after.spec_usable_size(p) == before.spec_usable_size(p) by {
                    assert(here.live(p));
                }
            }
        }
        proof {
            assert(self.cache_inv(n as int));
        }
    }

    /// Gives at most `cut_by` blocks from the top of the cache with index
    /// `n`, of class `sc_idx`, back to their superblock: those that lie in
    /// the superblock of the topmost.
    fn cut_cache(&mut self, sc_idx: usize, n: usize, cut_by: u32)
        requires
            old(self).inv(),
            1 <= sc_idx < MAX_SZ_IDX,
            n < old(self).num_bins(),
            n % MAX_SZ_IDX == sc_idx,
            old(self).cache(n as int).len() > 0,
            cut_by >= 1,
        ensures
            final(self).inv(),
            Self::run_returned(old(self), final(self), n as int, cut_by as int),
            final(self).same_apfs(old(self)),
            final(self).cache(n as int) == old(self).cache(n as int).skip(
                old(self).run_length(n as int, cut_by as int),
            ),
            1 <= old(self).run_length(n as int, cut_by as int) <= cut_by,
            old(self).run_length(n as int, cut_by as int) <= old(self).cache(n as int).len(),
            final(self).same_users(old(self)),
            final(self).same_caches_but(old(self), n as int),
            final(self).descriptors().dom() == old(self).descriptors().dom(),
            final(self).released_since(old(self)),
            final(self).released_exactly(old(self)),
            final(self).mapped_from(old(self)),
            final(self).pages_kept_or_cleared(old(self)),
    {
        let ghost before = *self;
        let _ = self.return_run(sc_idx, n, cut_by);
        proof {
            let after = *self;
            Self::lemma_released_nothing(&before, &before);
            Self::lemma_released_step(
                &before,
                &before,
                &after,
                before.top_desc(n as int),
                before.run_completes(n as int, cut_by as int),
            );
        }
    }
}

impl R3Malloc {
    /// Makes a large block of the `bytes` bytes of fresh pages at `pages`,
    /// with a descriptor of its own, and hands out the address `offset`
    /// bytes into it. The result is 0 if the pages cannot be used or no
    /// descriptor can be had; nothing has changed then.
    fn large_alloc(&mut self, bytes: usize, offset: usize, fresh_descriptors: usize, pages: usize) -> (ptr:
        usize)
        requires
            old(self).inv(),
            bytes <= u32::MAX,
            offset < bytes,
        ensures
            final(self).inv(),
            final(self).same_apfs(old(self)),
            (ptr != 0) == (old(self).accepts_region(pages, bytes as int) && old(self).can_get_descriptor(fresh_descriptors)),
            ptr != 0 ==> {
                &&& ptr == pages + offset
                &&& !old(self).owners().contains_key(ptr)
                &&& final(self).owners() == old(self).owners().insert(ptr, Owner::User)
                &&& final(self).page_info(ptr).spec_get_sc_idx() == 0
                &&& final(self).spec_usable_size(ptr) == bytes
                &&& final(self).descriptors()[final(self).page_info(ptr).spec_get_desc()].spec_get_superblock()
                    == pages
            },
            ptr == 0 ==> final(self).same_descriptors(old(self)) && final(self).owners() == old(self).owners() && final(self).same_pages(old(self)),
            final(self).classes() == old(self).classes(),
            forall|q: usize|
                old(self).live(q) ==> final(self).page_info(q) == old(self).page_info(q) && final(self).spec_usable_size(q) == old(self).spec_usable_size(q),
            final(self).same_caches(old(self)),
            final(self).released() == old(self).released(),
    {
        let ghost before = *self;
        if !self.region_is_new(pages, bytes) {
            return 0;
        }
        if self.table.is_empty() && !self.table.can_accept(fresh_descriptors) {
            return 0;
        }
        let d = Descriptor::allocate(&mut self.table, fresh_descriptors);
        let ghost mid = *self;
        proof {
            if before.table.free_list().len() > 0 {
                assert(before.table.free_entry_ok(0));
            }
        }
        let mut desc = self.table.get(d);
        desc.set_heap(0);
        desc.set_block_size(bytes as u32);
        desc.set_maxcount(1);
        desc.set_superblock(pages);
        let mut anchor = Anchor::new();
        anchor.set_avail(0);
        anchor.set_count(0);
        anchor.set_state(SbState::Full.code());
        desc.set_anchor(anchor);
        self.table.put(d, desc);
        let mut info = PageInfo::new();
        proof {
            crate::heap::lemma_aligned_mask(d);
        }
        info.set_desc(d, 0);
        self.pagemap.set_range(info, pages, bytes);
        let ptr: usize = pages + offset;
        proof {
            self.owner = Ghost(self.owner@.insert(ptr, Owner::User));
            self.held = Ghost(self.held@.insert(d, seq![ptr]));
        }
        proof {
            let after = *self;
            Self::lemma_large_made(&before, &mid, &after, fresh_descriptors, pages, bytes, ptr, d);
        }
        ptr
    }

    /// The invariant holds after a large block was made.
    proof fn lemma_large_made(
        before: &R3Malloc,
        mid: &R3Malloc,
        after: &R3Malloc,
        fresh: usize,
        pages: usize,
        bytes: usize,
        ptr: usize,
        d: usize,
    )
        requires
            before.inv(),
            before.accepts_region(pages, bytes as int),
            bytes <= u32::MAX,
            pages <= ptr < pages + bytes,
            d != 0,
            mid.table.wf(),
            before.table.free_list().len() > 0 ==> {
                &&& d == before.table.free_list()[0]
                &&& mid.table.free_list() == before.table.free_list().skip(1)
                &&& mid.table@ == before.table@
            },
            before.table.free_list().len() == 0 ==> {
                &&& before.table.accepts(fresh)
                &&& d == fresh
                &&& mid.table.free_list() == DescriptorTable::carved_list(fresh)
                &&& mid.table.extends(before.table, fresh)
            },
            mid.table@.contains_key(d),
            !mid.table.free_list().contains(d),
            after.table@ == mid.table@.insert(d, after.table@[d]),
            after.table.free_list() == mid.table.free_list(),
            after.table.avail_node() == mid.table.avail_node(),
            ({
                let desc = after.table@[d];
                &&& desc.spec_get_heap() == 0
                &&& desc.spec_get_block_size() == bytes
                &&& desc.spec_get_maxcount() == 1
                &&& desc.spec_get_anchor().spec_state() == 0
                &&& desc.spec_get_anchor().spec_avail() == 0
                &&& desc.spec_get_anchor().spec_count() == 0
                &&& desc.spec_get_superblock() == pages
                &&& desc.spec_get_next_partial() == mid.table@[d].spec_get_next_partial()
                &&& desc.spec_get_next_free() == mid.table@[d].spec_get_next_free()
            }),
            after.classes == before.classes,
            after.heaps == before.heaps,
            after.apfs == before.apfs,
            after.released == before.released,
            after.bins == before.bins,
            after.chains == before.chains,
            after.memory == before.memory,
            forall|k: u64|
                #[trigger] after.pagemap.entry(k) == if spec_key_in(k, pages, bytes as int) {
                    after.pagemap.entry((pages as int / 4096) as u64)
                } else {
                    before.pagemap.entry(k)
                },
            after.pagemap.entry((pages as int / 4096) as u64).spec_get_desc() == d,
            after.pagemap.entry((pages as int / 4096) as u64).spec_get_sc_idx() == 0,
            after.owner@ == before.owner@.insert(ptr, Owner::User),
            after.held@ == before.held@.insert(d, seq![ptr]),
        ensures
            after.inv(),
            !before.owners().contains_key(ptr),
            after.page_info(ptr).spec_get_sc_idx() == 0,
            after.page_info(ptr).spec_get_desc() == d,
            after.spec_usable_size(ptr) == bytes,
            forall|q: usize|
                before.live(q) ==> after.page_info(q) == before.page_info(q) && after.spec_usable_size(q)
                    == before.spec_usable_size(q),
            after.same_caches(before),
    {
        let size = bytes as int;
        crate::pagemap::lemma_key_is_page_number(ptr);
        assert(spec_key_in(spec_addr_to_key(ptr), pages, size));
        if before.owners().contains_key(ptr) {
            before.lemma_known_block_outside(ptr, pages, size);
        }
        assert forall|a: usize| before.owners().contains_key(a) implies (a < pages || a >= pages
            + size) && a != ptr && after.owners().contains_key(a) && after.owners()[a]
            == before.owners()[a] && after.word(a) == before.word(a) && after.page_info(a)
            == before.page_info(a) by {
            before.lemma_known_block_outside(a, pages, size);
            assert(before.block_inv(a));
            crate::pagemap::lemma_key_is_page_number(a);
        }
        assert(!before.descriptors().contains_key(d) || before.descriptors()[d].spec_get_block_size()
            == 0) by {
            if before.table.free_list().len() > 0 {
                assert(before.table.free_entry_ok(0));
            } else {
                assert(d == crate::heap::spec_slot(fresh, 0));
            }
        }
        assert forall|o: usize| before.descriptors().contains_key(o) && o != d implies after.descriptors().contains_key(
            o,
        ) && after.descriptors()[o] == before.descriptors()[o] by {}
        after.table.lemma_put_keeps_wf(mid.table, d);
        assert forall|c: int| 0 <= c < MAX_SZ_IDX implies (#[trigger] after.heaps@[c]).spec_get_sc_idx()
            == c && after.heaps@[c].wf(&after.table) by {
            let h = after.heaps@[c];
            assert(h.wf(&before.table));
            assert forall|i: int| 0 <= i < h.partial().len() implies {
                let e = #[trigger] h.partial()[i];
                &&& after.table@.contains_key(e)
                &&& after.table@[e].spec_get_heap() == before.table@[e].spec_get_heap()
                &&& after.table@[e].spec_get_next_partial() == before.table@[e].spec_get_next_partial()
            } by {
                assert(h.partial_entry_ok(&before.table, i));
                assert(before.listed_inv(c, i));
            }
            h.lemma_frame(&before.table, &after.table);
        }
        assert(after.shape_inv());
        assert forall|o: usize| after.descriptors().contains_key(o) implies #[trigger] after.desc_inv(
            o,
        ) by {
            if o == d {
                assert(!after.pool().contains(d));
                assert(after.span(d) == size);
                assert forall|j: int| 0 <= j < after.span(d) / 4096 implies #[trigger] after.page_filed(
                    d,
                    j,
                ) by {
                    assert(spec_key_in((pages as int / 4096 + j) as u64, pages, size));
                }
                assert(after.held(d) == seq![ptr]);
                assert(after.large_inv(d));
            } else if before.descriptors().contains_key(o) {
                assert(before.desc_inv(o));
                let x = before.descriptors()[o];
                if before.table.free_list().len() > 0 {
                    Self::lemma_skip_contains(before.pool(), o);
                    assert(before.pool().no_duplicates());
                } else {
                    if after.pool().contains(o) {
                        let i = choose|i: int| 0 <= i < after.pool().len() && after.pool()[i] == o;
                        assert(o == crate::heap::spec_slot(fresh, i + 1));
                    }
                }
                if x.spec_get_block_size() != 0 {
                    if x.spec_get_heap() == 0 {
                        assert(before.large_inv(o));
                    } else {
                        assert(before.small_inv(o));
                    }
                    if x.spec_get_heap() == 0 || x.spec_get_anchor().spec_state() != 2 {
                        assert forall|j: int| 0 <= j < before.span(o) / 4096 implies #[trigger] after.page_entry(
                            (x.spec_get_superblock() as int / 4096 + j) as u64,
                        ) == before.page_entry(
                            (x.spec_get_superblock() as int / 4096 + j) as u64,
                        ) by {
                            assert(before.page_filed(o, j));
                        }
                    }
                }
                assert forall|a: usize|
                    before.owners().contains_key(a) && before.owners()[a] == Owner::Superblock(
                        o,
                    ) implies #[trigger] Self::kept(before, after, a, Owner::Superblock(o)) by {}
                assert forall|i: int|
                    0 <= i < x.spec_get_maxcount() && before.block_known(o, i) implies #[trigger] after.block_known(
                    o,
                    i,
                ) by {}
                Self::lemma_desc_frame(before, after, o);
            } else {
                assert(mid.table@.contains_key(o) && !before.table@.contains_key(o));
                assert(after.table@[o] == mid.table@[o]);
                assert(after.table@[o].spec_get_block_size() == 0);
                let j = (o - fresh) / 64;
                assert(o % 64 == 0 && fresh % 64 == 0) by {
                    assert(fresh as int == 4096 * (fresh as int / 4096));
                }
                assert(o == fresh + 64 * j);
                assert(after.pool()[j - 1] == crate::heap::spec_slot(fresh, j));
                assert(after.pool().contains(o));
            }
        }
        assert forall|c: int, i: int|
            0 <= c < MAX_SZ_IDX && 0 <= i < after.partial_list(c).len() implies #[trigger] after.listed_inv(
            c,
            i,
        ) by {
            assert(before.listed_inv(c, i));
        }
        assert forall|key: u64| #[trigger] after.page_inv(key) by {
            assert(before.page_inv(key));
            if !spec_key_in(key, pages, size) {
                Self::lemma_page_frame(before, after, key);
            }
        }
        assert forall|b: usize| after.owners().contains_key(b) implies #[trigger] after.block_inv(
            b,
        ) by {
            if b != ptr {
                assert(before.block_inv(b));
                assert(before.page_inv(spec_addr_to_key(b)));
                Self::lemma_block_frame(before, after, b);
            }
        }
        assert forall|m: int| 0 <= m < after.num_bins() implies #[trigger] after.cache_inv(m) by {
            assert(before.cache_inv(m));
            assert forall|a: usize|
                before.owners().contains_key(a) && before.owners()[a] == Owner::Cache(
                    m,
                ) implies #[trigger] Self::kept(before, after, a, Owner::Cache(m)) by {}
            Self::lemma_cache_frame(before, after, m);
        }
        assert forall|q: usize| before.live(q) implies after.page_info(q) == before.page_info(q)
            && after.spec_usable_size(q) == before.spec_usable_size(q) by {
            assert(before.block_inv(q));
            assert(before.page_inv(spec_addr_to_key(q)));
        }
    }
}

impl R3Malloc {
    /// Takes back the large block whose address `ptr` was handed out: its
    /// pages leave the page map and are put down for release, and its
    /// descriptor is retired.
    fn large_free(&mut self, ptr: usize)
        requires
            old(self).inv(),
            old(self).live(ptr),
            old(self).page_info(ptr).spec_get_sc_idx() == 0,
        ensures
            final(self).inv(),
            final(self).same_apfs(old(self)),
            final(self).owners() == old(self).owners().remove(ptr),
            final(self).classes() == old(self).classes(),
            forall|q: usize|
                old(self).live(q) && q != ptr ==> final(self).page_info(q) == old(self).page_info(q)
                    && final(self).spec_usable_size(q) == old(self).spec_usable_size(q),
            final(self).same_caches(old(self)),
            final(self).descriptors().dom() == old(self).descriptors().dom(),
            final(self).released() == old(self).released().push(
                (
                    old(self).descriptors()[old(self).page_info(ptr).spec_get_desc()].spec_get_superblock(),
                    old(self).spec_usable_size(ptr) as usize,
                ),
            ),
            final(self).accepts_region(
                old(self).descriptors()[old(self).page_info(ptr).spec_get_desc()].spec_get_superblock(),
                old(self).spec_usable_size(ptr),
            ),
            final(self).pages_kept_or_cleared(old(self)),
            final(self).released_exactly(old(self)),
            final(self).mapped_from(old(self)),
            forall|k: u64|
                final(self).page_entry(k) == if spec_key_in(
                    k,
                    old(self).descriptors()[old(self).page_info(ptr).spec_get_desc()].spec_get_superblock(),
                    old(self).spec_usable_size(ptr),
                ) {
                    PageInfo::empty()
                } else {
                    old(self).page_entry(k)
                },
            final(self).pool() == seq![old(self).page_info(ptr).spec_get_desc()] + old(self).pool(),
            final(self).descriptors()[old(self).page_info(ptr).spec_get_desc()].spec_get_block_size()
                == 0,
            forall|c: int| 0 <= c < MAX_SZ_IDX ==> final(self).partial_list(c) == old(self).partial_list(c),
            forall|o: usize|
                o != old(self).page_info(ptr).spec_get_desc() && old(self).descriptors().contains_key(o)
                    ==> final(self).descriptors()[o] == old(self).descriptors()[o],
    {
        let ghost before = *self;
        let info = self.pagemap.get_page_info(ptr);
        let d: usize = info.get_desc();
        proof {
            assert(before.block_inv(ptr));
            assert(before.page_inv(spec_addr_to_key(ptr)));
            assert(before.desc_inv(d));
            assert(before.large_inv(d));
        }
        let desc = self.table.get(d);
        let superblock: usize = desc.get_superblock();
        let size: usize = desc.get_block_size() as usize;
        self.pagemap.set_range(PageInfo::new(), superblock, size);
        self.released.push((superblock, size));
        Descriptor::retire(&mut self.table, d);
        proof {
            self.owner = Ghost(self.owner@.remove(ptr));
        }
        proof {
            let after = *self;
            PageInfo::lemma_empty();
            assert(after.descriptors().dom() =~= before.descriptors().dom());
            // a block with another holder lies outside the region
            assert forall|a: usize| before.owners().contains_key(a) && a != ptr implies before.page_info(
                a,
            ).spec_get_desc() != d && after.page_info(a) == before.page_info(a) by {
                assert(before.block_inv(a));
                crate::pagemap::lemma_key_is_page_number(a);
                let key = spec_addr_to_key(a);
                if spec_key_in(key, superblock, size as int) {
                    assert(before.page_filed(d, key - superblock as int / 4096));
                }
            }
            assert forall|c: int| 0 <= c < MAX_SZ_IDX implies (#[trigger] after.heaps@[c]).spec_get_sc_idx()
                == c && after.heaps@[c].wf(&after.table) by {
                let h = after.heaps@[c];
                assert(h.wf(&before.table));
                assert forall|i: int| 0 <= i < h.partial().len() implies {
                    let e = #[trigger] h.partial()[i];
                    &&& after.table@.contains_key(e)
                    &&& after.table@[e].spec_get_heap() == before.table@[e].spec_get_heap()
                    &&& after.table@[e].spec_get_next_partial() == before.table@[e].spec_get_next_partial()
                } by {
                    assert(h.partial_entry_ok(&before.table, i));
                }
                h.lemma_frame(&before.table, &after.table);
            }
            assert(after.shape_inv());
            Self::lemma_cons_contains(before.pool(), d, d);
            assert forall|o: usize| after.descriptors().contains_key(o) implies #[trigger] after.desc_inv(
                o,
            ) by {
                assert(before.desc_inv(o));
                if o != d {
                    Self::lemma_cons_contains(before.pool(), d, o);
                    let x = before.descriptors()[o];
                    if x.spec_get_block_size() != 0 {
                        if x.spec_get_heap() == 0 {
                            assert(before.large_inv(o));
                        } else {
                            assert(before.small_inv(o));
                        }
                        if x.spec_get_heap() == 0 || x.spec_get_anchor().spec_state() != 2 {
                            assert forall|j: int| 0 <= j < before.span(o) / 4096 implies #[trigger] after.page_entry(
                                (x.spec_get_superblock() as int / 4096 + j) as u64,
                            ) == before.page_entry(
                                (x.spec_get_superblock() as int / 4096 + j) as u64,
                            ) by {
                                assert(before.page_filed(o, j));
                                let key = (x.spec_get_superblock() as int / 4096 + j) as u64;
                                if spec_key_in(key, superblock, size as int) {
                                    assert(before.page_filed(d, key - superblock as int / 4096));
                                }
                            }
                            if x.spec_get_heap() != 0 {
                                assert forall|i: int|
                                    0 <= i < x.spec_get_maxcount() && before.block_known(
                                        o,
                                        i,
                                    ) implies #[trigger] after.block_known(o, i) by {
                                    let b = spec_block_addr(
                                        x.spec_get_superblock(),
                                        x.spec_get_block_size(),
                                        i,
                                    );
                                    assert(before.classes().class_follows_schedule(
                                        x.spec_get_heap() as int,
                                    ));
                                    Self::lemma_block_place(
                                        x.spec_get_superblock(),
                                        x.spec_get_block_size(),
                                        x.spec_get_maxcount(),
                                        i,
                                        before.span(o),
                                    );
                                    before.lemma_in_region_filed(o, b);
                                }
                            }
                        }
                    }
                    assert forall|a: usize|
                        before.owners().contains_key(a) && before.owners()[a] == Owner::Superblock(
                            o,
                        ) implies #[trigger] Self::kept(&before, &after, a, Owner::Superblock(o)) by {}
                    Self::lemma_desc_frame(&before, &after, o);
                }
            }
            assert forall|c: int, i: int|
                0 <= c < MAX_SZ_IDX && 0 <= i < after.partial_list(c).len() implies #[trigger] after.listed_inv(
                c,
                i,
            ) by {
                assert(before.listed_inv(c, i));
            }
            assert forall|key: u64| #[trigger] after.page_inv(key) by {
                assert(before.page_inv(key));
                if !spec_key_in(key, superblock, size as int) {
                    Self::lemma_page_frame(&before, &after, key);
                }
            }
            assert forall|b: usize| after.owners().contains_key(b) implies #[trigger] after.block_inv(
                b,
            ) by {
                assert(before.block_inv(b));
                assert(before.page_inv(spec_addr_to_key(b)));
                Self::lemma_block_frame(&before, &after, b);
            }
            assert forall|m: int| 0 <= m < after.num_bins() implies #[trigger] after.cache_inv(m) by {
                assert(before.cache_inv(m));
                assert forall|a: usize|
                    before.owners().contains_key(a) && before.owners()[a] == Owner::Cache(
                        m,
                    ) implies #[trigger] Self::kept(&before, &after, a, Owner::Cache(m)) by {}
                Self::lemma_cache_frame(&before, &after, m);
            }
            assert forall|q: usize| before.live(q) && q != ptr implies after.page_info(q)
                == before.page_info(q) && after.spec_usable_size(q) == before.spec_usable_size(q) by {
                assert(before.block_inv(q));
                assert(before.page_inv(spec_addr_to_key(q)));
            }
            assert forall|k: u64| spec_key_in(k, superblock, size as int) implies (#[trigger] after.page_entry(
                k,
            )).spec_get_desc() == 0 by {}
            Self::lemma_released_nothing(&before, &before);
            assert forall|o: usize| #[trigger] after.mapped(o) implies {
                &&& before.mapped(o)
                &&& after.descriptors()[o].spec_get_superblock()
                    == before.descriptors()[o].spec_get_superblock()
                &&& after.span(o) == before.span(o)
            } by {}
            Self::lemma_released_step(&before, &before, &after, d, true);
        }
    }
}

/// Fresh regions from the page provider, by base address; 0 where none is
/// on offer. The one for descriptors has `DESCRIPTOR_BLOCK_SZ` bytes; the
/// one for blocks has as many bytes as the allocator asked for.
#[derive(Clone, Copy, Debug, PartialEq, Eq, Structural)]
pub struct Supply {
    /// A block of fresh pages for descriptors.
    pub descriptors: usize,
    /// Fresh pages for a superblock or a large block.
    pub pages: usize,
}

/// What a request for a block came to.
#[derive(Clone, Copy, Debug, PartialEq, Eq, Structural)]
pub enum Allocated {
    /// The block at `ptr` was handed out. The flags say which of the
    /// regions on offer were taken; one that was not taken is still the
    /// caller's.
    Block { ptr: usize, took_descriptors: bool, took_pages: bool },
    /// No block was handed out for want of fresh pages: `pages` bytes for
    /// blocks, and, if `descriptors` is set, a block for descriptors. The
    /// request can be made again with them.
    Want { descriptors: bool, pages: usize },
    /// The request is larger than a descriptor can record.
    TooLarge,
    /// The alignment asked for is not a power of two.
    Invalid,
    /// Nothing was asked for, or more than can be counted: the null pointer.
    Null,
}

impl R3Malloc {
    /// The predictor of the cache with index `n`.
    pub closed spec fn apf(&self, n: int) -> ApfView {
        self.apfs@[n]@
    }

    /// Whether every predictor is as in `before`.
    pub closed spec fn same_apfs(&self, before: &R3Malloc) -> bool {
        self.apfs@ == before.apfs@
    }

    /// Whether every cache holds the blocks that it held in `before`.
    pub open spec fn same_cache_contents(&self, before: &R3Malloc) -> bool {
        &&& self.num_bins() == before.num_bins()
        &&& forall|m: int| 0 <= m < self.num_bins() ==> self.cache(m) == before.cache(m)
    }

    /// Whether every predictor is in the state that it had in `before`.
    pub open spec fn same_apf_states(&self, before: &R3Malloc) -> bool {
        forall|m: int| 0 <= m < before.num_bins() ==> self.apf(m) == before.apf(m)
    }

    /// Whether users, caches and predictors are as in `before`.
    pub open spec fn unchanged(&self, before: &R3Malloc) -> bool {
        &&& self.same_users(before)
        &&& self.same_cache_contents(before)
        &&& self.same_apf_states(before)
    }

    /// Whether every predictor but the one of the cache with index `n` is
    /// as in `before`.
    pub open spec fn same_apfs_but(&self, before: &R3Malloc, n: int) -> bool {
        forall|m: int| 0 <= m < before.num_bins() && m != n ==> self.apf(m) == before.apf(m)
    }

    /// The predictor after an allocation, which fetched blocks or not.
    pub open spec fn apf_after_malloc(a: ApfView, fetched: bool) -> ApfView {
        ApfView {
            reuse: a.reuse.after_allocation().after_tick(),
            num_fetches: if fetched && a.num_fetches < u32::MAX {
                (a.num_fetches + 1) as u32
            } else {
                a.num_fetches
            },
            ..a
        }
    }

    /// Whether a request for `size` bytes is more than a descriptor can
    /// record.
    pub open spec fn too_large(size: usize) -> bool {
        size > MAX_SZ && spec_page_ceiling(size as int) > u32::MAX
    }

    /// The class that serves a request for `size` bytes, 0 for a large
    /// block.
    pub open spec fn class_for(&self, size: usize) -> int {
        if size > MAX_SZ {
            0
        } else {
            self.classes().spec_get_size_class(size) as int
        }
    }

    /// The bytes of fresh pages that a request of thread `tid` takes that is
    /// served from class `sc`, or, with `sc` 0, by a large block of `bytes`
    /// bytes: those of the large block, or those of a new superblock if the
    /// cache is empty and no superblock has free blocks, else 0.
    pub open spec fn class_wants_pages(&self, tid: int, sc: int, bytes: int) -> int {
        if sc == 0 {
            bytes
        } else if self.cache(Self::spec_bin_index(tid, sc)).len() == 0 && self.fill_wants_pages(sc) {
            self.classes().class(sc).spec_get_sb_size() as int
        } else {
            0
        }
    }

    /// Whether a request of thread `tid` that is served from class `sc`, or
    /// by a large block if `sc` is 0, takes a fresh block for descriptors.
    pub open spec fn class_wants_descriptors(&self, tid: int, sc: int) -> bool {
        if sc == 0 {
            self.pool().len() == 0
        } else {
            self.cache(Self::spec_bin_index(tid, sc)).len() == 0 && self.fill_wants_descriptors(sc)
        }
    }

    /// Whether `supply` holds what such a request takes.
    pub open spec fn class_supplied(&self, tid: int, sc: int, bytes: int, supply: Supply) -> bool {
        &&& self.class_wants_pages(tid, sc, bytes) != 0 ==> self.accepts_region(
            supply.pages,
            self.class_wants_pages(tid, sc, bytes),
        )
        &&& self.class_wants_descriptors(tid, sc) ==> self.accepts_descriptors(supply.descriptors)
    }

    /// The bytes of fresh pages that a request of thread `tid` for `size`
    /// bytes takes.
    pub open spec fn wants_pages(&self, tid: int, size: usize) -> int {
        self.class_wants_pages(tid, self.class_for(size), spec_page_ceiling(size as int))
    }

    /// Whether a request of thread `tid` for `size` bytes takes a fresh
    /// block for descriptors.
    pub open spec fn wants_descriptors(&self, tid: int, size: usize) -> bool {
        self.class_wants_descriptors(tid, self.class_for(size))
    }

    /// Whether `supply` holds what a request of thread `tid` for `size`
    /// bytes takes.
    pub open spec fn supplied(&self, tid: int, size: usize, supply: Supply) -> bool {
        self.class_supplied(tid, self.class_for(size), spec_page_ceiling(size as int), supply)
    }

    /// Whether the users hold what they held in `before` and the block at
    /// `ptr` besides, which was not held.
    pub open spec fn one_more_user(&self, before: &R3Malloc, ptr: usize) -> bool {
        &&& self.classes() == before.classes()
        &&& ptr != 0
        &&& !before.live(ptr)
        &&& self.live(ptr)
        &&& forall|q: usize| q != ptr ==> self.live(q) == before.live(q)
        &&& forall|q: usize|
            before.live(q) ==> self.page_info(q) == before.page_info(q) && self.spec_usable_size(q)
                == before.spec_usable_size(q)
    }

    /// Whether the users hold what they held in `before` but for the block
    /// at `ptr`, which was held.
    pub open spec fn one_user_less(&self, before: &R3Malloc, ptr: usize) -> bool {
        &&& self.classes() == before.classes()
        &&& before.live(ptr)
        &&& !self.live(ptr)
        &&& forall|q: usize| q != ptr ==> self.live(q) == before.live(q)
        &&& forall|q: usize|
            before.live(q) && q != ptr ==> self.page_info(q) == before.page_info(q)
                && self.spec_usable_size(q) == before.spec_usable_size(q)
    }

    /// Whether all but the predictors is as in `before`.
    pub open spec fn same_but_apfs(&self, before: &R3Malloc) -> bool {
        &&& self.same_descriptors(before)
        &&& self.same_pages(before)
        &&& self.same_caches(before)
        &&& self.owners() == before.owners()
        &&& self.released() == before.released()
    }

    /// What holds of all but the predictors still holds when only they
    /// change.
    proof fn lemma_apfs_changed(before: &R3Malloc, after: &R3Malloc)
        requires
            before.inv(),
            after.classes == before.classes,
            after.table == before.table,
            after.heaps == before.heaps,
            after.pagemap == before.pagemap,
            after.memory == before.memory,
            after.bins == before.bins,
            after.released == before.released,
            after.owner == before.owner,
            after.chains == before.chains,
            after.held == before.held,
            after.apfs@.len() == before.apfs@.len(),
            forall|n: int| 0 <= n < after.apfs@.len() ==> (#[trigger] after.apfs@[n])@.reuse.wf(),
        ensures
            after.inv(),
            after.same_but_apfs(before),
    {
        assert(after.shape_inv());
        Self::lemma_descriptor_side_frame(before, after);
        assert forall|b: usize| after.owners().contains_key(b) implies #[trigger] after.block_inv(
            b,
        ) by {
            assert(before.block_inv(b));
            Self::lemma_block_frame(before, after, b);
        }
        assert forall|m: int| 0 <= m < after.num_bins() implies #[trigger] after.cache_inv(m) by {
            assert(before.cache_inv(m));
            Self::lemma_cache_frame(before, after, m);
        }
    }

    /// Tells the predictor of the cache with index `n` of an allocation,
    /// and of the fetch that it took, if it took one.
    fn note_malloc(&mut self, n: usize, fetched: bool)
        requires
            old(self).inv(),
            n < old(self).num_bins(),
        ensures
            final(self).inv(),
            final(self).same_but_apfs(old(self)),
            final(self).same_apfs_but(old(self), n as int),
            final(self).apf(n as int) == Self::apf_after_malloc(old(self).apf(n as int), fetched),
    {
        let ghost before = *self;
        self.apfs[n].on_allocation();
        self.apfs[n].inc_timer();
        if fetched {
            self.apfs[n].on_fetch();
        }
        proof {
            let after = *self;
            assert forall|m: int| 0 <= m < after.apfs@.len() implies (#[trigger] after.apfs@[m])@.reuse.wf() by {
                if m != n {
                    assert(after.apfs@[m] == before.apfs@[m]);
                }
            }
            Self::lemma_apfs_changed(&before, &after);
        }
    }

    /// The predictor after a free.
    pub open spec fn apf_after_free(a: ApfView) -> ApfView {
        ApfView { reuse: a.reuse.after_free(), ..a }
    }

    /// The predictor after it was asked whether the cache holds too much.
    pub open spec fn apf_after_question(a: ApfView) -> ApfView {
        ApfView {
            current_apf: a.next_apf() as u32,
            reuse: a.reuse.after_compute(a.next_apf()),
            ..a
        }
    }

    /// Tells the predictor of the cache with index `n` of a free.
    fn note_free(&mut self, n: usize)
        requires
            old(self).inv(),
            n < old(self).num_bins(),
        ensures
            final(self).inv(),
            final(self).same_but_apfs(old(self)),
            final(self).same_apfs_but(old(self), n as int),
            final(self).apf(n as int) == Self::apf_after_free(old(self).apf(n as int)),
    {
        let ghost before = *self;
        self.apfs[n].on_free();
        proof {
            let after = *self;
            assert forall|m: int| 0 <= m < after.apfs@.len() implies (#[trigger] after.apfs@[m])@.reuse.wf() by {
                if m != n {
                    assert(after.apfs@[m] == before.apfs@[m]);
                }
            }
            Self::lemma_apfs_changed(&before, &after);
        }
    }

    /// Asks the predictor of the cache with index `n` whether the cache
    /// holds too much, with `available` blocks in it.
    fn ask_slots(&mut self, n: usize, available: usize) -> (r: Option<usize>)
        requires
            old(self).inv(),
            n < old(self).num_bins(),
        ensures
            final(self).inv(),
            final(self).same_but_apfs(old(self)),
            final(self).same_apfs_but(old(self), n as int),
            final(self).apf(n as int) == Self::apf_after_question(old(self).apf(n as int)),
            match old(self).apf(n as int).slots_to_cut(available as int) {
                Some(k) => r == Some(k as usize) && 1 <= k <= available,
                None => r.is_none(),
            },
    {
        let ghost before = *self;
        let r = self.apfs[n].should_update_slots(available);
        proof {
            let after = *self;
            assert forall|m: int| 0 <= m < after.apfs@.len() implies (#[trigger] after.apfs@[m])@.reuse.wf() by {
                if m != n {
                    assert(after.apfs@[m] == before.apfs@[m]);
                }
            }
            Self::lemma_apfs_changed(&before, &after);
        }
        r
    }

    /// The index of the cache of thread `tid` for class `sc_idx`.
    pub fn bin_index(&self, tid: usize, sc_idx: usize) -> (n: usize)
        requires
            self.inv(),
            tid < self.num_threads(),
            sc_idx < MAX_SZ_IDX,
        ensures
            n == Self::spec_bin_index(tid as int, sc_idx as int),
            n < self.num_bins(),
            n % MAX_SZ_IDX == sc_idx,
            n / MAX_SZ_IDX == tid,
    {
        let bins: usize = self.bins.len();
        proof {
            let threads = bins as int / (MAX_SZ_IDX as int);
            assert(bins == MAX_SZ_IDX * threads);
            assert(tid * 40 + 40 <= 40 * threads) by (nonlinear_arith)
                requires
                    tid + 1 <= threads,
            ;
        }
        tid * MAX_SZ_IDX + sc_idx
    }

    /// The number of threads.
    pub fn thread_count(&self) -> (r: usize)
        ensures
            r == self.num_threads(),
    {
        self.bins.len() / MAX_SZ_IDX
    }

    /// What a request of thread `tid` comes to that is served from class
    /// `sc`, or, with `sc` 0, by a large block of `bytes` bytes, with
    /// `before` the allocator before the request: a block if `supply` holds
    /// what the request takes, else the word what it takes.
    pub open spec fn served(
        &self,
        before: &R3Malloc,
        tid: int,
        sc: int,
        bytes: int,
        supply: Supply,
        notify: bool,
        r: Allocated,
    ) -> bool {
        let n = Self::spec_bin_index(tid, sc);
        match r {
            Allocated::TooLarge => false,
            Allocated::Invalid => false,
            Allocated::Null => false,
            Allocated::Want { descriptors, pages } => {
                &&& !before.class_supplied(tid, sc, bytes, supply)
                &&& pages == before.class_wants_pages(tid, sc, bytes)
                &&& descriptors == before.class_wants_descriptors(tid, sc)
                &&& self.class_wants_pages(tid, sc, bytes) == pages
                &&& self.class_wants_descriptors(tid, sc) == descriptors
                &&& self.same_users(before)
                &&& self.same_cache_contents(before)
                &&& self.same_apf_states(before)
            },
            Allocated::Block { ptr, took_descriptors, took_pages } => {
                &&& before.class_supplied(tid, sc, bytes, supply)
                &&& took_pages == (before.class_wants_pages(tid, sc, bytes) != 0)
                &&& took_descriptors == before.class_wants_descriptors(tid, sc)
                &&& self.one_more_user(before, ptr)
                &&& self.page_info(ptr).spec_get_sc_idx() == sc
                &&& sc == 0 ==> {
                    &&& self.spec_usable_size(ptr) == bytes
                    &&& self.descriptors()[self.page_info(ptr).spec_get_desc()].spec_get_maxcount() == 1
                    &&& self.descriptors()[self.page_info(ptr).spec_get_desc()].spec_get_anchor().spec_state()
                        == 0
                    &&& self.descriptors()[self.page_info(ptr).spec_get_desc()].spec_get_superblock()
                        == supply.pages
                    &&& supply.pages <= ptr < supply.pages + bytes
                    &&& self.same_cache_contents(before)
                    &&& self.same_apf_states(before)
                }
                &&& sc != 0 ==> {
                    &&& self.spec_usable_size(ptr) == self.classes().class(sc).spec_get_block_size()
                    &&& forall|m: int|
                        0 <= m < before.num_bins() && m != n ==> self.cache(m) == before.cache(m)
                    &&& self.same_apfs_but(before, n)
                    &&& self.apf(n) == if notify {
                        Self::apf_after_malloc(before.apf(n), before.cache(n).len() == 0)
                    } else {
                        before.apf(n)
                    }
                    &&& before.cache(n).len() > 0 ==> ptr == before.cache(n)[0] && self.cache(n)
                        == before.cache(n).skip(1)
                    &&& before.cache(n).len() == 0 ==> ptr == before.filling(sc, supply.pages)[0]
                        && self.cache(n) == before.filling(sc, supply.pages).skip(1)
                        && self.filled_from(before, sc, supply.descriptors)
                }
            },
        }
    }

    /// Hands out a block of class `sc_idx` to thread `tid` from its cache,
    /// which is filled first if it is empty. With `notify` the predictor is
    /// told.
    fn small_alloc(&mut self, tid: usize, sc_idx: usize, supply: Supply, notify: bool) -> (r: Allocated)
        requires
            old(self).inv(),
            tid < old(self).num_threads(),
            1 <= sc_idx < MAX_SZ_IDX,
        ensures
            final(self).inv(),
            final(self).num_bins() == old(self).num_bins(),
            final(self).released() == old(self).released(),
            final(self).served(old(self), tid as int, sc_idx as int, 0, supply, notify, r),
            r matches Allocated::Block { ptr, took_descriptors, took_pages } ==> ({
                let d = final(self).page_info(ptr).spec_get_desc();
                let desc = final(self).descriptors()[d];
                &&& desc.spec_get_superblock() % 4096 == 0
                &&& desc.spec_get_superblock() <= ptr
                &&& (ptr - desc.spec_get_superblock()) % (final(self).classes().class(
                    sc_idx as int,
                ).spec_get_block_size() as int) == 0
            }),
    {
        let ghost before = *self;
        let n: usize = self.bin_index(tid, sc_idx);
        proof {
            assert(before.classes().class_follows_schedule(sc_idx as int));
            assert(before.cache_inv(n as int));
        }
        let mut fetched: bool = false;
        let mut took_pages: bool = false;
        let mut took_descriptors: bool = false;
        if unlikely(self.bins[n].get_block_num() == 0) {
            let sb_size: usize = self.classes.get(sc_idx).get_sb_size() as usize;
            let filled = self.fill_cache(sc_idx, n, supply.descriptors, supply.pages);
            if filled.0 == 0 {
                proof {
                    assert(self.cache(n as int) =~= before.cache(n as int));
                }
                return Allocated::Want { descriptors: filled.2, pages: sb_size };
            }
            fetched = true;
            took_pages = filled.1;
            took_descriptors = filled.2;
        }
        let ghost mid0 = *self;
        if notify {
            self.note_malloc(n, fetched);
        }
        let ghost mid = *self;
        proof {
            assert forall|q: usize| mid0.live(q) implies mid.page_info(q) == mid0.page_info(q)
                && mid.spec_usable_size(q) == mid0.spec_usable_size(q) by {}
            assert(mid0.apf(n as int) == before.apf(n as int));
            assert(mid.cache(n as int) == mid0.cache(n as int));
            assert forall|m: int| 0 <= m < before.num_bins() && m != n implies mid.apf(m) == before.apf(
                m,
            ) by {
                assert(mid0.apf(m) == before.apf(m));
            }
        }
        let ptr = self.cache_pop(n);
        proof {
            let after = *self;
            assert(after.apf(n as int) == mid.apf(n as int));
            assert forall|m: int| 0 <= m < before.num_bins() && m != n implies after.apf(m)
                == before.apf(m) by {
                assert(after.apf(m) == mid.apf(m));
            }
            assert forall|m: int| 0 <= m < before.num_bins() && m != n implies after.cache(m)
                == before.cache(m) by {
                assert(mid.cache(m) == mid0.cache(m));
            }
            assert(mid.block_inv(ptr));
            mid.lemma_block_facts(ptr);
            assert forall|q: usize| before.live(q) implies after.page_info(q) == before.page_info(q)
                && after.spec_usable_size(q) == before.spec_usable_size(q) by {
                assert(mid.live(q));
            }
            let d = mid.page_info(ptr).spec_get_desc();
            assert(mid.desc_inv(d));
            assert(mid.region_filed(d));
        }
        Allocated::Block { ptr, took_descriptors, took_pages }
    }

    /// Hands out a large block of `bytes` bytes, and of it the address
    /// `offset` bytes in.
    fn big_alloc(&mut self, bytes: usize, offset: usize, supply: Supply) -> (r: Allocated)
        requires
            old(self).inv(),
            0 < bytes <= u32::MAX,
            offset < bytes,
        ensures
            final(self).inv(),
            final(self).num_bins() == old(self).num_bins(),
            final(self).released() == old(self).released(),
            forall|tid: int| final(self).served(old(self), tid, 0, bytes as int, supply, false, r),
            r matches Allocated::Block { ptr, took_descriptors, took_pages } ==> ptr == supply.pages
                + offset && final(self).descriptors()[final(self).page_info(ptr).spec_get_desc()].spec_get_superblock() == supply.pages,
    {
        let ghost before = *self;
        let want_descriptors: bool = self.table.is_empty();
        let ptr = self.large_alloc(bytes, offset, supply.descriptors, supply.pages);
        if ptr == 0 {
            return Allocated::Want { descriptors: want_descriptors, pages: bytes };
        }
        proof {
            let after = *self;
            assert forall|q: usize| q != ptr implies after.live(q) == before.live(q) by {}
            before.lemma_null_unknown();
            after.lemma_live_block(ptr);
        }
        Allocated::Block { ptr, took_descriptors: want_descriptors, took_pages: true }
    }

    /// Hands out a block of at least `size` bytes to thread `tid`.
    ///
    /// A size up to `MAX_SZ` is served from the thread's cache of the least
    /// class that holds it; an empty cache is filled first, from a
    /// superblock with free blocks or from a new one. A greater size gets
    /// pages of its own. Where fresh pages are wanted and `supply` does not
    /// hold them, no block is handed out and the result says what is
    /// wanted.
    pub fn do_malloc(&mut self, tid: usize, size: usize, supply: Supply) -> (r: Allocated)
        requires
            old(self).inv(),
            tid < old(self).num_threads(),
        ensures
            final(self).inv(),
            final(self).num_bins() == old(self).num_bins(),
            final(self).released() == old(self).released(),
            !(r is Invalid),
            (r is TooLarge) == Self::too_large(size),
            r is TooLarge ==> final(self).unchanged(old(self)),
            !(r is TooLarge) ==> final(self).served(
                old(self),
                tid as int,
                old(self).class_for(size),
                spec_page_ceiling(size as int),
                supply,
                true,
                r,
            ),
            r matches Allocated::Block { ptr, took_descriptors, took_pages } ==> final(self).spec_usable_size(ptr) >= size
                && (size > MAX_SZ ==> ptr == supply.pages),
    {
        if unlikely(size > MAX_SZ) {
            if size > usize::MAX - 4095 {
                return Allocated::TooLarge;
            }
            let pages: usize = page_ceiling(size);
            if pages > u32::MAX as usize {
                return Allocated::TooLarge;
            }
            let ghost before = *self;
            let r = self.big_alloc(pages, 0, supply);
            proof {
                assert(self.served(&before, tid as int, 0, pages as int, supply, false, r));
            }
            return r;
        }
        let sc_idx: usize = self.classes.get_size_class(size);
        proof {
            assert(self.classes().is_least_class_for(sc_idx as int, size as int));
        }
        self.small_alloc(tid, sc_idx, supply, true)
    }
}

impl R3Malloc {
    /// The blocks in the cache with index `n` after one more block was given
    /// back to it: all were flushed if the cache was full; else, if the
    /// predictor said so, a run of blocks was cut from the top.
    pub open spec fn cache_after_free(&self, n: int) -> Seq<usize> {
        let chain = self.cache(n);
        if chain.len() >= self.capacity(n) {
            Seq::empty()
        } else {
            match Self::apf_after_free(self.apf(n)).slots_to_cut(chain.len() as int) {
                Some(k) => chain.skip(self.run_length(n, k)),
                None => chain,
            }
        }
    }

    /// Whether `self` comes of `before` by the steps in which a block of a
    /// superblock is taken back into the cache with index `n`: the predictor
    /// is told, which leaves all else as it is, in `told`; a cache that is
    /// full gives back run after run, and one that is to be cut gives back
    /// one run, which leads to `cut`; and the block goes on top of the
    /// cache, which leaves descriptors, lists and pages as they are.
    pub open spec fn freed_in_steps(
        &self,
        before: &R3Malloc,
        told: &R3Malloc,
        cut: &R3Malloc,
        n: int,
        ptr: usize,
    ) -> bool {
        &&& told.inv()
        &&& cut.inv()
        &&& told.same_but_apfs(before)
        &&& if before.cache(n).len() >= before.capacity(n) {
            Self::runs_returned(told, cut, n)
        } else {
            match Self::apf_after_free(before.apf(n)).slots_to_cut(before.cache(n).len() as int) {
                Some(k) => Self::run_returned(told, cut, n, k),
                None => *cut == *told,
            }
        }
        &&& self.same_descriptors(cut)
        &&& self.same_pages(cut)
        &&& self.released() == cut.released()
        &&& self.owners() == cut.owners().insert(ptr, Owner::Cache(n))
    }

    /// What taking back the block at `ptr` from thread `tid` does to the
    /// allocator `before`: nothing for 0; a large block gives up its pages;
    /// a block of a superblock goes on top of the thread's cache of its
    /// class, after the cache was flushed or cut where that was due.
    pub open spec fn freed(&self, before: &R3Malloc, tid: int, ptr: usize) -> bool {
        let sc = before.page_info(ptr).spec_get_sc_idx() as int;
        let n = Self::spec_bin_index(tid, sc);
        &&& self.num_bins() == before.num_bins()
        &&& self.released_since(before)
        &&& self.released_exactly(before)
        &&& ptr == 0 ==> {
            &&& self.same_users(before)
            &&& self.same_cache_contents(before)
            &&& self.released() == before.released()
            &&& self.same_apf_states(before)
        }
        &&& ptr != 0 ==> self.one_user_less(before, ptr)
        &&& ptr != 0 && sc == 0 ==> {
            &&& self.same_cache_contents(before)
            &&& self.same_apf_states(before)
            &&& self.descriptors().dom() == before.descriptors().dom()
            &&& self.pool() == seq![before.page_info(ptr).spec_get_desc()] + before.pool()
            &&& self.descriptors()[before.page_info(ptr).spec_get_desc()].spec_get_block_size() == 0
            &&& forall|o: usize|
                o != before.page_info(ptr).spec_get_desc() && before.descriptors().contains_key(o)
                    ==> self.descriptors()[o] == before.descriptors()[o]
            &&& forall|c: int| 0 <= c < MAX_SZ_IDX ==> self.partial_list(c) == before.partial_list(c)
            &&& forall|k: u64|
                self.page_entry(k) == if spec_key_in(
                    k,
                    before.descriptors()[before.page_info(ptr).spec_get_desc()].spec_get_superblock(),
                    before.spec_usable_size(ptr),
                ) {
                    PageInfo::empty()
                } else {
                    before.page_entry(k)
                }
            &&& self.released() == before.released().push(
                (
                    before.descriptors()[before.page_info(ptr).spec_get_desc()].spec_get_superblock(),
                    before.spec_usable_size(ptr) as usize,
                ),
            )
        }
        &&& ptr != 0 && sc != 0 ==> {
            &&& self.cache(n) == seq![ptr] + before.cache_after_free(n)
            &&& forall|m: int|
                0 <= m < before.num_bins() && m != n ==> self.cache(m) == before.cache(m)
            &&& self.same_apfs_but(before, n)
            &&& self.apf(n) == if before.cache(n).len() >= before.capacity(n) {
                Self::apf_after_free(before.apf(n))
            } else {
                Self::apf_after_question(Self::apf_after_free(before.apf(n)))
            }
            &&& exists|told: R3Malloc, cut: R3Malloc| #[trigger]
                self.freed_in_steps(before, &told, &cut, n, ptr)
        }
    }

    /// Takes back the block at `ptr` from thread `tid`; 0 stands for no
    /// block.
    ///
    /// A large block gives up its pages. A block of a superblock goes on top
    /// of the thread's cache of its class. Before that, a cache that is full
    /// is flushed, and one from which the predictor says to give blocks back
    /// is cut. Regions that became free are put down for release.
    pub fn do_free(&mut self, tid: usize, ptr: usize)
        requires
            old(self).inv(),
            tid < old(self).num_threads(),
            ptr == 0 || old(self).live(ptr),
        ensures
            final(self).inv(),
            final(self).freed(old(self), tid as int, ptr),
    {
        let ghost before = *self;
        if unlikely(ptr == 0) {
            proof {
                Self::lemma_released_nothing(&before, &before);
            }
            return ;
        }
        let info = self.pagemap.get_page_info(ptr);
        let sc_idx: usize = info.get_sc_idx();
        proof {
            assert(before.block_inv(ptr));
            assert(before.page_inv(spec_addr_to_key(ptr)));
        }
        if unlikely(sc_idx == 0) {
            self.large_free(ptr);
            proof {
                let after = *self;
                assert forall|q: usize| q != ptr implies after.live(q) == before.live(q) by {}
            }
            return ;
        }
        proof {
            before.lemma_block_facts(ptr);
        }
        let n: usize = self.bin_index(tid, sc_idx);
        let sc = self.classes.get(sc_idx);
        proof {
            assert(before.cache_inv(n as int));
            assert(before.classes().class_follows_schedule(sc_idx as int));
        }
        self.note_free(n);
        let ghost noted = *self;
        let ghost asked = *self;
        if unlikely(self.bins[n].get_block_num() >= sc.get_cache_block_num()) {
            self.flush_cache(sc_idx, n);
            proof {
                assert(self.cache(n as int) =~= Seq::<usize>::empty());
            }
        } else {
            let available: usize = self.bins[n].get_block_num() as usize;
            let slots = self.ask_slots(n, available);
            proof {
                asked = *self;
                Self::lemma_released_nothing(&asked, &asked);
            }
            match slots {
                Some(num_slots) => {
                    proof {
                        assert(asked.cache(n as int) == before.cache(n as int));
                        assert(asked.run_length(n as int, num_slots as int) == before.run_length(
                            n as int,
                            num_slots as int,
                        ));
                    }
                    self.cut_cache(sc_idx, n, num_slots as u32);
                    proof {
                        let after = *self;
                        assert forall|i: int| 0 <= i < asked.released().len() implies #[trigger] after.released()[i]
                            == before.released()[i] by {}
                    }
                },
                None => {},
            }
        }
        let ghost mid = *self;
        proof {
            assert(mid.live(ptr));
            assert(mid.page_info(ptr) == before.page_info(ptr));
            assert(mid.cache_inv(n as int));
        }
        self.cache_push(n, ptr);
        proof {
            let after = *self;
            assert(after.freed_in_steps(&before, &asked, &mid, n as int, ptr));
            Self::lemma_released_transfer(&asked, &mid, &before, &after);
            assert forall|q: usize| q != ptr implies after.live(q) == before.live(q) by {
                assert(mid.live(q) == before.live(q));
            }
            assert forall|q: usize| before.live(q) && q != ptr implies after.page_info(q)
                == before.page_info(q) && after.spec_usable_size(q) == before.spec_usable_size(q) by {
                assert(mid.live(q));
                assert(mid.page_info(q) == before.page_info(q));
            }
            assert forall|i: int|
                before.released().len() <= i < after.released().len() implies after.accepts_region(
                (#[trigger] after.released()[i]).0,
                after.released()[i].1 as int,
            ) by {
                assert(mid.accepts_region(mid.released()[i].0, mid.released()[i].1 as int));
                assert forall|k: u64|
                    spec_key_in(
                        k,
                        after.released()[i].0,
                        after.released()[i].1 as int,
                    ) implies (#[trigger] after.page_entry(k)).spec_get_desc() == 0 by {
                    assert(mid.page_entry(k).spec_get_desc() == 0);
                }
            }
        }
    }
}

/// An allocator without threads, descriptors or blocks.
pub fn init_malloc() -> (r: R3Malloc)
    ensures
        r.inv(),
        r.num_bins() == 0,
        r.descriptors() == Map::<usize, Descriptor>::empty(),
        r.owners() == Map::<usize, Owner>::empty(),
        r.released() == Seq::<(usize, usize)>::empty(),
{
    R3Malloc::new()
}

impl R3Malloc {
    /// Whether `after` comes of `before` by flushing the caches of thread
    /// `tid` for the classes below `upto`, one after the other: each gives
    /// back run after run until it is empty.
    pub open spec fn flushed_upto(before: &R3Malloc, after: &R3Malloc, tid: int, upto: int) -> bool
        decreases upto,
    {
        if upto <= 1 {
            *after == *before
        } else {
            exists|mid: R3Malloc|
                {
                    &&& mid.inv()
                    &&& Self::flushed_upto(before, &mid, tid, upto - 1)
                    &&& #[trigger] Self::runs_returned(
                        &mid,
                        after,
                        Self::spec_bin_index(tid, upto - 1),
                    )
                }
        }
    }

    /// Flushes every cache of thread `tid`, as the thread ends.
    pub fn thread_finalize(&mut self, tid: usize)
        requires
            old(self).inv(),
            tid < old(self).num_threads(),
        ensures
            final(self).inv(),
            final(self).num_bins() == old(self).num_bins(),
            final(self).same_users(old(self)),
            final(self).same_apf_states(old(self)),
            final(self).released_since(old(self)),
            final(self).released_exactly(old(self)),
            Self::flushed_upto(old(self), final(self), tid as int, MAX_SZ_IDX as int),
            forall|m: int|
                0 <= m < old(self).num_bins() ==> final(self).cache(m) == if m / (MAX_SZ_IDX as int)
                    == tid {
                    Seq::<usize>::empty()
                } else {
                    old(self).cache(m)
                },
    {
        let ghost before = *self;
        let first: usize = self.bin_index(tid, 0);
        proof {
            assert(before.cache_inv(first as int));
            assert(before.cache(first as int) =~= Seq::<usize>::empty());
        }
        proof {
            Self::lemma_released_nothing(&before, &before);
        }
        let mut sc_idx: usize = 1;
        while sc_idx < MAX_SZ_IDX
            invariant
                before == *old(self),
                before.inv(),
                1 <= sc_idx <= MAX_SZ_IDX,
                self.inv(),
                tid < self.num_threads(),
                self.num_bins() == before.num_bins(),
                self.same_users(&before),
                self.same_apfs(&before),
                self.released_since(&before),
                self.released_exactly(&before),
                self.mapped_from(&before),
                self.pages_kept_or_cleared(&before),
                Self::flushed_upto(&before, self, tid as int, sc_idx as int),
                forall|m: int|
                    0 <= m < before.num_bins() ==> #[trigger] self.cache(m) == if m / (
                    MAX_SZ_IDX as int) == tid && m % (MAX_SZ_IDX as int) < sc_idx {
                        Seq::<usize>::empty()
                    } else {
                        before.cache(m)
                    },
            decreases MAX_SZ_IDX - sc_idx,
        {
            let ghost here = *self;
            let n: usize = self.bin_index(tid, sc_idx);
            self.flush_cache(sc_idx, n);
            proof {
                let after = *self;
                let upto = sc_idx as int + 1;
                assert(here.inv());
                assert(Self::flushed_upto(&before, &here, tid as int, upto - 1));
                assert(Self::runs_returned(&here, &after, Self::spec_bin_index(tid as int, upto - 1)));
                assert(Self::flushed_upto(&before, &after, tid as int, upto));
                Self::lemma_released_compose(&before, &here, &after);
                assert(after.cache(n as int) =~= Seq::<usize>::empty());
                assert forall|m: int| 0 <= m < before.num_bins() implies #[trigger] after.cache(m)
                    == if m / (MAX_SZ_IDX as int) == tid && m % (MAX_SZ_IDX as int) < sc_idx + 1 {
                    Seq::<usize>::empty()
                } else {
                    before.cache(m)
                } by {
                    if m != n {
                        assert(after.cache(m) == here.cache(m));
                        if m / (MAX_SZ_IDX as int) == tid && m % (MAX_SZ_IDX as int) == sc_idx {
                            assert(m == MAX_SZ_IDX * (m / (MAX_SZ_IDX as int)) + m % (MAX_SZ_IDX as int));
                        }
                    }
                }
                assert forall|i: int|
                    before.released().len() <= i < after.released().len() implies after.accepts_region(
                    (#[trigger] after.released()[i]).0,
                    after.released()[i].1 as int,
                ) by {
                    if i < here.released().len() {
                        assert(after.released()[i] == here.released()[i]);
                        after.lemma_accepts_after_clearing(
                            &here,
                            here.released()[i].0,
                            here.released()[i].1 as int,
                        );
                    }
                }
                assert forall|i: int| 0 <= i < before.released().len() implies #[trigger] after.released()[i]
                    == before.released()[i] by {
                    assert(here.released()[i] == before.released()[i]);
                }
                assert forall|key: u64|
                    #[trigger] after.page_entry(key) == before.page_entry(key) || after.page_entry(key)
                        == PageInfo::empty() by {
                    assert(after.page_entry(key) == here.page_entry(key) || after.page_entry(key)
                        == PageInfo::empty());
                    assert(here.page_entry(key) == before.page_entry(key) || here.page_entry(key)
                        == PageInfo::empty());
                }
                assert forall|p: usize| before.live(p) implies after.page_info(p) == before.page_info(p)
                    && after.spec_usable_size(p) == before.spec_usable_size(p) by {
                    assert(here.live(p));
                }
            }
            sc_idx += 1;
        }
        proof {
            let after = *self;
            assert forall|m: int| 0 <= m < before.num_bins() implies after.cache(m) == if m / (
            MAX_SZ_IDX as int) == tid {
                Seq::<usize>::empty()
            } else {
                before.cache(m)
            } by {
                if m / (MAX_SZ_IDX as int) == tid && m % (MAX_SZ_IDX as int) == 0 {
                    assert(m == MAX_SZ_IDX * (m / (MAX_SZ_IDX as int)) + m % (MAX_SZ_IDX as int));
                    assert(m == first);
                }
            }
        }
    }

    /// Hands over the regions that were put down for release, as base and
    /// size, the oldest first, and forgets them.
    pub fn take_released(&mut self) -> (r: Vec<(usize, usize)>)
        requires
            old(self).inv(),
        ensures
            final(self).inv(),
            r@ == old(self).released(),
            final(self).released() == Seq::<(usize, usize)>::empty(),
            final(self).same_users(old(self)),
            final(self).same_cache_contents(old(self)),
            final(self).same_apf_states(old(self)),
            final(self).same_descriptors(old(self)),
            final(self).same_pages(old(self)),
    {
        let ghost before = *self;
        let mut out: Vec<(usize, usize)> = Vec::new();
        std::mem::swap(&mut out, &mut self.released);
        proof {
            let after = *self;
            assert(after.shape_inv());
            Self::lemma_descriptor_side_frame(&before, &after);
            assert forall|b: usize| after.owners().contains_key(b) implies #[trigger] after.block_inv(
                b,
            ) by {
                assert(before.block_inv(b));
                Self::lemma_block_frame(&before, &after, b);
            }
            assert forall|m: int| 0 <= m < after.num_bins() implies #[trigger] after.cache_inv(m) by {
                assert(before.cache_inv(m));
                Self::lemma_cache_frame(&before, &after, m);
            }
        }
        out
    }

    /// The page-map entry for the page that holds `ptr`.
    pub fn get_page_info(&self, ptr: usize) -> (r: PageInfo)
        ensures
            r == self.page_info(ptr),
    {
        self.pagemap.get_page_info(ptr)
    }

    /// The page map does not know address 0, and nobody holds it.
    pub proof fn lemma_null_unknown(&self)
        requires
            self.inv(),
        ensures
            self.page_info(0).spec_get_desc() == 0,
            !self.owners().contains_key(0),
    {
        crate::pagemap::lemma_key_is_page_number(0);
        let d = self.page_info(0).spec_get_desc();
        assert(self.page_inv(spec_addr_to_key(0)));
        if d != 0 {
            assert(self.desc_inv(d));
            if self.descriptors()[d].spec_get_heap() == 0 {
                assert(self.large_inv(d));
            } else {
                assert(self.small_inv(d));
            }
            assert(self.region_filed(d));
        }
        if self.owners().contains_key(0) {
            assert(self.block_inv(0));
        }
    }

    /// The bytes that the holder of `ptr` may use; 0 for 0 and for an
    /// address that the page map does not know.
    pub fn usable_size(&self, ptr: usize) -> (r: usize)
        requires
            self.inv(),
        ensures
            self.live(ptr) ==> r == self.spec_usable_size(ptr) && r > 0,
            ptr == 0 ==> r == 0,
            self.page_info(ptr).spec_get_desc() == 0 ==> r == 0,
            self.page_info(ptr).spec_get_desc() != 0 ==> r == self.spec_usable_size(ptr),
    {
        if ptr == 0 {
            proof {
                self.lemma_null_unknown();
            }
            return 0;
        }
        let info = self.pagemap.get_page_info(ptr);
        let desc: usize = info.get_desc();
        proof {
            assert(self.page_inv(spec_addr_to_key(ptr)));
            if self.owners().contains_key(ptr) {
                assert(self.block_inv(ptr));
            }
        }
        if desc == 0 {
            return 0;
        }
        let sc_idx: usize = info.get_sc_idx();
        if sc_idx == 0 {
            return self.table.get(desc).get_block_size() as usize;
        }
        proof {
            assert(self.desc_inv(desc));
            assert(self.small_inv(desc));
            assert(self.classes().class_follows_schedule(sc_idx as int));
        }
        self.classes.get(sc_idx).get_block_size() as usize
    }

    /// The number of blocks in the cache of thread `tid` for class `sc_idx`.
    pub fn cache_block_num(&self, tid: usize, sc_idx: usize) -> (r: u32)
        requires
            self.inv(),
            tid < self.num_threads(),
            sc_idx < MAX_SZ_IDX,
        ensures
            r == self.cache(Self::spec_bin_index(tid as int, sc_idx as int)).len(),
            r <= self.capacity(Self::spec_bin_index(tid as int, sc_idx as int)),
    {
        let n = self.bin_index(tid, sc_idx);
        proof {
            assert(self.cache_inv(n as int));
        }
        self.bins[n].get_block_num()
    }

    /// The descriptor at `desc`, if there is one.
    pub fn get_descriptor(&self, desc: usize) -> (r: Option<Descriptor>)
        ensures
            r == if self.descriptors().contains_key(desc) {
                Some(self.descriptors()[desc])
            } else {
                None
            },
    {
        if self.table.contains(desc) {
            Some(self.table.get(desc))
        } else {
            None
        }
    }

    /// The heap of class `sc_idx`.
    pub fn get_heap(&self, sc_idx: usize) -> (r: &ProcHeap)
        requires
            self.inv(),
            sc_idx < MAX_SZ_IDX,
        ensures
            r.partial() == self.partial_list(sc_idx as int),
            r.spec_get_sc_idx() == sc_idx,
    {
        &self.heaps[sc_idx]
    }

    /// Whether the pool holds no retired descriptor.
    pub fn pool_is_empty(&self) -> (r: bool)
        requires
            self.inv(),
        ensures
            r == (self.pool().len() == 0),
    {
        self.table.is_empty()
    }

    /// The size classes are those of the schedule.
    pub proof fn lemma_classes_wf(&self)
        requires
            self.inv(),
        ensures
            self.classes().wf(),
    {
    }

    /// Every thread has one cache and one predictor for each class, and the
    /// sample of every predictor is well formed.
    pub proof fn lemma_bins_of_threads(&self)
        requires
            self.inv(),
        ensures
            self.num_bins() == self.num_threads() * MAX_SZ_IDX,
            forall|n: int| 0 <= n < self.num_bins() ==> (#[trigger] self.apf(n)).reuse.wf(),
    {
    }

    /// The size classes.
    pub fn size_classes(&self) -> (r: &SizeClassTable)
        ensures
            *r == self.classes(),
    {
        &self.classes
    }

    /// The predictor of thread `tid` for class `sc_idx`.
    pub fn get_apf(&self, tid: usize, sc_idx: usize) -> (r: &Apf)
        requires
            self.inv(),
            tid < self.num_threads(),
            sc_idx < MAX_SZ_IDX,
        ensures
            r@ == self.apf(Self::spec_bin_index(tid as int, sc_idx as int)),
    {
        let n = self.bin_index(tid, sc_idx);
        &self.apfs[n]
    }
}

/// A multiple of a multiple is a multiple, and so is a sum of multiples.
pub proof fn lemma_sum_of_multiples(x: int, y: int, m: int, n: int, a: int)
    requires
        a > 0,
        m > 0,
        n > 0,
        x >= 0,
        y >= 0,
        x % m == 0,
        m % a == 0,
        y % n == 0,
        n % a == 0,
    ensures
        (x + y) % a == 0,
{
    vstd::arithmetic::div_mod::lemma_fundamental_div_mod(x, m);
    vstd::arithmetic::div_mod::lemma_fundamental_div_mod(m, a);
    vstd::arithmetic::div_mod::lemma_fundamental_div_mod(y, n);
    vstd::arithmetic::div_mod::lemma_fundamental_div_mod(n, a);
    let u = x / m;
    let v = m / a;
    let s = y / n;
    let t = n / a;
    assert(m * u == (v * u) * a) by (nonlinear_arith)
        requires
            m == a * v,
    ;
    assert(n * s == (t * s) * a) by (nonlinear_arith)
        requires
            n == a * t,
    ;
    let q = v * u + t * s;
    assert((v * u) * a + (t * s) * a == q * a) by (nonlinear_arith)
        requires
            q == v * u + t * s,
    ;
    vstd::arithmetic::div_mod::lemma_mod_multiples_basic(q, a);
}

impl R3Malloc {
    /// The size of an aligned request, made a multiple of the alignment; a
    /// request for no bytes counts as one for one byte.
    pub open spec fn aligned_size(alignment: usize, size: usize) -> usize {
        spec_align_val(
            if size == 0 {
                1
            } else {
                size
            },
            alignment,
        )
    }

    /// Whether an aligned request overflows the address arithmetic.
    pub open spec fn aligned_overflows(alignment: usize, size: usize) -> bool {
        (if size == 0 {
            1
        } else {
            size as int
        }) + alignment - 1 > usize::MAX
    }

    /// Whether an aligned request gets pages of its own whatever its size:
    /// its alignment is above a page, or it asks for more than a page at
    /// page alignment. Such a block gives its pages back as soon as it is
    /// freed.
    pub open spec fn takes_whole_pages(alignment: usize, size: usize) -> bool {
        alignment > PAGE || (alignment == PAGE && Self::aligned_size(alignment, size) > PAGE)
    }

    /// The class that serves an aligned request: that of its size, if a
    /// class holds the size, the blocks of the class lie at multiples of the
    /// alignment, and the request is not one that gets pages of its own;
    /// else 0, for a large block.
    pub open spec fn aligned_class(&self, alignment: usize, size: usize) -> int {
        let s = Self::aligned_size(alignment, size);
        let sc = self.classes().spec_get_size_class(s) as int;
        if s <= MAX_SZ && !Self::takes_whole_pages(alignment, size) && self.classes().class(
            sc,
        ).spec_get_block_size() as int % (alignment as int) == 0 {
            sc
        } else {
            0
        }
    }

    /// The bytes of the large block that serves an aligned request: more
    /// than any class holds, and where the alignment is greater than a page,
    /// as much more as the alignment.
    pub open spec fn aligned_bytes(alignment: usize, size: usize) -> int {
        let s = Self::aligned_size(alignment, size);
        spec_page_ceiling(
            (if s > MAX_SZ {
                s as int
            } else {
                MAX_SZ + 1
            }) + (if alignment > PAGE {
                alignment as int
            } else {
                0
            }),
        )
    }

    /// Whether an aligned request cannot be served at all.
    pub open spec fn aligned_too_large(&self, alignment: usize, size: usize) -> bool {
        Self::aligned_overflows(alignment, size) || (self.aligned_class(alignment, size) == 0
            && Self::aligned_bytes(alignment, size) > u32::MAX)
    }

    /// Hands out a block of at least `size` bytes at a multiple of
    /// `alignment` to thread `tid`.
    ///
    /// The size is made a multiple of the alignment. If a class holds it and
    /// the blocks of the class lie at multiples of the alignment, the block
    /// comes from the thread's cache of that class, as for an ordinary
    /// request. A request with an alignment above a page, or for more than a
    /// page at page alignment, gets pages of its own instead, as does one
    /// that no class holds: a large block, with room to spare where the
    /// alignment is greater than a page, and the address handed out is the
    /// first multiple of the alignment in it.
    pub fn do_aligned_alloc(&mut self, tid: usize, alignment: usize, size: usize, supply: Supply) -> (r:
        Allocated)
        requires
            old(self).inv(),
            tid < old(self).num_threads(),
        ensures
            final(self).inv(),
            final(self).num_bins() == old(self).num_bins(),
            final(self).released() == old(self).released(),
            (r is Invalid) == !spec_is_power_of_two(alignment),
            (r is TooLarge) == (spec_is_power_of_two(alignment) && old(self).aligned_too_large(
                alignment,
                size,
            )),
            r is TooLarge || r is Invalid ==> final(self).unchanged(old(self)),
            !(r is TooLarge) && !(r is Invalid) ==> final(self).served(
                old(self),
                tid as int,
                old(self).aligned_class(alignment, size),
                Self::aligned_bytes(alignment, size),
                supply,
                true,
                r,
            ),
            r matches Allocated::Block { ptr, took_descriptors, took_pages } ==> {
                &&& ptr % alignment == 0
                &&& final(self).spec_usable_size(ptr) >= size
                &&& old(self).aligned_class(alignment, size) == 0 ==> {
                    &&& ptr + size <= supply.pages + final(self).spec_usable_size(ptr)
                    &&& ptr == if alignment > PAGE {
                        spec_align_val(supply.pages, alignment)
                    } else {
                        supply.pages
                    }
                }
            },
    {
        let ghost before = *self;
        if unlikely(!is_power_of_two(alignment)) {
            return Allocated::Invalid;
        }
        let least: usize = if size == 0 {
            1
        } else {
            size
        };
        if least > usize::MAX - (alignment - 1) {
            return Allocated::TooLarge;
        }
        let mut size: usize = align_val(least, alignment);
        if likely(size <= MAX_SZ && (alignment < PAGE || (alignment == PAGE && size <= PAGE))) {
            let sc_idx: usize = self.classes.get_size_class(size);
            let block_size: usize = self.classes.get(sc_idx).get_block_size() as usize;
            proof {
                assert(self.classes().is_least_class_for(sc_idx as int, size as int));
                assert(self.classes().class_follows_schedule(sc_idx as int));
            }
            if block_size % alignment == 0 {
                let r = self.small_alloc(tid, sc_idx, supply, true);
                proof {
                    match r {
                        Allocated::Block { ptr, took_descriptors, took_pages } => {
                            let after = *self;
                            let d = after.page_info(ptr).spec_get_desc();
                            let sb = after.descriptors()[d].spec_get_superblock();
                            if size < alignment {
                                vstd::arithmetic::div_mod::lemma_small_mod(
                                    size as nat,
                                    alignment as nat,
                                );
                            }
                            lemma_divides_page(alignment);
                            lemma_sum_of_multiples(
                                sb as int,
                                ptr - sb,
                                4096,
                                block_size as int,
                                alignment as int,
                            );
                        },
                        _ => {},
                    }
                }
                return r;
            }
        }
        // a large block: more than any class holds, with room for the alignment
        if size <= MAX_SZ {
            size = MAX_SZ + 1;
        }
        let need_more_pages: bool = alignment > PAGE;
        if unlikely(need_more_pages) {
            if size > usize::MAX - alignment {
                return Allocated::TooLarge;
            }
            size += alignment;
        }
        if size > usize::MAX - 4095 {
            return Allocated::TooLarge;
        }
        let pages: usize = page_ceiling(size);
        if pages > u32::MAX as usize {
            return Allocated::TooLarge;
        }
        let mut offset: usize = 0;
        if need_more_pages && supply.pages <= usize::MAX - alignment {
            offset = align_addr(supply.pages, alignment) - supply.pages;
        }
        let r = self.big_alloc(pages, offset, supply);
        proof {
            assert(self.served(&before, tid as int, 0, pages as int, supply, false, r));
            match r {
                Allocated::Block { ptr, took_descriptors, took_pages } => {
                    if !need_more_pages {
                        lemma_divides_page(alignment);
                        lemma_sum_of_multiples(supply.pages as int, 0, 4096, 4096, alignment as int);
                    }
                },
                _ => {},
            }
        }
        r
    }
}

impl R3Malloc {
    /// Sets the events that should lie between two fetches, for the
    /// predictor of thread `tid` for class `sc_idx`.
    pub fn set_apf_target(&mut self, tid: usize, sc_idx: usize, target_apf: u32)
        requires
            old(self).inv(),
            tid < old(self).num_threads(),
            sc_idx < MAX_SZ_IDX,
        ensures
            final(self).inv(),
            final(self).same_but_apfs(old(self)),
            final(self).same_apfs_but(old(self), Self::spec_bin_index(tid as int, sc_idx as int)),
            final(self).apf(Self::spec_bin_index(tid as int, sc_idx as int)) == (ApfView {
                target_apf: target_apf,
                ..old(self).apf(Self::spec_bin_index(tid as int, sc_idx as int))
            }),
    {
        let ghost before = *self;
        let n = self.bin_index(tid, sc_idx);
        self.apfs[n].set_target_apf(target_apf);
        proof {
            let after = *self;
            assert forall|m: int| 0 <= m < after.apfs@.len() implies (#[trigger] after.apfs@[m])@.reuse.wf() by {
                if m != n {
                    assert(after.apfs@[m] == before.apfs@[m]);
                }
            }
            Self::lemma_apfs_changed(&before, &after);
        }
    }
}

impl R3Malloc {
    // ---- what the invariant says of what users see ----

    /// The page map knows every block that a user holds: its entry names the
    /// descriptor of the region that the block lies in, and the class of the
    /// entry is the heap of the descriptor, 0 for a large block.
    pub proof fn lemma_live_block(&self, ptr: usize)
        requires
            self.inv(),
            self.live(ptr),
        ensures
            ptr != 0,
            ({
                let info = self.page_info(ptr);
                let d = info.spec_get_desc();
                let desc = self.descriptors()[d];
                &&& d != 0
                &&& self.descriptors().contains_key(d)
                &&& !self.pool().contains(d)
                &&& info.spec_get_sc_idx() == desc.spec_get_heap()
                &&& desc.spec_get_heap() < MAX_SZ_IDX
                &&& desc.spec_get_superblock() <= ptr < desc.spec_get_superblock() + self.span(d)
                &&& self.spec_usable_size(ptr) == desc.spec_get_block_size()
                &&& self.spec_usable_size(ptr) > 0
                &&& desc.spec_get_heap() != 0 ==> (ptr - desc.spec_get_superblock()) % (
                desc.spec_get_block_size() as int) == 0 && desc.spec_get_anchor().spec_state() != 2
                &&& desc.spec_get_heap() == 0 ==> desc.spec_get_maxcount() == 1
                    && desc.spec_get_anchor().spec_state() == 0
                    && desc.spec_get_superblock() % 4096 == 0
            }),
    {
        self.lemma_null_unknown();
        let d = self.page_info(ptr).spec_get_desc();
        assert(self.block_inv(ptr));
        assert(self.page_inv(spec_addr_to_key(ptr)));
        assert(self.desc_inv(d));
        if self.descriptors()[d].spec_get_heap() == 0 {
            assert(self.large_inv(d));
        } else {
            self.lemma_block_facts(ptr);
            assert(self.classes().class_follows_schedule(
                self.descriptors()[d].spec_get_heap() as int,
            ));
        }
    }

    /// The pages of an empty superblock are out of the page map, and none of
    /// its blocks has a holder that the page map would lead to.
    pub proof fn lemma_empty_is_unmapped(&self, d: usize, key: u64)
        requires
            self.inv(),
            self.descriptors().contains_key(d),
            self.descriptors()[d].spec_get_heap() != 0,
            self.descriptors()[d].spec_get_anchor().spec_state() == 2,
        ensures
            self.page_entry(key).spec_get_desc() != d,
    {
        assert(self.page_inv(key));
        assert(self.desc_inv(d));
    }

    /// A superblock that is full is on no partial list, one that has free
    /// blocks of its own is on the list of its heap, and a partial list
    /// holds no large block and no retired descriptor.
    pub proof fn lemma_partial_lists(&self, d: usize, c: int)
        requires
            self.inv(),
            0 <= c < MAX_SZ_IDX,
            self.descriptors().contains_key(d),
        ensures
            self.partial_list(c).contains(d) ==> {
                &&& self.descriptors()[d].spec_get_heap() == c
                &&& c != 0
                &&& self.descriptors()[d].spec_get_block_size() != 0
                &&& self.descriptors()[d].spec_get_anchor().spec_state() == 1
                    || self.descriptors()[d].spec_get_anchor().spec_state() == 2
            },
            !self.pool().contains(d) && self.descriptors()[d].spec_get_heap() == c && c != 0
                && self.descriptors()[d].spec_get_anchor().spec_state() == 1
                ==> self.partial_list(c).contains(d),
    {
        assert(self.desc_inv(d));
        if self.partial_list(c).contains(d) {
            let i = choose|i: int| 0 <= i < self.partial_list(c).len() && self.partial_list(c)[i] == d;
            assert(self.listed_inv(c, i));
            assert(self.small_inv(d));
        }
        if !self.pool().contains(d) && self.descriptors()[d].spec_get_heap() == c && c != 0 {
            assert(self.small_inv(d));
        }
    }

    /// No descriptor is on the pool's free stack and on a partial list at
    /// once.
    pub proof fn lemma_pool_apart_from_partial_lists(&self, d: usize, c: int)
        requires
            self.inv(),
            0 <= c < MAX_SZ_IDX,
        ensures
            !(self.pool().contains(d) && self.partial_list(c).contains(d)),
    {
        if self.partial_list(c).contains(d) {
            let i = choose|i: int| 0 <= i < self.partial_list(c).len() && self.partial_list(c)[i] == d;
            assert(self.listed_inv(c, i));
            assert(self.desc_inv(d));
        }
    }

    /// A cache holds no more blocks than its class lets a thread keep, and
    /// the cache for class 0 holds none.
    pub proof fn lemma_cache_within_capacity(&self, n: int)
        requires
            self.inv(),
            0 <= n < self.num_bins(),
        ensures
            self.cache(n).len() <= self.capacity(n),
            self.cache(n).len() == self.bin(n).spec_get_block_num(),
            self.cache(n).no_duplicates(),
            forall|i: int| 0 <= i < self.cache(n).len() ==> !self.live(#[trigger] self.cache(n)[i]),
    {
        assert(self.cache_inv(n));
        assert forall|i: int| 0 <= i < self.cache(n).len() implies !self.live(
            #[trigger] self.cache(n)[i],
        ) by {
            assert(self.owned_by(self.cache(n), i, Owner::Cache(n)));
        }
    }

    /// The anchor of a superblock keeps within its bounds: fewer free blocks
    /// are counted than the superblock has, and the first free block is one
    /// of them, unless the superblock is full, when none is counted and the
    /// index is the number of blocks. An empty superblock counts all of its
    /// blocks but one.
    pub proof fn lemma_anchor_in_bounds(&self, d: usize)
        requires
            self.inv(),
            self.descriptors().contains_key(d),
            !self.pool().contains(d),
            self.descriptors()[d].spec_get_heap() != 0,
        ensures
            ({
                let desc = self.descriptors()[d];
                let anchor = desc.spec_get_anchor();
                &&& anchor.spec_state() <= 2
                &&& anchor.spec_count() < desc.spec_get_maxcount()
                &&& anchor.spec_state() == 0 ==> anchor.spec_count() == 0 && anchor.spec_avail()
                    == desc.spec_get_maxcount()
                &&& anchor.spec_state() != 0 ==> anchor.spec_avail() < desc.spec_get_maxcount()
                &&& anchor.spec_state() == 1 ==> anchor.spec_count() > 0
                &&& anchor.spec_state() == 2 ==> anchor.spec_count() == desc.spec_get_maxcount() - 1
            }),
    {
        assert(self.desc_inv(d));
        assert(self.small_inv(d));
        assert(self.classes().class_follows_schedule(self.descriptors()[d].spec_get_heap() as int));
    }

    /// The anchor of a superblock with pages counts the free blocks that the
    /// superblock owns: they are as many as it says, distinct, blocks of the
    /// superblock, and held by nobody else.
    pub proof fn lemma_count_is_exact(&self, d: usize)
        requires
            self.inv(),
            self.descriptors().contains_key(d),
            !self.pool().contains(d),
            self.descriptors()[d].spec_get_heap() != 0,
            self.descriptors()[d].spec_get_anchor().spec_state() != 2,
        ensures
            self.held(d).len() == self.descriptors()[d].spec_get_anchor().spec_count(),
            self.held(d).len() < self.descriptors()[d].spec_get_maxcount(),
            self.held(d).no_duplicates(),
            forall|i: int|
                0 <= i < self.held(d).len() ==> {
                    let b = #[trigger] self.held(d)[i];
                    &&& self.owners().contains_key(b)
                    &&& self.owners()[b] == Owner::Superblock(d)
                    &&& self.page_info(b).spec_get_desc() == d
                    &&& !self.live(b)
                },
            forall|b: usize|
                self.owners().contains_key(b) && self.owners()[b] == Owner::Superblock(d)
                    ==> #[trigger] self.held(d).contains(b),
    {
        assert(self.desc_inv(d));
        assert(self.small_inv(d));
        assert forall|b: usize|
            self.owners().contains_key(b) && self.owners()[b] == Owner::Superblock(
                d,
            ) implies #[trigger] self.held(d).contains(b) by {
            assert(self.block_inv(b));
            assert(self.page_inv(spec_addr_to_key(b)));
        }
        assert forall|i: int| 0 <= i < self.held(d).len() implies {
            let b = #[trigger] self.held(d)[i];
            &&& self.owners().contains_key(b)
            &&& self.owners()[b] == Owner::Superblock(d)
            &&& self.page_info(b).spec_get_desc() == d
            &&& !self.live(b)
        } by {
            assert(self.owned_by(self.held(d), i, Owner::Superblock(d)));
            assert(self.block_inv(self.held(d)[i]));
        }
    }

    /// No block of a superblock with pages is lost: each has one holder, a
    /// user, a cache that has it in its stack, or the superblock, which has
    /// it in its chain.
    pub proof fn lemma_no_block_is_lost(&self, d: usize, i: int)
        requires
            self.inv(),
            self.descriptors().contains_key(d),
            !self.pool().contains(d),
            self.descriptors()[d].spec_get_heap() != 0,
            self.descriptors()[d].spec_get_anchor().spec_state() != 2,
            0 <= i < self.descriptors()[d].spec_get_maxcount(),
        ensures
            ({
                let desc = self.descriptors()[d];
                let b = spec_block_addr(desc.spec_get_superblock(), desc.spec_get_block_size(), i);
                &&& self.owners().contains_key(b)
                &&& self.page_info(b).spec_get_desc() == d
                &&& match self.owners()[b] {
                    Owner::User => self.live(b),
                    Owner::Cache(n) => 0 <= n < self.num_bins() && self.cache(n).contains(b),
                    Owner::Superblock(o) => o == d && self.held(d).contains(b),
                }
            }),
    {
        let desc = self.descriptors()[d];
        let b = spec_block_addr(desc.spec_get_superblock(), desc.spec_get_block_size(), i);
        assert(self.desc_inv(d));
        assert(self.small_inv(d));
        assert(self.block_known(d, i));
        assert(self.block_inv(b));
        assert(self.classes().class_follows_schedule(desc.spec_get_heap() as int));
        Self::lemma_block_place(
            desc.spec_get_superblock(),
            desc.spec_get_block_size(),
            desc.spec_get_maxcount(),
            i,
            self.span(d),
        );
        self.lemma_in_region_filed(d, b);
    }

    /// A request for no bytes is served from the smallest class; one for
    /// `MAX_SZ` bytes from the last class; one for more by a large block.
    pub proof fn lemma_class_bounds(&self)
        requires
            self.inv(),
        ensures
            self.class_for(0) == 1,
            self.class_for(MAX_SZ) == MAX_SZ_IDX - 1,
            self.class_for((MAX_SZ + 1) as usize) == 0,
            self.classes().class(1).spec_get_block_size() == 8,
            self.classes().class(MAX_SZ_IDX - 1).spec_get_block_size() == MAX_SZ,
    {
        let classes = self.classes();
        classes.lemma_rising(1, 2);
        assert(classes.is_least_class_for(classes.spec_get_size_class(0) as int, 0));
        let c = classes.spec_get_size_class(MAX_SZ) as int;
        assert(classes.is_least_class_for(c, MAX_SZ as int));
        if c < MAX_SZ_IDX - 1 {
            classes.lemma_rising(c, MAX_SZ_IDX - 1);
        }
        let z = classes.spec_get_size_class(0) as int;
        if z > 1 {
            classes.lemma_rising(1, z);
        }
    }

    /// A block that was given back is the next that the thread is handed of
    /// that class, and no fresh pages are taken for it.
    pub proof fn lemma_free_then_malloc(
        s1: &R3Malloc,
        s2: &R3Malloc,
        s3: &R3Malloc,
        tid: int,
        ptr: usize,
        bytes: int,
        supply: Supply,
        notify: bool,
        r: Allocated,
    )
        requires
            s1.inv(),
            0 <= tid < s1.num_threads(),
            s1.live(ptr),
            s1.page_info(ptr).spec_get_sc_idx() != 0,
            s2.freed(s1, tid, ptr),
            s3.served(s2, tid, s1.page_info(ptr).spec_get_sc_idx() as int, bytes, supply, notify, r),
        ensures
            r == (Allocated::Block { ptr, took_descriptors: false, took_pages: false }),
            s3.live(ptr),
            s3.spec_usable_size(ptr) == s1.spec_usable_size(ptr),
    {
        let sc = s1.page_info(ptr).spec_get_sc_idx() as int;
        let n = Self::spec_bin_index(tid, sc);
        s1.lemma_live_block(ptr);
        assert(s2.cache(n)[0] == ptr);
        assert(s2.cache(n).len() > 0);
    }

    /// An aligned request with alignment 1 is served from the class that
    /// serves an ordinary request of that size, and one that gets pages of
    /// its own, as every request with an alignment above a page does, by a
    /// large block.
    pub proof fn lemma_aligned_classes(&self, alignment: usize, size: usize)
        requires
            self.inv(),
            spec_is_power_of_two(alignment),
            !Self::aligned_overflows(alignment, size),
        ensures
            alignment == 1 ==> self.aligned_class(alignment, size) == self.class_for(size),
            alignment == 1 && size > 0 ==> Self::aligned_size(alignment, size) == size,
            Self::takes_whole_pages(alignment, size) ==> self.aligned_class(alignment, size) == 0,
            alignment > PAGE ==> Self::takes_whole_pages(alignment, size),
            size <= Self::aligned_size(alignment, size),
            Self::aligned_size(alignment, size) % alignment == 0,
    {
        let least: usize = if size == 0 {
            1
        } else {
            size
        };
        crate::defines::lemma_align_val(least, alignment);
        let s = Self::aligned_size(alignment, size);
        if s < alignment {
            vstd::arithmetic::div_mod::lemma_small_mod(s as nat, alignment as nat);
        }
        if alignment == 1 {
            assert(s == least);
            if s <= MAX_SZ {
                vstd::arithmetic::div_mod::lemma_mod_multiples_basic(
                    self.classes().class(
                        self.classes().spec_get_size_class(s) as int,
                    ).spec_get_block_size() as int,
                    1,
                );
                let classes = self.classes();
                assert(classes.is_least_class_for(classes.spec_get_size_class(0) as int, 0));
                assert(classes.is_least_class_for(classes.spec_get_size_class(1) as int, 1));
                let o = classes.spec_get_size_class(1) as int;
                if o > 1 {
                    assert(classes.class_follows_schedule(o - 1));
                }
            }
        }
    }

    /// An aligned request with alignment 1 comes to what an ordinary request
    /// for as many bytes comes to: it is refused on the same sizes, and
    /// whatever serves the one serves the other.
    pub proof fn lemma_alignment_one_is_ordinary(
        &self,
        before: &R3Malloc,
        tid: int,
        size: usize,
        supply: Supply,
        r: Allocated,
    )
        requires
            before.inv(),
        ensures
            before.aligned_too_large(1, size) == Self::too_large(size),
            self.served(
                before,
                tid,
                before.aligned_class(1, size),
                Self::aligned_bytes(1, size),
                supply,
                true,
                r,
            ) == self.served(
                before,
                tid,
                before.class_for(size),
                spec_page_ceiling(size as int),
                supply,
                true,
                r,
            ),
    {
        assert(spec_is_power_of_two(1)) by {
            assert(1usize & 0usize == 0) by (bit_vector);
        }
        before.lemma_aligned_classes(1, size);
        if size <= MAX_SZ {
            assert(before.classes().is_least_class_for(
                before.classes().spec_get_size_class(size) as int,
                size as int,
            ));
        }
    }
}

} // verus!
