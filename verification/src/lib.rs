//! A segregated-size memory allocator engine with per-thread caches and an
//! online footprint predictor, stated over plain addresses and verified.
//!
//! The engine decides; it does not touch the memory that it hands out and
//! does not call the operating system. A host maps and unmaps pages: it
//! offers fresh regions as a `Supply`, and unmaps what `take_released` hands
//! over. The link words that free blocks carry are kept by the engine
//! itself, in `memory::BlockMemory`.
//!
//! Every entry point takes the allocator by exclusive reference, so a host
//! with several threads puts a lock around it. The words that a lock-free
//! layout shares between threads (anchors, list heads and links, page-map
//! entries) lie in atomic cells all the same; see `cells`.

use vstd::prelude::*;

pub mod apf;
pub mod bits;
pub mod cells;
pub mod counting;
pub mod defines;
pub mod heap;
pub mod memory;
pub mod pagemap;
pub mod r3malloc;
pub mod size_classes;
pub mod tcache;

use crate::apf::ApfView;
use crate::defines::{spec_is_power_of_two, PAGE, PTR_SZ};
use crate::r3malloc::{Allocated, R3Malloc, Supply};
use crate::size_classes::MAX_SZ;
use likely_stable::{likely, unlikely};

verus! {

/// `likely_stable::likely` hints that its argument is mostly true, and
/// returns it.
pub assume_specification[ likely_stable::likely ](b: bool) -> (r: bool)
    ensures
        r == b,
;

/// `likely_stable::unlikely` hints that its argument is mostly false, and
/// returns it.
pub assume_specification[ likely_stable::unlikely ](b: bool) -> (r: bool)
    ensures
        r == b,
;

/// What a request to resize a block came to.
#[derive(Clone, Copy, Debug, PartialEq, Eq, Structural)]
pub enum Reallocated {
    /// The block holds the new size already; it stays where it is.
    Same { ptr: usize },
    /// A new block was handed out and the old one was taken back. The host
    /// copies `copy` bytes from the old block to the new one before it
    /// unmaps what was released.
    Moved { ptr: usize, copy: usize, took_descriptors: bool, took_pages: bool },
    /// The new size is 0: the block was taken back, and the result is the
    /// null pointer.
    Freed,
    /// No block was handed out for want of fresh pages; the old block is
    /// still held.
    Want { descriptors: bool, pages: usize },
    /// The new size is larger than a descriptor can record; the old block is
    /// still held.
    TooLarge,
}

/// Hands out a block of at least `size` bytes to thread `tid`.
pub fn malloc(alloc: &mut R3Malloc, tid: usize, size: usize, supply: Supply) -> (r: Allocated)
    requires
        old(alloc).inv(),
        tid < old(alloc).num_threads(),
    ensures
        final(alloc).inv(),
        final(alloc).num_bins() == old(alloc).num_bins(),
        final(alloc).released() == old(alloc).released(),
        !(r is Invalid) && !(r is Null),
        (r is TooLarge) == R3Malloc::too_large(size),
        r is TooLarge ==> final(alloc).unchanged(old(alloc)),
        !(r is TooLarge) ==> final(alloc).served(
            old(alloc),
            tid as int,
            old(alloc).class_for(size),
            crate::defines::spec_page_ceiling(size as int),
            supply,
            true,
            r,
        ),
        r matches Allocated::Block { ptr, took_descriptors, took_pages } ==> final(alloc).spec_usable_size(ptr) >= size
            && (size > MAX_SZ ==> ptr == supply.pages),
{
    alloc.do_malloc(tid, size, supply)
}

/// Takes back the block at `ptr` from thread `tid`; 0 stands for no block.
pub fn free(alloc: &mut R3Malloc, tid: usize, ptr: usize)
    requires
        old(alloc).inv(),
        tid < old(alloc).num_threads(),
        ptr == 0 || old(alloc).live(ptr),
    ensures
        final(alloc).inv(),
        final(alloc).freed(old(alloc), tid as int, ptr),
{
    alloc.do_free(tid, ptr)
}

/// The bytes of `n` items of `size` bytes each, if there are items and the
/// product can be counted.
pub open spec fn spec_calloc_size(n: usize, size: usize) -> Option<usize> {
    if n == 0 || n * size > usize::MAX {
        None
    } else {
        Some((n * size) as usize)
    }
}

/// The bytes of `n` items of `size` bytes each, if there are items and the
/// product can be counted.
pub fn calloc_size(n: usize, size: usize) -> (r: Option<usize>)
    ensures
        r == spec_calloc_size(n, size),
{
    if unlikely(n == 0) {
        return None;
    }
    if size > usize::MAX / n {
        assert(n * size > usize::MAX) by (nonlinear_arith)
            requires
                n > 0,
                size > usize::MAX as int / n as int,
        ;
        return None;
    }
    assert(n * size <= usize::MAX) by (nonlinear_arith)
        requires
            n > 0,
            size <= usize::MAX as int / n as int,
    ;
    Some(n * size)
}

/// Hands out a block for `n` items of `size` bytes each to thread `tid`;
/// the host fills it with zeros. The result is `Null` if there are no items
/// or their bytes cannot be counted.
pub fn calloc(alloc: &mut R3Malloc, tid: usize, n: usize, size: usize, supply: Supply) -> (r:
    Allocated)
    requires
        old(alloc).inv(),
        tid < old(alloc).num_threads(),
    ensures
        final(alloc).inv(),
        final(alloc).num_bins() == old(alloc).num_bins(),
        final(alloc).released() == old(alloc).released(),
        !(r is Invalid),
        (r is Null) == spec_calloc_size(n, size).is_none(),
        r is Null || r is TooLarge ==> final(alloc).unchanged(old(alloc)),
        spec_calloc_size(n, size) matches Some(bytes) ==> {
            &&& (r is TooLarge) == R3Malloc::too_large(bytes)
            &&& !(r is TooLarge) ==> final(alloc).served(
                old(alloc),
                tid as int,
                old(alloc).class_for(bytes),
                crate::defines::spec_page_ceiling(bytes as int),
                supply,
                true,
                r,
            )
            &&& r matches Allocated::Block { ptr, took_descriptors, took_pages } ==> final(alloc).spec_usable_size(ptr) >= bytes
                && (bytes > MAX_SZ ==> ptr == supply.pages)
        },
{
    match calloc_size(n, size) {
        Some(bytes) => alloc.do_malloc(tid, bytes, supply),
        None => Allocated::Null,
    }
}

/// Changes the size of the block at `ptr`, held by a user, to `size` bytes,
/// for thread `tid`. With `ptr` 0 a block is handed out. With `size` 0 the
/// block is taken back. A block that holds `size` bytes stays where it is.
/// Else a new block is handed out and the old one is taken back.
pub fn realloc(alloc: &mut R3Malloc, tid: usize, ptr: usize, size: usize, supply: Supply) -> (r:
    Reallocated)
    requires
        old(alloc).inv(),
        tid < old(alloc).num_threads(),
        ptr == 0 || old(alloc).live(ptr),
    ensures
        final(alloc).inv(),
        final(alloc).num_bins() == old(alloc).num_bins(),
        final(alloc).released_since(old(alloc)),
        ptr != 0 && size == 0 ==> r is Freed && final(alloc).one_user_less(old(alloc), ptr)
            && final(alloc).freed(old(alloc), tid as int, ptr),
        ptr != 0 && 0 < size <= old(alloc).spec_usable_size(ptr) ==> r == (Reallocated::Same { ptr })
            && final(alloc).unchanged(old(alloc)) && final(alloc).released() == old(alloc).released(),
        (ptr == 0 || size > old(alloc).spec_usable_size(ptr)) ==> {
            &&& (r is TooLarge) == R3Malloc::too_large(size)
            &&& (r is Want) == (!R3Malloc::too_large(size) && !old(alloc).supplied(
                tid as int,
                size,
                supply,
            ))
            &&& !(r is Same) && !(r is Freed)
        },
        r is TooLarge || r is Want ==> final(alloc).same_users(old(alloc)) && final(alloc).same_cache_contents(old(alloc)) && final(alloc).released() == old(alloc).released(),
        r is TooLarge ==> final(alloc).unchanged(old(alloc)),
        r matches Reallocated::Want { descriptors, pages } ==> final(alloc).served(
            old(alloc),
            tid as int,
            old(alloc).class_for(size),
            crate::defines::spec_page_ceiling(size as int),
            supply,
            true,
            (Allocated::Want { descriptors, pages }),
        ),
        r matches Reallocated::Want { descriptors, pages } ==> pages == old(alloc).wants_pages(
            tid as int,
            size,
        ) && descriptors == old(alloc).wants_descriptors(tid as int, size),
        r matches Reallocated::Moved { ptr: new_ptr, copy, took_descriptors, took_pages } ==> {
            &&& new_ptr != 0
            &&& new_ptr != ptr
            &&& !old(alloc).live(new_ptr)
            &&& final(alloc).live(new_ptr)
            &&& !final(alloc).live(ptr)
            &&& forall|q: usize|
                q != ptr && q != new_ptr ==> final(alloc).live(q) == old(alloc).live(q)
            &&& final(alloc).spec_usable_size(new_ptr) >= size
            &&& copy == (if ptr == 0 {
                0
            } else {
                old(alloc).spec_usable_size(ptr)
            })
            &&& took_pages == (old(alloc).wants_pages(tid as int, size) != 0)
            &&& took_descriptors == old(alloc).wants_descriptors(tid as int, size)
            &&& ptr == 0 ==> final(alloc).released() == old(alloc).released() && final(alloc).served(
                old(alloc),
                tid as int,
                old(alloc).class_for(size),
                crate::defines::spec_page_ceiling(size as int),
                supply,
                true,
                (Allocated::Block { ptr: new_ptr, took_descriptors, took_pages }),
            )
            &&& ptr != 0 ==> exists|mid: R3Malloc|
                mid.inv() && mid.released() == old(alloc).released() && #[trigger] mid.served(
                    old(alloc),
                    tid as int,
                    old(alloc).class_for(size),
                    crate::defines::spec_page_ceiling(size as int),
                    supply,
                    true,
                    (Allocated::Block { ptr: new_ptr, took_descriptors, took_pages }),
                ) && final(alloc).freed(&mid, tid as int, ptr)
        },
{
    let mut block_size: usize = 0;
    if likely(ptr != 0) {
        block_size = alloc.usable_size(ptr);
        if unlikely(size == 0) {
            alloc.do_free(tid, ptr);
            return Reallocated::Freed;
        }
        if unlikely(size <= block_size) {
            return Reallocated::Same { ptr };
        }
    }
    let ghost before = *alloc;
    match alloc.do_malloc(tid, size, supply) {
        Allocated::Block { ptr: new_ptr, took_descriptors, took_pages } => {
            let ghost mid = *alloc;
            if ptr != 0 {
                alloc.do_free(tid, ptr);
            }
            proof {
                let after = *alloc;
                assert forall|i: int| 0 <= i < before.released().len() implies #[trigger] after.released()[i]
                    == before.released()[i] by {}
                after.lemma_null_unknown();
                assert(mid.live(new_ptr) && !before.live(new_ptr));
                assert(new_ptr != ptr);
                assert(after.live(new_ptr));
                assert(after.spec_usable_size(new_ptr) == mid.spec_usable_size(new_ptr));
                assert forall|q: usize| q != ptr && q != new_ptr implies after.live(q) == before.live(
                    q,
                ) by {
                    assert(mid.live(q) == before.live(q));
                }
                if ptr == 0 {
                    assert forall|i: int|
                        before.released().len() <= i < after.released().len() implies after.accepts_region(
                        (#[trigger] after.released()[i]).0,
                        after.released()[i].1 as int,
                    ) by {}
                }
            }
            Reallocated::Moved { ptr: new_ptr, copy: block_size, took_descriptors, took_pages }
        },
        Allocated::Want { descriptors, pages } => Reallocated::Want { descriptors, pages },
        _ => Reallocated::TooLarge,
    }
}

/// The bytes that the holder of `ptr` may use; 0 for 0.
pub fn malloc_usable_size(alloc: &R3Malloc, ptr: usize) -> (r: usize)
    requires
        alloc.inv(),
    ensures
        alloc.live(ptr) ==> r == alloc.spec_usable_size(ptr) && r > 0,
        ptr == 0 ==> r == 0,
{
    if unlikely(ptr == 0) {
        proof {
            alloc.lemma_null_unknown();
        }
        return 0;
    }
    alloc.usable_size(ptr)
}

/// Hands out a block of at least `size` bytes at a multiple of `alignment`,
/// which has to be a power of two and a multiple of the size of a pointer;
/// the result is `Invalid` if it is not.
pub fn posix_memalign(alloc: &mut R3Malloc, tid: usize, alignment: usize, size: usize, supply: Supply) -> (r:
    Allocated)
    requires
        old(alloc).inv(),
        tid < old(alloc).num_threads(),
    ensures
        final(alloc).inv(),
        final(alloc).num_bins() == old(alloc).num_bins(),
        final(alloc).released() == old(alloc).released(),
        !(r is Null),
        (r is Invalid) == (!spec_is_power_of_two(alignment) || alignment % 8 != 0),
        (r is TooLarge) == (!(r is Invalid) && old(alloc).aligned_too_large(alignment, size)),
        r is TooLarge || r is Invalid ==> final(alloc).unchanged(old(alloc)),
        !(r is TooLarge) && !(r is Invalid) ==> final(alloc).served(
            old(alloc),
            tid as int,
            old(alloc).aligned_class(alignment, size),
            R3Malloc::aligned_bytes(alignment, size),
            supply,
            true,
            r,
        ),
        r matches Allocated::Block { ptr, took_descriptors, took_pages } ==> ptr % alignment == 0
            && final(alloc).spec_usable_size(ptr) >= size,
{
    if unlikely(alignment % PTR_SZ != 0) {
        return Allocated::Invalid;
    }
    alloc.do_aligned_alloc(tid, alignment, size, supply)
}

/// Hands out a block of at least `size` bytes at a multiple of `alignment`,
/// a power of two.
pub fn aligned_alloc(alloc: &mut R3Malloc, tid: usize, alignment: usize, size: usize, supply: Supply) -> (r:
    Allocated)
    requires
        old(alloc).inv(),
        tid < old(alloc).num_threads(),
    ensures
        final(alloc).inv(),
        final(alloc).num_bins() == old(alloc).num_bins(),
        final(alloc).released() == old(alloc).released(),
        !(r is Null),
        (r is Invalid) == !spec_is_power_of_two(alignment),
        (r is TooLarge) == (!(r is Invalid) && old(alloc).aligned_too_large(alignment, size)),
        r is TooLarge || r is Invalid ==> final(alloc).unchanged(old(alloc)),
        !(r is TooLarge) && !(r is Invalid) ==> final(alloc).served(
            old(alloc),
            tid as int,
            old(alloc).aligned_class(alignment, size),
            R3Malloc::aligned_bytes(alignment, size),
            supply,
            true,
            r,
        ),
        r matches Allocated::Block { ptr, took_descriptors, took_pages } ==> ptr % alignment == 0
            && final(alloc).spec_usable_size(ptr) >= size,
{
    alloc.do_aligned_alloc(tid, alignment, size, supply)
}

/// As `aligned_alloc`.
pub fn memalign(alloc: &mut R3Malloc, tid: usize, alignment: usize, size: usize, supply: Supply) -> (r:
    Allocated)
    requires
        old(alloc).inv(),
        tid < old(alloc).num_threads(),
    ensures
        final(alloc).inv(),
        final(alloc).num_bins() == old(alloc).num_bins(),
        final(alloc).released() == old(alloc).released(),
        !(r is Null),
        (r is Invalid) == !spec_is_power_of_two(alignment),
        (r is TooLarge) == (!(r is Invalid) && old(alloc).aligned_too_large(alignment, size)),
        r is TooLarge || r is Invalid ==> final(alloc).unchanged(old(alloc)),
        !(r is TooLarge) && !(r is Invalid) ==> final(alloc).served(
            old(alloc),
            tid as int,
            old(alloc).aligned_class(alignment, size),
            R3Malloc::aligned_bytes(alignment, size),
            supply,
            true,
            r,
        ),
        r matches Allocated::Block { ptr, took_descriptors, took_pages } ==> ptr % alignment == 0
            && final(alloc).spec_usable_size(ptr) >= size,
{
    alloc.do_aligned_alloc(tid, alignment, size, supply)
}

/// Hands out a block of at least `size` bytes at a page boundary.
pub fn valloc(alloc: &mut R3Malloc, tid: usize, size: usize, supply: Supply) -> (r: Allocated)
    requires
        old(alloc).inv(),
        tid < old(alloc).num_threads(),
    ensures
        final(alloc).inv(),
        final(alloc).num_bins() == old(alloc).num_bins(),
        final(alloc).released() == old(alloc).released(),
        !(r is Null) && !(r is Invalid),
        (r is TooLarge) == old(alloc).aligned_too_large(PAGE, size),
        r is TooLarge ==> final(alloc).unchanged(old(alloc)),
        !(r is TooLarge) ==> final(alloc).served(
            old(alloc),
            tid as int,
            old(alloc).aligned_class(PAGE, size),
            R3Malloc::aligned_bytes(PAGE, size),
            supply,
            true,
            r,
        ),
        r matches Allocated::Block { ptr, took_descriptors, took_pages } ==> ptr % 4096 == 0
            && final(alloc).spec_usable_size(ptr) >= size,
{
    proof {
        lemma_page_is_power_of_two();
    }
    alloc.do_aligned_alloc(tid, PAGE, size, supply)
}

/// As `valloc`.
pub fn pvalloc(alloc: &mut R3Malloc, tid: usize, size: usize, supply: Supply) -> (r: Allocated)
    requires
        old(alloc).inv(),
        tid < old(alloc).num_threads(),
    ensures
        final(alloc).inv(),
        final(alloc).num_bins() == old(alloc).num_bins(),
        final(alloc).released() == old(alloc).released(),
        !(r is Null) && !(r is Invalid),
        (r is TooLarge) == old(alloc).aligned_too_large(PAGE, size),
        r is TooLarge ==> final(alloc).unchanged(old(alloc)),
        !(r is TooLarge) ==> final(alloc).served(
            old(alloc),
            tid as int,
            old(alloc).aligned_class(PAGE, size),
            R3Malloc::aligned_bytes(PAGE, size),
            supply,
            true,
            r,
        ),
        r matches Allocated::Block { ptr, took_descriptors, took_pages } ==> ptr % 4096 == 0
            && final(alloc).spec_usable_size(ptr) >= size,
{
    proof {
        lemma_page_is_power_of_two();
    }
    alloc.do_aligned_alloc(tid, PAGE, size, supply)
}

/// The page size is a power of two.
pub proof fn lemma_page_is_power_of_two()
    ensures
        spec_is_power_of_two(PAGE),
{
    assert(4096usize & 4095usize == 0) by (bit_vector);
}

/// Flushes every cache of thread `tid`, as the thread ends.
pub fn r3malloc_thread_finalize(alloc: &mut R3Malloc, tid: usize)
    requires
        old(alloc).inv(),
        tid < old(alloc).num_threads(),
    ensures
        final(alloc).inv(),
        final(alloc).num_bins() == old(alloc).num_bins(),
        final(alloc).same_users(old(alloc)),
        final(alloc).same_apf_states(old(alloc)),
        final(alloc).released_since(old(alloc)),
        final(alloc).released_exactly(old(alloc)),
        R3Malloc::flushed_upto(old(alloc), final(alloc), tid as int, 40),
        forall|m: int|
            0 <= m < old(alloc).num_bins() ==> final(alloc).cache(m) == if m / 40 == tid {
                Seq::<usize>::empty()
            } else {
                old(alloc).cache(m)
            },
{
    alloc.thread_finalize(tid)
}

/// The events that should lie between two fetches for thread `tid` and the
/// class that serves `size` bytes.
pub fn get_target_apf(alloc: &R3Malloc, tid: usize, size: usize) -> (r: u32)
    requires
        alloc.inv(),
        tid < alloc.num_threads(),
        size <= MAX_SZ,
    ensures
        r == alloc.apf(R3Malloc::spec_bin_index(tid as int, alloc.class_for(size))).target_apf,
{
    let classes = alloc.size_classes();
    proof {
        alloc.lemma_classes_wf();
    }
    let sc_idx = classes.get_size_class(size);
    alloc.get_apf(tid, sc_idx).get_target_apf()
}

/// Sets the events that should lie between two fetches for thread `tid` and
/// the class that serves `size` bytes.
pub fn set_target_apf(alloc: &mut R3Malloc, tid: usize, size: usize, apf: u32)
    requires
        old(alloc).inv(),
        tid < old(alloc).num_threads(),
        size <= MAX_SZ,
    ensures
        final(alloc).inv(),
        final(alloc).same_but_apfs(old(alloc)),
        final(alloc).apf(R3Malloc::spec_bin_index(tid as int, old(alloc).class_for(size))) == (
        ApfView {
            target_apf: apf,
            ..old(alloc).apf(R3Malloc::spec_bin_index(tid as int, old(alloc).class_for(size)))
        }),
{
    proof {
        alloc.lemma_classes_wf();
    }
    let sc_idx = alloc.size_classes().get_size_class(size);
    alloc.set_apf_target(tid, sc_idx, apf)
}

} // verus!
