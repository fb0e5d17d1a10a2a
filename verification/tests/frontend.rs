use r3malloc::heap::DESCRIPTOR_BLOCK_SZ;
use r3malloc::r3malloc::{init_malloc, Allocated, R3Malloc, Supply};
use r3malloc::{
    aligned_alloc, calloc, calloc_size, free, get_target_apf, malloc, malloc_usable_size, memalign,
    posix_memalign, pvalloc, r3malloc_thread_finalize, realloc, set_target_apf, valloc, Reallocated,
};

const NONE: Supply = Supply { descriptors: 0, pages: 0 };

/// Hands out fresh regions in rising order, each at a multiple of 1 MiB plus
/// one page, so that no region is aligned by accident.
struct Pages {
    next: usize,
}

impl Pages {
    fn acquire(&mut self, size: usize) -> usize {
        let base = self.next;
        self.next = (self.next + size + 0xF_FFFF) / 0x10_0000 * 0x10_0000 + 0x1000;
        base
    }
}

fn start() -> (R3Malloc, Pages, usize) {
    let mut alloc = init_malloc();
    let tid = alloc.thread_init();
    (alloc, Pages { next: 0x4000_1000 }, tid)
}

fn serve(pages: &mut Pages, mut request: impl FnMut(Supply) -> Allocated) -> usize {
    let mut supply = NONE;
    loop {
        match request(supply) {
            Allocated::Block { ptr, .. } => return ptr,
            Allocated::Want { descriptors, pages: bytes } => {
                supply = Supply {
                    descriptors: if descriptors { pages.acquire(DESCRIPTOR_BLOCK_SZ) } else { 0 },
                    pages: if bytes > 0 { pages.acquire(bytes) } else { 0 },
                };
            }
            other => panic!("no block: {:?}", other),
        }
    }
}

#[test]
fn malloc_then_free_then_malloc_gives_the_same_block() {
    let (mut alloc, mut pages, tid) = start();
    let p = serve(&mut pages, |s| malloc(&mut alloc, tid, 24, s));
    assert_eq!(malloc_usable_size(&alloc, p), 24);
    free(&mut alloc, tid, p);
    let q = serve(&mut pages, |s| malloc(&mut alloc, tid, 24, s));
    assert_eq!(p, q);
}

#[test]
fn calloc_counts_the_bytes() {
    assert_eq!(calloc_size(3, 5), Some(15));
    assert_eq!(calloc_size(0, 5), None);
    assert_eq!(calloc_size(5, 0), Some(0));
    assert_eq!(calloc_size(usize::MAX, 2), None);
    assert_eq!(calloc_size(1 << 32, 1 << 32), None);
    assert_eq!(calloc_size(1 << 31, 1 << 32), Some(1 << 63));
}

#[test]
fn calloc_hands_out_a_block_for_all_items() {
    let (mut alloc, mut pages, tid) = start();
    let p = serve(&mut pages, |s| calloc(&mut alloc, tid, 10, 100, s));
    assert_eq!(malloc_usable_size(&alloc, p), 1024);
    assert_eq!(calloc(&mut alloc, tid, 0, 100, NONE), Allocated::Null);
    assert_eq!(calloc(&mut alloc, tid, usize::MAX, 100, NONE), Allocated::Null);
}

#[test]
fn realloc_to_the_usable_size_keeps_the_block() {
    let (mut alloc, mut pages, tid) = start();
    let p = serve(&mut pages, |s| malloc(&mut alloc, tid, 100, s));
    let usable = malloc_usable_size(&alloc, p);
    assert_eq!(usable, 112);
    assert_eq!(realloc(&mut alloc, tid, p, usable, NONE), Reallocated::Same { ptr: p });
    assert_eq!(realloc(&mut alloc, tid, p, 1, NONE), Reallocated::Same { ptr: p });
    assert_eq!(malloc_usable_size(&alloc, p), 112);
}

#[test]
fn realloc_to_more_moves_the_block() {
    let (mut alloc, mut pages, tid) = start();
    let p = serve(&mut pages, |s| malloc(&mut alloc, tid, 100, s));
    let r = realloc(&mut alloc, tid, p, 113, NONE);
    assert_eq!(r, Reallocated::Want { descriptors: false, pages: 65536 });
    assert_eq!(malloc_usable_size(&alloc, p), 112);
    let fresh = pages.acquire(65536);
    let r = realloc(&mut alloc, tid, p, 113, Supply { descriptors: 0, pages: fresh });
    assert_eq!(
        r,
        Reallocated::Moved { ptr: fresh, copy: 112, took_descriptors: false, took_pages: true }
    );
    assert_eq!(malloc_usable_size(&alloc, fresh), 128);
    // the old block is back in the cache of its class
    let q = serve(&mut pages, |s| malloc(&mut alloc, tid, 100, s));
    assert_eq!(q, p);
}

#[test]
fn realloc_of_null_allocates_and_realloc_to_zero_frees() {
    let (mut alloc, mut pages, tid) = start();
    let base = pages.acquire(65536);
    let descriptors = pages.acquire(DESCRIPTOR_BLOCK_SZ);
    let r = realloc(&mut alloc, tid, 0, 40, Supply { descriptors, pages: base });
    assert_eq!(
        r,
        Reallocated::Moved { ptr: base, copy: 0, took_descriptors: true, took_pages: true }
    );
    assert_eq!(realloc(&mut alloc, tid, base, 0, NONE), Reallocated::Freed);
    assert_eq!(alloc.cache_block_num(tid, 5), 2048);
    assert_eq!(realloc(&mut alloc, tid, 0, 1 << 40, NONE), Reallocated::TooLarge);
}

#[test]
fn alignment() {
    let (mut alloc, mut pages, tid) = start();
    let p = serve(&mut pages, |s| aligned_alloc(&mut alloc, tid, 4096, 4097, s));
    assert_eq!(p & 0xFFF, 0);
    assert!(malloc_usable_size(&alloc, p) >= 4097);
    // more than a page at page alignment: pages of its own
    assert_eq!(malloc_usable_size(&alloc, p), 16384);
    assert_eq!(alloc.get_page_info(p).get_sc_idx(), 0);
    let d = alloc.get_page_info(p).get_desc();
    free(&mut alloc, tid, p);
    assert_eq!(alloc.take_released(), vec![(p, 16384)]);
    for page in 0..4 {
        assert_eq!(alloc.get_page_info(p + page * 4096).get_desc(), 0);
    }
    assert_eq!(alloc.get_descriptor(d).unwrap().get_block_size(), 0);
    assert!(!alloc.pool_is_empty());
    for sc_idx in 0..40 {
        assert_eq!(alloc.cache_block_num(tid, sc_idx), 0);
    }
}

#[test]
fn a_block_of_a_class_at_an_alignment_goes_back_to_the_cache() {
    let (mut alloc, mut pages, tid) = start();
    let p = serve(&mut pages, |s| aligned_alloc(&mut alloc, tid, 2048, 4097, s));
    assert_eq!(p % 2048, 0);
    // 4097 bytes rounded to the alignment are 6144, the block size of a class
    assert_eq!(malloc_usable_size(&alloc, p), 6144);
    assert_eq!(alloc.get_page_info(p).get_sc_idx(), 34);
    let held = alloc.cache_block_num(tid, 34);
    // the predictor of the class was told of the allocation and of the fetch
    assert_eq!(alloc.get_apf(tid, 34).get_time(), 1);
    assert_eq!(alloc.get_apf(tid, 34).get_num_fetches(), 1);
    free(&mut alloc, tid, p);
    assert!(alloc.take_released().is_empty());
    assert_eq!(alloc.cache_block_num(tid, 34), held + 1);
    let q = serve(&mut pages, |s| aligned_alloc(&mut alloc, tid, 2048, 4097, s));
    assert_eq!(q, p);
    assert_eq!(alloc.get_apf(tid, 34).get_time(), 2);
    assert_eq!(alloc.get_apf(tid, 34).get_num_fetches(), 1);
    free(&mut alloc, tid, q);
    // all blocks of the superblock are back once the cache is flushed: its pages go
    r3malloc_thread_finalize(&mut alloc, tid);
    let released = alloc.take_released();
    assert_eq!(released.len(), 1);
    assert_eq!(released[0].0, p);
    assert_eq!(alloc.get_page_info(p).get_desc(), 0);
    assert_eq!(malloc_usable_size(&alloc, p), 0);
}

#[test]
fn an_aligned_size_up_to_the_largest_class_is_served_from_a_class() {
    let (mut alloc, mut pages, tid) = start();
    for (alignment, size, usable, sc_idx) in [
        (1usize, 5000usize, 5120usize, 33usize),
        (8, 14336, 14336, 39),
        (2048, 12000, 12288, 38),
        (1024, 9000, 10240, 37),
        (4096, 4000, 4096, 32),
    ] {
        let p = serve(&mut pages, |s| aligned_alloc(&mut alloc, tid, alignment, size, s));
        assert_eq!(p % alignment, 0);
        assert_eq!(malloc_usable_size(&alloc, p), usable);
        assert_eq!(alloc.get_page_info(p).get_sc_idx(), sc_idx);
        assert_eq!(alloc.get_apf(tid, sc_idx).get_num_fetches(), 1);
    }
    // one byte more than the largest class holds
    let p = serve(&mut pages, |s| aligned_alloc(&mut alloc, tid, 8, 14337, s));
    assert_eq!(alloc.get_page_info(p).get_sc_idx(), 0);
    assert_eq!(malloc_usable_size(&alloc, p), 16384);
}

#[test]
fn an_alignment_of_one_is_ordinary_allocation() {
    let (mut alloc, mut pages, tid) = start();
    let p = serve(&mut pages, |s| aligned_alloc(&mut alloc, tid, 1, 100, s));
    assert_eq!(alloc.get_page_info(p).get_sc_idx(), 11);
    assert_eq!(malloc_usable_size(&alloc, p), 112);
    let q = serve(&mut pages, |s| malloc(&mut alloc, tid, 100, s));
    assert_eq!(q, p + 112);
}

#[test]
fn a_small_alignment_is_met_by_the_class() {
    let (mut alloc, mut pages, tid) = start();
    for (alignment, size, usable) in [(64usize, 65usize, 128usize), (16, 40, 48), (256, 300, 512), (4096, 10, 4096)] {
        let p = serve(&mut pages, |s| memalign(&mut alloc, tid, alignment, size, s));
        assert_eq!(p % alignment, 0);
        assert_eq!(malloc_usable_size(&alloc, p), usable);
        assert_ne!(alloc.get_page_info(p).get_sc_idx(), 0);
    }
}

#[test]
fn an_alignment_above_a_page_takes_the_large_path() {
    let (mut alloc, mut pages, tid) = start();
    let r = aligned_alloc(&mut alloc, tid, 65536, 100, NONE);
    // 65536 bytes rounded, and as many again to find the boundary in
    assert_eq!(r, Allocated::Want { descriptors: true, pages: 131072 });
    let p = serve(&mut pages, |s| aligned_alloc(&mut alloc, tid, 65536, 100, s));
    assert_eq!(p % 65536, 0);
    assert_eq!(alloc.get_page_info(p).get_sc_idx(), 0);
    assert_eq!(malloc_usable_size(&alloc, p), 131072);
    let desc = alloc.get_descriptor(alloc.get_page_info(p).get_desc()).unwrap();
    assert!(desc.get_superblock() <= p);
    assert!(p + 100 <= desc.get_superblock() + 131072);
    assert_eq!(desc.get_superblock() % 65536, 0x1000);
    free(&mut alloc, tid, p);
    assert_eq!(alloc.take_released(), vec![(desc.get_superblock(), 131072)]);
}

#[test]
fn an_alignment_that_is_no_power_of_two_is_refused() {
    let (mut alloc, _pages, tid) = start();
    assert_eq!(aligned_alloc(&mut alloc, tid, 0, 100, NONE), Allocated::Invalid);
    assert_eq!(aligned_alloc(&mut alloc, tid, 24, 100, NONE), Allocated::Invalid);
    assert_eq!(memalign(&mut alloc, tid, 3, 100, NONE), Allocated::Invalid);
    assert_eq!(posix_memalign(&mut alloc, tid, 4, 100, NONE), Allocated::Invalid);
    assert_eq!(posix_memalign(&mut alloc, tid, 24, 100, NONE), Allocated::Invalid);
    assert_eq!(
        posix_memalign(&mut alloc, tid, 8, 100, NONE),
        Allocated::Want { descriptors: true, pages: 86016 }
    );
    assert_eq!(aligned_alloc(&mut alloc, tid, 4096, usize::MAX, NONE), Allocated::TooLarge);
    assert_eq!(aligned_alloc(&mut alloc, tid, 1 << 33, 1, NONE), Allocated::TooLarge);
}

#[test]
fn aligned_allocation_of_no_bytes_gives_a_block() {
    let (mut alloc, mut pages, tid) = start();
    let p = serve(&mut pages, |s| aligned_alloc(&mut alloc, tid, 8, 0, s));
    assert_ne!(p, 0);
    assert_eq!(malloc_usable_size(&alloc, p), 8);
    let q = serve(&mut pages, |s| aligned_alloc(&mut alloc, tid, 64, 0, s));
    assert_eq!(q % 64, 0);
    assert_eq!(malloc_usable_size(&alloc, q), 64);
}

#[test]
fn valloc_and_pvalloc_give_page_aligned_blocks() {
    let (mut alloc, mut pages, tid) = start();
    let p = serve(&mut pages, |s| valloc(&mut alloc, tid, 100, s));
    assert_eq!(p % 4096, 0);
    assert_eq!(malloc_usable_size(&alloc, p), 4096);
    let q = serve(&mut pages, |s| pvalloc(&mut alloc, tid, 5000, s));
    assert_eq!(q % 4096, 0);
    assert_eq!(malloc_usable_size(&alloc, q), 16384);
    assert_eq!(alloc.get_page_info(q).get_sc_idx(), 0);
    let r = serve(&mut pages, |s| pvalloc(&mut alloc, tid, 20000, s));
    assert_eq!(r % 4096, 0);
    assert_eq!(alloc.get_page_info(r).get_sc_idx(), 0);
}

#[test]
fn thread_finalize_empties_the_caches_of_the_thread() {
    let (mut alloc, mut pages, tid) = start();
    let other = alloc.thread_init();
    let p = serve(&mut pages, |s| malloc(&mut alloc, tid, 64, s));
    let q = serve(&mut pages, |s| malloc(&mut alloc, other, 64, s));
    assert_eq!(alloc.cache_block_num(tid, 8), 1023);
    assert_eq!(alloc.cache_block_num(other, 8), 1023);
    r3malloc_thread_finalize(&mut alloc, tid);
    assert_eq!(alloc.cache_block_num(tid, 8), 0);
    assert_eq!(alloc.cache_block_num(other, 8), 1023);
    assert!(alloc.take_released().is_empty());
    assert_eq!(malloc_usable_size(&alloc, p), 64);
    // the superblock of the first thread is on the partial list now
    let heap = alloc.get_heap(8);
    assert_eq!(heap.get_partial_list().get_desc(), alloc.get_page_info(p).get_desc());
    free(&mut alloc, other, p);
    free(&mut alloc, other, q);
    r3malloc_thread_finalize(&mut alloc, other);
    let mut released = alloc.take_released();
    released.sort();
    assert_eq!(released, vec![(p, 65536), (q, 65536)]);
}

#[test]
fn the_target_of_a_predictor_can_be_set() {
    let (mut alloc, _pages, tid) = start();
    assert_eq!(get_target_apf(&alloc, tid, 64), 1000);
    set_target_apf(&mut alloc, tid, 64, 250);
    assert_eq!(get_target_apf(&alloc, tid, 64), 250);
    assert_eq!(get_target_apf(&alloc, tid, 63), 250);
    assert_eq!(get_target_apf(&alloc, tid, 65), 1000);
}
