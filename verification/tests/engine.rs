use r3malloc::heap::DESCRIPTOR_BLOCK_SZ;
use r3malloc::r3malloc::{init_malloc, Allocated, R3Malloc, Supply};
use r3malloc::size_classes::{MAX_SZ, MAX_SZ_IDX};

/// Stands for the page provider: hands out fresh regions in rising order and
/// keeps count of what is mapped.
struct Pages {
    next: usize,
    mapped: usize,
    for_descriptors: usize,
}

impl Pages {
    fn new() -> Pages {
        Pages { next: 0x1000_0000, mapped: 0, for_descriptors: 0 }
    }

    fn acquire(&mut self, size: usize) -> usize {
        let base = self.next;
        self.next += size;
        self.mapped += size;
        base
    }

    fn acquire_for_descriptors(&mut self) -> usize {
        self.for_descriptors += DESCRIPTOR_BLOCK_SZ;
        self.acquire(DESCRIPTOR_BLOCK_SZ)
    }

    fn release_all(&mut self, alloc: &mut R3Malloc) {
        for (_, size) in alloc.take_released() {
            self.mapped -= size;
        }
    }
}

fn allocate(alloc: &mut R3Malloc, pages: &mut Pages, tid: usize, size: usize) -> usize {
    let mut supply = Supply { descriptors: 0, pages: 0 };
    loop {
        match alloc.do_malloc(tid, size, supply) {
            Allocated::Block { ptr, .. } => return ptr,
            Allocated::Want { descriptors, pages: bytes } => {
                supply = Supply {
                    descriptors: if descriptors { pages.acquire_for_descriptors() } else { 0 },
                    pages: if bytes > 0 { pages.acquire(bytes) } else { 0 },
                };
            }
            other => panic!("no block: {:?}", other),
        }
    }
}

fn fresh() -> (R3Malloc, Pages, usize) {
    let mut alloc = init_malloc();
    let tid = alloc.thread_init();
    (alloc, Pages::new(), tid)
}

#[test]
fn first_allocation_wants_pages_and_descriptors() {
    let (mut alloc, _pages, tid) = fresh();
    let r = alloc.do_malloc(tid, 32, Supply { descriptors: 0, pages: 0 });
    assert_eq!(r, Allocated::Want { descriptors: true, pages: 65536 });
    let r = alloc.do_malloc(tid, 32, Supply { descriptors: 0x10_0000, pages: 0x20_0000 });
    assert_eq!(r, Allocated::Block { ptr: 0x20_0000, took_descriptors: true, took_pages: true });
    assert_eq!(alloc.usable_size(0x20_0000), 32);
    let r = alloc.do_malloc(tid, 32, Supply { descriptors: 0, pages: 0 });
    assert_eq!(r, Allocated::Block { ptr: 0x20_0020, took_descriptors: false, took_pages: false });
}

#[test]
fn a_supply_that_is_not_page_aligned_is_not_taken() {
    let (mut alloc, _pages, tid) = fresh();
    let r = alloc.do_malloc(tid, 32, Supply { descriptors: 0x10_0000, pages: 0x20_0010 });
    assert_eq!(r, Allocated::Want { descriptors: true, pages: 65536 });
    let r = alloc.do_malloc(tid, 32, Supply { descriptors: 0x10_0040, pages: 0x20_0000 });
    assert_eq!(r, Allocated::Want { descriptors: true, pages: 65536 });
}

#[test]
fn usable_size_is_the_block_size_of_the_class() {
    let (mut alloc, mut pages, tid) = fresh();
    for (size, usable) in [(0usize, 8usize), (1, 8), (8, 8), (9, 16), (33, 40), (1024, 1024), (1025, 1280), (14336, 14336)] {
        let p = allocate(&mut alloc, &mut pages, tid, size);
        assert_eq!(alloc.usable_size(p), usable);
        assert!(alloc.usable_size(p) >= size);
    }
}

#[test]
fn the_largest_small_size_uses_the_last_class_and_one_more_the_large_path() {
    let (mut alloc, mut pages, tid) = fresh();
    let p = allocate(&mut alloc, &mut pages, tid, MAX_SZ);
    assert_eq!(alloc.get_page_info(p).get_sc_idx(), MAX_SZ_IDX - 1);
    assert_eq!(alloc.usable_size(p), MAX_SZ);
    let q = allocate(&mut alloc, &mut pages, tid, MAX_SZ + 1);
    assert_eq!(alloc.get_page_info(q).get_sc_idx(), 0);
    assert_eq!(alloc.usable_size(q), 16384);
}

#[test]
fn size_zero_is_served_from_the_smallest_class() {
    let (mut alloc, mut pages, tid) = fresh();
    let p = allocate(&mut alloc, &mut pages, tid, 0);
    assert_ne!(p, 0);
    assert_eq!(alloc.get_page_info(p).get_sc_idx(), 1);
    assert_eq!(alloc.usable_size(p), 8);
}

#[test]
fn a_freed_block_is_handed_out_again() {
    let (mut alloc, mut pages, tid) = fresh();
    let p = allocate(&mut alloc, &mut pages, tid, 100);
    alloc.do_free(tid, p);
    let q = allocate(&mut alloc, &mut pages, tid, 100);
    assert_eq!(p, q);
    assert_eq!(alloc.usable_size(q), 112);
}

#[test]
fn freeing_null_changes_nothing() {
    let (mut alloc, mut pages, tid) = fresh();
    let p = allocate(&mut alloc, &mut pages, tid, 64);
    let before = alloc.cache_block_num(tid, 8);
    alloc.do_free(tid, 0);
    assert_eq!(alloc.cache_block_num(tid, 8), before);
    assert_eq!(alloc.usable_size(p), 64);
    assert_eq!(alloc.usable_size(0), 0);
}

#[test]
fn a_large_block_gives_its_pages_back_when_freed() {
    let (mut alloc, mut pages, tid) = fresh();
    let p = allocate(&mut alloc, &mut pages, tid, 200000);
    assert_eq!(alloc.usable_size(p), 200704);
    let info = alloc.get_page_info(p + 100000);
    assert_eq!(info.get_sc_idx(), 0);
    assert_ne!(info.get_desc(), 0);
    alloc.do_free(tid, p);
    assert_eq!(alloc.take_released(), vec![(p, 200704)]);
    assert_eq!(alloc.get_page_info(p).get_desc(), 0);
    assert_eq!(alloc.get_page_info(p + 100000).get_desc(), 0);
    assert_eq!(alloc.usable_size(p), 0);
    assert!(!alloc.pool_is_empty());
}

#[test]
fn a_request_beyond_what_a_descriptor_records_is_refused() {
    let (mut alloc, _pages, tid) = fresh();
    let r = alloc.do_malloc(tid, 1 << 32, Supply { descriptors: 0, pages: 0 });
    assert_eq!(r, Allocated::TooLarge);
    let r = alloc.do_malloc(tid, usize::MAX, Supply { descriptors: 0, pages: 0 });
    assert_eq!(r, Allocated::TooLarge);
}

#[test]
fn single_threaded_churn() {
    let (mut alloc, mut pages, tid) = fresh();
    let mut blocks = Vec::new();
    for _ in 0..10_000 {
        let p = allocate(&mut alloc, &mut pages, tid, 32);
        assert_eq!(alloc.usable_size(p), 32);
        blocks.push(p);
    }
    let mut sorted = blocks.clone();
    sorted.sort();
    sorted.dedup();
    assert_eq!(sorted.len(), 10_000);
    // five superblocks of 2048 blocks, and one block of descriptors
    assert_eq!(pages.mapped, 5 * 65536 + DESCRIPTOR_BLOCK_SZ);
    for p in blocks.iter().rev() {
        alloc.do_free(tid, *p);
        assert!(alloc.cache_block_num(tid, 4) <= 2048);
    }
    alloc.thread_finalize(tid);
    assert_eq!(alloc.cache_block_num(tid, 4), 0);
    pages.release_all(&mut alloc);
    // every superblock was released
    assert_eq!(pages.mapped, DESCRIPTOR_BLOCK_SZ);
    for p in blocks.iter() {
        assert_eq!(alloc.get_page_info(*p).get_desc(), 0);
    }
}

#[test]
fn mixed_sizes() {
    let (mut alloc, mut pages, tid) = fresh();
    let sizes = [8usize, 16, 64, 1024, 4096, 32768, 200000];
    let mut blocks = Vec::new();
    for _ in 0..1000 {
        for size in sizes {
            let p = allocate(&mut alloc, &mut pages, tid, size);
            assert!(alloc.usable_size(p) >= size);
            blocks.push((p, size));
        }
    }
    let mut addresses: Vec<usize> = blocks.iter().map(|b| b.0).collect();
    addresses.sort();
    for pair in addresses.windows(2) {
        assert!(pair[0] < pair[1]);
    }
    for (p, size) in blocks {
        assert!(alloc.usable_size(p) >= size);
        alloc.do_free(tid, p);
        pages.release_all(&mut alloc);
    }
    alloc.thread_finalize(tid);
    pages.release_all(&mut alloc);
    // 2000 large blocks at a time take more descriptors than one block holds
    assert_eq!(pages.for_descriptors, 3 * DESCRIPTOR_BLOCK_SZ);
    assert_eq!(pages.mapped, pages.for_descriptors);
}

#[test]
fn two_thread_cross_free() {
    let mut alloc = init_malloc();
    let a = alloc.thread_init();
    let b = alloc.thread_init();
    assert_eq!((a, b), (0, 1));
    let mut pages = Pages::new();
    let mut blocks = Vec::new();
    for _ in 0..10_000 {
        blocks.push(allocate(&mut alloc, &mut pages, a, 64));
    }
    let mut most = 0;
    for p in blocks {
        alloc.do_free(b, p);
        let held = alloc.cache_block_num(b, 8);
        assert!(held <= 1024);
        most = most.max(held);
    }
    assert_eq!(most, 1024);
    // the blocks left over from the last superblock are all that the first thread holds
    assert_eq!(alloc.cache_block_num(a, 8), 10 * 1024 - 10_000);
    alloc.thread_finalize(a);
    alloc.thread_finalize(b);
    assert_eq!(alloc.cache_block_num(a, 8), 0);
    assert_eq!(alloc.cache_block_num(b, 8), 0);
    pages.release_all(&mut alloc);
    assert_eq!(pages.mapped, DESCRIPTOR_BLOCK_SZ);
}

#[test]
fn frees_from_two_threads_into_one_superblock_lose_no_block() {
    let mut alloc = init_malloc();
    let a = alloc.thread_init();
    let b = alloc.thread_init();
    let c = alloc.thread_init();
    let mut pages = Pages::new();
    // the six blocks of one superblock of the last class
    let blocks: Vec<usize> = (0..6).map(|_| allocate(&mut alloc, &mut pages, a, MAX_SZ)).collect();
    let sb = blocks[0];
    let desc = alloc.get_page_info(sb).get_desc();
    for (i, p) in blocks.iter().enumerate() {
        assert_eq!(*p, sb + i * MAX_SZ);
        alloc.do_free(if i % 2 == 0 { b } else { c }, *p);
    }
    assert_eq!(alloc.cache_block_num(a, 39), 0);
    assert_eq!(alloc.cache_block_num(b, 39), 3);
    assert_eq!(alloc.cache_block_num(c, 39), 3);
    let anchor = alloc.get_descriptor(desc).unwrap().get_anchor();
    assert_eq!((anchor.state(), anchor.count()), (0, 0));

    alloc.thread_finalize(b);
    let anchor = alloc.get_descriptor(desc).unwrap().get_anchor();
    // three blocks came back: the superblock is partial, its first free block is the one freed last
    assert_eq!((anchor.state(), anchor.avail(), anchor.count()), (1, 4, 3));
    assert_eq!(alloc.get_heap(39).get_partial_list().get_desc(), desc);
    assert!(alloc.take_released().is_empty());

    alloc.thread_finalize(c);
    let anchor = alloc.get_descriptor(desc).unwrap().get_anchor();
    // all six are back: the superblock is empty and its pages are given up
    assert_eq!((anchor.state(), anchor.avail(), anchor.count()), (2, 5, 5));
    assert_eq!(alloc.take_released(), vec![(sb, 86016)]);
    for page in 0..21 {
        assert_eq!(alloc.get_page_info(sb + page * 4096).get_desc(), 0);
    }
    // the descriptor stays on the partial list until the next fill finds it there
    assert_eq!(alloc.get_heap(39).get_partial_list().get_desc(), desc);
    let r = alloc.do_malloc(a, MAX_SZ, Supply { descriptors: 0, pages: 0 });
    assert_eq!(r, Allocated::Want { descriptors: false, pages: 86016 });
    assert_eq!(alloc.get_heap(39).get_partial_list().get_desc(), 0);
    assert_eq!(alloc.get_descriptor(desc).unwrap().get_block_size(), 0);
    assert!(!alloc.pool_is_empty());
}

#[test]
fn partial_superblocks_are_used_before_new_ones() {
    let mut alloc = init_malloc();
    let a = alloc.thread_init();
    let b = alloc.thread_init();
    let mut pages = Pages::new();
    let blocks: Vec<usize> = (0..6).map(|_| allocate(&mut alloc, &mut pages, a, MAX_SZ)).collect();
    let mapped = pages.mapped;
    alloc.do_free(b, blocks[2]);
    alloc.do_free(b, blocks[5]);
    alloc.thread_finalize(b);
    // the two blocks that the superblock holds fill the cache of the first thread
    let p = allocate(&mut alloc, &mut pages, a, MAX_SZ);
    assert_eq!(p, blocks[5]);
    assert_eq!(alloc.cache_block_num(a, 39), 1);
    let q = allocate(&mut alloc, &mut pages, a, MAX_SZ);
    assert_eq!(q, blocks[2]);
    assert_eq!(pages.mapped, mapped);
    let anchor = alloc.get_descriptor(alloc.get_page_info(p).get_desc()).unwrap().get_anchor();
    assert_eq!((anchor.state(), anchor.avail(), anchor.count()), (0, 6, 0));
    assert_eq!(alloc.get_heap(39).get_partial_list().get_desc(), 0);
}

#[test]
fn a_region_that_was_released_can_be_supplied_again() {
    let (mut alloc, mut pages, tid) = fresh();
    let p = allocate(&mut alloc, &mut pages, tid, 100_000);
    assert_eq!(alloc.usable_size(p), 102_400);
    // while the block is held, its pages are not taken for another
    let r = alloc.do_malloc(tid, 32, Supply { descriptors: 0, pages: p });
    assert_eq!(r, Allocated::Want { descriptors: false, pages: 65536 });
    let r = alloc.do_malloc(tid, 32, Supply { descriptors: 0, pages: p + 0x8000 });
    assert_eq!(r, Allocated::Want { descriptors: false, pages: 65536 });
    alloc.do_free(tid, p);
    assert_eq!(alloc.take_released(), vec![(p, 102_400)]);
    let r = alloc.do_malloc(tid, 32, Supply { descriptors: 0, pages: p });
    assert_eq!(r, Allocated::Block { ptr: p, took_descriptors: false, took_pages: true });
    assert_eq!(alloc.usable_size(p), 32);
    assert_eq!(alloc.get_page_info(p + 65535).get_sc_idx(), 4);
    assert_eq!(alloc.get_page_info(p + 65536).get_desc(), 0);
}

#[test]
fn apf_response() {
    let (mut alloc, mut pages, tid) = fresh();
    let first = allocate(&mut alloc, &mut pages, tid, 64);
    let mapped = pages.mapped;
    alloc.do_free(tid, first);
    for _ in 1..25_000 {
        let p = allocate(&mut alloc, &mut pages, tid, 64);
        assert_eq!(p, first);
        assert_eq!(alloc.cache_block_num(tid, 8), 1023);
        alloc.do_free(tid, p);
        assert_eq!(alloc.cache_block_num(tid, 8), 1024);
    }
    // one fetch filled the cache, and nothing was cut from it or flushed
    assert_eq!(alloc.get_apf(tid, 8).get_num_fetches(), 1);
    assert_eq!(alloc.get_apf(tid, 8).get_time(), 25_000 - 20_000);
    assert_eq!(pages.mapped, mapped);
    assert!(alloc.take_released().is_empty());
}

#[test]
fn burst_and_decay() {
    let (mut alloc, mut pages, tid) = fresh();
    let mut blocks: Vec<usize> =
        (0..1000).map(|_| allocate(&mut alloc, &mut pages, tid, 128)).collect();
    // two superblocks of 512 blocks
    assert_eq!(alloc.get_apf(tid, 12).get_num_fetches(), 2);
    assert_eq!(alloc.cache_block_num(tid, 12), 24);
    let mapped = pages.mapped;
    for i in 0..50_000 {
        let slot = i % 1000;
        alloc.do_free(tid, blocks[slot]);
        assert!(alloc.cache_block_num(tid, 12) <= 512);
        let p = allocate(&mut alloc, &mut pages, tid, 128);
        assert_eq!(alloc.usable_size(p), 128);
        blocks[slot] = p;
    }
    let mut sorted = blocks.clone();
    sorted.sort();
    sorted.dedup();
    assert_eq!(sorted.len(), 1000);
    assert_eq!(pages.mapped, mapped);
    for p in blocks {
        alloc.do_free(tid, p);
    }
    alloc.thread_finalize(tid);
    pages.release_all(&mut alloc);
    assert_eq!(pages.mapped, pages.for_descriptors);
}

#[test]
fn a_short_target_makes_the_predictor_cut_the_cache() {
    let (mut alloc, mut pages, tid) = fresh();
    let blocks: Vec<usize> = (0..100).map(|_| allocate(&mut alloc, &mut pages, tid, 64)).collect();
    assert_eq!(alloc.cache_block_num(tid, 8), 924);
    let desc = alloc.get_page_info(blocks[0]).get_desc();
    r3malloc::set_target_apf(&mut alloc, tid, 64, 1);
    let mapped = pages.mapped;
    let mut held = 924;
    let mut cuts = 0;
    for p in blocks.iter() {
        alloc.do_free(tid, *p);
        let now = alloc.cache_block_num(tid, 8);
        assert!(now <= held + 1 && now >= 1);
        if now <= held {
            cuts += 1;
        }
        held = now;
    }
    assert!(cuts > 0);
    // what was cut is with the superblock, which is on the partial list now
    let anchor = alloc.get_descriptor(desc).unwrap().get_anchor();
    assert_eq!(anchor.state(), 1);
    assert_eq!(anchor.count() + held, 1024);
    assert_eq!(alloc.get_heap(8).get_partial_list().get_desc(), desc);
    let mut again: Vec<usize> = (0..1024).map(|_| allocate(&mut alloc, &mut pages, tid, 64)).collect();
    assert_eq!(pages.mapped, mapped);
    again.sort();
    again.dedup();
    assert_eq!(again.len(), 1024);
    assert_eq!(again[0], blocks[0]);
    assert_eq!(again[1023], blocks[0] + 1023 * 64);
}

#[test]
fn a_new_thread_has_predictors_that_saw_nothing() {
    let mut alloc = init_malloc();
    let a = alloc.thread_init();
    let mut pages = Pages::new();
    let p = allocate(&mut alloc, &mut pages, a, 64);
    r3malloc::set_target_apf(&mut alloc, a, 64, 7);
    let b = alloc.thread_init();
    assert_eq!(b, a + 1);
    for sc_idx in 0..MAX_SZ_IDX {
        let apf = alloc.get_apf(b, sc_idx);
        assert_eq!(apf.get_target_apf(), 1000);
        assert_eq!(apf.get_num_fetches(), 0);
        assert_eq!(apf.get_current_apf(), 0);
        assert_eq!(apf.get_time(), 0);
        assert_eq!(alloc.cache_block_num(b, sc_idx), 0);
    }
    // the first thread is as it was
    assert_eq!(alloc.get_apf(a, 8).get_target_apf(), 7);
    assert_eq!(alloc.get_apf(a, 8).get_num_fetches(), 1);
    assert_eq!(alloc.cache_block_num(a, 8), 1023);
    assert_eq!(alloc.usable_size(p), 64);
}

#[test]
fn a_superblock_that_filled_a_cache_is_full() {
    let (mut alloc, mut pages, tid) = fresh();
    let p = allocate(&mut alloc, &mut pages, tid, 64);
    let desc = alloc.get_descriptor(alloc.get_page_info(p).get_desc()).unwrap();
    let anchor = desc.get_anchor();
    assert_eq!((anchor.state(), anchor.avail(), anchor.count()), (0, 1024, 0));
    assert_eq!(desc.get_superblock(), p);
    assert_eq!((desc.get_block_size(), desc.get_maxcount()), (64, 1024));
    assert_eq!(alloc.get_heap(8).get_partial_list().get_desc(), 0);
}

#[test]
fn a_large_block_is_a_full_superblock_of_one_block() {
    let (mut alloc, mut pages, tid) = fresh();
    let p = allocate(&mut alloc, &mut pages, tid, 200000);
    let d = alloc.get_page_info(p).get_desc();
    let desc = alloc.get_descriptor(d).unwrap();
    let anchor = desc.get_anchor();
    assert_eq!((anchor.state(), anchor.avail(), anchor.count()), (0, 0, 0));
    assert_eq!((desc.get_block_size(), desc.get_maxcount()), (200704, 1));
    assert_eq!(desc.get_superblock(), p);
    alloc.do_free(tid, p);
    // the descriptor is on top of the pool, with no block size
    assert_eq!(alloc.get_descriptor(d).unwrap().get_block_size(), 0);
    let q = allocate(&mut alloc, &mut pages, tid, 300000);
    assert_eq!(alloc.get_page_info(q).get_desc(), d);
}

#[test]
fn a_flush_takes_every_block_back_run_by_run() {
    let (mut alloc, mut pages, tid) = fresh();
    // all 2048 blocks of one superblock of 32 bytes
    let blocks: Vec<usize> = (0..2048).map(|_| allocate(&mut alloc, &mut pages, tid, 32)).collect();
    let d = alloc.get_page_info(blocks[0]).get_desc();
    assert_eq!(alloc.cache_block_num(tid, 4), 0);
    for p in blocks.iter() {
        alloc.do_free(tid, *p);
    }
    alloc.thread_finalize(tid);
    assert_eq!(alloc.cache_block_num(tid, 4), 0);
    let anchor = alloc.get_descriptor(d).unwrap().get_anchor();
    assert_eq!((anchor.state(), anchor.count()), (2, 2047));
    assert!(anchor.avail() < 2048);
    assert_eq!(alloc.take_released(), vec![(blocks[0], 65536)]);
    assert_eq!(alloc.get_page_info(blocks[0]).get_desc(), 0);
}

#[test]
fn an_anchor_keeps_within_its_bounds() {
    let mut alloc = init_malloc();
    let a = alloc.thread_init();
    let b = alloc.thread_init();
    let mut pages = Pages::new();
    let blocks: Vec<usize> = (0..6).map(|_| allocate(&mut alloc, &mut pages, a, MAX_SZ)).collect();
    let d = alloc.get_page_info(blocks[0]).get_desc();
    let check = |alloc: &R3Malloc, state: u32| {
        let desc = alloc.get_descriptor(d).unwrap();
        let anchor = desc.get_anchor();
        assert_eq!(anchor.state(), state);
        assert!(anchor.count() < desc.get_maxcount());
        match state {
            0 => assert_eq!((anchor.avail(), anchor.count()), (desc.get_maxcount(), 0)),
            1 => assert!(anchor.avail() < desc.get_maxcount() && anchor.count() > 0),
            _ => assert!(anchor.avail() < desc.get_maxcount() && anchor.count() == desc.get_maxcount() - 1),
        }
    };
    check(&alloc, 0);
    // a free by another thread leaves the caches and the predictors of the first as they are
    let fetches = alloc.get_apf(a, 39).get_num_fetches();
    let time = alloc.get_apf(a, 39).get_time();
    for p in blocks.iter().take(3) {
        alloc.do_free(b, *p);
    }
    assert_eq!(alloc.cache_block_num(a, 39), 0);
    assert_eq!(alloc.get_apf(a, 39).get_num_fetches(), fetches);
    assert_eq!(alloc.get_apf(a, 39).get_time(), time);
    check(&alloc, 0);
    alloc.thread_finalize(b);
    check(&alloc, 1);
    for p in blocks.iter().skip(3) {
        alloc.do_free(b, *p);
    }
    alloc.thread_finalize(b);
    check(&alloc, 2);
}
