use r3malloc::bits::{get_field, set_field};
use r3malloc::memory::BlockMemory;
use r3malloc::pagemap::{region_ok, PageInfo, PageMap};
use r3malloc::size_classes::{
    init_size_class, size_class_filter_init, size_classes, SizeClassOpt, MAX_SZ, MAX_SZ_IDX,
    SIZE_CLASSES_TABLE,
};
use r3malloc::tcache::TCacheBin;

#[test]
fn a_field_is_read_and_stored_in_place() {
    assert_eq!(get_field(0b1011_0100, 2, 0b111), 0b101);
    assert_eq!(set_field(0b1011_0100, 2, 0b111, 0b010), 0b1010_1000);
    assert_eq!(set_field(0, 33, 0x7FFF_FFFF, 0xFFFF_FFFF), 0x7FFF_FFFF << 33);
    assert_eq!(get_field(u64::MAX, 63, 1), 1);
}

#[test]
fn the_schedule_gives_the_block_sizes() {
    let row = (5, 5, 3, 2, SizeClassOpt::No, SizeClassOpt::Yes, 3, 3);
    let sc = size_class_filter_init(&row).unwrap();
    assert_eq!(sc.get_block_size(), 48);
    assert_eq!(sc.get_sb_size(), 12288);
    assert_eq!(sc.get_block_num(), 0);
    assert_eq!(sc.get_cache_block_num(), 0);
    let row = (39, 13, 11, 4, SizeClassOpt::Yes, SizeClassOpt::No, 0, 0);
    assert!(size_class_filter_init(&row).is_none());
    assert_eq!(SIZE_CLASSES_TABLE.len(), 235);
    let classes = size_classes();
    assert_eq!(classes[1].get_block_size(), 8);
    assert_eq!(classes[39].get_block_size(), 14336);
    assert_eq!(classes[39].get_sb_size(), 28672);
}

#[test]
fn the_table_holds_whole_superblocks() {
    let table = init_size_class();
    let expected = [
        (1usize, 8u32, 65536u32, 8192u32),
        (3, 24, 73728, 3072),
        (4, 32, 65536, 2048),
        (8, 64, 65536, 1024),
        (11, 112, 86016, 768),
        (14, 192, 73728, 384),
        (32, 4096, 65536, 16),
        (36, 8192, 65536, 8),
        (39, 14336, 86016, 6),
    ];
    for (idx, block_size, sb_size, block_num) in expected {
        let sc = table.get(idx);
        assert_eq!(sc.get_block_size(), block_size);
        assert_eq!(sc.get_sb_size(), sb_size);
        assert_eq!(sc.get_block_num(), block_num);
        assert_eq!(sc.get_cache_block_num(), block_num);
    }
    for idx in 1..MAX_SZ_IDX {
        let sc = table.get(idx);
        assert_eq!(sc.get_sb_size() % sc.get_block_size(), 0);
        assert_eq!(sc.get_sb_size() % 4096, 0);
        assert!(sc.get_sb_size() >= 65536);
    }
}

#[test]
fn each_size_is_served_by_the_least_class_that_holds_it() {
    let table = init_size_class();
    assert_eq!(table.get_size_class(0), 1);
    assert_eq!(table.get_size_class(8), 1);
    assert_eq!(table.get_size_class(9), 2);
    assert_eq!(table.get_size_class(64), 8);
    assert_eq!(table.get_size_class(65), 9);
    assert_eq!(table.get_size_class(MAX_SZ), MAX_SZ_IDX - 1);
    for size in 0..=MAX_SZ {
        let idx = table.get_size_class(size);
        assert!(table.get(idx).get_block_size() as usize >= size);
        assert!(idx == 1 || (table.get(idx - 1).get_block_size() as usize) < size);
    }
}

#[test]
fn the_index_of_a_block_is_its_offset_in_blocks() {
    let table = init_size_class();
    assert_eq!(table.compute_idx(0x10000, 0x10000, 4), 0);
    assert_eq!(table.compute_idx(0x10000, 0x10000 + 32 * 7, 4), 7);
    assert_eq!(table.compute_idx(0x10000, 0x10000 + 65535, 4), 2047);
}

#[test]
fn a_page_map_entry_packs_descriptor_and_class() {
    let mut info = PageInfo::new();
    assert_eq!((info.get_desc(), info.get_sc_idx()), (0, 0));
    info.set_desc(0x1_0040, 39);
    assert_eq!((info.get_desc(), info.get_sc_idx()), (0x1_0040, 39));
    info.set_desc(0x2_0000, 0);
    assert_eq!((info.get_desc(), info.get_sc_idx()), (0x2_0000, 0));
}

#[test]
fn the_page_map_files_by_page() {
    let mut map = PageMap::def();
    let mut info = PageInfo::new();
    info.set_desc(0x1_0040, 3);
    assert_eq!(PageMap::addr_to_key(0x12345), 0x12);
    assert_eq!(PageMap::addr_to_key(0x4_0000_0000_1000), 1);
    map.set_page_info(info, 0x12345);
    assert_eq!(map.get_page_info(0x12000), info);
    assert_eq!(map.get_page_info(0x12FFF), info);
    assert_eq!(map.get_page_info(0x13000), PageInfo::new());
    assert_eq!(map.get_page_info(0x11FFF), PageInfo::new());
    map.set_range(info, 0x20000, 0x3000);
    assert_eq!(map.get_page_info(0x1F000), PageInfo::new());
    assert_eq!(map.get_page_info(0x20000), info);
    assert_eq!(map.get_page_info(0x22FFF), info);
    assert_eq!(map.get_page_info(0x23000), PageInfo::new());
    assert!(!map.range_is_empty(0x22000, 0x2000));
    assert!(map.range_is_empty(0x23000, 0x2000));
    map.init();
    assert!(map.range_is_empty(0x20000, 0x3000));
}

#[test]
fn a_region_is_whole_pages_below_the_limit() {
    assert!(region_ok(0x1000, 0x1000));
    assert!(!region_ok(0, 0x1000));
    assert!(!region_ok(0x1010, 0x1000));
    assert!(!region_ok(0x1000, 0x1001));
    assert!(!region_ok(0x1000, 0));
    assert!(region_ok(0x3_FFFF_FFFF_F000, 0x1000));
    assert!(!region_ok(0x3_FFFF_FFFF_F000, 0x2000));
    assert!(!region_ok(usize::MAX - 0xFFF, 0x1000));
}

#[test]
fn block_memory_reads_zero_where_nothing_was_written() {
    let mut mem = BlockMemory::new();
    assert_eq!(mem.read(0x1000), 0);
    mem.write(0x1000, 0x2000);
    assert_eq!(mem.read(0x1000), 0x2000);
    assert_eq!(mem.read(0x1008), 0);
    mem.thread(0x8000, 48, 4);
    assert_eq!(mem.read(0x8000), 0x8030);
    assert_eq!(mem.read(0x8030), 0x8060);
    assert_eq!(mem.read(0x8060), 0x8090);
    assert_eq!(mem.read(0x8090), 0);
}

#[test]
fn a_cache_bin_is_a_stack_threaded_through_the_blocks() {
    let mut mem = BlockMemory::new();
    let mut bin = TCacheBin::new();
    assert_eq!((bin.peek_block(), bin.get_block_num()), (0, 0));
    bin.push_block(&mut mem, 0x100);
    bin.push_block(&mut mem, 0x200);
    bin.push_block(&mut mem, 0x300);
    assert_eq!((bin.peek_block(), bin.get_block_num()), (0x300, 3));
    assert_eq!(mem.read(0x300), 0x200);
    assert_eq!(mem.read(0x100), 0);
    assert_eq!(bin.pop_block(&mem), 0x300);
    assert_eq!((bin.peek_block(), bin.get_block_num()), (0x200, 2));
    bin.pop_list(0x100, 1);
    assert_eq!((bin.peek_block(), bin.get_block_num()), (0x100, 1));
    assert_eq!(bin.pop_block(&mem), 0x100);
    assert_eq!(bin.get_block_num(), 0);
    bin.push_list(0x300, 3);
    assert_eq!((bin.peek_block(), bin.get_block_num()), (0x300, 3));
    assert_eq!(bin.pop_block(&mem), 0x300);
    assert_eq!(bin.pop_block(&mem), 0x200);
    assert_eq!(bin.pop_block(&mem), 0x100);
}
