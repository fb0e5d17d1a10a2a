use r3malloc::heap::{
    heap_pop_partial, heap_push_partial, Anchor, Descriptor, DescriptorNode, DescriptorTable,
    ProcHeap, SbState, DESCRIPTOR_BLOCK_SZ, MAX_BLOCK_NUM,
};

#[test]
fn an_anchor_keeps_its_fields_apart() {
    let mut anchor = Anchor::new();
    assert_eq!((anchor.state(), anchor.avail(), anchor.count()), (0, 0, 0));
    anchor.set_avail(128);
    assert_eq!((anchor.state(), anchor.avail(), anchor.count()), (0, 128, 0));
    anchor.set_count(0x7FFF_FFFF);
    anchor.set_state(SbState::Empty.code());
    assert_eq!((anchor.state(), anchor.avail(), anchor.count()), (2, 128, 0x7FFF_FFFF));
    anchor.set_avail(0x7FFF_FFFF);
    anchor.set_count(1);
    assert_eq!((anchor.state(), anchor.avail(), anchor.count()), (2, 0x7FFF_FFFF, 1));
}

#[test]
fn an_anchor_cuts_what_is_stored_to_the_field() {
    let mut anchor = Anchor::new();
    anchor.set_state(5);
    anchor.set_avail(0xFFFF_FFFF);
    anchor.set_count(0x8000_0003);
    assert_eq!((anchor.state(), anchor.avail(), anchor.count()), (1, 0x7FFF_FFFF, 3));
    assert_eq!(MAX_BLOCK_NUM, 1 << 31);
}

#[test]
fn the_states_have_their_codes() {
    assert_eq!(SbState::Full.code(), 0);
    assert_eq!(SbState::Partial.code(), 1);
    assert_eq!(SbState::Empty.code(), 2);
}

#[test]
fn a_node_carries_a_counter_beside_the_address() {
    let mut node = DescriptorNode::new(0);
    assert_eq!((node.get_desc(), node.get_counter()), (0, 0));
    node.set_desc(0x1000, 65);
    assert_eq!((node.get_desc(), node.get_counter()), (0x1000, 1));
    node.set_desc(0x7FFF_FFC0, 63);
    assert_eq!((node.get_desc(), node.get_counter()), (0x7FFF_FFC0, 63));
    let node = DescriptorNode::new(0x1040);
    assert_eq!((node.get_desc(), node.get_counter()), (0x1040, 0));
    let node = DescriptorNode::new(0x1047);
    assert_eq!((node.get_desc(), node.get_counter()), (0x1040, 7));
}

#[test]
fn a_descriptor_keeps_what_is_set() {
    let mut desc = Descriptor::zeroed();
    desc.set_heap(3);
    desc.set_block_size(10);
    desc.set_maxcount(20);
    desc.set_superblock(0x5000);
    let mut anchor = Anchor::new();
    anchor.set_count(7);
    desc.set_anchor(anchor);
    assert_eq!(desc.get_heap(), 3);
    assert_eq!(desc.get_block_size(), 10);
    assert_eq!(desc.get_maxcount(), 20);
    assert_eq!(desc.get_superblock(), 0x5000);
    assert_eq!(desc.get_anchor().count(), 7);
    assert_eq!(desc.get_next_free().get_desc(), 0);
    assert_eq!(desc.get_next_partial().get_desc(), 0);
}

#[test]
fn the_pool_cuts_a_fresh_block_into_descriptors() {
    let mut table = DescriptorTable::new();
    assert!(table.is_empty());
    let base = 0x10_0000;
    assert_eq!(Descriptor::allocate(&mut table, base), base);
    assert!(!table.is_empty());
    for slot in 1..1024 {
        assert_eq!(Descriptor::allocate(&mut table, 0), base + 64 * slot);
    }
    assert!(table.is_empty());
    assert!(table.contains(base + 64 * 1023));
    assert!(!table.contains(base + DESCRIPTOR_BLOCK_SZ));
    assert_eq!(Descriptor::allocate(&mut table, 0), 0);
}

#[test]
fn the_pool_hands_out_the_descriptor_retired_last() {
    let mut table = DescriptorTable::new();
    let a = Descriptor::allocate(&mut table, 0x10_0000);
    let b = Descriptor::allocate(&mut table, 0);
    let c = Descriptor::allocate(&mut table, 0);
    let mut desc = table.get(a);
    desc.set_block_size(48);
    table.put(a, desc);
    Descriptor::retire(&mut table, a);
    assert_eq!(table.get(a).get_block_size(), 0);
    Descriptor::retire(&mut table, c);
    assert_eq!(Descriptor::allocate(&mut table, 0), c);
    assert_eq!(Descriptor::allocate(&mut table, 0), a);
    assert_eq!(Descriptor::allocate(&mut table, 0), b + 128);
}

#[test]
fn the_pool_refuses_a_block_that_it_cannot_use() {
    let mut table = DescriptorTable::new();
    assert!(!table.can_accept(0));
    assert!(!table.can_accept(0x10_0040));
    assert!(!table.can_accept(usize::MAX - 0xFFF));
    assert!(table.can_accept(0x10_0000));
    assert_eq!(Descriptor::allocate(&mut table, 0x10_0040), 0);
    assert_eq!(Descriptor::allocate(&mut table, 0x10_0000), 0x10_0000);
    // a block that overlaps the descriptors of another
    assert!(!table.can_accept(0x10_1000));
    assert!(!table.can_accept(0x0F_1000));
    assert!(table.can_accept(0x11_0000));
}

#[test]
fn heap_push_and_pop() {
    let mut table = DescriptorTable::new();
    let mut heap = ProcHeap::const_new(1);
    assert_eq!(heap.get_sc_idx(), 1);
    let desc = Descriptor::allocate(&mut table, 0x10_0000);
    let other = Descriptor::allocate(&mut table, 0);
    for d in [desc, other] {
        let mut value = table.get(d);
        value.set_heap(1);
        value.set_block_size(10);
        value.set_maxcount(20);
        table.put(d, value);
    }
    assert_eq!(heap_pop_partial(&table, &mut heap), 0);
    heap_push_partial(&mut table, &mut heap, desc);
    assert_eq!(heap.get_partial_list().get_desc(), desc);
    assert_eq!(heap.get_partial_list().get_counter(), 1);
    heap_push_partial(&mut table, &mut heap, other);
    assert_eq!(heap.get_partial_list().get_counter(), 2);
    assert_eq!(table.get(other).get_next_partial().get_desc(), desc);
    assert_eq!(heap_pop_partial(&table, &mut heap), other);
    assert_eq!(heap_pop_partial(&table, &mut heap), desc);
    assert_eq!(table.get(desc).get_block_size(), 10);
    assert_eq!(heap_pop_partial(&table, &mut heap), 0);
    assert_eq!(heap.get_partial_list().get_counter(), 2);
}

#[test]
fn the_heap_knows_its_size_class() {
    let classes = r3malloc::size_classes::init_size_class();
    let mut heap = ProcHeap::const_new(0);
    heap.set_sc_idx(4);
    assert_eq!(heap.get_size_class(&classes).get_block_size(), 32);
}
