use r3malloc::defines::{align_addr, align_val, is_power_of_two, page_ceiling, PAGE};

#[test]
fn page_ceiling_rounds_up_to_whole_pages() {
    assert_eq!(page_ceiling(0), 0);
    assert_eq!(page_ceiling(1), PAGE);
    assert_eq!(page_ceiling(4096), 4096);
    assert_eq!(page_ceiling(4097), 8192);
    assert_eq!(page_ceiling(200000), 200704);
}

#[test]
fn align_val_rounds_up_to_the_alignment() {
    assert_eq!(align_val(0, 8), 0);
    assert_eq!(align_val(1, 8), 8);
    assert_eq!(align_val(4097, 4096), 8192);
    assert_eq!(align_val(64, 64), 64);
    assert_eq!(align_addr(0x1234, 0x1000), 0x2000);
}

#[test]
fn powers_of_two_are_told_apart() {
    assert!(is_power_of_two(1));
    assert!(is_power_of_two(4096));
    assert!(!is_power_of_two(0));
    assert!(!is_power_of_two(24));
}
