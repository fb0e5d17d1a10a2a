use r3malloc::apf::{demand_of, Apf, Ratio, Reuse, Xyz, BOOST_LENGTH, NUM_FREE_INTERVALS, TARGET_APF};

#[test]
fn a_memo_entry_keeps_its_fields_apart() {
    let mut e = Xyz::new();
    assert!(!e.init());
    assert_eq!((e.x(), e.y(), e.z()), (0, 0, 0));
    e.set_x(5);
    e.set_z(7);
    e.set_init(true);
    e.set_y(0x1F_FFFF);
    assert!(e.init());
    assert_eq!((e.x(), e.y(), e.z()), (5, 0x1F_FFFF, 7));
    e.set_init(false);
    assert!(!e.init());
    assert_eq!((e.x(), e.y(), e.z()), (5, 0x1F_FFFF, 7));
}

#[test]
fn a_memo_entry_cuts_a_sum_to_21_bits() {
    let mut e = Xyz::new();
    e.set_x(0x20_0001);
    e.set_y(0xFFFF_FFFF);
    e.set_z(0x20_0000);
    assert_eq!((e.x(), e.y(), e.z()), (1, 0x1F_FFFF, 0));
    assert_eq!(Xyz::packed(0x20_0003, 4, 5), Xyz::packed(3, 4, 5));
    assert!(Xyz::packed(1, 2, 3).init());
}

#[test]
fn demand_is_the_whole_part_of_the_window_less_the_reuse() {
    assert_eq!(demand_of(10, Ratio { num: 5, den: 2 }), 7);
    assert_eq!(demand_of(10, Ratio { num: 4, den: 2 }), 8);
    assert_eq!(demand_of(10, Ratio { num: -5, den: 2 }), 12);
    assert_eq!(demand_of(1000, Ratio { num: 100, den: -50 }), 1002);
    assert_eq!(demand_of(1000, Ratio { num: -998, den: -997 }), 998);
    assert_eq!(demand_of(2, Ratio { num: 10, den: 1 }), 0);
    assert_eq!(demand_of(2, Ratio { num: 2, den: 1 }), 0);
}

#[test]
fn demand_with_no_window_to_count() {
    assert_eq!(demand_of(7, Ratio { num: 3, den: 0 }), 0);
    assert_eq!(demand_of(7, Ratio { num: 0, den: 0 }), 0);
    assert_eq!(demand_of(7, Ratio { num: -3, den: 0 }), usize::MAX);
}

fn sampled() -> Apf {
    let mut apf = Apf::new();
    apf.init();
    apf.inc_timer();
    apf.on_free();
    apf.inc_timer();
    apf.on_allocation();
    apf
}

#[test]
fn a_free_and_the_next_allocation_make_a_reuse_interval() {
    let mut reuse = Reuse::def();
    reuse.init();
    reuse.inc_timer();
    reuse.on_free();
    reuse.inc_timer();
    reuse.on_allocation();
    assert_eq!(reuse.get_time(), 2);
    // the interval (1, 2) is shorter than 1000: x = min(2 - 1000, 1), y = max(1000, 2), z = 1000
    assert_eq!(reuse.compute(1000), Ratio { num: -998, den: -997 });
    // a window of 0 holds no interval
    assert_eq!(reuse.compute(0), Ratio { num: 0, den: 3 });
}

#[test]
fn an_allocation_without_a_free_before_it_completes_nothing() {
    let mut reuse = Reuse::def();
    reuse.init();
    reuse.inc_timer();
    reuse.on_allocation();
    reuse.inc_timer();
    reuse.on_allocation();
    assert_eq!(reuse.compute(1000), Ratio { num: 0, den: -997 });
}

#[test]
fn the_memo_rebuilds_the_sums_window_by_window() {
    let mut apf = sampled();
    // the interval (1, 2) among 2 events: x = min(2 - 5, 1), y = max(5, 2), z = 5,
    // and 5 - (-3 / -2) is 3 and a half
    assert_eq!(apf.demand(5), 3);
    // x = min(2 - 6, 1), y = 6, z = 6, and 6 - (-4 / -3) is 4 and two thirds
    assert_eq!(apf.demand(6), 4);
    assert_eq!(apf.demand(5), 3);
}

#[test]
fn a_short_window_has_the_sums_of_the_direct_sum() {
    let mut reuse = Reuse::def();
    reuse.init();
    reuse.inc_timer();
    reuse.on_free();
    reuse.inc_timer();
    reuse.on_allocation();
    // x = min(2 - 2, 1), y = max(2, 2), z = 2
    assert_eq!(reuse.compute(2), Ratio { num: 0, den: 1 });
    // the interval is not shorter than 1
    assert_eq!(reuse.compute(1), Ratio { num: 0, den: 2 });
    // x = min(2 - 3, 1), y = 3, z = 3
    assert_eq!(reuse.compute(3), Ratio { num: -1, den: 0 });
    // x = min(2 - 999, 1), y = 999, z = 999
    assert_eq!(reuse.compute(999), Ratio { num: -997, den: -996 });
    assert_eq!(reuse.compute(1000), Ratio { num: -998, den: -997 });
}

fn pairs(reuse: &mut Reuse, n: u32) {
    for _ in 0..n {
        reuse.inc_timer();
        reuse.on_free();
        reuse.inc_timer();
        reuse.on_allocation();
    }
}

#[test]
fn the_memo_goes_on_from_the_window_before() {
    let mut reuse = Reuse::def();
    reuse.init();
    // the intervals (1, 2), (3, 4), .., (39, 40) among 40 events
    pairs(&mut reuse, 20);
    // x: 1 + 3 + .. + 35 and twice 36; y: twice 4 and 6 + 8 + .. + 40; z: 20 times 4
    assert_eq!(reuse.compute(4), Ratio { num: 396 - 422 + 80, den: 37 });
    // the frees at 37 and 39 are capped one lower, the allocations at 2 and 4 raised by one
    assert_eq!(reuse.compute(5), Ratio { num: 394 - 424 + 100, den: 36 });
    assert_eq!(reuse.compute(4), Ratio { num: 54, den: 37 });
    // a window of 1 holds no interval of length 1
    assert_eq!(reuse.compute(1), Ratio { num: 0, den: 40 });
    // x: 1 + 3 + .. + 37 and 38; y: 2 + 4 + .. + 40; z: 20 times 2
    assert_eq!(reuse.compute(2), Ratio { num: 399 - 420 + 40, den: 39 });
}

#[test]
fn an_event_empties_the_memo() {
    let mut reuse = Reuse::def();
    reuse.init();
    pairs(&mut reuse, 20);
    assert_eq!(reuse.compute(4), Ratio { num: 54, den: 37 });
    pairs(&mut reuse, 1);
    // one more interval, (41, 42), among 42 events
    assert_eq!(reuse.compute(4), Ratio { num: 437 - 464 + 84, den: 39 });
    assert_eq!(reuse.compute(5), Ratio { num: 435 - 466 + 105, den: 38 });
}

#[test]
fn a_long_window_is_summed_directly() {
    let mut apf = sampled();
    assert_eq!(apf.demand(1000), 998);
    assert_eq!(apf.demand(2000), 1998);
}

#[test]
fn slots_are_cut_when_more_than_twice_the_demand_is_at_hand() {
    let mut apf = sampled();
    assert_eq!(apf.should_update_slots(1996), None);
    assert_eq!(apf.should_update_slots(1997), Some(999));
    assert_eq!(apf.should_update_slots(5000), Some(999));
    assert_eq!(apf.should_update_slots(0), None);
}

#[test]
fn the_window_in_use_is_what_is_left_until_the_next_fetch_is_due() {
    let mut apf = sampled();
    assert_eq!(apf.get_target_apf(), TARGET_APF);
    apf.on_fetch();
    apf.on_fetch();
    // 1000 * 3 - 2 events are left: the demand over 2998 is 2998 - 1, cut to whole blocks
    assert_eq!(apf.should_update_slots(2 * 2996 + 1), Some(2997));
    assert_eq!(apf.should_update_slots(2 * 2996), None);
    apf.set_target_apf(10);
    // 10 * 3 - 2 = 28
    assert_eq!(apf.should_update_slots(1 << 20), Some(apf.demand(28) + 1));
}

#[test]
fn a_window_ends_after_boost_length_ticks() {
    let mut reuse = Reuse::def();
    reuse.init();
    for _ in 0..BOOST_LENGTH - 1 {
        reuse.inc_timer();
    }
    reuse.on_free();
    assert_eq!(reuse.get_time(), BOOST_LENGTH - 1);
    reuse.inc_timer();
    assert_eq!(reuse.get_time(), 0);
    // the free of the window before is forgotten
    reuse.inc_timer();
    reuse.on_allocation();
    assert_eq!(reuse.compute(1000), Ratio { num: 0, den: -998 });
}

#[test]
fn every_third_window_is_not_sampled() {
    let mut reuse = Reuse::def();
    reuse.init();
    for window in 0..6 {
        reuse.inc_timer();
        reuse.on_free();
        reuse.inc_timer();
        reuse.on_allocation();
        let counted = reuse.compute(1000) != (Ratio { num: 0, den: -999 });
        assert_eq!(counted, window % 3 != 2);
        for _ in 2..BOOST_LENGTH {
            reuse.inc_timer();
        }
    }
}

#[test]
fn the_ring_of_intervals_wraps_around() {
    let mut reuse = Reuse::def();
    reuse.init();
    reuse.inc_timer();
    for _ in 0..NUM_FREE_INTERVALS + 1 {
        reuse.on_free();
        reuse.on_allocation();
    }
    // 251 intervals (1, 1) were made; after the ring of 250 wrapped, one is counted:
    // x = min(502 - 1000, 1), y = max(1000, 1), z = 1000
    assert_eq!(reuse.compute(1000), Ratio { num: -498 - 1000 + 1000, den: 502 - 1000 + 1 });
}

#[test]
fn an_interval_of_no_length_enters_at_window_one() {
    let mut reuse = Reuse::def();
    reuse.init();
    reuse.inc_timer();
    reuse.on_free();
    reuse.on_allocation();
    // the interval (1, 1) among 2 events: x = min(2 - 2, 1), y = max(2, 1), z = 2
    assert_eq!(reuse.compute(2), Ratio { num: 0, den: 1 });
    // x = min(2 - 1, 1), y = max(1, 1), z = 1
    assert_eq!(reuse.compute(1), Ratio { num: 1, den: 2 });
    assert_eq!(reuse.compute(0), Ratio { num: 0, den: 3 });
    // the direct sum of a window that is not below the target gives the same as the memo would
    assert_eq!(reuse.compute(1000), Ratio { num: -998 - 1000 + 1000, den: -997 });
    assert_eq!(reuse.compute(999), Ratio { num: -997 - 999 + 999, den: -996 });
}
