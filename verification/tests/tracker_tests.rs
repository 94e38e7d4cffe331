use basic_udp::RangeTree;

#[test]
fn fresh_tracker_misses_the_whole_window() {
    let rt = RangeTree::new(0, 9);
    assert!(!rt.is_complete());
    assert_eq!(rt.pending_ranges(), vec![(0, 9)]);
    for i in 0..10 {
        assert!(rt.is_missing(i));
    }
    assert!(!rt.is_missing(10));
}

#[test]
fn narrowing_and_splitting() {
    let mut rt = RangeTree::new(0, 9);
    rt.add_packet(0);
    assert_eq!(rt.pending_ranges(), vec![(1, 9)]);
    rt.add_packet(9);
    assert_eq!(rt.pending_ranges(), vec![(1, 8)]);
    rt.add_packet(5);
    assert_eq!(rt.pending_ranges(), vec![(1, 4), (6, 8)]);
    assert!(!rt.is_missing(5));
    assert!(rt.is_missing(4));
    assert!(rt.is_missing(6));
}

#[test]
fn repeat_deliveries_change_nothing() {
    let mut once = RangeTree::new(0, 9);
    once.add_packet(5);
    let mut twice = RangeTree::new(0, 9);
    twice.add_packet(5);
    twice.add_packet(5);
    assert_eq!(once.pending_ranges(), twice.pending_ranges());
    assert_eq!(twice.pending_ranges(), vec![(0, 4), (6, 9)]);
}

#[test]
fn out_of_window_deliveries_change_nothing() {
    let mut rt = RangeTree::new(3, 9);
    rt.add_packet(100);
    rt.add_packet(0);
    rt.add_packet(2);
    rt.add_packet(10);
    assert_eq!(rt.pending_ranges(), vec![(3, 9)]);
    rt.add_packet(5);
    rt.add_packet(100);
    assert_eq!(rt.pending_ranges(), vec![(3, 4), (6, 9)]);
}

#[test]
fn full_window_in_scrambled_order_completes() {
    let order = [12, 3, 19, 0, 7, 15, 1, 9, 18, 4, 11, 2, 16, 8, 13, 5, 17, 6, 14, 10];
    let mut rt = RangeTree::new(0, 19);
    for (n, i) in order.iter().enumerate() {
        assert!(!rt.is_complete(), "incomplete after {} arrivals", n);
        rt.add_packet(*i);
    }
    assert!(rt.is_complete());
    assert_eq!(rt.pending_ranges(), vec![]);
}

#[test]
fn duplicate_heavy_scenario_completes() {
    // deliver 5 twice, then the rest of [0, 9] in arbitrary order
    let mut rt = RangeTree::new(0, 9);
    rt.add_packet(5);
    rt.add_packet(5);
    for i in [9, 0, 3, 7, 1, 8, 2, 6, 4] {
        rt.add_packet(i);
    }
    assert!(rt.is_complete());
}

#[test]
fn single_gap_window_reports_one_range() {
    // indices 100..=110 and 140..=149 arrived; 111..=139 is the one gap
    let mut rt = RangeTree::new(100, 149);
    for i in 100..=110 {
        rt.add_packet(i);
    }
    for i in (140..=149).rev() {
        rt.add_packet(i);
    }
    assert_eq!(rt.pending_ranges(), vec![(111, 139)]);
}

#[test]
fn many_gaps_are_reported_sorted_and_maximal() {
    let mut rt = RangeTree::new(0, 29);
    // resolve every third index: 0, 3, 6, ..., 27
    for i in (0..30).step_by(3) {
        rt.add_packet(i);
    }
    let expect: Vec<(usize, usize)> = (0..10).map(|k| (3 * k + 1, 3 * k + 2)).collect();
    assert_eq!(rt.pending_ranges(), expect);
}

#[test]
fn rotation_heavy_order_still_completes() {
    // an order that triggers rebalancing rotations along the way
    let mut rt = RangeTree::new(0, 6);
    for i in [1, 0, 5, 3, 2, 4, 6] {
        rt.add_packet(i);
    }
    assert!(rt.is_complete());

    // a larger deterministic scramble
    let mut rt = RangeTree::new(0, 199);
    let mut order: Vec<usize> = Vec::new();
    let mut x: usize = 17;
    for _ in 0..200 {
        order.push(x);
        x = (x + 73) % 200;
    }
    for (n, i) in order.iter().enumerate() {
        assert_eq!(rt.pending_ranges().is_empty(), false, "too early at {}", n);
        rt.add_packet(*i);
    }
    assert!(rt.is_complete());
}

#[test]
fn reinit_opens_a_new_window() {
    let mut rt = RangeTree::new(0, 1);
    rt.add_packet(0);
    rt.add_packet(1);
    assert!(rt.is_complete());
    rt.reinit(10, 19);
    assert!(!rt.is_complete());
    assert_eq!(rt.pending_ranges(), vec![(10, 19)]);
    assert!(rt.is_missing(15));
    assert!(!rt.is_missing(5));
}

#[test]
fn one_index_window() {
    let mut rt = RangeTree::new(7, 7);
    assert_eq!(rt.pending_ranges(), vec![(7, 7)]);
    rt.add_packet(6);
    rt.add_packet(8);
    assert!(!rt.is_complete());
    rt.add_packet(7);
    assert!(rt.is_complete());
    rt.add_packet(7);
    assert!(rt.is_complete());
}
