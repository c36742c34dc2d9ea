use segment_tree::SegmentTree;

#[test]
fn create_power_of_2() {
    let invals = vec![5, 8, 6, 3, 2, 7, 2, 6];
    let segment = SegmentTree::new(invals);
    println!("{}", segment.buffer_line());
    assert_eq!(26, segment.sum(2, 7));
}

#[test]
fn create_non_power_of_2() {
    let invals = vec![5, 8, 6, 3, 2];
    let segment = SegmentTree::new(invals);
    println!("{}", segment.buffer_line());
    assert_eq!(5, segment.sum(0, 0));
    assert_eq!(5, segment.sum(3, 4));
}

#[test]
fn add() {
    let mut segment = SegmentTree::new(vec![5, 8, 6, 3, 2]);
    assert_eq!(5, segment.sum(0, 0));
    assert_eq!(13, segment.sum(0, 1));
    assert_eq!(5, segment.sum(3, 4));
    segment.add(0, 4);
    assert_eq!(9, segment.sum(0, 0));
    assert_eq!(17, segment.sum(0, 1));
    assert_eq!(5, segment.sum(3, 4));
}

#[test]
fn empty_input_has_one_zero_slot() {
    let segment = SegmentTree::new(vec![]);
    assert_eq!(0, segment.sum(0, 0));
}

#[test]
fn padding_slots_read_zero_and_accept_updates() {
    // Five values round up to a capacity of eight; slots 5..8 are zero.
    let mut segment = SegmentTree::new(vec![5, 8, 6, 3, 2]);
    assert_eq!(0, segment.sum(5, 7));
    assert_eq!(24, segment.sum(0, 7));
    segment.add(7, 42);
    assert_eq!(42, segment.sum(5, 7));
    assert_eq!(66, segment.sum(0, 7));
    assert_eq!(24, segment.sum(0, 4));
}

#[test]
fn sum_matches_naive_sum() {
    let vals = vec![3, -1, 4, 1, -5, 9, 2, 6, -5, 3, 5];
    let segment = SegmentTree::new(vals.clone());
    for l in 0..vals.len() {
        for r in l..vals.len() {
            let expected: i32 = vals[l..=r].iter().sum();
            assert_eq!(expected, segment.sum(l, r));
        }
    }
}

#[test]
fn repeated_sums_are_identical() {
    let segment = SegmentTree::new(vec![7, 1, -3, 10]);
    let first = segment.sum(1, 3);
    let second = segment.sum(1, 3);
    let third = segment.sum(1, 3);
    assert_eq!(first, second);
    assert_eq!(second, third);
    assert_eq!(8, first);
}

#[test]
fn add_shifts_containing_ranges_by_delta() {
    let mut segment = SegmentTree::new(vec![2, 4, 6, 8, 10, 12]);
    let before_containing = segment.sum(1, 4);
    let before_disjoint = segment.sum(4, 5);
    segment.add(2, -7);
    assert_eq!(before_containing - 7, segment.sum(1, 4));
    assert_eq!(before_disjoint, segment.sum(4, 5));
    assert_eq!(-1, segment.sum(2, 2));
}

#[test]
fn negative_values_sum_correctly() {
    let segment = SegmentTree::new(vec![-5, 3, -2, 7]);
    assert_eq!(-5, segment.sum(0, 0));
    assert_eq!(-2, segment.sum(0, 1));
    assert_eq!(3, segment.sum(0, 3));
    assert_eq!(8, segment.sum(1, 3));
}
