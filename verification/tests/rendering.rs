use segment_tree::text::i32_to_string;
use segment_tree::SegmentTree;

#[test]
fn hello() {
    let segment = SegmentTree::new(vec![4, 3, 7, 8, 9, 4, 14, 9, 3, 15, 16]);
    println!("{}", segment.render());
}

#[test]
fn render_two_values_exactly() {
    let segment = SegmentTree::new(vec![5, 8]);
    assert_eq!("    13    \n 5    8   \n", segment.render());
}

#[test]
fn render_empty_tree_exactly() {
    let segment = SegmentTree::new(vec![]);
    assert_eq!(" 0   \n", segment.render());
}

#[test]
fn render_prints_one_line_per_level() {
    // Capacity eight: four levels, so four newline-terminated lines.
    let segment = SegmentTree::new(vec![5, 8, 6, 3, 2]);
    let text = segment.render();
    assert_eq!(4, text.matches('\n').count());
    assert!(text.ends_with('\n'));
}

#[test]
fn buffer_line_lists_every_cell() {
    // Buffer of capacity two: unused cell 0, root 13, then the two values.
    let segment = SegmentTree::new(vec![5, 8]);
    assert_eq!("0 13 5 8 ", segment.buffer_line());
}

#[test]
fn decimal_strings() {
    assert_eq!("0", i32_to_string(0));
    assert_eq!("9", i32_to_string(9));
    assert_eq!("10", i32_to_string(10));
    assert_eq!("1234567890", i32_to_string(1234567890));
    assert_eq!("-1", i32_to_string(-1));
    assert_eq!("2147483647", i32_to_string(i32::MAX));
    assert_eq!("-2147483648", i32_to_string(i32::MIN));
}
