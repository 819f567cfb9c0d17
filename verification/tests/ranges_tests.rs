use skribo::ranges::fragment_text_ranges;

#[test]
fn fragment_ranges_move_into_the_text() {
    let ranges = vec![0..3, 3..5, 5..9];
    assert_eq!(fragment_text_ranges(10, &ranges), vec![10..13, 13..15, 15..19]);
    assert_eq!(fragment_text_ranges(0, &ranges), ranges);
    assert!(fragment_text_ranges(7, &vec![]).is_empty());
}
