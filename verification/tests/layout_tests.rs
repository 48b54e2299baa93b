use pain_tournament::layout::inset;

#[test]
fn inset_moves_origin_and_shrinks_both_dimensions() {
    assert_eq!(inset(0, 0, 80, 24, 5), (5, 5, 70, 14));
}

#[test]
fn inset_by_border_width() {
    assert_eq!(inset(5, 5, 70, 14, 2), (7, 7, 66, 10));
}

#[test]
fn inset_may_leave_nothing() {
    assert_eq!(inset(1, 2, 8, 8, 4), (5, 6, 0, 0));
}
