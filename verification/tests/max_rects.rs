//! Behavior of the MaxRects free-space structure.

use totem_packer::max_rects::MaxRects;

#[test]
fn bottom_left_insert_empty_fits() {
    let mut m = MaxRects::new(10, 20);
    let (x, y) = m.bottom_left_insert(5, 7).unwrap();
    assert!((x, y) == (0, 0));
}

#[test]
fn bottom_left_insert_empty_no_fit() {
    let mut m = MaxRects::new(10, 20);
    assert!(m.bottom_left_insert(30, 40).is_none());
}

#[test]
fn bottom_left_insert_2_splits() {
    let mut m = MaxRects::new(10, 20);
    let (x, y) = m.bottom_left_insert(2, 3).unwrap();
    assert!((x, y) == (0, 0));
    assert!(m.num_free() == 2);
}

#[test]
fn split_leaves_the_two_maximal_rects() {
    let mut m = MaxRects::new(10, 20);
    let (x, y) = m.bottom_left_insert(2, 3).unwrap();
    assert_eq!((x, y), (0, 0));
    let mut frees = m.free_rects();
    frees.sort();
    assert_eq!(frees, vec![(0, 3, 10, 17), (2, 0, 8, 20)]);
}

#[test]
fn inserts_walk_up_the_left_edge() {
    let mut m = MaxRects::new(4, 8);
    assert_eq!(m.bottom_left_insert(4, 2), Some((0, 0)));
    assert_eq!(m.bottom_left_insert(2, 2), Some((0, 2)));
    assert_eq!(m.bottom_left_insert(2, 2), Some((2, 2)));
    assert_eq!(m.bottom_left_insert(4, 4), Some((0, 4)));
    assert_eq!(m.bottom_left_insert(1, 1), None);
}
