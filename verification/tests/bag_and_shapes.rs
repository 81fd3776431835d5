//! The piece bag, the shape catalog and the scoring order.

use totem_packer::game_interface::{Totem, TotemBag};
use totem_packer::rect_inventory::{Dims, Rectangle};
use totem_packer::scoring::{score_ge, OptimalDimensions};
use totem_packer::shape_info::ShapeVariant;
use totem_packer::subset_sum::hash_bag;

#[test]
fn add_then_subtract_restores_the_bag() {
    let original = TotemBag([3, 0, 1, 4, 0, 2, 5]);
    let cost = TotemBag([1, 0, 1, 2, 0, 0, 3]);
    let mut bag = original;
    bag.add(&cost);
    bag.subtract(&cost);
    assert_eq!(bag, original);
}

#[test]
fn bag_counting_and_expansion() {
    let bag = TotemBag::from_iter(&vec![Totem::I, Totem::Z, Totem::I, Totem::O]);
    assert_eq!(bag.0, [2, 0, 0, 1, 0, 0, 1]);
    assert_eq!(bag.total(), 4);
    assert!(!bag.is_empty());
    assert!(bag.contains(&Totem::O));
    assert!(!bag.contains(&Totem::T));
    let expanded = bag.expand();
    assert_eq!(expanded, vec![Totem::I, Totem::I, Totem::O, Totem::Z]);
    assert!(TotemBag::new().is_empty());
    assert_eq!(bag.min(), Totem::J);
    assert_eq!(bag.max(), Totem::I);
}

#[test]
fn can_afford_is_componentwise() {
    let have = TotemBag([2, 1, 0, 0, 0, 0, 0]);
    assert!(have.can_afford(&TotemBag([2, 0, 0, 0, 0, 0, 0])));
    assert!(have.can_afford(&TotemBag([2, 1, 0, 0, 0, 0, 0])));
    assert!(!have.can_afford(&TotemBag([0, 2, 0, 0, 0, 0, 0])));
    assert!(!have.can_afford(&TotemBag([0, 0, 1, 0, 0, 0, 0])));
}

#[test]
fn bag_fingerprint_is_a_base_513_encoding() {
    assert_eq!(hash_bag(&TotemBag([0, 0, 0, 0, 0, 0, 0])), 0);
    assert_eq!(hash_bag(&TotemBag([1, 0, 0, 0, 0, 0, 0])), 1);
    assert_eq!(hash_bag(&TotemBag([0, 1, 0, 0, 0, 0, 0])), 513);
    assert_eq!(hash_bag(&TotemBag([2, 1, 0, 0, 0, 0, 0])), 515);
    assert_eq!(hash_bag(&TotemBag([0, 0, 0, 0, 0, 0, 1])), 513u64.pow(6));
}

#[test]
fn catalog_variants_are_well_formed() {
    let expected_counts = [2usize, 4, 4, 1, 2, 4, 2];
    let totems = [
        Totem::I,
        Totem::J,
        Totem::L,
        Totem::O,
        Totem::S,
        Totem::T,
        Totem::Z,
    ];
    for (t, expected) in totems.iter().zip(expected_counts.iter()) {
        let rotations = t.get_rotations();
        assert_eq!(rotations.len(), *expected);
        for v in &rotations {
            // four pairwise distinct cells
            for a in 0..4 {
                for b in (a + 1)..4 {
                    assert_ne!(v.coords[a], v.coords[b]);
                }
            }
            // normalized to the lower-left corner
            assert_eq!(v.coords.iter().map(|c| c.0).min().unwrap(), 0);
            assert_eq!(v.coords.iter().map(|c| c.1).min().unwrap(), 0);
            // cells inside the bounding box
            for (x, y) in &v.coords {
                assert!(*x < v.width && *y < v.height);
            }
            // each row mask holds exactly one bit per cell of that row
            for dy in 0..4 {
                let cells_in_row = v.coords.iter().filter(|c| c.1 == dy).count() as u32;
                assert_eq!(v.masks[dy].count_ones(), cells_in_row);
                for (x, y) in &v.coords {
                    if *y == dy {
                        assert!(v.masks[dy] & (1u64 << (63 - x)) != 0);
                    }
                }
            }
        }
    }
}

#[test]
fn minimum_dims_per_shape() {
    assert_eq!(ShapeVariant::minimum_dims(&Totem::I), (1, 4));
    assert_eq!(ShapeVariant::minimum_dims(&Totem::O), (2, 2));
    for t in [Totem::J, Totem::L, Totem::S, Totem::T, Totem::Z] {
        assert_eq!(ShapeVariant::minimum_dims(&t), (2, 3));
    }
}

#[test]
fn rotating_an_inventory_entry_four_times_is_identity() {
    // a 1-by-4 box tiled by one upright I piece
    let entry = Rectangle::new(
        Dims::new(1, 4),
        TotemBag([1, 0, 0, 0, 0, 0, 0]),
        vec![totem_packer::game_interface::TotemAnswer::new(
            Totem::I,
            [(0, 0), (0, 1), (0, 2), (0, 3)],
        )],
    );
    let back = entry.rotate().rotate().rotate().rotate();
    assert_eq!(back.dims, entry.dims);
    assert_eq!(back.totems.len(), entry.totems.len());
    for (a, b) in back.totems.iter().zip(entry.totems.iter()) {
        assert_eq!(a.shape, b.shape);
        assert_eq!(a.coordinates, b.coordinates);
    }
}

#[test]
fn square_boxes_score_at_least_the_taller_box() {
    for n in 1..64usize {
        for k in 2..16usize {
            assert!(score_ge(n, (k, k), (k, k + 1)));
        }
    }
}

#[test]
fn score_orders_the_level_one_candidates() {
    // for one piece, 2x2 scores 6 while 1x4 scores 1.5
    assert!(score_ge(1, (2, 2), (1, 4)));
    assert!(!score_ge(1, (1, 4), (2, 2)));
    let dims = OptimalDimensions::new();
    assert_eq!(dims.level_dims(0)[0], (2, 2));
}
