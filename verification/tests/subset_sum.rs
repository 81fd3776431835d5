//! The rectangle inventory and the multi-dimensional subset-sum search.

use totem_packer::game_interface::TotemBag;
use totem_packer::rect_inventory::RectangleInventory;
use totem_packer::subset_sum::MultiDimSubsetSumIterator;

#[test]
fn tiny_inventory_has_the_two_small_boxes() {
    // with area at most 4, only the 1x4 box (one I) and the 2x2 box
    // (one O) can be tiled
    let inventory = RectangleInventory::from_scratch(4);
    assert_eq!(inventory.metadata.len(), 2);
    let mut dims: Vec<(usize, usize)> = inventory
        .metadata
        .iter()
        .map(|m| (m.dims.width, m.dims.height))
        .collect();
    dims.sort();
    assert_eq!(dims, vec![(1, 4), (2, 2)]);
}

#[test]
fn available_rectangles_filters_by_cost() {
    let inventory = RectangleInventory::from_scratch(4);
    let only_i = TotemBag([1, 0, 0, 0, 0, 0, 0]);
    let available = inventory.available_rectangles(&only_i);
    assert_eq!(available.len(), 1);
    assert_eq!((available[0].dims.width, available[0].dims.height), (1, 4));
}

#[test]
fn every_yielded_combination_costs_exactly_the_bag() {
    let bag = TotemBag([2, 0, 0, 1, 0, 0, 0]);
    let inventory = RectangleInventory::from_scratch(8);
    let rectangles = inventory.available_rectangles(&bag);
    let mut it = MultiDimSubsetSumIterator::new(&bag, &inventory, &rectangles, 1000000);
    let mut yielded = 0;
    while let Some(combo) = it.next(&inventory) {
        let mut sum = TotemBag::new();
        for m in &combo {
            sum.add(inventory.get_cost(&m));
        }
        assert_eq!(sum, bag);
        yielded += 1;
    }
    assert!(yielded > 0);
}

#[test]
fn simple_rectangles() {
    //                       I, J, L, O, S, T, Z
    let bag = TotemBag([4, 6, 0, 2, 0, 0, 0]);
    let inventory = RectangleInventory::from_scratch(20);
    let rectangles = inventory.available_rectangles(&bag);
    let mut it = MultiDimSubsetSumIterator::new(&bag, &inventory, &rectangles, 10000000);
    let mut rect_sums: Vec<Vec<totem_packer::rect_inventory::RectangleMetadata>> = Vec::new();
    while let Some(combo) = it.next(&inventory) {
        rect_sums.push(combo);
    }
    assert_eq!(rect_sums.len(), 174);
}

#[test]
fn inventory_bytes_round_trip() {
    let inventory = RectangleInventory::from_scratch(12);
    assert!(inventory.metadata.len() > 2);
    let bytes = inventory.to_bytes();
    let back = RectangleInventory::from_bytes(&bytes).unwrap();
    assert_eq!(back.rectangles.len(), inventory.rectangles.len());
    for (a, b) in back.rectangles.iter().zip(inventory.rectangles.iter()) {
        assert_eq!((a.dims.width, a.dims.height), (b.dims.width, b.dims.height));
        assert_eq!(a.cost, b.cost);
        assert_eq!(a.totems.len(), b.totems.len());
        for (ta, tb) in a.totems.iter().zip(b.totems.iter()) {
            assert_eq!(ta.shape, tb.shape);
            assert_eq!(ta.coordinates, tb.coordinates);
        }
    }
    assert_eq!(back.to_bytes(), bytes);
}

#[test]
fn corrupt_inventory_bytes_are_rejected() {
    let inventory = RectangleInventory::from_scratch(8);
    let mut bytes = inventory.to_bytes();
    // too short for its own count field
    assert!(RectangleInventory::from_bytes(&vec![3u8]).is_none());
    // a record byte flipped no longer re-encodes to the input
    let last = bytes.len() - 1;
    bytes[last] = bytes[last].wrapping_add(1);
    assert!(RectangleInventory::from_bytes(&bytes).is_none());
}
