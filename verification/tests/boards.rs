//! The backtracking board: placing, undoing, and the state round trip.

use totem_packer::exhaustive_solver::{Board, ExhaustiveSolver};
use totem_packer::game_interface::{Totem, TotemBag};
use totem_packer::rect_inventory::RectangleInventory;
use totem_packer::rect_packing_solver::RectPackingSolver;
use totem_packer::shape_info::ShapeVariant;

#[test]
fn mark_then_unmark_restores_the_board() {
    let mut board = Board::new(4, 4, 2);
    let o_variant = ShapeVariant::get_rotations(&Totem::O)[0];
    // record what fits everywhere before
    let mut before = Vec::new();
    for x in 0..3 {
        for y in 0..3 {
            before.push(board.fits(&o_variant, x, y));
        }
    }
    board.mark(&o_variant, 1, 1);
    assert_eq!(board.num_placed(), 1);
    assert!(!board.fits(&o_variant, 1, 1));
    board.unmark(&o_variant, 1, 1);
    assert_eq!(board.num_placed(), 0);
    let mut after = Vec::new();
    for x in 0..3 {
        for y in 0..3 {
            after.push(board.fits(&o_variant, x, y));
        }
    }
    assert_eq!(before, after);
    assert!(!board.origin_set());
}

#[test]
fn exhaustive_solver_covers_the_origin() {
    let solver = ExhaustiveSolver::new();
    // two J pieces interlock to tile a 4x2 box
    let bag = TotemBag([0, 2, 0, 0, 0, 0, 0]);
    let ans = solver.try_solve(4, 2, &bag).unwrap();
    assert_eq!(ans.len(), 2);
    let covered: Vec<(usize, usize)> =
        ans.iter().flat_map(|a| a.coordinates.iter().cloned()).collect();
    assert!(covered.contains(&(0, 0)));
}

#[test]
fn rectangle_packer_tiles_a_perfect_square() {
    // four O pieces fill a 4x4 box exactly
    let inventory = RectangleInventory::from_scratch(8);
    let solver = RectPackingSolver::new(inventory);
    let bag = TotemBag([0, 0, 0, 4, 0, 0, 0]);
    let ans = solver.try_solve(4, 4, &bag).unwrap();
    assert_eq!(ans.len(), 4);
    let mut cells: Vec<(usize, usize)> =
        ans.iter().flat_map(|a| a.coordinates.iter().cloned()).collect();
    cells.sort();
    cells.dedup();
    assert_eq!(cells.len(), 16);
}
