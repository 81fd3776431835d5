//! End-to-end solver behavior: seed scenarios and boundary cases.

use std::collections::HashSet;

use totem_packer::game_interface::{Question, Totem, TotemAnswer, TotemBag, TotemQuestion};
use totem_packer::greedy_solver::{Board, GreedySolver};
use totem_packer::hybrid_solver::HybridSolver;
use totem_packer::scoring::OptimalDimensions;
use totem_packer::shape_info::ShapeVariant;

fn question_of(shapes: &[Totem]) -> Question {
    Question { totems: shapes.iter().map(|s| TotemQuestion { shape: *s }).collect() }
}

fn all_cells(ans: &[TotemAnswer]) -> Vec<(usize, usize)> {
    let mut cells = Vec::new();
    for a in ans {
        for c in &a.coordinates {
            cells.push(*c);
        }
    }
    cells
}

fn assert_no_duplicate_cells(ans: &[TotemAnswer]) {
    let cells = all_cells(ans);
    let set: HashSet<(usize, usize)> = cells.iter().cloned().collect();
    assert_eq!(set.len(), cells.len(), "a cell was used twice");
}

#[test]
fn empty_question_gives_an_empty_answer() {
    let solver = HybridSolver::with_options(false, false);
    let question = question_of(&[]);
    let answer = solver.solve(&question).unwrap();
    assert_eq!(answer.totems.len(), 0);
}

#[test]
fn single_i_is_placed_upright_at_the_origin() {
    let solver = HybridSolver::with_options(false, false);
    let question = question_of(&[Totem::I]);
    let answer = solver.solve(&question).unwrap();
    assert_eq!(answer.totems.len(), 1);
    assert_eq!(answer.totems[0].shape, Totem::I);
    assert_eq!(answer.totems[0].coordinates, [(0, 0), (0, 1), (0, 2), (0, 3)]);
    // bounding box 1x4: score (10*1 - 4) * 1 / 4 = 1.5
    let w = 1f32;
    let h = 4f32;
    let score = (10f32 * 1f32 - w * h) * w.min(h) / w.max(h);
    assert_eq!(score, 1.5);
}

#[test]
fn four_pieces_pack_a_four_by_four_square() {
    let solver = HybridSolver::with_options(false, false);
    // two I and two O pieces admit a perfect 4x4 packing
    let question = question_of(&[Totem::I, Totem::O, Totem::I, Totem::O]);
    let answer = solver.solve(&question).unwrap();
    assert_eq!(answer.totems.len(), 4);
    assert_no_duplicate_cells(&answer.totems);
    let cells = all_cells(&answer.totems);
    let max_x = cells.iter().map(|c| c.0).max().unwrap();
    let max_y = cells.iter().map(|c| c.1).max().unwrap();
    assert_eq!((max_x + 1) * (max_y + 1), 16, "expected a perfect 4x4 box");
    // every cell of the box is covered exactly once
    let set: HashSet<(usize, usize)> = cells.iter().cloned().collect();
    assert_eq!(set.len(), 16);
}

#[test]
fn two_o_pieces_tile_a_two_by_four_box() {
    let solver = HybridSolver::with_options(false, false);
    let bag = TotemBag([0, 0, 0, 2, 0, 0, 0]);
    let answer = solver.try_solve(2, 4, &bag).unwrap();
    assert_eq!(answer.len(), 2);
    for a in &answer {
        assert_eq!(a.shape, Totem::O);
    }
    let mut cells = all_cells(&answer);
    cells.sort();
    let expected = vec![
        (0, 0),
        (0, 1),
        (0, 2),
        (0, 3),
        (1, 0),
        (1, 1),
        (1, 2),
        (1, 3),
    ];
    assert_eq!(cells, expected);
    // one O sits at the bottom, the other right above it
    let mut lows: Vec<usize> = answer
        .iter()
        .map(|a| a.coordinates.iter().map(|c| c.1).min().unwrap())
        .collect();
    lows.sort();
    assert_eq!(lows, vec![0, 2]);
}

#[test]
fn a_box_too_small_for_the_bag_is_rejected() {
    let solver = HybridSolver::with_options(false, false);
    let bag = TotemBag([1, 0, 0, 1, 0, 0, 0]);
    // 2 pieces need 8 cells; a 2x2 box has 4
    assert!(solver.try_solve(2, 2, &bag).is_none());
    // so does a 7-cell box
    assert!(solver.try_solve(7, 1, &bag).is_none());
}

#[test]
fn answers_conserve_the_question_bag() {
    let solver = HybridSolver::with_options(false, false);
    let shapes = [Totem::S, Totem::Z, Totem::T, Totem::T, Totem::L, Totem::J];
    let question = question_of(&shapes);
    let answer = solver.solve(&question).unwrap();
    assert_eq!(answer.totems.len(), shapes.len());
    let mut got = TotemBag::new();
    for a in &answer.totems {
        got.0[a.shape.as_index()] += 1;
    }
    assert_eq!(got, question.get_totem_bag());
    assert_no_duplicate_cells(&answer.totems);
    assert!(all_cells(&answer.totems).contains(&(0, 0)));
}

// A small deterministic generator, so the stochastic test does not need
// an extra crate.
struct Lcg(u64);

impl Lcg {
    fn next_below(&mut self, n: usize) -> usize {
        self.0 = self.0.wrapping_mul(6364136223846793005).wrapping_add(1442695040888963407);
        ((self.0 >> 33) as usize) % n
    }
}

#[test]
fn greedy_packs_thirty_two_random_pieces_nearly_always() {
    let solver = GreedySolver::new();
    let dims = OptimalDimensions::new();
    let (w, h) = dims.level_dims(5)[0];
    let mut rng = Lcg(20221007);
    let shapes = [
        Totem::I,
        Totem::J,
        Totem::L,
        Totem::O,
        Totem::S,
        Totem::T,
        Totem::Z,
    ];
    let mut successes = 0;
    for _ in 0..100 {
        let mut bag = TotemBag::new();
        for _ in 0..32 {
            bag.0[shapes[rng.next_below(7)].as_index()] += 1;
        }
        if let Some(ans) = solver.try_solve(w, h, &bag) {
            assert_eq!(ans.len(), 32);
            assert_no_duplicate_cells(&ans);
            successes += 1;
        }
    }
    assert!(successes >= 95, "only {} of 100 greedy runs packed", successes);
}

#[test]
fn move_first_fit_above_reports_full_columns() {
    // a 2x4 board; O pieces need two free rows
    let mut board = Board::new(2, 4, 2);
    let o_variant = ShapeVariant::get_rotations(&Totem::O)[0];
    let mut y = 0;
    assert!(board.move_first_fit_above(&o_variant, 0, &mut y));
    assert_eq!(y, 0);
    board.mark(&o_variant, 0, 0);
    assert!(board.move_first_fit_above(&o_variant, 0, &mut y));
    assert_eq!(y, 2);
    board.mark(&o_variant, 0, 2);
    // first_unset_y is now 4 for both columns: 4 + height > 4
    assert!(!board.move_first_fit_above(&o_variant, 0, &mut y));
}

#[test]
fn a_shape_taller_than_the_board_never_fits() {
    let board = Board::new(4, 2, 1);
    // the upright I is four cells tall
    let upright = ShapeVariant::get_rotations(&Totem::I)[1];
    let mut y = 7;
    assert!(!board.move_first_fit_above(&upright, 0, &mut y));
    assert_eq!(y, 7);
}
