//! A solver library for a timed tetromino-packing game: given a multiset of
//! the seven tetromino shapes, place every piece on a rectangular grid with
//! no overlaps, covering the cell (0, 0), inside a bounding box chosen to
//! maximize the game's score.

pub mod exhaustive_solver;
pub mod game_interface;
pub mod greedy_solver;
pub mod hybrid_solver;
pub mod inventory_codec;
pub mod max_rects;
pub mod rect_inventory;
pub mod rect_packing_solver;
mod rng;
pub mod scoring;
pub mod shape_info;
pub mod solution;
pub mod subset_sum;
