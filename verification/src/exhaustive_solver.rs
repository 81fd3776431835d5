//! The exhaustive solver: depth-first backtracking over pieces, rotations
//! and columns, with undo. Only used for small bags (at most eight
//! pieces), where the state space is tractable.

use vstd::prelude::*;

use crate::game_interface::{
    bag_total, lemma_bag_total_bounds, lemma_bag_total_update, lemma_shape_count_push,
    shape_count, totem_index_spec, totem_of_index_spec, Totem, TotemAnswer, TotemBag,
};
use crate::shape_info::{lemma_catalog_wf, rotations_spec, variant_wf, ShapeVariant};
use crate::solution::{
    answer_valid, cells_disjoint, coords_in_bounds, covers_origin, placement_shapes,
};

verus! {

/// One undo record: the placed piece and the bounding maxima before it.
pub struct ShapeAssigment {
    pub shape: Totem,
    pub coords: [(usize, usize); 4],
    pub prev_max_x: usize,
    pub prev_max_y: usize,
}

/// Whether cell (x, y) of the boolean grid is occupied.
pub open spec fn cell_set(g: Seq<Vec<bool>>, x: int, y: int) -> bool {
    g[y]@[x]
}

/// Whether placing `v` at (x0, y0) covers the cell (x, y).
pub open spec fn v_covers(v: ShapeVariant, x0: int, y0: int, x: int, y: int) -> bool {
    ||| (x0 + v.coords@[0].0 == x && y0 + v.coords@[0].1 == y)
    ||| (x0 + v.coords@[1].0 == x && y0 + v.coords@[1].1 == y)
    ||| (x0 + v.coords@[2].0 == x && y0 + v.coords@[2].1 == y)
    ||| (x0 + v.coords@[3].0 == x && y0 + v.coords@[3].1 == y)
}

/// Whether the four cells of `v` at (x0, y0) are free on the grid.
pub open spec fn v_fits(g: Seq<Vec<bool>>, v: ShapeVariant, x0: int, y0: int) -> bool {
    &&& !cell_set(g, x0 + v.coords@[0].0, y0 + v.coords@[0].1)
    &&& !cell_set(g, x0 + v.coords@[1].0, y0 + v.coords@[1].1)
    &&& !cell_set(g, x0 + v.coords@[2].0, y0 + v.coords@[2].1)
    &&& !cell_set(g, x0 + v.coords@[3].0, y0 + v.coords@[3].1)
}

/// Whether some logged placement covers the cell (x, y).
pub open spec fn a_covers(log: Seq<ShapeAssigment>, x: int, y: int) -> bool {
    exists|p: int, k: int|
        0 <= p < log.len() && 0 <= k < 4 && (#[trigger] log[p].coords@[k]).0 == x
            && log[p].coords@[k].1 == y
}

/// The placements of the log as answer records.
pub open spec fn log_answers(log: Seq<ShapeAssigment>) -> Seq<TotemAnswer> {
    log.map_values(|a: ShapeAssigment| TotemAnswer { shape: a.shape, coordinates: a.coords })
}

/// The backtracking board: a boolean grid and an undo log.
pub struct Board {
    width: usize,
    height: usize,
    max_x: usize,
    max_y: usize,
    grid: Vec<Vec<bool>>,
    assigments: Vec<ShapeAssigment>,
}

impl Board {
    pub closed spec fn spec_width(&self) -> int {
        self.width as int
    }

    pub closed spec fn spec_height(&self) -> int {
        self.height as int
    }

    pub closed spec fn grid_view(&self) -> Seq<Vec<bool>> {
        self.grid@
    }

    pub closed spec fn log(&self) -> Seq<ShapeAssigment> {
        self.assigments@
    }

    pub closed spec fn spec_max_x(&self) -> int {
        self.max_x as int
    }

    pub closed spec fn spec_max_y(&self) -> int {
        self.max_y as int
    }

    /// The grid holds exactly the logged cells, which are in bounds and
    /// pairwise distinct.
    pub open spec fn wf(&self) -> bool {
        &&& 1 <= self.spec_width()
        &&& 1 <= self.spec_height()
        &&& self.grid_view().len() == self.spec_height()
        &&& forall|y: int|
            0 <= y < self.spec_height() ==> (#[trigger] self.grid_view()[y])@.len()
                == self.spec_width()
        &&& forall|x: int, y: int|
            0 <= x < self.spec_width() && 0 <= y < self.spec_height() ==> (cell_set(
                self.grid_view(),
                x,
                y,
            ) <==> a_covers(self.log(), x, y))
        &&& forall|p: int, k: int|
            0 <= p < self.log().len() && 0 <= k < 4 ==> (#[trigger] self.log()[p].coords@[k]).0
                < self.spec_width() && self.log()[p].coords@[k].1 < self.spec_height()
        &&& forall|p1: int, k1: int, p2: int, k2: int|
            0 <= p1 < self.log().len() && 0 <= k1 < 4 && 0 <= p2 < self.log().len() && 0 <= k2 < 4
                && (p1 != p2 || k1 != k2) ==> #[trigger] self.log()[p1].coords@[k1]
                != #[trigger] self.log()[p2].coords@[k2]
    }

    /// A fresh board with an all-free grid.
    pub fn new(width: usize, height: usize, num_totems: usize) -> (r: Board)
        requires
            1 <= width,
            1 <= height,
        ensures
            r.wf(),
            r.spec_width() == width,
            r.spec_height() == height,
            r.log().len() == 0,
            r.spec_max_x() == 0,
            r.spec_max_y() == 0,
            forall|x: int, y: int|
                0 <= x < width && 0 <= y < height ==> !cell_set(r.grid_view(), x, y),
    {
        let mut grid: Vec<Vec<bool>> = Vec::new();
        let mut y: usize = 0;
        while y < height
            invariant
                y <= height,
                grid@.len() == y,
                forall|yy: int| 0 <= yy < y ==> (#[trigger] grid@[yy])@.len() == width,
                forall|yy: int, xx: int|
                    0 <= yy < y && 0 <= xx < width ==> !(#[trigger] grid@[yy]@[xx]),
            decreases height - y,
        {
            let row: Vec<bool> = vec![false; width];
            grid.push(row);
            y = y + 1;
        }
        Board {
            width,
            height,
            grid,
            max_x: 0,
            max_y: 0,
            assigments: Vec::with_capacity(num_totems),
        }
    }

    pub fn width(&self) -> (r: usize)
        ensures
            r == self.spec_width(),
    {
        self.width
    }

    pub fn height(&self) -> (r: usize)
        ensures
            r == self.spec_height(),
    {
        self.height
    }

    pub fn num_placed(&self) -> (r: usize)
        ensures
            r == self.log().len(),
    {
        self.assigments.len()
    }

    /// Whether the four cells of `shape` at (left_x, bottom_y) are free.
    pub fn fits(&self, shape: &ShapeVariant, left_x: usize, bottom_y: usize) -> (r: bool)
        requires
            self.wf(),
            variant_wf(*shape),
            left_x + shape.width <= self.spec_width(),
            bottom_y + shape.height <= self.spec_height(),
        ensures
            r == v_fits(self.grid_view(), *shape, left_x as int, bottom_y as int),
    {
        let mut k: usize = 0;
        let mut ok = true;
        while k < 4
            invariant
                k <= 4,
                self.wf(),
                variant_wf(*shape),
                left_x + shape.width <= self.spec_width(),
                bottom_y + shape.height <= self.spec_height(),
                ok == (forall|kk: int|
                    0 <= kk < k ==> !cell_set(
                        self.grid_view(),
                        left_x + (#[trigger] shape.coords@[kk]).0,
                        bottom_y + shape.coords@[kk].1,
                    )),
            decreases 4 - k,
        {
            let (cx0, cy0) = shape.coords[k];
            proof {
                assert(crate::shape_info::cell_in_box(*shape, k as int));
            }
            if self.grid[bottom_y + cy0][left_x + cx0] {
                ok = false;
            }
            k = k + 1;
        }
        proof {
            if ok {
                assert(forall|kk: int|
                    0 <= kk < 4 ==> !cell_set(
                        self.grid_view(),
                        left_x + (#[trigger] shape.coords@[kk]).0,
                        bottom_y + shape.coords@[kk].1,
                    ));
            }
        }
        ok
    }

    /// First y from the bottom where `shape` fits at column `left_x`.
    pub fn move_first_fit_above(&self, left_x: usize, shape: &ShapeVariant, y: &mut usize) -> (r:
        bool)
        requires
            self.wf(),
            variant_wf(*shape),
            left_x + shape.width <= self.spec_width(),
        ensures
            r ==> *final(y) + shape.height <= self.spec_height() && v_fits(
                self.grid_view(),
                *shape,
                left_x as int,
                *final(y) as int,
            ) && forall|y2: int|
                0 <= y2 < *final(y) ==> !v_fits(self.grid_view(), *shape, left_x as int, y2),
            !r ==> (forall|y2: int|
                0 <= y2 && y2 + shape.height <= self.spec_height() ==> !v_fits(
                    self.grid_view(),
                    *shape,
                    left_x as int,
                    y2,
                )) && *final(y) == *old(y),
    {
        if shape.height > self.height {
            return false;
        }
        let mut current_y: usize = 0;
        while current_y < self.height - shape.height + 1
            invariant
                self.wf(),
                variant_wf(*shape),
                left_x + shape.width <= self.spec_width(),
                shape.height <= self.spec_height(),
                forall|y2: int|
                    0 <= y2 < current_y ==> !v_fits(self.grid_view(), *shape, left_x as int, y2),
                *y == *old(y),
            decreases self.spec_height() - shape.height + 1 - current_y,
        {
            if self.fits(shape, left_x, current_y) {
                *y = current_y;
                return true;
            }
            current_y = current_y + 1;
        }
        false
    }

    /// Set the four cells of `shape` at (left_x, bottom_y), update the
    /// bounding maxima, and append an undo record.
    #[verifier::rlimit(100)]
    #[verifier::spinoff_prover]
    pub fn mark(&mut self, shape: &ShapeVariant, left_x: usize, bottom_y: usize)
        requires
            old(self).wf(),
            variant_wf(*shape),
            left_x + shape.width <= old(self).spec_width(),
            bottom_y + shape.height <= old(self).spec_height(),
            v_fits(old(self).grid_view(), *shape, left_x as int, bottom_y as int),
        ensures
            final(self).wf(),
            final(self).spec_width() == old(self).spec_width(),
            final(self).spec_height() == old(self).spec_height(),
            final(self).log().len() == old(self).log().len() + 1,
            final(self).log().drop_last() == old(self).log(),
            final(self).log().last().shape == shape.shape,
            final(self).log().last().prev_max_x == old(self).spec_max_x(),
            final(self).log().last().prev_max_y == old(self).spec_max_y(),
            forall|k: int|
                0 <= k < 4 ==> (#[trigger] final(self).log().last().coords@[k]).0 == left_x
                    + shape.coords@[k].0 && final(self).log().last().coords@[k].1 == bottom_y
                    + shape.coords@[k].1,
            forall|x: int, y: int|
                0 <= x < old(self).spec_width() && 0 <= y < old(self).spec_height() ==> (cell_set(
                    final(self).grid_view(),
                    x,
                    y,
                ) <==> (cell_set(old(self).grid_view(), x, y) || v_covers(
                    *shape,
                    left_x as int,
                    bottom_y as int,
                    x,
                    y,
                ))),
            final(self).grid_view().len() == old(self).grid_view().len(),
            mark_rel(*old(self), *final(self), *shape, left_x as int, bottom_y as int),
    {
        let prev_max_x = self.max_x;
        let prev_max_y = self.max_y;
        let placed = shape.offset_by(left_x, bottom_y);
        let ghost old_grid = self.grid@;
        let mut k: usize = 0;
        while k < 4
            invariant
                k <= 4,
                variant_wf(*shape),
                left_x + shape.width <= self.width,
                bottom_y + shape.height <= self.height,
                self.width == old(self).width,
                self.height == old(self).height,
                self.assigments == old(self).assigments,
                old(self).wf(),
                old_grid == old(self).grid@,
                self.grid@.len() == old_grid.len(),
                forall|y: int|
                    0 <= y < self.height ==> (#[trigger] self.grid@[y])@.len() == self.width,
                forall|x: int, y: int|
                    0 <= x < self.width && 0 <= y < self.height ==> ((#[trigger] self.grid@[y]@[x])
                        <==> (old_grid[y]@[x] || exists|kk: int|
                        0 <= kk < k && left_x + (#[trigger] shape.coords@[kk]).0 == x && bottom_y
                            + shape.coords@[kk].1 == y)),
            decreases 4 - k,
        {
            let (cx0, cy0) = shape.coords[k];
            proof {
                assert(crate::shape_info::cell_in_box(*shape, k as int));
            }
            let x = left_x + cx0;
            let y = bottom_y + cy0;
            let ghost gs = self.grid@;
            self.grid[y][x] = true;
            proof {
                assert(self.grid@[y as int]@ =~= gs[y as int]@.update(x as int, true));
                assert forall|xx: int, yy: int|
                    0 <= xx < self.width && 0 <= yy < self.height implies ((
                #[trigger] self.grid@[yy]@[xx]) <==> (old_grid[yy]@[xx] || exists|kk: int|
                    0 <= kk < k + 1 && left_x + (#[trigger] shape.coords@[kk]).0 == xx && bottom_y
                        + shape.coords@[kk].1 == yy)) by {
                    if xx == x && yy == y {
                        assert(left_x + shape.coords@[k as int].0 == xx && bottom_y
                            + shape.coords@[k as int].1 == yy);
                    }
                }
            }
            if x > self.max_x {
                self.max_x = x;
            }
            if y > self.max_y {
                self.max_y = y;
            }
            k = k + 1;
        }
        let ghost old_log = self.assigments@;
        self.assigments.push(
            ShapeAssigment { shape: placed.shape, coords: placed.coords, prev_max_x, prev_max_y },
        );
        proof {
            let new_log = self.assigments@;
            assert(new_log.drop_last() =~= old_log);
            assert forall|x: int, y: int|
                0 <= x < self.width && 0 <= y < self.height implies (a_covers(new_log, x, y) <==> (
            a_covers(old_log, x, y) || v_covers(*shape, left_x as int, bottom_y as int, x, y))) by {
                if a_covers(new_log, x, y) {
                    let (p, kk) = choose|p: int, kk: int|
                        0 <= p < new_log.len() && 0 <= kk < 4 && (#[trigger] new_log[p].coords@[kk]).0
                            == x && new_log[p].coords@[kk].1 == y;
                    if p < old_log.len() {
                        assert(old_log[p] == new_log[p]);
                        assert(a_covers(old_log, x, y));
                    }
                }
                if a_covers(old_log, x, y) {
                    let (p, kk) = choose|p: int, kk: int|
                        0 <= p < old_log.len() && 0 <= kk < 4 && (#[trigger] old_log[p].coords@[kk]).0
                            == x && old_log[p].coords@[kk].1 == y;
                    assert(new_log[p] == old_log[p]);
                    assert(a_covers(new_log, x, y));
                }
                if v_covers(*shape, left_x as int, bottom_y as int, x, y) {
                    let last = new_log[new_log.len() - 1];
                    assert(last.coords@[0].0 == left_x + shape.coords@[0].0);
                    assert(last.coords@[1].0 == left_x + shape.coords@[1].0);
                    assert(last.coords@[2].0 == left_x + shape.coords@[2].0);
                    assert(last.coords@[3].0 == left_x + shape.coords@[3].0);
                    assert(a_covers(new_log, x, y)) by {
                        if left_x + shape.coords@[0].0 == x && bottom_y + shape.coords@[0].1 == y {
                            assert(last.coords@[0].0 == x && last.coords@[0].1 == y);
                        } else if left_x + shape.coords@[1].0 == x && bottom_y + shape.coords@[1].1
                            == y {
                            assert(last.coords@[1].0 == x && last.coords@[1].1 == y);
                        } else if left_x + shape.coords@[2].0 == x && bottom_y + shape.coords@[2].1
                            == y {
                            assert(last.coords@[2].0 == x && last.coords@[2].1 == y);
                        } else {
                            assert(last.coords@[3].0 == x && last.coords@[3].1 == y);
                        }
                    }
                }
            }
            assert forall|p1: int, k1: int, p2: int, k2: int|
                0 <= p1 < new_log.len() && 0 <= k1 < 4 && 0 <= p2 < new_log.len() && 0 <= k2 < 4
                    && (p1 != p2 || k1 != k2) implies #[trigger] new_log[p1].coords@[k1]
                != #[trigger] new_log[p2].coords@[k2] by {
                if p1 < old_log.len() && p2 < old_log.len() {
                    assert(new_log[p1] == old_log[p1] && new_log[p2] == old_log[p2]);
                } else if p1 == old_log.len() && p2 == old_log.len() {
                    assert(shape.coords@[k1] != shape.coords@[k2]);
                } else if p1 == old_log.len() {
                    assert(new_log[p2] == old_log[p2]);
                    let c2 = old_log[p2].coords@[k2];
                    assert(a_covers(old_log, c2.0 as int, c2.1 as int));
                    assert(cell_set(old_grid, c2.0 as int, c2.1 as int));
                } else {
                    assert(new_log[p1] == old_log[p1]);
                    let c1 = old_log[p1].coords@[k1];
                    assert(a_covers(old_log, c1.0 as int, c1.1 as int));
                    assert(cell_set(old_grid, c1.0 as int, c1.1 as int));
                }
            }
        }
    }

    /// Undo the most recent `mark` of `shape` at (left_x, bottom_y):
    /// clear its four cells, restore the maxima, and pop the undo record.
    #[verifier::rlimit(100)]
    pub fn unmark(&mut self, shape: &ShapeVariant, left_x: usize, bottom_y: usize)
        requires
            old(self).wf(),
            variant_wf(*shape),
            left_x + shape.width <= old(self).spec_width(),
            bottom_y + shape.height <= old(self).spec_height(),
            old(self).log().len() > 0,
            old(self).log().last().shape == shape.shape,
            forall|k: int|
                0 <= k < 4 ==> (#[trigger] old(self).log().last().coords@[k]).0 == left_x
                    + shape.coords@[k].0 && old(self).log().last().coords@[k].1 == bottom_y
                    + shape.coords@[k].1,
        ensures
            final(self).wf(),
            final(self).spec_width() == old(self).spec_width(),
            final(self).spec_height() == old(self).spec_height(),
            final(self).log() == old(self).log().drop_last(),
            final(self).spec_max_x() == old(self).log().last().prev_max_x,
            final(self).spec_max_y() == old(self).log().last().prev_max_y,
            forall|x: int, y: int|
                0 <= x < old(self).spec_width() && 0 <= y < old(self).spec_height() ==> (cell_set(
                    final(self).grid_view(),
                    x,
                    y,
                ) <==> (cell_set(old(self).grid_view(), x, y) && !v_covers(
                    *shape,
                    left_x as int,
                    bottom_y as int,
                    x,
                    y,
                ))),
            final(self).grid_view().len() == old(self).grid_view().len(),
            unmark_rel(*old(self), *final(self), *shape, left_x as int, bottom_y as int),
    {
        let assigment = self.assigments.pop().unwrap();
        self.max_x = assigment.prev_max_x;
        self.max_y = assigment.prev_max_y;
        let ghost pmx = assigment.prev_max_x;
        let ghost pmy = assigment.prev_max_y;
        let ghost old_grid = self.grid@;
        let ghost old_log = old(self).assigments@;
        let ghost new_log = self.assigments@;
        let mut k: usize = 0;
        while k < 4
            invariant
                k <= 4,
                variant_wf(*shape),
                left_x + shape.width <= self.width,
                bottom_y + shape.height <= self.height,
                self.width == old(self).width,
                self.height == old(self).height,
                self.assigments@ == new_log,
                self.max_x == pmx,
                self.max_y == pmy,
                pmx == old(self).log().last().prev_max_x,
                pmy == old(self).log().last().prev_max_y,
                new_log == old_log.drop_last(),
                old(self).wf(),
                old_grid == old(self).grid@,
                old_log == old(self).assigments@,
                old_log.len() > 0,
                forall|kk: int|
                    0 <= kk < 4 ==> (#[trigger] old_log.last().coords@[kk]).0 == left_x
                        + shape.coords@[kk].0 && old_log.last().coords@[kk].1 == bottom_y
                        + shape.coords@[kk].1,
                self.grid@.len() == old_grid.len(),
                forall|y: int|
                    0 <= y < self.height ==> (#[trigger] self.grid@[y])@.len() == self.width,
                forall|x: int, y: int|
                    0 <= x < self.width && 0 <= y < self.height ==> ((#[trigger] self.grid@[y]@[x])
                        <==> (old_grid[y]@[x] && !(exists|kk: int|
                        0 <= kk < k && left_x + (#[trigger] shape.coords@[kk]).0 == x && bottom_y
                            + shape.coords@[kk].1 == y))),
            decreases 4 - k,
        {
            let (cx0, cy0) = shape.coords[k];
            proof {
                assert(crate::shape_info::cell_in_box(*shape, k as int));
            }
            let x = left_x + cx0;
            let y = bottom_y + cy0;
            let ghost gs = self.grid@;
            self.grid[y][x] = false;
            proof {
                assert(self.grid@[y as int]@ =~= gs[y as int]@.update(x as int, false));
                assert forall|xx: int, yy: int|
                    0 <= xx < self.width && 0 <= yy < self.height implies ((
                #[trigger] self.grid@[yy]@[xx]) <==> (old_grid[yy]@[xx] && !(exists|kk: int|
                    0 <= kk < k + 1 && left_x + (#[trigger] shape.coords@[kk]).0 == xx && bottom_y
                        + shape.coords@[kk].1 == yy))) by {
                    if xx == x && yy == y {
                        assert(left_x + shape.coords@[k as int].0 == xx && bottom_y
                            + shape.coords@[k as int].1 == yy);
                    }
                }
            }
            k = k + 1;
        }
        proof {
            // the cleared cells are exactly those the popped record covered,
            // so the grid now tracks the shorter log
            assert forall|x: int, y: int|
                0 <= x < self.width && 0 <= y < self.height implies ((cell_set(
                self.grid@,
                x,
                y,
            )) <==> a_covers(new_log, x, y)) by {
                if cell_set(self.grid@, x, y) {
                    assert(cell_set(old_grid, x, y));
                    assert(a_covers(old_log, x, y));
                    let (p, kk) = choose|p: int, kk: int|
                        0 <= p < old_log.len() && 0 <= kk < 4 && (#[trigger] old_log[p].coords@[kk]).0
                            == x && old_log[p].coords@[kk].1 == y;
                    if p == old_log.len() - 1 {
                        assert(v_covers(*shape, left_x as int, bottom_y as int, x, y));
                        assert(!cell_set(self.grid@, x, y));
                    } else {
                        assert(new_log[p] == old_log[p]);
                        assert(a_covers(new_log, x, y));
                    }
                }
                if a_covers(new_log, x, y) {
                    let (p, kk) = choose|p: int, kk: int|
                        0 <= p < new_log.len() && 0 <= kk < 4 && (#[trigger] new_log[p].coords@[kk]).0
                            == x && new_log[p].coords@[kk].1 == y;
                    assert(old_log[p] == new_log[p]);
                    assert(a_covers(old_log, x, y));
                    assert(cell_set(old_grid, x, y));
                    // no other record covers a cell of the popped record
                    assert(!v_covers(*shape, left_x as int, bottom_y as int, x, y)) by {
                        if v_covers(*shape, left_x as int, bottom_y as int, x, y) {
                            let last = old_log[old_log.len() - 1];
                            if left_x + shape.coords@[0].0 == x && bottom_y + shape.coords@[0].1
                                == y {
                                assert(last.coords@[0] == old_log[p].coords@[kk]);
                            } else if left_x + shape.coords@[1].0 == x && bottom_y
                                + shape.coords@[1].1 == y {
                                assert(last.coords@[1] == old_log[p].coords@[kk]);
                            } else if left_x + shape.coords@[2].0 == x && bottom_y
                                + shape.coords@[2].1 == y {
                                assert(last.coords@[2] == old_log[p].coords@[kk]);
                            } else {
                                assert(last.coords@[3] == old_log[p].coords@[kk]);
                            }
                        }
                    }
                    assert(cell_set(self.grid@, x, y));
                }
            }
            assert(forall|p: int|
                0 <= p < new_log.len() ==> #[trigger] new_log[p] == old_log[p]);
        }
    }

    /// The logged placements as an answer list.
    pub fn assigments_to_answer(&self) -> (r: Vec<TotemAnswer>)
        ensures
            r@ == log_answers(self.log()),
    {
        let mut r: Vec<TotemAnswer> = Vec::new();
        let mut i: usize = 0;
        while i < self.assigments.len()
            invariant
                i <= self.assigments@.len(),
                r@ =~= log_answers(self.assigments@.take(i as int)),
            decreases self.assigments@.len() - i,
        {
            let a = &self.assigments[i];
            r.push(TotemAnswer::new(a.shape, a.coords));
            proof {
                assert(r@ =~= log_answers(self.assigments@.take(i + 1)));
            }
            i = i + 1;
        }
        proof {
            assert(self.assigments@.take(self.assigments@.len() as int) =~= self.assigments@);
        }
        r
    }

    /// Whether the origin cell (0, 0) is occupied.
    pub fn origin_set(&self) -> (r: bool)
        requires
            self.wf(),
        ensures
            r == cell_set(self.grid_view(), 0, 0),
    {
        self.grid[0][0]
    }
}

/// Exactly what `mark` does to a board: the four cells of `shape` at
/// (x0, y0) become occupied, one undo record is appended, and nothing
/// else changes observably.
pub open spec fn mark_rel(pre: Board, post: Board, shape: ShapeVariant, x0: int, y0: int) -> bool {
    &&& post.spec_width() == pre.spec_width()
    &&& post.spec_height() == pre.spec_height()
    &&& post.log().len() == pre.log().len() + 1
    &&& post.log().drop_last() == pre.log()
    &&& post.log().last().shape == shape.shape
    &&& post.log().last().prev_max_x == pre.spec_max_x()
    &&& post.log().last().prev_max_y == pre.spec_max_y()
    &&& forall|k: int|
        0 <= k < 4 ==> (#[trigger] post.log().last().coords@[k]).0 == x0 + shape.coords@[k].0
            && post.log().last().coords@[k].1 == y0 + shape.coords@[k].1
    &&& forall|x: int, y: int|
        0 <= x < pre.spec_width() && 0 <= y < pre.spec_height() ==> (cell_set(
            post.grid_view(),
            x,
            y,
        ) <==> (cell_set(pre.grid_view(), x, y) || v_covers(shape, x0, y0, x, y)))
}

/// Exactly what `unmark` does to a board: the four cells of `shape` at
/// (x0, y0) become free again, the undo record is popped, and the
/// bounding maxima are restored from it.
pub open spec fn unmark_rel(pre: Board, post: Board, shape: ShapeVariant, x0: int, y0: int) -> bool {
    &&& post.spec_width() == pre.spec_width()
    &&& post.spec_height() == pre.spec_height()
    &&& post.log() == pre.log().drop_last()
    &&& post.spec_max_x() == pre.log().last().prev_max_x
    &&& post.spec_max_y() == pre.log().last().prev_max_y
    &&& forall|x: int, y: int|
        0 <= x < pre.spec_width() && 0 <= y < pre.spec_height() ==> (cell_set(
            post.grid_view(),
            x,
            y,
        ) <==> (cell_set(pre.grid_view(), x, y) && !v_covers(shape, x0, y0, x, y)))
}

/// Marking a shape somewhere it fits and then unmarking the same shape
/// there brings the board back to where it was: same dimensions, same
/// occupied cells, same placement log, same bounding maxima.
pub proof fn lemma_mark_unmark_roundtrip(
    b0: Board,
    b1: Board,
    b2: Board,
    shape: ShapeVariant,
    x0: int,
    y0: int,
)
    requires
        b0.wf(),
        variant_wf(shape),
        v_fits(b0.grid_view(), shape, x0, y0),
        mark_rel(b0, b1, shape, x0, y0),
        unmark_rel(b1, b2, shape, x0, y0),
    ensures
        b2.spec_width() == b0.spec_width(),
        b2.spec_height() == b0.spec_height(),
        b2.log() == b0.log(),
        b2.spec_max_x() == b0.spec_max_x(),
        b2.spec_max_y() == b0.spec_max_y(),
        forall|x: int, y: int|
            0 <= x < b0.spec_width() && 0 <= y < b0.spec_height() ==> (cell_set(
                b2.grid_view(),
                x,
                y,
            ) <==> cell_set(b0.grid_view(), x, y)),
{
    assert forall|x: int, y: int|
        0 <= x < b0.spec_width() && 0 <= y < b0.spec_height() implies (cell_set(
        b2.grid_view(),
        x,
        y,
    ) <==> cell_set(b0.grid_view(), x, y)) by {
        if v_covers(shape, x0, y0, x, y) {
            assert(!cell_set(b0.grid_view(), x, y));
        }
    }
}

/// Shapes of an undo log.
pub open spec fn a_shapes(log: Seq<ShapeAssigment>) -> Seq<Totem> {
    log.map_values(|a: ShapeAssigment| a.shape)
}


/// The first shape index with a nonzero count, or 7 if the bag is empty.
pub open spec fn first_nonzero(s: Seq<usize>, i: int) -> int
    decreases 7 - i,
{
    if i < 0 || i >= 7 {
        7
    } else if s[i] > 0 {
        i
    } else {
        first_nonzero(s, i + 1)
    }
}

proof fn lemma_first_nonzero(s: Seq<usize>, i: int)
    requires
        0 <= i <= 7,
    ensures
        i <= first_nonzero(s, i) <= 7,
        first_nonzero(s, i) < 7 ==> s[first_nonzero(s, i)] > 0,
        forall|j: int| i <= j < first_nonzero(s, i) ==> s[j] == 0,
    decreases 7 - i,
{
    if i < 7 && s[i] == 0 {
        lemma_first_nonzero(s, i + 1);
    }
}

/// Whether a variant has a cell at its own lower-left origin.
pub open spec fn has_origin_cell(v: ShapeVariant) -> bool {
    ||| v.coords@[0] == (0usize, 0usize)
    ||| v.coords@[1] == (0usize, 0usize)
    ||| v.coords@[2] == (0usize, 0usize)
    ||| v.coords@[3] == (0usize, 0usize)
}

/// The first rotation of a shape with a cell at the origin.
pub open spec fn first_origin_rotation(t: Totem, i: int) -> int
    decreases rotations_spec(t).len() - i,
{
    if i < 0 || i >= rotations_spec(t).len() {
        rotations_spec(t).len() as int
    } else if has_origin_cell(rotations_spec(t)[i]) {
        i
    } else {
        first_origin_rotation(t, i + 1)
    }
}

/// Every shape has a rotation with a cell at the origin; the earlier
/// rotations do not have one.
proof fn lemma_first_origin_rotation(t: Totem)
    ensures
        0 <= first_origin_rotation(t, 0) < rotations_spec(t).len(),
        has_origin_cell(rotations_spec(t)[first_origin_rotation(t, 0)]),
        forall|i: int|
            0 <= i < first_origin_rotation(t, 0) ==> !has_origin_cell(rotations_spec(t)[i]),
{
    reveal_with_fuel(first_origin_rotation, 6);
    match t {
        Totem::I => {
            assert(has_origin_cell(rotations_spec(t)[0]));
            assert(first_origin_rotation(t, 0) == 0);
        },
        Totem::J => {
            assert(has_origin_cell(rotations_spec(t)[0]));
            assert(first_origin_rotation(t, 0) == 0);
        },
        Totem::L => {
            assert(has_origin_cell(rotations_spec(t)[0]));
            assert(first_origin_rotation(t, 0) == 0);
        },
        Totem::O => {
            assert(has_origin_cell(rotations_spec(t)[0]));
            assert(first_origin_rotation(t, 0) == 0);
        },
        Totem::S => {
            assert(!has_origin_cell(rotations_spec(t)[0]));
            assert(has_origin_cell(rotations_spec(t)[1]));
            assert(first_origin_rotation(t, 0) == 1);
        },
        Totem::T => {
            assert(!has_origin_cell(rotations_spec(t)[0]));
            assert(has_origin_cell(rotations_spec(t)[1]));
            assert(first_origin_rotation(t, 0) == 1);
        },
        Totem::Z => {
            assert(has_origin_cell(rotations_spec(t)[0]));
            assert(first_origin_rotation(t, 0) == 0);
        },
    }
}

/// A board state from which the search always succeeds: everything placed
/// so far sits in the leftmost columns and there is a fresh 4-wide column
/// strip left for every remaining piece, so the search always finds at
/// least the strip packing.
pub open spec fn strip_state(b: Board, bagv: Seq<usize>) -> bool {
    &&& b.wf()
    &&& bagv.len() == 7
    &&& 4 <= b.spec_height()
    &&& 4 * b.log().len() + 4 * bag_total(bagv) <= b.spec_width()
    &&& forall|x: int, y: int|
        0 <= x < b.spec_width() && 0 <= y < b.spec_height() && #[trigger] cell_set(
            b.grid_view(),
            x,
            y,
        ) ==> x < 4 * b.log().len()
    &&& (b.log().len() > 0 ==> cell_set(b.grid_view(), 0, 0))
}

/// Tries to place each remaining piece in each rotation at each column,
/// recursively; on failure the board and the bag are exactly as given.
/// From a strip state the search always succeeds: the ghost witness
/// below names the first placement the search is sure to try, and that
/// placement leads back to a strip state.
pub fn recursive_solve(board: &mut Board, bag: &mut TotemBag) -> (r: Option<Vec<TotemAnswer>>)
    requires
        old(board).wf(),
        bag_total(old(bag).0@) <= 1024,
    ensures
        r matches Some(ans) ==> {
            &&& forall|i: int|
                0 <= i < 7 ==> shape_count(placement_shapes(ans@), i) == old(bag).0@[i]
                    + shape_count(a_shapes(old(board).log()), i)
            &&& coords_in_bounds(ans@, old(board).spec_width(), old(board).spec_height())
            &&& cells_disjoint(ans@)
            &&& (ans@.len() > 0 ==> covers_origin(ans@))
        },
        r is None ==> {
            &&& final(board).wf()
            &&& final(board).spec_width() == old(board).spec_width()
            &&& final(board).spec_height() == old(board).spec_height()
            &&& final(board).log() == old(board).log()
            &&& final(board).spec_max_x() == old(board).spec_max_x()
            &&& final(board).spec_max_y() == old(board).spec_max_y()
            &&& (forall|x: int, y: int|
                0 <= x < old(board).spec_width() && 0 <= y < old(board).spec_height() ==> (cell_set(
                    final(board).grid_view(),
                    x,
                    y,
                ) <==> cell_set(old(board).grid_view(), x, y)))
            &&& (forall|i: int| 0 <= i < 7 ==> final(bag).0@[i] == old(bag).0@[i])
        },
        bag_total(old(bag).0@) == 0 && old(board).log().len() == 0 ==> r is Some,
        strip_state(*old(board), old(bag).0@) ==> r is Some,
    decreases bag_total(bag.0@),
{
    proof {
        lemma_bag_total_bounds(bag.0@);
    }
    let shapes_left = bag.total();
    if shapes_left == 0 {
        let ans = board.assigments_to_answer();
        proof {
            assert(forall|i: int| 0 <= i < 7 ==> bag.0@[i] == 0);
            assert(placement_shapes(ans@) =~= a_shapes(board.log()));
            assert(forall|p: int, k: int|
                0 <= p < ans@.len() && 0 <= k < 4 ==> (#[trigger] ans@[p].coordinates@[k])
                    == board.log()[p].coords@[k]);
        }
        if ans.len() > 0 {
            if !board.origin_set() {
                proof {
                    // a strip state keeps (0, 0) covered once anything
                    // is placed, so this branch cannot be reached there
                    if strip_state(*old(board), old(bag).0@) {
                        assert(false);
                    }
                }
                return None;
            }
            proof {
                assert(a_covers(board.log(), 0, 0));
                let (p, k) = choose|p: int, k: int|
                    0 <= p < board.log().len() && 0 <= k < 4 && (
                    #[trigger] board.log()[p].coords@[k]).0 == 0 && board.log()[p].coords@[k].1
                        == 0;
                assert(ans@[p].coordinates@[k] == (0usize, 0usize));
                assert(covers_origin(ans@));
            }
        }
        return Some(ans);
    }
    let ghost bag0 = bag.0@;
    let ghost board0 = *board;
    let ghost owed = strip_state(board0, bag0);
    let ghost wti = first_nonzero(bag0, 0);
    let ghost wlog_empty = board0.log().len() == 0;
    let ghost wri: int = if wlog_empty {
        first_origin_rotation(totem_of_index_spec(wti), 0)
    } else {
        0
    };
    let ghost wx: int = if wlog_empty {
        0
    } else {
        4 * board0.log().len() as int
    };
    proof {
        lemma_first_nonzero(bag0, 0);
    }
    let mut ti: usize = 0;
    while ti < 7
        invariant
            ti <= 7,
            board.wf(),
            bag.0@.len() == 7,
            bag0.len() == 7,
            1 <= bag_total(bag0) <= 1024,
            forall|i: int| 0 <= i < 7 ==> bag.0@[i] == bag0[i],
            bag0 == old(bag).0@,
            board.spec_width() == board0.spec_width(),
            board.spec_height() == board0.spec_height(),
            board.log() == board0.log(),
            board.spec_max_x() == board0.spec_max_x(),
            board.spec_max_y() == board0.spec_max_y(),
            forall|x: int, y: int|
                0 <= x < board0.spec_width() && 0 <= y < board0.spec_height() ==> (cell_set(
                    board.grid_view(),
                    x,
                    y,
                ) <==> cell_set(board0.grid_view(), x, y)),
            board0 == *old(board),
            owed == strip_state(board0, bag0),
            wti == first_nonzero(bag0, 0),
            wlog_empty == (board0.log().len() == 0),
            wri == if wlog_empty {
                first_origin_rotation(totem_of_index_spec(wti), 0)
            } else {
                0int
            },
            wx == if wlog_empty {
                0int
            } else {
                4 * board0.log().len() as int
            },
            owed ==> ti <= wti,
        decreases 7 - ti,
    {
        proof {
            lemma_first_nonzero(bag0, 0);
        }
        let n_totems = bag.0[ti];
        if n_totems > 0 {
            let totem = Totem::from_index(ti);
            let rotations = totem.get_rotations();
            proof {
                if owed && ti == wti {
                    lemma_first_origin_rotation(totem);
                }
            }
            let mut ri: usize = 0;
            while ri < rotations.len()
                invariant
                    ri <= rotations@.len(),
                    board.wf(),
                    bag.0@.len() == 7,
                    bag0.len() == 7,
                    1 <= bag_total(bag0) <= 1024,
                    forall|i: int| 0 <= i < 7 ==> bag.0@[i] == bag0[i],
                    bag0 == old(bag).0@,
                    ti < 7,
                    totem_index_spec(totem) == ti,
                    totem == totem_of_index_spec(ti as int),
                    bag.0@[ti as int] > 0,
                    rotations@ == rotations_spec(totem),
                    board.spec_width() == board0.spec_width(),
                    board.spec_height() == board0.spec_height(),
                    board.log() == board0.log(),
                    board.spec_max_x() == board0.spec_max_x(),
                    board.spec_max_y() == board0.spec_max_y(),
                    forall|x: int, y: int|
                        0 <= x < board0.spec_width() && 0 <= y < board0.spec_height() ==> (
                        cell_set(board.grid_view(), x, y) <==> cell_set(
                            board0.grid_view(),
                            x,
                            y,
                        )),
                    board0 == *old(board),
                    owed == strip_state(board0, bag0),
                    wti == first_nonzero(bag0, 0),
                    wlog_empty == (board0.log().len() == 0),
                    wri == if wlog_empty {
                        first_origin_rotation(totem_of_index_spec(wti), 0)
                    } else {
                        0int
                    },
                    wx == if wlog_empty {
                        0int
                    } else {
                        4 * board0.log().len() as int
                    },
                    owed ==> ti <= wti,
                    owed && ti == wti ==> ri <= wri,
                decreases rotations@.len() - ri,
            {
                let variant = &rotations[ri];
                proof {
                    lemma_catalog_wf(totem, ri as int);
                    if owed && ti == wti {
                        lemma_first_origin_rotation(totem);
                    }
                }
                let mut upper_dx: usize = if variant.width <= board.width() {
                    board.width() - variant.width + 1
                } else {
                    0
                };
                let mut origin_ok = true;
                if board.num_placed() == 0 {
                    // the first placement must cover (0, 0), so only x = 0
                    // and only variants with a cell at the origin
                    if upper_dx > 1 {
                        upper_dx = 1;
                    }
                    let mut has_origin = false;
                    let mut k: usize = 0;
                    while k < 4
                        invariant
                            k <= 4,
                            variant == &rotations@[ri as int],
                            ri < rotations@.len(),
                            has_origin == ((k > 0 && variant.coords@[0] == (0usize, 0usize)) || (
                            k > 1 && variant.coords@[1] == (0usize, 0usize)) || (k > 2
                                && variant.coords@[2] == (0usize, 0usize)) || (k > 3
                                && variant.coords@[3] == (0usize, 0usize))),
                        decreases 4 - k,
                    {
                        let (cx, cy) = variant.coords[k];
                        if cx == 0 && cy == 0 {
                            has_origin = true;
                        }
                        k = k + 1;
                    }
                    origin_ok = has_origin;
                    proof {
                        assert(origin_ok == has_origin_cell(*variant));
                    }
                }
                if origin_ok {
                    proof {
                        if owed && ti == wti && ri == wri {
                            // the witness column is inside the scanned range
                            lemma_bag_total_bounds(bag0);
                            assert(variant.width <= 4);
                            if wlog_empty {
                                assert(4 <= board0.spec_width());
                                assert(upper_dx == 1);
                            } else {
                                assert(4 * board0.log().len() + 4 <= board0.spec_width());
                            }
                            assert(wx < upper_dx);
                        }
                    }
                    let mut dx: usize = 0;
                    while dx < upper_dx
                        invariant
                            dx <= upper_dx,
                            board.wf(),
                            bag.0@.len() == 7,
                            bag0.len() == 7,
                            1 <= bag_total(bag0) <= 1024,
                            forall|i: int| 0 <= i < 7 ==> bag.0@[i] == bag0[i],
                            bag0 == old(bag).0@,
                            ti < 7,
                            totem_index_spec(totem) == ti,
                            totem == totem_of_index_spec(ti as int),
                            bag.0@[ti as int] > 0,
                            rotations@ == rotations_spec(totem),
                            ri < rotations@.len(),
                            variant == &rotations@[ri as int],
                            variant_wf(*variant),
                            upper_dx == 0 || upper_dx + variant.width <= board.spec_width() + 1,
                            board.spec_width() == board0.spec_width(),
                            board.spec_height() == board0.spec_height(),
                            board.log() == board0.log(),
                            board.spec_max_x() == board0.spec_max_x(),
                            board.spec_max_y() == board0.spec_max_y(),
                            forall|x: int, y: int|
                                0 <= x < board0.spec_width() && 0 <= y < board0.spec_height()
                                    ==> (cell_set(board.grid_view(), x, y) <==> cell_set(
                                    board0.grid_view(),
                                    x,
                                    y,
                                )),
                            board0 == *old(board),
                            owed == strip_state(board0, bag0),
                            wti == first_nonzero(bag0, 0),
                            wlog_empty == (board0.log().len() == 0),
                            wri == if wlog_empty {
                                first_origin_rotation(totem_of_index_spec(wti), 0)
                            } else {
                                0int
                            },
                            wx == if wlog_empty {
                                0int
                            } else {
                                4 * board0.log().len() as int
                            },
                            owed && ti == wti && ri == wri ==> wx < upper_dx,
                            owed && ti == wti && ri == wri ==> dx <= wx,
                            owed && ti == wti && ri == wri && wlog_empty ==> has_origin_cell(
                                *variant,
                            ),
                        decreases upper_dx - dx,
                    {
                        let ghost at_witness = owed && ti == wti && ri == wri && dx == wx;
                        proof {
                            if at_witness {
                                // the witness strip is free, so the shape
                                // fits there at the very bottom
                                assert(v_fits(board.grid_view(), *variant, wx, 0)) by {
                                    lemma_strip_fits(
                                        board0,
                                        *board,
                                        bag0,
                                        *variant,
                                        wx,
                                    );
                                }
                            }
                        }
                        let mut dy: usize = 0;
                        let moved = board.move_first_fit_above(dx, variant, &mut dy);
                        if moved {
                            proof {
                                if at_witness {
                                    assert(dy == 0) by {
                                        assert(v_fits(
                                            board.grid_view(),
                                            *variant,
                                            dx as int,
                                            0,
                                        ));
                                    }
                                }
                            }
                            let ghost pre_board = *board;
                            let ghost pre_bag = bag.0@;
                            board.mark(variant, dx, dy);
                            let cnt = bag.0[ti];
                            bag.0[ti] = cnt - 1;
                            proof {
                                assert(pre_bag =~= bag0);
                                assert(bag.0@ =~= pre_bag.update(ti as int, (cnt - 1) as usize));
                                lemma_bag_total_update(pre_bag, ti as int, (cnt - 1) as usize);
                                assert(bag_total(bag.0@) == bag_total(bag0) - 1);
                                lemma_bag_total_bounds(bag.0@);
                            }
                            let ghost marked_board = *board;
                            let ghost child_bag = bag.0@;
                            proof {
                                if at_witness {
                                    // the witness placement leads straight
                                    // back to a strip state
                                    lemma_strip_child(
                                        board0,
                                        pre_board,
                                        marked_board,
                                        bag0,
                                        child_bag,
                                        *variant,
                                        wx,
                                        ti as int,
                                    );
                                }
                            }
                            let sln = recursive_solve(board, bag);
                            match sln {
                                Some(ans) => {
                                    proof {
                                        let child_log = marked_board.log();
                                        assert(child_log.drop_last() == pre_board.log());
                                        assert(child_log.last().shape == totem);
                                        assert(a_shapes(child_log) =~= a_shapes(
                                            pre_board.log(),
                                        ).push(totem)) by {
                                            assert(forall|p: int|
                                                0 <= p < pre_board.log().len()
                                                    ==> #[trigger] child_log[p]
                                                    == pre_board.log()[p]);
                                        }
                                        lemma_shape_count_push(a_shapes(pre_board.log()), totem);
                                        assert forall|i: int|
                                            0 <= i < 7 implies shape_count(
                                            placement_shapes(ans@),
                                            i,
                                        ) == bag0[i] + shape_count(
                                            a_shapes(old(board).log()),
                                            i,
                                        ) by {
                                            assert(shape_count(placement_shapes(ans@), i)
                                                == child_bag[i] + shape_count(
                                                a_shapes(child_log),
                                                i,
                                            ));
                                            assert(child_bag[i] == bag0[i] - (if i == ti {
                                                1int
                                            } else {
                                                0int
                                            }));
                                        }
                                    }
                                    return Some(ans);
                                },
                                None => {
                                    proof {
                                        if at_witness {
                                            assert(strip_state(marked_board, child_bag));
                                            assert(false);
                                        }
                                    }
                                },
                            }
                            proof {
                                assert(mark_rel(
                                    pre_board,
                                    *board,
                                    *variant,
                                    dx as int,
                                    dy as int,
                                ));
                            }
                            let ghost before_unmark = *board;
                            board.unmark(variant, dx, dy);
                            proof {
                                lemma_mark_unmark_roundtrip(
                                    pre_board,
                                    before_unmark,
                                    *board,
                                    *variant,
                                    dx as int,
                                    dy as int,
                                );
                            }
                            let cnt2 = bag.0[ti];
                            bag.0[ti] = cnt2 + 1;
                            proof {
                                assert(forall|i: int| 0 <= i < 7 ==> bag.0@[i] == bag0[i]);
                            }
                        } else {
                            proof {
                                if at_witness {
                                    // but the shape does fit in the strip
                                    assert(false);
                                }
                            }
                        }
                        dx = dx + 1;
                    }
                    proof {
                        if owed && ti == wti && ri == wri {
                            assert(false);
                        }
                    }
                }
                proof {
                    if owed && ti == wti && ri < wri {
                        // earlier rotations have no origin cell and were
                        // skipped, so the witness rotation lies ahead
                        lemma_first_origin_rotation(totem);
                        assert(!has_origin_cell(rotations_spec(totem)[ri as int]));
                    }
                }
                ri = ri + 1;
            }
            proof {
                if owed && ti == wti {
                    lemma_first_origin_rotation(totem);
                    assert(false);
                }
            }
        } else {
            proof {
                if owed && ti == wti {
                    lemma_first_nonzero(bag0, 0);
                    assert(false);
                }
            }
        }
        ti = ti + 1;
    }
    proof {
        if owed {
            lemma_first_nonzero(bag0, 0);
            if wti == 7 {
                assert(forall|j: int| 0 <= j < 7 ==> bag0[j] == 0);
                crate::game_interface::lemma_bag_total_explicit(bag0);
            }
            assert(false);
        }
    }
    None
}

/// In a strip state whose board matches `b0` cell for cell, any variant
/// fits at the bottom of the fresh strip at column `wx`.
proof fn lemma_strip_fits(b0: Board, b: Board, bagv: Seq<usize>, v: ShapeVariant, wx: int)
    requires
        strip_state(b0, bagv),
        bag_total(bagv) >= 1,
        b.wf(),
        b.spec_width() == b0.spec_width(),
        b.spec_height() == b0.spec_height(),
        b.log() == b0.log(),
        forall|x: int, y: int|
            0 <= x < b0.spec_width() && 0 <= y < b0.spec_height() ==> (cell_set(
                b.grid_view(),
                x,
                y,
            ) <==> cell_set(b0.grid_view(), x, y)),
        variant_wf(v),
        wx == if b0.log().len() == 0 {
            0int
        } else {
            4 * b0.log().len() as int
        },
    ensures
        v_fits(b.grid_view(), v, wx, 0),
        wx + v.width <= b.spec_width(),
        v.height <= b.spec_height(),
{
    assert(crate::shape_info::cell_in_box(v, 0));
    assert(crate::shape_info::cell_in_box(v, 1));
    assert(crate::shape_info::cell_in_box(v, 2));
    assert(crate::shape_info::cell_in_box(v, 3));
    assert(4 * b0.log().len() + 4 <= b0.spec_width());
    assert forall|k: int| 0 <= k < 4 implies !cell_set(
        b.grid_view(),
        wx + (#[trigger] v.coords@[k]).0,
        v.coords@[k].1 as int,
    ) by {
        let x = wx + v.coords@[k].0;
        let y = v.coords@[k].1 as int;
        assert(0 <= x < b0.spec_width());
        assert(0 <= y < b0.spec_height());
        if cell_set(b.grid_view(), x, y) {
            assert(cell_set(b0.grid_view(), x, y));
            assert(x < 4 * b0.log().len());
        }
    }
}

/// The witness placement keeps the strip shape: everything still sits in
/// the leftmost columns, one more strip is used up, and (0, 0) stays
/// covered.
proof fn lemma_strip_child(
    b0: Board,
    pre: Board,
    marked: Board,
    bag0: Seq<usize>,
    child_bag: Seq<usize>,
    v: ShapeVariant,
    wx: int,
    ti: int,
)
    requires
        strip_state(b0, bag0),
        bag_total(bag0) >= 1,
        0 <= ti < 7,
        bag0[ti] > 0,
        child_bag =~= bag0.update(ti, (bag0[ti] - 1) as usize),
        pre.wf(),
        pre.spec_width() == b0.spec_width(),
        pre.spec_height() == b0.spec_height(),
        pre.log() == b0.log(),
        forall|x: int, y: int|
            0 <= x < b0.spec_width() && 0 <= y < b0.spec_height() ==> (cell_set(
                pre.grid_view(),
                x,
                y,
            ) <==> cell_set(b0.grid_view(), x, y)),
        variant_wf(v),
        wx == if b0.log().len() == 0 {
            0int
        } else {
            4 * b0.log().len() as int
        },
        b0.log().len() == 0 ==> has_origin_cell(v),
        mark_rel(pre, marked, v, wx, 0),
        marked.wf(),
        marked.spec_width() == pre.spec_width(),
        marked.spec_height() == pre.spec_height(),
    ensures
        strip_state(marked, child_bag),
{
    lemma_bag_total_update(bag0, ti, (bag0[ti] - 1) as usize);
    assert(bag_total(child_bag) == bag_total(bag0) - 1);
    assert(marked.log().len() == b0.log().len() + 1);
    assert(4 * marked.log().len() + 4 * bag_total(child_bag) <= marked.spec_width());
    assert(crate::shape_info::cell_in_box(v, 0));
    assert(crate::shape_info::cell_in_box(v, 1));
    assert(crate::shape_info::cell_in_box(v, 2));
    assert(crate::shape_info::cell_in_box(v, 3));
    assert forall|x: int, y: int|
        0 <= x < marked.spec_width() && 0 <= y < marked.spec_height() && #[trigger] cell_set(
        marked.grid_view(),
        x,
        y,
    ) implies x < 4 * marked.log().len() by {
        if cell_set(pre.grid_view(), x, y) {
            assert(cell_set(b0.grid_view(), x, y));
        } else {
            assert(v_covers(v, wx, 0, x, y));
        }
    }
    assert(cell_set(marked.grid_view(), 0, 0)) by {
        if b0.log().len() == 0 {
            assert(v_covers(v, 0, 0, 0, 0));
            assert(0 < marked.spec_width() && 0 < marked.spec_height());
        } else {
            assert(cell_set(b0.grid_view(), 0, 0));
            assert(cell_set(pre.grid_view(), 0, 0));
        }
    }
}

/// The exhaustive backtracking solver.
#[derive(Clone, Copy)]
pub struct ExhaustiveSolver {}

impl ExhaustiveSolver {
    /// Build the solver.
    pub fn new() -> (r: ExhaustiveSolver) {
        ExhaustiveSolver {  }
    }

    /// Search exhaustively for a packing of the bag into a width-by-height
    /// box; any returned placement list is a valid solution. An empty bag
    /// always succeeds, and so does a board wide enough to hold every
    /// piece in its own column strip.
    pub fn try_solve(&self, width: usize, height: usize, bag: &TotemBag) -> (r: Option<
        Vec<TotemAnswer>,
    >)
        requires
            1 <= width,
            1 <= height,
            bag_total(bag.0@) <= 1024,
        ensures
            r matches Some(ans) ==> answer_valid(ans@, bag.0@, width as int, height as int),
            bag_total(bag.0@) == 0 ==> r is Some,
            4 * bag_total(bag.0@) <= width && 4 <= height ==> r is Some,
    {
        proof {
            lemma_bag_total_bounds(bag.0@);
        }
        let num_totems = bag.total();
        let mut board = Board::new(width, height, num_totems);
        let mut rem = *bag;
        proof {
            if 4 * bag_total(bag.0@) <= width && 4 <= height {
                assert(strip_state(board, rem.0@));
            }
        }
        let r = recursive_solve(&mut board, &mut rem);
        proof {
            if r is Some {
                let ans = r.unwrap()@;
                assert(a_shapes(Seq::<ShapeAssigment>::empty()) =~= Seq::<Totem>::empty());
                assert forall|i: int| 0 <= i < 7 implies shape_count(placement_shapes(ans), i)
                    == bag.0@[i] by {
                    assert(shape_count(placement_shapes(ans), i) == bag.0@[i] + shape_count(
                        a_shapes(Seq::<ShapeAssigment>::empty()),
                        i,
                    ));
                }
                if bag_total(bag.0@) > 0 {
                    crate::game_interface::lemma_shape_count_total(placement_shapes(ans));
                    crate::game_interface::lemma_bag_total_explicit(bag.0@);
                    assert(ans.len() > 0);
                }
            }
        }
        r
    }
}

} // verus!
