//! The greedy "touchpoints" solver: repeated randomized greedy passes that
//! always place a piece maximizing the number of occupied or border
//! neighbors, which keeps the packing compact. The board keeps an
//! occupancy bitmap packed row-wise, a per-column lowest-free-row index,
//! and per-cell touchpoint counters.

use vstd::prelude::*;

use crate::game_interface::{
    bag_total, lemma_bag_total_bounds, lemma_bag_total_update, lemma_shape_count_push,
    shape_count, totem_index_spec, Totem, TotemAnswer, TotemBag,
};
use crate::rng::rand_index;
use crate::shape_info::{
    bit64, lemma_catalog_wf, lemma_merge_bits, lemma_or_accumulator, lemma_shifted_mask_and,
    lemma_shifted_mask_bits, lemma_single_bit_test, mask_covers_shifted, rotations_spec,
    variant_wf, ShapeVariant,
};
use crate::solution::{
    answer_valid, cells_disjoint, coords_in_bounds, covers_origin, placement_shapes,
};

verus! {

/// Whether cell (x, y) is occupied in a row-bitmap grid. Cell x = 0 sits
/// at bit 63 of its row's word.
pub open spec fn occupied(g: Seq<u64>, x: int, y: int) -> bool {
    bit64(g[y], (63 - x) as u64)
}

/// Whether the four cells of `v`, placed at (x0, y0), are all free.
pub open spec fn cell_free(g: Seq<u64>, x0: int, y0: int, c: (usize, usize)) -> bool {
    !occupied(g, x0 + c.0, y0 + c.1)
}

pub open spec fn fits_spec(g: Seq<u64>, v: ShapeVariant, x0: int, y0: int) -> bool {
    &&& cell_free(g, x0, y0, v.coords@[0])
    &&& cell_free(g, x0, y0, v.coords@[1])
    &&& cell_free(g, x0, y0, v.coords@[2])
    &&& cell_free(g, x0, y0, v.coords@[3])
}

/// Whether placing `v` at (x0, y0) covers the cell (x, y).
pub open spec fn covers_cell(v: ShapeVariant, x0: int, y0: int, x: int, y: int) -> bool {
    ||| (x0 + v.coords@[0].0 == x && y0 + v.coords@[0].1 == y)
    ||| (x0 + v.coords@[1].0 == x && y0 + v.coords@[1].1 == y)
    ||| (x0 + v.coords@[2].0 == x && y0 + v.coords@[2].1 == y)
    ||| (x0 + v.coords@[3].0 == x && y0 + v.coords@[3].1 == y)
}

/// Whether some placement of the log covers the cell (x, y).
pub open spec fn log_covers(log: Seq<TotemAnswer>, x: int, y: int) -> bool {
    exists|p: int, k: int|
        0 <= p < log.len() && 0 <= k < 4 && (#[trigger] log[p].coordinates@[k]).0 == x
            && log[p].coordinates@[k].1 == y
}

/// 1 if the cell `c` of `v` placed at (x0, y0) is a 4-neighbor of (x, y).
pub open spec fn nb1(x0: int, y0: int, c: (usize, usize), x: int, y: int) -> int {
    let cx = x0 + c.0;
    let cy = y0 + c.1;
    if (cx == x && (cy == y + 1 || cy == y - 1)) || (cy == y && (cx == x + 1 || cx == x - 1)) {
        1
    } else {
        0
    }
}

/// How many of the first `n` cells of `v` at (x0, y0) neighbor (x, y).
pub open spec fn nb_prefix(v: ShapeVariant, x0: int, y0: int, x: int, y: int, n: int) -> int {
    (if n > 0 {
        nb1(x0, y0, v.coords@[0], x, y)
    } else {
        0
    }) + (if n > 1 {
        nb1(x0, y0, v.coords@[1], x, y)
    } else {
        0
    }) + (if n > 2 {
        nb1(x0, y0, v.coords@[2], x, y)
    } else {
        0
    }) + (if n > 3 {
        nb1(x0, y0, v.coords@[3], x, y)
    } else {
        0
    })
}

/// How many of the four cells of `v` at (x0, y0) neighbor (x, y).
pub open spec fn nb_count(v: ShapeVariant, x0: int, y0: int, x: int, y: int) -> int {
    nb_prefix(v, x0, y0, x, y, 4)
}

/// How many in-grid 4-neighbors of (x, y) are occupied.
pub open spec fn occ_nb(g: Seq<u64>, w: int, h: int, x: int, y: int) -> int {
    (if y + 1 < h && occupied(g, x, y + 1) {
        1int
    } else {
        0int
    }) + (if y - 1 >= 0 && occupied(g, x, y - 1) {
        1int
    } else {
        0int
    }) + (if x + 1 < w && occupied(g, x + 1, y) {
        1int
    } else {
        0int
    }) + (if x - 1 >= 0 && occupied(g, x - 1, y) {
        1int
    } else {
        0int
    })
}

/// The touchpoint value a fresh board gives cell (x, y): one per adjacent
/// border side, and a large boost on (0, 0) so greedy selection covers it.
pub open spec fn base_tp(width: int, height: int, x: int, y: int) -> int {
    (if y == 0 {
        1int
    } else {
        0int
    }) + (if y == height - 1 {
        1int
    } else {
        0int
    }) + (if x == 0 {
        1int
    } else {
        0int
    }) + (if x == width - 1 {
        1int
    } else {
        0int
    }) + (if x == 0 && y == 0 {
        100int
    } else {
        0int
    })
}

/// The packing surface of the greedy solver.
pub struct Board {
    width: usize,
    height: usize,
    // For each row, a bitmask of the cells in use (x = 0 is bit 63),
    // with three zero pad rows so fits can always read four rows.
    masked_grid: Vec<u64>,
    // For each cell, how many neighbors are occupied or borders.
    touchpoints: Vec<Vec<u32>>,
    // Totems placed so far.
    totems: Vec<TotemAnswer>,
    // For each x, the first y with no totem on it yet.
    first_unset_y_at_x: Vec<usize>,
}

impl Board {
    pub closed spec fn spec_width(&self) -> int {
        self.width as int
    }

    pub closed spec fn spec_height(&self) -> int {
        self.height as int
    }

    pub closed spec fn grid(&self) -> Seq<u64> {
        self.masked_grid@
    }

    pub closed spec fn log(&self) -> Seq<TotemAnswer> {
        self.totems@
    }

    pub closed spec fn tp(&self) -> Seq<Vec<u32>> {
        self.touchpoints@
    }

    pub closed spec fn fu(&self) -> Seq<usize> {
        self.first_unset_y_at_x@
    }

    /// Sizes and ranges of the board's parts.
    pub open spec fn dims_wf(&self) -> bool {
        &&& 1 <= self.spec_width() <= 64
        &&& 1 <= self.spec_height()
        &&& self.spec_height() + 3 <= usize::MAX
        &&& self.grid().len() == self.spec_height() + 3
        &&& self.tp().len() == self.spec_height()
        &&& forall|y: int|
            0 <= y < self.spec_height() ==> (#[trigger] self.tp()[y])@.len() == self.spec_width()
        &&& self.fu().len() == self.spec_width()
    }

    /// The column cursors point exactly at each column's first free cell.
    pub open spec fn fu_wf(&self) -> bool {
        &&& forall|x: int| 0 <= x < self.spec_width() ==> #[trigger] self.fu()[x] <= self.spec_height()
        &&& forall|x: int, y: int|
            0 <= x < self.spec_width() && 0 <= y < self.fu()[x] ==> occupied(self.grid(), x, y)
        &&& forall|x: int|
            0 <= x < self.spec_width() && self.fu()[x] < self.spec_height() ==> !occupied(
                self.grid(),
                x,
                (#[trigger] self.fu()[x]) as int,
            )
    }

    /// The grid holds exactly the cells of the placement log, the log's
    /// cells are in bounds and pairwise distinct, and the touchpoint
    /// counters stay small enough to never overflow.
    pub open spec fn log_wf(&self) -> bool {
        &&& forall|x: int, y: int|
            0 <= x < self.spec_width() && 0 <= y < self.spec_height() ==> (occupied(
                self.grid(),
                x,
                y,
            ) <==> log_covers(self.log(), x, y))
        &&& coords_in_bounds(self.log(), self.spec_width(), self.spec_height())
        &&& cells_disjoint(self.log())
        &&& self.log().len() <= 1024
        &&& forall|y: int, x: int|
            0 <= y < self.spec_height() && 0 <= x < self.spec_width() ==> #[trigger] self.tp()[y]@[x]
                <= 104 + 4 * self.log().len()
        // the counters are exact: border sides, the origin boost, and one
        // per occupied neighbor
        &&& forall|y: int, x: int|
            0 <= y < self.spec_height() && 0 <= x < self.spec_width() ==> #[trigger] self.tp()[y]@[x]
                == base_tp(self.spec_width(), self.spec_height(), x, y) + occ_nb(
                self.grid(),
                self.spec_width(),
                self.spec_height(),
                x,
                y,
            )
    }

    pub open spec fn wf(&self) -> bool {
        self.dims_wf() && self.fu_wf() && self.log_wf()
    }

    /// A fresh board: empty grid, empty log, cursors at the bottom, and
    /// touchpoints seeded with the border counts and the (0, 0) boost.
    pub fn new(width: usize, height: usize, answer_size: usize) -> (r: Board)
        requires
            1 <= width <= 64,
            1 <= height,
            height + 3 <= usize::MAX,
        ensures
            r.wf(),
            r.spec_width() == width,
            r.spec_height() == height,
            r.log().len() == 0,
            forall|x: int, y: int|
                0 <= x < width && 0 <= y < height ==> !occupied(r.grid(), x, y),
            forall|x: int| 0 <= x < width ==> r.fu()[x] == 0,
            forall|y: int, x: int|
                0 <= y < height && 0 <= x < width ==> #[trigger] r.tp()[y]@[x] == base_tp(
                    width as int,
                    height as int,
                    x,
                    y,
                ),
    {
        let masked_grid: Vec<u64> = vec![0u64; height + 3];
        let mut touchpoints: Vec<Vec<u32>> = Vec::new();
        let mut y: usize = 0;
        while y < height
            invariant
                y <= height,
                1 <= width <= 64,
                1 <= height,
                touchpoints@.len() == y,
                forall|yy: int| 0 <= yy < y ==> (#[trigger] touchpoints@[yy])@.len() == width,
                forall|yy: int, xx: int|
                    0 <= yy < y && 0 <= xx < width ==> #[trigger] touchpoints@[yy]@[xx] == base_tp(
                        width as int,
                        height as int,
                        xx,
                        yy,
                    ),
            decreases height - y,
        {
            let mut row: Vec<u32> = Vec::new();
            let mut x: usize = 0;
            while x < width
                invariant
                    x <= width,
                    1 <= width <= 64,
                    1 <= height,
                    y < height,
                    row@.len() == x,
                    forall|xx: int|
                        0 <= xx < x ==> #[trigger] row@[xx] == base_tp(
                            width as int,
                            height as int,
                            xx,
                            y as int,
                        ),
                decreases width - x,
            {
                let mut v: u32 = 0;
                if y == 0 {
                    v = v + 1;
                }
                if y == height - 1 {
                    v = v + 1;
                }
                if x == 0 {
                    v = v + 1;
                }
                if x == width - 1 {
                    v = v + 1;
                }
                if x == 0 && y == 0 {
                    v = v + 100;
                }
                row.push(v);
                x = x + 1;
            }
            touchpoints.push(row);
            y = y + 1;
        }
        let first_unset_y_at_x: Vec<usize> = vec![0usize; width];
        let totems: Vec<TotemAnswer> = Vec::with_capacity(answer_size);
        let r = Board { width, height, masked_grid, touchpoints, totems, first_unset_y_at_x };
        proof {
            assert forall|x: int, y2: int|
                0 <= x < width && 0 <= y2 < height implies !occupied(r.masked_grid@, x, y2) by {
                crate::shape_info::lemma_zero_bits((63 - x) as u64);
            }
            assert forall|x: int, y2: int|
                0 <= x < width && 0 <= y2 < height implies !log_covers(r.totems@, x, y2) by {}
        }
        r
    }

    pub fn width(&self) -> (r: usize)
        ensures
            r == self.spec_width(),
    {
        self.width
    }

    pub fn height(&self) -> (r: usize)
        ensures
            r == self.spec_height(),
    {
        self.height
    }

    /// The placements made so far.
    pub fn placements(&self) -> (r: &Vec<TotemAnswer>)
        ensures
            r@ == self.log(),
    {
        &self.totems
    }

    /// A copy of the placements made so far.
    pub fn placements_vec(&self) -> (r: Vec<TotemAnswer>)
        ensures
            r@ == self.log(),
    {
        let mut r: Vec<TotemAnswer> = Vec::new();
        let mut i: usize = 0;
        while i < self.totems.len()
            invariant
                i <= self.totems@.len(),
                r@ =~= self.totems@.take(i as int),
            decreases self.totems@.len() - i,
        {
            r.push(self.totems[i]);
            proof {
                assert(r@ =~= self.totems@.take(i + 1));
            }
            i = i + 1;
        }
        proof {
            assert(self.totems@.take(self.totems@.len() as int) =~= self.totems@);
        }
        r
    }

    /// Whether cell (x, y) is occupied.
    pub fn is_set(&self, x: usize, y: usize) -> (r: bool)
        requires
            self.dims_wf(),
            x < self.spec_width(),
            y < self.grid().len(),
        ensures
            r == occupied(self.grid(), x as int, y as int),
    {
        let mask: u64 = 1u64 << (63 - x);
        let r = mask & self.masked_grid[y] != 0;
        proof {
            lemma_single_bit_test(self.masked_grid@[y as int], (63 - x) as u64);
        }
        r
    }

    /// Whether the four cells of `shape` at (left_x, bottom_y) are free.
    /// Reads four premade mask rows against four grid rows.
    pub fn fits(&self, shape: &ShapeVariant, left_x: usize, bottom_y: usize) -> (r: bool)
        requires
            self.dims_wf(),
            variant_wf(*shape),
            left_x + shape.width <= self.spec_width(),
            bottom_y + shape.height <= self.spec_height(),
        ensures
            r == fits_spec(self.grid(), *shape, left_x as int, bottom_y as int),
    {
        let mut fit: u64 = 0;
        let mut dy: usize = 0;
        while dy < 4
            invariant
                dy <= 4,
                self.dims_wf(),
                variant_wf(*shape),
                left_x + shape.width <= self.spec_width(),
                bottom_y + shape.height <= self.spec_height(),
                fit == 0 <==> (forall|d: int|
                    0 <= d < dy ==> (shape.masks@[d] >> left_x) & self.masked_grid@[bottom_y + d]
                        == 0),
            decreases 4 - dy,
        {
            let y = bottom_y + dy;
            let shape_mask = shape.mask_at(left_x, dy);
            let board_mask = self.masked_grid[y];
            proof {
                lemma_or_accumulator(fit, shape_mask & board_mask);
            }
            fit = fit | (shape_mask & board_mask);
            dy = dy + 1;
        }
        proof {
            let g = self.masked_grid@;
            let x0 = left_x as int;
            let y0 = bottom_y as int;
            assert forall|d: int| 0 <= d < 4 implies (((shape.masks@[d] >> left_x)
                & g[bottom_y + d] == 0) <==> (forall|k: int|
                0 <= k < 4 && (#[trigger] shape.coords@[k]).1 == d ==> !bit64(
                    g[bottom_y + d],
                    (63 - shape.coords@[k].0 - left_x) as u64,
                ))) by {
                lemma_shifted_mask_and(*shape, d, left_x as u64, g[bottom_y + d]);
            }
            if fit == 0 {
                assert forall|k: int| 0 <= k < 4 implies !occupied(
                    g,
                    x0 + (#[trigger] shape.coords@[k]).0,
                    y0 + shape.coords@[k].1,
                ) by {
                    let d = shape.coords@[k].1 as int;
                    assert(0 <= d < 4);
                    assert(!bit64(g[bottom_y + d], (63 - shape.coords@[k].0 - left_x) as u64));
                }
            } else {
                let d = choose|d: int|
                    0 <= d < 4 && !((shape.masks@[d] >> left_x) & g[bottom_y + d] == 0);
                let k = choose|k: int|
                    0 <= k < 4 && (#[trigger] shape.coords@[k]).1 == d && bit64(
                        g[bottom_y + d],
                        (63 - shape.coords@[k].0 - left_x) as u64,
                    );
                assert(occupied(g, x0 + shape.coords@[k].0, y0 + shape.coords@[k].1));
                assert(!fits_spec(g, *shape, x0, y0));
            }
        }
        fit == 0
    }
}

/// The adjacency count of a placement equals one per neighbor position
/// of (x, y) that the placement covers.
#[verifier::rlimit(100)]
proof fn lemma_nb_count_positions(v: ShapeVariant, x0: int, y0: int, x: int, y: int)
    requires
        variant_wf(v),
    ensures
        nb_count(v, x0, y0, x, y) == (if covers_cell(v, x0, y0, x, y + 1) {
            1int
        } else {
            0int
        }) + (if covers_cell(v, x0, y0, x, y - 1) {
            1int
        } else {
            0int
        }) + (if covers_cell(v, x0, y0, x + 1, y) {
            1int
        } else {
            0int
        }) + (if covers_cell(v, x0, y0, x - 1, y) {
            1int
        } else {
            0int
        }),
{
}

/// Marking the cells of a fitting variant raises each cell's occupied
/// neighbor count by exactly the number of new cells adjacent to it.
#[verifier::rlimit(100)]
proof fn lemma_occ_nb_after_mark(
    g_old: Seq<u64>,
    g_new: Seq<u64>,
    w: int,
    h: int,
    v: ShapeVariant,
    x0: int,
    y0: int,
    x: int,
    y: int,
)
    requires
        variant_wf(v),
        x0 + v.width <= w,
        y0 + v.height <= h,
        0 <= x0,
        0 <= y0,
        fits_spec(g_old, v, x0, y0),
        forall|xx: int, yy: int|
            0 <= xx < w && 0 <= yy < h ==> (occupied(g_new, xx, yy) <==> (occupied(g_old, xx, yy)
                || covers_cell(v, x0, y0, xx, yy))),
        0 <= x < w,
        0 <= y < h,
    ensures
        occ_nb(g_new, w, h, x, y) == occ_nb(g_old, w, h, x, y) + nb_count(v, x0, y0, x, y),
{
    assert(crate::shape_info::cell_in_box(v, 0));
    assert(crate::shape_info::cell_in_box(v, 1));
    assert(crate::shape_info::cell_in_box(v, 2));
    assert(crate::shape_info::cell_in_box(v, 3));
    lemma_nb_count_positions(v, x0, y0, x, y);
    // each covered neighbor position was free and is now occupied;
    // every other neighbor position keeps its state
    if y + 1 < h && covers_cell(v, x0, y0, x, y + 1) {
        assert(!occupied(g_old, x, y + 1));
    }
    if y - 1 >= 0 && covers_cell(v, x0, y0, x, y - 1) {
        assert(!occupied(g_old, x, y - 1));
    }
    if x + 1 < w && covers_cell(v, x0, y0, x + 1, y) {
        assert(!occupied(g_old, x + 1, y));
    }
    if x - 1 >= 0 && covers_cell(v, x0, y0, x - 1, y) {
        assert(!occupied(g_old, x - 1, y));
    }
    // a covered position always lies inside the grid
    if covers_cell(v, x0, y0, x, y + 1) {
        assert(y + 1 < h);
    }
    if covers_cell(v, x0, y0, x + 1, y) {
        assert(x + 1 < w);
    }
    if y - 1 < 0 {
        assert(!covers_cell(v, x0, y0, x, y - 1));
    }
    if x - 1 < 0 {
        assert(!covers_cell(v, x0, y0, x - 1, y));
    }
}

/// Whether one of the cells `k..4` of `v` at (x0, y0) sits at (x, fy):
/// used while the column cursors are being brought up to date.
spec fn pending_cell(v: ShapeVariant, x0: int, y0: int, k: int, x: int, fy: int) -> bool {
    ||| (k <= 0 && x0 + v.coords@[0].0 == x && y0 + v.coords@[0].1 == fy)
    ||| (k <= 1 && x0 + v.coords@[1].0 == x && y0 + v.coords@[1].1 == fy)
    ||| (k <= 2 && x0 + v.coords@[2].0 == x && y0 + v.coords@[2].1 == fy)
    ||| (k <= 3 && x0 + v.coords@[3].0 == x && y0 + v.coords@[3].1 == fy)
}

impl Board {
    /// Place `shape` at (left_x, bottom_y): merge its row masks into the
    /// grid, credit one touchpoint to every neighbor of each new cell,
    /// advance the column cursors past the newly filled cells, and append
    /// the placement to the log.
    #[verifier::rlimit(100)]
    pub fn mark(&mut self, shape: &ShapeVariant, left_x: usize, bottom_y: usize)
        requires
            old(self).wf(),
            variant_wf(*shape),
            left_x + shape.width <= old(self).spec_width(),
            bottom_y + shape.height <= old(self).spec_height(),
            fits_spec(old(self).grid(), *shape, left_x as int, bottom_y as int),
            old(self).log().len() < 1024,
        ensures
            final(self).wf(),
            final(self).spec_width() == old(self).spec_width(),
            final(self).spec_height() == old(self).spec_height(),
            final(self).log().len() == old(self).log().len() + 1,
            final(self).log().drop_last() == old(self).log(),
            final(self).log().last().shape == shape.shape,
            forall|k: int|
                0 <= k < 4 ==> (#[trigger] final(self).log().last().coordinates@[k]).0 == left_x
                    + shape.coords@[k].0 && final(self).log().last().coordinates@[k].1 == bottom_y
                    + shape.coords@[k].1,
            forall|x: int, y: int|
                0 <= x < old(self).spec_width() && 0 <= y < old(self).spec_height() ==> (occupied(
                    final(self).grid(),
                    x,
                    y,
                ) <==> (occupied(old(self).grid(), x, y) || covers_cell(
                    *shape,
                    left_x as int,
                    bottom_y as int,
                    x,
                    y,
                ))),
            forall|y: int, x: int|
                0 <= y < old(self).spec_height() && 0 <= x < old(self).spec_width()
                    ==> #[trigger] final(self).tp()[y]@[x] == old(self).tp()[y]@[x] + nb_count(
                    *shape,
                    left_x as int,
                    bottom_y as int,
                    x,
                    y,
                ),
    {
        let ghost x0 = left_x as int;
        let ghost y0 = bottom_y as int;
        let ghost old_grid = self.masked_grid@;
        // merge the shape's row masks into the grid
        let mut dy: usize = 0;
        while dy < shape.height
            invariant
                dy <= shape.height,
                variant_wf(*shape),
                left_x + shape.width <= self.width,
                bottom_y + shape.height <= self.height,
                self.width == old(self).width,
                self.height == old(self).height,
                self.touchpoints == old(self).touchpoints,
                self.totems == old(self).totems,
                self.first_unset_y_at_x == old(self).first_unset_y_at_x,
                old(self).wf(),
                old_grid == old(self).grid(),
                self.masked_grid@.len() == old_grid.len(),
                old_grid.len() == self.height + 3,
                self.width <= 64,
                forall|y: int|
                    0 <= y < old_grid.len() ==> self.masked_grid@[y] == if bottom_y <= y < bottom_y
                        + dy {
                        old_grid[y] | (shape.masks@[y - bottom_y] >> left_x)
                    } else {
                        old_grid[y]
                    },
            decreases shape.height - dy,
        {
            let y = bottom_y + dy;
            let m = shape.mask_at(left_x, dy);
            self.masked_grid[y] = self.masked_grid[y] | m;
            dy = dy + 1;
        }
        let ghost g1 = self.masked_grid@;
        proof {
            assert forall|x: int, y: int|
                0 <= x < self.width && 0 <= y < self.height implies (occupied(g1, x, y) <==> (
            occupied(old_grid, x, y) || covers_cell(*shape, x0, y0, x, y))) by {
                if y0 <= y < y0 + shape.height {
                    let d = y - y0;
                    lemma_merge_bits(old_grid[y], shape.masks@[d] >> left_x, (63 - x) as u64);
                    lemma_shifted_mask_bits(*shape, d, left_x as u64, (63 - x) as u64);
                    assert(bit64(shape.masks@[d] >> (left_x as u64), (63 - x) as u64)
                        <==> mask_covers_shifted(*shape, d, x0, (63 - x) as u64));
                    assert(g1[y] == old_grid[y] | (shape.masks@[d] >> left_x));
                } else {
                    assert(g1[y] == old_grid[y]);
                    assert(!covers_cell(*shape, x0, y0, x, y)) by {
                        assert(shape.coords@[0].1 < shape.height);
                        assert(shape.coords@[1].1 < shape.height);
                        assert(shape.coords@[2].1 < shape.height);
                        assert(shape.coords@[3].1 < shape.height);
                    }
                }
            }
        }
        // credit a touchpoint to each neighbor of each new cell
        let ghost tp0 = self.touchpoints@;
        let mut k: usize = 0;
        while k < 4
            invariant
                k <= 4,
                variant_wf(*shape),
                left_x + shape.width <= self.width,
                bottom_y + shape.height <= self.height,
                self.width == old(self).width,
                self.height == old(self).height,
                1 <= self.width <= 64,
                1 <= self.height,
                self.masked_grid@ == g1,
                self.totems == old(self).totems,
                self.first_unset_y_at_x == old(self).first_unset_y_at_x,
                old(self).wf(),
                tp0 == old(self).tp(),
                self.totems@.len() < 1024,
                self.touchpoints@.len() == self.height,
                forall|y: int|
                    0 <= y < self.height ==> (#[trigger] self.touchpoints@[y])@.len() == self.width,
                forall|y: int, x: int|
                    0 <= y < self.height && 0 <= x < self.width
                        ==> #[trigger] self.touchpoints@[y]@[x] == tp0[y]@[x] + nb_prefix(
                        *shape,
                        left_x as int,
                        bottom_y as int,
                        x,
                        y,
                        k as int,
                    ),
            decreases 4 - k,
        {
            let (cx0, cy0) = shape.coords[k];
            proof {
                assert(crate::shape_info::cell_in_box(*shape, k as int));
            }
            let cx = left_x + cx0;
            let cy = bottom_y + cy0;
            let ghost tps = self.touchpoints@;
            proof {
                assert(forall|y: int, x: int|
                    0 <= y < self.height && 0 <= x < self.width ==> tp0[y]@[x] <= 104 + 4 * 1023);
                assert(forall|y: int, x: int|
                    0 <= y < self.height && 0 <= x < self.width
                        ==> #[trigger] self.touchpoints@[y]@[x] <= 104 + 4 * 1023 + 4);
            }
            if cy > 0 {
                let t = self.touchpoints[cy - 1][cx];
                self.touchpoints[cy - 1][cx] = t + 1;
            }
            if cy + 1 < self.height {
                let t = self.touchpoints[cy + 1][cx];
                self.touchpoints[cy + 1][cx] = t + 1;
            }
            if cx > 0 {
                let t = self.touchpoints[cy][cx - 1];
                self.touchpoints[cy][cx - 1] = t + 1;
            }
            if cx + 1 < self.width {
                let t = self.touchpoints[cy][cx + 1];
                self.touchpoints[cy][cx + 1] = t + 1;
            }
            proof {
                assert forall|y: int, x: int|
                    0 <= y < self.height && 0 <= x < self.width implies
                    #[trigger] self.touchpoints@[y]@[x] == tps[y]@[x] + nb1(
                    left_x as int,
                    bottom_y as int,
                    shape.coords@[k as int],
                    x,
                    y,
                ) by {}
                assert forall|y: int, x: int|
                    0 <= y < self.height && 0 <= x < self.width implies
                    #[trigger] self.touchpoints@[y]@[x] == tp0[y]@[x] + nb_prefix(
                    *shape,
                    left_x as int,
                    bottom_y as int,
                    x,
                    y,
                    k + 1,
                ) by {}
            }
            k = k + 1;
        }
        let ghost tp1 = self.touchpoints@;
        proof {
            assert(forall|y: int, x: int|
                0 <= y < self.height && 0 <= x < self.width ==> #[trigger] tp1[y]@[x] == tp0[y]@[x]
                    + nb_count(*shape, left_x as int, bottom_y as int, x, y));
        }
        // advance the column cursors past the newly filled cells
        let mut k2: usize = 0;
        while k2 < 4
            invariant
                k2 <= 4,
                variant_wf(*shape),
                left_x + shape.width <= self.width,
                bottom_y + shape.height <= self.height,
                self.width == old(self).width,
                self.height == old(self).height,
                1 <= self.width <= 64,
                1 <= self.height,
                self.height + 3 <= usize::MAX,
                self.masked_grid@ == g1,
                self.masked_grid@.len() == self.height + 3,
                self.totems == old(self).totems,
                self.touchpoints@ == tp1,
                self.touchpoints@.len() == self.height,
                forall|y: int|
                    0 <= y < self.height ==> (#[trigger] self.touchpoints@[y])@.len() == self.width,
                old(self).wf(),
                forall|x: int, y: int|
                    0 <= x < self.width && 0 <= y < self.height ==> (occupied(g1, x, y) <==> (
                    occupied(old_grid, x, y) || covers_cell(*shape, left_x as int, bottom_y as int, x, y))),
                self.first_unset_y_at_x@.len() == self.width,
                forall|x: int| 0 <= x < self.width ==> #[trigger] self.first_unset_y_at_x@[x] <= self.height,
                forall|x: int, y: int|
                    0 <= x < self.width && 0 <= y < self.first_unset_y_at_x@[x] ==> occupied(
                        g1,
                        x,
                        y,
                    ),
                forall|x: int|
                    0 <= x < self.width && self.first_unset_y_at_x@[x] < self.height ==> (!occupied(
                        g1,
                        x,
                        (#[trigger] self.first_unset_y_at_x@[x]) as int,
                    ) || pending_cell(
                        *shape,
                        left_x as int,
                        bottom_y as int,
                        k2 as int,
                        x,
                        self.first_unset_y_at_x@[x] as int,
                    )),
            decreases 4 - k2,
        {
            let (cx0, cy0) = shape.coords[k2];
            proof {
                assert(crate::shape_info::cell_in_box(*shape, k2 as int));
            }
            let x = left_x + cx0;
            let y = bottom_y + cy0;
            let mut unset_y = self.first_unset_y_at_x[x];
            if unset_y == y {
                loop
                    invariant
                        self.width == old(self).width,
                        self.height == old(self).height,
                        1 <= self.width <= 64,
                        1 <= self.height,
                        self.height + 3 <= usize::MAX,
                        self.masked_grid@ == g1,
                        self.masked_grid@.len() == self.height + 3,
                        x < self.width,
                        unset_y <= self.height,
                        forall|yy: int| 0 <= yy < unset_y ==> occupied(g1, x as int, yy),
                        self.touchpoints@.len() == self.height,
                        forall|yv: int|
                            0 <= yv < self.height ==> (#[trigger] self.touchpoints@[yv])@.len()
                                == self.width,
                        self.first_unset_y_at_x@.len() == self.width,
                    ensures
                        unset_y <= self.height,
                        forall|yy: int| 0 <= yy < unset_y ==> occupied(g1, x as int, yy),
                        unset_y == self.height || !occupied(g1, x as int, unset_y as int),
                        self.masked_grid@ == g1,
                        self.width == old(self).width,
                        self.height == old(self).height,
                        self.first_unset_y_at_x@.len() == self.width,
                    decreases self.height - unset_y,
                {
                    if !(unset_y < self.height && self.is_set(x, unset_y)) {
                        break ;
                    }
                    unset_y = unset_y + 1;
                }
                self.first_unset_y_at_x[x] = unset_y;
            }
            k2 = k2 + 1;
        }
        // append the placement to the log
        let placed = shape.offset_by(left_x, bottom_y);
        let ghost old_log = self.totems@;
        self.totems.push(TotemAnswer::new(placed.shape, placed.coords));
        proof {
            let new_log = self.totems@;
            let ta = new_log.last();
            assert(new_log.drop_last() =~= old_log);
            // the new cells are exactly what covers_cell describes
            assert forall|x: int, y: int|
                0 <= x < self.width && 0 <= y < self.height implies (log_covers(new_log, x, y)
                <==> (log_covers(old_log, x, y) || covers_cell(
                *shape,
                left_x as int,
                bottom_y as int,
                x,
                y,
            ))) by {
                if log_covers(new_log, x, y) {
                    let (p, kk) = choose|p: int, kk: int|
                        0 <= p < new_log.len() && 0 <= kk < 4 && (
                        #[trigger] new_log[p].coordinates@[kk]).0 == x
                            && new_log[p].coordinates@[kk].1 == y;
                    if p < old_log.len() {
                        assert(old_log[p] == new_log[p]);
                        assert(log_covers(old_log, x, y));
                    } else {
                        assert(covers_cell(*shape, left_x as int, bottom_y as int, x, y));
                    }
                }
                if log_covers(old_log, x, y) {
                    let (p, kk) = choose|p: int, kk: int|
                        0 <= p < old_log.len() && 0 <= kk < 4 && (
                        #[trigger] old_log[p].coordinates@[kk]).0 == x
                            && old_log[p].coordinates@[kk].1 == y;
                    assert(new_log[p] == old_log[p]);
                    assert(log_covers(new_log, x, y));
                }
                if covers_cell(*shape, left_x as int, bottom_y as int, x, y) {
                    assert(ta.coordinates@[0].0 == left_x + shape.coords@[0].0);
                    assert(ta.coordinates@[1].0 == left_x + shape.coords@[1].0);
                    assert(ta.coordinates@[2].0 == left_x + shape.coords@[2].0);
                    assert(ta.coordinates@[3].0 == left_x + shape.coords@[3].0);
                    assert(log_covers(new_log, x, y)) by {
                        if left_x + shape.coords@[0].0 == x && bottom_y + shape.coords@[0].1 == y {
                            assert(new_log[new_log.len() - 1].coordinates@[0].0 == x
                                && new_log[new_log.len() - 1].coordinates@[0].1 == y);
                        } else if left_x + shape.coords@[1].0 == x && bottom_y + shape.coords@[1].1
                            == y {
                            assert(new_log[new_log.len() - 1].coordinates@[1].0 == x
                                && new_log[new_log.len() - 1].coordinates@[1].1 == y);
                        } else if left_x + shape.coords@[2].0 == x && bottom_y + shape.coords@[2].1
                            == y {
                            assert(new_log[new_log.len() - 1].coordinates@[2].0 == x
                                && new_log[new_log.len() - 1].coordinates@[2].1 == y);
                        } else {
                            assert(new_log[new_log.len() - 1].coordinates@[3].0 == x
                                && new_log[new_log.len() - 1].coordinates@[3].1 == y);
                        }
                    }
                }
            }
            // the log's cells stay pairwise distinct
            assert(cells_disjoint(new_log)) by {
                assert forall|p1: int, k1: int, p2: int, k2a: int|
                    0 <= p1 < new_log.len() && 0 <= k1 < 4 && 0 <= p2 < new_log.len() && 0 <= k2a
                        < 4 && (p1 != p2 || k1 != k2a) implies #[trigger] new_log[p1].coordinates@[k1]
                    != #[trigger] new_log[p2].coordinates@[k2a] by {
                    if p1 < old_log.len() && p2 < old_log.len() {
                        assert(new_log[p1] == old_log[p1] && new_log[p2] == old_log[p2]);
                        assert(cells_disjoint(old_log));
                    } else if p1 == old_log.len() && p2 == old_log.len() {
                        assert(shape.coords@[k1] != shape.coords@[k2a]);
                    } else if p1 == old_log.len() {
                        // new cell against an old cell: the new cell was free
                        assert(new_log[p2] == old_log[p2]);
                        let c2 = old_log[p2].coordinates@[k2a];
                        assert(log_covers(old_log, c2.0 as int, c2.1 as int));
                        assert(occupied(old_grid, c2.0 as int, c2.1 as int));
                        let c1 = new_log[p1].coordinates@[k1];
                        assert(!occupied(old_grid, c1.0 as int, c1.1 as int)) by {
                            assert(fits_spec(old_grid, *shape, left_x as int, bottom_y as int));
                        }
                    } else {
                        assert(new_log[p1] == old_log[p1]);
                        let c1 = old_log[p1].coordinates@[k1];
                        assert(log_covers(old_log, c1.0 as int, c1.1 as int));
                        assert(occupied(old_grid, c1.0 as int, c1.1 as int));
                        let c2 = new_log[p2].coordinates@[k2a];
                        assert(!occupied(old_grid, c2.0 as int, c2.1 as int)) by {
                            assert(fits_spec(old_grid, *shape, left_x as int, bottom_y as int));
                        }
                    }
                }
            }
            assert(coords_in_bounds(new_log, self.width as int, self.height as int)) by {
                assert(forall|p: int|
                    0 <= p < old_log.len() ==> #[trigger] new_log[p] == old_log[p]);
            }
            assert(self.dims_wf());
            assert(self.fu_wf()) by {
                assert(forall|x: int, fy: int|
                    !pending_cell(*shape, left_x as int, bottom_y as int, 4, x, fy));
            }
            assert(self.log_wf()) by {
                assert(forall|x: int, y: int|
                    0 <= x < self.width && 0 <= y < self.height ==> (occupied(self.masked_grid@, x, y)
                        <==> log_covers(self.totems@, x, y)));
                assert(new_log.len() == old_log.len() + 1 <= 1024);
                assert forall|y: int, x: int|
                    0 <= y < self.spec_height() && 0 <= x < self.spec_width() implies
                    #[trigger] self.tp()[y]@[x] == base_tp(self.spec_width(), self.spec_height(), x, y)
                    + occ_nb(self.grid(), self.spec_width(), self.spec_height(), x, y) by {
                    lemma_occ_nb_after_mark(
                        old_grid,
                        g1,
                        self.spec_width(),
                        self.spec_height(),
                        *shape,
                        left_x as int,
                        bottom_y as int,
                        x,
                        y,
                    );
                    assert(self.tp()[y]@[x] == tp0[y]@[x] + nb_count(
                        *shape,
                        left_x as int,
                        bottom_y as int,
                        x,
                        y,
                    ));
                    assert(old(self).tp()[y]@[x] == base_tp(self.spec_width(), self.spec_height(), x, y)
                        + occ_nb(old_grid, self.spec_width(), self.spec_height(), x, y));
                }
                assert forall|y: int, x: int|
                    0 <= y < self.height && 0 <= x < self.width implies
                    #[trigger] self.touchpoints@[y]@[x] <= 104 + 4 * self.totems@.len() by {
                    assert(self.touchpoints@ == tp1);
                    assert(tp1[y]@[x] == tp0[y]@[x] + nb_count(
                        *shape,
                        left_x as int,
                        bottom_y as int,
                        x,
                        y,
                    ));
                    assert(nb_count(*shape, left_x as int, bottom_y as int, x, y) <= 4);
                    assert(tp0[y]@[x] <= 104 + 4 * old_log.len());
                }
            }
        }
    }
}

impl Board {
    /// Total touchpoints of the four cells `shape` would cover at
    /// (left_x, bottom_y).
    pub fn num_touchpoints(&self, shape: &ShapeVariant, left_x: usize, bottom_y: usize) -> (r:
        u32)
        requires
            self.wf(),
            variant_wf(*shape),
            left_x + shape.width <= self.spec_width(),
            bottom_y + shape.height <= self.spec_height(),
        ensures
            r == self.tp()[bottom_y + shape.coords@[0].1]@[left_x + shape.coords@[0].0] + self.tp()[bottom_y + shape.coords@[1].1]@[left_x + shape.coords@[1].0] + self.tp()[bottom_y + shape.coords@[2].1]@[left_x + shape.coords@[2].0] + self.tp()[bottom_y + shape.coords@[3].1]@[left_x + shape.coords@[3].0],
    {
        let mut total: u32 = 0;
        let mut k: usize = 0;
        while k < 4
            invariant
                k <= 4,
                self.wf(),
                variant_wf(*shape),
                left_x + shape.width <= self.spec_width(),
                bottom_y + shape.height <= self.spec_height(),
                total == (if k > 0 { self.tp()[bottom_y + shape.coords@[0].1]@[left_x + shape.coords@[0].0] as int } else { 0int }) + (if k > 1 { self.tp()[bottom_y + shape.coords@[1].1]@[left_x + shape.coords@[1].0] as int } else { 0int }) + (if k > 2 { self.tp()[bottom_y + shape.coords@[2].1]@[left_x + shape.coords@[2].0] as int } else { 0int }) + (if k > 3 { self.tp()[bottom_y + shape.coords@[3].1]@[left_x + shape.coords@[3].0] as int } else { 0int }),
            decreases 4 - k,
        {
            let (cx0, cy0) = shape.coords[k];
            proof {
                assert(crate::shape_info::cell_in_box(*shape, k as int));
                assert(self.tp()[bottom_y + cy0]@[left_x + cx0] <= 104 + 4 * 1024);
            }
            let x = left_x + cx0;
            let y = bottom_y + cy0;
            total = total + self.touchpoints[y][x];
            k = k + 1;
        }
        total
    }

    /// Lowest y at which `shape` could possibly sit at column `left_x`,
    /// from the column cursors: below it, some cell is already occupied.
    pub fn min_y_for_shape(&self, shape: &ShapeVariant, left_x: usize) -> (r: usize)
        requires
            self.wf(),
            variant_wf(*shape),
            left_x + shape.width <= self.spec_width(),
        ensures
            r <= self.spec_height(),
            forall|y2: int|
                0 <= y2 < r ==> !fits_spec(self.grid(), *shape, left_x as int, y2),
    {
        let mut min_y: usize = 0;
        let mut k: usize = 0;
        while k < 4
            invariant
                k <= 4,
                self.wf(),
                variant_wf(*shape),
                left_x + shape.width <= self.spec_width(),
                min_y <= self.spec_height(),
                forall|y2: int|
                    0 <= y2 < min_y ==> !fits_spec(self.grid(), *shape, left_x as int, y2),
            decreases 4 - k,
        {
            let (cx0, cy0) = shape.coords[k];
            proof {
                assert(crate::shape_info::cell_in_box(*shape, k as int));
            }
            let x = left_x + cx0;
            let fu = self.first_unset_y_at_x[x];
            if fu > min_y + cy0 {
                min_y = fu - cy0;
                proof {
                    assert forall|y2: int|
                        0 <= y2 < min_y implies !fits_spec(
                        self.grid(),
                        *shape,
                        left_x as int,
                        y2,
                    ) by {
                        assert(y2 + cy0 < fu);
                        assert(occupied(self.grid(), x as int, y2 + cy0));
                        assert(!cell_free(self.grid(), left_x as int, y2, shape.coords@[k as int]));
                    }
                }
            }
            k = k + 1;
        }
        min_y
    }

    /// First y at or above the column cursors where `shape` fits at
    /// column `left_x`, if any; writes it to `out_y` and reports success.
    pub fn move_first_fit_above(&self, shape: &ShapeVariant, left_x: usize, out_y: &mut usize) -> (r:
        bool)
        requires
            self.wf(),
            variant_wf(*shape),
            left_x + shape.width <= self.spec_width(),
        ensures
            r ==> *final(out_y) + shape.height <= self.spec_height() && fits_spec(
                self.grid(),
                *shape,
                left_x as int,
                *final(out_y) as int,
            ) && forall|y2: int|
                0 <= y2 < *final(out_y) ==> !fits_spec(self.grid(), *shape, left_x as int, y2),
            !r ==> (forall|y2: int|
                0 <= y2 && y2 + shape.height <= self.spec_height() ==> !fits_spec(
                    self.grid(),
                    *shape,
                    left_x as int,
                    y2,
                )) && *final(out_y) == *old(out_y),
    {
        if shape.height > self.height {
            return false;
        }
        let min_y = self.min_y_for_shape(shape, left_x);
        let mut y = min_y;
        while y < self.height + 1 - shape.height
            invariant
                self.wf(),
                variant_wf(*shape),
                left_x + shape.width <= self.spec_width(),
                shape.height <= self.spec_height(),
                min_y <= y,
                forall|y2: int|
                    0 <= y2 < y ==> !fits_spec(self.grid(), *shape, left_x as int, y2),
                *out_y == *old(out_y),
            decreases self.spec_height() + 1 - shape.height - y,
        {
            if self.fits(shape, left_x, y) {
                *out_y = y;
                return true;
            }
            y = y + 1;
        }
        false
    }
}

/// One candidate placement found during an enumeration pass.
#[derive(Clone, Copy)]
struct Placement {
    totem: Totem,
    rotation_index: usize,
    x: usize,
    y: usize,
}

/// The candidate is consistent with the board and the remaining bag: its
/// rotation exists, its piece is available, and it fits where it points.
spec fn option_ok(b: Board, bag: TotemBag, o: Placement) -> bool {
    &&& o.rotation_index < rotations_spec(o.totem).len()
    &&& bag.0@[totem_index_spec(o.totem)] > 0
    &&& o.x + rotations_spec(o.totem)[o.rotation_index as int].width <= b.spec_width()
    &&& o.y + rotations_spec(o.totem)[o.rotation_index as int].height <= b.spec_height()
    &&& fits_spec(
        b.grid(),
        rotations_spec(o.totem)[o.rotation_index as int],
        o.x as int,
        o.y as int,
    )
}

/// One randomized greedy pass: repeatedly place, among all candidate
/// placements, one with the most touchpoints, chosen at random among the
/// ties, until the bag is empty or no candidate is left.
pub fn try_gravity_greedy_fit(board: &mut Board, bag: TotemBag) -> (r: Option<Vec<TotemAnswer>>)
    requires
        old(board).wf(),
        old(board).log().len() == 0,
        bag_total(bag.0@) <= 1024,
    ensures
        r matches Some(ans) ==> answer_valid(
            ans@,
            bag.0@,
            old(board).spec_width(),
            old(board).spec_height(),
        ),
        bag_total(bag.0@) == 0 ==> (r matches Some(ans) && ans@.len() == 0),
{
    let ghost bag0 = bag.0@;
    let mut remaining = bag;
    loop
        invariant
            board.wf(),
            board.spec_width() == old(board).spec_width(),
            board.spec_height() == old(board).spec_height(),
            remaining.0@.len() == 7,
            bag0.len() == 7,
            bag0 == bag.0@,
            forall|i: int|
                0 <= i < 7 ==> bag0[i] == remaining.0@[i] + shape_count(
                    placement_shapes(board.log()),
                    i,
                ),
            board.log().len() + bag_total(remaining.0@) == bag_total(bag0),
            bag_total(bag0) <= 1024,
        decreases bag_total(remaining.0@),
    {
        proof {
            lemma_bag_total_bounds(remaining.0@);
        }
        let shapes_left = remaining.total();
        if shapes_left == 0 {
            proof {
                assert(forall|i: int| 0 <= i < 7 ==> remaining.0@[i] == 0);
                assert(forall|i: int|
                    0 <= i < 7 ==> bag0[i] == shape_count(placement_shapes(board.log()), i));
            }
            let ans = board.placements_vec();
            proof {
                assert(ans@ == board.log());
                assert forall|i: int| 0 <= i < 7 implies shape_count(placement_shapes(ans@), i)
                    == bag0[i] by {
                    assert(bag0[i] == remaining.0@[i] + shape_count(placement_shapes(board.log()), i));
                    assert(placement_shapes(ans@) == placement_shapes(board.log()));
                }
            }
            if ans.len() == 0 {
                proof {
                    assert(bag_total(bag0) == board.log().len() + bag_total(remaining.0@) == 0);
                }
                return Some(ans);
            }
            if board.is_set(0, 0) {
                proof {
                    assert(log_covers(board.log(), 0, 0));
                    let (p, k) = choose|p: int, k: int|
                        0 <= p < board.log().len() && 0 <= k < 4 && (
                        #[trigger] board.log()[p].coordinates@[k]).0 == 0
                            && board.log()[p].coordinates@[k].1 == 0;
                    assert(board.log()[p].coordinates@[k] == (0usize, 0usize));
                    assert(covers_origin(ans@));
                }
                return Some(ans);
            }
            return None;
        }
        let mut options: Vec<Placement> = Vec::new();
        let mut max_tp: u32 = 0;
        let mut ti: usize = 0;
        while ti < 7
            invariant
                ti <= 7,
                board.wf(),
                remaining.0@.len() == 7,
                forall|oi: int|
                    0 <= oi < options@.len() ==> option_ok(*board, remaining, #[trigger] options@[oi]),
            decreases 7 - ti,
        {
            if remaining.0[ti] > 0 {
                let totem = Totem::from_index(ti);
                let rotations = totem.get_rotations();
                let mut ri: usize = 0;
                while ri < rotations.len()
                    invariant
                        ri <= rotations@.len(),
                        board.wf(),
                        remaining.0@.len() == 7,
                        ti < 7,
                        totem == crate::game_interface::totem_of_index_spec(ti as int),
                        totem_index_spec(totem) == ti,
                        remaining.0@[ti as int] > 0,
                        rotations@ == rotations_spec(totem),
                        forall|oi: int|
                            0 <= oi < options@.len() ==> option_ok(
                                *board,
                                remaining,
                                #[trigger] options@[oi],
                            ),
                    decreases rotations@.len() - ri,
                {
                    let variant = &rotations[ri];
                    proof {
                        lemma_catalog_wf(totem, ri as int);
                    }
                    if variant.width <= board.width() {
                        let upper = board.width() + 1 - variant.width;
                        let mut x: usize = 0;
                        while x < upper
                            invariant
                                x <= upper,
                                board.wf(),
                                remaining.0@.len() == 7,
                                ti < 7,
                                totem_index_spec(totem) == ti,
                                remaining.0@[ti as int] > 0,
                                rotations@ == rotations_spec(totem),
                                ri < rotations@.len(),
                                variant == &rotations@[ri as int],
                                variant_wf(*variant),
                                upper + variant.width == board.spec_width() + 1,
                                forall|oi: int|
                                    0 <= oi < options@.len() ==> option_ok(
                                        *board,
                                        remaining,
                                        #[trigger] options@[oi],
                                    ),
                            decreases upper - x,
                        {
                            let mut y: usize = 0;
                            if board.move_first_fit_above(variant, x, &mut y) {
                                let tp = board.num_touchpoints(variant, x, y);
                                if tp > max_tp {
                                    max_tp = tp;
                                    options.clear();
                                }
                                if tp == max_tp {
                                    options.push(
                                        Placement { totem, rotation_index: ri, x, y },
                                    );
                                }
                            }
                            x = x + 1;
                        }
                    }
                    ri = ri + 1;
                }
            }
            ti = ti + 1;
        }
        if options.len() == 0 {
            return None;
        }
        let pick = rand_index(options.len());
        let placement = options[pick];
        let rotations2 = placement.totem.get_rotations();
        let variant = &rotations2[placement.rotation_index];
        proof {
            lemma_catalog_wf(placement.totem, placement.rotation_index as int);
            assert(board.log().len() + 1 <= bag_total(bag0));
        }
        let ghost pre_log = board.log();
        board.mark(variant, placement.x, placement.y);
        let tidx = placement.totem.as_index();
        let ghost pre_bag = remaining.0@;
        let cnt = remaining.0[tidx];
        remaining.0[tidx] = cnt - 1;
        proof {
            lemma_bag_total_update(pre_bag, tidx as int, (cnt - 1) as usize);
            assert(placement_shapes(board.log()) =~= placement_shapes(pre_log).push(
                placement.totem,
            )) by {
                assert(board.log().drop_last() =~= pre_log);
                assert(board.log().last().shape == placement.totem);
                assert(forall|i: int|
                    0 <= i < pre_log.len() ==> #[trigger] board.log()[i] == pre_log[i]);
            }
            lemma_shape_count_push(placement_shapes(pre_log), placement.totem);
        }
    }
}

/// The greedy touchpoint solver: many independent randomized passes.
#[derive(Clone, Copy)]
pub struct GreedySolver {}

impl GreedySolver {
    /// Build the solver.
    pub fn new() -> (r: GreedySolver) {
        GreedySolver {  }
    }

    /// Try to pack the bag into a width-by-height box, greedily, with
    /// repeated attempts; any returned placement list is a valid solution.
    pub fn try_solve(&self, width: usize, height: usize, bag: &TotemBag) -> (r: Option<
        Vec<TotemAnswer>,
    >)
        requires
            1 <= width <= 64,
            1 <= height,
            height + 3 <= usize::MAX,
            bag_total(bag.0@) <= 1024,
        ensures
            r matches Some(ans) ==> answer_valid(ans@, bag.0@, width as int, height as int),
            bag_total(bag.0@) == 0 ==> (r matches Some(ans) && ans@.len() == 0),
    {
        let num_totems = bag.total();
        let attempts: usize = if num_totems < 256 {
            1000
        } else {
            100
        };
        let mut a: usize = 0;
        while a < attempts
            invariant
                a <= attempts,
                1 <= width <= 64,
                1 <= height,
                height + 3 <= usize::MAX,
                bag_total(bag.0@) <= 1024,
                a > 0 ==> bag_total(bag.0@) >= 1,
            decreases attempts - a,
        {
            let mut board = Board::new(width, height, num_totems);
            let sln = try_gravity_greedy_fit(&mut board, *bag);
            match sln {
                Some(ans) => {
                    return Some(ans);
                },
                None => {},
            }
            proof {
                // an empty bag is packed by the very first attempt
                lemma_bag_total_bounds(bag.0@);
                assert(bag_total(bag.0@) >= 1);
            }
            a = a + 1;
        }
        None
    }
}

} // verus!
