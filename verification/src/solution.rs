//! What it means for a placement list to solve a question: the shape counts
//! match the bag, no cell is used twice, every cell lies inside the target
//! box, and the cell (0, 0) is covered. Also an executable checker that
//! decides this exactly.

use vstd::prelude::*;

use crate::game_interface::{bag_total, shape_count, Totem, TotemAnswer};

verus! {

/// The shapes of a placement list, in order.
pub open spec fn placement_shapes(ans: Seq<TotemAnswer>) -> Seq<Totem> {
    ans.map_values(|a: TotemAnswer| a.shape)
}

/// Every coordinate of every placement lies inside the w-by-h box.
pub open spec fn coords_in_bounds(ans: Seq<TotemAnswer>, w: int, h: int) -> bool {
    forall|p: int, k: int|
        0 <= p < ans.len() && 0 <= k < 4 ==> (#[trigger] ans[p].coordinates@[k]).0 < w
            && ans[p].coordinates@[k].1 < h
}

/// No coordinate pair appears in two placement slots.
pub open spec fn cells_disjoint(ans: Seq<TotemAnswer>) -> bool {
    forall|p1: int, k1: int, p2: int, k2: int|
        0 <= p1 < ans.len() && 0 <= k1 < 4 && 0 <= p2 < ans.len() && 0 <= k2 < 4 && (p1 != p2 || k1
            != k2) ==> #[trigger] ans[p1].coordinates@[k1] != #[trigger] ans[p2].coordinates@[k2]
}

/// Some placement covers the cell (0, 0).
pub open spec fn covers_origin(ans: Seq<TotemAnswer>) -> bool {
    exists|p: int, k: int|
        0 <= p < ans.len() && 0 <= k < 4 && (#[trigger] ans[p].coordinates@[k]) == (0usize, 0usize)
}

/// The multiset of shapes of the placements equals the bag.
pub open spec fn shapes_match_bag(ans: Seq<TotemAnswer>, bag: Seq<usize>) -> bool {
    forall|i: int| 0 <= i < 7 ==> shape_count(placement_shapes(ans), i) == bag[i]
}

/// A placement list is a valid solution for `bag` inside a w-by-h box.
pub open spec fn answer_valid(ans: Seq<TotemAnswer>, bag: Seq<usize>, w: int, h: int) -> bool {
    &&& shapes_match_bag(ans, bag)
    &&& coords_in_bounds(ans, w, h)
    &&& cells_disjoint(ans)
    &&& (bag_total(bag) > 0 ==> covers_origin(ans))
}

/// A placement list solves `bag` regardless of any box: counts match,
/// no cell is reused, and (0, 0) is covered when there are pieces.
pub open spec fn answer_valid_for_bag(ans: Seq<TotemAnswer>, bag: Seq<usize>) -> bool {
    &&& shapes_match_bag(ans, bag)
    &&& cells_disjoint(ans)
    &&& (bag_total(bag) > 0 ==> covers_origin(ans))
}

/// A solution valid inside some box is valid for its bag.
pub proof fn lemma_answer_valid_weaken(ans: Seq<TotemAnswer>, bag: Seq<usize>, w: int, h: int)
    requires
        answer_valid(ans, bag, w, h),
    ensures
        answer_valid_for_bag(ans, bag),
{
}

/// Decides `answer_valid` exactly, by replaying the placements on a grid
/// of booleans and tallying shapes.
pub fn check_answer(ans: &Vec<TotemAnswer>, bag: &crate::game_interface::TotemBag, w: usize, h: usize) -> (r:
    bool)
    requires
        1 <= w <= 64,
        1 <= h <= 1000000,
        bag_total(bag.0@) <= usize::MAX,
    ensures
        r == answer_valid(ans@, bag.0@, w as int, h as int),
{
    let mut grid: Vec<Vec<bool>> = Vec::new();
    let mut y: usize = 0;
    while y < h
        invariant
            y <= h,
            grid@.len() == y,
            forall|yy: int| 0 <= yy < y ==> (#[trigger] grid@[yy])@.len() == w,
            forall|yy: int, xx: int|
                0 <= yy < y && 0 <= xx < w ==> !(#[trigger] grid@[yy]@[xx]),
        decreases h - y,
    {
        let mut row: Vec<bool> = Vec::new();
        let mut x: usize = 0;
        while x < w
            invariant
                x <= w,
                row@.len() == x,
                forall|xx: int| 0 <= xx < x ==> !(#[trigger] row@[xx]),
            decreases w - x,
        {
            row.push(false);
            x = x + 1;
        }
        grid.push(row);
        y = y + 1;
    }
    let mut counts = crate::game_interface::TotemBag::new();
    let mut origin = false;
    let mut p: usize = 0;
    while p < ans.len()
        invariant
            p <= ans@.len(),
            1 <= w <= 64,
            1 <= h <= 1000000,
            grid@.len() == h,
            forall|yy: int| 0 <= yy < h ==> (#[trigger] grid@[yy])@.len() == w,
            // the grid holds exactly the cells of the placements seen so far
            forall|yy: int, xx: int|
                0 <= yy < h && 0 <= xx < w ==> ((#[trigger] grid@[yy]@[xx]) <==> exists|pp: int, kk: int|
                    0 <= pp < p && 0 <= kk < 4 && (#[trigger] ans@[pp].coordinates@[kk]) == (
                    xx as usize,
                    yy as usize,
                )),
            coords_in_bounds(ans@.take(p as int), w as int, h as int),
            cells_disjoint(ans@.take(p as int)),
            origin == covers_origin(ans@.take(p as int)),
            forall|i: int| 0 <= i < 7 ==> counts.0@[i] == shape_count(placement_shapes(ans@.take(p as int)), i),
            forall|i: int| 0 <= i < 7 ==> counts.0@[i] <= p,
        decreases ans@.len() - p,
    {
        let a = &ans[p];
        let ghost prefix = ans@.take(p as int);
        let ghost next_prefix = ans@.take(p as int + 1);
        proof {
            assert(next_prefix.drop_last() =~= prefix);
            assert(next_prefix.last() == ans@[p as int]);
            assert(placement_shapes(next_prefix) =~= placement_shapes(prefix).push(
                ans@[p as int].shape,
            ));
            assert(placement_shapes(next_prefix).drop_last() =~= placement_shapes(prefix));
        }
        let mut k: usize = 0;
        while k < 4
            invariant
                k <= 4,
                p < ans@.len(),
                a == &ans@[p as int],
                1 <= w <= 64,
                1 <= h <= 1000000,
                grid@.len() == h,
                forall|yy: int| 0 <= yy < h ==> (#[trigger] grid@[yy])@.len() == w,
                forall|yy: int, xx: int|
                    0 <= yy < h && 0 <= xx < w ==> ((#[trigger] grid@[yy]@[xx]) <==> exists|
                        pp: int,
                        kk: int,
                    |
                        0 <= pp < p + 1 && 0 <= kk < 4 && (pp < p || kk < k) && (#[trigger] ans@[pp].coordinates@[kk]) == (xx as usize, yy as usize)),
                coords_in_bounds(prefix, w as int, h as int),
                cells_disjoint(prefix),
                forall|kk: int|
                    0 <= kk < k ==> (#[trigger] ans@[p as int].coordinates@[kk]).0 < w
                        && ans@[p as int].coordinates@[kk].1 < h,
                // cells of the current placement so far clash with nothing
                forall|pp: int, kk: int, kk2: int|
                    0 <= pp < p && 0 <= kk < 4 && 0 <= kk2 < k ==> #[trigger] ans@[pp].coordinates@[kk] != #[trigger] ans@[p as int].coordinates@[kk2],
                forall|kk: int, kk2: int|
                    0 <= kk < kk2 < k ==> #[trigger] ans@[p as int].coordinates@[kk]
                        != #[trigger] ans@[p as int].coordinates@[kk2],
                origin == (covers_origin(prefix) || exists|kk: int|
                    0 <= kk < k && (#[trigger] ans@[p as int].coordinates@[kk]) == (0usize, 0usize)),
            decreases 4 - k,
        {
            let (cx, cy) = a.coordinates[k];
            if cx >= w || cy >= h {
                proof {
                    assert(!coords_in_bounds(ans@, w as int, h as int));
                }
                return false;
            }
            if grid[cy][cx] {
                proof {
                    let (pp, kk) = choose|pp: int, kk: int|
                        0 <= pp < p + 1 && 0 <= kk < 4 && (pp < p || kk < k) && (
                        #[trigger] ans@[pp].coordinates@[kk]) == (cx, cy);
                    assert(ans@[pp].coordinates@[kk] == ans@[p as int].coordinates@[k as int]);
                    assert(!cells_disjoint(ans@));
                }
                return false;
            }
            let ghost old_grid = grid@;
            let mut row = grid.remove(cy);
            row.set(cx, true);
            grid.insert(cy, row);
            proof {
                assert(forall|yy: int|
                    0 <= yy < h && yy != cy ==> grid@[yy] == old_grid[yy]);
                assert(grid@[cy as int]@ =~= old_grid[cy as int]@.update(cx as int, true));
            }
            if cx == 0 && cy == 0 {
                origin = true;
            }
            k = k + 1;
        }
        counts.0[a.shape.as_index()] = counts.0[a.shape.as_index()] + 1;
        p = p + 1;
        proof {
            assert(forall|i: int|
                0 <= i < 7 ==> shape_count(placement_shapes(next_prefix), i) == shape_count(
                    placement_shapes(prefix),
                    i,
                ) + if totem_index_spec_of(ans@[p - 1].shape) == i {
                    1int
                } else {
                    0int
                });
            assert(coords_in_bounds(next_prefix, w as int, h as int));
            assert(cells_disjoint(next_prefix)) by {
                assert(forall|pp: int|
                    0 <= pp < next_prefix.len() ==> #[trigger] next_prefix[pp] == ans@[pp]);
            }
            if covers_origin(next_prefix) {
                let (pp, kk) = choose|pp: int, kk: int|
                    0 <= pp < next_prefix.len() && 0 <= kk < 4 && (
                    #[trigger] next_prefix[pp].coordinates@[kk]) == (0usize, 0usize);
                if pp < p - 1 {
                    assert(covers_origin(prefix));
                }
            }
            if origin {
                assert(covers_origin(next_prefix));
            }
        }
    }
    proof {
        assert(ans@.take(ans@.len() as int) =~= ans@);
    }
    let mut i: usize = 0;
    let mut counts_ok = true;
    while i < 7
        invariant
            i <= 7,
            counts.0@.len() == 7,
            bag.0@.len() == 7,
            counts_ok == (forall|j: int| 0 <= j < i ==> counts.0@[j] == bag.0@[j]),
        decreases 7 - i,
    {
        if counts.0[i] != bag.0[i] {
            counts_ok = false;
        }
        i = i + 1;
    }
    if !counts_ok {
        return false;
    }
    let total = bag.total();
    if total > 0 && !origin {
        return false;
    }
    true
}

/// Shorthand used in the checker proof for the shape index.
pub open spec fn totem_index_spec_of(t: Totem) -> int {
    crate::game_interface::totem_index_spec(t)
}

} // verus!
