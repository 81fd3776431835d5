//! Perfect-fit solver built on rectangle packing: find multisets of
//! precomputed rectangles whose costs sum exactly to the bag, then pack
//! those rectangles into the target box with a Monte-Carlo tree search
//! over the MaxRects free-space structure, scoring each candidate move by
//! the mean depth of short random rollouts.

use vstd::prelude::*;

use crate::game_interface::{bag_total, TotemAnswer, TotemBag};
use crate::max_rects::MaxRects;
use crate::rect_inventory::{
    inventory_wf, rect_wf, Rectangle, RectangleInventory, RectangleMetadata,
};
use crate::rng::{rand_bool, rand_index, shuffle_rects};
use crate::solution::{answer_valid, check_answer};
use crate::subset_sum::MultiDimSubsetSumIterator;

verus! {

/// One placed rectangle: its position and its (possibly flipped) handle.
#[derive(Clone, Copy)]
pub struct Placement {
    pub x: usize,
    pub y: usize,
    pub rect: RectangleMetadata,
}

/// Packing state: the free space, what was placed, and what remains.
pub struct State {
    width: usize,
    height: usize,
    free_space: MaxRects,
    placements: Vec<Placement>,
    // Indices into the rectangle list that are left to place.
    indices_to_place: Vec<usize>,
}

pub struct SimulationResult {
    // How many rectangles were placed before getting stuck.
    pub depth: usize,
    pub solution: Option<Vec<Placement>>,
}

/// All placement positions and handles are small enough to convert into
/// absolute piece coordinates without overflow.
pub open spec fn placements_ok(ps: Seq<Placement>, n_rects: int) -> bool {
    forall|i: int|
        0 <= i < ps.len() ==> (#[trigger] ps[i]).rect.index < n_rects && ps[i].x <= 1000000
            && ps[i].y <= 1000000
}

impl State {
    pub closed spec fn wf(&self, n_rects: int, inv_len: int) -> bool {
        &&& self.free_space.wf()
        &&& self.free_space.spec_width() == self.width
        &&& self.free_space.spec_height() == self.height
        &&& 1 <= self.width <= 1000000
        &&& 1 <= self.height <= 1000000
        &&& placements_ok(self.placements@, inv_len)
        &&& forall|i: int|
            0 <= i < self.indices_to_place@.len() ==> (#[trigger] self.indices_to_place@[i])
                < n_rects
    }

    pub closed spec fn remaining(&self) -> int {
        self.indices_to_place@.len() as int
    }

    pub closed spec fn placements_view(&self) -> Seq<Placement> {
        self.placements@
    }

    /// A fresh state: the whole bin free, everything left to place.
    pub fn new(width: usize, height: usize, rectangles: &Vec<RectangleMetadata>) -> (r: State)
        requires
            1 <= width <= 1000000,
            1 <= height <= 1000000,
        ensures
            forall|il: int| #[trigger] r.wf(rectangles@.len() as int, il),
            r.remaining() == rectangles@.len(),
    {
        let mut indices: Vec<usize> = Vec::new();
        let mut i: usize = 0;
        while i < rectangles.len()
            invariant
                i <= rectangles@.len(),
                indices@.len() == i,
                forall|j: int| 0 <= j < i ==> (#[trigger] indices@[j]) < rectangles@.len(),
            decreases rectangles@.len() - i,
        {
            indices.push(i);
            i = i + 1;
        }
        State {
            width,
            height,
            free_space: MaxRects::new(width, height),
            placements: Vec::new(),
            indices_to_place: indices,
        }
    }

    /// A copy of this state.
    fn clone_state(&self) -> (r: State)
        ensures
            r.width == self.width,
            r.height == self.height,
            r.free_space.spec_width() == self.free_space.spec_width(),
            r.free_space.spec_height() == self.free_space.spec_height(),
            r.free_space.free_view() == self.free_space.free_view(),
            r.free_space.placed_view() == self.free_space.placed_view(),
            r.free_space.wf() == self.free_space.wf(),
            r.placements@ == self.placements@,
            r.indices_to_place@ == self.indices_to_place@,
    {
        State {
            width: self.width,
            height: self.height,
            free_space: self.free_space.clone_box(),
            placements: clone_placements(&self.placements),
            indices_to_place: clone_indices(&self.indices_to_place),
        }
    }

    /// Place a rectangle with the bottom-left heuristic, at its lowest
    /// possible position, left-aligned.
    fn bottom_left_place(
        &mut self,
        indices_to_place_idx: usize,
        rect: &RectangleMetadata,
        Ghost(n_rects): Ghost<int>,
        Ghost(inv_len): Ghost<int>,
    ) -> (r: Option<()>)
        requires
            old(self).wf(n_rects, inv_len),
            indices_to_place_idx < old(self).remaining(),
            1 <= rect.dims.width,
            1 <= rect.dims.height,
            rect.index < inv_len,
        ensures
            final(self).wf(n_rects, inv_len),
            r is Some ==> final(self).remaining() == old(self).remaining() - 1,
            r is None ==> final(self).remaining() == old(self).remaining(),
    {
        let pos = self.free_space.bottom_left_insert(rect.dims.width, rect.dims.height);
        match pos {
            None => None,
            Some((x, y)) => {
                self.placements.push(Placement { x, y, rect: *rect });
                self.indices_to_place.swap_remove(indices_to_place_idx);
                proof {
                    assert(forall|i: int|
                        0 <= i < self.indices_to_place@.len()
                            ==> (#[trigger] self.indices_to_place@[i]) < n_rects);
                }
                Some(())
            },
        }
    }

    /// Pick a remaining rectangle at random, flip it half the time if it
    /// is not square, and try to place it either way up.
    fn random_legal_move(
        &mut self,
        rectangles: &Vec<RectangleMetadata>,
        Ghost(inv_len): Ghost<int>,
    ) -> (r: Option<()>)
        requires
            old(self).wf(rectangles@.len() as int, inv_len),
            old(self).remaining() > 0,
            forall|j: int|
                0 <= j < rectangles@.len() ==> 1 <= (#[trigger] rectangles@[j]).dims.width && 1
                    <= rectangles@[j].dims.height && rectangles@[j].index < inv_len,
        ensures
            final(self).wf(rectangles@.len() as int, inv_len),
            r is Some ==> final(self).remaining() == old(self).remaining() - 1,
            r is None ==> final(self).remaining() == old(self).remaining(),
    {
        let i = rand_index(self.indices_to_place.len());
        let rect_index = self.indices_to_place[i];
        let mut rect = rectangles[rect_index];
        if !rect.is_square() && rand_bool() {
            rect.rotate();
        }
        let ghost n_rects = rectangles@.len() as int;
        if self.bottom_left_place(i, &rect, Ghost(n_rects), Ghost(inv_len)).is_some() {
            Some(())
        } else if !rect.is_square() {
            rect.rotate();
            self.bottom_left_place(i, &rect, Ghost(n_rects), Ghost(inv_len))
        } else {
            None
        }
    }

    /// Place random rectangles until stuck or until everything is placed.
    fn simulate(
        &mut self,
        rectangles: &Vec<RectangleMetadata>,
        Ghost(inv_len): Ghost<int>,
    ) -> (r: SimulationResult)
        requires
            old(self).wf(rectangles@.len() as int, inv_len),
            forall|j: int|
                0 <= j < rectangles@.len() ==> 1 <= (#[trigger] rectangles@[j]).dims.width && 1
                    <= rectangles@[j].dims.height && rectangles@[j].index < inv_len,
        ensures
            final(self).wf(rectangles@.len() as int, inv_len),
            r.solution matches Some(ps) ==> placements_ok(ps@, inv_len),
    {
        let mut depth: usize = 0;
        loop
            invariant
                self.wf(rectangles@.len() as int, inv_len),
                forall|j: int|
                    0 <= j < rectangles@.len() ==> 1 <= (#[trigger] rectangles@[j]).dims.width && 1
                        <= rectangles@[j].dims.height && rectangles@[j].index < inv_len,
                depth <= usize::MAX,
            ensures
                self.wf(rectangles@.len() as int, inv_len),
            decreases self.remaining(),
        {
            if self.indices_to_place.len() == 0 {
                break ;
            }
            if self.random_legal_move(rectangles, Ghost(inv_len)).is_none() {
                break ;
            }
            if depth < usize::MAX {
                depth = depth + 1;
            }
        }
        let solution = if self.placements.len() == rectangles.len() {
            Some(clone_placements(&self.placements))
        } else {
            None
        };
        SimulationResult { depth, solution }
    }
}

fn clone_placements(v: &Vec<Placement>) -> (r: Vec<Placement>)
    ensures
        r@ == v@,
{
    let mut r: Vec<Placement> = Vec::new();
    let mut i: usize = 0;
    while i < v.len()
        invariant
            i <= v@.len(),
            r@ =~= v@.take(i as int),
        decreases v@.len() - i,
    {
        r.push(v[i]);
        proof {
            assert(r@ =~= v@.take(i + 1));
        }
        i = i + 1;
    }
    proof {
        assert(v@.take(v@.len() as int) =~= v@);
    }
    r
}

fn clone_indices(v: &Vec<usize>) -> (r: Vec<usize>)
    ensures
        r@ == v@,
{
    let mut r: Vec<usize> = Vec::new();
    let mut i: usize = 0;
    while i < v.len()
        invariant
            i <= v@.len(),
            r@ =~= v@.take(i as int),
        decreases v@.len() - i,
    {
        r.push(v[i]);
        proof {
            assert(r@ =~= v@.take(i + 1));
        }
        i = i + 1;
    }
    proof {
        assert(v@.take(v@.len() as int) =~= v@);
    }
    r
}

/// From placed rectangles, recover the individual pieces: rotate each
/// entry if its handle's dimensions were flipped, and translate.
fn convert_solution(
    placements: &Vec<Placement>,
    inventory: &RectangleInventory,
) -> (r: Vec<TotemAnswer>)
    requires
        inventory_wf(*inventory),
        placements_ok(placements@, inventory.rects().len() as int),
    ensures
        true,
{
    let mut answer: Vec<TotemAnswer> = Vec::new();
    let mut p: usize = 0;
    while p < placements.len()
        invariant
            p <= placements@.len(),
            inventory_wf(*inventory),
            placements_ok(placements@, inventory.rects().len() as int),
        decreases placements@.len() - p,
    {
        let placement = placements[p];
        let entry = inventory.get_rectangle(&placement.rect);
        let rect: Rectangle = if placement.rect.dims.width != entry.dims.width {
            // the handle was rotated
            proof {
                assert(rect_wf(inventory.rects()[placement.rect.index as int]));
            }
            entry.rotate()
        } else {
            entry.clone_rect()
        };
        let mut t: usize = 0;
        while t < rect.totems.len()
            invariant
                t <= rect.totems@.len(),
                rect_wf(rect),
                placement.x <= 1000000,
                placement.y <= 1000000,
            decreases rect.totems@.len() - t,
        {
            let totem = &rect.totems[t];
            proof {
                assert(forall|k: int|
                    0 <= k < 4 ==> (#[trigger] totem.coordinates@[k]).0 < rect.dims.width
                        && totem.coordinates@[k].1 < rect.dims.height);
            }
            answer.push(totem.offset_by(placement.x, placement.y));
            t = t + 1;
        }
        p = p + 1;
    }
    answer
}

/// Monte-Carlo tree search for rectangle packing: commit at every step to
/// the candidate move whose random rollouts reach the greatest mean depth.
fn do_mcts_packing(
    width: usize,
    height: usize,
    rectangles: &Vec<RectangleMetadata>,
    n_rolls: usize,
    Ghost(inv_len): Ghost<int>,
) -> (r: Option<Vec<Placement>>)
    requires
        1 <= width <= 1000000,
        1 <= height <= 1000000,
        1 <= n_rolls <= 100,
        rectangles@.len() <= 10000,
        forall|j: int|
            0 <= j < rectangles@.len() ==> 1 <= (#[trigger] rectangles@[j]).dims.width && 1
                <= rectangles@[j].dims.height && rectangles@[j].index < inv_len,
    ensures
        r matches Some(ps) ==> placements_ok(ps@, inv_len),
{
    let mut state = State::new(width, height, rectangles);
    proof {
        assert(state.wf(rectangles@.len() as int, inv_len));
    }
    loop
        invariant
            state.wf(rectangles@.len() as int, inv_len),
            1 <= n_rolls <= 100,
            rectangles@.len() <= 10000,
            forall|j: int|
                0 <= j < rectangles@.len() ==> 1 <= (#[trigger] rectangles@[j]).dims.width && 1
                    <= rectangles@[j].dims.height && rectangles@[j].index < inv_len,
        decreases state.remaining(),
    {
        let mut best_state: Option<State> = None;
        let mut best_total: usize = 0;
        let mut best_count: usize = 1;
        let n_remaining = state.indices_to_place.len();
        let mut i: usize = 0;
        while i < n_remaining
            invariant
                i <= n_remaining,
                n_remaining == state.remaining(),
                state.wf(rectangles@.len() as int, inv_len),
                1 <= n_rolls <= 100,
                rectangles@.len() <= 10000,
                1 <= best_count <= 101,
                best_total <= 1010000,
                forall|j: int|
                    0 <= j < rectangles@.len() ==> 1 <= (#[trigger] rectangles@[j]).dims.width && 1
                        <= rectangles@[j].dims.height && rectangles@[j].index < inv_len,
                best_state matches Some(b) ==> b.wf(rectangles@.len() as int, inv_len)
                    && b.remaining() == state.remaining() - 1,
            decreases n_remaining - i,
        {
            let rect_index = state.indices_to_place[i];
            let mut rect = rectangles[rect_index];
            let rotations: usize = if rect.is_square() {
                1
            } else {
                2
            };
            let mut rot: usize = 0;
            while rot < rotations
                invariant
                    rot <= rotations,
                    i < n_remaining,
                    n_remaining == state.remaining(),
                    state.wf(rectangles@.len() as int, inv_len),
                    1 <= n_rolls <= 100,
                    rectangles@.len() <= 10000,
                    1 <= best_count <= 101,
                    best_total <= 1010000,
                    1 <= rect.dims.width,
                    1 <= rect.dims.height,
                    rect.index < inv_len,
                    forall|j: int|
                        0 <= j < rectangles@.len() ==> 1 <= (#[trigger] rectangles@[j]).dims.width
                            && 1 <= rectangles@[j].dims.height && rectangles@[j].index < inv_len,
                    best_state matches Some(b) ==> b.wf(rectangles@.len() as int, inv_len)
                        && b.remaining() == state.remaining() - 1,
                decreases rotations - rot,
            {
                let mut current_state = state.clone_state();
                proof {
                    assert(current_state.wf(rectangles@.len() as int, inv_len));
                }
                if current_state.bottom_left_place(
                    i,
                    &rect,
                    Ghost(rectangles@.len() as int),
                    Ghost(inv_len),
                ).is_some() {
                    let mut total: usize = 0;
                    let mut count: usize = 0;
                    let mut roll: usize = 0;
                    while roll < n_rolls
                        invariant
                            roll <= n_rolls,
                            n_rolls <= 100,
                            rectangles@.len() <= 10000,
                            count <= roll,
                            total <= roll * 10000,
                            current_state.wf(rectangles@.len() as int, inv_len),
                            forall|j: int|
                                0 <= j < rectangles@.len() ==> 1 <= (
                                #[trigger] rectangles@[j]).dims.width && 1
                                    <= rectangles@[j].dims.height && rectangles@[j].index
                                    < inv_len,
                        decreases n_rolls - roll,
                    {
                        let mut state_sim = current_state.clone_state();
                        proof {
                            assert(state_sim.wf(rectangles@.len() as int, inv_len));
                        }
                        let result = state_sim.simulate(rectangles, Ghost(inv_len));
                        match result.solution {
                            Some(solution) => {
                                return Some(solution);
                            },
                            None => {},
                        }
                        let d = if result.depth > 10000 {
                            10000
                        } else {
                            result.depth
                        };
                        proof {
                            assert(total + d <= roll * 10000 + 10000 == (roll + 1) * 10000)
                                by (nonlinear_arith)
                                requires
                                    total <= roll * 10000,
                                    d <= 10000,
                            ;
                            assert((roll + 1) * 10000 <= 101 * 10000) by (nonlinear_arith)
                                requires
                                    roll + 1 <= 101,
                            ;
                        }
                        total = total + d;
                        count = count + 1;
                        roll = roll + 1;
                    }
                    if count > 0 {
                        // mean depth comparison by cross-multiplication
                        proof {
                            assert(total * best_count <= 1010000 * 101 && best_total * count
                                <= 1010000 * 101) by (nonlinear_arith)
                                requires
                                    total <= 1010000,
                                    best_total <= 1010000,
                                    count <= 101,
                                    best_count <= 101,
                            ;
                        }
                        if total * best_count > best_total * count {
                            best_total = total;
                            best_count = count;
                            best_state = Some(current_state);
                        }
                    }
                }
                rect.rotate();
                rot = rot + 1;
            }
            i = i + 1;
        }
        match best_state {
            Some(b) => {
                state = b;
            },
            None => {
                return None;
            },
        }
        if state.indices_to_place.len() == 0 {
            return Some(clone_placements(&state.placements));
        }
    }
}

/// The rectangle-packing solver, over a loaded inventory.
pub struct RectPackingSolver {
    pub inventory: RectangleInventory,
}

impl RectPackingSolver {
    /// Build the solver around an inventory.
    pub fn new(inventory: RectangleInventory) -> (r: RectPackingSolver)
        requires
            inventory_wf(inventory),
        ensures
            r.inventory == inventory,
            inventory_wf(r.inventory),
    {
        RectPackingSolver { inventory }
    }

    /// Try to pack the bag exactly into a width-by-height box through
    /// rectangle combinations; any returned placement list is a valid
    /// solution, checked before it is returned.
    pub fn try_solve(&self, width: usize, height: usize, bag: &TotemBag) -> (r: Option<
        Vec<TotemAnswer>,
    >)
        requires
            inventory_wf(self.inventory),
            1 <= width <= 64,
            1 <= height <= 1000000,
            forall|i: int| 0 <= i < 7 ==> bag.0@[i] <= 512,
            bag_total(bag.0@) <= usize::MAX,
        ensures
            r matches Some(ans) ==> answer_valid(ans@, bag.0@, width as int, height as int),
    {
        let mut all_rectangles = self.inventory.available_rectangles(bag);
        let ghost pre_shuffle = all_rectangles@;
        let mut attempt: usize = 0;
        while attempt < 5
            invariant
                attempt <= 5,
                inventory_wf(self.inventory),
                1 <= width <= 64,
                1 <= height <= 1000000,
                forall|i: int| 0 <= i < 7 ==> bag.0@[i] <= 512,
                bag_total(bag.0@) <= usize::MAX,
                forall|j: int|
                    0 <= j < all_rectangles@.len() ==> (#[trigger] all_rectangles@[j]).index
                        < self.inventory.rects().len() && all_rectangles@[j].dims
                        == self.inventory.rects()[all_rectangles@[j].index as int].dims,
            decreases 5 - attempt,
        {
            let ghost before = all_rectangles@;
            shuffle_rects(&mut all_rectangles);
            proof {
                lemma_shuffle_keeps_bounds(
                    before,
                    all_rectangles@,
                    self.inventory.rects(),
                );
            }
            let mut it = MultiDimSubsetSumIterator::new(
                bag,
                &self.inventory,
                &all_rectangles,
                50000,
            );
            let mut taken: usize = 0;
            while taken < 5
                invariant
                    taken <= 5,
                    it.wf(),
                    it.inv_rects() == self.inventory.rects(),
                    inventory_wf(self.inventory),
                    1 <= width <= 64,
                    1 <= height <= 1000000,
                    forall|i: int| 0 <= i < 7 ==> bag.0@[i] <= 512,
                    bag_total(bag.0@) <= usize::MAX,
                decreases 5 - taken,
            {
                let next_sln = it.next(&self.inventory);
                match next_sln {
                    None => {
                        break ;
                    },
                    Some(rectangles_sln) => {
                        if rectangles_sln.len() <= 10000 {
                            proof {
                                assert forall|j: int|
                                    0 <= j < rectangles_sln@.len() implies 1 <= (
                                #[trigger] rectangles_sln@[j]).dims.width && 1
                                    <= rectangles_sln@[j].dims.height && rectangles_sln@[j].index
                                    < self.inventory.rects().len() by {
                                    assert(rect_wf(
                                        self.inventory.rects()[rectangles_sln@[j].index as int],
                                    ));
                                }
                            }
                            let packed = do_mcts_packing(
                                width,
                                height,
                                &rectangles_sln,
                                7,
                                Ghost(self.inventory.rects().len() as int),
                            );
                            match packed {
                                Some(sln) => {
                                    let ans = convert_solution(&sln, &self.inventory);
                                    if check_answer(&ans, bag, width, height) {
                                        return Some(ans);
                                    }
                                },
                                None => {},
                            }
                        }
                    },
                }
                taken = taken + 1;
            }
            attempt = attempt + 1;
        }
        None
    }
}

proof fn lemma_shuffle_keeps_bounds(
    before: Seq<RectangleMetadata>,
    after: Seq<RectangleMetadata>,
    rects: Seq<Rectangle>,
)
    requires
        after.to_multiset() == before.to_multiset(),
        forall|j: int|
            0 <= j < before.len() ==> (#[trigger] before[j]).index < rects.len() && before[j].dims
                == rects[before[j].index as int].dims,
    ensures
        forall|j: int|
            0 <= j < after.len() ==> (#[trigger] after[j]).index < rects.len() && after[j].dims
                == rects[after[j].index as int].dims,
{
    before.to_multiset_ensures();
    after.to_multiset_ensures();
    assert forall|j: int|
        0 <= j < after.len() implies (#[trigger] after[j]).index < rects.len() && after[j].dims
        == rects[after[j].index as int].dims by {
        assert(after.contains(after[j]));
        assert(after.to_multiset().count(after[j]) > 0);
        assert(before.to_multiset().count(after[j]) > 0);
        assert(before.contains(after[j]));
        let k = choose|k: int| 0 <= k < before.len() && before[k] == after[j];
        assert(before[k].index < rects.len());
    }
}

} // verus!
