//! The hybrid dispatcher: for each candidate (width, height) in score
//! order, filter by the minimum dimensions the bag's shapes need, pick a
//! backend by instance size and perfect-fit shape, and fall back to an
//! oversized greedy attempt if every candidate fails.

use vstd::prelude::*;

use crate::exhaustive_solver::ExhaustiveSolver;
use crate::game_interface::{
    bag_total, lemma_bag_total_bounds, lemma_bag_total_explicit, lemma_shape_count_total,
    shape_count, Answer, Question, Totem, TotemAnswer, TotemBag, TotemQuestion,
};
use crate::greedy_solver::GreedySolver;
use crate::rect_inventory::inventory_wf;
use crate::rect_packing_solver::RectPackingSolver;
use crate::scoring::{level_seq_ok, pow2_spec, Dims, OptimalDimensions};
use crate::shape_info::ShapeVariant;
use crate::solution::{
    answer_valid, answer_valid_for_bag, cells_disjoint, covers_origin, lemma_answer_valid_weaken,
    placement_shapes,
};

verus! {

/// The least (width, height) needed by the shapes present among the
/// first `n` shape slots of the bag.
pub open spec fn min_dims_prefix_spec(bag: Seq<usize>, n: int) -> (int, int)
    decreases n,
{
    if n <= 0 {
        (0int, 0int)
    } else {
        let p = min_dims_prefix_spec(bag, n - 1);
        if bag[n - 1] > 0 {
            let d = crate::shape_info::min_dims_spec(
                crate::game_interface::totem_of_index_spec(n - 1),
            );
            (
                if d.0 > p.0 {
                    d.0
                } else {
                    p.0
                },
                if d.1 > p.1 {
                    d.1
                } else {
                    p.1
                },
            )
        } else {
            p
        }
    }
}

/// Minimum dimensions needed to fit the individual totems in the bag,
/// from the smallest-width rotation of each shape present.
pub fn min_dimensions_needed(bag: &TotemBag) -> (r: Dims)
    ensures
        r.0 == min_dims_prefix_spec(bag.0@, 7).0,
        r.1 == min_dims_prefix_spec(bag.0@, 7).1,
        r.0 <= 4,
        r.1 <= 4,
{
    proof {
        lemma_min_dims_prefix_bounds(bag.0@, 7);
    }
    let mut dims: Dims = (0, 0);
    let mut i: usize = 0;
    while i < 7
        invariant
            i <= 7,
            bag.0@.len() == 7,
            dims.0 == min_dims_prefix_spec(bag.0@, i as int).0,
            dims.1 == min_dims_prefix_spec(bag.0@, i as int).1,
            dims.0 <= 4,
            dims.1 <= 4,
        decreases 7 - i,
    {
        if bag.0[i] > 0 {
            let totem = Totem::from_index(i);
            let dim = ShapeVariant::minimum_dims(&totem);
            if dim.0 > dims.0 {
                dims.0 = dim.0;
            }
            if dim.1 > dims.1 {
                dims.1 = dim.1;
            }
        }
        i = i + 1;
    }
    dims
}

proof fn lemma_min_dims_prefix_bounds(bag: Seq<usize>, n: int)
    requires
        0 <= n <= 7,
    ensures
        0 <= min_dims_prefix_spec(bag, n).0 <= 4,
        0 <= min_dims_prefix_spec(bag, n).1 <= 4,
    decreases n,
{
    if n > 0 {
        lemma_min_dims_prefix_bounds(bag, n - 1);
    }
}

/// The 0-indexed level of a problem with `n` pieces: the smallest L with
/// 2^L at least n.
pub fn infer_level(n: usize) -> (r: usize)
    requires
        1 <= n <= 512,
    ensures
        r < 10,
        pow2_spec(r as int) >= n,
        r == 0 || pow2_spec(r as int - 1) < n,
{
    let mut level: usize = 0;
    let mut p: usize = 1;
    while p < n
        invariant
            1 <= n <= 512,
            level <= 9,
            p == pow2_spec(level as int),
            p <= 1024,
            level == 0 || pow2_spec(level as int - 1) < n,
        decreases 10 - level,
    {
        proof {
            if level >= 9 {
                crate::scoring::lemma_pow2_at_9();
                assert(false);
            }
        }
        p = p * 2;
        level = level + 1;
    }
    level
}

/// A question is a single "I" piece.
pub open spec fn single_i_question(q: Question) -> bool {
    q.totems@.len() == 1 && q.totems@[0].shape == Totem::I
}

/// The shapes of a question, in order.
pub open spec fn question_shapes(qn: Question) -> Seq<Totem> {
    qn.totems@.map_values(|q: TotemQuestion| q.shape)
}

/// The dispatcher over the three backends.
pub struct HybridSolver {
    // Kept for API compatibility; this library always runs one attempt
    // after another in a single thread.
    pub use_multithreading: bool,
    pub verbose: bool,
    optimal_dims: OptimalDimensions,
    greedy: GreedySolver,
    exhaustive: ExhaustiveSolver,
    rect_packing: Option<RectPackingSolver>,
}

impl HybridSolver {
    pub closed spec fn wf(&self) -> bool {
        &&& self.optimal_dims.wf()
        &&& (self.rect_packing matches Some(rp) ==> inventory_wf(rp.inventory))
    }

    /// Build a solver without a rectangle inventory; hard perfect-fit
    /// instances then degrade to the greedy backend.
    pub fn with_options(multithreading: bool, verbose: bool) -> (r: HybridSolver)
        ensures
            r.wf(),
    {
        HybridSolver {
            use_multithreading: multithreading,
            verbose,
            optimal_dims: OptimalDimensions::new(),
            greedy: GreedySolver::new(),
            exhaustive: ExhaustiveSolver::new(),
            rect_packing: None,
        }
    }

    /// Build a solver around a loaded rectangle inventory.
    pub fn with_inventory(
        multithreading: bool,
        verbose: bool,
        inventory: crate::rect_inventory::RectangleInventory,
    ) -> (r: HybridSolver)
        requires
            inventory_wf(inventory),
        ensures
            r.wf(),
    {
        HybridSolver {
            use_multithreading: multithreading,
            verbose,
            optimal_dims: OptimalDimensions::new(),
            greedy: GreedySolver::new(),
            exhaustive: ExhaustiveSolver::new(),
            rect_packing: Some(RectPackingSolver::new(inventory)),
        }
    }

    /// One attempt at a single (width, height): exhaustive for small
    /// bags, rectangle packing for hard perfect fits when an inventory is
    /// loaded, greedy otherwise. A box too small for the bag is rejected.
    pub fn try_solve(&self, width: usize, height: usize, bag: &TotemBag) -> (r: Option<
        Vec<TotemAnswer>,
    >)
        requires
            self.wf(),
            1 <= width <= 64,
            1 <= height <= 1000000,
            forall|i: int| 0 <= i < 7 ==> bag.0@[i] <= 512,
            bag_total(bag.0@) <= 1024,
        ensures
            r matches Some(ans) ==> answer_valid(ans@, bag.0@, width as int, height as int),
            width * height < 4 * bag_total(bag.0@) ==> r is None,
            bag_total(bag.0@) == 0 ==> r is Some,
            bag_total(bag.0@) <= 8 && 4 * bag_total(bag.0@) <= width && 4 <= height ==> r is Some,
    {
        proof {
            lemma_bag_total_bounds(bag.0@);
            assert(width * height <= 64 * 1000000) by (nonlinear_arith)
                requires
                    width <= 64,
                    height <= 1000000,
            ;
            if 4 * bag_total(bag.0@) <= width && 4 <= height {
                assert(4 * bag_total(bag.0@) * 4 <= width * height) by (nonlinear_arith)
                    requires
                        4 * bag_total(bag.0@) <= width,
                        4 <= height,
                        0 <= bag_total(bag.0@),
                ;
            }
        }
        let num_totems = bag.total();
        if width * height < 4 * num_totems {
            return None;
        }
        if num_totems <= 8 {
            return self.exhaustive.try_solve(width, height, bag);
        }
        if (num_totems == 64 || num_totems == 256) && 4 * num_totems == width * height {
            match &self.rect_packing {
                Some(rp) => {
                    return rp.try_solve(width, height, bag);
                },
                None => {},
            }
        }
        self.greedy.try_solve(width, height, bag)
    }

    /// Walk the candidate dimensions of a level in score order, trying
    /// both orientations, and fall back to an oversized greedy box.
    pub fn full_solve(&self, bag: &TotemBag, level: usize) -> (r: Option<Vec<TotemAnswer>>)
        requires
            self.wf(),
            level < 10,
            forall|i: int| 0 <= i < 7 ==> bag.0@[i] <= 512,
            1 <= bag_total(bag.0@) <= 1024,
        ensures
            r matches Some(ans) ==> answer_valid_for_bag(ans@, bag.0@),
            bag_total(bag.0@) <= 8 ==> r is Some,
    {
        let min_dims = min_dimensions_needed(bag);
        let dims_list = self.optimal_dims.level_dims(level);
        let mut idx: usize = 0;
        while idx < dims_list.len()
            invariant
                idx <= dims_list@.len(),
                self.wf(),
                level < 10,
                dims_list@ == self.optimal_dims.levels()[level as int],
                level_seq_ok(dims_list@, pow2_spec(level as int)),
                forall|i: int| 0 <= i < 7 ==> bag.0@[i] <= 512,
                1 <= bag_total(bag.0@) <= 1024,
            decreases dims_list@.len() - idx,
        {
            let (w, h) = dims_list[idx];
            proof {
                assert(1 <= dims_list@[idx as int].0 <= 10000 && 1 <= dims_list@[idx as int].1
                    <= 10000);
            }
            if !(min_dims.0 > w || min_dims.1 > h) {
                if w <= 64 {
                    let fit = self.try_solve(w, h, bag);
                    match fit {
                        Some(ans) => {
                            proof {
                                lemma_answer_valid_weaken(
                                    ans@,
                                    bag.0@,
                                    w as int,
                                    h as int,
                                );
                            }
                            return Some(ans);
                        },
                        None => {},
                    }
                    if w != h && h <= 64 {
                        // the (0, 0) constraint sometimes makes one
                        // orientation feasible and the other not
                        let fit2 = self.try_solve(h, w, bag);
                        match fit2 {
                            Some(ans) => {
                                proof {
                                    lemma_answer_valid_weaken(
                                        ans@,
                                        bag.0@,
                                        h as int,
                                        w as int,
                                    );
                                }
                                return Some(ans);
                            },
                            None => {},
                        }
                    }
                }
            }
            idx = idx + 1;
        }
        // fall back to an oversized greedy box rather than fail outright
        proof {
            lemma_bag_total_bounds(bag.0@);
        }
        let n = bag.total();
        let fw: usize = if 4 * n <= 64 {
            4 * n
        } else {
            64
        };
        let fh: usize = 4 * n;
        proof {
            // for a small bag the fallback box is wide and tall enough
            // that the exhaustive backend is sure to succeed
            if n <= 8 {
                assert(fw == 4 * n && fh == 4 * n);
                assert(4 * bag_total(bag.0@) <= fw && 4 <= fh);
            }
        }
        let fit = self.try_solve(fw, fh, bag);
        match fit {
            Some(ans) => {
                proof {
                    lemma_answer_valid_weaken(ans@, bag.0@, fw as int, fh as int);
                }
                Some(ans)
            },
            None => None,
        }
    }

    /// Solve a full question: derive the bag and level, walk the
    /// candidates, and wrap the placements. An empty question yields an
    /// empty answer; a single "I" is placed upright at the origin.
    pub fn solve(&self, question: &Question) -> (r: Option<Answer>)
        requires
            self.wf(),
            question.totems@.len() <= 512,
        ensures
            r matches Some(ans) ==> {
                &&& forall|i: int|
                    0 <= i < 7 ==> shape_count(placement_shapes(ans.totems@), i) == shape_count(
                        question_shapes(*question),
                        i,
                    )
                &&& cells_disjoint(ans.totems@)
                &&& (ans.totems@.len() > 0 ==> covers_origin(ans.totems@))
            },
            question.totems@.len() == 0 ==> (r matches Some(ans) && ans.totems@.len() == 0),
            question.totems@.len() <= 8 ==> r is Some,
            single_i_question(*question) ==> (r matches Some(ans) && ans.totems@.len() == 1
                && ans.totems@[0].shape == Totem::I && ans.totems@[0].coordinates@ == seq![
                (0usize, 0usize),
                (0usize, 1usize),
                (0usize, 2usize),
                (0usize, 3usize),
            ]),
    {
        let bag = question.get_totem_bag();
        let n = question.totems.len();
        proof {
            assert(question_shapes(*question) == question.totems@.map_values(
                |q: TotemQuestion| q.shape,
            ));
            if single_i_question(*question) {
                assert(question_shapes(*question) =~= seq![Totem::I]);
                crate::game_interface::lemma_shape_count_singleton(Totem::I);
                assert(shape_count(seq![Totem::I], 0) == 1);
                assert(bag.0@[0] == 1);
            }
        }
        if n == 0 {
            let ans = Answer::new(Vec::new());
            proof {
                assert(forall|i: int|
                    0 <= i < 7 ==> shape_count(placement_shapes(ans.totems@), i) == 0);
                assert(forall|i: int|
                    0 <= i < 7 ==> shape_count(question_shapes(*question), i) == 0);
            }
            return Some(ans);
        }
        if n == 1 && bag.0[0] == 1 {
            // the level-1 case: a single "I", upright at the origin
            let placement = TotemAnswer::new(
                Totem::I,
                [(0usize, 0usize), (0usize, 1usize), (0usize, 2usize), (0usize, 3usize)],
            );
            let mut totems: Vec<TotemAnswer> = Vec::new();
            totems.push(placement);
            let ans = Answer::new(totems);
            proof {
                lemma_bag_total_bounds(bag.0@);
                lemma_bag_total_explicit(bag.0@);
                assert(forall|i: int|
                    0 <= i < 7 ==> bag.0@[i] == shape_count(question_shapes(*question), i));
                assert(placement_shapes(ans.totems@) =~= seq![Totem::I]);
                crate::game_interface::lemma_shape_count_singleton(Totem::I);
                assert(forall|i: int|
                    shape_count(seq![Totem::I], i) == if i == 0 {
                        1int
                    } else {
                        0int
                    });
                assert(covers_origin(ans.totems@)) by {
                    assert(ans.totems@[0].coordinates@[0] == (0usize, 0usize));
                }
                assert(cells_disjoint(ans.totems@));
                assert(ans.totems@[0].coordinates@ =~= seq![
                    (0usize, 0usize),
                    (0usize, 1usize),
                    (0usize, 2usize),
                    (0usize, 3usize),
                ]);
            }
            return Some(ans);
        }
        let level = infer_level(n);
        proof {
            assert(bag_total(bag.0@) == n);
            lemma_bag_total_bounds(bag.0@);
            assert(forall|i: int| 0 <= i < 7 ==> bag.0@[i] <= 512);
        }
        let fit = self.full_solve(&bag, level);
        match fit {
            Some(totems) => {
                let ans = Answer::new(totems);
                proof {
                    lemma_bag_total_bounds(bag.0@);
                    lemma_shape_count_total(placement_shapes(ans.totems@));
                    lemma_bag_total_explicit(bag.0@);
                    assert(ans.totems@.len() == placement_shapes(ans.totems@).len());
                }
                Some(ans)
            },
            None => None,
        }
    }
}

} // verus!
