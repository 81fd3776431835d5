//! Lazily enumerates multisets of inventory rectangles whose piece costs
//! sum exactly to a target bag: a multi-dimensional coin-change search
//! with memoized dead-end pruning and a backtrack budget.

use vstd::prelude::*;

use std::collections::HashSet;

use crate::game_interface::{bag_total, lemma_bag_total_bounds, TotemBag};
use crate::rect_inventory::{
    inventory_wf, rect_wf, Rectangle, RectangleInventory, RectangleMetadata,
};

verus! {

/// 513 to the `i`.
pub open spec fn pow513(i: int) -> int
    decreases i,
{
    if i <= 0 {
        1
    } else {
        513 * pow513(i - 1)
    }
}

/// The fingerprint of the first `n` counts: sum of count[i]·513^i.
pub open spec fn hash_prefix(s: Seq<usize>, n: int) -> int
    decreases n,
{
    if n <= 0 {
        0
    } else {
        hash_prefix(s, n - 1) + s[n - 1] * pow513(n - 1)
    }
}

proof fn lemma_hash_prefix_bound(s: Seq<usize>, n: int)
    requires
        s.len() == 7,
        0 <= n <= 7,
        forall|i: int| 0 <= i < 7 ==> s[i] <= 512,
    ensures
        0 <= hash_prefix(s, n) <= pow513(n) - 1,
    decreases n,
{
    if n > 0 {
        lemma_hash_prefix_bound(s, n - 1);
        assert(s[n - 1] * pow513(n - 1) <= 512 * pow513(n - 1) && s[n - 1] * pow513(n - 1) >= 0)
            by (nonlinear_arith)
            requires
                0 <= s[n - 1] <= 512,
                pow513(n - 1) >= 1,
        ;
        assert(pow513(n - 1) >= 1) by {
            lemma_pow513_pos(n - 1);
        }
    }
}

proof fn lemma_pow513_pos(i: int)
    ensures
        pow513(i) >= 1,
    decreases i,
{
    if i > 0 {
        lemma_pow513_pos(i - 1);
    }
}

/// Encode a bag of at most 512 pieces per shape as one 64-bit word.
/// Distinct such bags get distinct words.
pub fn hash_bag(bag: &TotemBag) -> (r: u64)
    requires
        forall|i: int| 0 <= i < 7 ==> bag.0@[i] <= 512,
    ensures
        r == hash_prefix(bag.0@, 7),
{
    proof {
        lemma_pow513_pos(7);
        reveal_with_fuel(pow513, 9);
    }
    let mut h: u64 = 0;
    let mut mult: u64 = 1;
    let mut i: usize = 0;
    while i < 7
        invariant
            i <= 7,
            bag.0@.len() == 7,
            forall|k: int| 0 <= k < 7 ==> bag.0@[k] <= 512,
            i < 7 ==> mult == pow513(i as int),
            h == hash_prefix(bag.0@, i as int),
        decreases 7 - i,
    {
        proof {
            lemma_hash_prefix_bound(bag.0@, i as int);
            lemma_hash_prefix_bound(bag.0@, i + 1);
            lemma_pow513_pos(i as int);
            assert(pow513(i as int) <= pow513(6)) by {
                lemma_pow513_mono(i as int, 6);
            }
            reveal_with_fuel(pow513, 9);
            assert(bag.0@[i as int] * pow513(i as int) <= 512 * pow513(6)) by (nonlinear_arith)
                requires
                    0 <= bag.0@[i as int] <= 512,
                    1 <= pow513(i as int) <= pow513(6),
            ;
        }
        h = h + (bag.0[i] as u64) * mult;
        if i < 6 {
            proof {
                assert(pow513(i + 1) == 513 * pow513(i as int));
                assert(pow513(i + 1) <= pow513(6)) by {
                    lemma_pow513_mono(i + 1, 6);
                }
            }
            mult = mult * 513;
        }
        i = i + 1;
    }
    h
}

proof fn lemma_pow513_mono(a: int, b: int)
    requires
        a <= b,
    ensures
        pow513(a) <= pow513(b),
    decreases b - a,
{
    if a < b {
        lemma_pow513_mono(a, b - 1);
        lemma_pow513_pos(b - 1);
    }
}

/// The componentwise cost sum of a list of handles, resolved in `rects`.
pub open spec fn metas_cost_sum(rects: Seq<Rectangle>, metas: Seq<RectangleMetadata>, i: int) -> int
    decreases metas.len(),
{
    if metas.len() == 0 {
        0
    } else {
        metas_cost_sum(rects, metas.drop_last(), i) + rects[metas.last().index as int].cost.0@[i]
    }
}

pub proof fn lemma_metas_cost_sum_nonneg(rects: Seq<Rectangle>, metas: Seq<RectangleMetadata>, i: int)
    ensures
        metas_cost_sum(rects, metas, i) >= 0,
    decreases metas.len(),
{
    if metas.len() > 0 {
        lemma_metas_cost_sum_nonneg(rects, metas.drop_last(), i);
    }
}

/// Enumerator of handle multisets whose costs sum exactly to a bag.
/// Holds the inventory only as a ghost image; every call takes the same
/// inventory again by reference.
pub struct MultiDimSubsetSumIterator {
    inv_rects: Ghost<Seq<Rectangle>>,
    // Note: randomness in the rectangle ordering can be helpful.
    rectangles: Vec<RectangleMetadata>,
    bag: TotemBag,
    // Indices into `rectangles` chosen so far.
    chosen_indices: Vec<usize>,
    // Current index within `rectangles` considered for the next choice.
    current_index: usize,
    // For each chosen level, whether it is still presumed a dead end.
    is_deadend: Vec<bool>,
    // Fingerprints of residual bags known to lead nowhere.
    deadends: HashSet<u64>,
    // How many times the search backtracked, to give up on unlucky runs.
    backtrack_count: usize,
    max_backtracks: usize,
    original: Ghost<Seq<usize>>,
}

impl MultiDimSubsetSumIterator {
    /// The target bag the enumerator was built for.
    pub closed spec fn original_bag(&self) -> Seq<usize> {
        self.original@
    }

    pub closed spec fn inv_rects(&self) -> Seq<Rectangle> {
        self.inv_rects@
    }

    /// The handles chosen so far.
    pub closed spec fn chosen_metas(&self) -> Seq<RectangleMetadata> {
        self.chosen_indices@.map_values(|c: usize| self.rectangles@[c as int])
    }

    pub closed spec fn wf(&self) -> bool {
        &&& forall|j: int|
            0 <= j < self.inv_rects@.len() ==> rect_wf(#[trigger] self.inv_rects@[j])
        &&& forall|j: int|
            0 <= j < self.rectangles@.len() ==> (#[trigger] self.rectangles@[j]).index
                < self.inv_rects@.len() && self.rectangles@[j].dims
                == self.inv_rects@[self.rectangles@[j].index as int].dims
        &&& self.chosen_indices@.len() == self.is_deadend@.len()
        &&& forall|k: int|
            0 <= k < self.chosen_indices@.len() ==> (#[trigger] self.chosen_indices@[k])
                < self.rectangles@.len()
        &&& self.current_index <= self.rectangles@.len()
        &&& self.bag.0@.len() == 7
        &&& self.original@.len() == 7
        &&& forall|i: int| 0 <= i < 7 ==> #[trigger] self.original@[i] <= 512
        &&& forall|i: int|
            0 <= i < 7 ==> #[trigger] self.original@[i] == self.bag.0@[i] + metas_cost_sum(
                self.inv_rects@,
                self.chosen_metas(),
                i,
            )
        &&& self.backtrack_count <= self.max_backtracks
        &&& self.max_backtracks <= 1000000000
    }

    /// Residual bag components never exceed the original's.
    proof fn lemma_residual_bounded(&self)
        requires
            self.wf(),
        ensures
            forall|i: int| 0 <= i < 7 ==> #[trigger] self.bag.0@[i] <= self.original@[i],
    {
        assert forall|i: int| 0 <= i < 7 implies #[trigger] self.bag.0@[i] <= self.original@[i] by {
            lemma_metas_cost_sum_nonneg(self.inv_rects@, self.chosen_metas(), i);
        }
    }

    /// Build an enumerator over `rectangles` for the target `bag`.
    pub fn new(
        bag: &TotemBag,
        inventory: &RectangleInventory,
        rectangles: &Vec<RectangleMetadata>,
        max_backtracks: usize,
    ) -> (r: MultiDimSubsetSumIterator)
        requires
            inventory_wf(*inventory),
            forall|j: int|
                0 <= j < rectangles@.len() ==> (#[trigger] rectangles@[j]).index
                    < inventory.rects().len() && rectangles@[j].dims
                    == inventory.rects()[rectangles@[j].index as int].dims,
            forall|i: int| 0 <= i < 7 ==> bag.0@[i] <= 512,
            max_backtracks <= 1000000000,
        ensures
            r.wf(),
            r.original_bag() == bag.0@,
            r.inv_rects() == inventory.rects(),
            r.bag_view() == bag.0@,
            r.rect_handles() == rectangles@,
            r.chosen_metas() == Seq::<RectangleMetadata>::empty(),
            r.cursor() == 0,
            r.backtrack_count() == 0,
            r.max_backtracks_spec() == max_backtracks,
            r.deadend_fingerprints() == Set::<u64>::empty(),
    {
        let r = MultiDimSubsetSumIterator {
            inv_rects: Ghost(inventory.rects()),
            rectangles: clone_metas(rectangles),
            bag: *bag,
            chosen_indices: Vec::new(),
            current_index: 0,
            is_deadend: Vec::new(),
            deadends: HashSet::new(),
            backtrack_count: 0,
            max_backtracks,
            original: Ghost(bag.0@),
        };
        proof {
            assert(r.chosen_metas() =~= Seq::<RectangleMetadata>::empty());
        }
        r
    }

    /// Undo the previous pick and move to the next rectangle, if any.
    fn backtrack(&mut self, inventory: &RectangleInventory) -> (r: Option<()>)
        requires
            old(self).wf(),
            inventory_wf(*inventory),
            inventory.rects() == old(self).inv_rects(),
        ensures
            final(self).wf(),
            final(self).original_bag() == old(self).original_bag(),
            final(self).inv_rects() == old(self).inv_rects(),
            r is Some ==> final(self).current_index < final(self).rectangles_len(),
            final(self).backtrack_count() > old(self).backtrack_count() || r is None,
            final(self).backtrack_count() >= old(self).backtrack_count(),
            final(self).max_backtracks_spec() == old(self).max_backtracks_spec(),
            r is None ==> final(self).backtrack_count() == final(self).max_backtracks_spec()
                || final(self).chosen_metas().len() == 0,
    {
        if self.backtrack_count >= self.max_backtracks {
            return None;
        }
        self.backtrack_count = self.backtrack_count + 1;
        loop
            invariant
                self.wf(),
                self.original@ == old(self).original@,
                self.inv_rects@ == old(self).inv_rects(),
                inventory_wf(*inventory),
                inventory.rects() == self.inv_rects@,
                self.backtrack_count > old(self).backtrack_count(),
                self.backtrack_count >= old(self).backtrack_count(),
                self.max_backtracks == old(self).max_backtracks,
            decreases self.chosen_indices@.len(),
        {
            if self.chosen_indices.len() == 0 {
                return None;
            }
            proof {
                self.lemma_residual_bounded();
            }
            let ghost entry = *self;
            let ghost pre_metas = self.chosen_metas();
            let index = self.chosen_indices.pop().unwrap();
            let deadend = self.is_deadend.pop().unwrap();
            proof {
                assert(entry.chosen_indices@[entry.chosen_indices@.len() - 1]
                    < entry.rectangles@.len());
                assert(index < self.rectangles@.len());
            }
            proof {
                assert(self.chosen_metas() =~= pre_metas.drop_last());
                self_residual_step(self.inv_rects@, pre_metas, self.chosen_metas());
            }
            if deadend {
                let fp = hash_bag(&self.bag);
                self.deadends.insert(fp);
            }
            let rect = self.rectangles[index];
            let cost = *inventory.get_cost(&rect);
            proof {
                assert forall|i: int|
                    0 <= i < 7 implies self.bag.0@[i] + cost.0@[i] <= usize::MAX by {
                    lemma_metas_cost_sum_nonneg(self.inv_rects@, self.chosen_metas(), i);
                    assert(self.original@[i] == self.bag.0@[i] + metas_cost_sum(
                        self.inv_rects@,
                        self.chosen_metas(),
                        i,
                    ) + cost.0@[i]);
                }
            }
            self.bag.add(&cost);
            let rlen = self.rectangles.len();
            proof {
                assert(index < rlen);
            }
            self.current_index = index + 1;
            if self.current_index < rlen {
                return Some(());
            }
        }
    }

    pub closed spec fn rectangles_len(&self) -> int {
        self.rectangles@.len() as int
    }

    /// The handle list the enumerator walks.
    pub closed spec fn rect_handles(&self) -> Seq<RectangleMetadata> {
        self.rectangles@
    }

    /// The residual-bag fingerprints memoized as dead ends.
    pub closed spec fn deadend_fingerprints(&self) -> Set<u64> {
        self.deadends@
    }

    pub closed spec fn backtrack_count(&self) -> int {
        self.backtrack_count as int
    }

    pub closed spec fn max_backtracks_spec(&self) -> int {
        self.max_backtracks as int
    }

    pub closed spec fn residual_total(&self) -> int {
        bag_total(self.bag.0@)
    }

    pub closed spec fn cursor(&self) -> int {
        self.current_index as int
    }

    /// Pick the rectangle at the cursor; the bag must afford its cost.
    fn pick_current(&mut self, inventory: &RectangleInventory)
        requires
            old(self).wf(),
            inventory_wf(*inventory),
            inventory.rects() == old(self).inv_rects(),
            old(self).cursor() < old(self).rectangles_len(),
            crate::game_interface::can_afford_spec(old(self).bag_view(), old(self).cursor_cost()),
        ensures
            final(self).wf(),
            final(self).original_bag() == old(self).original_bag(),
            final(self).inv_rects() == old(self).inv_rects(),
            final(self).backtrack_count() == old(self).backtrack_count(),
            final(self).max_backtracks_spec() == old(self).max_backtracks_spec(),
            final(self).cursor() == old(self).cursor(),
            final(self).rectangles_len() == old(self).rectangles_len(),
            final(self).residual_total() < old(self).residual_total(),
    {
        let rect = self.rectangles[self.current_index];
        let cost = *inventory.get_cost(&rect);
        let ghost pre_metas = self.chosen_metas();
        let ghost pre_bag = self.bag.0@;
        self.chosen_indices.push(self.current_index);
        self.is_deadend.push(true);
        self.bag.subtract(&cost);
        proof {
            assert(self.chosen_metas() =~= pre_metas.push(
                self.rectangles@[self.current_index as int],
            ));
            assert(self.chosen_metas().drop_last() =~= pre_metas);
            crate::rect_inventory::lemma_rect_cost_total(self.inv_rects@[rect.index as int]);
            crate::game_interface::lemma_bag_total_sub(pre_bag, cost.0@, self.bag.0@);
        }
    }

    pub closed spec fn bag_view(&self) -> Seq<usize> {
        self.bag.0@
    }

    /// The cost of the rectangle at the cursor.
    pub closed spec fn cursor_cost(&self) -> Seq<usize> {
        self.inv_rects@[self.rectangles@[self.cursor()].index as int].cost.0@
    }

    /// Materialize a found combination and clear the dead-end flags: the
    /// whole current stack lies on a successful path.
    fn on_match_found(&mut self) -> (r: Vec<RectangleMetadata>)
        requires
            old(self).wf(),
            forall|i: int| 0 <= i < 7 ==> old(self).bag_view()[i] == 0,
        ensures
            final(self).wf(),
            final(self).original_bag() == old(self).original_bag(),
            final(self).inv_rects() == old(self).inv_rects(),
            forall|i: int|
                0 <= i < 7 ==> metas_cost_sum(final(self).inv_rects(), r@, i)
                    == final(self).original_bag()[i],
            forall|k: int|
                0 <= k < r@.len() ==> (#[trigger] r@[k]).index < final(self).inv_rects().len()
                    && r@[k].dims == final(self).inv_rects()[r@[k].index as int].dims,
    {
        let mut j: usize = 0;
        let n = self.is_deadend.len();
        while j < n
            invariant
                j <= n,
                n == self.is_deadend@.len(),
                self.wf(),
                self.original@ == old(self).original@,
                self.inv_rects@ == old(self).inv_rects(),
                self.rectangles == old(self).rectangles,
                self.chosen_indices == old(self).chosen_indices,
                self.bag == old(self).bag,
            decreases n - j,
        {
            self.is_deadend[j] = false;
            j = j + 1;
        }
        self.backtrack_count = 0;
        proof {
            assert(self.bag == old(self).bag);
            assert forall|i: int| 0 <= i < 7 implies self.bag_view()[i] == 0 by {
                assert(self.bag_view()[i] == old(self).bag_view()[i]);
            }
        }
        let mut r: Vec<RectangleMetadata> = Vec::new();
        let mut k: usize = 0;
        while k < self.chosen_indices.len()
            invariant
                k <= self.chosen_indices@.len(),
                self.wf(),
                self.original@ == old(self).original@,
                self.inv_rects@ == old(self).inv_rects(),
                forall|i: int| 0 <= i < 7 ==> self.bag_view()[i] == 0,
                r@ =~= self.chosen_indices@.take(k as int).map_values(
                    |c: usize| self.rectangles@[c as int],
                ),
            decreases self.chosen_indices@.len() - k,
        {
            r.push(self.rectangles[self.chosen_indices[k]]);
            proof {
                assert(r@ =~= self.chosen_indices@.take(k + 1).map_values(
                    |c: usize| self.rectangles@[c as int],
                ));
            }
            k = k + 1;
        }
        proof {
            assert(self.chosen_indices@.take(self.chosen_indices@.len() as int)
                =~= self.chosen_indices@);
            assert(r@ =~= self.chosen_metas());
            assert(r@ == self.chosen_metas());
            assert forall|i: int|
                0 <= i < 7 implies metas_cost_sum(self.inv_rects@, r@, i)
                == self.original@[i] by {
                assert(self.original@[i] == self.bag.0@[i] + metas_cost_sum(
                    self.inv_rects@,
                    self.chosen_metas(),
                    i,
                ));
                assert(self.bag_view()[i] == 0);
                assert(self.bag.0@[i] == 0);
            }
            assert forall|k: int|
                0 <= k < r@.len() implies (#[trigger] r@[k]).index < self.inv_rects@.len() by {
                assert(r@[k] == self.rectangles@[self.chosen_indices@[k] as int]);
            }
        }
        r
    }

    /// The next combination whose costs sum exactly to the target bag,
    /// or None when the search space or the backtrack budget is spent.
    pub fn next(&mut self, inventory: &RectangleInventory) -> (r: Option<Vec<RectangleMetadata>>)
        requires
            old(self).wf(),
            inventory_wf(*inventory),
            inventory.rects() == old(self).inv_rects(),
        ensures
            final(self).wf(),
            final(self).original_bag() == old(self).original_bag(),
            final(self).inv_rects() == old(self).inv_rects(),
            r matches Some(v) ==> {
                &&& forall|i: int|
                    0 <= i < 7 ==> metas_cost_sum(final(self).inv_rects(), v@, i)
                        == final(self).original_bag()[i]
                &&& forall|k: int|
                    0 <= k < v@.len() ==> (#[trigger] v@[k]).index < final(self).inv_rects().len()
                        && v@[k].dims == final(self).inv_rects()[v@[k].index as int].dims
            },
            // the search only gives up once the backtrack budget is spent
            // or the whole stack has been undone
            r is None ==> final(self).backtrack_count() == final(self).max_backtracks_spec()
                || final(self).chosen_metas().len() == 0,
    {
        if self.bag.is_empty() {
            // we just yielded: undo the current pick to move back up
            if self.backtrack(inventory).is_none() {
                return None;
            }
        }
        proof {
            lemma_bag_total_bounds(self.bag.0@);
        }
        loop
            invariant
                self.wf(),
                self.original@ == old(self).original_bag(),
                self.inv_rects@ == old(self).inv_rects(),
                inventory_wf(*inventory),
                inventory.rects() == self.inv_rects@,
                self.residual_total() >= 0,
            decreases
                    self.max_backtracks_spec() - self.backtrack_count(),
                    self.residual_total(),
                    self.rectangles_len() - self.cursor(),
        {
            proof {
                lemma_bag_total_bounds(self.bag.0@);
            }
            if self.current_index >= self.rectangles.len() {
                if self.backtrack(inventory).is_none() {
                    return None;
                }
                proof {
                    lemma_bag_total_bounds(self.bag.0@);
                }
                continue ;
            }
            let rect = self.rectangles[self.current_index];
            let cost = *inventory.get_cost(&rect);
            if self.bag.can_afford(&cost) {
                self.pick_current(inventory);
                if self.bag.is_empty() {
                    return Some(self.on_match_found());
                }
                proof {
                    self.lemma_residual_bounded();
                }
                let fp = hash_bag(&self.bag);
                if self.deadends.contains(&fp) {
                    if self.backtrack(inventory).is_none() {
                        return None;
                    }
                }
            } else {
                self.current_index = self.current_index + 1;
                if self.current_index == self.rectangles.len() {
                    if self.backtrack(inventory).is_none() {
                        return None;
                    }
                }
            }
            proof {
                lemma_bag_total_bounds(self.bag.0@);
            }
        }
    }
}

/// Copy a list of handles.
fn clone_metas(v: &Vec<RectangleMetadata>) -> (r: Vec<RectangleMetadata>)
    ensures
        r@ == v@,
{
    let mut r: Vec<RectangleMetadata> = Vec::new();
    let mut i: usize = 0;
    while i < v.len()
        invariant
            i <= v@.len(),
            r@ =~= v@.take(i as int),
        decreases v@.len() - i,
    {
        r.push(v[i]);
        proof {
            assert(r@ =~= v@.take(i + 1));
        }
        i = i + 1;
    }
    proof {
        assert(v@.take(v@.len() as int) =~= v@);
    }
    r
}

proof fn self_residual_step(
    rects: Seq<Rectangle>,
    pre: Seq<RectangleMetadata>,
    post: Seq<RectangleMetadata>,
)
    requires
        pre.len() > 0,
        post == pre.drop_last(),
    ensures
        forall|i: int|
            metas_cost_sum(rects, pre, i) == metas_cost_sum(rects, post, i) + rects[pre.last().index as int].cost.0@[i],
{
}

} // verus!
