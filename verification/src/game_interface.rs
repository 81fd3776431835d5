//! Core game data: the seven tetromino shapes ("totems"), count bags over
//! them, and the question/answer records exchanged with a game driver.

use vstd::prelude::*;

verus! {

/// Number of distinct totem shapes.
pub const TOTEM_COUNT: usize = 7;

/// One of the seven tetromino shapes.
#[derive(Clone, Copy, PartialEq, Eq, Structural, Debug, Hash)]
pub enum Totem {
    I,
    J,
    L,
    O,
    S,
    T,
    Z,
}

/// Index of a shape in the fixed shape ordering (I, J, L, O, S, T, Z).
pub open spec fn totem_index_spec(t: Totem) -> int {
    match t {
        Totem::I => 0,
        Totem::J => 1,
        Totem::L => 2,
        Totem::O => 3,
        Totem::S => 4,
        Totem::T => 5,
        Totem::Z => 6,
    }
}

/// Shape at a given index of the fixed ordering.
pub open spec fn totem_of_index_spec(i: int) -> Totem {
    if i == 0 {
        Totem::I
    } else if i == 1 {
        Totem::J
    } else if i == 2 {
        Totem::L
    } else if i == 3 {
        Totem::O
    } else if i == 4 {
        Totem::S
    } else if i == 5 {
        Totem::T
    } else {
        Totem::Z
    }
}

impl Totem {
    /// Position of this shape in the fixed shape ordering.
    pub fn as_index(&self) -> (r: usize)
        ensures
            r == totem_index_spec(*self),
            r < 7,
    {
        match self {
            Totem::I => 0,
            Totem::J => 1,
            Totem::L => 2,
            Totem::O => 3,
            Totem::S => 4,
            Totem::T => 5,
            Totem::Z => 6,
        }
    }

    /// Shape at a given position of the fixed shape ordering.
    pub fn from_index(i: usize) -> (r: Totem)
        requires
            i < 7,
        ensures
            r == totem_of_index_spec(i as int),
            totem_index_spec(r) == i,
    {
        if i == 0 {
            Totem::I
        } else if i == 1 {
            Totem::J
        } else if i == 2 {
            Totem::L
        } else if i == 3 {
            Totem::O
        } else if i == 4 {
            Totem::S
        } else if i == 5 {
            Totem::T
        } else {
            Totem::Z
        }
    }
}

/// One requested piece of a question.
#[derive(Clone, Copy, Debug)]
pub struct TotemQuestion {
    pub shape: Totem,
}

/// A count vector over the seven shapes, indexed by `totem_index_spec`.
#[derive(Clone, Copy, PartialEq, Eq, Debug)]
pub struct TotemBag(pub [usize; 7]);

/// Sum of the first `n` entries of a count vector.
pub open spec fn sum_prefix(s: Seq<usize>, n: int) -> int
    decreases n,
{
    if n <= 0 {
        0
    } else {
        sum_prefix(s, n - 1) + s[n - 1]
    }
}

/// Total count held by a bag.
pub open spec fn bag_total(s: Seq<usize>) -> int {
    sum_prefix(s, 7)
}

/// The total of a bag, written out entry by entry.
pub proof fn lemma_bag_total_explicit(s: Seq<usize>)
    requires
        s.len() == 7,
    ensures
        bag_total(s) == s[0] + s[1] + s[2] + s[3] + s[4] + s[5] + s[6],
{
    reveal_with_fuel(sum_prefix, 8);
}

/// How many entries of `s` are the shape with index `i`.
pub open spec fn shape_count(s: Seq<Totem>, i: int) -> int
    decreases s.len(),
{
    if s.len() == 0 {
        0
    } else {
        shape_count(s.drop_last(), i) + if totem_index_spec(s.last()) == i {
            1int
        } else {
            0int
        }
    }
}

/// Componentwise comparison: `have` can pay for `cost`.
pub open spec fn can_afford_spec(have: Seq<usize>, cost: Seq<usize>) -> bool {
    forall|i: int| 0 <= i < 7 ==> cost[i] <= have[i]
}

proof fn lemma_sum_prefix_bounds(s: Seq<usize>, n: int)
    requires
        0 <= n <= 7,
        s.len() == 7,
    ensures
        sum_prefix(s, n) >= 0,
        forall|i: int| 0 <= i < n ==> s[i] <= sum_prefix(s, n),
    decreases n,
{
    if n > 0 {
        lemma_sum_prefix_bounds(s, n - 1);
    }
}

/// The total of a bag bounds each of its entries.
pub proof fn lemma_bag_total_bounds(s: Seq<usize>)
    requires
        s.len() == 7,
    ensures
        bag_total(s) >= 0,
        forall|i: int| 0 <= i < 7 ==> s[i] <= bag_total(s),
{
    lemma_sum_prefix_bounds(s, 7);
}

impl TotemBag {
    /// Empty bag.
    pub fn new() -> (r: TotemBag)
        ensures
            forall|i: int| 0 <= i < 7 ==> r.0@[i] == 0,
            bag_total(r.0@) == 0,
    {
        let r = TotemBag([0, 0, 0, 0, 0, 0, 0]);
        proof {
            lemma_sum_prefix_zero(r.0@, 7);
        }
        r
    }

    /// Bag counting the occurrences of each shape in a sequence.
    pub fn from_iter(src: &Vec<Totem>) -> (r: TotemBag)
        ensures
            forall|i: int| 0 <= i < 7 ==> r.0@[i] == shape_count(src@, i),
            bag_total(r.0@) == src@.len(),
    {
        let mut r = TotemBag::new();
        let mut j: usize = 0;
        proof {
            assert(forall|i: int| 0 <= i < 7 ==> shape_count(src@.take(0), i) == 0);
        }
        while j < src.len()
            invariant
                j <= src@.len(),
                forall|i: int| 0 <= i < 7 ==> r.0@[i] == shape_count(src@.take(j as int), i),
                forall|i: int| 0 <= i < 7 ==> r.0@[i] <= j,
            decreases src@.len() - j,
        {
            let idx = src[j].as_index();
            proof {
                assert(src@.take(j + 1).drop_last() =~= src@.take(j as int));
                assert(src@.take(j + 1).last() == src@[j as int]);
            }
            let ghost old_counts = r.0@;
            r.0[idx] = r.0[idx] + 1;
            proof {
                assert(forall|i: int|
                    0 <= i < 7 && i != idx ==> r.0@[i] == old_counts[i]);
            }
            j = j + 1;
        }
        proof {
            assert(src@.take(src@.len() as int) =~= src@);
            lemma_shape_count_total(src@);
            lemma_bag_total_explicit(r.0@);
        }
        r
    }

    /// Total number of pieces in the bag.
    pub fn total(&self) -> (r: usize)
        requires
            bag_total(self.0@) <= usize::MAX,
        ensures
            r == bag_total(self.0@),
    {
        let mut sum: usize = 0;
        let mut i: usize = 0;
        proof {
            lemma_sum_prefix_mono(self.0@, 7);
        }
        while i < 7
            invariant
                i <= 7,
                self.0@.len() == 7,
                sum == sum_prefix(self.0@, i as int),
                bag_total(self.0@) <= usize::MAX,
                forall|n: int| 0 <= n <= 7 ==> sum_prefix(self.0@, n) <= bag_total(self.0@),
            decreases 7 - i,
        {
            proof {
                assert(sum_prefix(self.0@, i + 1) == sum_prefix(self.0@, i as int)
                    + self.0@[i as int]);
            }
            sum = sum + self.0[i];
            i = i + 1;
        }
        sum
    }

    /// Whether every count is zero.
    pub fn is_empty(&self) -> (r: bool)
        ensures
            r == (forall|i: int| 0 <= i < 7 ==> self.0@[i] == 0),
            r == (bag_total(self.0@) == 0),
    {
        let mut i: usize = 0;
        let mut empty = true;
        while i < 7
            invariant
                i <= 7,
                self.0@.len() == 7,
                empty == (forall|k: int| 0 <= k < i ==> self.0@[k] == 0),
            decreases 7 - i,
        {
            if self.0[i] != 0 {
                empty = false;
            }
            i = i + 1;
        }
        proof {
            lemma_bag_total_bounds(self.0@);
            if forall|i: int| 0 <= i < 7 ==> self.0@[i] == 0 {
                assert(bag_total(self.0@) == 0) by {
                    lemma_sum_prefix_zero(self.0@, 7);
                }
            }
        }
        empty
    }

    /// Whether at least one piece of the given shape is present.
    pub fn contains(&self, totem: &Totem) -> (r: bool)
        ensures
            r == (self.0@[totem_index_spec(*totem)] > 0),
    {
        self.0[totem.as_index()] > 0
    }

    /// All pieces of the bag as a sequence, grouped in shape order.
    pub fn expand(&self) -> (r: Vec<Totem>)
        requires
            bag_total(self.0@) <= usize::MAX,
        ensures
            forall|i: int| 0 <= i < 7 ==> shape_count(r@, i) == self.0@[i],
            r@.len() == bag_total(self.0@),
            forall|a: int, b: int|
                0 <= a <= b < r@.len() ==> totem_index_spec(r@[a]) <= totem_index_spec(r@[b]),
    {
        let mut r: Vec<Totem> = Vec::new();
        let mut i: usize = 0;
        proof {
            lemma_sum_prefix_mono(self.0@, 7);
        }
        while i < 7
            invariant
                i <= 7,
                self.0@.len() == 7,
                r@.len() == sum_prefix(self.0@, i as int),
                forall|k: int| 0 <= k < i ==> shape_count(r@, k) == self.0@[k],
                forall|k: int| i <= k < 7 ==> shape_count(r@, k) == 0,
                forall|n: int| 0 <= n <= 7 ==> sum_prefix(self.0@, n) <= bag_total(self.0@),
                bag_total(self.0@) <= usize::MAX,
                forall|a: int, b: int|
                    0 <= a <= b < r@.len() ==> totem_index_spec(r@[a]) <= totem_index_spec(r@[b]),
                forall|a: int| 0 <= a < r@.len() ==> totem_index_spec(r@[a]) < i,
            decreases 7 - i,
        {
            let t = Totem::from_index(i);
            let count = self.0[i];
            let mut c: usize = 0;
            while c < count
                invariant
                    c <= count,
                    count == self.0@[i as int],
                    self.0@.len() == 7,
                    i < 7,
                    t == totem_of_index_spec(i as int),
                    totem_index_spec(t) == i,
                    r@.len() == sum_prefix(self.0@, i as int) + c,
                    forall|n: int| 0 <= n <= 7 ==> sum_prefix(self.0@, n) <= bag_total(self.0@),
                    bag_total(self.0@) <= usize::MAX,
                    forall|k: int| 0 <= k < i ==> shape_count(r@, k) == self.0@[k],
                    forall|k: int| i < k < 7 ==> shape_count(r@, k) == 0,
                    shape_count(r@, i as int) == c,
                    forall|a: int, b: int|
                        0 <= a <= b < r@.len() ==> totem_index_spec(r@[a]) <= totem_index_spec(
                            r@[b],
                        ),
                    forall|a: int| 0 <= a < r@.len() ==> totem_index_spec(r@[a]) <= i,
                decreases count - c,
            {
                proof {
                    assert(sum_prefix(self.0@, i + 1) == sum_prefix(self.0@, i as int)
                        + self.0@[i as int]);
                }
                let ghost prev = r@;
                r.push(t);
                proof {
                    assert(r@.drop_last() =~= prev);
                    assert(forall|k: int|
                        0 <= k < 7 ==> shape_count(r@, k) == shape_count(r@.drop_last(), k) + if k
                            == i {
                            1int
                        } else {
                            0int
                        });
                }
                c = c + 1;
            }
            proof {
                assert(sum_prefix(self.0@, i + 1) == sum_prefix(self.0@, i as int)
                    + self.0@[i as int]);
            }
            i = i + 1;
        }
        r
    }

    /// Whether this bag can pay the componentwise cost `cost`.
    pub fn can_afford(&self, cost: &TotemBag) -> (r: bool)
        ensures
            r == can_afford_spec(self.0@, cost.0@),
    {
        let mut affordable = true;
        let mut i: usize = 0;
        while i < 7
            invariant
                i <= 7,
                self.0@.len() == 7,
                cost.0@.len() == 7,
                affordable == (forall|k: int| 0 <= k < i ==> cost.0@[k] <= self.0@[k]),
            decreases 7 - i,
        {
            affordable = affordable && cost.0[i] <= self.0[i];
            i = i + 1;
        }
        affordable
    }

    /// Add `cost` to this bag, componentwise.
    pub fn add(&mut self, cost: &TotemBag)
        requires
            forall|i: int| 0 <= i < 7 ==> old(self).0@[i] + cost.0@[i] <= usize::MAX,
        ensures
            forall|i: int| 0 <= i < 7 ==> final(self).0@[i] == old(self).0@[i] + cost.0@[i],
    {
        let mut i: usize = 0;
        while i < 7
            invariant
                i <= 7,
                self.0@.len() == 7,
                cost.0@.len() == 7,
                forall|k: int| 0 <= k < 7 ==> old(self).0@[k] + cost.0@[k] <= usize::MAX,
                forall|k: int| i <= k < 7 ==> self.0@[k] == old(self).0@[k],
                forall|k: int| 0 <= k < i ==> self.0@[k] == old(self).0@[k] + cost.0@[k],
            decreases 7 - i,
        {
            self.0[i] = self.0[i] + cost.0[i];
            i = i + 1;
        }
    }

    /// Remove `cost` from this bag, componentwise; the bag must afford it.
    pub fn subtract(&mut self, cost: &TotemBag)
        requires
            can_afford_spec(old(self).0@, cost.0@),
        ensures
            forall|i: int| 0 <= i < 7 ==> final(self).0@[i] == old(self).0@[i] - cost.0@[i],
    {
        let mut i: usize = 0;
        while i < 7
            invariant
                i <= 7,
                self.0@.len() == 7,
                cost.0@.len() == 7,
                can_afford_spec(old(self).0@, cost.0@),
                forall|k: int| i <= k < 7 ==> self.0@[k] == old(self).0@[k],
                forall|k: int| 0 <= k < i ==> self.0@[k] == old(self).0@[k] - cost.0@[k],
            decreases 7 - i,
        {
            self.0[i] = self.0[i] - cost.0[i];
            i = i + 1;
        }
    }

    /// A shape with the smallest count (first such shape in the ordering).
    pub fn min(&self) -> (r: Totem)
        ensures
            forall|j: int| 0 <= j < 7 ==> self.0@[totem_index_spec(r)] <= #[trigger] self.0@[j],
            forall|j: int| 0 <= j < totem_index_spec(r) ==> #[trigger] self.0@[j] > self.0@[totem_index_spec(r)],
    {
        let mut best: usize = 0;
        let mut i: usize = 1;
        while i < 7
            invariant
                1 <= i <= 7,
                best < i,
                self.0@.len() == 7,
                forall|j: int| 0 <= j < i ==> self.0@[best as int] <= self.0@[j],
                forall|j: int| 0 <= j < best ==> self.0@[j] > self.0@[best as int],
            decreases 7 - i,
        {
            if self.0[i] < self.0[best] {
                best = i;
            }
            i = i + 1;
        }
        Totem::from_index(best)
    }

    /// A shape with the largest count (last such shape in the ordering).
    pub fn max(&self) -> (r: Totem)
        ensures
            forall|j: int| 0 <= j < 7 ==> self.0@[totem_index_spec(r)] >= #[trigger] self.0@[j],
            forall|j: int|
                totem_index_spec(r) < j < 7 ==> #[trigger] self.0@[j] < self.0@[totem_index_spec(r)],
    {
        let mut best: usize = 0;
        let mut i: usize = 1;
        while i < 7
            invariant
                1 <= i <= 7,
                best < i,
                self.0@.len() == 7,
                forall|j: int| 0 <= j < i ==> self.0@[best as int] >= self.0@[j],
                forall|j: int| best < j < i ==> self.0@[j] < self.0@[best as int],
            decreases 7 - i,
        {
            if self.0[i] >= self.0[best] {
                best = i;
            }
            i = i + 1;
        }
        Totem::from_index(best)
    }
}

proof fn lemma_sum_prefix_zero(s: Seq<usize>, n: int)
    requires
        0 <= n <= 7,
        s.len() == 7,
        forall|i: int| 0 <= i < 7 ==> s[i] == 0,
    ensures
        sum_prefix(s, n) == 0,
    decreases n,
{
    if n > 0 {
        lemma_sum_prefix_zero(s, n - 1);
    }
}

proof fn lemma_sum_prefix_mono(s: Seq<usize>, n: int)
    requires
        0 <= n <= 7,
        s.len() == 7,
    ensures
        forall|m: int| 0 <= m <= n ==> sum_prefix(s, m) <= sum_prefix(s, n),
    decreases n,
{
    if n > 0 {
        lemma_sum_prefix_mono(s, n - 1);
    }
}

proof fn lemma_sum_prefix_update(s: Seq<usize>, i: int, v: usize, n: int)
    requires
        0 <= i < 7,
        s.len() == 7,
        0 <= n <= 7,
    ensures
        sum_prefix(s.update(i, v), n) == sum_prefix(s, n) + if i < n {
            v - s[i]
        } else {
            0int
        },
    decreases n,
{
    if n > 0 {
        lemma_sum_prefix_update(s, i, v, n - 1);
    }
}

/// Changing one entry of a bag changes its total by the same amount.
pub proof fn lemma_bag_total_update(s: Seq<usize>, i: int, v: usize)
    requires
        0 <= i < 7,
        s.len() == 7,
    ensures
        bag_total(s.update(i, v)) == bag_total(s) + v - s[i],
{
    lemma_sum_prefix_update(s, i, v, 7);
}

proof fn lemma_sum_prefix_sub(a: Seq<usize>, c: Seq<usize>, b: Seq<usize>, n: int)
    requires
        a.len() == 7,
        c.len() == 7,
        b.len() == 7,
        0 <= n <= 7,
        forall|i: int| 0 <= i < 7 ==> b[i] == a[i] - c[i],
    ensures
        sum_prefix(b, n) == sum_prefix(a, n) - sum_prefix(c, n),
    decreases n,
{
    if n > 0 {
        lemma_sum_prefix_sub(a, c, b, n - 1);
    }
}

/// Subtracting a cost componentwise subtracts its total.
pub proof fn lemma_bag_total_sub(a: Seq<usize>, c: Seq<usize>, b: Seq<usize>)
    requires
        a.len() == 7,
        c.len() == 7,
        b.len() == 7,
        forall|i: int| 0 <= i < 7 ==> b[i] == a[i] - c[i],
    ensures
        bag_total(b) == bag_total(a) - bag_total(c),
{
    lemma_sum_prefix_sub(a, c, b, 7);
}

/// Appending one shape raises that shape's count by one.
pub proof fn lemma_shape_count_push(s: Seq<Totem>, t: Totem)
    ensures
        forall|i: int|
            shape_count(s.push(t), i) == shape_count(s, i) + if totem_index_spec(t) == i {
                1int
            } else {
                0int
            },
{
    assert(s.push(t).drop_last() =~= s);
    assert(s.push(t).last() == t);
}

/// Adding a cost bag and then subtracting it restores every count.
pub proof fn lemma_add_subtract_roundtrip(
    b: Seq<usize>,
    x: Seq<usize>,
    after_add: Seq<usize>,
    after_sub: Seq<usize>,
)
    requires
        b.len() == 7,
        x.len() == 7,
        forall|i: int| 0 <= i < 7 ==> after_add[i] == b[i] + x[i],
        forall|i: int| 0 <= i < 7 ==> after_sub[i] == after_add[i] - x[i],
    ensures
        forall|i: int| 0 <= i < 7 ==> after_sub[i] == b[i],
{
}

/// The counts of a one-shape sequence.
pub proof fn lemma_shape_count_singleton(t: Totem)
    ensures
        forall|i: int|
            shape_count(seq![t], i) == if totem_index_spec(t) == i {
                1int
            } else {
                0int
            },
{
    assert(seq![t].drop_last() =~= Seq::<Totem>::empty());
    assert(seq![t].last() == t);
    assert(forall|i: int| shape_count(Seq::<Totem>::empty(), i) == 0);
    assert forall|i: int|
        shape_count(seq![t], i) == if totem_index_spec(t) == i {
            1int
        } else {
            0int
        } by {
        assert(shape_count(seq![t], i) == shape_count(seq![t].drop_last(), i)
            + if totem_index_spec(seq![t].last()) == i {
            1int
        } else {
            0int
        });
    }
}

/// The per-shape counts of a sequence sum to its length.
pub proof fn lemma_shape_count_total(s: Seq<Totem>)
    ensures
        shape_count(s, 0) + shape_count(s, 1) + shape_count(s, 2) + shape_count(s, 3)
            + shape_count(s, 4) + shape_count(s, 5) + shape_count(s, 6) == s.len(),
    decreases s.len(),
{
    if s.len() > 0 {
        lemma_shape_count_total(s.drop_last());
    }
}

/// A shape's count never exceeds the sequence length.
pub proof fn lemma_shape_count_bounded(s: Seq<Totem>, i: int)
    ensures
        shape_count(s, i) <= s.len(),
    decreases s.len(),
{
    if s.len() > 0 {
        lemma_shape_count_bounded(s.drop_last(), i);
    }
}

/// Counts are never negative.
pub proof fn lemma_shape_count_nonneg(s: Seq<Totem>, i: int)
    ensures
        shape_count(s, i) >= 0,
    decreases s.len(),
{
    if s.len() > 0 {
        lemma_shape_count_nonneg(s.drop_last(), i);
    }
}

/// A problem statement: the list of pieces to place.
#[derive(Clone, Debug)]
pub struct Question {
    pub totems: Vec<TotemQuestion>,
}

impl Question {
    /// The count vector of the question's pieces.
    pub fn get_totem_bag(&self) -> (r: TotemBag)
        ensures
            forall|i: int|
                0 <= i < 7 ==> r.0@[i] == shape_count(
                    self.totems@.map_values(|q: TotemQuestion| q.shape),
                    i,
                ),
            bag_total(r.0@) == self.totems@.len(),
    {
        let mut shapes: Vec<Totem> = Vec::new();
        let mut j: usize = 0;
        while j < self.totems.len()
            invariant
                j <= self.totems@.len(),
                shapes@ =~= self.totems@.take(j as int).map_values(|q: TotemQuestion| q.shape),
            decreases self.totems@.len() - j,
        {
            shapes.push(self.totems[j].shape);
            proof {
                assert(self.totems@.take(j + 1).map_values(|q: TotemQuestion| q.shape)
                    =~= self.totems@.take(j as int).map_values(|q: TotemQuestion| q.shape).push(
                    self.totems@[j as int].shape,
                ));
            }
            j = j + 1;
        }
        proof {
            assert(self.totems@.take(self.totems@.len() as int) =~= self.totems@);
        }
        TotemBag::from_iter(&shapes)
    }
}

/// One placed piece: its shape and the four cells it covers.
#[derive(Clone, Copy, Debug)]
pub struct TotemAnswer {
    pub shape: Totem,
    pub coordinates: [(usize, usize); 4],
}

impl TotemAnswer {
    /// Build a placement record.
    pub fn new(shape: Totem, coordinates: [(usize, usize); 4]) -> (r: TotemAnswer)
        ensures
            r.shape == shape,
            r.coordinates == coordinates,
    {
        TotemAnswer { shape, coordinates }
    }

    /// The same placement translated by (x, y).
    pub fn offset_by(&self, x: usize, y: usize) -> (r: TotemAnswer)
        requires
            forall|a: int|
                0 <= a < 4 ==> self.coordinates@[a].0 + x <= usize::MAX
                    && self.coordinates@[a].1 + y <= usize::MAX,
        ensures
            r.shape == self.shape,
            r.coordinates@.len() == 4,
            forall|a: int|
                0 <= a < 4 ==> r.coordinates@[a].0 == self.coordinates@[a].0 + x
                    && r.coordinates@[a].1 == self.coordinates@[a].1 + y,
    {
        let mut coords = self.coordinates;
        let mut a: usize = 0;
        while a < 4
            invariant
                a <= 4,
                coords@.len() == 4,
                forall|b: int|
                    0 <= b < 4 ==> self.coordinates@[b].0 + x <= usize::MAX
                        && self.coordinates@[b].1 + y <= usize::MAX,
                forall|b: int|
                    a <= b < 4 ==> coords@[b] == self.coordinates@[b],
                forall|b: int|
                    0 <= b < a ==> coords@[b].0 == self.coordinates@[b].0 + x && coords@[b].1
                        == self.coordinates@[b].1 + y,
            decreases 4 - a,
        {
            let (cx, cy) = coords[a];
            coords[a] = (cx + x, cy + y);
            a = a + 1;
        }
        TotemAnswer::new(self.shape, coords)
    }
}

/// A full solution: the list of placed pieces.
#[derive(Clone, Debug)]
pub struct Answer {
    pub totems: Vec<TotemAnswer>,
}

impl Answer {
    /// Wrap a placement list as an answer.
    pub fn new(totems: Vec<TotemAnswer>) -> (r: Answer)
        ensures
            r.totems == totems,
    {
        Answer { totems }
    }
}

/// One message from the game driver: a tick number and a question.
#[derive(Clone, Debug)]
pub struct GameMessage {
    pub tick: i32,
    pub payload: Question,
}

} // verus!
