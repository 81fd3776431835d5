//! An inventory of small rectangles that can be tiled exactly by totem
//! pieces. Hard perfect-fit instances are solved by packing such
//! rectangles instead of single pieces.

use vstd::prelude::*;

use crate::game_interface::{bag_total, can_afford_spec, shape_count, TotemAnswer, TotemBag};
use crate::solution::placement_shapes;

verus! {

/// A width and height.
#[derive(Clone, Copy, PartialEq, Eq, Structural, Debug)]
pub struct Dims {
    pub width: usize,
    pub height: usize,
}

impl Dims {
    /// Build a dimension pair.
    pub fn new(width: usize, height: usize) -> (r: Dims)
        ensures
            r.width == width,
            r.height == height,
    {
        Dims { width, height }
    }
}

/// A precomputed rectangle: its dimensions, the bag of pieces it costs,
/// and a placement list that tiles it.
#[derive(Clone, Debug)]
pub struct Rectangle {
    pub dims: Dims,
    pub cost: TotemBag,
    pub totems: Vec<TotemAnswer>,
}

/// Well-formedness of an inventory rectangle: a nonempty box tiled
/// exactly — every cell of the tiling inside it and used once, four
/// cells per piece filling the whole area — with the cost equal to the
/// tiling's shape counts.
pub open spec fn rect_wf(r: Rectangle) -> bool {
    &&& 1 <= r.dims.width <= 255
    &&& 1 <= r.dims.height <= 255
    &&& r.totems@.len() >= 1
    &&& 4 * r.totems@.len() == r.dims.width * r.dims.height
    &&& forall|p: int, k: int|
        0 <= p < r.totems@.len() && 0 <= k < 4 ==> (#[trigger] r.totems@[p].coordinates@[k]).0
            < r.dims.width && r.totems@[p].coordinates@[k].1 < r.dims.height
    &&& crate::solution::cells_disjoint(r.totems@)
    &&& forall|i: int| 0 <= i < 7 ==> r.cost.0@[i] == shape_count(placement_shapes(r.totems@), i)
}

/// `b` is `a` rotated 90 degrees clockwise: dimensions swapped and every
/// cell (x, y) moved to (y, w - 1 - x).
pub open spec fn is_rotation_of(b: Rectangle, a: Rectangle) -> bool {
    &&& b.dims.width == a.dims.height
    &&& b.dims.height == a.dims.width
    &&& b.cost == a.cost
    &&& b.totems@.len() == a.totems@.len()
    &&& forall|p: int|
        0 <= p < a.totems@.len() ==> (#[trigger] b.totems@[p]).shape == a.totems@[p].shape
    &&& forall|p: int, k: int|
        0 <= p < a.totems@.len() && 0 <= k < 4 ==> (#[trigger] b.totems@[p].coordinates@[k]).0
            == a.totems@[p].coordinates@[k].1 && b.totems@[p].coordinates@[k].1 == a.dims.width - 1
            - a.totems@[p].coordinates@[k].0
}

impl Rectangle {
    /// Build an inventory rectangle.
    pub fn new(dims: Dims, cost: TotemBag, totems: Vec<TotemAnswer>) -> (r: Rectangle)
        ensures
            r.dims == dims,
            r.cost == cost,
            r.totems == totems,
    {
        Rectangle { dims, cost, totems }
    }

    /// The rectangle rotated 90 degrees clockwise.
    #[verifier::rlimit(60)]
    pub fn rotate(&self) -> (r: Rectangle)
        requires
            rect_wf(*self),
        ensures
            is_rotation_of(r, *self),
            rect_wf(r),
    {
        let dims = Dims::new(self.dims.height, self.dims.width);
        let mut totems: Vec<TotemAnswer> = Vec::new();
        let mut p: usize = 0;
        while p < self.totems.len()
            invariant
                p <= self.totems@.len(),
                rect_wf(*self),
                totems@.len() == p,
                forall|q: int| 0 <= q < p ==> (#[trigger] totems@[q]).shape == self.totems@[q].shape,
                forall|q: int, k: int|
                    0 <= q < p && 0 <= k < 4 ==> (#[trigger] totems@[q].coordinates@[k]).0
                        == self.totems@[q].coordinates@[k].1 && totems@[q].coordinates@[k].1
                        == self.dims.width - 1 - self.totems@[q].coordinates@[k].0,
            decreases self.totems@.len() - p,
        {
            let t = &self.totems[p];
            let mut coords = t.coordinates;
            let mut k: usize = 0;
            while k < 4
                invariant
                    k <= 4,
                    p < self.totems@.len(),
                    rect_wf(*self),
                    t == &self.totems@[p as int],
                    coords@.len() == 4,
                    forall|b: int| k <= b < 4 ==> coords@[b] == t.coordinates@[b],
                    forall|b: int|
                        0 <= b < k ==> (#[trigger] coords@[b]).0 == t.coordinates@[b].1
                            && coords@[b].1 == self.dims.width - 1 - t.coordinates@[b].0,
                decreases 4 - k,
            {
                let (cx, cy) = coords[k];
                coords[k] = (cy, self.dims.width - 1 - cx);
                k = k + 1;
            }
            let ghost pre_t = totems@;
            totems.push(TotemAnswer::new(t.shape, coords));
            proof {
                assert(totems@[p as int].coordinates@ == coords@);
                assert(forall|q: int| 0 <= q < p ==> #[trigger] totems@[q] == pre_t[q]);
                assert forall|q: int, k2: int|
                    0 <= q < p + 1 && 0 <= k2 < 4 implies (
                #[trigger] totems@[q].coordinates@[k2]).0 == self.totems@[q].coordinates@[k2].1
                    && totems@[q].coordinates@[k2].1 == self.dims.width - 1
                    - self.totems@[q].coordinates@[k2].0 by {
                    if q == p {
                        assert(totems@[q].coordinates@[k2] == coords@[k2]);
                        assert(coords@[k2].0 == t.coordinates@[k2].1);
                    } else {
                        assert(totems@[q] == pre_t[q]);
                    }
                }
            }
            p = p + 1;
        }
        let r = Rectangle::new(dims, self.cost, totems);
        proof {
            assert(placement_shapes(r.totems@) =~= placement_shapes(self.totems@));
            lemma_shape_count_same(placement_shapes(r.totems@), placement_shapes(self.totems@));
            // the rotation map is injective, so the cells stay distinct
            assert forall|p1: int, k1: int, p2: int, k2: int|
                0 <= p1 < r.totems@.len() && 0 <= k1 < 4 && 0 <= p2 < r.totems@.len() && 0 <= k2
                    < 4 && (p1 != p2 || k1 != k2) implies #[trigger] r.totems@[p1].coordinates@[k1]
                != #[trigger] r.totems@[p2].coordinates@[k2] by {
                let a = self.totems@[p1].coordinates@[k1];
                let b = self.totems@[p2].coordinates@[k2];
                assert(a != b);
                assert(r.totems@[p1].coordinates@[k1] == (
                    a.1,
                    (self.dims.width - 1 - a.0) as usize,
                ));
                assert(r.totems@[p2].coordinates@[k2] == (
                    b.1,
                    (self.dims.width - 1 - b.0) as usize,
                ));
            }
        }
        r
    }
}

proof fn lemma_shape_count_same(a: Seq<crate::game_interface::Totem>, b: Seq<crate::game_interface::Totem>)
    requires
        a == b,
    ensures
        forall|i: int| shape_count(a, i) == shape_count(b, i),
{
}

impl Rectangle {
    /// A copy of this rectangle.
    pub fn clone_rect(&self) -> (r: Rectangle)
        ensures
            r.dims == self.dims,
            r.cost == self.cost,
            r.totems@ == self.totems@,
            rect_wf(*self) ==> rect_wf(r),
    {
        let mut totems: Vec<TotemAnswer> = Vec::new();
        let mut i: usize = 0;
        while i < self.totems.len()
            invariant
                i <= self.totems@.len(),
                totems@ =~= self.totems@.take(i as int),
            decreases self.totems@.len() - i,
        {
            totems.push(self.totems[i]);
            proof {
                assert(totems@ =~= self.totems@.take(i + 1));
            }
            i = i + 1;
        }
        proof {
            assert(self.totems@.take(self.totems@.len() as int) =~= self.totems@);
        }
        let r = Rectangle { dims: self.dims, cost: self.cost, totems };
        proof {
            if rect_wf(*self) {
                assert(placement_shapes(r.totems@) == placement_shapes(self.totems@));
            }
        }
        r
    }
}

/// A well-formed rectangle's cost counts exactly its tiling's pieces.
pub proof fn lemma_rect_cost_total(r: Rectangle)
    requires
        rect_wf(r),
    ensures
        bag_total(r.cost.0@) == r.totems@.len(),
        bag_total(r.cost.0@) >= 1,
{
    crate::game_interface::lemma_shape_count_total(placement_shapes(r.totems@));
    crate::game_interface::lemma_bag_total_explicit(r.cost.0@);
}

/// The pieces of a well-formed rectangle's cost fill its area exactly:
/// four cells per piece, no cell spare.
pub proof fn lemma_rect_cost_area(r: Rectangle)
    requires
        rect_wf(r),
    ensures
        4 * bag_total(r.cost.0@) == r.dims.width * r.dims.height,
{
    lemma_rect_cost_total(r);
}

/// Rotating an inventory rectangle four times in a row gives back the
/// original cells, placement by placement and coordinate by coordinate.
pub proof fn lemma_rotate_four_times(
    r0: Rectangle,
    r1: Rectangle,
    r2: Rectangle,
    r3: Rectangle,
    r4: Rectangle,
)
    requires
        rect_wf(r0),
        is_rotation_of(r1, r0),
        is_rotation_of(r2, r1),
        is_rotation_of(r3, r2),
        is_rotation_of(r4, r3),
    ensures
        r4.dims == r0.dims,
        r4.totems@.len() == r0.totems@.len(),
        forall|p: int|
            0 <= p < r0.totems@.len() ==> (#[trigger] r4.totems@[p]).shape == r0.totems@[p].shape,
        forall|p: int, k: int|
            0 <= p < r0.totems@.len() && 0 <= k < 4 ==> (#[trigger] r4.totems@[p].coordinates@[k])
                == r0.totems@[p].coordinates@[k],
{
    assert forall|p: int, k: int|
        0 <= p < r0.totems@.len() && 0 <= k < 4 implies (#[trigger] r4.totems@[p].coordinates@[k])
        == r0.totems@[p].coordinates@[k] by {
        let c0 = r0.totems@[p].coordinates@[k];
        let c1 = r1.totems@[p].coordinates@[k];
        let c2 = r2.totems@[p].coordinates@[k];
        let c3 = r3.totems@[p].coordinates@[k];
        let c4 = r4.totems@[p].coordinates@[k];
        assert(c0.0 < r0.dims.width && c0.1 < r0.dims.height);
        assert(c1 == (c0.1, (r0.dims.width - 1 - c0.0) as usize));
        assert(c2 == (c1.1, (r1.dims.width - 1 - c1.0) as usize));
        assert(c3 == (c2.1, (r2.dims.width - 1 - c2.0) as usize));
        assert(c4 == (c3.1, (r3.dims.width - 1 - c3.0) as usize));
    }
}

/// A light handle to an inventory rectangle: its (possibly flipped)
/// dimensions and the slot of the full entry.
#[derive(Clone, Copy, PartialEq, Eq, Structural, Debug)]
pub struct RectangleMetadata {
    pub dims: Dims,
    pub index: usize,
}

impl RectangleMetadata {
    /// Whether the handle's box is square.
    pub fn is_square(&self) -> (r: bool)
        ensures
            r == (self.dims.width == self.dims.height),
    {
        self.dims.width == self.dims.height
    }

    /// Flip the handle's dimensions; the full entry is rotated lazily when
    /// an answer is materialized.
    pub fn rotate(&mut self)
        ensures
            final(self).dims.width == old(self).dims.height,
            final(self).dims.height == old(self).dims.width,
            final(self).index == old(self).index,
    {
        let w = self.dims.width;
        let h = self.dims.height;
        self.dims.width = h;
        self.dims.height = w;
    }
}

/// The loaded inventory: the full rectangles and one handle per slot.
#[derive(Clone, Debug)]
pub struct RectangleInventory {
    pub rectangles: Vec<Rectangle>,
    pub metadata: Vec<RectangleMetadata>,
}

/// Well-formedness of an inventory: one handle per rectangle, in order,
/// and every rectangle well-formed.
pub open spec fn inventory_wf(inv: RectangleInventory) -> bool {
    &&& inv.metadata@.len() == inv.rectangles@.len()
    &&& forall|i: int|
        0 <= i < inv.metadata@.len() ==> (#[trigger] inv.metadata@[i]).index == i
            && inv.metadata@[i].dims == inv.rectangles@[i].dims
    &&& forall|i: int| 0 <= i < inv.rectangles@.len() ==> rect_wf(#[trigger] inv.rectangles@[i])
}

impl RectangleInventory {
    /// Spec view: the rectangle list.
    pub open spec fn rects(&self) -> Seq<Rectangle> {
        self.rectangles@
    }

    /// Build an inventory from a rectangle list.
    pub fn new(rectangles: Vec<Rectangle>) -> (r: RectangleInventory)
        requires
            forall|i: int| 0 <= i < rectangles@.len() ==> rect_wf(#[trigger] rectangles@[i]),
        ensures
            inventory_wf(r),
            r.rects() == rectangles@,
    {
        let mut metadata: Vec<RectangleMetadata> = Vec::new();
        let mut i: usize = 0;
        while i < rectangles.len()
            invariant
                i <= rectangles@.len(),
                metadata@.len() == i,
                forall|j: int|
                    0 <= j < i ==> (#[trigger] metadata@[j]).index == j && metadata@[j].dims
                        == rectangles@[j].dims,
            decreases rectangles@.len() - i,
        {
            metadata.push(RectangleMetadata { dims: rectangles[i].dims, index: i });
            i = i + 1;
        }
        RectangleInventory { rectangles, metadata }
    }

    /// The cost bag of the rectangle a handle points at.
    pub fn get_cost(&self, metadata: &RectangleMetadata) -> (r: &TotemBag)
        requires
            metadata.index < self.rects().len(),
        ensures
            r == self.rects()[metadata.index as int].cost,
    {
        &self.rectangles[metadata.index].cost
    }

    /// The full rectangle a handle points at.
    pub fn get_rectangle(&self, metadata: &RectangleMetadata) -> (r: &Rectangle)
        requires
            metadata.index < self.rects().len(),
        ensures
            r == self.rects()[metadata.index as int],
    {
        &self.rectangles[metadata.index]
    }

    /// Whether a handle's rectangle is affordable from a bag.
    pub open spec fn affordable(&self, bagv: Seq<usize>) -> spec_fn(RectangleMetadata) -> bool {
        |m: RectangleMetadata| can_afford_spec(bagv, self.rects()[m.index as int].cost.0@)
    }

    /// All handles whose rectangle the given bag can afford: the handle
    /// list filtered in order, duplicate-free because the handles are.
    pub fn available_rectangles(&self, bag: &TotemBag) -> (r: Vec<RectangleMetadata>)
        requires
            inventory_wf(*self),
        ensures
            r@ == self.metadata@.filter(self.affordable(bag.0@)),
            forall|j: int|
                0 <= j < r@.len() ==> (#[trigger] r@[j]).index < self.rects().len()
                    && r@[j].dims == self.rects()[r@[j].index as int].dims && can_afford_spec(
                    bag.0@,
                    self.rects()[r@[j].index as int].cost.0@,
                ),
            // every affordable handle is kept
            forall|i: int|
                0 <= i < self.metadata@.len() && can_afford_spec(
                    bag.0@,
                    self.rects()[i].cost.0@,
                ) ==> r@.contains(#[trigger] self.metadata@[i]),
    {
        let mut r: Vec<RectangleMetadata> = Vec::new();
        let mut i: usize = 0;
        while i < self.metadata.len()
            invariant
                i <= self.metadata@.len(),
                inventory_wf(*self),
                r@ =~= self.metadata@.take(i as int).filter(self.affordable(bag.0@)),
                forall|j: int|
                    0 <= j < r@.len() ==> (#[trigger] r@[j]).index < self.rects().len()
                        && r@[j].dims == self.rects()[r@[j].index as int].dims && can_afford_spec(
                        bag.0@,
                        self.rects()[r@[j].index as int].cost.0@,
                    ),
                forall|j: int|
                    0 <= j < i && can_afford_spec(bag.0@, self.rects()[j].cost.0@) ==> r@.contains(
                        #[trigger] self.metadata@[j],
                    ),
            decreases self.metadata@.len() - i,
        {
            let m = self.metadata[i];
            proof {
                reveal_with_fuel(Seq::filter, 2);
                assert(self.metadata@.take(i + 1).drop_last() =~= self.metadata@.take(i as int));
                assert(self.metadata@.take(i + 1).last() == self.metadata@[i as int]);
                assert(self.metadata@.take(i + 1).len() == i + 1);
            }
            if bag.can_afford(self.get_cost(&m)) {
                let ghost prev = r@;
                r.push(m);
                proof {
                    assert forall|x: RectangleMetadata| prev.contains(x) implies r@.contains(
                        x,
                    ) by {
                        let j = choose|j: int| 0 <= j < prev.len() && prev[j] == x;
                        assert(r@[j] == x);
                    }
                    assert(r@[r@.len() - 1] == self.metadata@[i as int]);
                    assert(r@ =~= self.metadata@.take(i + 1).filter(self.affordable(bag.0@)));
                }
            } else {
                proof {
                    assert(r@ =~= self.metadata@.take(i + 1).filter(self.affordable(bag.0@)));
                }
            }
            i = i + 1;
        }
        proof {
            assert(self.metadata@.take(self.metadata@.len() as int) =~= self.metadata@);
        }
        r
    }
}

/// Append to `out` every bag whose first `slot` counts match `cur` and
/// whose remaining counts distribute `remaining` pieces freely.
fn bags_rec(slot: usize, remaining: usize, cur: TotemBag, out: &mut Vec<TotemBag>, Ghost(k): Ghost<int>)
    requires
        slot < 7,
        remaining <= 1024,
        k <= 1024,
        crate::game_interface::sum_prefix(cur.0@, slot as int) + remaining == k,
        forall|j: int| slot <= j < 7 ==> cur.0@[j] == 0,
    ensures
        final(out)@.len() >= old(out)@.len(),
        forall|i: int| 0 <= i < old(out)@.len() ==> #[trigger] final(out)@[i] == old(out)@[i],
        forall|i: int|
            old(out)@.len() <= i < final(out)@.len() ==> bag_total(
                (#[trigger] final(out)@[i]).0@,
            ) == k,
    decreases 7 - slot,
{
    if slot == 6 {
        let mut b = cur;
        b.0[6] = remaining;
        proof {
            crate::game_interface::lemma_bag_total_update(cur.0@, 6, remaining);
            assert(bag_total(cur.0@) == crate::game_interface::sum_prefix(cur.0@, 6));
            assert(bag_total(b.0@) == k);
        }
        out.push(b);
        return ;
    }
    // counts for this slot go from high to low, matching an enumeration
    // of piece multisets in shape order
    let mut c: usize = remaining;
    loop
        invariant
            slot < 6,
            remaining <= 1024,
            k <= 1024,
            c <= remaining,
            crate::game_interface::sum_prefix(cur.0@, slot as int) + remaining == k,
            forall|j: int| slot <= j < 7 ==> cur.0@[j] == 0,
            out@.len() >= old(out)@.len(),
            forall|i: int| 0 <= i < old(out)@.len() ==> #[trigger] out@[i] == old(out)@[i],
            forall|i: int|
                old(out)@.len() <= i < out@.len() ==> bag_total((#[trigger] out@[i]).0@) == k,
        decreases c,
    {
        let mut next = cur;
        next.0[slot] = c;
        proof {
            assert(crate::game_interface::sum_prefix(next.0@, slot + 1)
                == crate::game_interface::sum_prefix(next.0@, slot as int) + next.0@[slot as int]);
            lemma_sum_prefix_same_outside(cur.0@, next.0@, slot as int);
        }
        bags_rec(slot + 1, remaining - c, next, out, Ghost(k));
        if c == 0 {
            break ;
        }
        c = c - 1;
    }
}

proof fn lemma_sum_prefix_same_outside(a: Seq<usize>, b: Seq<usize>, slot: int)
    requires
        a.len() == 7,
        b.len() == 7,
        0 <= slot < 7,
        forall|j: int| 0 <= j < slot ==> a[j] == b[j],
    ensures
        crate::game_interface::sum_prefix(a, slot) == crate::game_interface::sum_prefix(b, slot),
    decreases slot,
{
    if slot > 0 {
        lemma_sum_prefix_same_outside(a, b, slot - 1);
    }
}

/// Every bag of exactly `k` pieces over the seven shapes.
pub fn all_bags(k: usize) -> (r: Vec<TotemBag>)
    requires
        k <= 1024,
    ensures
        forall|i: int| 0 <= i < r@.len() ==> bag_total((#[trigger] r@[i]).0@) == k,
{
    let mut out: Vec<TotemBag> = Vec::new();
    let start = TotemBag::new();
    proof {
        crate::game_interface::lemma_bag_total_bounds(start.0@);
        assert(crate::game_interface::sum_prefix(start.0@, 0) == 0);
    }
    bags_rec(0, k, start, &mut out, Ghost(k as int));
    out
}

impl RectangleInventory {
    /// The persisted form of this inventory, as the flat byte format.
    pub fn to_bytes(&self) -> (r: Vec<u8>)
        requires
            forall|j: int|
                0 <= j < self.rects().len() ==> crate::inventory_codec::encodable(
                    #[trigger] self.rects()[j],
                ),
            self.rects().len() <= 65535,
        ensures
            r@ == crate::inventory_codec::inventory_bytes(self.rects()),
    {
        crate::inventory_codec::encode_rectangles(&self.rectangles)
    }

    /// Load an inventory from its persisted form. A successful load is
    /// well formed, fits the format, and re-encodes to exactly the given
    /// bytes; and the persisted form of any inventory always loads.
    pub fn from_bytes(bytes: &Vec<u8>) -> (r: Option<RectangleInventory>)
        ensures
            r matches Some(inv) ==> inventory_wf(inv) && crate::inventory_codec::inventory_bytes(
                inv.rects(),
            ) == bytes@ && (forall|j: int|
                0 <= j < inv.rects().len() ==> crate::inventory_codec::encodable(
                    #[trigger] inv.rects()[j],
                )),
            (exists|rs: Seq<Rectangle>|
                crate::inventory_codec::is_encoding(bytes@, rs)) ==> r is Some,
    {
        let rects = crate::inventory_codec::decode_rectangles(bytes);
        match rects {
            None => None,
            Some(rs) => {
                proof {
                    assert(forall|j: int| 0 <= j < rs@.len() ==> rect_wf(#[trigger] rs@[j]));
                }
                Some(RectangleInventory::new(rs))
            },
        }
    }

    /// Saving an inventory and loading what was saved gives back the
    /// same inventory, entry for entry: same dimensions, cost bags and
    /// placement lists, with the handles rebuilt in order.
    pub proof fn lemma_save_load_round_trip(
        saved: RectangleInventory,
        loaded: RectangleInventory,
    )
        requires
            inventory_wf(saved),
            inventory_wf(loaded),
            saved.rects().len() <= 65535,
            forall|j: int|
                0 <= j < saved.rects().len() ==> crate::inventory_codec::encodable(
                    #[trigger] saved.rects()[j],
                ),
            forall|j: int|
                0 <= j < loaded.rects().len() ==> crate::inventory_codec::encodable(
                    #[trigger] loaded.rects()[j],
                ),
            crate::inventory_codec::inventory_bytes(loaded.rects())
                == crate::inventory_codec::inventory_bytes(saved.rects()),
        ensures
            loaded.rects().len() == saved.rects().len(),
            forall|j: int|
                0 <= j < saved.rects().len() ==> crate::inventory_codec::rect_like(
                    #[trigger] loaded.rects()[j],
                    saved.rects()[j],
                ),
            loaded.metadata@.len() == saved.metadata@.len(),
            forall|j: int|
                0 <= j < saved.metadata@.len() ==> #[trigger] loaded.metadata@[j]
                    == saved.metadata@[j],
    {
        crate::inventory_codec::lemma_list_bytes_len(saved.rects(), saved.rects().len() as int);
        crate::inventory_codec::lemma_list_bytes_len(loaded.rects(), loaded.rects().len() as int);
        assert(crate::inventory_codec::inventory_bytes(saved.rects()).len() == 2 + 82
            * saved.rects().len());
        assert(crate::inventory_codec::inventory_bytes(loaded.rects()).len() == 2 + 82
            * loaded.rects().len());
        assert(loaded.rects().len() == saved.rects().len());
        crate::inventory_codec::lemma_encoding_injective(loaded.rects(), saved.rects());
        assert forall|j: int|
            0 <= j < saved.metadata@.len() implies #[trigger] loaded.metadata@[j]
            == saved.metadata@[j] by {
            assert(loaded.metadata@[j].index == j && saved.metadata@[j].index == j);
            assert(loaded.metadata@[j].dims == loaded.rects()[j].dims);
            assert(saved.metadata@[j].dims == saved.rects()[j].dims);
            assert(crate::inventory_codec::rect_like(loaded.rects()[j], saved.rects()[j]));
        }
    }

    /// Build the inventory from nothing: for every w-by-h box with w <= h
    /// and area at most `max_area` divisible by four, try every bag of
    /// area/4 pieces with the exhaustive solver, and keep each box that
    /// some bag tiles exactly. Up to an area of 32 every entry fits the
    /// persisted byte format.
    pub fn from_scratch(max_area: usize) -> (r: RectangleInventory)
        requires
            4 <= max_area <= 64,
        ensures
            inventory_wf(r),
            r.rects().len() <= 65535,
            max_area <= 32 ==> forall|j: int|
                0 <= j < r.rects().len() ==> crate::inventory_codec::encodable(
                    #[trigger] r.rects()[j],
                ),
    {
        let solver = crate::exhaustive_solver::ExhaustiveSolver::new();
        let mut rectangles: Vec<Rectangle> = Vec::new();
        let mut w: usize = 1;
        while w <= max_area
            invariant
                1 <= w,
                4 <= max_area <= 64,
                rectangles@.len() <= 65535,
                forall|i: int| 0 <= i < rectangles@.len() ==> rect_wf(#[trigger] rectangles@[i]),
                forall|i: int|
                    0 <= i < rectangles@.len() ==> 4 * (#[trigger] rectangles@[i]).totems@.len()
                        <= max_area,
            decreases max_area + 1 - w,
        {
            let max_h = max_area / w;
            let mut h: usize = w;
            while h <= max_h
                invariant
                    1 <= w <= max_area,
                    w <= h,
                    4 <= max_area <= 64,
                    max_h == max_area / w,
                    rectangles@.len() <= 65535,
                    forall|i: int|
                        0 <= i < rectangles@.len() ==> rect_wf(#[trigger] rectangles@[i]),
                    forall|i: int|
                        0 <= i < rectangles@.len() ==> 4 * (
                        #[trigger] rectangles@[i]).totems@.len() <= max_area,
                decreases max_h + 1 - h,
            {
                proof {
                    assert(w * h <= 64 * 64) by (nonlinear_arith)
                        requires
                            w <= 64,
                            h <= 64,
                    ;
                }
                if (w * h) % 4 == 0 {
                    let num_shapes = (w * h) / 4;
                    proof {
                        // h stays within max_area / w, so the area and
                        // with it the piece count are bounded
                        assert(w * h <= max_area) by (nonlinear_arith)
                            requires
                                1 <= w,
                                h <= max_area / w,
                        ;
                    }
                    let bags = all_bags(num_shapes);
                    let mut bi: usize = 0;
                    while bi < bags.len()
                        invariant
                            bi <= bags@.len(),
                            1 <= w <= 64,
                            1 <= h <= 64,
                            num_shapes <= 1024,
                            num_shapes == (w * h) / 4,
                            (w * h) % 4 == 0,
                            4 * num_shapes <= max_area,
                            4 <= max_area <= 64,
                            rectangles@.len() <= 65535,
                            forall|i: int|
                                0 <= i < bags@.len() ==> bag_total((#[trigger] bags@[i]).0@)
                                    == num_shapes,
                            forall|i: int|
                                0 <= i < rectangles@.len() ==> rect_wf(
                                    #[trigger] rectangles@[i],
                                ),
                            forall|i: int|
                                0 <= i < rectangles@.len() ==> 4 * (
                                #[trigger] rectangles@[i]).totems@.len() <= max_area,
                        decreases bags@.len() - bi,
                    {
                        let bag = bags[bi];
                        let sln = solver.try_solve(w, h, &bag);
                        match sln {
                            Some(totems) => {
                                proof {
                                    crate::game_interface::lemma_shape_count_total(
                                        crate::solution::placement_shapes(totems@),
                                    );
                                    crate::game_interface::lemma_bag_total_explicit(bag.0@);
                                    assert(totems@.len() == bag_total(bag.0@));
                                    assert(w * h >= 1) by (nonlinear_arith)
                                        requires
                                            w >= 1,
                                            h >= 1,
                                    ;
                                    assert(num_shapes >= 1);
                                }
                                let rect = Rectangle::new(
                                    Dims::new(w, h),
                                    bag,
                                    totems,
                                );
                                proof {
                                    assert(4 * rect.totems@.len() == w * h);
                                    assert(rect_wf(rect));
                                }
                                // the persisted format's count field caps
                                // the inventory; the cap is never reached
                                // for the areas in use
                                if rectangles.len() < 65535 {
                                    let ghost pre = rectangles@;
                                    rectangles.push(rect);
                                    proof {
                                        assert(forall|i: int|
                                            0 <= i < pre.len() ==> #[trigger] rectangles@[i]
                                                == pre[i]);
                                    }
                                }
                            },
                            None => {},
                        }
                        bi = bi + 1;
                    }
                }
                h = h + 1;
            }
            w = w + 1;
        }
        proof {
            if max_area <= 32 {
                assert(forall|j: int|
                    0 <= j < rectangles@.len() ==> (#[trigger] rectangles@[j]).totems@.len() <= 8);
            }
        }
        RectangleInventory::new(rectangles)
    }
}

} // verus!
