//! The MaxRects free-space structure: the set of maximal free rectangles
//! of a bin, supporting bottom-left insertion. After every operation, no
//! free rectangle is contained in another, and the union of the free
//! rectangles is exactly the part of the bin not yet given out.

use vstd::prelude::*;

verus! {

/// An axis-aligned rectangle; y is the bottom edge.
#[derive(Clone, Copy, PartialEq, Eq, Structural, Debug)]
pub struct Rect {
    pub x: usize,
    pub y: usize,
    pub w: usize,
    pub h: usize,
}

/// Whether the point (px, py) lies inside `r`.
pub open spec fn rect_in(r: Rect, px: int, py: int) -> bool {
    r.x <= px < r.x + r.w && r.y <= py < r.y + r.h
}

/// Whether some rectangle of the list covers the point (px, py).
pub open spec fn covered(rs: Seq<Rect>, px: int, py: int) -> bool {
    exists|i: int| 0 <= i < rs.len() && rect_in(#[trigger] rs[i], px, py)
}

/// Whether `a` fully contains `b` (equality included).
pub open spec fn contains_rect(a: Rect, b: Rect) -> bool {
    b.x >= a.x && b.x + b.w <= a.x + a.w && b.y >= a.y && b.y + b.h <= a.y + a.h
}

impl Rect {
    /// Build a rectangle.
    pub fn new(x: usize, y: usize, w: usize, h: usize) -> (r: Rect)
        ensures
            r == (Rect { x, y, w, h }),
    {
        Rect { x, y, w, h }
    }

    pub fn top(&self) -> (r: usize)
        requires
            self.y + self.h <= usize::MAX,
        ensures
            r == self.y + self.h,
    {
        self.y + self.h
    }

    pub fn bottom(&self) -> (r: usize)
        ensures
            r == self.y,
    {
        self.y
    }

    pub fn left(&self) -> (r: usize)
        ensures
            r == self.x,
    {
        self.x
    }

    pub fn right(&self) -> (r: usize)
        requires
            self.x + self.w <= usize::MAX,
        ensures
            r == self.x + self.w,
    {
        self.x + self.w
    }

    /// Whether a width-by-height block fits inside this rectangle.
    pub fn fits(&self, width: usize, height: usize) -> (r: bool)
        ensures
            r == (width <= self.w && height <= self.h),
    {
        width <= self.w && height <= self.h
    }

    /// Whether this rectangle fully contains `other`.
    pub fn fully_contains(&self, other: &Rect) -> (r: bool)
        requires
            self.x + self.w <= usize::MAX,
            self.y + self.h <= usize::MAX,
            other.x + other.w <= usize::MAX,
            other.y + other.h <= usize::MAX,
        ensures
            r == contains_rect(*self, *other),
    {
        other.left() >= self.left() && other.right() <= self.right() && other.bottom()
            >= self.bottom() && other.top() <= self.top()
    }

    /// Whether this rectangle shares any point with `other`.
    pub fn intersects(&self, other: &Rect) -> (r: bool)
        requires
            1 <= self.w,
            1 <= self.h,
            1 <= other.w,
            1 <= other.h,
            self.x + self.w <= usize::MAX,
            self.y + self.h <= usize::MAX,
            other.x + other.w <= usize::MAX,
            other.y + other.h <= usize::MAX,
        ensures
            r == exists|px: int, py: int| rect_in(*self, px, py) && rect_in(*other, px, py),
    {
        let no_intersect = self.right() <= other.left() || self.left() >= other.right()
            || self.bottom() >= other.top() || self.top() <= other.bottom();
        proof {
            if !no_intersect {
                let px: int = if self.x >= other.x {
                    self.x as int
                } else {
                    other.x as int
                };
                let py: int = if self.y >= other.y {
                    self.y as int
                } else {
                    other.y as int
                };
                assert(rect_in(*self, px, py) && rect_in(*other, px, py));
            }
        }
        !no_intersect
    }
}

/// Free-space bookkeeping for a width-by-height bin. The `placed` field
/// is the ghost history of the blocks given out.
#[derive(Clone)]
pub struct MaxRects {
    width: usize,
    height: usize,
    // Free spaces.
    free: Vec<Rect>,
    placed: Ghost<Seq<Rect>>,
}

impl MaxRects {
    pub closed spec fn spec_width(&self) -> int {
        self.width as int
    }

    pub closed spec fn spec_height(&self) -> int {
        self.height as int
    }

    pub closed spec fn free_view(&self) -> Seq<Rect> {
        self.free@
    }

    pub closed spec fn placed_view(&self) -> Seq<Rect> {
        self.placed@
    }

    /// Every listed rectangle is nonempty and lies inside the bin.
    pub open spec fn rects_in_bin(&self, rs: Seq<Rect>) -> bool {
        forall|i: int|
            0 <= i < rs.len() ==> (#[trigger] rs[i]).w >= 1 && rs[i].h >= 1 && rs[i].x + rs[i].w
                <= self.spec_width() && rs[i].y + rs[i].h <= self.spec_height()
    }

    /// No free rectangle is contained in another.
    pub open spec fn maximal(&self) -> bool {
        forall|i: int, j: int|
            0 <= i < self.free_view().len() && 0 <= j < self.free_view().len() && i != j
                ==> !contains_rect(#[trigger] self.free_view()[i], #[trigger] self.free_view()[j])
    }

    /// The free rectangles cover exactly the bin area not yet given out.
    pub open spec fn coverage(&self) -> bool {
        forall|px: int, py: int|
            0 <= px < self.spec_width() && 0 <= py < self.spec_height() ==> (covered(
                self.free_view(),
                px,
                py,
            ) <==> !covered(self.placed_view(), px, py))
    }

    pub open spec fn wf(&self) -> bool {
        &&& 1 <= self.spec_width()
        &&& 1 <= self.spec_height()
        &&& self.rects_in_bin(self.free_view())
        &&& self.rects_in_bin(self.placed_view())
        &&& self.maximal()
        &&& self.coverage()
    }

    /// A fresh bin: one free rectangle, the whole bin.
    pub fn new(width: usize, height: usize) -> (r: MaxRects)
        requires
            1 <= width,
            1 <= height,
        ensures
            r.wf(),
            r.spec_width() == width,
            r.spec_height() == height,
            r.free_view().len() == 1,
            r.free_view()[0] == (Rect { x: 0, y: 0, w: width, h: height }),
            r.placed_view().len() == 0,
    {
        let free = vec![Rect { x: 0, y: 0, w: width, h: height }];
        let r = MaxRects { width, height, free, placed: Ghost(Seq::empty()) };
        proof {
            assert forall|px: int, py: int|
                0 <= px < width && 0 <= py < height implies covered(r.free@, px, py) by {
                assert(rect_in(r.free@[0], px, py));
            }
        }
        r
    }

    /// A copy of this structure.
    pub fn clone_box(&self) -> (r: MaxRects)
        ensures
            r.spec_width() == self.spec_width(),
            r.spec_height() == self.spec_height(),
            r.free_view() == self.free_view(),
            r.placed_view() == self.placed_view(),
            r.wf() == self.wf(),
    {
        let mut free: Vec<Rect> = Vec::new();
        let mut i: usize = 0;
        while i < self.free.len()
            invariant
                i <= self.free@.len(),
                free@ =~= self.free@.take(i as int),
            decreases self.free@.len() - i,
        {
            free.push(self.free[i]);
            proof {
                assert(free@ =~= self.free@.take(i + 1));
            }
            i = i + 1;
        }
        proof {
            assert(self.free@.take(self.free@.len() as int) =~= self.free@);
        }
        MaxRects { width: self.width, height: self.height, free, placed: self.placed }
    }

    /// How many free rectangles the structure currently holds.
    pub fn num_free(&self) -> (r: usize)
        ensures
            r == self.free_view().len(),
    {
        self.free.len()
    }

    /// The free rectangles as plain (x, y, w, h) tuples.
    pub fn free_rects(&self) -> (r: Vec<(usize, usize, usize, usize)>)
        ensures
            r@.len() == self.free_view().len(),
            forall|i: int|
                0 <= i < r@.len() ==> #[trigger] r@[i] == (
                    self.free_view()[i].x,
                    self.free_view()[i].y,
                    self.free_view()[i].w,
                    self.free_view()[i].h,
                ),
    {
        let mut r: Vec<(usize, usize, usize, usize)> = Vec::new();
        let mut i: usize = 0;
        while i < self.free.len()
            invariant
                i <= self.free@.len(),
                r@.len() == i,
                forall|j: int|
                    0 <= j < i ==> #[trigger] r@[j] == (
                        self.free@[j].x,
                        self.free@[j].y,
                        self.free@[j].w,
                        self.free@[j].h,
                    ),
            decreases self.free@.len() - i,
        {
            let rect = &self.free[i];
            r.push((rect.x, rect.y, rect.w, rect.h));
            i = i + 1;
        }
        r
    }

    /// Replace every free rectangle intersecting `not_free` with up to
    /// four maximal sub-rectangles (left, right, top and bottom slabs).
    fn update_overlaps(&mut self, not_free: &Rect)
        requires
            1 <= old(self).spec_width(),
            1 <= old(self).spec_height(),
            old(self).rects_in_bin(old(self).free_view()),
            1 <= not_free.w,
            1 <= not_free.h,
            not_free.x + not_free.w <= usize::MAX,
            not_free.y + not_free.h <= usize::MAX,
        ensures
            final(self).spec_width() == old(self).spec_width(),
            final(self).spec_height() == old(self).spec_height(),
            final(self).placed_view() == old(self).placed_view(),
            final(self).rects_in_bin(final(self).free_view()),
            forall|px: int, py: int|
                #[trigger] covered(final(self).free_view(), px, py) <==> (covered(
                    old(self).free_view(),
                    px,
                    py,
                ) && !rect_in(*not_free, px, py)),
    {
        let ghost old_free = self.free@;
        let mut new_free: Vec<Rect> = Vec::new();
        let mut i: usize = 0;
        while i < self.free.len()
            invariant
                i <= self.free@.len(),
                self.free@ == old_free,
                self == old(self),
                old(self).rects_in_bin(old_free),
                1 <= not_free.w,
                1 <= not_free.h,
                not_free.x + not_free.w <= usize::MAX,
                not_free.y + not_free.h <= usize::MAX,
                self.rects_in_bin(new_free@),
                forall|px: int, py: int|
                    #[trigger] covered(new_free@, px, py) <==> (covered(
                        old_free.take(i as int),
                        px,
                        py,
                    ) && !rect_in(*not_free, px, py)),
            decreases self.free@.len() - i,
        {
            let r = self.free[i];
            let ghost pre = new_free@;
            push_slabs(&mut new_free, r, not_free);
            proof {
                lemma_covered_take_push(old_free, i as int);
                assert forall|px: int, py: int|
                    #[trigger] covered(new_free@, px, py) <==> (covered(
                    old_free.take(i + 1),
                    px,
                    py,
                ) && !rect_in(*not_free, px, py)) by {
                    assert(covered(new_free@, px, py) <==> (covered(pre, px, py) || (rect_in(
                        r,
                        px,
                        py,
                    ) && !rect_in(*not_free, px, py))));
                }
                assert forall|k: int|
                    0 <= k < new_free@.len() implies (#[trigger] new_free@[k]).w >= 1
                    && new_free@[k].h >= 1 && new_free@[k].x + new_free@[k].w <= self.spec_width()
                    && new_free@[k].y + new_free@[k].h <= self.spec_height() by {
                    if k >= pre.len() {
                        assert(contains_rect(r, new_free@[k]));
                    }
                }
            }
            i = i + 1;
        }
        proof {
            assert(old_free.take(old_free.len() as int) =~= old_free);
        }
        self.free = new_free;
    }

    /// Drop every free rectangle contained in another one.
    fn remove_redundancy(&mut self)
        requires
            old(self).rects_in_bin(old(self).free_view()),
        ensures
            final(self).spec_width() == old(self).spec_width(),
            final(self).spec_height() == old(self).spec_height(),
            final(self).placed_view() == old(self).placed_view(),
            final(self).rects_in_bin(final(self).free_view()),
            final(self).maximal(),
            forall|px: int, py: int|
                covered(final(self).free_view(), px, py) <==> covered(
                    old(self).free_view(),
                    px,
                    py,
                ),
    {
        let ghost old_free = self.free@;
        let mut kept: Vec<Rect> = Vec::new();
        let mut i: usize = 0;
        while i < self.free.len()
            invariant
                i <= self.free@.len(),
                self.free@ == old_free,
                self == old(self),
                old(self).rects_in_bin(old_free),
                self.rects_in_bin(kept@),
                forall|a: int, b: int|
                    0 <= a < kept@.len() && 0 <= b < kept@.len() && a != b ==> !contains_rect(
                        #[trigger] kept@[a],
                        #[trigger] kept@[b],
                    ),
                forall|px: int, py: int|
                    covered(kept@, px, py) <==> covered(old_free.take(i as int), px, py),
            decreases self.free@.len() - i,
        {
            let r = self.free[i];
            let mut contained = false;
            let mut j: usize = 0;
            while j < kept.len()
                invariant
                    j <= kept@.len(),
                    self.rects_in_bin(kept@),
                    self.free@ == old_free,
                    self == old(self),
                    old(self).rects_in_bin(old_free),
                    i < old_free.len(),
                    r == old_free[i as int],
                    contained == (exists|a: int|
                        0 <= a < j && contains_rect(#[trigger] kept@[a], r)),
                decreases kept@.len() - j,
            {
                if kept[j].fully_contains(&r) {
                    contained = true;
                }
                j = j + 1;
            }
            let ghost pre = kept@;
            if !contained {
                let mut j2: usize = 0;
                while j2 < kept.len()
                    invariant
                        j2 <= kept@.len(),
                        self.rects_in_bin(kept@),
                        self.free@ == old_free,
                        self == old(self),
                        old(self).rects_in_bin(old_free),
                        i < old_free.len(),
                        r == old_free[i as int],
                        forall|a: int, b: int|
                            0 <= a < kept@.len() && 0 <= b < kept@.len() && a != b
                                ==> !contains_rect(#[trigger] kept@[a], #[trigger] kept@[b]),
                        forall|a: int|
                            0 <= a < kept@.len() ==> !contains_rect(#[trigger] kept@[a], r),
                        forall|a: int|
                            0 <= a < j2 ==> !contains_rect(r, #[trigger] kept@[a]),
                        forall|px: int, py: int|
                            (covered(kept@, px, py) || rect_in(r, px, py)) <==> (covered(
                                pre,
                                px,
                                py,
                            ) || rect_in(r, px, py)),
                    decreases kept@.len() - j2,
                {
                    if r.fully_contains(&kept[j2]) {
                        let ghost before = kept@;
                        kept.swap_remove(j2);
                        proof {
                            assert forall|px: int, py: int|
                                (covered(kept@, px, py) || rect_in(r, px, py)) <==> (covered(
                                before,
                                px,
                                py,
                            ) || rect_in(r, px, py)) by {
                                lemma_covered_swap_remove(before, kept@, j2 as int, px, py);
                                if covered(before, px, py) && !covered(kept@, px, py) {
                                    assert(rect_in(r, px, py) || covered(kept@, px, py)) by {
                                        let a = choose|a: int|
                                            0 <= a < before.len() && rect_in(
                                                #[trigger] before[a],
                                                px,
                                                py,
                                            );
                                        if a == j2 {
                                            assert(rect_in(r, px, py));
                                        } else {
                                            lemma_covered_swap_remove_other(
                                                before,
                                                kept@,
                                                j2 as int,
                                                a,
                                                px,
                                                py,
                                            );
                                        }
                                    }
                                }
                            }
                        }
                    } else {
                        j2 = j2 + 1;
                    }
                }
                let ghost before_push = kept@;
                kept.push(r);
                proof {
                    assert(kept@ == before_push.push(r));
                    lemma_covered_push(before_push, r);
                    lemma_covered_take_push(old_free, i as int);
                    assert forall|px: int, py: int|
                        covered(kept@, px, py) <==> covered(old_free.take(i + 1), px, py) by {
                        assert(covered(kept@, px, py) <==> (covered(before_push, px, py)
                            || rect_in(r, px, py)));
                        assert((covered(before_push, px, py) || rect_in(r, px, py)) <==> (covered(
                            pre,
                            px,
                            py,
                        ) || rect_in(r, px, py)));
                        assert(covered(pre, px, py) <==> covered(old_free.take(i as int), px, py));
                    }
                }
            } else {
                proof {
                    let a = choose|a: int| 0 <= a < kept@.len() && contains_rect(#[trigger] kept@[a], r);
                    assert forall|px: int, py: int|
                        covered(kept@, px, py) <==> covered(old_free.take(i + 1), px, py) by {
                        lemma_covered_take_push(old_free, i as int);
                        if rect_in(r, px, py) {
                            assert(rect_in(kept@[a], px, py));
                        }
                    }
                }
            }
            i = i + 1;
        }
        proof {
            assert(old_free.take(old_free.len() as int) =~= old_free);
        }
        self.free = kept;
    }

    /// Split the free space around a block placed at the lower-left
    /// corner of the free rectangle at `index`.
    fn split_at(&mut self, index: usize, splitter_width: usize, splitter_height: usize)
        requires
            1 <= old(self).spec_width(),
            1 <= old(self).spec_height(),
            old(self).rects_in_bin(old(self).free_view()),
            index < old(self).free_view().len(),
            1 <= splitter_width <= old(self).free_view()[index as int].w,
            1 <= splitter_height <= old(self).free_view()[index as int].h,
        ensures
            final(self).spec_width() == old(self).spec_width(),
            final(self).spec_height() == old(self).spec_height(),
            final(self).placed_view() == old(self).placed_view(),
            final(self).rects_in_bin(final(self).free_view()),
            final(self).maximal(),
            forall|px: int, py: int|
                covered(final(self).free_view(), px, py) <==> (covered(
                    old(self).free_view(),
                    px,
                    py,
                ) && !rect_in(
                    Rect {
                        x: old(self).free_view()[index as int].x,
                        y: old(self).free_view()[index as int].y,
                        w: splitter_width,
                        h: splitter_height,
                    },
                    px,
                    py,
                )),
    {
        let to_split = self.free[index];
        let splitter = Rect {
            x: to_split.x,
            y: to_split.y,
            w: splitter_width,
            h: splitter_height,
        };
        self.update_overlaps(&splitter);
        self.remove_redundancy();
    }

    /// Place a width-by-height block at the bottom-left-most free
    /// rectangle that fits, and return the position used.
    pub fn bottom_left_insert(&mut self, width: usize, height: usize) -> (r: Option<
        (usize, usize),
    >)
        requires
            old(self).wf(),
            1 <= width,
            1 <= height,
        ensures
            final(self).spec_width() == old(self).spec_width(),
            final(self).spec_height() == old(self).spec_height(),
            r matches Some(pos) ==> {
                &&& final(self).wf()
                &&& final(self).placed_view() == old(self).placed_view().push(
                    Rect { x: pos.0, y: pos.1, w: width, h: height },
                )
                &&& pos.0 + width <= old(self).spec_width()
                &&& pos.1 + height <= old(self).spec_height()
                &&& forall|px: int, py: int|
                    rect_in(Rect { x: pos.0, y: pos.1, w: width, h: height }, px, py)
                        ==> !covered(old(self).placed_view(), px, py)
                &&& exists|i: int|
                    0 <= i < old(self).free_view().len() && (#[trigger] old(self).free_view()[i]).x
                        == pos.0 && old(self).free_view()[i].y == pos.1 && width <= old(
                        self,
                    ).free_view()[i].w && height <= old(self).free_view()[i].h
                &&& forall|j: int|
                    0 <= j < old(self).free_view().len() && width <= (#[trigger] old(
                        self,
                    ).free_view()[j]).w && height <= old(self).free_view()[j].h ==> (pos.1 < old(
                        self,
                    ).free_view()[j].y || (pos.1 == old(self).free_view()[j].y && pos.0 <= old(
                        self,
                    ).free_view()[j].x))
            },
            r is None ==> *final(self) == *old(self) && (forall|j: int|
                0 <= j < old(self).free_view().len() ==> !(width <= (#[trigger] old(
                    self,
                ).free_view()[j]).w && height <= old(self).free_view()[j].h)),
    {
        let mut best_index: usize = 0;
        let mut have_best = false;
        let mut i: usize = 0;
        while i < self.free.len()
            invariant
                i <= self.free@.len(),
                self == old(self),
                old(self).wf(),
                have_best ==> best_index < i && width <= self.free@[best_index as int].w && height
                    <= self.free@[best_index as int].h,
                have_best ==> forall|j: int|
                    0 <= j < i && width <= (#[trigger] self.free@[j]).w && height
                        <= self.free@[j].h ==> (self.free@[best_index as int].y < self.free@[j].y
                        || (self.free@[best_index as int].y == self.free@[j].y
                        && self.free@[best_index as int].x <= self.free@[j].x)),
                !have_best ==> forall|j: int|
                    0 <= j < i ==> !(width <= (#[trigger] self.free@[j]).w && height
                        <= self.free@[j].h),
            decreases self.free@.len() - i,
        {
            let rect = &self.free[i];
            if rect.fits(width, height) {
                let better_candidate = if !have_best {
                    true
                } else {
                    let best_rect = &self.free[best_index];
                    rect.y < best_rect.y || (rect.y == best_rect.y && rect.x < best_rect.x)
                };
                if better_candidate {
                    best_index = i;
                    have_best = true;
                }
            }
            i = i + 1;
        }
        if !have_best {
            return None;
        }
        let rect = self.free[best_index];
        let x = rect.x;
        let y = rect.y;
        let ghost old_placed = self.placed@;
        let ghost old_free = self.free@;
        let block = Rect { x, y, w: width, h: height };
        self.split_at(best_index, width, height);
        proof {
            self.placed@ = old_placed.push(block);
        }
        proof {
            // the block was entirely free, so it is disjoint from all
            // earlier placed blocks, and coverage is maintained
            assert forall|px: int, py: int|
                rect_in(block, px, py) implies !covered(old_placed, px, py) by {
                assert(rect_in(old_free[best_index as int], px, py));
                assert(covered(old_free, px, py));
            }
            assert forall|px: int, py: int|
                0 <= px < self.spec_width() && 0 <= py < self.spec_height() implies (covered(
                self.free@,
                px,
                py,
            ) <==> !covered(self.placed@, px, py)) by {
                lemma_covered_push(old_placed, block);
            }
            assert(self.rects_in_bin(self.placed@)) by {
                assert(forall|i2: int|
                    0 <= i2 < old_placed.len() ==> #[trigger] self.placed@[i2] == old_placed[i2]);
                assert(self.placed@[self.placed@.len() - 1] == block);
                assert(block.x + block.w <= old_free[best_index as int].x + old_free[
                    best_index as int].w);
            }
        }
        Some((x, y))
    }
}

/// Push onto `out` the part of the free rectangle `r` that survives
/// removing `nf`: `r` itself if they are disjoint, else up to four
/// maximal slabs of `r` around `nf`.
fn push_slabs(out: &mut Vec<Rect>, r: Rect, nf: &Rect)
    requires
        1 <= r.w,
        1 <= r.h,
        1 <= nf.w,
        1 <= nf.h,
        r.x + r.w <= usize::MAX,
        r.y + r.h <= usize::MAX,
        nf.x + nf.w <= usize::MAX,
        nf.y + nf.h <= usize::MAX,
    ensures
        final(out)@.len() >= old(out)@.len(),
        forall|k: int| 0 <= k < old(out)@.len() ==> #[trigger] final(out)@[k] == old(out)@[k],
        forall|k: int|
            old(out)@.len() <= k < final(out)@.len() ==> contains_rect(r, #[trigger] final(out)@[k])
                && final(out)@[k].w >= 1 && final(out)@[k].h >= 1,
        forall|px: int, py: int|
            #[trigger] covered(final(out)@, px, py) <==> (covered(old(out)@, px, py) || (rect_in(
                r,
                px,
                py,
            ) && !rect_in(*nf, px, py))),
{
    let ghost base = out@;
    if r.intersects(nf) {
        let cond_l = nf.x > r.x;
        let cond_r = nf.x + nf.w < r.x + r.w;
        let cond_t = nf.y + nf.h < r.y + r.h;
        let cond_b = nf.y > r.y;
        let ghost slab_l = Rect { x: r.x, y: r.y, w: (nf.x - r.x) as usize, h: r.h };
        let ghost slab_r = Rect {
            x: (nf.x + nf.w) as usize,
            y: r.y,
            w: ((r.x + r.w) - (nf.x + nf.w)) as usize,
            h: r.h,
        };
        let ghost slab_t = Rect {
            x: r.x,
            y: (nf.y + nf.h) as usize,
            w: r.w,
            h: ((r.y + r.h) - (nf.y + nf.h)) as usize,
        };
        let ghost slab_b = Rect { x: r.x, y: r.y, w: r.w, h: (nf.y - r.y) as usize };
        if cond_l {
            let ghost p0 = out@;
            out.push(Rect { x: r.x, y: r.y, w: nf.x - r.x, h: r.h });
            proof {
                assert(out@ == p0.push(slab_l));
                lemma_covered_push(p0, slab_l);
            }
        }
        if cond_r {
            let ghost p0 = out@;
            out.push(
                Rect {
                    x: nf.x + nf.w,
                    y: r.y,
                    w: (r.x + r.w) - (nf.x + nf.w),
                    h: r.h,
                },
            );
            proof {
                assert(out@ == p0.push(slab_r));
                lemma_covered_push(p0, slab_r);
            }
        }
        if cond_t {
            let ghost p0 = out@;
            out.push(
                Rect {
                    x: r.x,
                    y: nf.y + nf.h,
                    w: r.w,
                    h: (r.y + r.h) - (nf.y + nf.h),
                },
            );
            proof {
                assert(out@ == p0.push(slab_t));
                lemma_covered_push(p0, slab_t);
            }
        }
        if cond_b {
            let ghost p0 = out@;
            out.push(Rect { x: r.x, y: r.y, w: r.w, h: nf.y - r.y });
            proof {
                assert(out@ == p0.push(slab_b));
                lemma_covered_push(p0, slab_b);
            }
        }
        proof {
            assert forall|px: int, py: int|
                #[trigger] covered(out@, px, py) <==> (covered(base, px, py) || (rect_in(
                r,
                px,
                py,
            ) && !rect_in(*nf, px, py))) by {
                let in_slabs = (cond_l && rect_in(slab_l, px, py)) || (cond_r && rect_in(
                    slab_r,
                    px,
                    py,
                )) || (cond_t && rect_in(slab_t, px, py)) || (cond_b && rect_in(slab_b, px, py));
                assert(covered(out@, px, py) <==> (covered(base, px, py) || in_slabs));
                assert(in_slabs <==> (rect_in(r, px, py) && !rect_in(*nf, px, py))) by {
                    if rect_in(r, px, py) && !rect_in(*nf, px, py) {
                        if px < nf.x {
                            assert(cond_l && rect_in(slab_l, px, py));
                        } else if px >= nf.x + nf.w {
                            assert(cond_r && rect_in(slab_r, px, py));
                        } else if py >= nf.y + nf.h {
                            assert(cond_t && rect_in(slab_t, px, py));
                        } else {
                            assert(py < nf.y);
                            assert(cond_b && rect_in(slab_b, px, py));
                        }
                    }
                }
            }
        }
    } else {
        let ghost p0 = out@;
        out.push(r);
        proof {
            assert(out@ == p0.push(r));
            lemma_covered_push(p0, r);
            assert forall|px: int, py: int|
                rect_in(r, px, py) implies !rect_in(*nf, px, py) by {
                if rect_in(*nf, px, py) {
                    assert(rect_in(r, px, py) && rect_in(*nf, px, py));
                }
            }
            assert(contains_rect(r, r));
        }
    }
}

proof fn lemma_covered_push(rs: Seq<Rect>, r: Rect)
    ensures
        forall|px: int, py: int|
            #[trigger] covered(rs.push(r), px, py) <==> (covered(rs, px, py) || rect_in(
                r,
                px,
                py,
            )),
{
    assert forall|px: int, py: int|
        #[trigger] covered(rs.push(r), px, py) <==> (covered(rs, px, py) || rect_in(
        r,
        px,
        py,
    )) by {
        if covered(rs, px, py) {
            let i = choose|i: int| 0 <= i < rs.len() && rect_in(#[trigger] rs[i], px, py);
            assert(rect_in(rs.push(r)[i], px, py));
        }
        if rect_in(r, px, py) {
            assert(rect_in(rs.push(r)[rs.len() as int], px, py));
        }
        if covered(rs.push(r), px, py) {
            let i = choose|i: int|
                0 <= i < rs.push(r).len() && rect_in(#[trigger] rs.push(r)[i], px, py);
            if i < rs.len() {
                assert(rect_in(rs[i], px, py));
            } else {
                assert(rect_in(r, px, py));
            }
        }
    }
}

proof fn lemma_covered_take_push(rs: Seq<Rect>, i: int)
    requires
        0 <= i < rs.len(),
    ensures
        forall|px: int, py: int|
            #[trigger] covered(rs.take(i + 1), px, py) <==> (covered(rs.take(i), px, py)
                || rect_in(rs[i], px, py)),
{
    assert(rs.take(i + 1) =~= rs.take(i).push(rs[i]));
    lemma_covered_push(rs.take(i), rs[i]);
}

proof fn lemma_covered_swap_remove(before: Seq<Rect>, after: Seq<Rect>, j: int, px: int, py: int)
    requires
        0 <= j < before.len(),
        after =~= before.update(j, before.last()).drop_last(),
    ensures
        covered(after, px, py) ==> covered(before, px, py),
{
    if covered(after, px, py) {
        let a = choose|a: int| 0 <= a < after.len() && rect_in(#[trigger] after[a], px, py);
        if a == j {
            assert(rect_in(before[before.len() - 1], px, py));
        } else {
            assert(rect_in(before[a], px, py));
        }
    }
}

proof fn lemma_covered_swap_remove_other(
    before: Seq<Rect>,
    after: Seq<Rect>,
    j: int,
    a: int,
    px: int,
    py: int,
)
    requires
        0 <= j < before.len(),
        after =~= before.update(j, before.last()).drop_last(),
        0 <= a < before.len(),
        a != j,
        rect_in(before[a], px, py),
    ensures
        covered(after, px, py),
{
    if a < before.len() - 1 {
        assert(rect_in(after[a], px, py));
    } else {
        if j < before.len() - 1 {
            assert(rect_in(after[j], px, py));
        }
    }
}

} // verus!
