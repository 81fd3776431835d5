//! Scoring and candidate dimensions. The game scores a packing of
//! `n` pieces in a W-by-H box as (10·n − W·H) · min(W, H) / max(W, H);
//! scores are compared exactly, as rationals, by cross-multiplication.

use vstd::prelude::*;

verus! {

/// A candidate bounding box, as (width, height).
pub type Dims = (usize, usize);

/// The numerator of a box's score: (10·n − w·h) · min(w, h). The
/// denominator is max(w, h), which is positive.
pub open spec fn score_num(n: int, w: int, h: int) -> int {
    (10 * n - w * h) * (if w <= h {
        w
    } else {
        h
    })
}

pub open spec fn score_den(w: int, h: int) -> int {
    if w <= h {
        h
    } else {
        w
    }
}

/// The score of `a` is at least the score of `b`, compared exactly.
pub open spec fn score_ge_spec(n: int, a: Dims, b: Dims) -> bool {
    score_num(n, a.0 as int, a.1 as int) * score_den(b.0 as int, b.1 as int) >= score_num(
        n,
        b.0 as int,
        b.1 as int,
    ) * score_den(a.0 as int, a.1 as int)
}

/// Exact comparison of the scores of two boxes for `n` pieces.
pub fn score_ge(num_totems: usize, a: Dims, b: Dims) -> (r: bool)
    requires
        num_totems <= 100000,
        1 <= a.0 <= 10000,
        1 <= a.1 <= 10000,
        1 <= b.0 <= 10000,
        1 <= b.1 <= 10000,
    ensures
        r == score_ge_spec(num_totems as int, a, b),
{
    proof {
        assert(a.0 * a.1 <= 10000 * 10000) by (nonlinear_arith)
            requires
                1 <= a.0 <= 10000,
                1 <= a.1 <= 10000,
        ;
        assert(b.0 * b.1 <= 10000 * 10000) by (nonlinear_arith)
            requires
                1 <= b.0 <= 10000,
                1 <= b.1 <= 10000,
        ;
    }
    let pa: i64 = 10 * (num_totems as i64) - (a.0 as i64) * (a.1 as i64);
    let pb: i64 = 10 * (num_totems as i64) - (b.0 as i64) * (b.1 as i64);
    let ma: i64 = if a.0 <= a.1 {
        a.0 as i64
    } else {
        a.1 as i64
    };
    let mb: i64 = if b.0 <= b.1 {
        b.0 as i64
    } else {
        b.1 as i64
    };
    proof {
        assert(pa * ma <= 1000000 * 10000 && pa * ma >= -(100000000 * 10000)) by (nonlinear_arith)
            requires
                -100000000 <= pa <= 1000000,
                1 <= ma <= 10000,
        ;
        assert(pb * mb <= 1000000 * 10000 && pb * mb >= -(100000000 * 10000)) by (nonlinear_arith)
            requires
                -100000000 <= pb <= 1000000,
                1 <= mb <= 10000,
        ;
    }
    let na: i64 = pa * ma;
    let nb: i64 = pb * mb;
    let da: i64 = if a.0 <= a.1 {
        a.1 as i64
    } else {
        a.0 as i64
    };
    let db: i64 = if b.0 <= b.1 {
        b.1 as i64
    } else {
        b.0 as i64
    };
    proof {
        assert(na * db <= i64::MAX && na * db >= i64::MIN && nb * da <= i64::MAX && nb * da
            >= i64::MIN) by (nonlinear_arith)
            requires
                -(100000000 * 10000) <= na <= 1000000 * 10000,
                -(100000000 * 10000) <= nb <= 1000000 * 10000,
                1 <= da <= 10000,
                1 <= db <= 10000,
        ;
    }
    na * db >= nb * da
}

/// Comparing scores is transitive: needed to sort candidates.
pub proof fn lemma_score_ge_trans(n: int, a: Dims, b: Dims, c: Dims)
    requires
        1 <= a.0 && 1 <= a.1 && 1 <= b.0 && 1 <= b.1 && 1 <= c.0 && 1 <= c.1,
        score_ge_spec(n, a, b),
        score_ge_spec(n, b, c),
    ensures
        score_ge_spec(n, a, c),
{
    let na = score_num(n, a.0 as int, a.1 as int);
    let nb = score_num(n, b.0 as int, b.1 as int);
    let nc = score_num(n, c.0 as int, c.1 as int);
    let da = score_den(a.0 as int, a.1 as int);
    let db = score_den(b.0 as int, b.1 as int);
    let dc = score_den(c.0 as int, c.1 as int);
    assert(na * dc >= nc * da) by (nonlinear_arith)
        requires
            na * db >= nb * da,
            nb * dc >= nc * db,
            da >= 1,
            db >= 1,
            dc >= 1,
    ;
}

/// Comparing scores is total: one of the two directions always holds.
pub proof fn lemma_score_ge_total(n: int, a: Dims, b: Dims)
    ensures
        score_ge_spec(n, a, b) || score_ge_spec(n, b, a),
{
}

/// A square box never scores below the box one taller: the squareness
/// bonus min/max outweighs the area change whenever n >= 0.
pub proof fn lemma_square_score_bonus(n: int, k: usize)
    requires
        1 <= k,
        k + 1 <= usize::MAX,
        0 <= n,
    ensures
        score_ge_spec(n, (k, k), (k, (k + 1) as usize)),
{
    let ki = k as int;
    assert(score_num(n, ki, ki) * score_den(ki, ki + 1) >= score_num(n, ki, ki + 1) * score_den(
        ki,
        ki,
    )) by (nonlinear_arith)
        requires
            1 <= ki,
            0 <= n,
    ;
}

/// The smallest r with r·r >= n.
pub fn ceil_sqrt(n: usize) -> (r: usize)
    requires
        n <= 100000,
    ensures
        r * r >= n,
        forall|s: int| 0 <= s < r ==> #[trigger] (s * s) < n,
        r <= 320,
{
    let mut r: usize = 0;
    loop
        invariant
            r <= 320,
            n <= 100000,
            forall|s: int| 0 <= s < r ==> #[trigger] (s * s) < n,
        ensures
            r <= 320,
            r * r >= n,
            forall|s: int| 0 <= s < r ==> #[trigger] (s * s) < n,
        decreases 321 - r,
    {
        proof {
            assert(r * r <= 320 * 320) by (nonlinear_arith)
                requires
                    r <= 320,
            ;
        }
        let rr = r * r;
        if rr >= n {
            break ;
        }
        proof {
            if r >= 320 {
                assert(320 * 320 <= r * r) by (nonlinear_arith)
                    requires
                        r >= 320,
                ;
            }
        }
        r = r + 1;
    }
    r
}

/// Whether (w, h) is a candidate box for `n` pieces with side limit `s`:
/// normalized (w <= h), inside the limit, and large enough.
pub open spec fn dims_candidate(n: int, s: int, w: int, h: int) -> bool {
    1 <= w <= h <= s && w * h >= 4 * n
}

/// Whether `s` is the candidate side limit for `n` pieces: twice the
/// ceiling square root of 4·n, but at least 4.
pub open spec fn side_limit_ok(n: int, s: int) -> bool {
    exists|rt: int|
        #![trigger rt * rt]
        0 <= rt && rt * rt >= 4 * n && (forall|q: int| 0 <= q < rt ==> #[trigger] (q * q) < 4 * n) && s == (
        if 2 * rt >= 4 {
            2 * rt
        } else {
            4
        })
}

/// All candidate boxes for `n` pieces: every (w, h) with w <= h, both
/// within the side limit, and area at least 4·n.
pub fn get_all_dims(num_totems: usize) -> (r: Vec<Dims>)
    requires
        1 <= num_totems <= 1024,
    ensures
        exists|s: int|
            #[trigger] side_limit_ok(num_totems as int, s) && 4 <= s <= 10000 && (forall|k: int|
                0 <= k < r@.len() ==> dims_candidate(
                    num_totems as int,
                    s,
                    (#[trigger] r@[k]).0 as int,
                    r@[k].1 as int,
                )) && (forall|w: int, h: int|
                dims_candidate(num_totems as int, s, w, h) ==> r@.contains(
                    (w as usize, h as usize),
                )),
{
    let n_squares = num_totems * 4;
    let rt = ceil_sqrt(n_squares);
    let side: usize = if 2 * rt >= 4 {
        2 * rt
    } else {
        4
    };
    proof {
        assert(side_limit_ok(num_totems as int, side as int));
        assert(rt <= 65) by {
            if rt > 65 {
                assert((65int) * (65int) < n_squares);
            }
        }
    }
    let mut r: Vec<Dims> = Vec::new();
    let mut w: usize = 1;
    while w <= side
        invariant
            1 <= w <= side + 1,
            side <= 130,
            4 <= side,
            1 <= num_totems <= 1024,
            n_squares == num_totems * 4,
            forall|k: int|
                0 <= k < r@.len() ==> dims_candidate(
                    num_totems as int,
                    side as int,
                    (#[trigger] r@[k]).0 as int,
                    r@[k].1 as int,
                ),
            forall|w2: int, h2: int|
                dims_candidate(num_totems as int, side as int, w2, h2) && w2 < w ==> r@.contains(
                    (w2 as usize, h2 as usize),
                ),
        decreases side + 1 - w,
    {
        let mut h: usize = w;
        while h <= side
            invariant
                w <= h <= side + 1,
                side <= 130,
                4 <= side,
                1 <= w,
                1 <= num_totems <= 1024,
                n_squares == num_totems * 4,
                forall|k: int|
                    0 <= k < r@.len() ==> dims_candidate(
                        num_totems as int,
                        side as int,
                        (#[trigger] r@[k]).0 as int,
                        r@[k].1 as int,
                    ),
                forall|w2: int, h2: int|
                    dims_candidate(num_totems as int, side as int, w2, h2) && w2 < w
                        ==> r@.contains((w2 as usize, h2 as usize)),
                forall|h2: int|
                    dims_candidate(num_totems as int, side as int, w as int, h2) && h2 < h
                        ==> r@.contains((w as usize, h2 as usize)),
            decreases side + 1 - h,
        {
            proof {
                assert(w * h <= 131 * 131) by (nonlinear_arith)
                    requires
                        w <= 131,
                        h <= 131,
                ;
            }
            if w * h >= n_squares {
                let ghost pre = r@;
                r.push((w, h));
                proof {
                    assert(r@[r@.len() - 1] == (w, h));
                    assert(dims_candidate(num_totems as int, side as int, w as int, h as int));
                    assert forall|x: Dims| pre.contains(x) implies r@.contains(x) by {
                        let j = choose|j: int| 0 <= j < pre.len() && pre[j] == x;
                        assert(r@[j] == x);
                    }
                    assert(r@.contains((w, h))) by {
                        assert(r@[r@.len() - 1] == (w, h));
                    }
                    assert(forall|k: int|
                        0 <= k < r@.len() - 1 ==> #[trigger] r@[k] == pre[k]);
                }
            } else {
                proof {
                    assert(!dims_candidate(num_totems as int, side as int, w as int, h as int));
                }
            }
            h = h + 1;
        }
        w = w + 1;
    }
    proof {
        assert forall|w2: int, h2: int|
            dims_candidate(num_totems as int, side as int, w2, h2) implies r@.contains(
            (w2 as usize, h2 as usize),
        ) by {
            assert(w2 < w);
        }
    }
    r
}

/// Sort candidate boxes by weakly descending score.
fn sort_by_score(num_totems: usize, mut dims: Vec<Dims>) -> (r: Vec<Dims>)
    requires
        1 <= num_totems <= 1024,
        forall|k: int|
            0 <= k < dims@.len() ==> 1 <= (#[trigger] dims@[k]).0 <= 10000 && 1 <= dims@[k].1
                <= 10000,
    ensures
        r@.to_multiset() == dims@.to_multiset(),
        forall|i: int, j: int|
            0 <= i <= j < r@.len() ==> score_ge_spec(num_totems as int, #[trigger] r@[i], #[trigger] r@[j]),
        forall|k: int|
            0 <= k < r@.len() ==> 1 <= (#[trigger] r@[k]).0 <= 10000 && 1 <= r@[k].1 <= 10000,
    {
    let ghost dims0 = dims@;
    let mut out: Vec<Dims> = Vec::new();
    proof {
        out@.to_multiset_ensures();
        assert(out@.to_multiset().len() == 0);
        assert(out@.to_multiset().add(dims@.to_multiset()) =~= dims@.to_multiset());
    }
    while dims.len() > 0
        invariant
            1 <= num_totems <= 1024,
            forall|k: int|
                0 <= k < dims@.len() ==> 1 <= (#[trigger] dims@[k]).0 <= 10000 && 1 <= dims@[k].1
                    <= 10000,
            forall|k: int|
                0 <= k < out@.len() ==> 1 <= (#[trigger] out@[k]).0 <= 10000 && 1 <= out@[k].1
                    <= 10000,
            out@.to_multiset().add(dims@.to_multiset()) == dims0.to_multiset(),
            forall|i: int, j: int|
                0 <= i <= j < out@.len() ==> score_ge_spec(
                    num_totems as int,
                    #[trigger] out@[i],
                    #[trigger] out@[j],
                ),
            forall|i: int, k: int|
                0 <= i < out@.len() && 0 <= k < dims@.len() ==> score_ge_spec(
                    num_totems as int,
                    #[trigger] out@[i],
                    #[trigger] dims@[k],
                ),
        decreases dims@.len(),
    {
        // find the best remaining candidate
        let mut best: usize = 0;
        let mut i: usize = 1;
        while i < dims.len()
            invariant
                1 <= num_totems <= 1024,
                best < i <= dims@.len(),
                dims@.len() > 0,
                forall|k: int|
                    0 <= k < dims@.len() ==> 1 <= (#[trigger] dims@[k]).0 <= 10000 && 1
                        <= dims@[k].1 <= 10000,
                forall|k: int|
                    0 <= k < i ==> score_ge_spec(
                        num_totems as int,
                        dims@[best as int],
                        #[trigger] dims@[k],
                    ),
            decreases dims@.len() - i,
        {
            if score_ge(num_totems, dims[i], dims[best]) {
                proof {
                    assert forall|k: int|
                        0 <= k < i + 1 implies score_ge_spec(
                        num_totems as int,
                        dims@[i as int],
                        #[trigger] dims@[k],
                    ) by {
                        if k < i {
                            lemma_score_ge_trans(
                                num_totems as int,
                                dims@[i as int],
                                dims@[best as int],
                                dims@[k],
                            );
                        }
                    }
                }
                best = i;
            } else {
                proof {
                    lemma_score_ge_total(num_totems as int, dims@[best as int], dims@[i as int]);
                }
            }
            i = i + 1;
        }
        let ghost pre_dims = dims@;
        let ghost pre_out = out@;
        let picked = dims.remove(best);
        out.push(picked);
        proof {
            assert(out@ == pre_out.push(picked));
            pre_dims.to_multiset_ensures();
            pre_out.to_multiset_ensures();
            assert(dims@.to_multiset() =~= pre_dims.to_multiset().remove(picked));
            assert(pre_dims.contains(picked)) by {
                assert(pre_dims[best as int] == picked);
            }
            assert(pre_dims.to_multiset().count(picked) > 0);
            assert(pre_dims.to_multiset() =~= dims@.to_multiset().insert(picked));
            assert(out@.to_multiset() =~= pre_out.to_multiset().insert(picked));
            assert(out@.to_multiset().add(dims@.to_multiset()) =~= dims0.to_multiset());
            assert forall|k: int|
                0 <= k < dims@.len() implies score_ge_spec(
                num_totems as int,
                picked,
                #[trigger] dims@[k],
            ) by {
                if k < best {
                    assert(dims@[k] == pre_dims[k]);
                } else {
                    assert(dims@[k] == pre_dims[k + 1]);
                }
            }
        }
    }
    proof {
        dims@.to_multiset_ensures();
        assert(dims@.to_multiset().len() == 0);
        assert(out@.to_multiset().add(dims@.to_multiset()) =~= out@.to_multiset());
    }
    out
}

/// A candidate list is well formed for `n` pieces: sorted by weakly
/// descending score, all entries candidates, and every candidate present.
pub open spec fn level_seq_ok(lvl: Seq<Dims>, n: int) -> bool {
    &&& (forall|i: int, j: int|
        0 <= i <= j < lvl.len() ==> score_ge_spec(n, #[trigger] lvl[i], #[trigger] lvl[j]))
    &&& (forall|k: int|
        0 <= k < lvl.len() ==> 1 <= (#[trigger] lvl[k]).0 <= 10000 && 1 <= lvl[k].1 <= 10000)
    &&& exists|s: int|
        #[trigger] side_limit_ok(n, s) && (forall|k: int|
            0 <= k < lvl.len() ==> dims_candidate(
                n,
                s,
                (#[trigger] lvl[k]).0 as int,
                lvl[k].1 as int,
            )) && (forall|w: int, h: int|
            dims_candidate(n, s, w, h) ==> lvl.contains((w as usize, h as usize)))
}

/// The candidate (width, height) lists for each level, sorted by weakly
/// descending score.
pub struct OptimalDimensions {
    level_dims: Vec<Vec<Dims>>,
}

impl OptimalDimensions {
    pub closed spec fn levels(&self) -> Seq<Seq<Dims>> {
        self.level_dims@.map_values(|v: Vec<Dims>| v@)
    }

    pub open spec fn wf(&self) -> bool {
        &&& self.levels().len() == 10
        &&& forall|level: int|
            0 <= level < 10 ==> level_seq_ok(#[trigger] self.levels()[level], pow2_spec(level))
    }

    /// Build the candidate lists for levels 1 to 10 (indexed 0 to 9).
    pub fn new() -> (r: OptimalDimensions)
        ensures
            r.wf(),
    {
        let mut level_dims: Vec<Vec<Dims>> = Vec::new();
        let mut level: usize = 0;
        let mut num_totems: usize = 1;
        while level < 10
            invariant
                level <= 10,
                num_totems == pow2_spec(level as int),
                level_dims@.len() == level,
                forall|l: int|
                    0 <= l < level ==> level_seq_ok(
                        (#[trigger] level_dims@[l])@,
                        pow2_spec(l),
                    ),
            decreases 10 - level,
        {
            proof {
                lemma_pow2_bounds(level as int);
            }
            let all_dims = get_all_dims(num_totems);
            proof {
                let s = choose|s: int|
                    #[trigger] side_limit_ok(num_totems as int, s) && 4 <= s <= 10000 && (forall|
                        k: int,
                    |
                        0 <= k < all_dims@.len() ==> dims_candidate(
                            num_totems as int,
                            s,
                            (#[trigger] all_dims@[k]).0 as int,
                            all_dims@[k].1 as int,
                        )) && (forall|w: int, h: int|
                        dims_candidate(num_totems as int, s, w, h) ==> all_dims@.contains(
                            (w as usize, h as usize),
                        ));
                assert(forall|k: int|
                    0 <= k < all_dims@.len() ==> 1 <= (#[trigger] all_dims@[k]).0 <= 10000 && 1
                        <= all_dims@[k].1 <= 10000);
            }
            let sorted = sort_by_score(num_totems, all_dims);
            let ghost pre_levels = level_dims@;
            level_dims.push(sorted);
            proof {
                lemma_sorted_keeps_candidates(all_dims@, sorted@);
                assert(forall|l: int|
                    0 <= l < level ==> (#[trigger] level_dims@[l]) == pre_levels[l]);
                // the freshly pushed level is well formed
                let n = num_totems as int;
                let se = choose|se: int|
                    #[trigger] side_limit_ok(n, se) && 4 <= se <= 10000 && (forall|k: int|
                        0 <= k < all_dims@.len() ==> dims_candidate(
                            n,
                            se,
                            (#[trigger] all_dims@[k]).0 as int,
                            all_dims@[k].1 as int,
                        )) && (forall|w: int, h: int|
                        dims_candidate(n, se, w, h) ==> all_dims@.contains((w as usize, h as usize)));
                assert(level_dims@[level as int] == sorted);
                assert forall|k: int|
                    0 <= k < sorted@.len() implies dims_candidate(
                    n,
                    se,
                    (#[trigger] sorted@[k]).0 as int,
                    sorted@[k].1 as int,
                ) by {
                    assert(sorted@.contains(sorted@[k]));
                    assert(all_dims@.contains(sorted@[k]));
                    let j = choose|j: int| 0 <= j < all_dims@.len() && all_dims@[j] == sorted@[k];
                    assert(dims_candidate(n, se, all_dims@[j].0 as int, all_dims@[j].1 as int));
                }
                assert(level_seq_ok(sorted@, n));
            }
            level = level + 1;
            num_totems = num_totems * 2;
        }
        OptimalDimensions { level_dims }
    }

    /// The candidate list for a level (0-indexed).
    pub fn level_dims(&self, level: usize) -> (r: &Vec<Dims>)
        requires
            self.wf(),
            level < 10,
        ensures
            r@ == self.levels()[level as int],
    {
        &self.level_dims[level]
    }
}

/// 2 to the `level`.
pub open spec fn pow2_spec(level: int) -> int
    decreases level,
{
    if level <= 0 {
        1
    } else {
        2 * pow2_spec(level - 1)
    }
}

/// The tenth level holds 512 pieces.
pub proof fn lemma_pow2_at_9()
    ensures
        pow2_spec(9) == 512,
{
    reveal_with_fuel(pow2_spec, 11);
}

proof fn lemma_pow2_bounds(level: int)
    requires
        0 <= level <= 9,
    ensures
        1 <= pow2_spec(level) <= 512,
{
    reveal_with_fuel(pow2_spec, 11);
    if level == 0 {
        assert(pow2_spec(level) == 1);
    } else if level == 1 {
        assert(pow2_spec(level) == 2);
    } else if level == 2 {
        assert(pow2_spec(level) == 4);
    } else if level == 3 {
        assert(pow2_spec(level) == 8);
    } else if level == 4 {
        assert(pow2_spec(level) == 16);
    } else if level == 5 {
        assert(pow2_spec(level) == 32);
    } else if level == 6 {
        assert(pow2_spec(level) == 64);
    } else if level == 7 {
        assert(pow2_spec(level) == 128);
    } else if level == 8 {
        assert(pow2_spec(level) == 256);
    } else {
        assert(pow2_spec(level) == 512);
    }
}

proof fn lemma_sorted_keeps_candidates(pre: Seq<Dims>, post: Seq<Dims>)
    requires
        post.to_multiset() == pre.to_multiset(),
    ensures
        forall|x: Dims| pre.contains(x) ==> post.contains(x),
        forall|x: Dims| post.contains(x) ==> pre.contains(x),
{
    pre.to_multiset_ensures();
    post.to_multiset_ensures();
    assert forall|x: Dims| pre.contains(x) implies post.contains(x) by {
        assert(pre.to_multiset().contains(x));
    }
    assert forall|x: Dims| post.contains(x) implies pre.contains(x) by {
        assert(post.to_multiset().contains(x));
    }
}

} // verus!
