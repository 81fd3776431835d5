//! The persisted form of the rectangle inventory: a flat byte format with
//! one 82-byte record per rectangle. A record holds the dimensions, the
//! seven cost counts, the number of pieces, and eight fixed piece slots
//! of nine bytes each (shape index and four coordinate pairs); unused
//! slots are zero. The whole list is prefixed with a 16-bit count.

use vstd::prelude::*;

use crate::game_interface::{totem_index_spec, Totem, TotemAnswer, TotemBag};
use crate::rect_inventory::{rect_wf, Rectangle};

verus! {

/// A rectangle that the format can hold: well formed with at most eight
/// pieces, so every field fits in one byte.
pub open spec fn encodable(r: Rectangle) -> bool {
    rect_wf(r) && r.totems@.len() <= 8
}

/// Byte `b` of piece slot `slot` of a record: the shape index, then the
/// four coordinate pairs; zero for slots past the piece count.
pub open spec fn slot_byte(r: Rectangle, slot: int, b: int) -> u8 {
    if slot < r.totems@.len() {
        let t = r.totems@[slot];
        if b == 0 {
            totem_index_spec(t.shape) as u8
        } else if b % 2 == 1 {
            t.coordinates@[(b - 1) / 2].0 as u8
        } else {
            t.coordinates@[(b - 2) / 2].1 as u8
        }
    } else {
        0u8
    }
}

/// Byte `i` of the 82-byte record of a rectangle.
pub open spec fn rect_byte(r: Rectangle, i: int) -> u8 {
    if i == 0 {
        r.dims.width as u8
    } else if i == 1 {
        r.dims.height as u8
    } else if i < 9 {
        r.cost.0@[i - 2] as u8
    } else if i == 9 {
        r.totems@.len() as u8
    } else {
        slot_byte(r, (i - 10) / 9, (i - 10) % 9)
    }
}

/// The 82-byte record of a rectangle.
pub open spec fn rect_bytes(r: Rectangle) -> Seq<u8> {
    Seq::new(82, |i: int| rect_byte(r, i))
}

/// The records of the first `n` rectangles, one after another.
pub open spec fn list_bytes(rs: Seq<Rectangle>, n: int) -> Seq<u8>
    decreases n,
{
    if n <= 0 {
        Seq::empty()
    } else {
        list_bytes(rs, n - 1) + rect_bytes(rs[n - 1])
    }
}

/// The full encoding: a little-endian 16-bit count, then the records.
pub open spec fn inventory_bytes(rs: Seq<Rectangle>) -> Seq<u8> {
    seq![(rs.len() % 256) as u8, (rs.len() / 256) as u8] + list_bytes(rs, rs.len() as int)
}

pub proof fn lemma_list_bytes_len(rs: Seq<Rectangle>, n: int)
    requires
        0 <= n,
    ensures
        list_bytes(rs, n).len() == 82 * n,
    decreases n,
{
    if n > 0 {
        lemma_list_bytes_len(rs, n - 1);
    }
}

/// Byte 82·j + i of a record list is byte i of record j.
pub proof fn lemma_list_bytes_index(rs: Seq<Rectangle>, n: int, j: int, i: int)
    requires
        0 <= j < n,
        0 <= i < 82,
    ensures
        list_bytes(rs, n).len() == 82 * n,
        list_bytes(rs, n)[82 * j + i] == rect_byte(rs[j], i),
    decreases n,
{
    lemma_list_bytes_len(rs, n);
    if j == n - 1 {
        lemma_list_bytes_len(rs, n - 1);
        assert(list_bytes(rs, n)[82 * (n - 1) + i] == rect_bytes(rs[n - 1])[i]);
    } else {
        lemma_list_bytes_index(rs, n - 1, j, i);
        lemma_list_bytes_len(rs, n - 1);
        assert(list_bytes(rs, n)[82 * j + i] == list_bytes(rs, n - 1)[82 * j + i]);
    }
}

/// Byte `i` of the record of `r`, computed.
fn rect_byte_exec(r: &Rectangle, i: usize) -> (b: u8)
    requires
        encodable(*r),
        i < 82,
    ensures
        b == rect_byte(*r, i as int),
{
    proof {
        lemma_encodable_bytes(*r);
    }
    if i == 0 {
        r.dims.width as u8
    } else if i == 1 {
        r.dims.height as u8
    } else if i < 9 {
        r.cost.0[i - 2] as u8
    } else if i == 9 {
        r.totems.len() as u8
    } else {
        let slot = (i - 10) / 9;
        let b = (i - 10) % 9;
        if slot < r.totems.len() {
            let t = &r.totems[slot];
            if b == 0 {
                t.shape.as_index() as u8
            } else if b % 2 == 1 {
                t.coordinates[(b - 1) / 2].0 as u8
            } else {
                t.coordinates[(b - 2) / 2].1 as u8
            }
        } else {
            0u8
        }
    }
}

/// Every field of an encodable rectangle fits in a byte.
proof fn lemma_encodable_bytes(r: Rectangle)
    requires
        encodable(r),
    ensures
        r.dims.width <= 255,
        r.dims.height <= 255,
        forall|i: int| 0 <= i < 7 ==> #[trigger] r.cost.0@[i] <= 255,
        forall|p: int, k: int|
            0 <= p < r.totems@.len() && 0 <= k < 4 ==> (#[trigger] r.totems@[p].coordinates@[k]).0
                <= 255 && r.totems@[p].coordinates@[k].1 <= 255,
{
    assert forall|i: int| 0 <= i < 7 implies #[trigger] r.cost.0@[i] <= 255 by {
        crate::game_interface::lemma_shape_count_bounded(
            crate::solution::placement_shapes(r.totems@),
            i,
        );
    }
}

/// Serialize a rectangle list into the flat byte format.
pub fn encode_rectangles(rects: &Vec<Rectangle>) -> (out: Vec<u8>)
    requires
        forall|j: int| 0 <= j < rects@.len() ==> encodable(#[trigger] rects@[j]),
        rects@.len() <= 65535,
    ensures
        out@ == inventory_bytes(rects@),
{
    let n = rects.len();
    let mut out: Vec<u8> = Vec::new();
    out.push((n % 256) as u8);
    out.push((n / 256) as u8);
    let mut j: usize = 0;
    proof {
        assert(out@ =~= seq![(n % 256) as u8, (n / 256) as u8] + list_bytes(rects@, 0));
    }
    while j < n
        invariant
            j <= n,
            n == rects@.len(),
            rects@.len() <= 65535,
            forall|jj: int| 0 <= jj < rects@.len() ==> encodable(#[trigger] rects@[jj]),
            out@ =~= seq![(n % 256) as u8, (n / 256) as u8] + list_bytes(rects@, j as int),
        decreases n - j,
    {
        let r = &rects[j];
        let ghost before = out@;
        let mut i: usize = 0;
        while i < 82
            invariant
                i <= 82,
                j < n,
                n == rects@.len(),
                r == &rects@[j as int],
                encodable(rects@[j as int]),
                out@ =~= before + rect_bytes(rects@[j as int]).take(i as int),
            decreases 82 - i,
        {
            out.push(rect_byte_exec(r, i));
            proof {
                assert(rect_bytes(rects@[j as int]).take(i + 1) =~= rect_bytes(
                    rects@[j as int],
                ).take(i as int).push(rect_byte(rects@[j as int], i as int)));
            }
            i = i + 1;
        }
        proof {
            assert(rect_bytes(rects@[j as int]).take(82) =~= rect_bytes(rects@[j as int]));
            assert(out@ =~= seq![(n % 256) as u8, (n / 256) as u8] + list_bytes(
                rects@,
                j + 1,
            ));
        }
        j = j + 1;
    }
    proof {
        assert(out@ =~= inventory_bytes(rects@));
    }
    out
}

/// Two rectangles agree on every encoded field.
pub open spec fn rect_like(a: Rectangle, b: Rectangle) -> bool {
    &&& a.dims == b.dims
    &&& a.cost.0@ == b.cost.0@
    &&& a.totems@.len() == b.totems@.len()
    &&& forall|p: int|
        0 <= p < a.totems@.len() ==> (#[trigger] a.totems@[p]).shape == b.totems@[p].shape
            && a.totems@[p].coordinates@ == b.totems@[p].coordinates@
}

/// A list the format can hold.
pub open spec fn encodable_list(rs: Seq<Rectangle>) -> bool {
    rs.len() <= 65535 && forall|j: int| 0 <= j < rs.len() ==> encodable(#[trigger] rs[j])
}

/// `bytes` is the encoding of the encodable list `rs`.
pub open spec fn is_encoding(bytes: Seq<u8>, rs: Seq<Rectangle>) -> bool {
    encodable_list(rs) && bytes == inventory_bytes(rs)
}

/// Rectangles that agree on every encoded field have the same record.
proof fn lemma_rect_byte_congruent(a: Rectangle, b: Rectangle)
    requires
        rect_like(a, b),
    ensures
        forall|i: int| 0 <= i < 82 ==> rect_byte(a, i) == rect_byte(b, i),
{
    assert forall|i: int| 0 <= i < 82 implies rect_byte(a, i) == rect_byte(b, i) by {
        if i >= 10 {
            let slot = (i - 10) / 9;
            assert(0 <= slot < 8) by (nonlinear_arith)
                requires
                    10 <= i < 82,
                    slot == (i - 10) / 9,
            ;
        }
    }
}

proof fn lemma_list_bytes_congruent(a: Seq<Rectangle>, b: Seq<Rectangle>, n: int)
    requires
        0 <= n <= a.len(),
        n <= b.len(),
        forall|j: int| 0 <= j < n ==> rect_like(#[trigger] a[j], b[j]),
    ensures
        list_bytes(a, n) == list_bytes(b, n),
    decreases n,
{
    if n > 0 {
        lemma_list_bytes_congruent(a, b, n - 1);
        lemma_rect_byte_congruent(a[n - 1], b[n - 1]);
        assert(rect_bytes(a[n - 1]) =~= rect_bytes(b[n - 1]));
    }
}

/// Lists that agree on every encoded field have the same encoding.
pub proof fn lemma_encoding_congruent(a: Seq<Rectangle>, b: Seq<Rectangle>)
    requires
        a.len() == b.len(),
        forall|j: int| 0 <= j < a.len() ==> rect_like(#[trigger] a[j], b[j]),
    ensures
        inventory_bytes(a) == inventory_bytes(b),
{
    lemma_list_bytes_congruent(a, b, a.len() as int);
}

/// Whether no cell is used by two piece slots of a tiling, decided by
/// marking each cell on a grid.
fn tiling_distinct(totems: &Vec<TotemAnswer>, width: usize, height: usize) -> (r: bool)
    requires
        1 <= width <= 255,
        1 <= height <= 255,
        forall|p: int, k: int|
            0 <= p < totems@.len() && 0 <= k < 4 ==> (#[trigger] totems@[p].coordinates@[k]).0
                < width && totems@[p].coordinates@[k].1 < height,
    ensures
        r == crate::solution::cells_disjoint(totems@),
{
    let mut grid: Vec<Vec<bool>> = Vec::new();
    let mut y: usize = 0;
    while y < height
        invariant
            y <= height,
            grid@.len() == y,
            forall|yy: int| 0 <= yy < y ==> (#[trigger] grid@[yy])@.len() == width,
            forall|yy: int, xx: int|
                0 <= yy < y && 0 <= xx < width ==> !(#[trigger] grid@[yy]@[xx]),
        decreases height - y,
    {
        let mut row: Vec<bool> = Vec::new();
        let mut x: usize = 0;
        while x < width
            invariant
                x <= width,
                row@.len() == x,
                forall|xx: int| 0 <= xx < x ==> !(#[trigger] row@[xx]),
            decreases width - x,
        {
            row.push(false);
            x = x + 1;
        }
        grid.push(row);
        y = y + 1;
    }
    let mut p: usize = 0;
    while p < totems.len()
        invariant
            p <= totems@.len(),
            1 <= width <= 255,
            1 <= height <= 255,
            forall|pp: int, kk: int|
                0 <= pp < totems@.len() && 0 <= kk < 4 ==> (
                #[trigger] totems@[pp].coordinates@[kk]).0 < width
                    && totems@[pp].coordinates@[kk].1 < height,
            grid@.len() == height,
            forall|yy: int| 0 <= yy < height ==> (#[trigger] grid@[yy])@.len() == width,
            forall|yy: int, xx: int|
                0 <= yy < height && 0 <= xx < width ==> ((#[trigger] grid@[yy]@[xx]) <==> exists|
                    pp: int,
                    kk: int,
                |
                    0 <= pp < p && 0 <= kk < 4 && (#[trigger] totems@[pp].coordinates@[kk]) == (
                    xx as usize,
                    yy as usize,
                )),
            crate::solution::cells_disjoint(totems@.take(p as int)),
        decreases totems@.len() - p,
    {
        let a = &totems[p];
        let ghost prefix = totems@.take(p as int);
        let ghost next_prefix = totems@.take(p as int + 1);
        proof {
            assert(next_prefix.drop_last() =~= prefix);
            assert(next_prefix.last() == totems@[p as int]);
        }
        let mut k: usize = 0;
        while k < 4
            invariant
                k <= 4,
                p < totems@.len(),
                a == &totems@[p as int],
                1 <= width <= 255,
                1 <= height <= 255,
                forall|pp: int, kk: int|
                    0 <= pp < totems@.len() && 0 <= kk < 4 ==> (
                    #[trigger] totems@[pp].coordinates@[kk]).0 < width
                        && totems@[pp].coordinates@[kk].1 < height,
                grid@.len() == height,
                forall|yy: int| 0 <= yy < height ==> (#[trigger] grid@[yy])@.len() == width,
                forall|yy: int, xx: int|
                    0 <= yy < height && 0 <= xx < width ==> ((#[trigger] grid@[yy]@[xx]) <==> exists|
                        pp: int,
                        kk: int,
                    |
                        0 <= pp < p + 1 && 0 <= kk < 4 && (pp < p || kk < k) && (
                        #[trigger] totems@[pp].coordinates@[kk]) == (xx as usize, yy as usize)),
                crate::solution::cells_disjoint(prefix),
                forall|pp: int, kk: int, kk2: int|
                    0 <= pp < p && 0 <= kk < 4 && 0 <= kk2 < k
                        ==> #[trigger] totems@[pp].coordinates@[kk]
                        != #[trigger] totems@[p as int].coordinates@[kk2],
                forall|kk: int, kk2: int|
                    0 <= kk < kk2 < k ==> #[trigger] totems@[p as int].coordinates@[kk]
                        != #[trigger] totems@[p as int].coordinates@[kk2],
            decreases 4 - k,
        {
            let (cx, cy) = a.coordinates[k];
            if grid[cy][cx] {
                proof {
                    let (pp, kk) = choose|pp: int, kk: int|
                        0 <= pp < p + 1 && 0 <= kk < 4 && (pp < p || kk < k) && (
                        #[trigger] totems@[pp].coordinates@[kk]) == (cx, cy);
                    assert(totems@[pp].coordinates@[kk]
                        == totems@[p as int].coordinates@[k as int]);
                    assert(!crate::solution::cells_disjoint(totems@));
                }
                return false;
            }
            let ghost old_grid = grid@;
            let mut row = grid.remove(cy);
            row.set(cx, true);
            grid.insert(cy, row);
            proof {
                assert(forall|yy: int| 0 <= yy < height && yy != cy ==> grid@[yy] == old_grid[yy]);
                assert(grid@[cy as int]@ =~= old_grid[cy as int]@.update(cx as int, true));
            }
            k = k + 1;
        }
        p = p + 1;
        proof {
            assert(crate::solution::cells_disjoint(next_prefix)) by {
                assert(forall|pp: int|
                    0 <= pp < next_prefix.len() ==> #[trigger] next_prefix[pp] == totems@[pp]);
            }
        }
    }
    proof {
        assert(totems@.take(totems@.len() as int) =~= totems@);
    }
    true
}

/// Parse the flat byte format back into rectangles. Every parsed record
/// is validated, and the whole parse is checked by re-encoding: a
/// successful decode returns a well-formed list whose encoding is
/// exactly the input. Conversely, the bytes of any encodable list
/// decode successfully.
#[verifier::rlimit(100)]
pub fn decode_rectangles(bytes: &Vec<u8>) -> (r: Option<Vec<Rectangle>>)
    ensures
        r matches Some(v) ==> {
            &&& forall|j: int| 0 <= j < v@.len() ==> encodable(#[trigger] v@[j])
            &&& inventory_bytes(v@) == bytes@
        },
        (exists|rs: Seq<Rectangle>| is_encoding(bytes@, rs)) ==> r is Some,
{
    let ghost has_wit = exists|rs: Seq<Rectangle>| is_encoding(bytes@, rs);
    let ghost wit: Seq<Rectangle> = if has_wit {
        choose|rs: Seq<Rectangle>| is_encoding(bytes@, rs)
    } else {
        Seq::empty()
    };
    proof {
        if has_wit {
            lemma_list_bytes_len(wit, wit.len() as int);
            assert(bytes@.len() == 2 + 82 * wit.len());
            assert(bytes@[0] == (wit.len() % 256) as u8);
            assert(bytes@[1] == (wit.len() / 256) as u8);
        }
    }
    if bytes.len() < 2 {
        proof {
            if has_wit {
                assert(false);
            }
        }
        return None;
    }
    let n: usize = (bytes[0] as usize) + 256 * (bytes[1] as usize);
    proof {
        if has_wit {
            assert(n == wit.len() % 256 + 256 * (wit.len() / 256));
            assert(n == wit.len());
        }
    }
    if bytes.len() != 2 + 82 * n {
        proof {
            if has_wit {
                assert(false);
            }
        }
        return None;
    }
    let mut rects: Vec<Rectangle> = Vec::new();
    let mut j: usize = 0;
    while j < n
        invariant
            j <= n,
            n <= 65535,
            bytes@.len() == 2 + 82 * n,
            rects@.len() == j,
            forall|jj: int| 0 <= jj < j ==> encodable(#[trigger] rects@[jj]),
            has_wit == exists|rs: Seq<Rectangle>| is_encoding(bytes@, rs),
            has_wit ==> is_encoding(bytes@, wit) && n == wit.len(),
            has_wit ==> forall|jj: int| 0 <= jj < j ==> rect_like(#[trigger] rects@[jj], wit[jj]),
        decreases n - j,
    {
        let base = 2 + 82 * j;
        proof {
            if has_wit {
                assert forall|i: int| 0 <= i < 82 implies bytes@[base + i] == rect_byte(
                    wit[j as int],
                    i,
                ) by {
                    lemma_list_bytes_index(wit, n as int, j as int, i);
                    assert(inventory_bytes(wit)[2 + 82 * j + i] == rect_byte(wit[j as int], i));
                }
                lemma_encodable_bytes(wit[j as int]);
            }
        }
        let width = bytes[base] as usize;
        let height = bytes[base + 1] as usize;
        proof {
            if has_wit {
                lemma_list_bytes_index(wit, n as int, j as int, 0);
                lemma_list_bytes_index(wit, n as int, j as int, 1);
                assert(bytes@[base as int] == rect_byte(wit[j as int], 0));
                assert(bytes@[base + 1] == rect_byte(wit[j as int], 1));
                assert(width == wit[j as int].dims.width);
                assert(height == wit[j as int].dims.height);
            }
        }
        if width < 1 || height < 1 {
            proof {
                if has_wit {
                    assert(false);
                }
            }
            return None;
        }
        let mut cost = TotemBag::new();
        let mut ci: usize = 0;
        while ci < 7
            invariant
                ci <= 7,
                base + 9 <= bytes@.len(),
                bytes@.len() == 2 + 82 * n,
                j < n,
                n <= 65535,
                base == 2 + 82 * j,
                base <= 6000000,
                forall|c: int| 0 <= c < ci ==> cost.0@[c] == bytes@[base + 2 + c],
            decreases 7 - ci,
        {
            cost.0[ci] = bytes[base + 2 + ci] as usize;
            ci = ci + 1;
        }
        let count = bytes[base + 9] as usize;
        proof {
            if has_wit {
                lemma_list_bytes_index(wit, n as int, j as int, 9);
                assert(bytes@[base + 9] == rect_byte(wit[j as int], 9));
                assert(count == wit[j as int].totems@.len());
            }
        }
        if count < 1 || count > 8 {
            proof {
                if has_wit {
                    assert(false);
                }
            }
            return None;
        }
        proof {
            assert(width * height <= 255 * 255) by (nonlinear_arith)
                requires
                    width <= 255,
                    height <= 255,
            ;
        }
        if 4 * count != width * height {
            proof {
                if has_wit {
                    assert(4 * wit[j as int].totems@.len() == wit[j as int].dims.width
                        * wit[j as int].dims.height);
                    assert(false);
                }
            }
            return None;
        }
        let mut totems: Vec<TotemAnswer> = Vec::new();
        let mut slot: usize = 0;
        while slot < count
            invariant
                slot <= count,
                count <= 8,
                base + 82 <= bytes@.len(),
                bytes@.len() == 2 + 82 * n,
                j < n,
                n <= 65535,
                base == 2 + 82 * j,
                base <= 6000000,
                width >= 1,
                height >= 1,
                totems@.len() == slot,
                forall|p: int, k: int|
                    0 <= p < totems@.len() && 0 <= k < 4 ==> (
                    #[trigger] totems@[p].coordinates@[k]).0 < width
                        && totems@[p].coordinates@[k].1 < height,
                has_wit == exists|rs: Seq<Rectangle>| is_encoding(bytes@, rs),
                has_wit ==> is_encoding(bytes@, wit) && n == wit.len() && count == wit[j as int].totems@.len() && width == wit[j as int].dims.width && height == wit[j as int].dims.height,
                has_wit ==> forall|p: int|
                    0 <= p < slot ==> (#[trigger] totems@[p]).shape
                        == wit[j as int].totems@[p].shape && totems@[p].coordinates@
                        == wit[j as int].totems@[p].coordinates@,
            decreases count - slot,
        {
            proof {
                if has_wit {
                    assert forall|i: int| 0 <= i < 82 implies bytes@[base + i] == rect_byte(
                        wit[j as int],
                        i,
                    ) by {
                        lemma_list_bytes_index(wit, n as int, j as int, i);
                        assert(inventory_bytes(wit)[2 + 82 * j + i] == rect_byte(
                            wit[j as int],
                            i,
                        ));
                    }
                    lemma_encodable_bytes(wit[j as int]);
                }
            }
            let sbase = base + 10 + 9 * slot;
            proof {
                if has_wit {
                    assert((10 + 9 * slot - 10) / 9 == slot && (10 + 9 * slot - 10) % 9 == 0)
                        by (nonlinear_arith)
                        requires
                            slot < 8,
                    ;
                    assert(bytes@[sbase as int] == rect_byte(wit[j as int], 10 + 9 * slot));
                    assert(rect_byte(wit[j as int], 10 + 9 * slot) == slot_byte(
                        wit[j as int],
                        slot as int,
                        0,
                    ));
                }
            }
            let shape_idx = bytes[sbase] as usize;
            if shape_idx >= 7 {
                proof {
                    if has_wit {
                        assert(shape_idx == totem_index_spec(
                            wit[j as int].totems@[slot as int].shape,
                        ));
                        assert(false);
                    }
                }
                return None;
            }
            let shape = Totem::from_index(shape_idx);
            proof {
                if has_wit {
                    lemma_totem_index_injective(
                        shape,
                        wit[j as int].totems@[slot as int].shape,
                    );
                }
            }
            let mut coords: [(usize, usize); 4] = [(0, 0), (0, 0), (0, 0), (0, 0)];
            let mut k: usize = 0;
            while k < 4
                invariant
                    k <= 4,
                    sbase + 9 <= bytes@.len(),
                    sbase <= 6000000,
                    sbase == base + 10 + 9 * slot,
                    base == 2 + 82 * j,
                    j < n,
                    n <= 65535,
                    slot < count,
                    count <= 8,
                    bytes@.len() == 2 + 82 * n,
                    width >= 1,
                    height >= 1,
                    coords@.len() == 4,
                    forall|kk: int|
                        0 <= kk < k ==> (#[trigger] coords@[kk]).0 < width && coords@[kk].1
                            < height,
                    has_wit == exists|rs: Seq<Rectangle>| is_encoding(bytes@, rs),
                    has_wit ==> is_encoding(bytes@, wit) && n == wit.len() && slot < wit[j as int].totems@.len() && width == wit[j as int].dims.width && height == wit[j as int].dims.height,
                    has_wit ==> forall|kk: int|
                        0 <= kk < k ==> #[trigger] coords@[kk]
                            == wit[j as int].totems@[slot as int].coordinates@[kk],
                decreases 4 - k,
            {
                proof {
                    if has_wit {
                        assert forall|i: int| 0 <= i < 82 implies bytes@[base + i] == rect_byte(
                            wit[j as int],
                            i,
                        ) by {
                            lemma_list_bytes_index(wit, n as int, j as int, i);
                            assert(inventory_bytes(wit)[2 + 82 * j + i] == rect_byte(
                                wit[j as int],
                                i,
                            ));
                        }
                        lemma_encodable_bytes(wit[j as int]);
                        let bx = 10 + 9 * slot + 1 + 2 * k;
                        let by = 10 + 9 * slot + 2 + 2 * k;
                        assert((bx - 10) / 9 == slot && (bx - 10) % 9 == 1 + 2 * k && (by - 10)
                            / 9 == slot && (by - 10) % 9 == 2 + 2 * k) by (nonlinear_arith)
                            requires
                                slot < 8,
                                k < 4,
                                bx == 10 + 9 * slot + 1 + 2 * k,
                                by == 10 + 9 * slot + 2 + 2 * k,
                        ;
                        assert(bytes@[base + bx] == rect_byte(wit[j as int], bx as int));
                        assert(bytes@[base + by] == rect_byte(wit[j as int], by as int));
                    }
                }
                let x = bytes[sbase + 1 + 2 * k] as usize;
                let y = bytes[sbase + 2 + 2 * k] as usize;
                if x >= width || y >= height {
                    proof {
                        if has_wit {
                            assert(x == wit[j as int].totems@[slot as int].coordinates@[
                                k as int].0);
                            assert(y == wit[j as int].totems@[slot as int].coordinates@[
                                k as int].1);
                            assert(false);
                        }
                    }
                    return None;
                }
                coords[k] = (x, y);
                k = k + 1;
            }
            totems.push(TotemAnswer::new(shape, coords));
            proof {
                if has_wit {
                    assert(totems@[slot as int].coordinates@
                        =~= wit[j as int].totems@[slot as int].coordinates@);
                }
            }
            slot = slot + 1;
        }
        // no cell may be used twice across the parsed pieces
        if !tiling_distinct(&totems, width, height) {
            proof {
                if has_wit {
                    assert forall|p1: int, k1: int, p2: int, k2: int|
                        0 <= p1 < totems@.len() && 0 <= k1 < 4 && 0 <= p2 < totems@.len() && 0
                            <= k2 < 4 && (p1 != p2 || k1 != k2) implies
                        #[trigger] totems@[p1].coordinates@[k1]
                        != #[trigger] totems@[p2].coordinates@[k2] by {
                        assert(totems@[p1].coordinates@
                            == wit[j as int].totems@[p1].coordinates@);
                        assert(totems@[p2].coordinates@
                            == wit[j as int].totems@[p2].coordinates@);
                        assert(wit[j as int].totems@[p1].coordinates@[k1]
                            != wit[j as int].totems@[p2].coordinates@[k2]);
                    }
                    assert(crate::solution::cells_disjoint(totems@));
                    assert(false);
                }
            }
            return None;
        }
        // the cost counts must tally the parsed pieces
        let recount = TotemBag::from_iter(&shapes_of(&totems));
        proof {
            if has_wit {
                assert(shapes_seq(totems@) =~= shapes_seq(wit[j as int].totems@));
                assert(crate::solution::placement_shapes(wit[j as int].totems@) == shapes_seq(
                    wit[j as int].totems@,
                ));
                assert forall|c: int| 0 <= c < 7 implies cost.0@[c] == recount.0@[c] by {
                    assert(cost.0@[c] == bytes@[base + 2 + c]);
                    assert(bytes@[base + 2 + c] == rect_byte(wit[j as int], 2 + c)) by {
                        lemma_list_bytes_index(wit, n as int, j as int, 2 + c);
                    }
                    lemma_encodable_bytes(wit[j as int]);
                    assert(cost.0@[c] == wit[j as int].cost.0@[c]);
                    assert(recount.0@[c] == crate::game_interface::shape_count(
                        shapes_seq(totems@),
                        c,
                    ));
                }
            }
        }
        let mut ok = true;
        let mut ci2: usize = 0;
        while ci2 < 7
            invariant
                ci2 <= 7,
                ok == (forall|i: int| 0 <= i < ci2 ==> cost.0@[i] == recount.0@[i]),
            decreases 7 - ci2,
        {
            if cost.0[ci2] != recount.0[ci2] {
                ok = false;
            }
            ci2 = ci2 + 1;
        }
        if !ok {
            proof {
                if has_wit {
                    assert(exists|c: int| 0 <= c < 7 && cost.0@[c] != recount.0@[c]);
                    let c = choose|c: int| 0 <= c < 7 && cost.0@[c] != recount.0@[c];
                    assert(cost.0@[c] == recount.0@[c]);
                    assert(false);
                }
            }
            return None;
        }
        let rect = Rectangle::new(
            crate::rect_inventory::Dims::new(width, height),
            cost,
            totems,
        );
        proof {
            assert(crate::solution::placement_shapes(rect.totems@) =~= shapes_seq(rect.totems@));
            assert(encodable(rect));
            if has_wit {
                assert(width == wit[j as int].dims.width && height == wit[j as int].dims.height)
                    by {
                    assert(bytes@[base as int] == rect_byte(wit[j as int], 0)) by {
                        lemma_list_bytes_index(wit, n as int, j as int, 0);
                    }
                    assert(bytes@[base + 1] == rect_byte(wit[j as int], 1)) by {
                        lemma_list_bytes_index(wit, n as int, j as int, 1);
                    }
                    lemma_encodable_bytes(wit[j as int]);
                }
                assert(rect.cost.0@ =~= wit[j as int].cost.0@) by {
                    assert forall|c: int| 0 <= c < 7 implies cost.0@[c]
                        == wit[j as int].cost.0@[c] by {
                        assert(bytes@[base + 2 + c] == rect_byte(wit[j as int], 2 + c)) by {
                            lemma_list_bytes_index(wit, n as int, j as int, 2 + c);
                        }
                        lemma_encodable_bytes(wit[j as int]);
                    }
                }
                assert(rect_like(rect, wit[j as int]));
            }
        }
        let ghost pre = rects@;
        rects.push(rect);
        proof {
            assert(forall|jj: int| 0 <= jj < pre.len() ==> #[trigger] rects@[jj] == pre[jj]);
        }
        j = j + 1;
    }
    // a parse only counts if re-encoding it gives back the input bytes
    let reencoded = encode_rectangles(&rects);
    proof {
        if has_wit {
            lemma_encoding_congruent(rects@, wit);
            assert(reencoded@ == bytes@);
        }
    }
    if !bytes_equal(&reencoded, bytes) {
        proof {
            if has_wit {
                assert(false);
            }
        }
        return None;
    }
    Some(rects)
}

/// The shapes of a placement list, as a vector.
fn shapes_of(totems: &Vec<TotemAnswer>) -> (r: Vec<Totem>)
    ensures
        r@ == shapes_seq(totems@),
{
    let mut r: Vec<Totem> = Vec::new();
    let mut i: usize = 0;
    while i < totems.len()
        invariant
            i <= totems@.len(),
            r@ =~= totems@.take(i as int).map_values(|a: TotemAnswer| a.shape),
        decreases totems@.len() - i,
    {
        r.push(totems[i].shape);
        proof {
            assert(r@ =~= totems@.take(i + 1).map_values(|a: TotemAnswer| a.shape));
        }
        i = i + 1;
    }
    proof {
        assert(totems@.take(totems@.len() as int) =~= totems@);
    }
    r
}

pub open spec fn shapes_seq(totems: Seq<TotemAnswer>) -> Seq<Totem> {
    totems.map_values(|a: TotemAnswer| a.shape)
}

/// Exact comparison of two byte vectors.
fn bytes_equal(a: &Vec<u8>, b: &Vec<u8>) -> (r: bool)
    ensures
        r == (a@ == b@),
{
    if a.len() != b.len() {
        proof {
            assert(a@.len() != b@.len());
        }
        return false;
    }
    let mut i: usize = 0;
    while i < a.len()
        invariant
            i <= a@.len(),
            a@.len() == b@.len(),
            forall|k: int| 0 <= k < i ==> a@[k] == b@[k],
        decreases a@.len() - i,
    {
        if a[i] != b[i] {
            return false;
        }
        i = i + 1;
    }
    proof {
        assert(a@ =~= b@);
    }
    true
}

/// The encoding is injective: two encodable lists with the same bytes
/// are the same list, field for field. Together with the decoder's
/// re-encoding check, a successful decode of an inventory's encoding
/// returns that inventory.
pub proof fn lemma_encoding_injective(rs1: Seq<Rectangle>, rs2: Seq<Rectangle>)
    requires
        forall|j: int| 0 <= j < rs1.len() ==> encodable(#[trigger] rs1[j]),
        forall|j: int| 0 <= j < rs2.len() ==> encodable(#[trigger] rs2[j]),
        rs1.len() <= 65535,
        rs2.len() <= 65535,
        inventory_bytes(rs1) == inventory_bytes(rs2),
    ensures
        rs1.len() == rs2.len(),
        forall|j: int|
            0 <= j < rs1.len() ==> {
                &&& (#[trigger] rs1[j]).dims == rs2[j].dims
                &&& rs1[j].cost.0@ == rs2[j].cost.0@
                &&& rs1[j].totems@.len() == rs2[j].totems@.len()
                &&& forall|p: int|
                    0 <= p < rs1[j].totems@.len() ==> (#[trigger] rs1[j].totems@[p]).shape
                        == rs2[j].totems@[p].shape && rs1[j].totems@[p].coordinates@
                        == rs2[j].totems@[p].coordinates@
            },
{
    lemma_list_bytes_len(rs1, rs1.len() as int);
    lemma_list_bytes_len(rs2, rs2.len() as int);
    assert(inventory_bytes(rs1).len() == 2 + 82 * rs1.len());
    assert(inventory_bytes(rs2).len() == 2 + 82 * rs2.len());
    assert(rs1.len() == rs2.len());
    let n = rs1.len() as int;
    assert forall|j: int| 0 <= j < n implies {
        &&& (#[trigger] rs1[j]).dims == rs2[j].dims
        &&& rs1[j].cost.0@ == rs2[j].cost.0@
        &&& rs1[j].totems@.len() == rs2[j].totems@.len()
        &&& forall|p: int|
            0 <= p < rs1[j].totems@.len() ==> (#[trigger] rs1[j].totems@[p]).shape
                == rs2[j].totems@[p].shape && rs1[j].totems@[p].coordinates@
                == rs2[j].totems@[p].coordinates@
    } by {
        lemma_encodable_bytes(rs1[j]);
        lemma_encodable_bytes(rs2[j]);
        assert forall|i: int| 0 <= i < 82 implies rect_byte(rs1[j], i) == rect_byte(
            rs2[j],
            i,
        ) by {
            lemma_list_bytes_index(rs1, n, j, i);
            lemma_list_bytes_index(rs2, n, j, i);
            assert(inventory_bytes(rs1)[2 + 82 * j + i] == rect_byte(rs1[j], i));
            assert(inventory_bytes(rs2)[2 + 82 * j + i] == rect_byte(rs2[j], i));
        }
        assert(rect_byte(rs1[j], 0) == rect_byte(rs2[j], 0));
        assert(rect_byte(rs1[j], 1) == rect_byte(rs2[j], 1));
        assert(rs1[j].dims.width == rs2[j].dims.width);
        assert(rs1[j].dims.height == rs2[j].dims.height);
        assert forall|c: int| 0 <= c < 7 implies rs1[j].cost.0@[c] == rs2[j].cost.0@[c] by {
            assert(rect_byte(rs1[j], c + 2) == rect_byte(rs2[j], c + 2));
        }
        assert(rs1[j].cost.0@ =~= rs2[j].cost.0@);
        assert(rect_byte(rs1[j], 9) == rect_byte(rs2[j], 9));
        assert(rs1[j].totems@.len() == rs2[j].totems@.len());
        assert forall|p: int|
            0 <= p < rs1[j].totems@.len() implies (#[trigger] rs1[j].totems@[p]).shape
            == rs2[j].totems@[p].shape && rs1[j].totems@[p].coordinates@
            == rs2[j].totems@[p].coordinates@ by {
            let base = 10 + 9 * p;
            assert(rect_byte(rs1[j], base) == rect_byte(rs2[j], base));
            assert((base - 10) / 9 == p && (base - 10) % 9 == 0) by (nonlinear_arith)
                requires
                    base == 10 + 9 * p,
                    0 <= p,
            ;
            assert(totem_index_spec(rs1[j].totems@[p].shape) == totem_index_spec(
                rs2[j].totems@[p].shape,
            ));
            assert(rs1[j].totems@[p].shape == rs2[j].totems@[p].shape) by {
                lemma_totem_index_injective(
                    rs1[j].totems@[p].shape,
                    rs2[j].totems@[p].shape,
                );
            }
            assert forall|k: int|
                0 <= k < 4 implies rs1[j].totems@[p].coordinates@[k]
                == rs2[j].totems@[p].coordinates@[k] by {
                let bx = 10 + 9 * p + 1 + 2 * k;
                let by = 10 + 9 * p + 2 + 2 * k;
                assert(rect_byte(rs1[j], bx) == rect_byte(rs2[j], bx));
                assert(rect_byte(rs1[j], by) == rect_byte(rs2[j], by));
                assert((bx - 10) / 9 == p && (bx - 10) % 9 == 1 + 2 * k && (by - 10) / 9 == p && (
                by - 10) % 9 == 2 + 2 * k) by (nonlinear_arith)
                    requires
                        bx == 10 + 9 * p + 1 + 2 * k,
                        by == 10 + 9 * p + 2 + 2 * k,
                        0 <= p,
                        0 <= k < 4,
                ;
            }
            assert(rs1[j].totems@[p].coordinates@ =~= rs2[j].totems@[p].coordinates@);
        }
    }
}

proof fn lemma_totem_index_injective(a: Totem, b: Totem)
    requires
        totem_index_spec(a) == totem_index_spec(b),
    ensures
        a == b,
{
}

} // verus!
