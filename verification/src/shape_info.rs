//! The shape catalog: every 90-degree rotation variant of each of the seven
//! totems, with its four cell offsets, bounding width and height, and the
//! per-row 64-bit occupancy masks used for fast collision tests.
//!
//! Masks put the cell x = 0 at the most significant bit of the word, so the
//! mask for a row holds bit 63 - x for each cell at that x.

use vstd::prelude::*;

use crate::game_interface::Totem;

verus! {

/// A specific rotation of a totem, with fixed cell offsets and masks.
#[derive(Clone, Copy, Debug)]
pub struct ShapeVariant {
    pub shape: Totem,
    pub coords: [(usize, usize); 4],
    pub width: usize,
    pub height: usize,
    pub masks: [u64; 4],
}

/// Whether bit `j` of `m` is set.
pub open spec fn bit64(m: u64, j: u64) -> bool {
    (m >> j) & 1u64 == 1u64
}

/// The 64-bit word with only the bit for cell x set (x = 0 is bit 63).
pub open spec fn pow_bit(x: int) -> u64 {
    if x == 0 {
        0x8000000000000000u64
    } else if x == 1 {
        0x4000000000000000u64
    } else if x == 2 {
        0x2000000000000000u64
    } else if x == 3 {
        0x1000000000000000u64
    } else {
        0u64
    }
}

/// The contribution of one cell to the mask of row `dy`.
pub open spec fn cell_bit(c: (usize, usize), dy: int) -> u64 {
    if c.1 == dy {
        pow_bit(c.0 as int)
    } else {
        0u64
    }
}

/// The mask a row should hold: one bit for each of the variant's cells in
/// that row. Cells are pairwise distinct, so the sum is the bitwise union.
pub open spec fn row_mask_val(v: ShapeVariant, dy: int) -> int {
    cell_bit(v.coords@[0], dy) + cell_bit(v.coords@[1], dy) + cell_bit(v.coords@[2], dy)
        + cell_bit(v.coords@[3], dy)
}

/// Geometric well-formedness of a variant: four pairwise distinct cells
/// inside the bounding box, normalized so min x = 0 and min y = 0.
pub open spec fn cell_in_box(v: ShapeVariant, k: int) -> bool {
    v.coords@[k].0 < v.width && v.coords@[k].1 < v.height
}

pub open spec fn coords_wf(v: ShapeVariant) -> bool {
    &&& 1 <= v.width <= 4
    &&& 1 <= v.height <= 4
    &&& cell_in_box(v, 0) && cell_in_box(v, 1) && cell_in_box(v, 2) && cell_in_box(v, 3)
    &&& v.coords@[0] != v.coords@[1] && v.coords@[0] != v.coords@[2] && v.coords@[0]
        != v.coords@[3] && v.coords@[1] != v.coords@[2] && v.coords@[1] != v.coords@[3]
        && v.coords@[2] != v.coords@[3]
    &&& (v.coords@[0].0 == 0 || v.coords@[1].0 == 0 || v.coords@[2].0 == 0 || v.coords@[3].0 == 0)
    &&& (v.coords@[0].1 == 0 || v.coords@[1].1 == 0 || v.coords@[2].1 == 0 || v.coords@[3].1 == 0)
}

/// The masks agree with the cells, row by row.
pub open spec fn masks_wf(v: ShapeVariant) -> bool {
    &&& v.masks@[0] == row_mask_val(v, 0)
    &&& v.masks@[1] == row_mask_val(v, 1)
    &&& v.masks@[2] == row_mask_val(v, 2)
    &&& v.masks@[3] == row_mask_val(v, 3)
}

/// Full well-formedness of a catalog variant.
pub open spec fn variant_wf(v: ShapeVariant) -> bool {
    coords_wf(v) && masks_wf(v)
}

/// Whether the variant has a cell in row `dy` whose mask bit is `j`.
pub open spec fn mask_covers(v: ShapeVariant, dy: int, j: u64) -> bool {
    ||| (v.coords@[0].1 == dy && j == 63 - v.coords@[0].0)
    ||| (v.coords@[1].1 == dy && j == 63 - v.coords@[1].0)
    ||| (v.coords@[2].1 == dy && j == 63 - v.coords@[2].0)
    ||| (v.coords@[3].1 == dy && j == 63 - v.coords@[3].0)
}


/// The catalog: the list of rotation variants of each shape.
pub open spec fn rotations_spec(t: Totem) -> Seq<ShapeVariant> {
    match t {
        Totem::I => seq![
            ShapeVariant {
                shape: Totem::I,
                coords: [(0, 0), (1, 0), (2, 0), (3, 0)],
                width: 4,
                height: 1,
                masks: [0xf000000000000000u64, 0u64, 0u64, 0u64],
            },
            ShapeVariant {
                shape: Totem::I,
                coords: [(0, 0), (0, 1), (0, 2), (0, 3)],
                width: 1,
                height: 4,
                masks: [0x8000000000000000u64, 0x8000000000000000u64, 0x8000000000000000u64, 0x8000000000000000u64],
            },
        ],
        Totem::J => seq![
            ShapeVariant {
                shape: Totem::J,
                coords: [(0, 0), (1, 0), (1, 1), (1, 2)],
                width: 2,
                height: 3,
                masks: [0xc000000000000000u64, 0x4000000000000000u64, 0x4000000000000000u64, 0u64],
            },
            ShapeVariant {
                shape: Totem::J,
                coords: [(0, 1), (0, 0), (1, 0), (2, 0)],
                width: 3,
                height: 2,
                masks: [0xe000000000000000u64, 0x8000000000000000u64, 0u64, 0u64],
            },
            ShapeVariant {
                shape: Totem::J,
                coords: [(0, 0), (0, 1), (0, 2), (1, 2)],
                width: 2,
                height: 3,
                masks: [0x8000000000000000u64, 0x8000000000000000u64, 0xc000000000000000u64, 0u64],
            },
            ShapeVariant {
                shape: Totem::J,
                coords: [(0, 1), (1, 1), (2, 1), (2, 0)],
                width: 3,
                height: 2,
                masks: [0x2000000000000000u64, 0xe000000000000000u64, 0u64, 0u64],
            },
        ],
        Totem::L => seq![
            ShapeVariant {
                shape: Totem::L,
                coords: [(0, 2), (0, 1), (0, 0), (1, 0)],
                width: 2,
                height: 3,
                masks: [0xc000000000000000u64, 0x8000000000000000u64, 0x8000000000000000u64, 0u64],
            },
            ShapeVariant {
                shape: Totem::L,
                coords: [(0, 0), (1, 0), (2, 0), (2, 1)],
                width: 3,
                height: 2,
                masks: [0xe000000000000000u64, 0x2000000000000000u64, 0u64, 0u64],
            },
            ShapeVariant {
                shape: Totem::L,
                coords: [(0, 2), (1, 2), (1, 1), (1, 0)],
                width: 2,
                height: 3,
                masks: [0x4000000000000000u64, 0x4000000000000000u64, 0xc000000000000000u64, 0u64],
            },
            ShapeVariant {
                shape: Totem::L,
                coords: [(0, 0), (0, 1), (1, 1), (2, 1)],
                width: 3,
                height: 2,
                masks: [0x8000000000000000u64, 0xe000000000000000u64, 0u64, 0u64],
            },
        ],
        Totem::O => seq![
            ShapeVariant {
                shape: Totem::O,
                coords: [(0, 0), (0, 1), (1, 0), (1, 1)],
                width: 2,
                height: 2,
                masks: [0xc000000000000000u64, 0xc000000000000000u64, 0u64, 0u64],
            },
        ],
        Totem::S => seq![
            ShapeVariant {
                shape: Totem::S,
                coords: [(0, 2), (0, 1), (1, 1), (1, 0)],
                width: 2,
                height: 3,
                masks: [0x4000000000000000u64, 0xc000000000000000u64, 0x8000000000000000u64, 0u64],
            },
            ShapeVariant {
                shape: Totem::S,
                coords: [(0, 0), (1, 0), (1, 1), (2, 1)],
                width: 3,
                height: 2,
                masks: [0xc000000000000000u64, 0x6000000000000000u64, 0u64, 0u64],
            },
        ],
        Totem::T => seq![
            ShapeVariant {
                shape: Totem::T,
                coords: [(0, 1), (1, 1), (2, 1), (1, 0)],
                width: 3,
                height: 2,
                masks: [0x4000000000000000u64, 0xe000000000000000u64, 0u64, 0u64],
            },
            ShapeVariant {
                shape: Totem::T,
                coords: [(0, 2), (0, 1), (1, 1), (0, 0)],
                width: 2,
                height: 3,
                masks: [0x8000000000000000u64, 0xc000000000000000u64, 0x8000000000000000u64, 0u64],
            },
            ShapeVariant {
                shape: Totem::T,
                coords: [(0, 0), (1, 0), (2, 0), (1, 1)],
                width: 3,
                height: 2,
                masks: [0xe000000000000000u64, 0x4000000000000000u64, 0u64, 0u64],
            },
            ShapeVariant {
                shape: Totem::T,
                coords: [(1, 2), (1, 1), (1, 0), (0, 1)],
                width: 2,
                height: 3,
                masks: [0x4000000000000000u64, 0xc000000000000000u64, 0x4000000000000000u64, 0u64],
            },
        ],
        Totem::Z => seq![
            ShapeVariant {
                shape: Totem::Z,
                coords: [(0, 0), (0, 1), (1, 1), (1, 2)],
                width: 2,
                height: 3,
                masks: [0x8000000000000000u64, 0xc000000000000000u64, 0x4000000000000000u64, 0u64],
            },
            ShapeVariant {
                shape: Totem::Z,
                coords: [(0, 1), (1, 1), (1, 0), (2, 0)],
                width: 3,
                height: 2,
                masks: [0x6000000000000000u64, 0xc000000000000000u64, 0u64, 0u64],
            },
        ],
    }
}

impl ShapeVariant {
    /// The list of rotation variants of a shape, in catalog order.
    pub fn get_rotations(totem: &Totem) -> (r: Vec<ShapeVariant>)
        ensures
            r@ == rotations_spec(*totem),
    {
        let r = match totem {
            Totem::I => vec![
                ShapeVariant {
                    shape: Totem::I,
                    coords: [(0, 0), (1, 0), (2, 0), (3, 0)],
                    width: 4,
                    height: 1,
                    masks: [0xf000000000000000u64, 0u64, 0u64, 0u64],
                },
                ShapeVariant {
                    shape: Totem::I,
                    coords: [(0, 0), (0, 1), (0, 2), (0, 3)],
                    width: 1,
                    height: 4,
                    masks: [0x8000000000000000u64, 0x8000000000000000u64, 0x8000000000000000u64, 0x8000000000000000u64],
                },
            ],
            Totem::J => vec![
                ShapeVariant {
                    shape: Totem::J,
                    coords: [(0, 0), (1, 0), (1, 1), (1, 2)],
                    width: 2,
                    height: 3,
                    masks: [0xc000000000000000u64, 0x4000000000000000u64, 0x4000000000000000u64, 0u64],
                },
                ShapeVariant {
                    shape: Totem::J,
                    coords: [(0, 1), (0, 0), (1, 0), (2, 0)],
                    width: 3,
                    height: 2,
                    masks: [0xe000000000000000u64, 0x8000000000000000u64, 0u64, 0u64],
                },
                ShapeVariant {
                    shape: Totem::J,
                    coords: [(0, 0), (0, 1), (0, 2), (1, 2)],
                    width: 2,
                    height: 3,
                    masks: [0x8000000000000000u64, 0x8000000000000000u64, 0xc000000000000000u64, 0u64],
                },
                ShapeVariant {
                    shape: Totem::J,
                    coords: [(0, 1), (1, 1), (2, 1), (2, 0)],
                    width: 3,
                    height: 2,
                    masks: [0x2000000000000000u64, 0xe000000000000000u64, 0u64, 0u64],
                },
            ],
            Totem::L => vec![
                ShapeVariant {
                    shape: Totem::L,
                    coords: [(0, 2), (0, 1), (0, 0), (1, 0)],
                    width: 2,
                    height: 3,
                    masks: [0xc000000000000000u64, 0x8000000000000000u64, 0x8000000000000000u64, 0u64],
                },
                ShapeVariant {
                    shape: Totem::L,
                    coords: [(0, 0), (1, 0), (2, 0), (2, 1)],
                    width: 3,
                    height: 2,
                    masks: [0xe000000000000000u64, 0x2000000000000000u64, 0u64, 0u64],
                },
                ShapeVariant {
                    shape: Totem::L,
                    coords: [(0, 2), (1, 2), (1, 1), (1, 0)],
                    width: 2,
                    height: 3,
                    masks: [0x4000000000000000u64, 0x4000000000000000u64, 0xc000000000000000u64, 0u64],
                },
                ShapeVariant {
                    shape: Totem::L,
                    coords: [(0, 0), (0, 1), (1, 1), (2, 1)],
                    width: 3,
                    height: 2,
                    masks: [0x8000000000000000u64, 0xe000000000000000u64, 0u64, 0u64],
                },
            ],
            Totem::O => vec![
                ShapeVariant {
                    shape: Totem::O,
                    coords: [(0, 0), (0, 1), (1, 0), (1, 1)],
                    width: 2,
                    height: 2,
                    masks: [0xc000000000000000u64, 0xc000000000000000u64, 0u64, 0u64],
                },
            ],
            Totem::S => vec![
                ShapeVariant {
                    shape: Totem::S,
                    coords: [(0, 2), (0, 1), (1, 1), (1, 0)],
                    width: 2,
                    height: 3,
                    masks: [0x4000000000000000u64, 0xc000000000000000u64, 0x8000000000000000u64, 0u64],
                },
                ShapeVariant {
                    shape: Totem::S,
                    coords: [(0, 0), (1, 0), (1, 1), (2, 1)],
                    width: 3,
                    height: 2,
                    masks: [0xc000000000000000u64, 0x6000000000000000u64, 0u64, 0u64],
                },
            ],
            Totem::T => vec![
                ShapeVariant {
                    shape: Totem::T,
                    coords: [(0, 1), (1, 1), (2, 1), (1, 0)],
                    width: 3,
                    height: 2,
                    masks: [0x4000000000000000u64, 0xe000000000000000u64, 0u64, 0u64],
                },
                ShapeVariant {
                    shape: Totem::T,
                    coords: [(0, 2), (0, 1), (1, 1), (0, 0)],
                    width: 2,
                    height: 3,
                    masks: [0x8000000000000000u64, 0xc000000000000000u64, 0x8000000000000000u64, 0u64],
                },
                ShapeVariant {
                    shape: Totem::T,
                    coords: [(0, 0), (1, 0), (2, 0), (1, 1)],
                    width: 3,
                    height: 2,
                    masks: [0xe000000000000000u64, 0x4000000000000000u64, 0u64, 0u64],
                },
                ShapeVariant {
                    shape: Totem::T,
                    coords: [(1, 2), (1, 1), (1, 0), (0, 1)],
                    width: 2,
                    height: 3,
                    masks: [0x4000000000000000u64, 0xc000000000000000u64, 0x4000000000000000u64, 0u64],
                },
            ],
            Totem::Z => vec![
                ShapeVariant {
                    shape: Totem::Z,
                    coords: [(0, 0), (0, 1), (1, 1), (1, 2)],
                    width: 2,
                    height: 3,
                    masks: [0x8000000000000000u64, 0xc000000000000000u64, 0x4000000000000000u64, 0u64],
                },
                ShapeVariant {
                    shape: Totem::Z,
                    coords: [(0, 1), (1, 1), (1, 0), (2, 0)],
                    width: 3,
                    height: 2,
                    masks: [0x6000000000000000u64, 0xc000000000000000u64, 0u64, 0u64],
                },
            ],
        };
        proof {
            assert(r@ =~= rotations_spec(*totem));
        }
        r
    }
}

proof fn lemma_single_bits(j: u64)
    by (bit_vector)
    requires
        j < 64,
    ensures
        bit64(0x8000000000000000u64, j) <==> j == 63,
        bit64(0x4000000000000000u64, j) <==> j == 62,
        bit64(0x2000000000000000u64, j) <==> j == 61,
        bit64(0x1000000000000000u64, j) <==> j == 60,
        !bit64(0u64, j),
{
}

proof fn lemma_sum_bits(b0: u64, b1: u64, b2: u64, b3: u64, j: u64)
    by (bit_vector)
    requires
        j < 64,
        b0 == 0 || b0 == 0x8000000000000000u64 || b0 == 0x4000000000000000u64 || b0
            == 0x2000000000000000u64 || b0 == 0x1000000000000000u64,
        b1 == 0 || b1 == 0x8000000000000000u64 || b1 == 0x4000000000000000u64 || b1
            == 0x2000000000000000u64 || b1 == 0x1000000000000000u64,
        b2 == 0 || b2 == 0x8000000000000000u64 || b2 == 0x4000000000000000u64 || b2
            == 0x2000000000000000u64 || b2 == 0x1000000000000000u64,
        b3 == 0 || b3 == 0x8000000000000000u64 || b3 == 0x4000000000000000u64 || b3
            == 0x2000000000000000u64 || b3 == 0x1000000000000000u64,
        b0 != 0 ==> b0 != b1 && b0 != b2 && b0 != b3,
        b1 != 0 ==> b1 != b2 && b1 != b3,
        b2 != 0 ==> b2 != b3,
    ensures
        b0 + b1 + b2 + b3 <= u64::MAX,
        bit64((b0 + b1 + b2 + b3) as u64, j) <==> (bit64(b0, j) || bit64(b1, j) || bit64(b2, j)
            || bit64(b3, j)),
{
}

/// For a well-formed variant, bit `j` of the mask of row `dy` is set exactly
/// when the variant has a cell at (63 - j, dy).
pub proof fn lemma_variant_mask_bits(v: ShapeVariant, dy: int, j: u64)
    requires
        variant_wf(v),
        0 <= dy < 4,
        j < 64,
    ensures
        bit64(v.masks@[dy], j) <==> mask_covers(v, dy, j),
{
    let b0 = cell_bit(v.coords@[0], dy);
    let b1 = cell_bit(v.coords@[1], dy);
    let b2 = cell_bit(v.coords@[2], dy);
    let b3 = cell_bit(v.coords@[3], dy);
    lemma_single_bits(j);
    lemma_sum_bits(b0, b1, b2, b3, j);
    assert(v.masks@[dy] == b0 + b1 + b2 + b3);
}

/// Every variant in the catalog is well-formed: four pairwise distinct
/// cells inside the bounding box, min x = 0, min y = 0, and each row mask
/// holding exactly one bit per cell of that row.
pub proof fn lemma_catalog_wf(t: Totem, k: int)
    requires
        0 <= k < rotations_spec(t).len(),
    ensures
        variant_wf(rotations_spec(t)[k]),
        rotations_spec(t)[k].shape == t,
{
    if t == Totem::I {
        if k == 0 {
            assert(variant_wf(rotations_spec(t)[0]));
        } else
        {
            assert(variant_wf(rotations_spec(t)[1]));
        }
    }
    if t == Totem::J {
        if k == 0 {
            assert(variant_wf(rotations_spec(t)[0]));
        } else
        if k == 1 {
            assert(variant_wf(rotations_spec(t)[1]));
        } else
        if k == 2 {
            assert(variant_wf(rotations_spec(t)[2]));
        } else
        {
            assert(variant_wf(rotations_spec(t)[3]));
        }
    }
    if t == Totem::L {
        if k == 0 {
            assert(variant_wf(rotations_spec(t)[0]));
        } else
        if k == 1 {
            assert(variant_wf(rotations_spec(t)[1]));
        } else
        if k == 2 {
            assert(variant_wf(rotations_spec(t)[2]));
        } else
        {
            assert(variant_wf(rotations_spec(t)[3]));
        }
    }
    if t == Totem::O {
        {
            assert(variant_wf(rotations_spec(t)[0]));
        }
    }
    if t == Totem::S {
        if k == 0 {
            assert(variant_wf(rotations_spec(t)[0]));
        } else
        {
            assert(variant_wf(rotations_spec(t)[1]));
        }
    }
    if t == Totem::T {
        if k == 0 {
            assert(variant_wf(rotations_spec(t)[0]));
        } else
        if k == 1 {
            assert(variant_wf(rotations_spec(t)[1]));
        } else
        if k == 2 {
            assert(variant_wf(rotations_spec(t)[2]));
        } else
        {
            assert(variant_wf(rotations_spec(t)[3]));
        }
    }
    if t == Totem::Z {
        if k == 0 {
            assert(variant_wf(rotations_spec(t)[0]));
        } else
        {
            assert(variant_wf(rotations_spec(t)[1]));
        }
    }
}


/// Minimum (width, height) needed to place a shape: the dimensions of its
/// rotation with the smallest width (first such rotation on ties).
pub open spec fn min_dims_spec(t: Totem) -> (int, int) {
    match t {
        Totem::I => (1int, 4int),
        Totem::O => (2int, 2int),
        _ => (2int, 3int),
    }
}

/// Running minimum-width dims over the first `n` catalog variants,
/// starting from the sentinel (5, 5) (all shapes are smaller than this).
pub open spec fn min_dims_prefix(s: Seq<ShapeVariant>, n: int) -> (int, int)
    decreases n,
{
    if n <= 0 {
        (5int, 5int)
    } else {
        let p = min_dims_prefix(s, n - 1);
        if s[n - 1].width < p.0 {
            (s[n - 1].width as int, s[n - 1].height as int)
        } else {
            p
        }
    }
}

impl ShapeVariant {
    /// Minimum (w, h) needed for this totem, from its smallest-width rotation.
    pub fn minimum_dims(totem: &Totem) -> (r: (usize, usize))
        ensures
            r.0 == min_dims_spec(*totem).0,
            r.1 == min_dims_spec(*totem).1,
    {
        let rotations = ShapeVariant::get_rotations(totem);
        let mut dims: (usize, usize) = (5, 5);
        let mut i: usize = 0;
        while i < rotations.len()
            invariant
                i <= rotations@.len(),
                rotations@ == rotations_spec(*totem),
                (dims.0 as int, dims.1 as int) == min_dims_prefix(rotations@, i as int),
            decreases rotations@.len() - i,
        {
            if rotations[i].width < dims.0 {
                dims = (rotations[i].width, rotations[i].height);
            }
            i = i + 1;
        }
        proof {
            reveal_with_fuel(min_dims_prefix, 6);
            match *totem {
                Totem::I => assert(min_dims_prefix(rotations_spec(*totem), 2) == (1int, 4int)),
                Totem::J => assert(min_dims_prefix(rotations_spec(*totem), 4) == (2int, 3int)),
                Totem::L => assert(min_dims_prefix(rotations_spec(*totem), 4) == (2int, 3int)),
                Totem::O => assert(min_dims_prefix(rotations_spec(*totem), 1) == (2int, 2int)),
                Totem::S => assert(min_dims_prefix(rotations_spec(*totem), 2) == (2int, 3int)),
                Totem::T => assert(min_dims_prefix(rotations_spec(*totem), 4) == (2int, 3int)),
                Totem::Z => assert(min_dims_prefix(rotations_spec(*totem), 2) == (2int, 3int)),
            }
        }
        dims
    }

    /// The same variant with every cell translated by (x, y). The masks are
    /// kept as they are; they are only meaningful for the untranslated
    /// variant and are not read after translation.
    pub fn offset_by(&self, x: usize, y: usize) -> (r: ShapeVariant)
        requires
            forall|k: int|
                0 <= k < 4 ==> (#[trigger] self.coords@[k]).0 + x <= usize::MAX
                    && self.coords@[k].1 + y <= usize::MAX,
        ensures
            r.shape == self.shape,
            r.width == self.width,
            r.height == self.height,
            r.masks == self.masks,
            r.coords@.len() == 4,
            forall|k: int|
                0 <= k < 4 ==> (#[trigger] r.coords@[k]).0 == self.coords@[k].0 + x
                    && r.coords@[k].1 == self.coords@[k].1 + y,
    {
        let mut coords = self.coords;
        let mut k: usize = 0;
        while k < 4
            invariant
                k <= 4,
                coords@.len() == 4,
                forall|b: int|
                    0 <= b < 4 ==> (#[trigger] self.coords@[b]).0 + x <= usize::MAX
                        && self.coords@[b].1 + y <= usize::MAX,
                forall|b: int| k <= b < 4 ==> coords@[b] == self.coords@[b],
                forall|b: int|
                    0 <= b < k ==> (#[trigger] coords@[b]).0 == self.coords@[b].0 + x
                        && coords@[b].1 == self.coords@[b].1 + y,
            decreases 4 - k,
        {
            let (cx, cy) = coords[k];
            coords[k] = (cx + x, cy + y);
            k = k + 1;
        }
        ShapeVariant {
            shape: self.shape,
            coords,
            width: self.width,
            height: self.height,
            masks: self.masks,
        }
    }

    /// The mask of a local row, shifted right to a global x position.
    pub fn mask_at(&self, global_x: usize, local_y: usize) -> (r: u64)
        requires
            local_y < 4,
            global_x < 64,
        ensures
            r == self.masks@[local_y as int] >> global_x,
    {
        self.masks[local_y] >> global_x
    }
}

impl Totem {
    /// The rotation variants of this totem, in catalog order.
    pub fn get_rotations(&self) -> (r: Vec<ShapeVariant>)
        ensures
            r@ == rotations_spec(*self),
    {
        ShapeVariant::get_rotations(self)
    }
}

/// Whether the variant, shifted right by `s` columns, has a cell in row
/// `dy` at mask bit `j` (that is, a cell at global x = 63 - j).
pub open spec fn mask_covers_shifted(v: ShapeVariant, dy: int, s: int, j: u64) -> bool {
    ||| (v.coords@[0].1 == dy && j == 63 - v.coords@[0].0 - s)
    ||| (v.coords@[1].1 == dy && j == 63 - v.coords@[1].0 - s)
    ||| (v.coords@[2].1 == dy && j == 63 - v.coords@[2].0 - s)
    ||| (v.coords@[3].1 == dy && j == 63 - v.coords@[3].0 - s)
}

proof fn lemma_test_bit(g: u64, j: u64)
    by (bit_vector)
    requires
        j < 64,
    ensures
        ((1u64 << j) & g != 0) <==> bit64(g, j),
{
}

proof fn lemma_or_bits(a: u64, b: u64, j: u64)
    by (bit_vector)
    requires
        j < 64,
    ensures
        bit64(a | b, j) == (bit64(a, j) || bit64(b, j)),
{
}

proof fn lemma_or_zero(a: u64, b: u64)
    by (bit_vector)
    ensures
        (a | b == 0) <==> (a == 0 && b == 0),
{
}

proof fn lemma_pow_shift()
    by (bit_vector)
    ensures
        0x8000000000000000u64 >> 0u64 == 0x8000000000000000u64,
        0x8000000000000000u64 >> 1u64 == 0x4000000000000000u64,
        0x8000000000000000u64 >> 2u64 == 0x2000000000000000u64,
        0x8000000000000000u64 >> 3u64 == 0x1000000000000000u64,
{
}

proof fn lemma_shift_single(x: u64, s: u64, j: u64)
    by (bit_vector)
    requires
        x < 64,
        s < 64,
        j < 64,
        x + s < 64,
    ensures
        bit64((0x8000000000000000u64 >> x) >> s, j) <==> j == 63 - x - s,
        !bit64(0u64 >> s, j),
        ((0u64 >> s) & 0xffffffffffffffffu64) == 0,
{
}

proof fn lemma_sum_shift_bits(b0: u64, b1: u64, b2: u64, b3: u64, s: u64, j: u64)
    by (bit_vector)
    requires
        s < 64,
        j < 64,
        b0 == 0 || b0 == 0x8000000000000000u64 || b0 == 0x4000000000000000u64 || b0
            == 0x2000000000000000u64 || b0 == 0x1000000000000000u64,
        b1 == 0 || b1 == 0x8000000000000000u64 || b1 == 0x4000000000000000u64 || b1
            == 0x2000000000000000u64 || b1 == 0x1000000000000000u64,
        b2 == 0 || b2 == 0x8000000000000000u64 || b2 == 0x4000000000000000u64 || b2
            == 0x2000000000000000u64 || b2 == 0x1000000000000000u64,
        b3 == 0 || b3 == 0x8000000000000000u64 || b3 == 0x4000000000000000u64 || b3
            == 0x2000000000000000u64 || b3 == 0x1000000000000000u64,
        b0 != 0 ==> b0 != b1 && b0 != b2 && b0 != b3,
        b1 != 0 ==> b1 != b2 && b1 != b3,
        b2 != 0 ==> b2 != b3,
    ensures
        b0 + b1 + b2 + b3 <= u64::MAX,
        bit64(((b0 + b1 + b2 + b3) as u64) >> s, j) <==> (bit64(b0 >> s, j) || bit64(b1 >> s, j)
            || bit64(b2 >> s, j) || bit64(b3 >> s, j)),
{
}

proof fn lemma_single_and(x: u64, s: u64, g: u64)
    by (bit_vector)
    requires
        x < 64,
        s < 64,
        x + s < 64,
    ensures
        (((0x8000000000000000u64 >> x) >> s) & g == 0) <==> !bit64(g, (63 - x - s) as u64),
        ((0u64 >> s) & g) == 0,
{
}

proof fn lemma_and_zero_sum(b0: u64, b1: u64, b2: u64, b3: u64, s: u64, g: u64)
    by (bit_vector)
    requires
        s < 64,
        b0 == 0 || b0 == 0x8000000000000000u64 || b0 == 0x4000000000000000u64 || b0
            == 0x2000000000000000u64 || b0 == 0x1000000000000000u64,
        b1 == 0 || b1 == 0x8000000000000000u64 || b1 == 0x4000000000000000u64 || b1
            == 0x2000000000000000u64 || b1 == 0x1000000000000000u64,
        b2 == 0 || b2 == 0x8000000000000000u64 || b2 == 0x4000000000000000u64 || b2
            == 0x2000000000000000u64 || b2 == 0x1000000000000000u64,
        b3 == 0 || b3 == 0x8000000000000000u64 || b3 == 0x4000000000000000u64 || b3
            == 0x2000000000000000u64 || b3 == 0x1000000000000000u64,
        b0 != 0 ==> b0 != b1 && b0 != b2 && b0 != b3,
        b1 != 0 ==> b1 != b2 && b1 != b3,
        b2 != 0 ==> b2 != b3,
    ensures
        ((((b0 + b1 + b2 + b3) as u64) >> s) & g == 0) <==> ((b0 >> s) & g == 0 && (b1 >> s) & g
            == 0 && (b2 >> s) & g == 0 && (b3 >> s) & g == 0),
{
}

/// The cell bits of one row of a well-formed variant: each is zero or one
/// of the four single-bit words, and nonzero ones are pairwise distinct.
proof fn lemma_row_cell_bits(v: ShapeVariant, dy: int)
    requires
        variant_wf(v),
        0 <= dy < 4,
    ensures
        forall|k: int|
            0 <= k < 4 ==> {
                let b = #[trigger] cell_bit(v.coords@[k], dy);
                b == 0 || b == 0x8000000000000000u64 || b == 0x4000000000000000u64 || b
                    == 0x2000000000000000u64 || b == 0x1000000000000000u64
            },
        forall|k1: int, k2: int|
            0 <= k1 < k2 < 4 && #[trigger] cell_bit(v.coords@[k1], dy) != 0 ==> cell_bit(
                v.coords@[k1],
                dy,
            ) != #[trigger] cell_bit(v.coords@[k2], dy),
{
    assert forall|k: int| 0 <= k < 4 implies {
        let b = #[trigger] cell_bit(v.coords@[k], dy);
        b == 0 || b == 0x8000000000000000u64 || b == 0x4000000000000000u64 || b
            == 0x2000000000000000u64 || b == 0x1000000000000000u64
    } by {
        assert(v.coords@[k].0 < 4);
    }
    assert forall|k1: int, k2: int|
        0 <= k1 < k2 < 4 && #[trigger] cell_bit(v.coords@[k1], dy) != 0 implies cell_bit(
        v.coords@[k1],
        dy,
    ) != #[trigger] cell_bit(v.coords@[k2], dy) by {
        assert(v.coords@[k1].0 < 4 && v.coords@[k2].0 < 4);
        assert(v.coords@[k1] != v.coords@[k2]);
    }
}

/// Bit `j` of the mask of row `dy`, shifted right by `s`, is set exactly
/// when the variant shifted by `s` columns has a cell at (63 - j, dy).
pub proof fn lemma_shifted_mask_bits(v: ShapeVariant, dy: int, s: u64, j: u64)
    requires
        variant_wf(v),
        0 <= dy < 4,
        s + v.width <= 64,
        j < 64,
    ensures
        bit64(v.masks@[dy] >> s, j) <==> mask_covers_shifted(v, dy, s as int, j),
{
    let b0 = cell_bit(v.coords@[0], dy);
    let b1 = cell_bit(v.coords@[1], dy);
    let b2 = cell_bit(v.coords@[2], dy);
    let b3 = cell_bit(v.coords@[3], dy);
    lemma_row_cell_bits(v, dy);
    lemma_pow_shift();
    lemma_sum_shift_bits(b0, b1, b2, b3, s, j);
    assert(v.masks@[dy] == b0 + b1 + b2 + b3);
    assert forall|k: int| 0 <= k < 4 implies (bit64(#[trigger] cell_bit(v.coords@[k], dy) >> s, j)
        <==> (v.coords@[k].1 == dy && j == 63 - v.coords@[k].0 - s)) by {
        let c = v.coords@[k];
        assert(c.0 < 4);
        if c.1 == dy {
            lemma_shift_single(c.0 as u64, s, j);
        } else {
            lemma_shift_single(0u64, s, j);
        }
    }
}

/// The mask of row `dy`, shifted right by `s` and intersected with a grid
/// row, is zero exactly when no cell of the row lands on a set grid bit.
pub proof fn lemma_shifted_mask_and(v: ShapeVariant, dy: int, s: u64, g: u64)
    requires
        variant_wf(v),
        0 <= dy < 4,
        s + v.width <= 64,
    ensures
        ((v.masks@[dy] >> s) & g == 0) <==> (forall|k: int|
            0 <= k < 4 && (#[trigger] v.coords@[k]).1 == dy ==> !bit64(
                g,
                (63 - v.coords@[k].0 - s) as u64,
            )),
{
    let b0 = cell_bit(v.coords@[0], dy);
    let b1 = cell_bit(v.coords@[1], dy);
    let b2 = cell_bit(v.coords@[2], dy);
    let b3 = cell_bit(v.coords@[3], dy);
    lemma_row_cell_bits(v, dy);
    lemma_pow_shift();
    lemma_and_zero_sum(b0, b1, b2, b3, s, g);
    assert(v.masks@[dy] == b0 + b1 + b2 + b3);
    assert forall|k: int| 0 <= k < 4 implies ((#[trigger] cell_bit(v.coords@[k], dy) >> s) & g == 0
        <==> (v.coords@[k].1 != dy || !bit64(g, (63 - v.coords@[k].0 - s) as u64))) by {
        let c = v.coords@[k];
        assert(c.0 < 4);
        if c.1 == dy {
            lemma_single_and(c.0 as u64, s, g);
        } else {
            lemma_single_and(0u64, s, g);
        }
    }
}

/// Bit test as the board performs it: a single bit mask built with a
/// left shift, intersected with a grid row.
pub proof fn lemma_single_bit_test(g: u64, j: u64)
    requires
        j < 64,
    ensures
        ((1u64 << j) & g != 0) <==> bit64(g, j),
{
    lemma_test_bit(g, j);
}

/// Merging a mask row into a grid row sets exactly the union of the bits.
pub proof fn lemma_merge_bits(a: u64, b: u64, j: u64)
    requires
        j < 64,
    ensures
        bit64(a | b, j) == (bit64(a, j) || bit64(b, j)),
{
    lemma_or_bits(a, b, j);
}

/// The zero word has no bits set.
pub proof fn lemma_zero_bits(j: u64)
    requires
        j < 64,
    ensures
        !bit64(0u64, j),
{
    lemma_single_bits(j);
}

/// An or-accumulator is zero exactly when both operands are zero.
pub proof fn lemma_or_accumulator(a: u64, b: u64)
    ensures
        (a | b == 0) <==> (a == 0 && b == 0),
{
    lemma_or_zero(a, b);
}

} // verus!

