//! The occupancy lookup and the first pass: the plates of one row.
use std::collections::HashSet;
use vstd::prelude::*;
use crate::grid::{bounded, is_plate, Plate};

verus! {

broadcast use vstd::std_specs::hash::group_hash_axioms;

/// The number that `pair_key(a, b)` packs two values into.
pub open spec fn key_of(a: int, b: int) -> int {
    a * 0x1_0000_0000 + b
}

/// Packs two non-negative `i32` values into one `u64`, one-to-one.
pub fn pair_key(a: i32, b: i32) -> (k: u64)
    requires
        0 <= a,
        0 <= b,
    ensures
        k as int == key_of(a as int, b as int),
{
    assert(0 <= (a as int) * 0x1_0000_0000 <= 0x7fff_ffff * 0x1_0000_0000) by (nonlinear_arith)
        requires
            0 <= a <= 0x7fff_ffff,
    ;
    (a as u64) * 0x1_0000_0000 + (b as u64)
}

pub proof fn lemma_key_injective(a1: int, b1: int, a2: int, b2: int)
    requires
        0 <= b1 < 0x1_0000_0000,
        0 <= b2 < 0x1_0000_0000,
        key_of(a1, b1) == key_of(a2, b2),
    ensures
        a1 == a2,
        b1 == b2,
{
    if a1 < a2 {
        assert((a2 - a1) * 0x1_0000_0000 >= 0x1_0000_0000) by (nonlinear_arith)
            requires
                a1 < a2,
        ;
    } else if a2 < a1 {
        assert((a1 - a2) * 0x1_0000_0000 >= 0x1_0000_0000) by (nonlinear_arith)
            requires
                a2 < a1,
        ;
    }
}

/// `keys` holds the packed key of exactly the cells of `occ` (within `i32` range).
pub open spec fn keys_model(keys: Set<u64>, occ: Set<(int, int)>) -> bool {
    forall|x: int, y: int|
        0 <= x <= i32::MAX && 0 <= y <= i32::MAX ==> (keys.contains(key_of(y, x) as u64)
            <==> #[trigger] occ.contains((x, y)))
}

/// Whether the cell `(x, y)` is solid.
pub fn cell_filled(keys: &HashSet<u64>, x: i32, y: i32, Ghost(occ): Ghost<Set<(int, int)>>) -> (r:
    bool)
    requires
        keys_model(keys@, occ),
        0 <= x,
        0 <= y,
    ensures
        r == occ.contains((x as int, y as int)),
{
    let k = pair_key(y, x);
    proof {
        assert(occ.contains((x as int, y as int)) == keys@.contains(key_of(y as int, x as int) as u64));
    }
    keys.contains(&k)
}

/// `ps` lists the plates of row `y`, all of them, from left to right.
pub open spec fn row_is_plates(occ: Set<(int, int)>, y: int, ps: Seq<Plate>) -> bool {
    &&& forall|i: int| 0 <= i < ps.len() ==> (#[trigger] ps[i]).is_plate_of(occ, y)
    &&& forall|l: int, r: int| #[trigger]
        is_plate(occ, y, l, r) ==> exists|i: int|
            0 <= i < ps.len() && (#[trigger] ps[i]).left == l && ps[i].right == r
    &&& forall|i: int, j: int|
        0 <= i < j < ps.len() ==> (#[trigger] ps[i]).right + 1 < (#[trigger] ps[j]).left
}

/// Two plates of one row that share a column are the same plate.
pub proof fn lemma_plates_overlap(occ: Set<(int, int)>, y: int, l1: int, r1: int, l2: int, r2: int)
    requires
        is_plate(occ, y, l1, r1),
        is_plate(occ, y, l2, r2),
        l1 <= r2,
        l2 <= r1,
    ensures
        l1 == l2,
        r1 == r2,
{
    if l1 < l2 {
        assert(occ.contains((l2 - 1, y)));
    }
    if l2 < l1 {
        assert(occ.contains((l1 - 1, y)));
    }
    if r1 < r2 {
        assert(occ.contains((r1 + 1, y)));
    }
    if r2 < r1 {
        assert(occ.contains((r2 + 1, y)));
    }
}

/// The plates of row `y`, left to right. The scan runs one column past the
/// grid, so that a run touching the right edge is closed too.
pub fn row_plates(
    keys: &HashSet<u64>,
    width: i32,
    y: i32,
    Ghost(occ): Ghost<Set<(int, int)>>,
    Ghost(height): Ghost<int>,
) -> (row: Vec<Plate>)
    requires
        keys_model(keys@, occ),
        bounded(occ, width as int, height),
        0 <= width < i32::MAX,
        0 <= y,
    ensures
        row_is_plates(occ, y as int, row@),
{
    let ghost yy = y as int;
    let mut row: Vec<Plate> = Vec::new();
    let mut start: Option<i32> = None;
    let mut x: i32 = 0;
    assert forall|l: int, r: int| #[trigger] is_plate(occ, yy, l, r) implies r >= 0 by {
        assert(occ.contains((r, yy)));
    }
    while x <= width
        invariant
            keys_model(keys@, occ),
            bounded(occ, width as int, height),
            0 <= width < i32::MAX,
            0 <= y,
            yy == y,
            0 <= x <= width + 1,
            match start {
                Some(s) => 0 <= s < x && !occ.contains((s - 1, yy)) && forall|z: int|
                    s <= z < x ==> #[trigger] occ.contains((z, yy)),
                None => x == 0 || !occ.contains((x - 1, yy)),
            },
            forall|i: int|
                0 <= i < row.len() ==> (#[trigger] row@[i]).is_plate_of(occ, yy) && row@[i].right
                    + 1 < x,
            match start {
                Some(s) => forall|i: int| 0 <= i < row.len() ==> (#[trigger] row@[i]).right + 1 < s,
                None => true,
            },
            forall|l: int, r: int| #[trigger]
                is_plate(occ, yy, l, r) && r + 1 < x ==> exists|i: int|
                    0 <= i < row.len() && (#[trigger] row@[i]).left == l && row@[i].right == r,
            forall|i: int, j: int|
                0 <= i < j < row.len() ==> (#[trigger] row@[i]).right + 1 < (#[trigger] row@[j]).left,
        decreases width + 1 - x,
    {
        let here = cell_filled(keys, x, y, Ghost(occ));
        let ghost old_row = row@;
        let ghost old_start = start;
        match start {
            Some(s) => {
                if !here {
                    row.push(Plate { left: s, right: x - 1 });
                    start = None;
                }
            },
            None => {
                if here {
                    start = Some(x);
                }
            },
        }
        proof {
            assert(!occ.contains((-1, yy)));
            assert forall|l: int, r: int| #[trigger]
                is_plate(occ, yy, l, r) && r + 1 < x + 1 implies exists|i: int|
                    0 <= i < row.len() && (#[trigger] row@[i]).left == l && row@[i].right == r by {
                if r + 1 < x {
                    let i = choose|i: int|
                        0 <= i < old_row.len() && (#[trigger] old_row[i]).left == l && old_row[i].right
                            == r;
                    assert(row@[i] == old_row[i]);
                } else {
                    assert(occ.contains((r, yy)));
                    match old_start {
                        Some(s) => {
                            lemma_plates_overlap(occ, yy, l, r, s as int, r);
                            assert(row@[row.len() - 1].left == l);
                        },
                        None => {},
                    }
                }
            }
        }
        x = x + 1;
    }
    proof {
        assert forall|l: int, r: int| #[trigger] is_plate(occ, yy, l, r) implies exists|i: int|
            0 <= i < row.len() && (#[trigger] row@[i]).left == l && row@[i].right == r by {
            assert(occ.contains((r, yy)));
            assert(is_plate(occ, yy, l, r) && r + 1 < x);
        }
    }
    row
}

} // verus!
