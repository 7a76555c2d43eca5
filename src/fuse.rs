//! The second pass: plates of identical shape in consecutive rows are fused
//! into one rectangle; a plate missing from the next row closes its rectangle.
use std::collections::HashMap;
use vstd::prelude::*;
use crate::grid::{bounded, is_plate, stack_from, Plate, Rect};
use crate::plates::{key_of, lemma_key_injective, pair_key, row_is_plates};

verus! {

broadcast use vstd::std_specs::hash::group_hash_axioms;

/// The accumulator key of a plate shape.
pub open spec fn plate_key(p: Plate) -> u64 {
    key_of(p.left as int, p.right as int) as u64
}

/// `v` is the open rectangle of plate shape `p`: a stack of it ending at row `t`.
pub open spec fn open_acc(occ: Set<(int, int)>, v: Rect, p: Plate, t: int) -> bool {
    &&& v.left == p.left
    &&& v.right == p.right
    &&& v.top == t
    &&& stack_from(occ, p.left as int, p.right as int, v.bottom as int, t)
}

/// `b` holds one open rectangle for each plate of `ps` (the plates of row `t`), and no other.
pub open spec fn builder_tracks(occ: Set<(int, int)>, b: Map<u64, Rect>, ps: Seq<Plate>, t: int) -> bool {
    &&& forall|k: u64| #[trigger]
        b.contains_key(k) ==> exists|i: int| 0 <= i < ps.len() && k == plate_key(#[trigger] ps[i])
    &&& forall|i: int|
        0 <= i < ps.len() ==> b.contains_key(plate_key(#[trigger] ps[i])) && open_acc(
            occ,
            b[plate_key(ps[i])],
            ps[i],
            t,
        )
}

/// `ps` holds the plate `p`.
pub open spec fn row_has_spec(ps: Seq<Plate>, p: Plate) -> bool {
    exists|i: int| 0 <= i < ps.len() && ps[i] == p
}

/// After the closing step of row `t + 1`: `b` holds the open rectangles of
/// the plates of `cur` that `prev` holds too, and no other.
pub open spec fn builder_kept(
    occ: Set<(int, int)>,
    b: Map<u64, Rect>,
    prev: Seq<Plate>,
    cur: Seq<Plate>,
    t: int,
) -> bool {
    &&& forall|k: u64| #[trigger]
        b.contains_key(k) ==> exists|m: int|
            0 <= m < cur.len() && k == plate_key(#[trigger] cur[m]) && row_has_spec(prev, cur[m])
    &&& forall|m: int|
        0 <= m < cur.len() && row_has_spec(prev, #[trigger] cur[m]) ==> b.contains_key(
            plate_key(cur[m]),
        ) && open_acc(occ, b[plate_key(cur[m])], cur[m], t)
}

/// `out` lists, in output order, exactly the wall rectangles whose top row is below `y`.
pub open spec fn emitted_below(occ: Set<(int, int)>, out: Seq<Rect>, y: int) -> bool {
    &&& forall|j: int| 0 <= j < out.len() ==> (#[trigger] out[j]).is_wall_of(occ) && out[j].top < y
    &&& forall|q: Rect| #[trigger] q.is_wall_of(occ) && q.top < y ==> out.contains(q)
    &&& forall|j1: int, j2: int|
        0 <= j1 < j2 < out.len() ==> (#[trigger] out[j1]).precedes(#[trigger] out[j2])
}

pub proof fn lemma_plate_in_grid(occ: Set<(int, int)>, width: int, height: int, y: int, l: int, r: int)
    requires
        bounded(occ, width, height),
        is_plate(occ, y, l, r),
    ensures
        0 <= l <= r < width,
        0 <= y < height,
{
    assert(occ.contains((l, y)));
    assert(occ.contains((r, y)));
}

pub proof fn lemma_plate_key_injective(pa: Plate, pb: Plate)
    requires
        0 <= pa.left,
        0 <= pa.right,
        0 <= pb.left,
        0 <= pb.right,
        plate_key(pa) == plate_key(pb),
    ensures
        pa == pb,
{
    assert(0 <= key_of(pa.left as int, pa.right as int) < 0x8000_0000_0000_0000) by (nonlinear_arith)
        requires
            0 <= pa.left <= 0x7fff_ffff,
            0 <= pa.right <= 0x7fff_ffff,
    ;
    assert(0 <= key_of(pb.left as int, pb.right as int) < 0x8000_0000_0000_0000) by (nonlinear_arith)
        requires
            0 <= pb.left <= 0x7fff_ffff,
            0 <= pb.right <= 0x7fff_ffff,
    ;
    lemma_key_injective(pa.left as int, pa.right as int, pb.left as int, pb.right as int);
}

/// Two stacks of one plate shape that end at the same row start at the same row.
pub proof fn lemma_bottom_unique(occ: Set<(int, int)>, l: int, r: int, b1: int, b2: int, t: int)
    requires
        stack_from(occ, l, r, b1, t),
        stack_from(occ, l, r, b2, t),
    ensures
        b1 == b2,
{
    if b1 < b2 {
        assert(is_plate(occ, b2 - 1, l, r));
    }
    if b2 < b1 {
        assert(is_plate(occ, b1 - 1, l, r));
    }
}

/// Within a row that satisfies `row_is_plates`, holding a plate and being one agree.
pub proof fn lemma_row_has(occ: Set<(int, int)>, y: int, ps: Seq<Plate>, p: Plate)
    requires
        row_is_plates(occ, y, ps),
    ensures
        row_has_spec(ps, p) <==> p.is_plate_of(occ, y),
{
    if p.is_plate_of(occ, y) {
        assert(is_plate(occ, y, p.left as int, p.right as int));
        let i = choose|i: int| 0 <= i < ps.len() && (#[trigger] ps[i]).left == p.left && ps[i].right == p.right;
        assert(ps[i] == p);
    }
    if row_has_spec(ps, p) {
        let i = choose|i: int| 0 <= i < ps.len() && ps[i] == p;
        assert(ps[i].is_plate_of(occ, y));
    }
}

/// Whether `row` holds the plate `p`.
pub fn row_has(row: &Vec<Plate>, p: Plate) -> (r: bool)
    ensures
        r == row_has_spec(row@, p),
{
    let mut i: usize = 0;
    while i < row.len()
        invariant
            0 <= i <= row.len(),
            forall|j: int| 0 <= j < i ==> row@[j] != p,
        decreases row.len() - i,
    {
        if row[i].left == p.left && row[i].right == p.right {
            assert(row@[i as int] == p);
            return true;
        }
        i = i + 1;
    }
    false
}

/// The closing step for row `y`: each open rectangle whose plate `cur` lacks
/// is removed from `builder` and appended to `out`, in the order of `prev`.
fn close_finished(
    prev: &Vec<Plate>,
    cur: &Vec<Plate>,
    builder: &mut HashMap<u64, Rect>,
    out: &mut Vec<Rect>,
    Ghost(occ): Ghost<Set<(int, int)>>,
    Ghost(y): Ghost<int>,
    Ghost(width): Ghost<int>,
    Ghost(height): Ghost<int>,
)
    requires
        bounded(occ, width, height),
        row_is_plates(occ, y - 1, prev@),
        row_is_plates(occ, y, cur@),
        builder_tracks(occ, old(builder)@, prev@, y - 1),
        emitted_below(occ, old(out)@, y - 1),
    ensures
        builder_kept(occ, final(builder)@, prev@, cur@, y - 1),
        emitted_below(occ, final(out)@, y),
{
    let ghost b0 = builder@;
    let ghost out0 = out@;
    assert forall|m: int| 0 <= m < prev.len() implies 0 <= (#[trigger] prev@[m]).left && prev@[m].left
        <= prev@[m].right by {
        assert(prev@[m].is_plate_of(occ, y - 1));
        lemma_plate_in_grid(occ, width, height, y - 1, prev@[m].left as int, prev@[m].right as int);
    }
    let mut i: usize = 0;
    while i < prev.len()
        invariant
            bounded(occ, width, height),
            row_is_plates(occ, y - 1, prev@),
            row_is_plates(occ, y, cur@),
            builder_tracks(occ, b0, prev@, y - 1),
            emitted_below(occ, out0, y - 1),
            forall|m: int| 0 <= m < prev.len() ==> 0 <= (#[trigger] prev@[m]).left && prev@[m].left
                <= prev@[m].right,
            0 <= i <= prev.len(),
            forall|k: u64| #[trigger]
                builder@.contains_key(k) ==> b0.contains_key(k) && builder@[k] == b0[k],
            forall|m: int|
                0 <= m < prev.len() ==> (builder@.contains_key(plate_key(#[trigger] prev@[m])) <==> (
                m >= i || row_has_spec(cur@, prev@[m]))),
            forall|j: int|
                0 <= j < out.len() ==> (#[trigger] out@[j]).is_wall_of(occ) && (out@[j].top < y - 1
                    || (out@[j].top == y - 1 && (i < prev.len() ==> out@[j].left < prev@[i as int].left))),
            forall|q: Rect| #[trigger] q.is_wall_of(occ) && q.top < y - 1 ==> out@.contains(q),
            forall|m: int|
                0 <= m < i && !row_has_spec(cur@, #[trigger] prev@[m]) ==> out@.contains(
                    b0[plate_key(prev@[m])],
                ),
            forall|j1: int, j2: int|
                0 <= j1 < j2 < out.len() ==> (#[trigger] out@[j1]).precedes(#[trigger] out@[j2]),
        decreases prev.len() - i,
    {
        let p = prev[i];
        let ghost old_out = out@;
        let ghost old_b = builder@;
        if !row_has(cur, p) {
            let k = pair_key(p.left, p.right);
            assert(k == plate_key(prev@[i as int]));
            match builder.remove(&k) {
                Some(r) => {
                    proof {
                        assert(r == b0[k]);
                        assert(open_acc(occ, r, p, y - 1));
                        lemma_row_has(occ, y, cur@, p);
                        assert(r.is_wall_of(occ));
                    }
                    out.push(r);
                },
                None => {},
            }
            proof {
                assert forall|m: int|
                    0 <= m < prev.len() && m != i implies plate_key(#[trigger] prev@[m]) != k by {
                    if plate_key(prev@[m]) == k {
                        lemma_plate_key_injective(prev@[m], p);
                        if m < i {
                            assert(prev@[m].right + 1 < prev@[i as int].left);
                        } else {
                            assert(prev@[i as int].right + 1 < prev@[m].left);
                        }
                    }
                }
                assert forall|q: Rect| #[trigger] q.is_wall_of(occ) && q.top < y - 1 implies out@.contains(q) by {
                    let j = choose|j: int| 0 <= j < old_out.len() && old_out[j] == q;
                    assert(out@[j] == q);
                }
                assert forall|m: int|
                    0 <= m < i + 1 && !row_has_spec(cur@, #[trigger] prev@[m]) implies out@.contains(
                        b0[plate_key(prev@[m])]) by {
                    if m < i {
                        let j = choose|j: int| 0 <= j < old_out.len() && old_out[j] == b0[plate_key(prev@[m])];
                        assert(out@[j] == old_out[j]);
                    } else {
                        assert(out@[out.len() - 1] == b0[plate_key(prev@[m])]);
                    }
                }
            }
        }
        proof {
            if i + 1 < prev.len() {
                assert(prev@[i as int].right + 1 < prev@[i + 1].left);
            }
        }
        i = i + 1;
    }
    proof {
        assert forall|k: u64| #[trigger] builder@.contains_key(k) implies exists|m: int|
            0 <= m < cur.len() && k == plate_key(#[trigger] cur@[m]) && row_has_spec(prev@, cur@[m]) by {
            let i0 = choose|i0: int| 0 <= i0 < prev.len() && k == plate_key(#[trigger] prev@[i0]);
            let m = choose|m: int| 0 <= m < cur.len() && cur@[m] == prev@[i0];
            assert(row_has_spec(prev@, cur@[m]));
        }
        assert forall|m: int|
            0 <= m < cur.len() && row_has_spec(prev@, #[trigger] cur@[m]) implies builder@.contains_key(
                plate_key(cur@[m]),
            ) && open_acc(occ, builder@[plate_key(cur@[m])], cur@[m], y - 1) by {
            let i0 = choose|i0: int| 0 <= i0 < prev.len() && prev@[i0] == cur@[m];
            assert(row_has_spec(cur@, prev@[i0]));
            assert(builder@.contains_key(plate_key(prev@[i0])));
        }
        assert forall|q: Rect| #[trigger] q.is_wall_of(occ) && q.top < y implies out@.contains(q) by {
            if q.top == y - 1 {
                let pq = Plate { left: q.left, right: q.right };
                assert(is_plate(occ, q.top as int, q.left as int, q.right as int));
                lemma_row_has(occ, y - 1, prev@, pq);
                lemma_row_has(occ, y, cur@, pq);
                let m = choose|m: int| 0 <= m < prev.len() && prev@[m] == pq;
                let v = b0[plate_key(prev@[m])];
                assert(out@.contains(v));
                lemma_bottom_unique(occ, q.left as int, q.right as int, q.bottom as int, v.bottom as int, y - 1);
                assert(v == q);
            }
        }
    }
}

/// The extending step for row `y`: each plate of `cur` grows its open
/// rectangle by one row, or opens a new one-row rectangle.
fn extend_open(
    cur: &Vec<Plate>,
    builder: &mut HashMap<u64, Rect>,
    y: i32,
    Ghost(occ): Ghost<Set<(int, int)>>,
    Ghost(prev): Ghost<Seq<Plate>>,
    Ghost(width): Ghost<int>,
    Ghost(height): Ghost<int>,
)
    requires
        bounded(occ, width, height),
        0 <= y,
        row_is_plates(occ, y - 1, prev),
        row_is_plates(occ, y as int, cur@),
        builder_kept(occ, old(builder)@, prev, cur@, y - 1),
    ensures
        builder_tracks(occ, final(builder)@, cur@, y as int),
{
    let ghost b1 = builder@;
    assert forall|m: int| 0 <= m < cur.len() implies 0 <= (#[trigger] cur@[m]).left && cur@[m].left
        <= cur@[m].right by {
        assert(cur@[m].is_plate_of(occ, y as int));
        lemma_plate_in_grid(occ, width, height, y as int, cur@[m].left as int, cur@[m].right as int);
    }
    let mut i: usize = 0;
    while i < cur.len()
        invariant
            bounded(occ, width, height),
            0 <= y,
            row_is_plates(occ, y - 1, prev),
            row_is_plates(occ, y as int, cur@),
            builder_kept(occ, b1, prev, cur@, y - 1),
            forall|m: int| 0 <= m < cur.len() ==> 0 <= (#[trigger] cur@[m]).left && cur@[m].left
                <= cur@[m].right,
            0 <= i <= cur.len(),
            forall|k: u64| #[trigger]
                builder@.contains_key(k) ==> exists|m: int|
                    0 <= m < cur.len() && k == plate_key(#[trigger] cur@[m]) && (m < i || row_has_spec(prev, cur@[m])),
            forall|m: int|
                0 <= m < i ==> builder@.contains_key(plate_key(#[trigger] cur@[m])) && open_acc(
                    occ,
                    builder@[plate_key(cur@[m])],
                    cur@[m],
                    y as int,
                ),
            forall|m: int|
                i <= m < cur.len() && row_has_spec(prev, #[trigger] cur@[m]) ==> builder@.contains_key(
                    plate_key(cur@[m]),
                ) && builder@[plate_key(cur@[m])] == b1[plate_key(cur@[m])],
        decreases cur.len() - i,
    {
        let p = cur[i];
        let k = pair_key(p.left, p.right);
        let ghost old_b = builder@;
        proof {
            assert(k == plate_key(cur@[i as int]));
            assert forall|m: int| 0 <= m < cur.len() && m != i implies plate_key(#[trigger] cur@[m]) != k by {
                if plate_key(cur@[m]) == k {
                    lemma_plate_key_injective(cur@[m], p);
                    if m < i {
                        assert(cur@[m].right + 1 < cur@[i as int].left);
                    } else {
                        assert(cur@[i as int].right + 1 < cur@[m].left);
                    }
                }
            }
            lemma_row_has(occ, y as int, cur@, p);
        }
        let acc = match builder.get(&k) {
            Some(r) => {
                proof {
                    let m = choose|m: int|
                        0 <= m < cur.len() && k == plate_key(#[trigger] cur@[m]) && (m < i || row_has_spec(prev, cur@[m]));
                    assert(m == i);
                    assert(open_acc(occ, *r, p, y - 1));
                    assert forall|z: int| r.bottom <= z <= y implies #[trigger] is_plate(occ, z, p.left as int, p.right as int) by {
                        if z < y {
                            assert(stack_from(occ, p.left as int, p.right as int, r.bottom as int, y - 1));
                        }
                    }
                }
                Rect { left: r.left, right: r.right, bottom: r.bottom, top: r.top + 1 }
            },
            None => {
                proof {
                    assert(!row_has_spec(prev, p));
                    lemma_row_has(occ, y - 1, prev, p);
                }
                Rect { left: p.left, right: p.right, bottom: y, top: y }
            },
        };
        builder.insert(k, acc);
        proof {
            assert(open_acc(occ, acc, p, y as int));
            assert forall|k2: u64| #[trigger] builder@.contains_key(k2) implies exists|m: int|
                0 <= m < cur.len() && k2 == plate_key(#[trigger] cur@[m]) && (m < i + 1 || row_has_spec(prev, cur@[m])) by {
                if k2 == k {
                    assert(k2 == plate_key(cur@[i as int]));
                } else {
                    assert(old_b.contains_key(k2));
                }
            }
        }
        i = i + 1;
    }
}

/// The plates of row `y - 1`; none above the first row.
pub open spec fn prev_of(stack: Seq<Vec<Plate>>, y: int) -> Seq<Plate> {
    if y == 0 {
        Seq::empty()
    } else {
        stack[y - 1]@
    }
}

/// Fuses the rows of plates `stack` (the last row empty) into rectangles.
pub fn fuse_rows(
    stack: &Vec<Vec<Plate>>,
    Ghost(occ): Ghost<Set<(int, int)>>,
    Ghost(width): Ghost<int>,
) -> (out: Vec<Rect>)
    requires
        1 <= stack.len() <= i32::MAX,
        bounded(occ, width, stack.len() - 1),
        forall|y: int| 0 <= y < stack.len() ==> row_is_plates(occ, y, #[trigger] stack@[y]@),
    ensures
        emitted_below(occ, out@, stack.len() - 1),
{
    let ghost height = stack.len() - 1;
    let empty: Vec<Plate> = Vec::new();
    let mut builder: HashMap<u64, Rect> = HashMap::new();
    let mut out: Vec<Rect> = Vec::new();
    let mut y: usize = 0;
    assert forall|l: int, r: int| #[trigger] is_plate(occ, -1, l, r) implies false by {
        lemma_plate_in_grid(occ, width, height, -1, l, r);
    }
    assert forall|q: Rect| #[trigger] q.is_wall_of(occ) implies q.top >= 0 by {
        assert(is_plate(occ, q.top as int, q.left as int, q.right as int));
        lemma_plate_in_grid(occ, width, height, q.top as int, q.left as int, q.right as int);
    }
    while y < stack.len()
        invariant
            1 <= stack.len() <= i32::MAX,
            height == stack.len() - 1,
            empty@.len() == 0,
            bounded(occ, width, height),
            forall|z: int| 0 <= z < stack.len() ==> row_is_plates(occ, z, #[trigger] stack@[z]@),
            0 <= y <= stack.len(),
            row_is_plates(occ, y - 1, prev_of(stack@, y as int)),
            builder_tracks(occ, builder@, prev_of(stack@, y as int), y - 1),
            emitted_below(occ, out@, y - 1),
        decreases stack.len() - y,
    {
        let prev: &Vec<Plate> = if y == 0 {
            &empty
        } else {
            &stack[y - 1]
        };
        let cur: &Vec<Plate> = &stack[y];
        assert(prev@ =~= prev_of(stack@, y as int));
        close_finished(prev, cur, &mut builder, &mut out, Ghost(occ), Ghost(y as int), Ghost(width), Ghost(height));
        extend_open(cur, &mut builder, y as i32, Ghost(occ), Ghost(prev@), Ghost(width), Ghost(height));
        y = y + 1;
    }
    out
}

} // verus!
