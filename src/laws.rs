//! What holds of every merge result: exact coverage, disjointness, and
//! that the result is unique.
use vstd::prelude::*;
use crate::grid::{
    bounded, cells_of, covers_exactly, in_grid, is_merge_of, is_plate, pairwise_disjoint,
    stack_from, GridCoord, MergeError, Rect,
};
use crate::merge::{first_outside, merge_outcome};

verus! {

/// The first column of the run of solid cells through `(x, y)`.
pub open spec fn run_left(occ: Set<(int, int)>, x: int, y: int) -> int
    decreases x,
{
    if x > 0 && occ.contains((x - 1, y)) {
        run_left(occ, x - 1, y)
    } else {
        x
    }
}

/// The last column of the run of solid cells through `(x, y)`.
pub open spec fn run_right(occ: Set<(int, int)>, x: int, y: int, width: int) -> int
    decreases width - x,
{
    if x + 1 < width && occ.contains((x + 1, y)) {
        run_right(occ, x + 1, y, width)
    } else {
        x
    }
}

/// The lowest row of the stack of plate `[l, r]` through row `y`.
pub open spec fn stack_bottom(occ: Set<(int, int)>, l: int, r: int, y: int) -> int
    decreases y,
{
    if y > 0 && is_plate(occ, y - 1, l, r) {
        stack_bottom(occ, l, r, y - 1)
    } else {
        y
    }
}

/// The highest row of the stack of plate `[l, r]` through row `y`.
pub open spec fn stack_top(occ: Set<(int, int)>, l: int, r: int, y: int, height: int) -> int
    decreases height - y,
{
    if y + 1 < height && is_plate(occ, y + 1, l, r) {
        stack_top(occ, l, r, y + 1, height)
    } else {
        y
    }
}

proof fn lemma_run_left(occ: Set<(int, int)>, width: int, height: int, x: int, y: int)
    requires
        bounded(occ, width, height),
        occ.contains((x, y)),
    ensures
        0 <= run_left(occ, x, y) <= x,
        !occ.contains((run_left(occ, x, y) - 1, y)),
        forall|z: int| run_left(occ, x, y) <= z <= x ==> #[trigger] occ.contains((z, y)),
    decreases x,
{
    if x > 0 && occ.contains((x - 1, y)) {
        lemma_run_left(occ, width, height, x - 1, y);
    } else {
        assert(!occ.contains((-1, y)));
    }
}

proof fn lemma_run_right(occ: Set<(int, int)>, width: int, height: int, x: int, y: int)
    requires
        bounded(occ, width, height),
        occ.contains((x, y)),
    ensures
        x <= run_right(occ, x, y, width) < width,
        !occ.contains((run_right(occ, x, y, width) + 1, y)),
        forall|z: int| x <= z <= run_right(occ, x, y, width) ==> #[trigger] occ.contains((z, y)),
    decreases width - x,
{
    if x + 1 < width && occ.contains((x + 1, y)) {
        lemma_run_right(occ, width, height, x + 1, y);
    } else {
        assert(!occ.contains((width, y)));
    }
}

proof fn lemma_stack_bottom(occ: Set<(int, int)>, width: int, height: int, l: int, r: int, y: int)
    requires
        bounded(occ, width, height),
        is_plate(occ, y, l, r),
    ensures
        stack_from(occ, l, r, stack_bottom(occ, l, r, y), y),
    decreases y,
{
    assert(occ.contains((l, y)));
    if y > 0 && is_plate(occ, y - 1, l, r) {
        lemma_stack_bottom(occ, width, height, l, r, y - 1);
    } else if y == 0 {
        if is_plate(occ, -1, l, r) {
            assert(occ.contains((l, -1)));
        }
    }
}

proof fn lemma_stack_top(occ: Set<(int, int)>, width: int, height: int, l: int, r: int, y: int)
    requires
        bounded(occ, width, height),
        is_plate(occ, y, l, r),
    ensures
        y <= stack_top(occ, l, r, y, height),
        !is_plate(occ, stack_top(occ, l, r, y, height) + 1, l, r),
        forall|z: int| y <= z <= stack_top(occ, l, r, y, height) ==> #[trigger] is_plate(occ, z, l, r),
    decreases height - y,
{
    assert(occ.contains((l, y)));
    if y + 1 < height && is_plate(occ, y + 1, l, r) {
        lemma_stack_top(occ, width, height, l, r, y + 1);
    } else if is_plate(occ, y + 1, l, r) {
        assert(occ.contains((l, y + 1)));
    }
}

/// Every cell of `occ` lies in a wall rectangle of `occ`.
proof fn lemma_cell_in_wall(occ: Set<(int, int)>, width: i32, height: i32, x: int, y: int) -> (q: Rect)
    requires
        bounded(occ, width as int, height as int),
        occ.contains((x, y)),
    ensures
        q.is_wall_of(occ),
        q.has_cell(x, y),
{
    lemma_run_left(occ, width as int, height as int, x, y);
    lemma_run_right(occ, width as int, height as int, x, y);
    let l = run_left(occ, x, y);
    let r = run_right(occ, x, y, width as int);
    assert(is_plate(occ, y, l, r));
    lemma_stack_bottom(occ, width as int, height as int, l, r, y);
    lemma_stack_top(occ, width as int, height as int, l, r, y);
    let b = stack_bottom(occ, l, r, y);
    let t = stack_top(occ, l, r, y, height as int);
    assert(is_plate(occ, b, l, r));
    assert(occ.contains((l, b)));
    assert(is_plate(occ, t, l, r));
    assert(occ.contains((l, t)));
    let q = Rect { left: l as i32, right: r as i32, bottom: b as i32, top: t as i32 };
    assert forall|z: int| b <= z <= t implies #[trigger] is_plate(occ, z, l, r) by {
        if z <= y {
            assert(stack_from(occ, l, r, b, y));
        }
    }
    q
}

/// Two wall rectangles that share a cell are the same rectangle.
pub proof fn lemma_walls_sharing_cell(occ: Set<(int, int)>, a: Rect, b: Rect, x: int, y: int)
    requires
        a.is_wall_of(occ),
        b.is_wall_of(occ),
        a.has_cell(x, y),
        b.has_cell(x, y),
    ensures
        a == b,
{
    assert(is_plate(occ, y, a.left as int, a.right as int));
    assert(is_plate(occ, y, b.left as int, b.right as int));
    crate::plates::lemma_plates_overlap(occ, y, a.left as int, a.right as int, b.left as int, b.right as int);
    let l = a.left as int;
    let r = a.right as int;
    if a.bottom < b.bottom {
        assert(is_plate(occ, b.bottom - 1, l, r));
    }
    if b.bottom < a.bottom {
        assert(is_plate(occ, a.bottom - 1, l, r));
    }
    if a.top < b.top {
        assert(is_plate(occ, a.top + 1, l, r));
    }
    if b.top < a.top {
        assert(is_plate(occ, b.top + 1, l, r));
    }
}

/// A merge result covers every solid cell, and no other cell, exactly once:
/// the rectangles' union is the occupied set and no two of them overlap.
pub proof fn lemma_merge_covers(occ: Set<(int, int)>, width: i32, height: i32, rs: Seq<Rect>)
    requires
        bounded(occ, width as int, height as int),
        is_merge_of(occ, rs),
    ensures
        covers_exactly(occ, rs),
        pairwise_disjoint(rs),
{
    assert forall|x: int, y: int| #[trigger] occ.contains((x, y)) <==> exists|i: int|
        0 <= i < rs.len() && (#[trigger] rs[i]).has_cell(x, y) by {
        if occ.contains((x, y)) {
            let q = lemma_cell_in_wall(occ, width, height, x, y);
            assert(rs.contains(q));
            let i = choose|i: int| 0 <= i < rs.len() && rs[i] == q;
            assert(rs[i].has_cell(x, y));
        }
        if exists|i: int| 0 <= i < rs.len() && (#[trigger] rs[i]).has_cell(x, y) {
            let i = choose|i: int| 0 <= i < rs.len() && (#[trigger] rs[i]).has_cell(x, y);
            assert(rs[i].is_wall_of(occ));
            assert(is_plate(occ, y, rs[i].left as int, rs[i].right as int));
        }
    }
    assert forall|i: int, j: int, x: int, y: int|
        #![trigger rs[i].has_cell(x, y), rs[j].has_cell(x, y)]
        0 <= i < rs.len() && 0 <= j < rs.len() && i != j && rs[i].has_cell(x, y)
            implies !rs[j].has_cell(x, y) by {
        if rs[j].has_cell(x, y) {
            lemma_walls_sharing_cell(occ, rs[i], rs[j], x, y);
            if i < j {
                assert(rs[i].precedes(rs[j]));
            } else {
                assert(rs[j].precedes(rs[i]));
            }
        }
    }
}

/// Two sequences ordered strictly by `precedes` that hold the same elements are equal.
pub proof fn lemma_sorted_unique(a: Seq<Rect>, b: Seq<Rect>)
    requires
        forall|i: int, j: int| 0 <= i < j < a.len() ==> (#[trigger] a[i]).precedes(#[trigger] a[j]),
        forall|i: int, j: int| 0 <= i < j < b.len() ==> (#[trigger] b[i]).precedes(#[trigger] b[j]),
        forall|i: int| 0 <= i < a.len() ==> b.contains(#[trigger] a[i]),
        forall|i: int| 0 <= i < b.len() ==> a.contains(#[trigger] b[i]),
    ensures
        a == b,
    decreases a.len(),
{
    if a.len() == 0 {
        if b.len() > 0 {
            assert(a.contains(b[0]));
        }
        assert(a =~= b);
    } else {
        assert(b.contains(a[0]));
        let j = choose|j: int| 0 <= j < b.len() && b[j] == a[0];
        let k = choose|k: int| 0 <= k < a.len() && a[k] == b[0];
        if j > 0 {
            assert(b[0].precedes(b[j]));
            if k > 0 {
                assert(a[0].precedes(a[k]));
            }
        }
        assert(a[0] == b[0]);
        let a1 = a.drop_first();
        let b1 = b.drop_first();
        assert forall|i: int| 0 <= i < a1.len() implies b1.contains(#[trigger] a1[i]) by {
            assert(a[0].precedes(a[i + 1]));
            assert(b.contains(a[i + 1]));
            let m = choose|m: int| 0 <= m < b.len() && b[m] == a[i + 1];
            assert(b1[m - 1] == a1[i]);
        }
        assert forall|i: int| 0 <= i < b1.len() implies a1.contains(#[trigger] b1[i]) by {
            assert(b[0].precedes(b[i + 1]));
            assert(a.contains(b[i + 1]));
            let m = choose|m: int| 0 <= m < a.len() && a[m] == b[i + 1];
            assert(a1[m - 1] == b1[i]);
        }
        assert forall|i: int, j2: int| 0 <= i < j2 < a1.len() implies (#[trigger] a1[i]).precedes(#[trigger] a1[j2]) by {
            assert(a[i + 1].precedes(a[j2 + 1]));
        }
        assert forall|i: int, j2: int| 0 <= i < j2 < b1.len() implies (#[trigger] b1[i]).precedes(#[trigger] b1[j2]) by {
            assert(b[i + 1].precedes(b[j2 + 1]));
        }
        lemma_sorted_unique(a1, b1);
        assert forall|i: int| 0 <= i < a.len() implies a[i] == b[i] by {
            if i > 0 {
                assert(a[i] == a1[i - 1]);
                assert(b[i] == b1[i - 1]);
            }
        }
        assert(a =~= b);
    }
}

/// The rectangles of a merge are determined by the solid cells alone: two
/// sequences that are both a merge of `occ` are identical, order included.
pub proof fn lemma_merge_unique(occ: Set<(int, int)>, a: Seq<Rect>, b: Seq<Rect>)
    requires
        is_merge_of(occ, a),
        is_merge_of(occ, b),
    ensures
        a == b,
{
    assert forall|i: int| 0 <= i < a.len() implies b.contains(#[trigger] a[i]) by {
        assert(a[i].is_wall_of(occ));
    }
    assert forall|i: int| 0 <= i < b.len() implies a.contains(#[trigger] b[i]) by {
        assert(b[i].is_wall_of(occ));
    }
    lemma_sorted_unique(a, b);
}

/// Merging twice with the same input gives the same outcome: the same
/// rectangles in the same order, or the same error.
pub proof fn lemma_merge_deterministic(
    width: i32,
    height: i32,
    occupied: Seq<GridCoord>,
    r1: Result<Vec<Rect>, MergeError>,
    r2: Result<Vec<Rect>, MergeError>,
)
    requires
        merge_outcome(width as int, height as int, occupied, r1),
        merge_outcome(width as int, height as int, occupied, r2),
    ensures
        match (r1, r2) {
            (Ok(a), Ok(b)) => a@ == b@,
            (Err(e1), Err(e2)) => e1 == e2,
            _ => false,
        },
{
    let w = width as int;
    let h = height as int;
    match (r1, r2) {
        (Ok(a), Ok(b)) => {
            lemma_merge_unique(cells_of(occupied), a@, b@);
        },
        (Err(MergeError::InvalidCoordinate { x: x1, y: y1 }), Err(MergeError::InvalidCoordinate { x: x2, y: y2 })) => {
            let i = choose|i: int| first_outside(w, h, occupied, i) && occupied[i].x == x1 && occupied[i].y == y1;
            let j = choose|j: int| first_outside(w, h, occupied, j) && occupied[j].x == x2 && occupied[j].y == y2;
            if i < j {
                assert(occupied.take(j)[i] == occupied[i]);
            }
            if j < i {
                assert(occupied.take(i)[j] == occupied[j]);
            }
        },
        (Ok(a), Err(e)) => {
            let i = choose|i: int| first_outside(w, h, occupied, i);
            assert(in_grid(w, h, occupied[i].x as int, occupied[i].y as int));
        },
        (Err(e), Ok(b)) => {
            let i = choose|i: int| first_outside(w, h, occupied, i);
            assert(in_grid(w, h, occupied[i].x as int, occupied[i].y as int));
        },
    }
}

} // verus!
