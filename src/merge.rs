//! The merge of one region: validate the cells, find each row's plates, fuse them.
use std::collections::HashSet;
use vstd::prelude::*;
use crate::fuse::{fuse_rows, lemma_plate_in_grid};
use crate::grid::{
    all_in_grid, bounded, cells_of, covers_exactly, in_grid, is_merge_of, is_plate,
    pairwise_disjoint, GridCoord, MergeError, Plate, Rect,
};
use crate::laws::lemma_merge_covers;
use crate::plates::{key_of, keys_model, lemma_key_injective, pair_key, row_is_plates, row_plates};

verus! {

broadcast use vstd::std_specs::hash::group_hash_axioms;

/// `i` is the first index of `s` whose coordinate lies outside the grid.
pub open spec fn first_outside(width: int, height: int, s: Seq<GridCoord>, i: int) -> bool {
    &&& 0 <= i < s.len()
    &&& !in_grid(width, height, s[i].x as int, s[i].y as int)
    &&& all_in_grid(width, height, s.take(i))
}

/// The outcome of merging the solid cells `occupied` of a `width` x `height` grid.
pub open spec fn merge_outcome(
    width: int,
    height: int,
    occupied: Seq<GridCoord>,
    result: Result<Vec<Rect>, MergeError>,
) -> bool {
    match result {
        Ok(rs) => {
            &&& all_in_grid(width, height, occupied)
            &&& is_merge_of(cells_of(occupied), rs@)
            &&& covers_exactly(cells_of(occupied), rs@)
            &&& pairwise_disjoint(rs@)
        },
        Err(MergeError::InvalidCoordinate { x, y }) => exists|i: int|
            first_outside(width, height, occupied, i) && occupied[i].x == x && occupied[i].y == y,
    }
}

/// Collects the packed keys of `occupied`, refusing the first cell outside the grid.
fn occupancy_keys(width: i32, height: i32, occupied: &Vec<GridCoord>) -> (result: Result<
    HashSet<u64>,
    MergeError,
>)
    requires
        0 <= width,
        0 <= height,
    ensures
        match result {
            Ok(keys) => all_in_grid(width as int, height as int, occupied@) && keys_model(
                keys@,
                cells_of(occupied@),
            ),
            Err(MergeError::InvalidCoordinate { x, y }) => exists|i: int|
                first_outside(width as int, height as int, occupied@, i) && occupied@[i].x == x
                    && occupied@[i].y == y,
        },
{
    let mut keys: HashSet<u64> = HashSet::new();
    let mut i: usize = 0;
    while i < occupied.len()
        invariant
            0 <= i <= occupied.len(),
            all_in_grid(width as int, height as int, occupied@.take(i as int)),
            forall|k: u64|
                #[trigger] keys@.contains(k) <==> exists|j: int|
                    0 <= j < i && k as int == key_of(
                        (#[trigger] occupied@[j]).y as int,
                        occupied@[j].x as int,
                    ),
        decreases occupied.len() - i,
    {
        let c = occupied[i];
        if !(0 <= c.x && c.x < width && 0 <= c.y && c.y < height) {
            assert(first_outside(width as int, height as int, occupied@, i as int));
            return Err(MergeError::InvalidCoordinate { x: c.x, y: c.y });
        }
        let ghost old_keys = keys@;
        let k = pair_key(c.y, c.x);
        keys.insert(k);
        proof {
            assert(occupied@.take(i + 1) == occupied@.take(i as int).push(c));
            assert forall|k2: u64| #[trigger] keys@.contains(k2) <==> exists|j: int|
                0 <= j < i + 1 && k2 as int == key_of((#[trigger] occupied@[j]).y as int, occupied@[j].x as int) by {
                if k2 == k {
                    assert(occupied@[i as int] == c);
                }
            }
        }
        i = i + 1;
    }
    proof {
        assert(occupied@.take(i as int) == occupied@);
        let occ = cells_of(occupied@);
        assert forall|x: int, y: int|
            0 <= x <= i32::MAX && 0 <= y <= i32::MAX implies (keys@.contains(key_of(y, x) as u64)
            <==> #[trigger] occ.contains((x, y))) by {
            assert(0 <= key_of(y, x) < 0x8000_0000_0000_0000) by (nonlinear_arith)
                requires
                    0 <= x <= 0x7fff_ffff,
                    0 <= y <= 0x7fff_ffff,
            ;
            if keys@.contains(key_of(y, x) as u64) {
                let j = choose|j: int|
                    0 <= j < i && (key_of(y, x) as u64) as int == key_of(
                        (#[trigger] occupied@[j]).y as int,
                        occupied@[j].x as int,
                    );
                assert(in_grid(width as int, height as int, occupied@[j].x as int, occupied@[j].y as int));
                lemma_key_injective(y, x, occupied@[j].y as int, occupied@[j].x as int);
            }
            if occ.contains((x, y)) {
                let j = choose|j: int|
                    0 <= j < occupied@.len() && #[trigger] occupied@[j].x == x && occupied@[j].y == y;
                assert(keys@.contains(key_of(y, x) as u64));
            }
        }
    }
    Ok(keys)
}

/// Merges the solid cells of one `width` x `height` grid into rectangles:
/// every maximal vertical stack of one plate shape, ordered by top row and
/// then by left column. A cell outside the grid is refused.
pub fn merge(width: i32, height: i32, occupied: &Vec<GridCoord>) -> (result: Result<
    Vec<Rect>,
    MergeError,
>)
    requires
        0 <= width < i32::MAX,
        0 <= height < i32::MAX,
    ensures
        merge_outcome(width as int, height as int, occupied@, result),
        result is Ok <==> all_in_grid(width as int, height as int, occupied@),
{
    let keys = match occupancy_keys(width, height, occupied) {
        Ok(keys) => keys,
        Err(e) => {
            proof {
                let i = choose|i: int| first_outside(width as int, height as int, occupied@, i);
                assert(!in_grid(width as int, height as int, occupied@[i].x as int, occupied@[i].y as int));
            }
            return Err(e);
        },
    };
    let ghost occ = cells_of(occupied@);
    proof {
        assert forall|c: (int, int)| #[trigger] occ.contains(c) implies in_grid(width as int, height as int, c.0, c.1) by {
            let j = choose|j: int| 0 <= j < occupied@.len() && #[trigger] occupied@[j].x == c.0 && occupied@[j].y == c.1;
            assert(in_grid(width as int, height as int, occupied@[j].x as int, occupied@[j].y as int));
        }
    }
    let mut stack: Vec<Vec<Plate>> = Vec::new();
    let mut y: i32 = 0;
    while y < height
        invariant
            0 <= width < i32::MAX,
            0 <= height < i32::MAX,
            keys_model(keys@, occ),
            bounded(occ, width as int, height as int),
            0 <= y <= height,
            stack.len() == y,
            forall|z: int| 0 <= z < y ==> row_is_plates(occ, z, #[trigger] stack@[z]@),
        decreases height - y,
    {
        let row = row_plates(&keys, width, y, Ghost(occ), Ghost(height as int));
        stack.push(row);
        y = y + 1;
    }
    // an empty row past the top closes the rectangles that touch the top edge
    let last: Vec<Plate> = Vec::new();
    stack.push(last);
    proof {
        assert forall|l: int, r: int| #[trigger] is_plate(occ, height as int, l, r) implies false by {
            lemma_plate_in_grid(occ, width as int, height as int, height as int, l, r);
        }
        assert(row_is_plates(occ, height as int, stack@[height as int]@));
    }
    let out = fuse_rows(&stack, Ghost(occ), Ghost(width as int));
    proof {
        assert forall|q: Rect| #[trigger] q.is_wall_of(occ) implies out@.contains(q) by {
            assert(is_plate(occ, q.top as int, q.left as int, q.right as int));
            lemma_plate_in_grid(occ, width as int, height as int, q.top as int, q.left as int, q.right as int);
        }
        lemma_merge_covers(occ, width, height, out@);
    }
    Ok(out)
}

} // verus!
