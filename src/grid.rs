//! Cells, plates and rectangles, and the mathematical model they are judged by.
use vstd::prelude::*;

verus! {

/// One cell of a region's tile grid.
#[derive(Clone, Copy, Debug, PartialEq, Eq, Hash)]
pub struct GridCoord {
    pub x: i32,
    pub y: i32,
}

/// A maximal horizontal run of solid cells within one row (inclusive bounds).
#[derive(Clone, Copy, Debug, PartialEq, Eq, Hash)]
pub struct Plate {
    pub left: i32,
    pub right: i32,
}

/// An axis-aligned rectangle of cells, with inclusive bounds.
#[derive(Clone, Copy, Debug, PartialEq, Eq, Hash)]
pub struct Rect {
    pub left: i32,
    pub right: i32,
    pub bottom: i32,
    pub top: i32,
}

/// Why a merge was refused.
#[derive(Clone, Copy, Debug, PartialEq, Eq)]
pub enum MergeError {
    /// A solid cell lies outside `[0, width) x [0, height)`.
    InvalidCoordinate { x: i32, y: i32 },
}

/// The set of cells that a list of coordinates names (duplicates collapse).
pub open spec fn cells_of(s: Seq<GridCoord>) -> Set<(int, int)> {
    Set::new(|c: (int, int)| exists|i: int| 0 <= i < s.len() && #[trigger] s[i].x == c.0 && s[i].y == c.1)
}

pub open spec fn in_grid(width: int, height: int, x: int, y: int) -> bool {
    0 <= x < width && 0 <= y < height
}

/// Every coordinate of the list lies inside the grid.
pub open spec fn all_in_grid(width: int, height: int, s: Seq<GridCoord>) -> bool {
    forall|i: int| 0 <= i < s.len() ==> in_grid(width, height, #[trigger] s[i].x as int, s[i].y as int)
}

/// Every cell of the set lies inside the grid.
pub open spec fn bounded(occ: Set<(int, int)>, width: int, height: int) -> bool {
    forall|c: (int, int)| #[trigger] occ.contains(c) ==> in_grid(width, height, c.0, c.1)
}

/// `[l, r]` is a maximal run of solid cells in row `y`.
pub open spec fn is_plate(occ: Set<(int, int)>, y: int, l: int, r: int) -> bool {
    &&& l <= r
    &&& forall|x: int| l <= x <= r ==> #[trigger] occ.contains((x, y))
    &&& !occ.contains((l - 1, y))
    &&& !occ.contains((r + 1, y))
}

/// Rows `b..=t` all hold the plate `[l, r]`, and row `b - 1` does not.
pub open spec fn stack_from(occ: Set<(int, int)>, l: int, r: int, b: int, t: int) -> bool {
    &&& b <= t
    &&& forall|y: int| b <= y <= t ==> #[trigger] is_plate(occ, y, l, r)
    &&& !is_plate(occ, b - 1, l, r)
}

impl Plate {
    pub open spec fn is_plate_of(self, occ: Set<(int, int)>, y: int) -> bool {
        is_plate(occ, y, self.left as int, self.right as int)
    }
}

impl Rect {
    /// The cell `(x, y)` lies inside the rectangle.
    pub open spec fn has_cell(self, x: int, y: int) -> bool {
        self.left <= x <= self.right && self.bottom <= y <= self.top
    }

    /// A maximal vertical stack of one plate shape: the rectangles a merge yields.
    pub open spec fn is_wall_of(self, occ: Set<(int, int)>) -> bool {
        &&& stack_from(occ, self.left as int, self.right as int, self.bottom as int, self.top as int)
        &&& !is_plate(occ, self.top + 1, self.left as int, self.right as int)
    }

    /// The output order: by top row, then by left column.
    pub open spec fn precedes(self, other: Rect) -> bool {
        self.top < other.top || (self.top == other.top && self.left < other.left)
    }
}

/// `rs` lists every wall rectangle of `occ`, nothing else, in output order.
pub open spec fn is_merge_of(occ: Set<(int, int)>, rs: Seq<Rect>) -> bool {
    &&& forall|i: int| 0 <= i < rs.len() ==> (#[trigger] rs[i]).is_wall_of(occ)
    &&& forall|q: Rect| #[trigger] q.is_wall_of(occ) ==> rs.contains(q)
    &&& forall|i: int, j: int| 0 <= i < j < rs.len() ==> (#[trigger] rs[i]).precedes(#[trigger] rs[j])
}

/// The rectangles together cover exactly the cells of `occ`.
pub open spec fn covers_exactly(occ: Set<(int, int)>, rs: Seq<Rect>) -> bool {
    forall|x: int, y: int|
        #[trigger] occ.contains((x, y)) <==> exists|i: int| 0 <= i < rs.len() && (#[trigger] rs[i]).has_cell(x, y)
}

/// No cell lies in two of the rectangles.
pub open spec fn pairwise_disjoint(rs: Seq<Rect>) -> bool {
    forall|i: int, j: int, x: int, y: int|
        #![trigger rs[i].has_cell(x, y), rs[j].has_cell(x, y)]
        0 <= i < rs.len() && 0 <= j < rs.len() && i != j && rs[i].has_cell(x, y)
            ==> !rs[j].has_cell(x, y)
}

} // verus!
