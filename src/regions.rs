//! Merging several regions (levels) at once, each on its own, and the
//! placement of one collision box per rectangle.
use vstd::prelude::*;
use crate::grid::{all_in_grid, cells_of, covers_exactly, GridCoord, MergeError, Rect};
use crate::laws::{lemma_merge_covers, lemma_merge_unique};
use crate::merge::{merge, merge_outcome};

verus! {

/// The grid dimensions of one region.
#[derive(Clone, Copy, Debug, PartialEq, Eq)]
pub struct Level {
    pub region: u64,
    pub width: i32,
    pub height: i32,
}

/// A solid tile, tagged with the region that owns it.
#[derive(Clone, Copy, Debug, PartialEq, Eq)]
pub struct WallTile {
    pub region: u64,
    pub coord: GridCoord,
}

/// The rectangles of one region.
#[derive(Debug, PartialEq, Eq)]
pub struct RegionWalls {
    pub region: u64,
    pub rects: Vec<Rect>,
}

/// A static collision box in world units: its full extents, and twice its
/// centre (so that it stays an integer).
#[derive(Clone, Copy, Debug, PartialEq, Eq)]
pub struct ColliderBox {
    pub size_x: i64,
    pub size_y: i64,
    pub twice_center_x: i64,
    pub twice_center_y: i64,
}

/// The coordinates of the tiles of `region`, in the order of `tiles`.
pub open spec fn tiles_of(tiles: Seq<WallTile>, region: u64) -> Seq<GridCoord>
    decreases tiles.len(),
{
    if tiles.len() == 0 {
        Seq::empty()
    } else {
        let rest = tiles_of(tiles.drop_last(), region);
        if tiles.last().region == region {
            rest.push(tiles.last().coord)
        } else {
            rest
        }
    }
}

/// Every level's dimensions admit a merge.
pub open spec fn levels_ok(levels: Seq<Level>) -> bool {
    forall|i: int|
        0 <= i < levels.len() ==> 0 <= (#[trigger] levels[i]).width < i32::MAX && 0 <= levels[i].height
            < i32::MAX
}

/// The tiles of level `i` all lie inside its grid.
pub open spec fn level_in_grid(levels: Seq<Level>, tiles: Seq<WallTile>, i: int) -> bool {
    all_in_grid(levels[i].width as int, levels[i].height as int, tiles_of(tiles, levels[i].region))
}

/// The outcome of merging every level of `levels` with its own tiles.
pub open spec fn regions_outcome(
    levels: Seq<Level>,
    tiles: Seq<WallTile>,
    result: Result<Vec<RegionWalls>, MergeError>,
) -> bool {
    match result {
        Ok(out) => {
            &&& out.len() == levels.len()
            &&& forall|i: int|
                0 <= i < levels.len() ==> (#[trigger] out@[i]).region == levels[i].region
                    && merge_outcome(
                    levels[i].width as int,
                    levels[i].height as int,
                    tiles_of(tiles, levels[i].region),
                    Ok(out@[i].rects),
                )
        },
        Err(e) => exists|i: int|
            0 <= i < levels.len() && (forall|j: int| 0 <= j < i ==> #[trigger] level_in_grid(levels, tiles, j))
                && merge_outcome(
                levels[i].width as int,
                levels[i].height as int,
                tiles_of(tiles, levels[i].region),
                Err(e),
            ),
    }
}

/// The coordinates of the tiles of `region`, in the order of `tiles`.
pub fn tiles_in_region(tiles: &Vec<WallTile>, region: u64) -> (coords: Vec<GridCoord>)
    ensures
        coords@ == tiles_of(tiles@, region),
{
    let mut coords: Vec<GridCoord> = Vec::new();
    let mut i: usize = 0;
    while i < tiles.len()
        invariant
            0 <= i <= tiles.len(),
            coords@ == tiles_of(tiles@.take(i as int), region),
        decreases tiles.len() - i,
    {
        assert(tiles@.take(i + 1).drop_last() == tiles@.take(i as int));
        if tiles[i].region == region {
            coords.push(tiles[i].coord);
        }
        i = i + 1;
    }
    assert(tiles@.take(i as int) == tiles@);
    coords
}

/// Merges each level with its own tiles, in the order of `levels`. Tiles of
/// a region that no level names are ignored; a tile outside its level's grid
/// is refused.
pub fn merge_regions(levels: &Vec<Level>, tiles: &Vec<WallTile>) -> (result: Result<
    Vec<RegionWalls>,
    MergeError,
>)
    requires
        levels_ok(levels@),
    ensures
        regions_outcome(levels@, tiles@, result),
        result is Ok <==> forall|i: int| 0 <= i < levels.len() ==> #[trigger] level_in_grid(levels@, tiles@, i),
{
    let mut out: Vec<RegionWalls> = Vec::new();
    let mut i: usize = 0;
    while i < levels.len()
        invariant
            levels_ok(levels@),
            0 <= i <= levels.len(),
            out.len() == i,
            forall|j: int|
                0 <= j < i ==> (#[trigger] out@[j]).region == levels@[j].region && merge_outcome(
                    levels@[j].width as int,
                    levels@[j].height as int,
                    tiles_of(tiles@, levels@[j].region),
                    Ok(out@[j].rects),
                ),
            forall|j: int| 0 <= j < i ==> #[trigger] level_in_grid(levels@, tiles@, j),
        decreases levels.len() - i,
    {
        let level = levels[i];
        assert(levels_ok(levels@) && levels@[i as int] == level);
        let coords = tiles_in_region(tiles, level.region);
        let result = merge(level.width, level.height, &coords);
        match result {
            Ok(rects) => {
                out.push(RegionWalls { region: level.region, rects });
                proof {
                    assert(level_in_grid(levels@, tiles@, i as int));
                    assert(out@[i as int].rects == rects);
                }
            },
            Err(e) => {
                proof {
                    assert(!level_in_grid(levels@, tiles@, i as int));
                }
                return Err(e);
            },
        }
        i = i + 1;
    }
    Ok(out)
}

/// Regions do not interact: each region's rectangles cover exactly that
/// region's own cells, whatever the other regions hold, and two regions whose
/// cells coincide get identical rectangles.
pub proof fn lemma_regions_isolated(
    levels: Seq<Level>,
    tiles: Seq<WallTile>,
    out: Vec<RegionWalls>,
    i: int,
    j: int,
)
    requires
        regions_outcome(levels, tiles, Ok(out)),
        0 <= i < levels.len(),
        0 <= j < levels.len(),
    ensures
        covers_exactly(cells_of(tiles_of(tiles, levels[i].region)), out@[i].rects@),
        cells_of(tiles_of(tiles, levels[i].region)) == cells_of(tiles_of(tiles, levels[j].region))
            ==> out@[i].rects@ == out@[j].rects@,
{
    assert(merge_outcome(
        levels[i].width as int,
        levels[i].height as int,
        tiles_of(tiles, levels[i].region),
        Ok(out@[i].rects),
    ));
    assert(merge_outcome(
        levels[j].width as int,
        levels[j].height as int,
        tiles_of(tiles, levels[j].region),
        Ok(out@[j].rects),
    ));
    if cells_of(tiles_of(tiles, levels[i].region)) == cells_of(tiles_of(tiles, levels[j].region)) {
        lemma_merge_unique(cells_of(tiles_of(tiles, levels[i].region)), out@[i].rects@, out@[j].rects@);
    }
}

impl Rect {
    /// The collision box of this rectangle on a grid of `grid_size` world
    /// units per cell: full extents, and twice the centre.
    pub fn collider(&self, grid_size: i32) -> (b: ColliderBox)
        requires
            0 <= self.left <= self.right,
            0 <= self.bottom <= self.top,
            0 <= grid_size,
        ensures
            b.size_x == (self.right - self.left + 1) * grid_size,
            b.size_y == (self.top - self.bottom + 1) * grid_size,
            b.twice_center_x == (self.left + self.right + 1) * grid_size,
            b.twice_center_y == (self.bottom + self.top + 1) * grid_size,
    {
        let g = grid_size as i64;
        let w = (self.right as i64) - (self.left as i64) + 1;
        let h = (self.top as i64) - (self.bottom as i64) + 1;
        let cx = (self.left as i64) + (self.right as i64) + 1;
        let cy = (self.bottom as i64) + (self.top as i64) + 1;
        assert(0 <= w * g <= cx * g < 0x8000_0000_0000_0000) by (nonlinear_arith)
            requires
                1 <= w <= cx,
                cx <= 0xffff_ffff,
                0 <= g <= 0x7fff_ffff,
        ;
        assert(0 <= h * g <= cy * g < 0x8000_0000_0000_0000) by (nonlinear_arith)
            requires
                1 <= h <= cy,
                cy <= 0xffff_ffff,
                0 <= g <= 0x7fff_ffff,
        ;
        ColliderBox { size_x: w * g, size_y: h * g, twice_center_x: cx * g, twice_center_y: cy * g }
    }
}

} // verus!
