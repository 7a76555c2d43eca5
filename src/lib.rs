//! Turns the solid cells of a tile grid into a small set of axis-aligned
//! rectangles: maximal horizontal runs ("plates") are found row by row, and
//! plates of identical shape in consecutive rows are fused vertically. Each
//! rectangle then becomes one static collision box.
pub mod fuse;
pub mod grid;
pub mod laws;
pub mod merge;
pub mod plates;
pub mod regions;

pub use grid::{GridCoord, MergeError, Plate, Rect};
pub use merge::merge;
pub use regions::{merge_regions, tiles_in_region, ColliderBox, Level, RegionWalls, WallTile};
