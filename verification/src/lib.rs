//! Web-Mercator tile coverage of planar shapes, in exact integer arithmetic.
//!
//! Positions are fixed-point world coordinates: the whole map is the square
//! `[0, WORLD) x [0, WORLD)`, with x growing eastward and y growing southward.
//! At zoom `z` each axis is cut into `2^z` tiles.
//!
//! - `world`: world coordinates, the tile that holds a position, the square
//!   that a tile covers.
//! - `tile`: parent, children and siblings of a tile.
//! - `walk`: the walk over the grid along one segment, and what holds of it.
//! - `line`: the tiles along a path, and the ring sample of a closed path.
//! - `polygon`: the tiles of an area.
//! - `order`: sorting and the removal of repeats.
//! - `cover`: the tiles of any shape.
//! - `geometry`: the shapes.

pub mod cover;
pub mod geometry;
pub mod line;
pub mod order;
pub mod polygon;
pub mod tile;
pub mod walk;
pub mod world;

pub use cover::{can_cover, tiles};
pub use geometry::{Coordinate, Error, Geometry, LineString, Polygon};
pub use line::line_cover;
pub use polygon::{poly_cover, poly_cover_single};
pub use tile::{get_children, get_parent, get_siblings};
pub use world::{
    fit_row, point_to_tile, point_to_tile_fraction, tile_to_bbox, tile_to_lat, tile_to_lon,
    MAX_ZOOM, WORLD, WORLD_BITS,
};
