use vstd::prelude::*;

pub mod colorset;
pub mod group;
pub mod pixel;
pub mod tile;
pub mod tiling;

pub use group::{create_candidate_table, create_groups, Candidacy, Candidate, Group};
pub use pixel::PixelColor;
pub use tile::Tile;
pub use tiling::{create_tiles, get_tile_dimensions, run, InputError};
