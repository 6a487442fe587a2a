//! Converts an elevation field and a color field into a small set of
//! axis-aligned bricks by merging equal neighbouring cells.
//!
//! - `tile`: tiles, their model, and the partition invariant of a layer.
//! - `grid`: building the initial grid, in one layer or in elevation layers.
//! - `merge`: the 2x2 merge pass and the run-merge pass.
//! - `emit`: stacking each live tile into size-bounded bricks.
//! - `pipeline`: the whole conversion with progress and cancellation.
//! - `map`: sample providers backed by decoded images or a flat field.
//! - `laws`: properties that hold of every grid and every conversion.
pub mod emit;
pub mod grid;
pub mod laws;
pub mod map;
pub mod merge;
pub mod pipeline;
pub mod quad;
pub mod tile;
pub mod util;

pub use emit::{Brick, Collision};
pub use map::{Colormap, ColormapPNG, Heightmap, HeightmapFlat, HeightmapPNG, Pixels};
pub use pipeline::gen_opt_heightmap;
pub use quad::QuadTree;
pub use util::{to_linear_gamma, to_linear_rgb, GenOptions};
