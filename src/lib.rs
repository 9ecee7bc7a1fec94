//! Procedural generation of a grid of pipe glyphs by constraint propagation
//! ("wave function collapse"): every cell starts with all sixteen tile
//! variants as candidates, and cells are fixed one at a time, each choice
//! narrowing the candidates of its four neighbours.
pub mod entropy;
pub mod error;
pub mod filter;
pub mod grid;
pub mod progress;
pub mod render;
pub mod random;
pub mod soundness;
pub mod tile;

pub use entropy::{get_min_enthropy, is_collapsed, min_entropy_cells};
pub use error::WfcError;
pub use filter::{boundary_filter, facing_filter};
pub use grid::Grid;
pub use render::render;
pub use tile::{all_variants, Connection, Side};
