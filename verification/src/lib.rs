//! A spaced list: a sparse, hierarchical index of nodes that are told apart
//! only by their position on a numeric axis.

pub mod deep;
pub mod insert;
pub mod laws;
pub mod links;
pub mod list;
pub mod model;
pub mod packing;
pub mod render;
pub mod shallow;
pub mod spacing;

pub use links::{link_index, necessary_link_length_capacity_for_size, LinkIndicesAbove};
pub use list::SpacedList;
pub use model::ListView;
pub use render::id_letter;
pub use shallow::TraversalResult;
pub use spacing::Spacing;
