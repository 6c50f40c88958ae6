//! A vantage-point tree: an exact nearest-neighbour index over any metric space.

pub mod candidates;
pub mod construct;
pub mod laws;
pub mod layout;
pub mod metric;
mod order;
pub mod position;
pub mod vptree;

pub use vptree::VPTree;
