//! Clusters in the memory of a graphics card.

pub mod budget;
pub mod store;
