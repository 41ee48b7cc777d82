//! Reconstructs the dependency relationships between installed distributions
//! from the header lines of their metadata, and renders them as an indented
//! forest rooted at the distributions that nothing else requires.

pub mod normalize;
pub mod scan;
pub mod parser;
pub mod error;
pub mod dag;
pub mod utils;
pub mod graph;
pub mod render;
