//! A two-dimensional k-d tree over integer grid points, answering
//! nearest-neighbour queries by branch-and-bound search, and the squared
//! distance field of a pixel grid that a cellular texture is drawn from.

pub mod point;
pub mod split;
pub mod kdtree;
pub mod field;
pub mod dims;
