//! A k-d tree spatial index over points with integer coordinates.
//!
//! The tree is built once from a finite collection of points of one fixed
//! dimensionality and is immutable afterwards.  It answers nearest-neighbour
//! queries (single nearest, nearest within a range, k nearest, k nearest
//! within a range) and can enumerate its points in order.
//!
//! Coordinates are bounded signed integers, so every comparison is total and
//! every squared Euclidean distance is computed exactly, with no overflow.

pub mod domain;
pub mod spatial_trees;
pub mod vector;
