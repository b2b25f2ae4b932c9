//! A verified numeric core for clustering multivariate samples onto a 2-D
//! self-organizing map (SOM): column normalization, randomized competitive
//! training, best-matching-unit search, per-cell majority labeling, and a
//! neighbor-distance map for visualization.
//!
//! All real-valued quantities are carried as fixed-point integers scaled by
//! [`fixed::SCALE`], so every arithmetic step is exact and provable.

#![verifier::loop_isolation(false)]

pub mod dataset;
pub mod distmap;
pub mod fixed;
pub mod grid;
pub mod labeling;
pub mod pipeline;
pub mod rng;
pub mod som;
