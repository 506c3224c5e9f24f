//! Dynamic time warping of two integer sequences: the cost matrix of pairwise
//! distances, its accumulated-cost matrix, and the backtrace that reads the warping
//! path out of it, each verified against its specification.
pub mod dtw;
pub mod grid;
pub mod path;
