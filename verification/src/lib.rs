//! Tools for optimal piecewise segmentation of time-indexed data by
//! dynamic programming over caller-supplied segment scores.

pub mod dp_tools;
