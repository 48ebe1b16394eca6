//! Subset-sum optimization: given a list of non-negative integer weights and a
//! capacity `k`, find the largest subset sum that does not exceed `k`.
//!
//! Four solvers are provided: an exact dynamic program, an exact list-based
//! enumeration, a greedy heuristic, and a fully polynomial-time approximation
//! scheme (FPTAS) with a proved relative-error bound. The two list primitives
//! they share (merge-and-filter, trim) are exposed as well.

pub mod laws;
pub mod lists;
pub mod model;
pub mod solvers;
