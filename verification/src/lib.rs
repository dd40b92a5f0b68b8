//! Pattern mining and compression of sparse matrices.
//!
//! A sparse matrix is covered greedily by affine pieces drawn from a
//! priority list of patterns, repetitions of pieces are folded into nested
//! shapes, and the resulting inventory is laid out as a compact binary file
//! that can be expanded back into coordinates and values.

pub mod absorb;
pub mod cover;
pub mod errors;
pub mod fidelity;
pub mod grid;
pub mod inventory;
pub mod layout;
pub mod ordered;
pub mod patterns;
pub mod roundtrip;
pub mod spaugment;
pub mod spfgen;
pub mod spfread;
pub mod spsearch;
pub mod utils;
pub mod wire;
