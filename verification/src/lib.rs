//! A batched Merkle-tree vector commitment (an MMCS) paired with the FRI
//! low-degree-test protocol built on top of it.
//!
//! The library commits to batches of evaluation matrices whose heights are
//! powers of two but may differ, authenticates one row of every matrix with a
//! single proof, and runs the FRI commit phase (iterative even/odd folding with
//! batched re-commitment), query phase, and verifier replay over those
//! commitments.

pub mod bits;
pub mod code;
pub mod field;
pub mod fri;
pub mod hash;
pub mod matrix;
pub mod merkle;
pub mod transcript;
