//! The matrix of minimum-image distances of particles in a periodic unit box,
//! computed in single precision and verified with Verus.
//!
//! Single-precision numbers are carried as their 32-bit patterns, and the
//! arithmetic on them is integer code that is proved to round as the format
//! prescribes.
//!
//! - `binary32` reads the format off a pattern, and `rounding` defines rounding
//!   to nearest; `pack` rounds exact results held in machine integers.
//! - `ops` defines and computes the operations, and `ops_laws` states what
//!   holds of them.
//! - `min_image` defines and computes the distance of a pair of particles, and
//!   `distance_laws` states what holds of it.
//! - `pairwise` is the engine, and `laws` states what holds of every matrix it
//!   returns.
pub mod arith;
pub mod binary32;
pub mod distance_laws;
pub mod laws;
pub mod min_image;
pub mod ops;
pub mod ops_laws;
pub mod pack;
pub mod pairwise;
pub mod rounding;
