//! Reduced pipe dreams and Schubert polynomials.
//!
//! Given a permutation of `{0, ..., n-1}`, the library enumerates its
//! reduced pipe dreams by repeated application of the mitosis operator,
//! and assembles the associated Schubert polynomial as a formal sum of
//! monomials, one per dream.

pub mod dream;
pub mod matrix;
pub mod perm;
pub mod poly;
pub mod text;
