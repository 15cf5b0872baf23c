//! Proving core of a zero-knowledge argument system.
//!
//! The crate compiles an arithmetic-circuit constraint representation into a
//! Rank-1 Constraint System (R1CS), reduces R1CS satisfaction to a chain of
//! multilinear sumcheck protocols, and discharges the resulting evaluation
//! claims through a Fiat-Shamir transcript.  A grand-product argument over a
//! binary multiplication tree supports offline memory checking for the
//! sparsity argument that commits to the constraint matrices.

pub mod compiler;
pub mod errors;
pub mod field;
pub mod grand_product_argument;
pub mod interner;
pub mod layout;
pub mod matrix_sink;
pub mod memory_check;
pub mod spark;
pub mod sparse_matrix;
pub mod sumcheck;
pub mod tensor;
pub mod transcript;
pub mod whir_r1cs;
