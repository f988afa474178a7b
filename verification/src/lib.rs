//! A library for building R1CS (rank-1 constraint system) circuits over the
//! scalar field of the BN254 curve.
//!
//! User code allocates variables, combines them with field arithmetic and
//! marks some of them as public inputs; the library records the arithmetic as
//! a sparse constraint graph, prunes definitions that no input depends on,
//! and compiles the graph into a canonical R1CS instance together with a
//! witness vector whose public inputs come first.

pub mod fe;
pub mod sparse;
pub mod ar;
pub mod forms;
pub mod var;
pub mod r1cs;
pub mod cs;
pub mod laws;

pub use cs::ConstraintSynthesizer;
pub use cs::ConstraintSystem;
pub use fe::Fe;
pub use r1cs::R1CS;
pub use var::V;
