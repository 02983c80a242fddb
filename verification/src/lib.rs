//! A small quantum-circuit library: exact complex amplitudes over the ring
//! generated by the integers, `i` and `1/sqrt(2)`, dense matrices of such
//! amplitudes, the standard single-qubit gates, Kronecker products that embed
//! gates into a larger register, combinatorial construction of controlled-NOT
//! operators, enumeration of computational basis states, and a port-wired
//! circuit graph of gate instances.

pub mod amp;
pub mod basis;
pub mod matrix;
pub mod laws;
pub mod qubit;
pub mod circuit;

pub use basis::BasisIter;
pub use basis::basis_n;
pub use basis::cnot_rule;
pub use amp::Amp;
pub use matrix::Matrix;
pub use matrix::identity;
pub use qubit::Qubit;
pub use matrix::{kronecker_product, apply_to_qubit, control_not, not, pauli_y, pauli_z, hadamard};
