//! A classical simulator of a small quantum computer.
//!
//! A register of qubits is represented by a vector of complex probability
//! amplitudes, one per computational basis state. Because the supported gates
//! (Pauli-X/Y/Z, Hadamard, CNOT) only ever scale amplitudes by Gaussian
//! integers and powers of `1/sqrt(2)`, every reachable amplitude is stored
//! exactly: a pair of integer numerators over a register-wide power of
//! `sqrt(2)`. All state evolution and Born-rule sampling is therefore exact
//! integer arithmetic, and unitarity (norm preservation) is a theorem rather
//! than a floating-point approximation.

use vstd::prelude::*;

pub mod algorithms;
pub mod amplitude;
pub mod registers;
pub mod state;

verus! {

} // verus!
