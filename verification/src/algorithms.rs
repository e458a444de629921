//! Textbook quantum algorithms built on the register's public gate and
//! measurement API.
//!
//! The oracle that each algorithm interrogates is a caller-provided black
//! box, modeled as a single-method capability trait rather than a raw
//! function pointer, so that what the algorithm relies on — the oracle
//! keeps the register well-formed and unmeasured and applies only gates —
//! is stated once in the trait's contract.

use vstd::prelude::*;
use crate::registers::{QuantumRegister, Error};

verus! {

/// A caller-provided quantum circuit fragment: some sequence of gate calls
/// on the register, such as the function oracle of the Deutsch and
/// Deutsch-Jozsa algorithms.
pub trait Oracle {
    /// Applies the fragment's gates to the register.
    fn apply(&self, q: &mut QuantumRegister) -> (r: Result<(), Error>)
        requires
            old(q).wf(),
            !old(q).measured,
        ensures
            final(q).wf(),
            final(q).measured == old(q).measured,
            final(q).qubits() == old(q).qubits(),
            final(q).len == old(q).len,
    ;
}

/// Determines whether a one-bit function is constant or balanced with a
/// single oracle query.
///
/// The register holds the query qubit (qubit 1) and the answer qubit
/// (qubit 2), which the caller prepares. Every qubit passes through a
/// Hadamard gate, the oracle is applied once, both qubits pass through a
/// Hadamard gate again, and the query qubit is measured: one means the
/// function is balanced, zero means it is constant.
pub fn deutsch_algorithm<O: Oracle>(q: &mut QuantumRegister, function: &O) -> (r: Result<
    bool,
    Error,
>)
    requires
        old(q).wf(),
        !old(q).measured,
        old(q).qubits() == 2,
    ensures
        final(q).wf(),
        final(q).measured == old(q).measured,
        final(q).qubits() == old(q).qubits(),
{
    let n = q.get_qubit_count();
    proof {
        lemma_small_register(q.qubits(), q.len as nat);
    }
    // Put every qubit into superposition.
    let mut i: usize = 1;
    while i <= n
        invariant
            q.wf(),
            !q.measured,
            !old(q).measured,
            q.qubits() == old(q).qubits(),
            n == q.qubits(),
            n <= 32,
            1 <= i,
        decreases n + 1 - i,
    {
        match q.h(i) {
            Ok(()) => {},
            Err(e) => {
                return Err(e);
            },
        }
        i = i + 1;
    }
    // Apply the function on the quantum state.
    match function.apply(q) {
        Ok(()) => {},
        Err(e) => {
            return Err(e);
        },
    }
    // Interfere the query qubit with itself again.
    match q.h(1) {
        Ok(()) => {},
        Err(e) => {
            return Err(e);
        },
    }
    match q.h(2) {
        Ok(()) => {},
        Err(e) => {
            return Err(e);
        },
    }
    // Measure the query qubit to determine the function's nature.
    q.measure_qubit(1)
}

/// Determines whether an `(n-1)`-bit function is constant or balanced with
/// a single oracle query.
///
/// The register holds the query qubits (1 through `n - 1`) and the answer
/// qubit (qubit `n`), which the caller prepares. Every qubit passes through
/// a Hadamard gate, the oracle is applied once, the query qubits pass
/// through a Hadamard gate again and are measured one by one: the function
/// is constant exactly when every query qubit reads zero.
pub fn deutsch_jozsa_algorithm<O: Oracle>(q: &mut QuantumRegister, function: &O) -> (r: Result<
    bool,
    Error,
>)
    requires
        old(q).wf(),
        !old(q).measured,
        old(q).qubits() >= 2,
    ensures
        final(q).wf(),
        final(q).measured == old(q).measured,
        final(q).qubits() == old(q).qubits(),
{
    let num_qubits = q.get_qubit_count();
    proof {
        lemma_small_register(q.qubits(), q.len as nat);
    }
    // Put every qubit into superposition.
    let mut i: usize = 1;
    while i <= num_qubits
        invariant
            q.wf(),
            !q.measured,
            !old(q).measured,
            q.qubits() == old(q).qubits(),
            num_qubits == q.qubits(),
            2 <= num_qubits <= 32,
            1 <= i,
        decreases num_qubits + 1 - i,
    {
        match q.h(i) {
            Ok(()) => {},
            Err(e) => {
                return Err(e);
            },
        }
        i = i + 1;
    }
    // Apply the function f(x) to the quantum register.
    match function.apply(q) {
        Ok(()) => {},
        Err(e) => {
            return Err(e);
        },
    }
    // Interfere the query qubits with themselves again.
    let mut i2: usize = 1;
    while i2 <= num_qubits - 1
        invariant
            q.wf(),
            !q.measured,
            !old(q).measured,
            q.qubits() == old(q).qubits(),
            num_qubits == q.qubits(),
            2 <= num_qubits <= 32,
            1 <= i2,
        decreases num_qubits - i2,
    {
        match q.h(i2) {
            Ok(()) => {},
            Err(e) => {
                return Err(e);
            },
        }
        i2 = i2 + 1;
    }
    // Measure the query qubits to get the result.
    let mut m: Vec<bool> = Vec::new();
    let mut i3: usize = 1;
    while i3 <= num_qubits - 1
        invariant
            q.wf(),
            !q.measured,
            !old(q).measured,
            q.qubits() == old(q).qubits(),
            num_qubits == q.qubits(),
            2 <= num_qubits <= 32,
            1 <= i3,
        decreases num_qubits - i3,
    {
        let is_one = match q.measure_qubit(i3) {
            Ok(b) => b,
            Err(e) => {
                return Err(e);
            },
        };
        m.push(is_one);
        i3 = i3 + 1;
    }
    let result = has_true_value(m);
    Ok(!result)
}

/// A register whose basis indices fit 32-bit classical values has at most
/// 32 qubits.
proof fn lemma_small_register(n: nat, len: nat)
    requires
        len == vstd::arithmetic::power2::pow2(n),
        len <= 0x1_0000_0000,
    ensures
        n <= 32,
{
    if n > 32 {
        vstd::arithmetic::power2::lemma_pow2_strictly_increases(32, n);
        assert(vstd::arithmetic::power2::pow2(32) == 0x1_0000_0000) by {
            vstd::arithmetic::power2::lemma2_to64();
        }
    }
}

/// Whether any element of the vector is true.
pub fn has_true_value(vec: Vec<bool>) -> (r: bool)
    ensures
        r == exists|i: int| 0 <= i < vec@.len() && vec@[i],
{
    let mut i: usize = 0;
    while i < vec.len()
        invariant
            i <= vec@.len(),
            forall|j: int| 0 <= j < i ==> !vec@[j],
        decreases vec@.len() - i,
    {
        if vec[i] {
            // If a true value is found, return true immediately.
            return true;
        }
        i = i + 1;
    }
    // If no true value is found, return false.
    false
}

} // verus!
