use quriust::amplitude::Amplitude;
use quriust::registers::QuantumRegister;

fn amp(re: i64, im: i64) -> Amplitude {
    Amplitude { re, im }
}

/// The squared magnitudes of the amplitudes, as exact Born weights over
/// `2^scale`, and the same sum as a floating-point probability.
fn born_weights(qr: &QuantumRegister) -> (u128, u128) {
    let total: u128 = qr
        .state()
        .iter()
        .map(|a| (a.re as i128 * a.re as i128 + a.im as i128 * a.im as i128) as u128)
        .sum();
    (total, 1u128 << qr.scale())
}

#[test]
fn norm_preserved_by_gate_sequences() {
    // The sum of squared amplitude magnitudes stays exactly one (the exact
    // analogue of the 1e-9 floating-point tolerance) through an arbitrary
    // gate sequence.
    let mut qr = QuantumRegister::init(3);
    let gates: [usize; 10] = [1, 2, 3, 1, 1, 2, 3, 3, 2, 1];
    for (k, &q) in gates.iter().enumerate() {
        match k % 4 {
            0 => qr.h(q).unwrap(),
            1 => qr.x(q).unwrap(),
            2 => qr.y(q).unwrap(),
            _ => qr.z(q).unwrap(),
        }
        qr.cnot(q, if q == 3 { 1 } else { q + 1 }).unwrap();
        let (total, unit) = born_weights(&qr);
        assert_eq!(total, unit);
        // And as floating point, within the stated tolerance.
        let norm = total as f64 / unit as f64;
        assert!((norm - 1.0).abs() < 1e-9);
    }
}

#[test]
fn basis_state_measurement_is_deterministic() {
    // new(2), x(2), measure always yields the bits [0, 1].
    for _ in 0..50 {
        let mut qr = QuantumRegister::init(2);
        qr.x(2).unwrap();
        let cr = qr.measure().unwrap();
        assert_eq!(cr.bits(), vec![0, 1]);
    }
}

#[test]
fn hadamard_superposition() {
    // new(1), h(1) yields amplitudes [1/sqrt(2), 1/sqrt(2)].
    let mut qr = QuantumRegister::init(1);
    qr.h(1).unwrap();
    assert_eq!(qr.state(), vec![amp(1, 0), amp(1, 0)]);
    assert_eq!(qr.scale(), 1);
    // The same check against floating point, within tolerance.
    let denom = (2.0f64).sqrt().powi(qr.scale() as i32);
    let q = 1.0 / (2.0f64).sqrt();
    for a in qr.state() {
        assert!((a.re as f64 / denom - q).abs() < 1e-9);
        assert!((a.im as f64 / denom).abs() < 1e-9);
    }
}

#[test]
fn bell_state_amplitudes() {
    // new(2), h(1), cnot(1, 2) yields [1/sqrt(2), 0, 0, 1/sqrt(2)].
    let mut qr = QuantumRegister::init(2);
    qr.h(1).unwrap();
    qr.cnot(1, 2).unwrap();
    assert_eq!(qr.state(), vec![amp(1, 0), amp(0, 0), amp(0, 0), amp(1, 0)]);
    assert_eq!(qr.scale(), 1);
}

#[test]
fn bell_state_qubits_agree() {
    // Measuring many independent copies of the Bell state always shows the
    // two qubits in agreement.
    for _ in 0..200 {
        let mut qr = QuantumRegister::init(2);
        qr.h(1).unwrap();
        qr.cnot(1, 2).unwrap();
        let bits = qr.measure().unwrap().bits();
        assert_eq!(bits[0], bits[1]);
    }
}

#[test]
fn cnot_truth_table() {
    // For each of the four basis inputs of a two-qubit register, cnot(1, 2)
    // flips qubit 2 exactly when qubit 1 is one, and leaves qubit 1 alone.
    for input in 0..4usize {
        let mut qr = QuantumRegister::init(2);
        if input & 2 != 0 {
            qr.x(1).unwrap();
        }
        if input & 1 != 0 {
            qr.x(2).unwrap();
        }
        qr.cnot(1, 2).unwrap();
        let expected_index = if input & 2 != 0 { input ^ 1 } else { input };
        let mut expected = vec![amp(0, 0); 4];
        expected[expected_index] = amp(1, 0);
        assert_eq!(qr.state(), expected);
        let bits = qr.measure().unwrap().bits();
        assert_eq!(bits[0], (input >> 1) & 1);
        assert_eq!(bits[1], ((input >> 1) ^ input) & 1);
    }
}

#[test]
fn measurement_frequencies_converge() {
    // Repeated sampling of measure() on a Hadamard-prepared qubit converges
    // to a 50/50 split: 10,000 trials stay within ten standard deviations.
    let trials = 10_000usize;
    let mut ones = 0usize;
    for _ in 0..trials {
        let mut qr = QuantumRegister::init(1);
        qr.h(1).unwrap();
        if qr.measure().unwrap().bits()[0] == 1 {
            ones += 1;
        }
    }
    assert!(ones >= 4500, "observed {} ones in {} trials", ones, trials);
    assert!(ones <= 5500, "observed {} ones in {} trials", ones, trials);
}

#[test]
fn partial_measurement_with_explicit_draw() {
    // On the Bell state the one-weight of qubit 1 is 1 out of 2, so the
    // injected draw decides the outcome: 0 selects one, 1 selects zero.
    for t in 0..2u64 {
        let mut qr = QuantumRegister::init(2);
        qr.h(1).unwrap();
        qr.cnot(1, 2).unwrap();
        let outcome = qr.measure_qubit_with_draw(1, t).unwrap();
        assert_eq!(outcome, t == 0);
        let mut expected = vec![amp(0, 0); 4];
        expected[if outcome { 3 } else { 0 }] = amp(1, 0);
        assert_eq!(qr.state(), expected);
        assert_eq!(qr.scale(), 0);
    }
}

#[test]
fn partial_measurement_keeps_superposition() {
    // Measuring one qubit of h(1)+h(2) leaves the other in superposition:
    // the survivors are renormalized, not collapsed.
    let mut qr = QuantumRegister::init(2);
    qr.h(1).unwrap();
    qr.h(2).unwrap();
    assert_eq!(qr.scale(), 2);
    let outcome = qr.measure_qubit(1).unwrap();
    // Whatever the outcome, qubit 2 is still an equal superposition.
    let state = qr.state();
    assert_eq!(qr.scale(), 1);
    if outcome {
        assert_eq!(state, vec![amp(0, 0), amp(0, 0), amp(1, 0), amp(1, 0)]);
    } else {
        assert_eq!(state, vec![amp(1, 0), amp(1, 0), amp(0, 0), amp(0, 0)]);
    }
    // And the register is still usable: the full measurement agrees with
    // the earlier single-qubit outcome on qubit 1.
    let bits = qr.measure().unwrap().bits();
    assert_eq!(bits[0] == 1, outcome);
}
