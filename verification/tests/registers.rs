use quriust::amplitude::Amplitude;
use quriust::registers::{ClassicalRegister, Error, QuantumRegister};

fn amp(re: i64, im: i64) -> Amplitude {
    Amplitude { re, im }
}

#[test]
fn test_classical_value() {
    let cr = ClassicalRegister::new(vec![0, 1, 0, 1, 0]);

    assert_eq!(10, cr.value());
    assert_eq!(cr, ClassicalRegister::from_value(5, cr.value()));
}

#[test]
fn classical_round_trip() {
    for width in 0..12usize {
        let bound: u32 = 1 << width;
        for value in 0..bound {
            assert_eq!(ClassicalRegister::from_value(width, value).value(), value);
        }
    }
    // A value at or above 2^width is truncated to its low bits.
    assert_eq!(ClassicalRegister::from_value(3, 13).value(), 5);
    assert_eq!(ClassicalRegister::from_value(0, 7).value(), 0);
}

#[test]
fn classical_bits_order() {
    // Big-endian: the first bit is the most significant.
    let cr = ClassicalRegister::from_value(4, 9);
    assert_eq!(cr.bits(), vec![1, 0, 0, 1]);
    assert_eq!(ClassicalRegister::zeros(3).bits(), vec![0, 0, 0]);
    assert_eq!(ClassicalRegister::zeros(3).len(), 3);
}

#[test]
fn test_init() {
    let cr = ClassicalRegister::zeros(8);
    let qr: QuantumRegister = QuantumRegister::new(&cr).unwrap();

    assert_eq!(false, qr.measured);
    assert_eq!(8, qr.len());
}

#[test]
fn length_test() {
    let cr = ClassicalRegister::new(vec![0, 0, 0, 0, 0, 0, 0, 0]);
    let qr: QuantumRegister = QuantumRegister::new(&cr).unwrap();
    let qr_len = qr.get_qubit_count();

    assert_eq!(3, qr_len);
}

#[test]
fn test_measurement() {
    let cr = ClassicalRegister::zeros(2);
    let mut qr: QuantumRegister = QuantumRegister::new(&cr).unwrap();
    let qr2 = qr.measure().unwrap();

    // Two amplitudes make one qubit, so the outcome is one bit wide.
    assert_eq!(ClassicalRegister::zeros(1), qr2);
    assert!(qr.measured);

    // Qubit 1 occupies the most significant bit of the outcome.
    let mut qr: QuantumRegister = QuantumRegister::init(2);
    qr.x(1).unwrap();
    let qr2 = qr.measure().unwrap();

    assert_eq!(ClassicalRegister::new(vec![1, 0]), qr2);

    let mut qr: QuantumRegister = QuantumRegister::init(2);
    qr.x(2).unwrap();
    let qr2 = qr.measure().unwrap();

    assert_eq!(ClassicalRegister::new(vec![0, 1]), qr2);

    let mut qr: QuantumRegister = QuantumRegister::init(3);
    qr.x(2).unwrap();
    qr.x(1).unwrap();
    qr.x(3).unwrap();
    let qr2 = qr.measure().unwrap();

    assert_eq!(ClassicalRegister::new(vec![1, 1, 1]), qr2);
}

#[test]
fn test_measure_single_qubit() {
    let mut qr1: QuantumRegister = QuantumRegister::init(1);
    let mut qr2: QuantumRegister = QuantumRegister::init(5);

    qr1.x(1).unwrap();

    let m1 = qr1.measure_qubit(1).unwrap();
    let m2 = qr2.measure_qubit(5).unwrap();

    assert_eq!(m1, true);
    assert_eq!(m2, false);
}

#[test]
fn pauli_x_test() {
    let cr = ClassicalRegister::new(vec![0, 0, 0, 0, 0, 0, 0, 0]);
    let mut qr: QuantumRegister = QuantumRegister::new(&cr).unwrap();
    qr.x(1).unwrap();
    let qr_state = qr.state();
    let measured_qr = qr.measure().unwrap();

    let z = amp(0, 0);
    let o = amp(1, 0);
    assert_eq!(qr_state, vec![z, z, z, z, o, z, z, z]);
    assert_eq!(measured_qr, ClassicalRegister::new(vec![1, 0, 0]));

    let cr = ClassicalRegister::new(vec![0, 0, 0, 0, 0, 0, 0, 0, 0, 0, 0, 0, 0, 0, 1, 1]);
    let mut qr: QuantumRegister = QuantumRegister::new(&cr).unwrap();
    qr.x(4).unwrap();
    let qr_state = qr.state();
    let measured_qr = qr.measure().unwrap();

    let mut expected = vec![z; 16];
    expected[2] = o;
    assert_eq!(qr_state, expected);
    assert_eq!(measured_qr, ClassicalRegister::new(vec![0, 0, 1, 0]));
}

#[test]
fn pauli_y_test() {
    let cr = ClassicalRegister::new(vec![0, 0, 1, 0]);
    let mut qr: QuantumRegister = QuantumRegister::new(&cr).unwrap();
    qr.y(2).unwrap();
    let qr_state = qr.state();

    let z = amp(0, 0);
    assert_eq!(qr_state, vec![z, z, z, amp(0, 1)]);
    assert_eq!(qr.scale(), 0);

    let cr = ClassicalRegister::new(vec![0, 0, 0, 0]);
    let mut qr: QuantumRegister = QuantumRegister::new(&cr).unwrap();
    qr.y(1).unwrap();
    let qr_state = qr.state();

    assert_eq!(qr_state, vec![z, z, amp(0, 1), z]);
}

#[test]
fn pauli_z_test() {
    let cr = ClassicalRegister::new(vec![0, 0, 1, 0]);
    let mut qr: QuantumRegister = QuantumRegister::new(&cr).unwrap();
    qr.z(1).unwrap();
    let qr_state = qr.state();

    let z = amp(0, 0);
    assert_eq!(qr_state, vec![z, z, amp(-1, 0), z]);

    let cr = ClassicalRegister::new(vec![0, 0, 0, 0, 0, 1, 0, 1]);
    let mut qr: QuantumRegister = QuantumRegister::new(&cr).unwrap();
    qr.z(1).unwrap();
    let qr_state = qr.state();

    let mut expected = vec![z; 8];
    expected[5] = amp(-1, 0);
    assert_eq!(qr_state, expected);
}

#[test]
fn hadamard_test() {
    let cr1 = ClassicalRegister::new(vec![0, 0, 0, 0]);
    let mut qr1: QuantumRegister = QuantumRegister::new(&cr1).unwrap();
    qr1.h(1).unwrap();
    let qr1_state = qr1.state();

    let z = amp(0, 0);
    let o = amp(1, 0);
    // Numerators over sqrt(2)^1: both surviving amplitudes are 1/sqrt(2).
    assert_eq!(qr1_state, vec![o, z, o, z]);
    assert_eq!(qr1.scale(), 1);

    let cr2 = ClassicalRegister::new(vec![0, 0, 0, 0, 0, 1, 0, 0]);
    let mut qr2: QuantumRegister = QuantumRegister::new(&cr2).unwrap();
    qr2.h(3).unwrap();
    let qr2_state = qr2.state();
    assert_eq!(qr2_state, vec![z, z, z, z, o, o, z, z]);
    assert_eq!(qr2.scale(), 1);
}

#[test]
fn cnot_test() {
    // The controlled-NOT is a real basis permutation: with the control
    // qubit set, the target qubit flips.
    let cr1 = ClassicalRegister::new(vec![0, 0, 0, 0]);
    let mut qr1: QuantumRegister = QuantumRegister::new(&cr1).unwrap();
    qr1.x(1).unwrap();
    qr1.cnot(1, 2).unwrap();
    let qr1_state = qr1.state();
    let z = amp(0, 0);
    assert_eq!(qr1_state, vec![z, z, z, amp(1, 0)]);

    // With the control qubit clear, nothing moves.
    let cr2 = ClassicalRegister::new(vec![0, 0, 0, 0, 0, 0, 0, 0]);
    let mut qr2: QuantumRegister = QuantumRegister::new(&cr2).unwrap();
    qr2.cnot(1, 2).unwrap();
    let qr2_state = qr2.state();
    assert_eq!(qr2_state, vec![amp(1, 0), z, z, z, z, z, z, z]);
}

#[test]
fn hadamard_involution() {
    // Two Hadamard gates cancel exactly, denominator included.
    let mut qr = QuantumRegister::init(2);
    qr.h(1).unwrap();
    qr.h(1).unwrap();
    assert_eq!(qr.state(), vec![amp(1, 0), amp(0, 0), amp(0, 0), amp(0, 0)]);
    assert_eq!(qr.scale(), 0);
}

#[test]
fn measurement_with_explicit_draw() {
    // With the Born draw injected, measurement is reproducible: the draw
    // walks the cumulative weights 1 (index 0) then 2 (index 2).
    for t in 0..2u64 {
        let mut qr = QuantumRegister::init(2);
        qr.h(1).unwrap();
        assert_eq!(qr.scale(), 1);
        let cr = qr.measure_with_draw(t).unwrap();
        if t == 0 {
            assert_eq!(cr.bits(), vec![0, 0]);
        } else {
            assert_eq!(cr.bits(), vec![1, 0]);
        }
    }
}

#[test]
fn error_already_measured() {
    let mut qr = QuantumRegister::init(1);
    qr.measure().unwrap();
    assert_eq!(qr.measure(), Err(Error::AlreadyMeasured));
    assert_eq!(qr.x(1), Err(Error::AlreadyMeasured));
    assert_eq!(qr.y(1), Err(Error::AlreadyMeasured));
    assert_eq!(qr.z(1), Err(Error::AlreadyMeasured));
    assert_eq!(qr.h(1), Err(Error::AlreadyMeasured));
    assert_eq!(qr.cnot(1, 2), Err(Error::AlreadyMeasured));
    assert_eq!(qr.measure_qubit(1), Err(Error::AlreadyMeasured));
}

#[test]
fn error_invalid_index() {
    let mut qr = QuantumRegister::init(2);
    assert_eq!(qr.x(0), Err(Error::InvalidIndex));
    assert_eq!(qr.x(3), Err(Error::InvalidIndex));
    assert_eq!(qr.h(3), Err(Error::InvalidIndex));
    assert_eq!(qr.cnot(1, 1), Err(Error::InvalidIndex));
    assert_eq!(qr.cnot(0, 2), Err(Error::InvalidIndex));
    assert_eq!(qr.cnot(1, 3), Err(Error::InvalidIndex));
    assert_eq!(qr.measure_qubit(0), Err(Error::InvalidIndex));
    // The register is untouched by the refused calls.
    assert_eq!(qr.state(), vec![amp(1, 0), amp(0, 0), amp(0, 0), amp(0, 0)]);
}

#[test]
fn error_dimension_mismatch() {
    // Width three is not a power of two.
    let cr = ClassicalRegister::new(vec![0, 1, 1]);
    assert_eq!(QuantumRegister::new(&cr).err(), Some(Error::DimensionMismatch));
    // The seed's value lies outside its own width.
    let cr = ClassicalRegister::new(vec![1, 1]);
    assert_eq!(QuantumRegister::new(&cr).err(), Some(Error::DimensionMismatch));
    // A sane seed is accepted.
    let cr = ClassicalRegister::new(vec![0, 1]);
    assert!(QuantumRegister::new(&cr).is_ok());
}
