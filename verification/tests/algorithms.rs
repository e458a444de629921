use quriust::algorithms::{deutsch_algorithm, deutsch_jozsa_algorithm, has_true_value, Oracle};
use quriust::registers::{Error, QuantumRegister};

struct ConstantFunction;

impl Oracle for ConstantFunction {
    fn apply(&self, _q: &mut QuantumRegister) -> Result<(), Error> {
        Ok(())
    }
}

struct BalancedFunction;

impl Oracle for BalancedFunction {
    fn apply(&self, q: &mut QuantumRegister) -> Result<(), Error> {
        q.cnot(1, 2)?;
        q.x(1)?;
        Ok(())
    }
}

#[test]
fn test_deutsch_algorithm_constant_function() {
    let mut q = QuantumRegister::init(2);
    q.x(2).unwrap();

    let is_balanced = deutsch_algorithm(&mut q, &ConstantFunction).unwrap();

    assert_eq!(is_balanced, false);
}

#[test]
fn test_deutsch_algorithm_balanced_function() {
    let mut q = QuantumRegister::init(2);
    q.x(1).unwrap();
    let is_balanced = deutsch_algorithm(&mut q, &BalancedFunction).unwrap();

    assert_eq!(is_balanced, true);
}

#[test]
fn test_deutsch_jozsa_constant_function() {
    let mut q = QuantumRegister::init(3);
    q.x(3).unwrap();

    let is_constant = deutsch_jozsa_algorithm(&mut q, &ConstantFunction).unwrap();

    assert_eq!(is_constant, true);
}

#[test]
fn test_deutsch_jozsa_balanced_function() {
    let mut q = QuantumRegister::init(2);
    q.x(2).unwrap();

    let is_constant = deutsch_jozsa_algorithm(&mut q, &BalancedFunction).unwrap();

    assert_eq!(is_constant, false);
}

#[test]
fn test_has_true_function() {
    let vec = vec![true, false, false, false, false];
    assert!(has_true_value(vec));

    let vec = vec![false, false, false, false];
    assert_eq!(has_true_value(vec), false);
}
