use quantum_circuit_wars::basis_n;
use quantum_circuit_wars::cnot_rule;

#[test]
fn basis_n_test() {
    let mut b = basis_n(3);
    assert_eq!(Some(vec![0, 0, 0]), b.next());
    assert_eq!(Some(vec![0, 0, 1]), b.next());
    assert_eq!(Some(vec![0, 1, 0]), b.next());
    assert_eq!(Some(vec![0, 1, 1]), b.next());
    assert_eq!(Some(vec![1, 0, 0]), b.next());
    assert_eq!(Some(vec![1, 0, 1]), b.next());
    assert_eq!(Some(vec![1, 1, 0]), b.next());
    assert_eq!(Some(vec![1, 1, 1]), b.next());
    assert_eq!(None, b.next());
    assert_eq!(None, b.next());
}

#[test]
fn cnot_rule_test() {
    assert_eq!((0, 1), cnot_rule(0, 1));
    assert_eq!((1, 1), cnot_rule(1, 0));
    assert_eq!((1, 0), cnot_rule(1, 1));
}

#[test]
fn basis_n_zero_qubits() {
    // 2^0 = 1 basis string of length 0, then idempotent exhaustion.
    let mut b = basis_n(0);
    assert_eq!(Some(vec![]), b.next());
    assert_eq!(None, b.next());
    assert_eq!(None, b.next());
}

#[test]
fn basis_n_counts() {
    // Exactly 2^n strings, each of length n, in ascending big-endian order.
    for n in 0..6usize {
        let mut b = basis_n(n);
        let mut seen = 0usize;
        while let Some(v) = b.next() {
            assert_eq!(n, v.len());
            let mut value = 0usize;
            for bit in &v {
                assert!(*bit == 0 || *bit == 1);
                value = value * 2 + bit;
            }
            assert_eq!(seen, value);
            seen += 1;
        }
        assert_eq!(1usize << n, seen);
        assert_eq!(None, b.next());
    }
}
