use quantum_circuit_wars::Amp;
use quantum_circuit_wars::Matrix;
use quantum_circuit_wars::Qubit;
use quantum_circuit_wars::identity;
use quantum_circuit_wars::kronecker_product;
use quantum_circuit_wars::apply_to_qubit;
use quantum_circuit_wars::control_not;
use quantum_circuit_wars::not;
use quantum_circuit_wars::pauli_y;
use quantum_circuit_wars::pauli_z;
use quantum_circuit_wars::hadamard;
use quantum_circuit_wars::matrix::matmul;

/// Builds a matrix of zeroes and ones from row-major entries.
fn zero_one_matrix(rows: usize, cols: usize, vals: &[i64]) -> Matrix {
    assert_eq!(rows * cols, vals.len());
    let mut data: Vec<Amp> = Vec::new();
    for v in vals {
        data.push(if *v == 1 { Amp::one() } else { Amp::zero() });
    }
    Matrix::from_rows(rows, cols, data)
}

#[test]
fn control_not_test() {
    let r = zero_one_matrix(8, 8, &[
        1, 0, 0, 0, 0, 0, 0, 0,
        0, 1, 0, 0, 0, 0, 0, 0,
        0, 0, 1, 0, 0, 0, 0, 0,
        0, 0, 0, 1, 0, 0, 0, 0,
        0, 0, 0, 0, 0, 0, 1, 0,
        0, 0, 0, 0, 0, 0, 0, 1,
        0, 0, 0, 0, 1, 0, 0, 0,
        0, 0, 0, 0, 0, 1, 0, 0,
    ]);
    assert_eq!(r, control_not(0, 1, 3));
}

#[test]
fn apply_to_qubit_test() {
    let r = zero_one_matrix(8, 8, &[
        0, 0, 0, 0, 1, 0, 0, 0,
        0, 0, 0, 0, 0, 1, 0, 0,
        0, 0, 0, 0, 0, 0, 1, 0,
        0, 0, 0, 0, 0, 0, 0, 1,
        1, 0, 0, 0, 0, 0, 0, 0,
        0, 1, 0, 0, 0, 0, 0, 0,
        0, 0, 1, 0, 0, 0, 0, 0,
        0, 0, 0, 1, 0, 0, 0, 0,
    ]);
    assert_eq!(r, apply_to_qubit(not(), 0, 3));
    let r = zero_one_matrix(8, 8, &[
        0, 0, 1, 0, 0, 0, 0, 0,
        0, 0, 0, 1, 0, 0, 0, 0,
        1, 0, 0, 0, 0, 0, 0, 0,
        0, 1, 0, 0, 0, 0, 0, 0,
        0, 0, 0, 0, 0, 0, 1, 0,
        0, 0, 0, 0, 0, 0, 0, 1,
        0, 0, 0, 0, 1, 0, 0, 0,
        0, 0, 0, 0, 0, 1, 0, 0,
    ]);
    assert_eq!(r, apply_to_qubit(not(), 1, 3));
    let r = zero_one_matrix(8, 8, &[
        0, 1, 0, 0, 0, 0, 0, 0,
        1, 0, 0, 0, 0, 0, 0, 0,
        0, 0, 0, 1, 0, 0, 0, 0,
        0, 0, 1, 0, 0, 0, 0, 0,
        0, 0, 0, 0, 0, 1, 0, 0,
        0, 0, 0, 0, 1, 0, 0, 0,
        0, 0, 0, 0, 0, 0, 0, 1,
        0, 0, 0, 0, 0, 0, 1, 0,
    ]);
    assert_eq!(r, apply_to_qubit(not(), 2, 3));
}

#[test]
fn kronecker_product_matrix_test() {
    assert_eq!(
        identity(4),
        kronecker_product(&vec![identity(2), identity(2)])
    );
    assert_eq!(
        zero_one_matrix(4, 4, &[
            0, 0, 1, 0,
            0, 0, 0, 1,
            1, 0, 0, 0,
            0, 1, 0, 0,
        ]),
        kronecker_product(&vec![not(), identity(2)])
    );
    assert_eq!(
        zero_one_matrix(4, 4, &[
            0, 1, 0, 0,
            1, 0, 0, 0,
            0, 0, 0, 1,
            0, 0, 1, 0,
        ]),
        kronecker_product(&vec![identity(2), not()])
    );
}

#[test]
fn kronecker_product_qubit_test() {
    let r = kronecker_product(&vec![Qubit::one().mat().clone(), Qubit::one().mat().clone()]);
    let expected = Matrix::from_rows(4, 1, vec![
        Amp::one(), Amp::zero(), Amp::zero(), Amp::zero(),
    ]);
    assert_eq!(expected, r);
}

#[test]
fn not_gate_test() {
    // 1/sqrt(2), exactly: sqrt(2)/2.
    let inv_rt2 = Amp::new(0, 1, 0, 0, 1);
    let q1 = Qubit::new(inv_rt2, inv_rt2);
    // The imaginary unit.
    let i = Amp::new(0, 0, 1, 0, 0);
    let q2 = Qubit::new(i, Amp::zero());
    assert_eq!(
        *Qubit::new(inv_rt2, inv_rt2).mat(),
        matmul(&not(), q1.mat())
    );
    assert_eq!(
        *Qubit::new(Amp::zero(), i).mat(),
        matmul(&not(), q2.mat())
    );
}

#[test]
fn kronecker_product_exact_phases() {
    // (1/sqrt(2), 1/sqrt(2)) tensor (i, 0) == (i/sqrt(2), 0, i/sqrt(2), 0).
    let inv_rt2 = Amp::new(0, 1, 0, 0, 1);
    let i = Amp::new(0, 0, 1, 0, 0);
    let psi = Qubit::new(inv_rt2, inv_rt2);
    let phi = Qubit::new(i, Amp::zero());
    let r = kronecker_product(&vec![psi.mat().clone(), phi.mat().clone()]);
    // i/sqrt(2) written exactly: i * sqrt(2) / 2.
    let i_inv_rt2 = Amp::new(0, 0, 0, 1, 1);
    let expected = Matrix::from_rows(4, 1, vec![
        i_inv_rt2, Amp::zero(), i_inv_rt2, Amp::zero(),
    ]);
    assert_eq!(expected, r);
}

#[test]
fn kron_of_identities_is_identity() {
    for k in 1..5usize {
        let mut factors: Vec<Matrix> = Vec::new();
        for _ in 0..k {
            factors.push(identity(2));
        }
        assert_eq!(identity(1usize << k), kronecker_product(&factors));
    }
}

#[test]
fn not_twice_is_identity() {
    assert_eq!(identity(2), matmul(&not(), &not()));
}

#[test]
fn apply_to_qubit_self_inverse() {
    for n in 1..4usize {
        for i in 0..n {
            let m = apply_to_qubit(not(), i, n);
            assert_eq!(identity(1usize << n), matmul(&m, &m));
        }
    }
}

#[test]
fn apply_to_qubit_swaps_one_bit() {
    // Embedded at qubit i of n, NOT carries column c to the row that differs
    // from c exactly in big-endian bit i.
    let n = 3usize;
    for i in 0..n {
        let m = apply_to_qubit(not(), i, n);
        let mask = 1usize << (n - 1 - i);
        for c in 0..(1usize << n) {
            for r in 0..(1usize << n) {
                let expected = if r == c ^ mask { Amp::one() } else { Amp::zero() };
                assert_eq!(&expected, m.entry(r, c));
            }
        }
    }
}

#[test]
fn fixed_gates_are_exact() {
    let i = Amp::new(0, 0, 1, 0, 0);
    let neg_i = Amp::new(0, 0, -1, 0, 0);
    let neg_one = Amp::new(-1, 0, 0, 0, 0);
    let y = Amp::new(0, 1, 0, 0, 1);
    let neg_y = Amp::new(0, -1, 0, 0, 1);
    assert_eq!(
        Matrix::from_rows(2, 2, vec![Amp::zero(), Amp::one(), Amp::one(), Amp::zero()]),
        not()
    );
    assert_eq!(
        Matrix::from_rows(2, 2, vec![Amp::zero(), neg_i, i, Amp::zero()]),
        pauli_y()
    );
    assert_eq!(
        Matrix::from_rows(2, 2, vec![Amp::one(), Amp::zero(), Amp::zero(), neg_one]),
        pauli_z()
    );
    assert_eq!(Matrix::from_rows(2, 2, vec![y, y, y, neg_y]), hadamard());
}

#[test]
fn amplitudes_reduce_to_one_form() {
    // 2/4 and 1/2 are the same amplitude in the same stored form.
    assert_eq!(Amp::new(2, 0, 0, 0, 2), Amp::new(1, 0, 0, 0, 1));
    // 4/2 reduces to 2.
    assert_eq!(Amp::new(4, 0, 0, 0, 1), Amp::new(2, 0, 0, 0, 0));
    // Exact product: (1/sqrt(2)) * (1/sqrt(2)) == 1/2.
    let inv_rt2 = Amp::new(0, 1, 0, 0, 1);
    assert_eq!(Amp::new(1, 0, 0, 0, 1), inv_rt2.times(&inv_rt2));
    // Exact sum: 1/2 + 1/2 == 1.
    let half = Amp::new(1, 0, 0, 0, 1);
    assert_eq!(Amp::one(), half.plus(&half));
}

#[test]
fn hadamard_twice_is_identity() {
    assert_eq!(identity(2), matmul(&hadamard(), &hadamard()));
}

#[test]
fn control_not_other_pairs() {
    // control 1, target 0 on two qubits: swaps 01 <-> 11.
    let r = zero_one_matrix(4, 4, &[
        1, 0, 0, 0,
        0, 0, 0, 1,
        0, 0, 1, 0,
        0, 1, 0, 0,
    ]);
    assert_eq!(r, control_not(1, 0, 2));
    // A controlled-NOT is its own inverse.
    let m = control_not(0, 1, 3);
    assert_eq!(identity(8), matmul(&m, &m));
}
