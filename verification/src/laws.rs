//! Algebraic laws of the operator algebra, each proved once and for all sizes.

use vstd::prelude::*;
use vstd::arithmetic::power2::{pow2, lemma_pow2_unfold, lemma_pow2_pos, lemma2_to64};
use vstd::arithmetic::div_mod::{lemma_fundamental_div_mod, lemma_fundamental_div_mod_converse, lemma_div_basics, lemma_div_pos_is_pos};
use crate::matrix::{
    MatV, identity_v, not_v, pauli_y_v, pauli_z_v, hadamard_v, cnot_map,
    kron_v, kron_fold_v, matmul_v, dot_v, col_v, is_perm, embed_list,
    lemma_identity_perm, lemma_perm_identity_map, lemma_kron_perm, lemma_matmul_perm,
};
use crate::amp::{
    AmpParts, amp_zero, amp_one, amp_mul, amp_mul_raw, amp_add, amp_add_raw, amp_norm,
    lemma_norm_of_reduced, lemma_add_fits_zero, lemma_mul_fits_zero_one,
};
use crate::basis::{bit_of, flipb, lemma_flipb_zero, lemma_flipb_step, lemma_flipb_involution,
    lemma_flipb_other_bits, lemma_flipb_parts};

verus! {

/// The NOT gate is the permutation that flips the single bit of a one-qubit
/// basis state.
pub proof fn lemma_not_perm()
    ensures
        is_perm(not_v(), 2, |c: int| flipb(c, 0)),
{
    lemma2_to64();
    lemma_div_basics(0);
    lemma_div_basics(1);
    assert(bit_of(0, 0) == 0);
    assert(bit_of(1, 0) == 1);
    assert(flipb(0, 0) == 1);
    assert(flipb(1, 0) == 0);
    let f = |c: int| flipb(c, 0);
    assert forall|c: int| 0 <= c < 2 implies 0 <= #[trigger] f(c) < 2 by {}
    assert forall|r: int, c: int| 0 <= r < 2 && 0 <= c < 2
        implies #[trigger] not_v()[r][c]
            == (if r == f(c) { crate::amp::amp_one() } else { crate::amp::amp_zero() }) by {}
}

/// The Kronecker product of k copies of the 2-by-2 identity is the identity
/// of size 2^k: tensoring qubits that are left alone leaves the whole
/// register alone.
pub proof fn lemma_kron_of_identities(ms: Seq<MatV>)
    requires
        forall|i: int| 0 <= i < ms.len() ==> ms[i] == identity_v(2),
    ensures
        kron_fold_v(ms) == identity_v(pow2(ms.len())),
    decreases ms.len(),
{
    lemma2_to64();
    if ms.len() == 0 {
    } else {
        let k = (ms.len() - 1) as nat;
        lemma_kron_of_identities(ms.drop_last());
        lemma_pow2_pos(k);
        lemma_identity_perm(pow2(k));
        lemma_identity_perm(2);
        lemma_kron_perm(
            identity_v(pow2(k)), identity_v(2), pow2(k), 2,
            |c: int| c, |c: int| c,
        );
        let cm = |c: int| ((|c: int| c)(c / 2)) * 2 + ((|c: int| c)(c % 2));
        assert forall|c: int| 0 <= c < pow2(k) * 2 implies #[trigger] cm(c) == c by {
            lemma_fundamental_div_mod(c, 2);
        }
        lemma_perm_identity_map(
            kron_v(identity_v(pow2(k)), identity_v(2)), pow2(k) * 2, cm,
        );
        lemma_pow2_unfold(ms.len());
        assert(pow2(k) * 2 == 2 * pow2(k));
        assert(ms.last() == identity_v(2));
    }
}

/// Applying NOT twice is the identity.
pub proof fn lemma_not_self_inverse()
    ensures
        matmul_v(not_v(), not_v()) == identity_v(2),
{
    lemma_not_perm();
    lemma_matmul_perm(not_v(), not_v(), 2, |c: int| flipb(c, 0), |c: int| flipb(c, 0));
    let cm = |c: int| flipb(flipb(c, 0), 0);
    assert forall|c: int| 0 <= c < 2 implies #[trigger] cm(c) == c by {
        lemma_flipb_involution(c, 0);
    }
    lemma_perm_identity_map(matmul_v(not_v(), not_v()), 2, cm);
}


/// Embedding NOT at qubit `i` of an n-qubit register gives the permutation
/// that flips the bit at big-endian position `i`: it exchanges exactly the
/// pairs of basis states that differ in that one bit.
pub proof fn lemma_apply_not_is_bit_flip(i: int, n: nat)
    requires
        0 <= i < n,
    ensures
        is_perm(
            kron_fold_v(embed_list(not_v(), i, n)),
            pow2(n),
            |c: int| flipb(c, (n - 1 - i) as nat),
        ),
    decreases n,
{
    lemma2_to64();
    let km = (n - 1) as nat;
    lemma_pow2_pos(km);
    lemma_pow2_unfold(n);
    let goal = |c: int| flipb(c, (n - 1 - i) as nat);
    if i == n - 1 {
        let prefix = embed_list(not_v(), i, n).drop_last();
        assert(forall|j: int| 0 <= j < prefix.len() ==> prefix[j] == identity_v(2));
        lemma_kron_of_identities(prefix);
        assert(prefix.len() == km);
        lemma_identity_perm(pow2(km));
        lemma_not_perm();
        lemma_kron_perm(
            identity_v(pow2(km)), not_v(), pow2(km), 2,
            |c: int| c, |c: int| flipb(c, 0),
        );
        let cm = |c: int| ((|c: int| c)(c / 2)) * 2 + ((|c: int| flipb(c, 0))(c % 2));
        let v = kron_v(identity_v(pow2(km)), not_v());
        assert(is_perm(v, pow2(km) * 2, cm));
        assert(v == kron_fold_v(embed_list(not_v(), i, n)));
        assert(pow2(km) * 2 == pow2(n));
        assert forall|c: int| 0 <= c < pow2(n) implies #[trigger] cm(c) == goal(c) by {
            lemma_fundamental_div_mod(c, 2);
            lemma_div_pos_is_pos(c, 2);
            lemma_flipb_zero(c);
            lemma_flipb_zero(c % 2);
            lemma_div_basics(c % 2);
            assert((c % 2) / 2 == 0) by {
                lemma_fundamental_div_mod_converse(c % 2, 2, 0, c % 2);
            }
            assert((c % 2) % 2 == c % 2) by {
                lemma_fundamental_div_mod_converse(c % 2, 2, 0, c % 2);
            }
            assert(flipb(c % 2, 0) == 1 - c % 2);
            assert(cm(c) == (c / 2) * 2 + (1 - c % 2));
            assert(goal(c) == 2 * (c / 2) + (1 - c % 2));
        }
        assert forall|c: int| 0 <= c < pow2(n) implies 0 <= #[trigger] goal(c) < pow2(n) by {
            assert(cm(c) == goal(c));
        }
        assert forall|r: int, c: int| 0 <= r < pow2(n) && 0 <= c < pow2(n)
            implies #[trigger] v[r][c]
                == (if r == goal(c) { crate::amp::amp_one() } else { crate::amp::amp_zero() })
            by {
            assert(cm(c) == goal(c));
        }
    } else {
        lemma_apply_not_is_bit_flip(i, km);
        assert(embed_list(not_v(), i, n).drop_last() =~= embed_list(not_v(), i, km));
        let inner = |c: int| flipb(c, (km - 1 - i) as nat);
        lemma_identity_perm(2);
        lemma_kron_perm(
            kron_fold_v(embed_list(not_v(), i, km)), identity_v(2), pow2(km), 2,
            inner, |c: int| c,
        );
        let cm = |c: int| inner(c / 2) * 2 + ((|c: int| c)(c % 2));
        let v = kron_v(kron_fold_v(embed_list(not_v(), i, km)), identity_v(2));
        assert(is_perm(v, pow2(km) * 2, cm));
        assert(v == kron_fold_v(embed_list(not_v(), i, n)));
        assert(pow2(km) * 2 == pow2(n));
        assert forall|c: int| 0 <= c < pow2(n) implies #[trigger] cm(c) == goal(c) by {
            lemma_div_pos_is_pos(c, 2);
            lemma_flipb_step(c, (n - 1 - i) as nat);
            lemma_fundamental_div_mod(c, 2);
        }
        assert forall|c: int| 0 <= c < pow2(n) implies 0 <= #[trigger] goal(c) < pow2(n) by {
            assert(cm(c) == goal(c));
        }
        assert forall|r: int, c: int| 0 <= r < pow2(n) && 0 <= c < pow2(n)
            implies #[trigger] v[r][c]
                == (if r == goal(c) { crate::amp::amp_one() } else { crate::amp::amp_zero() })
            by {
            assert(cm(c) == goal(c));
        }
    }
}

/// The embedding of NOT at any qubit is its own inverse.
pub proof fn lemma_apply_not_self_inverse(i: int, n: nat)
    requires
        0 <= i < n,
    ensures
        matmul_v(
            kron_fold_v(embed_list(not_v(), i, n)),
            kron_fold_v(embed_list(not_v(), i, n)),
        ) == identity_v(pow2(n)),
{
    let m = kron_fold_v(embed_list(not_v(), i, n));
    let f = |c: int| flipb(c, (n - 1 - i) as nat);
    lemma_apply_not_is_bit_flip(i, n);
    lemma_matmul_perm(m, m, pow2(n), f, f);
    let cm = |c: int| f(f(c));
    assert forall|c: int| 0 <= c < pow2(n) implies #[trigger] cm(c) == c by {
        lemma_flipb_involution(c, (n - 1 - i) as nat);
    }
    lemma_perm_identity_map(matmul_v(m, m), pow2(n), cm);
}


/// The four entries of a product of 2-by-2 views, with the dot products
/// written out.
proof fn lemma_matmul2_entries(a: MatV, b: MatV)
    requires
        a.len() == 2,
        a[0].len() == 2,
        a[1].len() == 2,
        b.len() == 2,
        b[0].len() == 2,
        b[1].len() == 2,
    ensures
        matmul_v(a, b).len() == 2,
        forall|r: int| 0 <= r < 2 ==> (#[trigger] matmul_v(a, b)[r]).len() == 2,
        forall|r: int, c: int| 0 <= r < 2 && 0 <= c < 2
            ==> #[trigger] matmul_v(a, b)[r][c]
                == amp_add(amp_add(amp_zero(), amp_mul(a[r][0], b[0][c])), amp_mul(a[r][1], b[1][c])),
{
    assert forall|r: int, c: int| 0 <= r < 2 && 0 <= c < 2
        implies #[trigger] matmul_v(a, b)[r][c]
            == amp_add(amp_add(amp_zero(), amp_mul(a[r][0], b[0][c])), amp_mul(a[r][1], b[1][c])) by {
        let col = col_v(b, c);
        assert(col[0] == b[0][c]);
        assert(col[1] == b[1][c]);
        assert(dot_v(a[r], col, 0) == amp_zero());
        assert(dot_v(a[r], col, 1) == amp_add(amp_zero(), amp_mul(a[r][0], b[0][c])));
        assert(dot_v(a[r], col, 2)
            == amp_add(dot_v(a[r], col, 1), amp_mul(a[r][1], b[1][c])));
    }
}

/// A sum of two zeroes is zero, and zero plus one is one, on either side.
proof fn lemma_add_units()
    ensures
        amp_add(amp_zero(), amp_zero()) == amp_zero(),
        amp_add(amp_zero(), amp_one()) == amp_one(),
        amp_add(amp_one(), amp_zero()) == amp_one(),
{
    lemma_add_fits_zero(amp_zero());
    lemma_add_fits_zero(amp_one());
}

/// The Pauli-Z gate is its own inverse: together with its symmetry this is
/// its unitarity.
pub proof fn lemma_pauli_z_self_inverse()
    ensures
        matmul_v(pauli_z_v(), pauli_z_v()) == identity_v(2),
{
    let z = pauli_z_v();
    lemma_matmul2_entries(z, z);
    lemma_add_units();
    lemma_mul_fits_zero_one(amp_one(), amp_one());
    lemma_mul_fits_zero_one(amp_zero(), amp_zero());
    lemma_mul_fits_zero_one(amp_zero(), amp_one());
    lemma_mul_fits_zero_one(amp_one(), amp_zero());
    let neg_one: AmpParts = (-1int, 0int, 0int, 0int, 0nat);
    lemma_mul_fits_zero_one(amp_zero(), neg_one);
    assert(amp_mul(neg_one, neg_one) == amp_one()) by {
        lemma_norm_of_reduced(amp_one());
    }
    assert(matmul_v(z, z) =~~= identity_v(2));
}

/// The Pauli-Y gate is its own inverse: together with its symmetry under
/// conjugate transposition this is its unitarity.
pub proof fn lemma_pauli_y_self_inverse()
    ensures
        matmul_v(pauli_y_v(), pauli_y_v()) == identity_v(2),
{
    let y = pauli_y_v();
    lemma_matmul2_entries(y, y);
    lemma_add_units();
    let i: AmpParts = (0int, 0int, 1int, 0int, 0nat);
    let neg_i: AmpParts = (0int, 0int, -1int, 0int, 0nat);
    lemma_mul_fits_zero_one(amp_zero(), i);
    lemma_mul_fits_zero_one(amp_zero(), neg_i);
    lemma_mul_fits_zero_one(amp_zero(), amp_zero());
    assert(amp_mul(neg_i, i) == amp_one()) by {
        lemma_norm_of_reduced(amp_one());
    }
    assert(amp_mul(i, neg_i) == amp_one()) by {
        lemma_norm_of_reduced(amp_one());
    }
    assert(matmul_v(y, y) =~~= identity_v(2));
}

/// The Hadamard gate is its own inverse: together with its symmetry this is
/// its unitarity. The halves that arise from the exact 1/sqrt(2) entries
/// cancel exactly.
pub proof fn lemma_hadamard_self_inverse()
    ensures
        matmul_v(hadamard_v(), hadamard_v()) == identity_v(2),
{
    let h = hadamard_v();
    lemma_matmul2_entries(h, h);
    lemma2_to64();
    let y: AmpParts = (0int, 1int, 0int, 0int, 1nat);
    let ny: AmpParts = (0int, -1int, 0int, 0int, 1nat);
    let half: AmpParts = (1int, 0int, 0int, 0int, 1nat);
    let nhalf: AmpParts = (-1int, 0int, 0int, 0int, 1nat);
    assert(amp_mul(y, y) == half) by {
        assert(y.0 == 0int && y.1 == 1int && y.2 == 0int && y.3 == 0int && y.4 == 1nat);
        assert(amp_mul_raw(y, y) == (2int, 0int, 0int, 0int, 2nat));
        assert(amp_norm((2int, 0int, 0int, 0int, 2nat)) == amp_norm(half));
        lemma_norm_of_reduced(half);
    }
    assert(amp_mul(ny, y) == nhalf) by {
        assert(amp_mul_raw(ny, y) == (-2int, 0int, 0int, 0int, 2nat));
        assert(amp_norm((-2int, 0int, 0int, 0int, 2nat)) == amp_norm(nhalf));
        lemma_norm_of_reduced(nhalf);
    }
    assert(amp_mul(y, ny) == nhalf) by {
        assert(amp_mul_raw(y, ny) == (-2int, 0int, 0int, 0int, 2nat));
        assert(amp_norm((-2int, 0int, 0int, 0int, 2nat)) == amp_norm(nhalf));
        lemma_norm_of_reduced(nhalf);
    }
    assert(amp_add(amp_zero(), half) == half) by {
        lemma_add_fits_zero(half);
    }
    assert(amp_add(amp_zero(), nhalf) == nhalf) by {
        lemma_add_fits_zero(nhalf);
    }
    assert(amp_add(half, half) == amp_one()) by {
        assert(amp_add_raw(half, half) == (2int, 0int, 0int, 0int, 1nat));
        assert(amp_norm((2int, 0int, 0int, 0int, 1nat)) == amp_norm(amp_one()));
        lemma_norm_of_reduced(amp_one());
    }
    assert(amp_add(half, nhalf) == amp_zero()) by {
        assert(amp_add_raw(half, nhalf) == (0int, 0int, 0int, 0int, 1nat));
        crate::amp::lemma_norm_zero(1);
    }
    assert(amp_add(nhalf, half) == amp_zero()) by {
        assert(amp_add_raw(nhalf, half) == (0int, 0int, 0int, 0int, 1nat));
        crate::amp::lemma_norm_zero(1);
    }
    assert(matmul_v(h, h) =~~= identity_v(2));
}


/// Applying the controlled-NOT map twice gives the index back: where the
/// control bit is clear nothing moves, and where it is set the target bit
/// flips while the control bit — a different bit — stays set.
pub proof fn lemma_cnot_map_involution(c: int, n: nat, control: nat, target: nat)
    requires
        control < n,
        target < n,
        control != target,
        0 <= c,
    ensures
        cnot_map(cnot_map(c, n, control, target), n, control, target) == c,
{
    let pc = (n - 1 - control) as nat;
    let pt = (n - 1 - target) as nat;
    if bit_of(c, pc) == 1 {
        lemma_flipb_parts(c, pt);
        lemma_flipb_other_bits(c, pt, pc);
        lemma_flipb_involution(c, pt);
    }
}

/// A controlled-NOT operator is its own inverse, whatever the register size
/// and whichever distinct qubits control and are flipped.
pub proof fn lemma_control_not_self_inverse(v: MatV, n: nat, control: nat, target: nat)
    requires
        control < n,
        target < n,
        control != target,
        is_perm(v, pow2(n), |c: int| cnot_map(c, n, control, target)),
    ensures
        matmul_v(v, v) == identity_v(pow2(n)),
{
    let f = |c: int| cnot_map(c, n, control, target);
    lemma_matmul_perm(v, v, pow2(n), f, f);
    let cm = |c: int| f(f(c));
    assert forall|c: int| 0 <= c < pow2(n) implies #[trigger] cm(c) == c by {
        lemma_cnot_map_involution(c, n, control, target);
    }
    lemma_perm_identity_map(matmul_v(v, v), pow2(n), cm);
}

} // verus!
