//! Enumeration of the computational basis states of an n-qubit register.
//!
//! The basis states of n qubits are the 2^n bit strings of length n. They are
//! yielded in ascending numeric order when each string is read with its most
//! significant bit first, so for n = 3 the order is 000, 001, 010, ..., 111.

use vstd::prelude::*;
use vstd::arithmetic::power2::{pow2, lemma_pow2_unfold, lemma_pow2_strictly_increases, lemma_pow2_pos, lemma2_to64, lemma2_to64_rest};
use vstd::arithmetic::div_mod::{lemma_div_denominator, lemma_div_pos_is_pos, lemma_div_basics, lemma_fundamental_div_mod, lemma_fundamental_div_mod_converse, lemma_multiply_divide_lt, lemma_hoist_over_denominator, lemma_mod_multiples_vanish};
use vstd::arithmetic::power2::lemma_pow2_adds;

verus! {

/// The bit of `i` at position `p`, counting from the least significant bit.
pub open spec fn bit_of(i: int, p: nat) -> int {
    (i / pow2(p) as int) % 2
}

/// The number a bit string denotes when read most significant bit first.
pub open spec fn basis_value(v: Seq<usize>) -> int
    decreases v.len(),
{
    if v.len() == 0 {
        0
    } else {
        basis_value(v.drop_last()) * 2 + v.last()
    }
}

/// The length-n bit string of `i`, most significant bit first.
pub open spec fn basis_bits(i: int, n: nat) -> Seq<usize> {
    Seq::new(n, |j: int| bit_of(i, (n - 1 - j) as nat) as usize)
}

/// Computes pow2(k) as a machine word.
fn pow2_u64(k: u64) -> (r: u64)
    requires
        k <= 63,
    ensures
        r == pow2(k as nat),
{
    proof {
        lemma2_to64();
    }
    let mut r: u64 = 1;
    let mut j: u64 = 0;
    while j < k
        invariant
            j <= k <= 63,
            r == pow2(j as nat),
        decreases k - j,
    {
        proof {
            lemma_pow2_unfold((j + 1) as nat);
            if j < 62 {
                lemma_pow2_strictly_increases((j + 1) as nat, 63);
            }
            lemma2_to64();
            lemma2_to64_rest();
            assert(pow2((j + 1) as nat) <= pow2(63));
        }
        r = r * 2;
        j = j + 1;
    }
    r
}

/// A finite, restartable enumerator of the 2^n basis strings of an n-qubit
/// register, in ascending big-endian numeric order.
pub struct BasisIter {
    n: usize,
    i: u64,
}

impl BasisIter {
    /// The enumerator stays within machine range and never runs past the end.
    pub closed spec fn wf(self) -> bool {
        self.n <= 63 && self.i <= pow2(self.n as nat)
    }

    /// How many qubits the enumerated strings describe.
    pub closed spec fn qubits(self) -> nat {
        self.n as nat
    }

    /// The index of the next string to be yielded.
    pub closed spec fn position(self) -> nat {
        self.i as nat
    }

    /// Yields the next basis string: the bits of the current position, most
    /// significant first. Past the end it yields nothing, again and again.
    pub fn next(&mut self) -> (r: Option<Vec<usize>>)
        requires
            old(self).wf(),
        ensures
            final(self).wf(),
            final(self).qubits() == old(self).qubits(),
            old(self).position() < pow2(old(self).qubits()) ==> {
                &&& r matches Some(v)
                &&& v@ == basis_bits(old(self).position() as int, old(self).qubits())
                &&& final(self).position() == old(self).position() + 1
            },
            old(self).position() >= pow2(old(self).qubits()) ==> {
                &&& r is None
                &&& final(self).position() == old(self).position()
            },
    {
        let bound = pow2_u64(self.n as u64);
        if self.i < bound {
            let mut result: Vec<usize> = Vec::new();
            let mut x = self.n;
            while x > 0
                invariant
                    x <= self.n <= 63,
                    result@.len() == self.n - x,
                    forall|j: int| 0 <= j < result@.len()
                        ==> result@[j] == bit_of(self.i as int, (self.n - 1 - j) as nat),
                decreases x,
            {
                let p = pow2_u64((x - 1) as u64);
                proof {
                    lemma_pow2_pos((x - 1) as nat);
                    lemma_div_pos_is_pos(self.i as int, p as int);
                }
                let b = (self.i / p) % 2;
                result.push(b as usize);
                x = x - 1;
            }
            proof {
                assert(result@ =~= basis_bits(self.i as int, self.n as nat));
            }
            self.i = self.i + 1;
            Some(result)
        } else {
            None
        }
    }
}

/// Starts an enumeration of the basis strings of an n-qubit register.
pub fn basis_n(n: usize) -> (r: BasisIter)
    requires
        n <= 63,
    ensures
        r.wf(),
        r.qubits() == n,
        r.position() == 0,
{
    BasisIter { n: n, i: 0 }
}

/// The strings come out in ascending order: the string yielded at position i
/// denotes exactly i when read most significant bit first.
pub proof fn lemma_basis_ascending(i: int, n: nat)
    requires
        0 <= i < pow2(n),
    ensures
        basis_bits(i, n).len() == n,
        basis_value(basis_bits(i, n)) == i,
    decreases n,
{
    if n == 0 {
        assert(pow2(0) == 1) by {
            lemma2_to64();
        }
    } else {
        let v = basis_bits(i, n);
        let h = i / 2;
        assert(pow2(n) == 2 * pow2((n - 1) as nat)) by {
            lemma_pow2_unfold(n);
        }
        lemma_fundamental_div_mod(i, 2);
        assert(0 <= h < pow2((n - 1) as nat));
        lemma_basis_ascending(h, (n - 1) as nat);
        assert(v.drop_last() =~= basis_bits(h, (n - 1) as nat)) by {
            assert forall|j: int| 0 <= j < n - 1
                implies v[j] == basis_bits(h, (n - 1) as nat)[j] by {
                let p = (n - 2 - j) as nat;
                assert(h / pow2(p) as int == i / pow2((p + 1) as nat) as int) by {
                    lemma_pow2_pos(p);
                    lemma_pow2_unfold((p + 1) as nat);
                    lemma_div_denominator(i, 2, pow2(p) as int);
                }
            }
        }
        assert(v.last() == bit_of(i, 0));
        assert(bit_of(i, 0) == i % 2) by {
            lemma2_to64();
            lemma_div_basics(i);
        }
        assert(basis_value(v) == basis_value(v.drop_last()) * 2 + v.last());
    }
}


/// The number `x` with its bit at position `p` flipped.
pub open spec fn flipb(x: int, p: nat) -> int {
    if bit_of(x, p) == 1 {
        x - pow2(p)
    } else {
        x + pow2(p)
    }
}

/// Decomposes a nonnegative number around bit position `p` into the part
/// above the bit, the bit itself, and the part below it.
pub proof fn lemma_bit_parts(x: int, p: nat)
    requires
        0 <= x,
    ensures
        0 <= bit_of(x, p) <= 1,
        0 <= x % (pow2(p) as int) < (pow2(p) as int),
        0 <= x / (pow2(p + 1) as int),
        x == (x / (pow2(p + 1) as int)) * (pow2(p + 1) as int)
            + bit_of(x, p) * (pow2(p) as int) + x % (pow2(p) as int),
{
    let pp = pow2(p) as int;
    let qq = pow2(p + 1) as int;
    lemma_pow2_pos(p);
    lemma_pow2_pos(p + 1);
    lemma_pow2_unfold(p + 1);
    let s = x / pp;
    let lo = x % pp;
    lemma_fundamental_div_mod(x, pp);
    lemma_div_pos_is_pos(x, pp);
    let mid = s % 2;
    lemma_fundamental_div_mod(s, 2);
    lemma_div_pos_is_pos(s, 2);
    lemma_div_denominator(x, pp, 2);
    assert(s / 2 == x / qq);
    assert(x == (x / qq) * qq + mid * pp + lo) by (nonlinear_arith)
        requires
            x == pp * s + lo,
            s == 2 * (s / 2) + mid,
            qq == 2 * pp,
            s / 2 == x / qq,
    ;
}

/// Flipping a bit keeps the number nonnegative, toggles exactly that bit and
/// leaves the parts above and below it unchanged.
pub proof fn lemma_flipb_parts(x: int, p: nat)
    requires
        0 <= x,
    ensures
        0 <= flipb(x, p),
        bit_of(flipb(x, p), p) == 1 - bit_of(x, p),
        flipb(x, p) / (pow2(p + 1) as int) == x / (pow2(p + 1) as int),
        flipb(x, p) % (pow2(p) as int) == x % (pow2(p) as int),
{
    let pp = pow2(p) as int;
    let qq = pow2(p + 1) as int;
    lemma_bit_parts(x, p);
    lemma_pow2_pos(p);
    lemma_pow2_pos(p + 1);
    lemma_pow2_unfold(p + 1);
    let hi = x / qq;
    let mid = bit_of(x, p);
    let lo = x % pp;
    let y = flipb(x, p);
    let flipped = 1 - mid;
    assert(y == hi * qq + (flipped * pp + lo) && 0 <= flipped * pp + lo < qq)
        by (nonlinear_arith)
        requires
            x == hi * qq + mid * pp + lo,
            y == (if mid == 1 { x - pp } else { x + pp }),
            flipped == 1 - mid,
            0 <= mid <= 1,
            0 <= lo < pp,
            qq == 2 * pp,
            0 < pp,
    ;
    lemma_fundamental_div_mod_converse(y, qq, hi, flipped * pp + lo);
    assert(y == (2 * hi + flipped) * pp + lo) by (nonlinear_arith)
        requires
            y == hi * qq + flipped * pp + lo,
            qq == 2 * pp,
    ;
    lemma_fundamental_div_mod_converse(y, pp, 2 * hi + flipped, lo);
    lemma_fundamental_div_mod_converse(2 * hi + flipped, 2, hi, flipped);
}

/// Flipping the same bit twice gives the number back.
pub proof fn lemma_flipb_involution(x: int, p: nat)
    requires
        0 <= x,
    ensures
        flipb(flipb(x, p), p) == x,
{
    lemma_bit_parts(x, p);
    lemma_flipb_parts(x, p);
}

/// Flipping a bit below position `n` stays below 2^n.
pub proof fn lemma_flipb_range(x: int, p: nat, n: nat)
    requires
        0 <= x < pow2(n),
        p < n,
    ensures
        0 <= flipb(x, p) < pow2(n),
        flipb(x, p) != x,
{
    let pp = pow2(p) as int;
    let qq = pow2(p + 1) as int;
    let rest = pow2((n - p - 1) as nat) as int;
    lemma_bit_parts(x, p);
    lemma_flipb_parts(x, p);
    lemma_pow2_pos(p);
    lemma_pow2_pos(p + 1);
    lemma_pow2_pos((n - p - 1) as nat);
    lemma_pow2_unfold(p + 1);
    lemma_pow2_adds(p + 1, (n - p - 1) as nat);
    lemma_multiply_divide_lt(x, qq, rest);
    let hi = x / qq;
    let mid = bit_of(x, p);
    let lo = x % pp;
    let y = flipb(x, p);
    assert(y == hi * qq + (1 - mid) * pp + lo) by (nonlinear_arith)
        requires
            x == hi * qq + mid * pp + lo,
            y == (if mid == 1 { x - pp } else { x + pp }),
            0 <= mid <= 1,
    ;
    assert(y < pow2(n)) by (nonlinear_arith)
        requires
            y == hi * qq + (1 - mid) * pp + lo,
            hi + 1 <= rest,
            0 <= mid <= 1,
            0 <= lo < pp,
            qq == 2 * pp,
            0 < pp,
            pow2(n) == qq * rest,
    ;
}

/// Flipping one bit leaves every other bit as it was.
pub proof fn lemma_flipb_other_bits(x: int, p: nat, q: nat)
    requires
        0 <= x,
        p != q,
    ensures
        bit_of(flipb(x, p), q) == bit_of(x, q),
{
    let y = flipb(x, p);
    lemma_bit_parts(x, p);
    lemma_flipb_parts(x, p);
    if q > p {
        let upper = (q - p - 1) as nat;
        lemma_pow2_pos(p + 1);
        lemma_pow2_pos(upper);
        lemma_pow2_pos(q);
        lemma_pow2_adds(p + 1, upper);
        lemma_div_denominator(x, pow2(p + 1) as int, pow2(upper) as int);
        lemma_div_denominator(y, pow2(p + 1) as int, pow2(upper) as int);
    } else {
        let gap = (p - q) as nat;
        lemma_pow2_pos(q);
        lemma_pow2_pos(gap);
        lemma_pow2_pos((gap - 1) as nat);
        lemma_pow2_adds(gap, q);
        lemma_pow2_unfold(gap);
        let s: int = if bit_of(x, p) == 1 { -1 } else { 1 };
        let j = s * (pow2(gap) as int);
        assert(y == x + j * (pow2(q) as int)) by (nonlinear_arith)
            requires
                y == x + s * (pow2(p) as int),
                j == s * (pow2(gap) as int),
                pow2(p) == pow2(gap) * pow2(q),
        ;
        lemma_hoist_over_denominator(x, j, pow2(q));
        assert(y / (pow2(q) as int) == x / (pow2(q) as int) + j);
        assert(j == 2 * (s * (pow2((gap - 1) as nat) as int))) by (nonlinear_arith)
            requires
                j == s * (pow2(gap) as int),
                pow2(gap) == 2 * pow2((gap - 1) as nat),
        ;
        lemma_mod_multiples_vanish(
            s * (pow2((gap - 1) as nat) as int), x / (pow2(q) as int), 2);
    }
}

/// A bit of `x` above the lowest is the bit of `x / 2` one position lower.
pub proof fn lemma_bit_half(x: int, p: nat)
    requires
        0 <= x,
    ensures
        bit_of(x, p + 1) == bit_of(x / 2, p),
{
    lemma_pow2_pos(p);
    lemma_pow2_unfold(p + 1);
    lemma_div_denominator(x, 2, pow2(p) as int);
}

/// Flipping a bit above the lowest splits into the flip of the upper half
/// and the untouched lowest bit.
pub proof fn lemma_flipb_step(x: int, p: nat)
    requires
        0 <= x,
        1 <= p,
    ensures
        flipb(x, p) == 2 * flipb(x / 2, (p - 1) as nat) + x % 2,
{
    lemma_bit_half(x, (p - 1) as nat);
    lemma_div_pos_is_pos(x, 2);
    lemma_fundamental_div_mod(x, 2);
    lemma_pow2_unfold(p);
}

/// Flipping the lowest bit exchanges even and odd neighbours.
pub proof fn lemma_flipb_zero(x: int)
    requires
        0 <= x,
    ensures
        flipb(x, 0) == 2 * (x / 2) + (1 - x % 2),
{
    lemma2_to64();
    lemma_div_basics(x);
    lemma_fundamental_div_mod(x, 2);
}

/// The action of a controlled-NOT on one pair of classical bits: the control
/// passes through unchanged and the target flips exactly when the control is 1.
pub fn cnot_rule(x: usize, y: usize) -> (r: (usize, usize))
    ensures
        r.0 == x,
        r.1 == (x ^ y),
        x <= 1 && y <= 1 ==> r.1 == (if x == 1 { 1 - y } else { y as int }),
{
    proof {
        assert(x <= 1 && y <= 1 ==> (x ^ y) == (if x == 1 { 1 - y } else { y as int }))
            by (bit_vector);
    }
    (x, x ^ y)
}

} // verus!
