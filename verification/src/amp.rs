//! Exact complex amplitudes.
//!
//! Every amplitude that the operator algebra of this crate produces lies in the
//! ring generated by the integers, the imaginary unit `i` and `1/sqrt(2)`:
//! it can be written as `(a + b*sqrt(2) + (c + d*sqrt(2))*i) / 2^e` with
//! integers a, b, c, d and a nonnegative exponent e. An [`Amp`] stores exactly
//! those five numbers, so arithmetic on amplitudes is exact and equality is
//! decidable, with no rounding and no tolerance.
//!
//! A stored amplitude is kept in reduced form: either the exponent is zero or
//! one of the four integer parts is odd. Since 1 and sqrt(2) are linearly
//! independent over the rationals, two reduced representations denote the same
//! complex number exactly when they are equal part for part, so structural
//! equality of reduced amplitudes is equality of the denoted values.

use vstd::prelude::*;
use vstd::arithmetic::power2::{pow2, lemma_pow2_unfold, lemma_pow2_pos, lemma2_to64};
use vstd::arithmetic::div_mod::lemma_fundamental_div_mod;
use vstd::arithmetic::mul::lemma_mul_basics;
use vstd::arithmetic::power2::lemma_pow2_strictly_increases;

verus! {

/// The mathematical content of an amplitude: the four integer parts and the
/// exponent of the power-of-two denominator.
pub type AmpParts = (int, int, int, int, nat);

/// Bound on the magnitude of each stored integer part, 2^30. It keeps every
/// intermediate value of a product of two amplitudes within the i64 range.
pub const AMP_MAX: i64 = 0x4000_0000;

/// Bound on a part after rescaling to a common denominator in an addition,
/// 2^61: two rescaled parts can then be added without leaving the i64 range.
pub const SHIFT_MAX: i64 = 0x2000_0000_0000_0000;

/// An exact complex amplitude
/// `(a + b*sqrt(2) + (c + d*sqrt(2))*i) / 2^e`.
#[derive(Clone, Copy, Debug, PartialEq, Eq)]
pub struct Amp {
    a: i64,
    b: i64,
    c: i64,
    d: i64,
    e: u32,
}

impl View for Amp {
    type V = AmpParts;

    closed spec fn view(&self) -> AmpParts {
        (self.a as int, self.b as int, self.c as int, self.d as int, self.e as nat)
    }
}

pub open spec fn amp_zero() -> AmpParts {
    (0int, 0int, 0int, 0int, 0nat)
}

pub open spec fn amp_one() -> AmpParts {
    (1int, 0int, 0int, 0int, 0nat)
}

/// Minus one.
pub open spec fn amp_neg_one() -> AmpParts {
    (-1int, 0int, 0int, 0int, 0nat)
}

/// The imaginary unit.
pub open spec fn amp_i() -> AmpParts {
    (0int, 0int, 1int, 0int, 0nat)
}

/// Minus the imaginary unit.
pub open spec fn amp_neg_i() -> AmpParts {
    (0int, 0int, -1int, 0int, 0nat)
}

/// `1/sqrt(2)`, stored as `sqrt(2)/2`.
pub open spec fn amp_inv_rt2() -> AmpParts {
    (0int, 1int, 0int, 0int, 1nat)
}

/// `-1/sqrt(2)`, stored as `-sqrt(2)/2`.
pub open spec fn amp_neg_inv_rt2() -> AmpParts {
    (0int, -1int, 0int, 0int, 1nat)
}

/// The representation is reduced: the denominator exponent cannot be lowered.
pub open spec fn amp_reduced(v: AmpParts) -> bool {
    v.4 == 0 || v.0 % 2 != 0 || v.1 % 2 != 0 || v.2 % 2 != 0 || v.3 % 2 != 0
}

/// All four integer parts have magnitude at most `m`.
pub open spec fn amp_within(v: AmpParts, m: int) -> bool {
    &&& -m <= v.0 <= m
    &&& -m <= v.1 <= m
    &&& -m <= v.2 <= m
    &&& -m <= v.3 <= m
}

/// A well-formed amplitude: reduced, with parts within the storage bound and
/// an exponent a machine word can hold.
pub open spec fn amp_wf(v: AmpParts) -> bool {
    amp_reduced(v) && amp_within(v, AMP_MAX as int) && v.4 <= u32::MAX
}

/// Reduction to the canonical representation: halve all parts and the
/// denominator as long as every part is even.
pub open spec fn amp_norm(v: AmpParts) -> AmpParts
    decreases v.4,
{
    if v.4 > 0 && v.0 % 2 == 0 && v.1 % 2 == 0 && v.2 % 2 == 0 && v.3 % 2 == 0 {
        amp_norm((v.0 / 2, v.1 / 2, v.2 / 2, v.3 / 2, (v.4 - 1) as nat))
    } else {
        v
    }
}

/// The product before reduction, by the multiplication table of the ring:
/// sqrt(2)*sqrt(2) = 2 and i*i = -1, and denominator exponents add.
pub open spec fn amp_mul_raw(x: AmpParts, y: AmpParts) -> AmpParts {
    (
        x.0 * y.0 + 2 * (x.1 * y.1) - x.2 * y.2 - 2 * (x.3 * y.3),
        x.0 * y.1 + x.1 * y.0 - x.2 * y.3 - x.3 * y.2,
        x.0 * y.2 + 2 * (x.1 * y.3) + x.2 * y.0 + 2 * (x.3 * y.1),
        x.0 * y.3 + x.1 * y.2 + x.2 * y.1 + x.3 * y.0,
        x.4 + y.4,
    )
}

/// The exact product of two amplitudes, in reduced form.
pub open spec fn amp_mul(x: AmpParts, y: AmpParts) -> AmpParts {
    amp_norm(amp_mul_raw(x, y))
}

/// The product stays within machine range: the reduced result fits the
/// storage bound and the exponents do not overflow.
pub open spec fn amp_mul_fits(x: AmpParts, y: AmpParts) -> bool {
    x.4 + y.4 <= u32::MAX && amp_within(amp_mul(x, y), AMP_MAX as int)
}

/// The sum before reduction: both operands rescaled to the larger
/// denominator, parts added.
pub open spec fn amp_add_raw(x: AmpParts, y: AmpParts) -> AmpParts {
    let e = if x.4 >= y.4 { x.4 } else { y.4 };
    (
        x.0 * pow2((e - x.4) as nat) + y.0 * pow2((e - y.4) as nat),
        x.1 * pow2((e - x.4) as nat) + y.1 * pow2((e - y.4) as nat),
        x.2 * pow2((e - x.4) as nat) + y.2 * pow2((e - y.4) as nat),
        x.3 * pow2((e - x.4) as nat) + y.3 * pow2((e - y.4) as nat),
        e,
    )
}

/// The exact sum of two amplitudes, in reduced form.
pub open spec fn amp_add(x: AmpParts, y: AmpParts) -> AmpParts {
    amp_norm(amp_add_raw(x, y))
}

/// The sum stays within machine range: every rescaled part is within the
/// rescaling bound and the reduced result fits the storage bound.
pub open spec fn amp_add_fits(x: AmpParts, y: AmpParts) -> bool {
    let e = if x.4 >= y.4 { x.4 } else { y.4 };
    &&& -SHIFT_MAX <= x.0 * pow2((e - x.4) as nat) <= SHIFT_MAX
    &&& -SHIFT_MAX <= x.1 * pow2((e - x.4) as nat) <= SHIFT_MAX
    &&& -SHIFT_MAX <= x.2 * pow2((e - x.4) as nat) <= SHIFT_MAX
    &&& -SHIFT_MAX <= x.3 * pow2((e - x.4) as nat) <= SHIFT_MAX
    &&& -SHIFT_MAX <= y.0 * pow2((e - y.4) as nat) <= SHIFT_MAX
    &&& -SHIFT_MAX <= y.1 * pow2((e - y.4) as nat) <= SHIFT_MAX
    &&& -SHIFT_MAX <= y.2 * pow2((e - y.4) as nat) <= SHIFT_MAX
    &&& -SHIFT_MAX <= y.3 * pow2((e - y.4) as nat) <= SHIFT_MAX
    &&& amp_within(amp_add(x, y), AMP_MAX as int)
}

/// Reduction leaves a reduced representation behind.
pub proof fn lemma_norm_reduced(v: AmpParts)
    ensures
        amp_reduced(amp_norm(v)),
    decreases v.4,
{
    if v.4 > 0 && v.0 % 2 == 0 && v.1 % 2 == 0 && v.2 % 2 == 0 && v.3 % 2 == 0 {
        lemma_norm_reduced((v.0 / 2, v.1 / 2, v.2 / 2, v.3 / 2, (v.4 - 1) as nat));
    }
}

/// Reduction of a reduced representation changes nothing.
pub proof fn lemma_norm_of_reduced(v: AmpParts)
    requires
        amp_reduced(v),
    ensures
        amp_norm(v) == v,
{
}

/// Reduction never enlarges the integer parts.
pub proof fn lemma_norm_within(v: AmpParts, m: int)
    requires
        0 <= m,
        amp_within(v, m),
    ensures
        amp_within(amp_norm(v), m),
    decreases v.4,
{
    if v.4 > 0 && v.0 % 2 == 0 && v.1 % 2 == 0 && v.2 % 2 == 0 && v.3 % 2 == 0 {
        lemma_fundamental_div_mod(v.0, 2);
        lemma_fundamental_div_mod(v.1, 2);
        lemma_fundamental_div_mod(v.2, 2);
        lemma_fundamental_div_mod(v.3, 2);
        lemma_norm_within((v.0 / 2, v.1 / 2, v.2 / 2, v.3 / 2, (v.4 - 1) as nat), m);
    }
}

/// A representation with all parts zero reduces to the canonical zero.
pub proof fn lemma_norm_zero(e: nat)
    ensures
        amp_norm((0int, 0int, 0int, 0int, e)) == amp_zero(),
    decreases e,
{
    if e > 0 {
        lemma_norm_zero((e - 1) as nat);
    }
}

/// One is a left identity of the product on reduced amplitudes.
pub proof fn lemma_mul_one_left(v: AmpParts)
    requires
        amp_reduced(v),
    ensures
        amp_mul(amp_one(), v) == v,
{
    assert(amp_mul_raw(amp_one(), v) == v);
    lemma_norm_of_reduced(v);
}

/// One is a right identity of the product on reduced amplitudes.
pub proof fn lemma_mul_one_right(v: AmpParts)
    requires
        amp_reduced(v),
    ensures
        amp_mul(v, amp_one()) == v,
{
    assert(amp_mul_raw(v, amp_one()) == v);
    lemma_norm_of_reduced(v);
}

/// Zero annihilates on the left.
pub proof fn lemma_mul_zero_left(v: AmpParts)
    ensures
        amp_mul(amp_zero(), v) == amp_zero(),
{
    assert(amp_mul_raw(amp_zero(), v) == (0int, 0int, 0int, 0int, v.4));
    lemma_norm_zero(v.4);
}

/// Zero annihilates on the right.
pub proof fn lemma_mul_zero_right(v: AmpParts)
    ensures
        amp_mul(v, amp_zero()) == amp_zero(),
{
    assert(amp_mul_raw(v, amp_zero()) == (0int, 0int, 0int, 0int, v.4));
    lemma_norm_zero(v.4);
}

/// Zero is a left identity of the sum on reduced amplitudes.
pub proof fn lemma_add_zero_left(v: AmpParts)
    requires
        amp_reduced(v),
    ensures
        amp_add(amp_zero(), v) == v,
{
    lemma2_to64();
    lemma_mul_basics(v.0);
    lemma_mul_basics(v.1);
    lemma_mul_basics(v.2);
    lemma_mul_basics(v.3);
    assert(amp_add_raw(amp_zero(), v) == v);
    lemma_norm_of_reduced(v);
}

/// Zero is a right identity of the sum on reduced amplitudes.
pub proof fn lemma_add_zero_right(v: AmpParts)
    requires
        amp_reduced(v),
    ensures
        amp_add(v, amp_zero()) == v,
{
    lemma2_to64();
    lemma_mul_basics(v.0);
    lemma_mul_basics(v.1);
    lemma_mul_basics(v.2);
    lemma_mul_basics(v.3);
    assert(amp_add_raw(v, amp_zero()) == v);
    lemma_norm_of_reduced(v);
}


/// A product with zero or one fits and is zero, or the other operand.
pub proof fn lemma_mul_fits_zero_one(x: AmpParts, v: AmpParts)
    requires
        x == amp_zero() || x == amp_one(),
        amp_wf(v),
    ensures
        amp_mul_fits(x, v),
        amp_mul_fits(v, x),
        amp_wf(amp_mul(x, v)),
        amp_wf(amp_mul(v, x)),
        amp_mul(x, v) == (if x == amp_one() { v } else { amp_zero() }),
        amp_mul(v, x) == (if x == amp_one() { v } else { amp_zero() }),
{
    if x == amp_one() {
        lemma_mul_one_left(v);
        lemma_mul_one_right(v);
    } else {
        lemma_mul_zero_left(v);
        lemma_mul_zero_right(v);
    }
}

/// A sum with zero fits and is the other operand.
pub proof fn lemma_add_fits_zero(v: AmpParts)
    requires
        amp_wf(v),
    ensures
        amp_add_fits(amp_zero(), v),
        amp_add_fits(v, amp_zero()),
        amp_add(amp_zero(), v) == v,
        amp_add(v, amp_zero()) == v,
{
    lemma2_to64();
    lemma_mul_basics(v.0);
    lemma_mul_basics(v.1);
    lemma_mul_basics(v.2);
    lemma_mul_basics(v.3);
    lemma_mul_basics(pow2(v.4) as int);
    lemma_add_zero_left(v);
    lemma_add_zero_right(v);
}

/// A multiple of a smaller positive factor stays within any bound that the
/// multiple of the larger factor meets.
proof fn lemma_scale_monotone(v: int, p1: int, p2: int, m: int)
    by (nonlinear_arith)
    requires
        0 < p1 <= p2,
        0 <= m,
        -m <= v * p2 <= m,
    ensures
        -m <= v * p1 <= m,
{
}

/// A product of two values within bound `m` has magnitude at most `m * m`.
proof fn lemma_prod_bound(x: int, y: int, m: int)
    by (nonlinear_arith)
    requires
        0 <= m,
        -m <= x <= m,
        -m <= y <= m,
    ensures
        -(m * m) <= x * y <= m * m,
{
}

/// Brings the stored parts to reduced form.
fn reduce_parts(a0: i64, b0: i64, c0: i64, d0: i64, e0: u32) -> (r: Amp)
    ensures
        r@ == amp_norm((a0 as int, b0 as int, c0 as int, d0 as int, e0 as nat)),
{
    let mut a = a0;
    let mut b = b0;
    let mut c = c0;
    let mut d = d0;
    let mut e = e0;
    while e > 0 && a % 2 == 0 && b % 2 == 0 && c % 2 == 0 && d % 2 == 0
        invariant
            amp_norm((a as int, b as int, c as int, d as int, e as nat))
                == amp_norm((a0 as int, b0 as int, c0 as int, d0 as int, e0 as nat)),
        decreases e,
    {
        proof {
            lemma_fundamental_div_mod(a as int, 2);
            lemma_fundamental_div_mod(b as int, 2);
            lemma_fundamental_div_mod(c as int, 2);
            lemma_fundamental_div_mod(d as int, 2);
        }
        a = a / 2;
        b = b / 2;
        c = c / 2;
        d = d / 2;
        e = e - 1;
    }
    Amp { a: a, b: b, c: c, d: d, e: e }
}

/// Multiplies `v` by 2^k without leaving the i64 range.
fn scale_up(v: i64, k: u32) -> (r: i64)
    requires
        -SHIFT_MAX <= v * pow2(k as nat) <= SHIFT_MAX,
    ensures
        r == v * pow2(k as nat),
{
    proof {
        lemma2_to64();
    }
    let mut r = v;
    let mut j: u32 = 0;
    while j < k
        invariant
            j <= k,
            r == v * pow2(j as nat),
            -SHIFT_MAX <= v * pow2(k as nat) <= SHIFT_MAX,
        decreases k - j,
    {
        proof {
            lemma_pow2_unfold((j + 1) as nat);
            lemma_pow2_pos((j + 1) as nat);
            if j + 1 < k {
                lemma_pow2_strictly_increases((j + 1) as nat, k as nat);
            }
            lemma_scale_monotone(
                v as int,
                pow2((j + 1) as nat) as int,
                pow2(k as nat) as int,
                SHIFT_MAX as int,
            );
            assert(v * pow2((j + 1) as nat) == 2 * (v * pow2(j as nat)))
                by (nonlinear_arith)
                requires pow2((j + 1) as nat) == 2 * pow2(j as nat),
            ;
        }
        r = r * 2;
        j = j + 1;
    }
    r
}

impl Amp {
    /// Builds the amplitude `(a + b*sqrt(2) + (c + d*sqrt(2))*i) / 2^e`,
    /// stored in reduced form.
    pub fn new(a: i64, b: i64, c: i64, d: i64, e: u32) -> (r: Amp)
        requires
            amp_within((a as int, b as int, c as int, d as int, e as nat), AMP_MAX as int),
        ensures
            r@ == amp_norm((a as int, b as int, c as int, d as int, e as nat)),
            amp_wf(r@),
    {
        proof {
            lemma_norm_reduced((a as int, b as int, c as int, d as int, e as nat));
            lemma_norm_within((a as int, b as int, c as int, d as int, e as nat), AMP_MAX as int);
        }
        reduce_parts(a, b, c, d, e)
    }

    /// The amplitude zero.
    pub fn zero() -> (r: Amp)
        ensures
            r@ == amp_zero(),
            amp_wf(r@),
    {
        Amp { a: 0, b: 0, c: 0, d: 0, e: 0 }
    }

    /// The amplitude one.
    pub fn one() -> (r: Amp)
        ensures
            r@ == amp_one(),
            amp_wf(r@),
    {
        Amp { a: 1, b: 0, c: 0, d: 0, e: 0 }
    }

    /// The five stored numbers, for callers that render or convert the value.
    pub fn parts(&self) -> (r: (i64, i64, i64, i64, u32))
        ensures
            self@ == (r.0 as int, r.1 as int, r.2 as int, r.3 as int, r.4 as nat),
    {
        (self.a, self.b, self.c, self.d, self.e)
    }

    /// The exact product of two amplitudes.
    pub fn times(&self, other: &Amp) -> (r: Amp)
        requires
            amp_wf(self@),
            amp_wf(other@),
            amp_mul_fits(self@, other@),
        ensures
            r@ == amp_mul(self@, other@),
            amp_wf(r@),
    {
        proof {
            let m = AMP_MAX as int;
            lemma_prod_bound(self@.0, other@.0, m);
            lemma_prod_bound(self@.0, other@.1, m);
            lemma_prod_bound(self@.0, other@.2, m);
            lemma_prod_bound(self@.0, other@.3, m);
            lemma_prod_bound(self@.1, other@.0, m);
            lemma_prod_bound(self@.1, other@.1, m);
            lemma_prod_bound(self@.1, other@.2, m);
            lemma_prod_bound(self@.1, other@.3, m);
            lemma_prod_bound(self@.2, other@.0, m);
            lemma_prod_bound(self@.2, other@.1, m);
            lemma_prod_bound(self@.2, other@.2, m);
            lemma_prod_bound(self@.2, other@.3, m);
            lemma_prod_bound(self@.3, other@.0, m);
            lemma_prod_bound(self@.3, other@.1, m);
            lemma_prod_bound(self@.3, other@.2, m);
            lemma_prod_bound(self@.3, other@.3, m);
            lemma_norm_reduced(amp_mul_raw(self@, other@));
        }
        let ra = self.a * other.a + 2 * (self.b * other.b)
            - self.c * other.c - 2 * (self.d * other.d);
        let rb = self.a * other.b + self.b * other.a
            - self.c * other.d - self.d * other.c;
        let rc = self.a * other.c + 2 * (self.b * other.d)
            + self.c * other.a + 2 * (self.d * other.b);
        let rd = self.a * other.d + self.b * other.c
            + self.c * other.b + self.d * other.a;
        reduce_parts(ra, rb, rc, rd, self.e + other.e)
    }

    /// The exact sum of two amplitudes.
    pub fn plus(&self, other: &Amp) -> (r: Amp)
        requires
            amp_wf(self@),
            amp_wf(other@),
            amp_add_fits(self@, other@),
        ensures
            r@ == amp_add(self@, other@),
            amp_wf(r@),
    {
        let e = if self.e >= other.e { self.e } else { other.e };
        let sa = scale_up(self.a, e - self.e);
        let sb = scale_up(self.b, e - self.e);
        let sc = scale_up(self.c, e - self.e);
        let sd = scale_up(self.d, e - self.e);
        let ta = scale_up(other.a, e - other.e);
        let tb = scale_up(other.b, e - other.e);
        let tc = scale_up(other.c, e - other.e);
        let td = scale_up(other.d, e - other.e);
        proof {
            lemma_norm_reduced(amp_add_raw(self@, other@));
        }
        reduce_parts(sa + ta, sb + tb, sc + tc, sd + td, e)
    }
}

} // verus!
