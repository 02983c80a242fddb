//! Dense matrices of exact amplitudes.
//!
//! A [`Matrix`] is a rectangular array of [`Amp`] values. A column vector of
//! 2^k rows holds the state of a k-qubit register; a square matrix of side
//! 2^k holds a k-qubit operator. The row index encodes the basis string with
//! the most significant qubit first.
//!
//! The mathematical content of a matrix is its view: a sequence of rows, each
//! a sequence of exact amplitude parts. Every operation of the algebra is
//! specified entrywise against that view.

use vstd::prelude::*;
use vstd::arithmetic::power2::{pow2, lemma_pow2_unfold, lemma_pow2_pos};
use crate::basis::{bit_of, flipb, lemma_flipb_range, lemma_bit_parts};
use crate::amp::{
    Amp, AmpParts,
    amp_zero, amp_one, amp_neg_one, amp_i, amp_neg_i, amp_inv_rt2, amp_neg_inv_rt2,
    amp_mul, amp_add, amp_mul_fits, amp_add_fits, amp_wf,
    lemma_mul_fits_zero_one, lemma_add_fits_zero,
};

verus! {

/// The mathematical content of a matrix: its rows, each a row of amplitudes.
pub type MatV = Seq<Seq<AmpParts>>;

/// A rectangular view with at least one row and one column, all rows of one
/// length, every entry a well-formed amplitude.
pub open spec fn mat_wf(v: MatV) -> bool {
    &&& v.len() >= 1
    &&& v[0].len() >= 1
    &&& forall|r: int| 0 <= r < v.len() ==> (#[trigger] v[r]).len() == v[0].len()
    &&& forall|r: int, c: int|
        0 <= r < v.len() && 0 <= c < v[0].len() ==> amp_wf(#[trigger] v[r][c])
}

/// The n-by-n identity view.
pub open spec fn identity_v(n: nat) -> MatV {
    Seq::new(n, |r: int| Seq::new(n, |c: int| if r == c { amp_one() } else { amp_zero() }))
}

/// The Kronecker product of two views: entry (r, c) is the product of the
/// entry of `a` at the quotient indices and the entry of `b` at the remainder
/// indices, so `a`'s index is the more significant one.
pub open spec fn kron_v(a: MatV, b: MatV) -> MatV {
    let hb = b.len() as int;
    let wb = b[0].len() as int;
    Seq::new(
        a.len() * b.len(),
        |r: int| Seq::new(
            a[0].len() * b[0].len(),
            |c: int| amp_mul(a[r / hb][c / wb], b[r % hb][c % wb]),
        ),
    )
}

/// The left fold of Kronecker products over a list of views, starting from
/// the 1-by-1 identity. The fold order is part of the contract: the earlier a
/// factor stands in the list, the more significant the qubit it describes.
pub open spec fn kron_fold_v(ms: Seq<MatV>) -> MatV
    decreases ms.len(),
{
    if ms.len() == 0 {
        identity_v(1)
    } else {
        kron_v(kron_fold_v(ms.drop_last()), ms.last())
    }
}

/// Column `c` of a view.
pub open spec fn col_v(b: MatV, c: int) -> Seq<AmpParts> {
    Seq::new(b.len(), |k: int| b[k][c])
}

/// The sum of the first `k` products of paired entries.
pub open spec fn dot_v(x: Seq<AmpParts>, y: Seq<AmpParts>, k: int) -> AmpParts
    decreases k,
{
    if k <= 0 {
        amp_zero()
    } else {
        amp_add(dot_v(x, y, k - 1), amp_mul(x[k - 1], y[k - 1]))
    }
}

/// The matrix product of two views: entry (r, c) is the dot product of row r
/// of `a` with column c of `b`.
pub open spec fn matmul_v(a: MatV, b: MatV) -> MatV {
    Seq::new(
        a.len(),
        |r: int| Seq::new(b[0].len(), |c: int| dot_v(a[r], col_v(b, c), a[0].len() as int)),
    )
}

/// Every pairwise product of an entry of `a` and an entry of `b` stays within
/// machine range.
pub open spec fn kron_fits(a: MatV, b: MatV) -> bool {
    forall|i: int, j: int, k: int, l: int|
        0 <= i < a.len() && 0 <= j < a[0].len() && 0 <= k < b.len() && 0 <= l < b[0].len()
            ==> amp_mul_fits(#[trigger] a[i][j], #[trigger] b[k][l])
}

/// One fold step stays within machine range: the pairwise products fit and
/// so does the size of the resulting matrix.
pub open spec fn kron_step_ok(acc: MatV, m: MatV) -> bool {
    &&& kron_fits(acc, m)
    &&& (acc.len() * m.len()) * (acc[0].len() * m[0].len()) <= usize::MAX
}

/// Every step of the Kronecker fold over `ms` stays within machine range.
pub open spec fn kron_seq_fits(ms: Seq<MatV>) -> bool
    decreases ms.len(),
{
    if ms.len() == 0 {
        true
    } else {
        kron_seq_fits(ms.drop_last()) && kron_step_ok(kron_fold_v(ms.drop_last()), ms.last())
    }
}

/// Every product and every running sum of a matrix product of `a` and `b`
/// stays within machine range.
pub open spec fn matmul_fits(a: MatV, b: MatV) -> bool {
    forall|r: int, c: int, k: int|
        0 <= r < a.len() && 0 <= c < b[0].len() && 0 <= k < a[0].len() ==> {
            &&& amp_mul_fits(#[trigger] a[r][k], #[trigger] b[k][c])
            &&& amp_add_fits(dot_v(a[r], col_v(b, c), k), amp_mul(a[r][k], b[k][c]))
        }
}

/// The views of a list of matrices.
pub open spec fn views_of(ms: Seq<Matrix>) -> Seq<MatV> {
    ms.map_values(|m: Matrix| m@)
}

/// A dense, row-major matrix of exact amplitudes.
#[derive(Clone, Debug, PartialEq, Eq)]
pub struct Matrix {
    rows: usize,
    cols: usize,
    data: Vec<Amp>,
}

impl View for Matrix {
    type V = MatV;

    closed spec fn view(&self) -> MatV {
        Seq::new(
            self.rows as nat,
            |r: int| Seq::new(
                self.cols as nat,
                |c: int| self.data@[r * (self.cols as int) + c]@,
            ),
        )
    }
}

/// Positions in a row-major layout stay within the data and distinct index
/// pairs get distinct positions within a row block.
proof fn lemma_row_major(r: int, c: int, rows: int, cols: int)
    by (nonlinear_arith)
    requires
        0 <= r < rows,
        0 <= c < cols,
    ensures
        0 <= r * cols + c < rows * cols,
{
}

impl Matrix {
    /// The stored shape agrees with the data and every stored amplitude is
    /// well formed.
    pub closed spec fn wf(&self) -> bool {
        &&& self.rows >= 1
        &&& self.cols >= 1
        &&& self.data@.len() == self.rows * self.cols
        &&& forall|k: int| 0 <= k < self.data@.len() ==> amp_wf(#[trigger] self.data@[k]@)
    }

    /// A well-formed matrix has a well-formed view.
    pub proof fn lemma_wf_view(&self)
        requires
            self.wf(),
        ensures
            mat_wf(self@),
    {
        assert forall|r: int, c: int|
            0 <= r < self@.len() && 0 <= c < self@[0].len()
                implies amp_wf(#[trigger] self@[r][c]) by {
            lemma_row_major(r, c, self.rows as int, self.cols as int);
        }
    }

    /// The number of rows.
    pub fn height(&self) -> (r: usize)
        ensures
            r == self@.len(),
    {
        self.rows
    }

    /// The number of columns.
    pub fn width(&self) -> (r: usize)
        requires
            self.wf(),
        ensures
            r == self@[0].len(),
    {
        self.cols
    }

    /// The entry in row `r`, column `c`.
    pub fn entry(&self, r: usize, c: usize) -> (a: &Amp)
        requires
            self.wf(),
            r < self@.len(),
            c < self@[0].len(),
        ensures
            a@ == self@[r as int][c as int],
            amp_wf(a@),
    {
        let len = self.data.len();
        proof {
            lemma_row_major(r as int, c as int, self.rows as int, self.cols as int);
            self.lemma_wf_view();
            assert(r * (self.cols as int) + c < len);
        }
        &self.data[r * self.cols + c]
    }


    /// An independent copy with the same entries.
    pub fn duplicate(&self) -> (m: Matrix)
        requires
            self.wf(),
        ensures
            m.wf(),
            m@ == self@,
    {
        let mut data: Vec<Amp> = Vec::new();
        let n = self.data.len();
        let mut k: usize = 0;
        while k < n
            invariant
                k <= n,
                n == self.data@.len(),
                data@.len() == k,
                forall|t: int| 0 <= t < k ==> #[trigger] data@[t] == self.data@[t],
            decreases n - k,
        {
            data.push(self.data[k]);
            k = k + 1;
        }
        let m = Matrix { rows: self.rows, cols: self.cols, data: data };
        proof {
            assert forall|r: int, c: int|
                0 <= r < self.rows && 0 <= c < self.cols
                    implies m@[r][c] == self@[r][c] by {
                lemma_row_major(r, c, self.rows as int, self.cols as int);
            }
            assert(m@ =~~= self@);
        }
        m
    }

    /// Builds a matrix from its shape and its row-major entries.
    pub fn from_rows(rows: usize, cols: usize, data: Vec<Amp>) -> (m: Matrix)
        requires
            rows >= 1,
            cols >= 1,
            data@.len() == rows * cols,
            forall|k: int| 0 <= k < data@.len() ==> amp_wf(#[trigger] data@[k]@),
        ensures
            m.wf(),
            m@.len() == rows,
            m@[0].len() == cols,
            forall|r: int| 0 <= r < rows ==> (#[trigger] m@[r]).len() == cols,
            forall|r: int, c: int|
                0 <= r < rows && 0 <= c < cols
                    ==> #[trigger] m@[r][c] == data@[r * (cols as int) + c]@,
    {
        let m = Matrix { rows: rows, cols: cols, data: data };
        proof {
            m.lemma_wf_view();
        }
        m
    }
}

/// The n-by-n identity operator.
pub fn identity(n: usize) -> (m: Matrix)
    requires
        1 <= n,
        n * n <= usize::MAX,
    ensures
        m.wf(),
        m@ == identity_v(n as nat),
{
    let mut data: Vec<Amp> = Vec::new();
    let mut r: usize = 0;
    while r < n
        invariant
            r <= n,
            n * n <= usize::MAX,
            data@.len() == r * n,
            forall|k: int| 0 <= k < data@.len()
                ==> #[trigger] data@[k]@
                    == (if k % (n as int) == k / (n as int) { amp_one() } else { amp_zero() }),
        decreases n - r,
    {
        let mut c: usize = 0;
        while c < n
            invariant
                r < n,
                c <= n,
                n * n <= usize::MAX,
                data@.len() == r * n + c,
                forall|k: int| 0 <= k < data@.len()
                    ==> #[trigger] data@[k]@
                        == (if k % (n as int) == k / (n as int) { amp_one() } else { amp_zero() }),
            decreases n - c,
        {
            proof {
                lemma_row_major(r as int, c as int, n as int, n as int);
                vstd::arithmetic::div_mod::lemma_fundamental_div_mod_converse(
                    r * n + c, n as int, r as int, c as int);
            }
            if r == c {
                data.push(Amp::one());
            } else {
                data.push(Amp::zero());
            }
            c = c + 1;
        }
        proof {
            assert((r + 1) * (n as int) == r * (n as int) + n) by (nonlinear_arith);
        }
        r = r + 1;
    }
    let m = Matrix::from_rows(n, n, data);
    proof {
        assert forall|i: int, j: int| 0 <= i < n && 0 <= j < n
            implies m@[i][j] == identity_v(n as nat)[i][j] by {
            lemma_row_major(i, j, n as int, n as int);
            vstd::arithmetic::div_mod::lemma_fundamental_div_mod_converse(
                i * (n as int) + j, n as int, i, j);
        }
        assert(m@ =~~= identity_v(n as nat));
    }
    m
}


/// The NOT (Pauli-X) gate view.
pub open spec fn not_v() -> MatV {
    seq![seq![amp_zero(), amp_one()], seq![amp_one(), amp_zero()]]
}

/// The Pauli-Y gate view.
pub open spec fn pauli_y_v() -> MatV {
    seq![seq![amp_zero(), amp_neg_i()], seq![amp_i(), amp_zero()]]
}

/// The Pauli-Z gate view.
pub open spec fn pauli_z_v() -> MatV {
    seq![seq![amp_one(), amp_zero()], seq![amp_zero(), amp_neg_one()]]
}

/// The Hadamard gate view, with exact `1/sqrt(2)` entries.
pub open spec fn hadamard_v() -> MatV {
    seq![
        seq![amp_inv_rt2(), amp_inv_rt2()],
        seq![amp_inv_rt2(), amp_neg_inv_rt2()],
    ]
}

/// The canonical NOT gate: it exchanges the two basis amplitudes of a qubit.
pub fn not() -> (m: Matrix)
    ensures
        m.wf(),
        m@ == not_v(),
{
    let data = vec![Amp::zero(), Amp::one(), Amp::one(), Amp::zero()];
    let m = Matrix::from_rows(2, 2, data);
    proof {
        assert(m@ =~~= not_v());
    }
    m
}

/// The canonical Pauli-Y gate.
pub fn pauli_y() -> (m: Matrix)
    ensures
        m.wf(),
        m@ == pauli_y_v(),
{
    let data = vec![
        Amp::zero(),
        Amp::new(0, 0, -1, 0, 0),
        Amp::new(0, 0, 1, 0, 0),
        Amp::zero(),
    ];
    let m = Matrix::from_rows(2, 2, data);
    proof {
        assert(m@ =~~= pauli_y_v());
    }
    m
}

/// The canonical Pauli-Z gate.
pub fn pauli_z() -> (m: Matrix)
    ensures
        m.wf(),
        m@ == pauli_z_v(),
{
    let data = vec![
        Amp::one(),
        Amp::zero(),
        Amp::zero(),
        Amp::new(-1, 0, 0, 0, 0),
    ];
    let m = Matrix::from_rows(2, 2, data);
    proof {
        assert(m@ =~~= pauli_z_v());
    }
    m
}

/// The canonical Hadamard gate, with exact `1/sqrt(2)` entries.
pub fn hadamard() -> (m: Matrix)
    ensures
        m.wf(),
        m@ == hadamard_v(),
{
    let data = vec![
        Amp::new(0, 1, 0, 0, 1),
        Amp::new(0, 1, 0, 0, 1),
        Amp::new(0, 1, 0, 0, 1),
        Amp::new(0, -1, 0, 0, 1),
    ];
    let m = Matrix::from_rows(2, 2, data);
    proof {
        assert(m@ =~~= hadamard_v());
    }
    m
}

/// The side products of a Kronecker product are bounded by any bound on the
/// full size.
proof fn lemma_kron_dims(ha: int, hb: int, wa: int, wb: int, m: int)
    by (nonlinear_arith)
    requires
        1 <= ha,
        1 <= hb,
        1 <= wa,
        1 <= wb,
        (ha * hb) * (wa * wb) <= m,
    ensures
        1 <= ha * hb <= m,
        1 <= wa * wb <= m,
{
}

/// Splitting a position of a grid of `h` rows of width `w` into its row and
/// column.
proof fn lemma_grid_split(k: int, h: int, w: int)
    by (nonlinear_arith)
    requires
        0 <= k < h * w,
        0 < w,
    ensures
        0 <= k / w < h,
        0 <= k % w < w,
        k == (k / w) * w + k % w,
{
}

/// The Kronecker product of two matrices. Entry (r, c) of the result is
/// `a(r / hb, c / wb) * b(r mod hb, c mod wb)` for `b` of shape hb-by-wb: the
/// left operand indexes the more significant block, so operand order decides
/// which qubits each factor acts on.
pub fn kron_pair(a: &Matrix, b: &Matrix) -> (m: Matrix)
    requires
        a.wf(),
        b.wf(),
        kron_step_ok(a@, b@),
    ensures
        m.wf(),
        m@ == kron_v(a@, b@),
{
    proof {
        a.lemma_wf_view();
        b.lemma_wf_view();
        lemma_kron_dims(a@.len() as int, b@.len() as int, a@[0].len() as int, b@[0].len() as int,
            usize::MAX as int);
    }
    let ha = a.height();
    let hb = b.height();
    let wa = a.width();
    let wb = b.width();
    let h = ha * hb;
    let w = wa * wb;
    let ghost target = kron_v(a@, b@);
    let mut data: Vec<Amp> = Vec::new();
    let mut r: usize = 0;
    while r < h
        invariant
            r <= h,
            a.wf(),
            b.wf(),
            kron_step_ok(a@, b@),
            mat_wf(a@),
            mat_wf(b@),
            ha == a@.len(),
            hb == b@.len(),
            wa == a@[0].len(),
            wb == b@[0].len(),
            h == ha * hb,
            w == wa * wb,
            h * w <= usize::MAX,
            target == kron_v(a@, b@),
            data@.len() == r * w,
            forall|k: int| 0 <= k < data@.len()
                ==> #[trigger] data@[k]@ == target[k / (w as int)][k % (w as int)],
            forall|k: int| 0 <= k < data@.len() ==> amp_wf(#[trigger] data@[k]@),
        decreases h - r,
    {
        let mut c: usize = 0;
        while c < w
            invariant
                r < h,
                c <= w,
                a.wf(),
                b.wf(),
                kron_step_ok(a@, b@),
                mat_wf(a@),
                mat_wf(b@),
                ha == a@.len(),
                hb == b@.len(),
                wa == a@[0].len(),
                wb == b@[0].len(),
                h == ha * hb,
                w == wa * wb,
                h * w <= usize::MAX,
                target == kron_v(a@, b@),
                data@.len() == r * w + c,
                forall|k: int| 0 <= k < data@.len()
                    ==> #[trigger] data@[k]@ == target[k / (w as int)][k % (w as int)],
                forall|k: int| 0 <= k < data@.len() ==> amp_wf(#[trigger] data@[k]@),
            decreases w - c,
        {
            proof {
                lemma_grid_split(r as int, ha as int, hb as int);
                lemma_grid_split(c as int, wa as int, wb as int);
                lemma_row_major(r as int, c as int, h as int, w as int);
                vstd::arithmetic::div_mod::lemma_fundamental_div_mod_converse(
                    r * w + c, w as int, r as int, c as int);
            }
            let x = a.entry(r / hb, c / wb);
            let y = b.entry(r % hb, c % wb);
            let prod = x.times(y);
            data.push(prod);
            c = c + 1;
        }
        proof {
            assert((r + 1) * (w as int) == r * (w as int) + w) by (nonlinear_arith);
        }
        r = r + 1;
    }
    let m = Matrix::from_rows(h, w, data);
    proof {
        assert forall|i: int, j: int| 0 <= i < h && 0 <= j < w
            implies m@[i][j] == target[i][j] by {
            lemma_row_major(i, j, h as int, w as int);
            vstd::arithmetic::div_mod::lemma_fundamental_div_mod_converse(
                i * (w as int) + j, w as int, i, j);
        }
        assert(m@ =~~= target);
    }
    m
}

/// The left fold of Kronecker products over a list of matrices, starting
/// from the 1-by-1 identity, in list order.
pub fn kronecker_product(matrices: &Vec<Matrix>) -> (m: Matrix)
    requires
        forall|i: int| 0 <= i < matrices@.len() ==> (#[trigger] matrices@[i]).wf(),
        kron_seq_fits(views_of(matrices@)),
    ensures
        m.wf(),
        m@ == kron_fold_v(views_of(matrices@)),
{
    let mut acc = identity(1);
    let ghost vs = views_of(matrices@);
    proof {
        assert(vs.subrange(0, 0) =~= Seq::<MatV>::empty());
        assert(acc@ =~= kron_fold_v(vs.subrange(0, 0)));
    }
    let n = matrices.len();
    let mut i: usize = 0;
    while i < n
        invariant
            i <= n,
            n == matrices@.len(),
            vs == views_of(matrices@),
            forall|j: int| 0 <= j < matrices@.len() ==> (#[trigger] matrices@[j]).wf(),
            kron_seq_fits(vs),
            acc.wf(),
            acc@ == kron_fold_v(vs.subrange(0, i as int)),
        decreases n - i,
    {
        proof {
            lemma_kron_seq_fits_prefix(vs, (i + 1) as int);
            assert(vs.subrange(0, i + 1).drop_last() =~= vs.subrange(0, i as int));
            assert(vs.subrange(0, i + 1).last() == vs[i as int]);
            assert(vs[i as int] == matrices@[i as int]@);
        }
        acc = kron_pair(&acc, &matrices[i]);
        i = i + 1;
    }
    proof {
        assert(vs.subrange(0, n as int) =~= vs);
    }
    acc
}

/// A prefix of a list whose Kronecker fold stays within machine range stays
/// within machine range itself, and its last step fits.
proof fn lemma_kron_seq_fits_prefix(ms: Seq<MatV>, n: int)
    requires
        kron_seq_fits(ms),
        0 < n <= ms.len(),
    ensures
        kron_seq_fits(ms.subrange(0, n)),
        kron_step_ok(kron_fold_v(ms.subrange(0, n - 1)), ms[n - 1]),
    decreases ms.len(),
{
    if n == ms.len() {
        assert(ms.subrange(0, n) =~= ms);
        assert(ms.drop_last() =~= ms.subrange(0, n - 1));
    } else {
        lemma_kron_seq_fits_prefix(ms.drop_last(), n);
        assert(ms.drop_last().subrange(0, n) =~= ms.subrange(0, n));
        assert(ms.drop_last().subrange(0, n - 1) =~= ms.subrange(0, n - 1));
        assert(ms.drop_last()[n - 1] == ms[n - 1]);
    }
}

/// The matrix product. Entry (r, c) of the result is the dot product of row
/// r of `a` with column c of `b`.
pub fn matmul(a: &Matrix, b: &Matrix) -> (m: Matrix)
    requires
        a.wf(),
        b.wf(),
        a@[0].len() == b@.len(),
        matmul_fits(a@, b@),
    ensures
        m.wf(),
        m@ == matmul_v(a@, b@),
{
    proof {
        a.lemma_wf_view();
        b.lemma_wf_view();
    }
    let h = a.height();
    let inner = a.width();
    let w = b.width();
    let ghost target = matmul_v(a@, b@);
    let mut data: Vec<Amp> = Vec::new();
    let mut r: usize = 0;
    while r < h
        invariant
            r <= h,
            a.wf(),
            b.wf(),
            mat_wf(a@),
            mat_wf(b@),
            a@[0].len() == b@.len(),
            matmul_fits(a@, b@),
            h == a@.len(),
            inner == a@[0].len(),
            w == b@[0].len(),
            target == matmul_v(a@, b@),
            data@.len() == r * w,
            forall|k: int| 0 <= k < data@.len()
                ==> #[trigger] data@[k]@ == target[k / (w as int)][k % (w as int)],
            forall|k: int| 0 <= k < data@.len() ==> amp_wf(#[trigger] data@[k]@),
        decreases h - r,
    {
        let mut c: usize = 0;
        while c < w
            invariant
                r < h,
                c <= w,
                a.wf(),
                b.wf(),
                mat_wf(a@),
                mat_wf(b@),
                a@[0].len() == b@.len(),
                matmul_fits(a@, b@),
                h == a@.len(),
                inner == a@[0].len(),
                w == b@[0].len(),
                target == matmul_v(a@, b@),
                data@.len() == r * w + c,
                forall|k: int| 0 <= k < data@.len()
                    ==> #[trigger] data@[k]@ == target[k / (w as int)][k % (w as int)],
                forall|k: int| 0 <= k < data@.len() ==> amp_wf(#[trigger] data@[k]@),
            decreases w - c,
        {
            let mut acc = Amp::zero();
            let mut k: usize = 0;
            while k < inner
                invariant
                    r < h,
                    c < w,
                    k <= inner,
                    a.wf(),
                    b.wf(),
                    mat_wf(a@),
                    mat_wf(b@),
                    a@[0].len() == b@.len(),
                    matmul_fits(a@, b@),
                    h == a@.len(),
                    inner == a@[0].len(),
                    w == b@[0].len(),
                    acc@ == dot_v(a@[r as int], col_v(b@, c as int), k as int),
                    amp_wf(acc@),
                decreases inner - k,
            {
                let x = a.entry(r, k);
                let y = b.entry(k, c);
                let prod = x.times(y);
                acc = acc.plus(&prod);
                k = k + 1;
            }
            proof {
                lemma_row_major(r as int, c as int, h as int, w as int);
                vstd::arithmetic::div_mod::lemma_fundamental_div_mod_converse(
                    r * w + c, w as int, r as int, c as int);
            }
            data.push(acc);
            c = c + 1;
        }
        proof {
            assert((r + 1) * (w as int) == r * (w as int) + w) by (nonlinear_arith);
        }
        r = r + 1;
    }
    let m = Matrix::from_rows(h, w, data);
    proof {
        assert forall|i: int, j: int| 0 <= i < h && 0 <= j < w
            implies m@[i][j] == target[i][j] by {
            lemma_row_major(i, j, h as int, w as int);
            vstd::arithmetic::div_mod::lemma_fundamental_div_mod_converse(
                i * (w as int) + j, w as int, i, j);
        }
        assert(m@ =~~= target);
    }
    m
}


/// A permutation-style view for the index map `f`: column `c` carries a
/// single one, in row `f(c)`, and zeroes elsewhere. Such a matrix sends the
/// basis state of index `c` to the basis state of index `f(c)`.
pub open spec fn is_perm(v: MatV, n: nat, f: spec_fn(int) -> int) -> bool {
    &&& v.len() == n
    &&& n >= 1
    &&& forall|r: int| 0 <= r < n ==> (#[trigger] v[r]).len() == n
    &&& forall|c: int| 0 <= c < n ==> 0 <= #[trigger] f(c) < n
    &&& forall|r: int, c: int|
        0 <= r < n && 0 <= c < n
            ==> #[trigger] v[r][c] == (if r == f(c) { amp_one() } else { amp_zero() })
}

/// A permutation view is a well-formed matrix view.
pub proof fn lemma_perm_wf(v: MatV, n: nat, f: spec_fn(int) -> int)
    requires
        is_perm(v, n, f),
    ensures
        mat_wf(v),
{
}

/// The identity is the permutation view of the identity map.
pub proof fn lemma_identity_perm(n: nat)
    requires
        n >= 1,
    ensures
        is_perm(identity_v(n), n, |c: int| c),
{
}

/// A permutation view whose map is the identity map is the identity.
pub proof fn lemma_perm_identity_map(v: MatV, n: nat, f: spec_fn(int) -> int)
    requires
        is_perm(v, n, f),
        forall|c: int| 0 <= c < n ==> #[trigger] f(c) == c,
    ensures
        v == identity_v(n),
{
    assert(v =~~= identity_v(n));
}

/// The Kronecker product of two permutation views is the permutation view of
/// the combined map: the left map moves the block, the right map moves the
/// position within the block.
pub proof fn lemma_kron_perm(
    a: MatV, b: MatV, na: nat, nb: nat, f: spec_fn(int) -> int, g: spec_fn(int) -> int,
)
    requires
        is_perm(a, na, f),
        is_perm(b, nb, g),
    ensures
        is_perm(
            kron_v(a, b),
            na * nb,
            |c: int| f(c / (nb as int)) * (nb as int) + g(c % (nb as int)),
        ),
{
    let n = (na * nb) as int;
    let v = kron_v(a, b);
    let cm = |c: int| f(c / (nb as int)) * (nb as int) + g(c % (nb as int));
    assert(1 * 1 <= na * nb) by (nonlinear_arith)
        requires 1 <= na, 1 <= nb,
    ;
    assert forall|c: int| 0 <= c < n implies 0 <= #[trigger] cm(c) < n by {
        lemma_grid_split(c, na as int, nb as int);
        assert(0 <= f(c / (nb as int)) * (nb as int) + g(c % (nb as int)) < n)
            by (nonlinear_arith)
            requires
                0 <= f(c / (nb as int)) < na,
                0 <= g(c % (nb as int)) < nb,
                n == na * nb,
        ;
    }
    assert forall|r: int, c: int| 0 <= r < n && 0 <= c < n
        implies #[trigger] v[r][c] == (if r == cm(c) { amp_one() } else { amp_zero() }) by {
        lemma_grid_split(r, na as int, nb as int);
        lemma_grid_split(c, na as int, nb as int);
        let rq = r / (nb as int);
        let rr = r % (nb as int);
        let cq = c / (nb as int);
        let cr = c % (nb as int);
        assert(v[r][c] == amp_mul(a[rq][cq], b[rr][cr]));
        if rq == f(cq) && rr == g(cr) {
            lemma_mul_fits_zero_one(amp_one(), amp_one());
            assert(r == cm(c)) by (nonlinear_arith)
                requires
                    r == rq * (nb as int) + rr,
                    cm(c) == f(cq) * (nb as int) + g(cr),
                    rq == f(cq),
                    rr == g(cr),
            ;
        } else {
            if r == cm(c) {
                vstd::arithmetic::div_mod::lemma_fundamental_div_mod_converse(
                    r, nb as int, f(cq), g(cr));
            }
            if rq == f(cq) {
                lemma_mul_fits_zero_one(amp_zero(), a[rq][cq]);
            } else {
                lemma_mul_fits_zero_one(amp_zero(), b[rr][cr]);
            }
        }
    }
    assert(v.len() == n);
}

/// The dot product of row `r` of a permutation view with column `c` of
/// another: the only term that can contribute is the one at index `g(c)`.
proof fn lemma_dot_perm(
    a: MatV, b: MatV, n: nat, f: spec_fn(int) -> int, g: spec_fn(int) -> int,
    r: int, c: int, k: int,
)
    requires
        is_perm(a, n, f),
        is_perm(b, n, g),
        0 <= r < n,
        0 <= c < n,
        0 <= k <= n,
    ensures
        dot_v(a[r], col_v(b, c), k)
            == (if g(c) < k && r == f(g(c)) { amp_one() } else { amp_zero() }),
    decreases k,
{
    if k > 0 {
        lemma_dot_perm(a, b, n, f, g, r, c, k - 1);
        let j = k - 1;
        let prev = dot_v(a[r], col_v(b, c), j);
        let term = amp_mul(a[r][j], b[j][c]);
        if j == g(c) && r == f(j) {
            lemma_mul_fits_zero_one(amp_one(), amp_one());
            lemma_add_fits_zero(amp_one());
        } else {
            if j == g(c) {
                lemma_mul_fits_zero_one(b[j][c], a[r][j]);
            } else {
                lemma_mul_fits_zero_one(amp_zero(), a[r][j]);
            }
            assert(term == amp_zero());
            if g(c) < j && r == f(g(c)) {
                lemma_add_fits_zero(amp_one());
            } else {
                lemma_add_fits_zero(amp_zero());
            }
        }
    }
}

/// The product of two permutation views is the permutation view of the
/// composed map.
pub proof fn lemma_matmul_perm(
    a: MatV, b: MatV, n: nat, f: spec_fn(int) -> int, g: spec_fn(int) -> int,
)
    requires
        is_perm(a, n, f),
        is_perm(b, n, g),
    ensures
        is_perm(matmul_v(a, b), n, |c: int| f(g(c))),
{
    let v = matmul_v(a, b);
    let cm = |c: int| f(g(c));
    assert forall|r: int, c: int| 0 <= r < n && 0 <= c < n
        implies #[trigger] v[r][c] == (if r == cm(c) { amp_one() } else { amp_zero() }) by {
        lemma_dot_perm(a, b, n, f, g, r, c, n as int);
    }
    assert(v.len() == n);
}


/// The list of `n` Kronecker factors that embeds the 2-by-2 gate `g` at
/// position `i` of the register, identities elsewhere.
pub open spec fn embed_list(g: MatV, i: int, n: nat) -> Seq<MatV> {
    Seq::new(n, |j: int| if j == i { g } else { identity_v(2) })
}

/// An amplitude that a partial embedding product can hold: zero, one, or one
/// of the four entries of the embedded gate.
spec fn carried(x: AmpParts, g: MatV) -> bool {
    ||| x == amp_zero()
    ||| x == amp_one()
    ||| x == g[0][0]
    ||| x == g[0][1]
    ||| x == g[1][0]
    ||| x == g[1][1]
}

/// Every entry of `v` is zero, one, or an entry of `g`.
spec fn all_carried(v: MatV, g: MatV) -> bool {
    forall|r: int, c: int|
        0 <= r < v.len() && 0 <= c < v[0].len() ==> carried(#[trigger] v[r][c], g)
}

/// Every entry of `v` is zero or one.
spec fn all_zero_one(v: MatV) -> bool {
    forall|r: int, c: int|
        0 <= r < v.len() && 0 <= c < v[0].len()
            ==> #[trigger] v[r][c] == amp_zero() || v[r][c] == amp_one()
}

/// One Kronecker step of an embedding stays within machine bounds as long as
/// one side holds only zeroes and ones, and the carried entries carry over.
proof fn lemma_kron_carried_step(a: MatV, m: MatV, g: MatV)
    requires
        mat_wf(a),
        mat_wf(m),
        mat_wf(g),
        all_carried(a, g),
        all_zero_one(m) || (all_zero_one(a) && m == g && g.len() == 2 && g[0].len() == 2),
    ensures
        kron_fits(a, m),
        mat_wf(kron_v(a, m)),
        all_carried(kron_v(a, m), g),
        kron_v(a, m).len() == a.len() * m.len(),
        kron_v(a, m)[0].len() == a[0].len() * m[0].len(),
    decreases 0nat,
{
    assert(1 * 1 <= a.len() * m.len() && 1 * 1 <= a[0].len() * m[0].len()) by (nonlinear_arith)
        requires 1 <= a.len(), 1 <= m.len(), 1 <= a[0].len(), 1 <= m[0].len(),
    ;
    assert forall|i: int, j: int, k: int, l: int|
        0 <= i < a.len() && 0 <= j < a[0].len() && 0 <= k < m.len() && 0 <= l < m[0].len()
            implies amp_mul_fits(#[trigger] a[i][j], #[trigger] m[k][l])
                && amp_wf(amp_mul(a[i][j], m[k][l]))
                && carried(amp_mul(a[i][j], m[k][l]), g) by {
        assert(amp_wf(a[i][j]));
        assert(amp_wf(m[k][l]));
        assert(carried(a[i][j], g));
        if all_zero_one(m) {
            assert(m[k][l] == amp_zero() || m[k][l] == amp_one());
            lemma_mul_fits_zero_one(m[k][l], a[i][j]);
        } else {
            assert(a[i][j] == amp_zero() || a[i][j] == amp_one());
            lemma_mul_fits_zero_one(a[i][j], m[k][l]);
        }
    }
    let v = kron_v(a, m);
    assert forall|r: int, c: int| 0 <= r < v.len() && 0 <= c < v[0].len()
        implies carried(#[trigger] v[r][c], g) && amp_wf(v[r][c]) by {
        lemma_grid_split(r, a.len() as int, m.len() as int);
        lemma_grid_split(c, a[0].len() as int, m[0].len() as int);
    }
}

/// The list of `k` identity factors.
spec fn ident_list(k: nat) -> Seq<MatV> {
    Seq::new(k, |j: int| identity_v(2))
}

/// Folding identity factors stays within machine bounds and yields a matrix
/// of zeroes and ones of side 2^k.
proof fn lemma_ident_list_fits(k: nat)
    requires
        pow2(k) * pow2(k) <= usize::MAX,
    ensures
        kron_seq_fits(ident_list(k)),
        mat_wf(kron_fold_v(ident_list(k))),
        all_zero_one(kron_fold_v(ident_list(k))),
        kron_fold_v(ident_list(k)).len() == pow2(k),
        kron_fold_v(ident_list(k))[0].len() == pow2(k),
    decreases k,
{
    vstd::arithmetic::power2::lemma2_to64();
    lemma_pow2_pos(k);
    if k == 0 {
        assert(ident_list(0) =~= Seq::<MatV>::empty());
        assert(kron_fold_v(ident_list(0)) == identity_v(1));
    } else {
        let km = (k - 1) as nat;
        lemma_pow2_pos(km);
        lemma_pow2_unfold(k);
        assert(pow2(km) * pow2(km) <= pow2(k) * pow2(k)) by (nonlinear_arith)
            requires 0 < pow2(km), pow2(k) == 2 * pow2(km),
        ;
        lemma_ident_list_fits(km);
        assert(ident_list(k).drop_last() =~= ident_list(km));
        let acc = kron_fold_v(ident_list(km));
        assert(all_carried(acc, identity_v(2))) by {
            assert forall|r: int, c: int| 0 <= r < acc.len() && 0 <= c < acc[0].len()
                implies carried(#[trigger] acc[r][c], identity_v(2)) by {}
        }
        lemma_kron_carried_step(acc, identity_v(2), identity_v(2));
        assert((pow2(km) * 2) * (pow2(km) * 2) == pow2(k) * pow2(k)) by (nonlinear_arith)
            requires pow2(k) == 2 * pow2(km),
        ;
        let v = kron_v(acc, identity_v(2));
        assert(all_zero_one(v)) by {
            assert forall|r: int, c: int| 0 <= r < v.len() && 0 <= c < v[0].len()
                implies #[trigger] v[r][c] == amp_zero() || v[r][c] == amp_one() by {
                assert(carried(v[r][c], identity_v(2)));
            }
        }
    }
}

/// Folding an embedding list stays within machine bounds.
proof fn lemma_embed_fits(g: MatV, i: int, n: nat)
    requires
        mat_wf(g),
        g.len() == 2,
        g[0].len() == 2,
        0 <= i < n,
        pow2(n) * pow2(n) <= usize::MAX,
    ensures
        kron_seq_fits(embed_list(g, i, n)),
        mat_wf(kron_fold_v(embed_list(g, i, n))),
        all_carried(kron_fold_v(embed_list(g, i, n)), g),
        kron_fold_v(embed_list(g, i, n)).len() == pow2(n),
        kron_fold_v(embed_list(g, i, n))[0].len() == pow2(n),
    decreases n,
{
    lemma_pow2_pos(n);
    let km = (n - 1) as nat;
    lemma_pow2_pos(km);
    lemma_pow2_unfold(n);
    assert(pow2(km) * pow2(km) <= pow2(n) * pow2(n)) by (nonlinear_arith)
        requires 0 < pow2(km), pow2(n) == 2 * pow2(km),
    ;
    assert((pow2(km) * 2) * (pow2(km) * 2) == pow2(n) * pow2(n)) by (nonlinear_arith)
        requires pow2(n) == 2 * pow2(km),
    ;
    if i == n - 1 {
        lemma_ident_list_fits(km);
        assert(embed_list(g, i, n).drop_last() =~= ident_list(km));
        let acc = kron_fold_v(ident_list(km));
        assert(all_carried(acc, g)) by {
            assert forall|r: int, c: int| 0 <= r < acc.len() && 0 <= c < acc[0].len()
                implies carried(#[trigger] acc[r][c], g) by {}
        }
        lemma_kron_carried_step(acc, g, g);
    } else {
        lemma_embed_fits(g, i, km);
        assert(embed_list(g, i, n).drop_last() =~= embed_list(g, i, km));
        let acc = kron_fold_v(embed_list(g, i, km));
        lemma_kron_carried_step(acc, identity_v(2), g);
    }
}

/// Embeds a single-qubit gate into an `amount`-qubit register, acting on the
/// qubit at `index` and leaving every other qubit alone: the Kronecker
/// product of `amount` factors, the given gate at position `index`, 2-by-2
/// identities elsewhere.
pub fn apply_to_qubit(gate: Matrix, index: usize, amount: usize) -> (r: Matrix)
    requires
        gate.wf(),
        gate@.len() == 2,
        gate@[0].len() == 2,
        index < amount,
        pow2(amount as nat) * pow2(amount as nat) <= usize::MAX,
    ensures
        r.wf(),
        r@ == kron_fold_v(embed_list(gate@, index as int, amount as nat)),
{
    proof {
        gate.lemma_wf_view();
        lemma_embed_fits(gate@, index as int, amount as nat);
    }
    let ghost gv = gate@;
    let mut factors: Vec<Matrix> = Vec::new();
    let mut j: usize = 0;
    while j < amount - 1
        invariant
            index < amount,
            j <= amount - 1,
            factors@.len() == j,
            forall|t: int| 0 <= t < j
                ==> (#[trigger] factors@[t]).wf() && factors@[t]@ == identity_v(2),
        decreases amount - 1 - j,
    {
        factors.push(identity(2));
        j = j + 1;
    }
    factors.insert(index, gate);
    proof {
        assert(views_of(factors@) =~= embed_list(gv, index as int, amount as nat));
        assert forall|t: int| 0 <= t < factors@.len()
            implies (#[trigger] factors@[t]).wf() by {}
    }
    kronecker_product(&factors)
}


/// Applying the NOT gate to a two-row matrix stays within machine range and
/// exchanges the two rows: NOT swaps the amplitudes of the two basis states.
pub proof fn lemma_not_application(b: MatV)
    requires
        mat_wf(b),
        b.len() == 2,
    ensures
        matmul_fits(not_v(), b),
        matmul_v(not_v(), b).len() == 2,
        forall|r: int| 0 <= r < 2 ==> (#[trigger] matmul_v(not_v(), b)[r]).len() == b[0].len(),
        forall|c: int| 0 <= c < b[0].len()
            ==> #[trigger] matmul_v(not_v(), b)[0][c] == b[1][c],
        forall|c: int| 0 <= c < b[0].len()
            ==> #[trigger] matmul_v(not_v(), b)[1][c] == b[0][c],
{
    let a = not_v();
    assert forall|r: int, c: int, k: int|
        0 <= r < 2 && 0 <= c < b[0].len() && 0 <= k < 2
            implies amp_mul_fits(#[trigger] a[r][k], #[trigger] b[k][c])
                && amp_add_fits(dot_v(a[r], col_v(b, c), k), amp_mul(a[r][k], b[k][c]))
                && dot_v(a[r], col_v(b, c), 2)
                    == (if r == 0 { b[1][c] } else { b[0][c] }) by {
        let col = col_v(b, c);
        assert(col[0] == b[0][c]);
        assert(col[1] == b[1][c]);
        lemma_mul_fits_zero_one(a[r][0], b[0][c]);
        lemma_mul_fits_zero_one(a[r][1], b[1][c]);
        lemma_add_fits_zero(amp_zero());
        lemma_add_fits_zero(b[0][c]);
        lemma_add_fits_zero(b[1][c]);
        assert(dot_v(a[r], col, 0) == amp_zero());
        if r == 0 {
            assert(amp_mul(a[r][0], col[0]) == amp_zero());
            assert(dot_v(a[r], col, 1) == amp_add(amp_zero(), amp_zero()));
            assert(dot_v(a[r], col, 1) == amp_zero());
            assert(amp_mul(a[r][1], col[1]) == b[1][c]);
            assert(dot_v(a[r], col, 2) == amp_add(amp_zero(), b[1][c]));
        } else {
            assert(amp_mul(a[r][0], col[0]) == b[0][c]);
            assert(dot_v(a[r], col, 1) == amp_add(amp_zero(), b[0][c]));
            assert(dot_v(a[r], col, 1) == b[0][c]);
            assert(amp_mul(a[r][1], col[1]) == amp_zero());
            assert(dot_v(a[r], col, 2) == amp_add(b[0][c], amp_zero()));
        }
    }
    assert forall|c: int| 0 <= c < b[0].len()
        implies #[trigger] matmul_v(a, b)[0][c] == b[1][c]
            && #[trigger] matmul_v(a, b)[1][c] == b[0][c] by {
        assert(dot_v(a[0], col_v(b, c), 2) == b[1][c]);
        assert(dot_v(a[1], col_v(b, c), 2) == b[0][c]);
    }
}


/// The index map of the controlled-NOT on an n-qubit register: the target
/// bit flips exactly when the control bit is one. Qubit positions count from
/// the most significant bit, as everywhere in this crate.
pub open spec fn cnot_map(c: int, n: nat, control: nat, target: nat) -> int {
    if bit_of(c, (n - 1 - control) as nat) == 1 {
        flipb(c, (n - 1 - target) as nat)
    } else {
        c
    }
}

/// Computes pow2(k) as a machine word.
fn pow2_usize(k: usize) -> (r: usize)
    requires
        pow2(k as nat) <= usize::MAX,
    ensures
        r == pow2(k as nat),
{
    proof {
        vstd::arithmetic::power2::lemma2_to64();
    }
    let mut r: usize = 1;
    let mut j: usize = 0;
    while j < k
        invariant
            j <= k,
            r == pow2(j as nat),
            pow2(k as nat) <= usize::MAX,
        decreases k - j,
    {
        proof {
            lemma_pow2_unfold((j + 1) as nat);
            if j + 1 < k {
                vstd::arithmetic::power2::lemma_pow2_strictly_increases(
                    (j + 1) as nat, k as nat);
            }
        }
        r = r * 2;
        j = j + 1;
    }
    r
}

/// Builds the permutation operator of the controlled-NOT on `qubits` qubits:
/// for each basis state, the target bit flips exactly when the control bit
/// is one. The result carries a single one in every column, in the row the
/// map sends the column to.
pub fn control_not(control: usize, target: usize, qubits: usize) -> (m: Matrix)
    requires
        control < qubits,
        target < qubits,
        control != target,
        pow2(qubits as nat) * pow2(qubits as nat) <= usize::MAX,
    ensures
        m.wf(),
        is_perm(
            m@,
            pow2(qubits as nat),
            |c: int| cnot_map(c, qubits as nat, control as nat, target as nat),
        ),
{
    let ghost n = qubits as nat;
    let ghost pc_pos = (qubits - 1 - control) as nat;
    let ghost pt_pos = (qubits - 1 - target) as nat;
    proof {
        lemma_pow2_pos(n);
        assert(pow2(n) * 1 <= pow2(n) * pow2(n)) by (nonlinear_arith)
            requires 1 <= pow2(n),
        ;
        if pc_pos < n {
            vstd::arithmetic::power2::lemma_pow2_strictly_increases(pc_pos, n);
        }
        if pt_pos < n {
            vstd::arithmetic::power2::lemma_pow2_strictly_increases(pt_pos, n);
        }
    }
    let size = pow2_usize(qubits);
    let pc = pow2_usize(qubits - 1 - control);
    let pt = pow2_usize(qubits - 1 - target);
    proof {
        lemma_pow2_pos(pc_pos);
        lemma_pow2_pos(pt_pos);
    }
    let ghost f = |c: int| cnot_map(c, n, control as nat, target as nat);
    let mut map: Vec<usize> = Vec::new();
    let mut c: usize = 0;
    while c < size
        invariant
            c <= size,
            size == pow2(n),
            pc == pow2(pc_pos),
            pt == pow2(pt_pos),
            pc_pos == n - 1 - control,
            pt_pos == n - 1 - target,
            control < qubits,
            target < qubits,
            n == qubits as nat,
            f == (|c: int| cnot_map(c, n, control as nat, target as nat)),
            0 < pc,
            0 < pt,
            map@.len() == c,
            forall|t: int| 0 <= t < c
                ==> #[trigger] map@[t] == f(t) && map@[t] < size,
        decreases size - c,
    {
        proof {
            lemma_flipb_range(c as int, pt_pos, n);
            lemma_bit_parts(c as int, pt_pos);
            lemma_bit_parts(c as int, pc_pos);
        }
        let cb = (c / pc) % 2;
        let out = if cb == 1 {
            let tb = (c / pt) % 2;
            if tb == 1 {
                c - pt
            } else {
                c + pt
            }
        } else {
            c
        };
        proof {
            assert(out == f(c as int));
        }
        map.push(out);
        c = c + 1;
    }
    let mut data: Vec<Amp> = Vec::new();
    let mut r: usize = 0;
    while r < size
        invariant
            r <= size,
            size == pow2(n),
            size * size <= usize::MAX,
            map@.len() == size,
            forall|t: int| 0 <= t < size
                ==> #[trigger] map@[t] == f(t) && map@[t] < size,
            data@.len() == r * size,
            forall|k: int| 0 <= k < data@.len()
                ==> #[trigger] data@[k]@
                    == (if k / (size as int) == map@[k % (size as int)] as int {
                        amp_one()
                    } else {
                        amp_zero()
                    }),
        decreases size - r,
    {
        let mut cc: usize = 0;
        while cc < size
            invariant
                r < size,
                cc <= size,
                size == pow2(n),
                size * size <= usize::MAX,
                map@.len() == size,
                forall|t: int| 0 <= t < size
                    ==> #[trigger] map@[t] == f(t) && map@[t] < size,
                data@.len() == r * size + cc,
                forall|k: int| 0 <= k < data@.len()
                    ==> #[trigger] data@[k]@
                        == (if k / (size as int) == map@[k % (size as int)] as int {
                            amp_one()
                        } else {
                            amp_zero()
                        }),
            decreases size - cc,
        {
            proof {
                lemma_row_major(r as int, cc as int, size as int, size as int);
                vstd::arithmetic::div_mod::lemma_fundamental_div_mod_converse(
                    r * size + cc, size as int, r as int, cc as int);
            }
            if map[cc] == r {
                data.push(Amp::one());
            } else {
                data.push(Amp::zero());
            }
            cc = cc + 1;
        }
        proof {
            assert((r + 1) * (size as int) == r * (size as int) + size) by (nonlinear_arith);
        }
        r = r + 1;
    }
    let m = Matrix::from_rows(size, size, data);
    proof {
        assert forall|i: int, j: int| 0 <= i < size && 0 <= j < size
            implies #[trigger] m@[i][j]
                == (if i == f(j) { amp_one() } else { amp_zero() }) by {
            lemma_row_major(i, j, size as int, size as int);
            vstd::arithmetic::div_mod::lemma_fundamental_div_mod_converse(
                i * (size as int) + j, size as int, i, j);
        }
        assert forall|j: int| 0 <= j < size implies 0 <= #[trigger] f(j) < size by {
            assert(map@[j] == f(j) && map@[j] < size);
        }
        assert(is_perm(m@, pow2(n), f));
    }
    m
}


} // verus!
