//! A single-qubit state vector.

use vstd::prelude::*;
use crate::amp::{Amp, AmpParts, amp_wf, amp_one, amp_zero};
use crate::matrix::{Matrix, MatV};

verus! {

/// The 2-by-1 column view with upper amplitude `a` and lower amplitude `b`.
pub open spec fn qubit_v(a: AmpParts, b: AmpParts) -> MatV {
    seq![seq![a], seq![b]]
}

/// A one-qubit state: a 2-by-1 column vector of amplitudes. The upper entry
/// is the amplitude of the basis state 0, the lower that of 1.
pub struct Qubit {
    q: Matrix,
}

impl View for Qubit {
    type V = MatV;

    closed spec fn view(&self) -> MatV {
        self.q@
    }
}

impl Qubit {
    /// The underlying matrix is a well-formed 2-by-1 column.
    pub closed spec fn wf(self) -> bool {
        self.q.wf() && self.q@.len() == 2 && self.q@[0].len() == 1
    }

    /// Builds the state with the two given amplitudes.
    pub fn new(a: Amp, b: Amp) -> (r: Qubit)
        requires
            amp_wf(a@),
            amp_wf(b@),
        ensures
            r.wf(),
            r@ == qubit_v(a@, b@),
    {
        let data = vec![a, b];
        let m = Matrix::from_rows(2, 1, data);
        proof {
            assert(m@ =~~= qubit_v(a@, b@));
        }
        Qubit { q: m }
    }

    /// The basis state 0 with unit amplitude.
    pub fn one() -> (r: Qubit)
        ensures
            r.wf(),
            r@ == qubit_v(amp_one(), amp_zero()),
    {
        Qubit::new(Amp::one(), Amp::zero())
    }

    /// The state as a matrix, ready for the operator algebra.
    pub fn mat(&self) -> (m: &Matrix)
        requires
            self.wf(),
        ensures
            m.wf(),
            m@ == self@,
            m@.len() == 2,
            m@[0].len() == 1,
    {
        &self.q
    }
}

} // verus!
