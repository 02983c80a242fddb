//! Gates of the circuit graph.
//!
//! A gate is one of a closed set of variants behind a single interface: a
//! parametrized source that emits a prepared one-qubit state, a terminal
//! sink, and the fixed NOT unitary. Each declares how many inputs it takes
//! and how many outputs it yields, and transforms a sequence of state
//! matrices into a sequence of state matrices. A call with the wrong number
//! of inputs yields an empty sequence rather than failing.

use vstd::prelude::*;
use crate::amp::{Amp, amp_one, amp_zero};
use crate::matrix::{Matrix, MatV, matmul, matmul_v, not, not_v, lemma_not_application};

verus! {

/// The one-qubit state a fresh source gate emits: basis state 0 with unit
/// amplitude.
pub open spec fn input_default_v() -> MatV {
    seq![seq![amp_one()], seq![amp_zero()]]
}

/// A gate of the circuit.
pub enum Gate {
    /// A source: no inputs, one output, the prepared one-qubit state.
    Input { state: Matrix },
    /// A terminal sink: one input, no outputs.
    Output,
    /// The NOT gate: one input, one output, the input with its two
    /// amplitudes exchanged.
    Not,
}

impl Gate {
    /// The prepared state of a source is a well-formed one-qubit column.
    pub open spec fn wf(self) -> bool {
        match self {
            Gate::Input { state } => state.wf() && state@.len() == 2 && state@[0].len() == 1,
            Gate::Output => true,
            Gate::Not => true,
        }
    }

    /// Declared input arity.
    pub open spec fn max_in_spec(self) -> u32 {
        match self {
            Gate::Input { .. } => 0,
            Gate::Output => 1,
            Gate::Not => 1,
        }
    }

    /// Declared output arity.
    pub open spec fn max_out_spec(self) -> u32 {
        match self {
            Gate::Input { .. } => 1,
            Gate::Output => 0,
            Gate::Not => 1,
        }
    }

    /// How many inputs this gate expects.
    pub fn max_in(&self) -> (r: u32)
        ensures
            r == self.max_in_spec(),
    {
        match self {
            Gate::Input { .. } => 0,
            Gate::Output => 1,
            Gate::Not => 1,
        }
    }

    /// How many outputs this gate yields.
    pub fn max_out(&self) -> (r: u32)
        ensures
            r == self.max_out_spec(),
    {
        match self {
            Gate::Input { .. } => 1,
            Gate::Output => 0,
            Gate::Not => 1,
        }
    }

    /// Transforms input states into output states. A call whose input count
    /// differs from the declared arity yields no outputs; it never fails.
    pub fn process(&self, inputs: &Vec<Matrix>) -> (outputs: Vec<Matrix>)
        requires
            self.wf(),
            forall|i: int| 0 <= i < inputs@.len() ==> (#[trigger] inputs@[i]).wf(),
            self is Not && inputs@.len() == 1 ==> inputs@[0]@.len() == 2,
        ensures
            inputs@.len() != self.max_in_spec() ==> outputs@.len() == 0,
            forall|i: int| 0 <= i < outputs@.len() ==> (#[trigger] outputs@[i]).wf(),
            (self matches Gate::Input { state }
                ==> (inputs@.len() == 0 ==> outputs@.len() == 1 && outputs@[0]@ == state@)),
            self is Output ==> outputs@.len() == 0,
            self is Not && inputs@.len() == 1 ==> {
                &&& outputs@.len() == 1
                &&& outputs@[0]@ == matmul_v(not_v(), inputs@[0]@)
                &&& outputs@[0]@.len() == 2
                &&& forall|c: int| 0 <= c < inputs@[0]@[0].len()
                    ==> outputs@[0]@[0][c] == inputs@[0]@[1][c]
                        && outputs@[0]@[1][c] == inputs@[0]@[0][c]
            },
    {
        match self {
            Gate::Input { state } => {
                if inputs.len() == 0 {
                    let mut outputs: Vec<Matrix> = Vec::new();
                    outputs.push(state.duplicate());
                    outputs
                } else {
                    Vec::new()
                }
            },
            Gate::Output => Vec::new(),
            Gate::Not => {
                if inputs.len() == 1 {
                    proof {
                        inputs@[0].lemma_wf_view();
                        lemma_not_application(inputs@[0]@);
                    }
                    let g = not();
                    let out = matmul(&g, &inputs[0]);
                    proof {
                        assert(out@ == matmul_v(not_v(), inputs@[0]@));
                        assert(out@.len() == 2);
                        assert forall|c: int| 0 <= c < inputs@[0]@[0].len()
                            implies out@[0][c] == inputs@[0]@[1][c]
                                && out@[1][c] == inputs@[0]@[0][c] by {
                            assert(matmul_v(not_v(), inputs@[0]@)[0][c] == inputs@[0]@[1][c]);
                            assert(matmul_v(not_v(), inputs@[0]@)[1][c] == inputs@[0]@[0][c]);
                        }
                    }
                    let mut outputs: Vec<Matrix> = Vec::new();
                    outputs.push(out);
                    outputs
                } else {
                    Vec::new()
                }
            },
        }
    }
}

/// The parametrized source gate.
pub struct Input;

impl Input {
    /// A fresh source, prepared in the basis state 0.
    pub fn new() -> (g: Gate)
        ensures
            g.wf(),
            (g matches Gate::Input { state } && state@ == input_default_v()),
            g.max_in_spec() == 0,
            g.max_out_spec() == 1,
    {
        let data = vec![Amp::one(), Amp::zero()];
        let m = Matrix::from_rows(2, 1, data);
        proof {
            assert(m@ =~~= input_default_v());
        }
        Gate::Input { state: m }
    }
}

/// The terminal sink gate.
pub struct Output;

impl Output {
    /// A fresh sink.
    pub fn new() -> (g: Gate)
        ensures
            g == Gate::Output,
            g.wf(),
    {
        Gate::Output
    }
}

/// The NOT gate.
pub struct Not;

impl Not {
    /// A fresh NOT gate.
    pub fn new() -> (g: Gate)
        ensures
            g == Gate::Not,
            g.wf(),
    {
        Gate::Not
    }
}

} // verus!
