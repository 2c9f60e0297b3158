//! A register with its named gates: the entry point for algorithms.
use vstd::prelude::*;
use crate::bits::{MAX_QUBITS, mask};
use crate::error::QuantumError;
use crate::gate::Gate;
use crate::measure::{walk_reaches, probabilities_of};
use crate::state::{State, Backend, basis, gate_applied, applied_to_all, flipped, swapped};

verus! {

/// The matrices of the named gates that need arithmetic, in the amplitude
/// type of a simulator (NOT is a permutation and needs none).
#[derive(Clone, Copy, Debug)]
pub struct GateSet<A> {
    pub h: Gate<A>,
    pub y: Gate<A>,
    pub z: Gate<A>,
}

/// A register together with its gate matrices and its arithmetic:
/// `lin(p, x, q, y)` is `p*x + q*y` in the amplitude type.
pub struct Simulator<A, L> {
    state: State<A>,
    gates: GateSet<A>,
    lin: L,
}

impl<A: Copy, L: Fn(A, A, A, A) -> A> Simulator<A, L> {
    pub closed spec fn spec_state(&self) -> State<A> {
        self.state
    }

    pub closed spec fn spec_gates(&self) -> GateSet<A> {
        self.gates
    }

    pub closed spec fn spec_lin(&self) -> L {
        self.lin
    }

    pub open spec fn wf(&self) -> bool {
        &&& self.spec_state().wf()
        &&& forall|p: A, x: A, q: A, y: A| call_requires(self.spec_lin(), (p, x, q, y))
    }

    /// The amplitudes of the register.
    pub open spec fn amplitudes(&self) -> Seq<A> {
        self.spec_state().amplitudes()
    }

    /// After a step, the simulator has the same gates, arithmetic and width.
    pub open spec fn same_setup(&self, other: &Self) -> bool {
        &&& other.wf()
        &&& other.spec_gates() == self.spec_gates()
        &&& other.spec_lin() == self.spec_lin()
        &&& other.spec_state().qubits() == self.spec_state().qubits()
        &&& other.spec_state().spec_backend() == self.spec_state().spec_backend()
    }

    proof fn lemma_lin_kept(&self, before: &Self)
        requires
            before.wf(),
            self.spec_lin() == before.spec_lin(),
        ensures
            forall|p: A, x: A, q: A, y: A| call_requires(self.spec_lin(), (p, x, q, y)),
    {
        assert forall|p: A, x: A, q: A, y: A| call_requires(self.spec_lin(), (p, x, q, y)) by {
            assert(call_requires(before.spec_lin(), (p, x, q, y)));
        }
    }

    /// A simulator of `num_qubits` qubits, all 0, whose register applies
    /// its gates the way `backend` does.
    pub fn new_on(num_qubits: u8, backend: Backend, zero: A, one: A, gates: GateSet<A>, lin: L) -> (r:
        Result<Simulator<A, L>, QuantumError>)
        requires
            forall|p: A, x: A, q: A, y: A| call_requires(lin, (p, x, q, y)),
        ensures
            r is Ok <==> num_qubits as u32 <= MAX_QUBITS,
            r matches Ok(s) ==> {
                &&& s.wf()
                &&& s.spec_gates() == gates
                &&& s.spec_lin() == lin
                &&& s.spec_state().qubits() == num_qubits as u32
                &&& s.spec_state().spec_backend() == backend
                &&& s.amplitudes() == basis(num_qubits as u32, 0, zero, one)
            },
            r is Err ==> r == Err::<Simulator<A, L>, QuantumError>(QuantumError::ResourceExhausted),
    {
        match State::new_on(num_qubits as u32, backend, zero, one) {
            Ok(state) => Ok(Simulator { state, gates, lin }),
            Err(e) => Err(e),
        }
    }

    /// A simulator of `num_qubits` qubits, all 0, on the sequential backend.
    pub fn new(num_qubits: u8, zero: A, one: A, gates: GateSet<A>, lin: L) -> (r: Result<
        Simulator<A, L>,
        QuantumError,
    >)
        requires
            forall|p: A, x: A, q: A, y: A| call_requires(lin, (p, x, q, y)),
        ensures
            r is Ok <==> num_qubits as u32 <= MAX_QUBITS,
            r matches Ok(s) ==> {
                &&& s.wf()
                &&& s.spec_gates() == gates
                &&& s.spec_lin() == lin
                &&& s.spec_state().qubits() == num_qubits as u32
                &&& s.spec_state().spec_backend() == Backend::Sequential
                &&& s.amplitudes() == basis(num_qubits as u32, 0, zero, one)
            },
            r is Err ==> r == Err::<Simulator<A, L>, QuantumError>(QuantumError::ResourceExhausted),
    {
        Simulator::new_on(num_qubits, Backend::Sequential, zero, one, gates, lin)
    }

    /// A simulator of `num_qubits` qubits, all 0, on the work-item backend:
    /// one work item per pair of amplitudes, the decomposition an OpenCL
    /// device runs.
    pub fn new_opencl(num_qubits: u8, zero: A, one: A, gates: GateSet<A>, lin: L) -> (r: Result<
        Simulator<A, L>,
        QuantumError,
    >)
        requires
            forall|p: A, x: A, q: A, y: A| call_requires(lin, (p, x, q, y)),
        ensures
            r is Ok <==> num_qubits as u32 <= MAX_QUBITS,
            r matches Ok(s) ==> {
                &&& s.wf()
                &&& s.spec_gates() == gates
                &&& s.spec_lin() == lin
                &&& s.spec_state().qubits() == num_qubits as u32
                &&& s.spec_state().spec_backend() == Backend::WorkItems
                &&& s.amplitudes() == basis(num_qubits as u32, 0, zero, one)
            },
            r is Err ==> r == Err::<Simulator<A, L>, QuantumError>(QuantumError::ResourceExhausted),
    {
        Simulator::new_on(num_qubits, Backend::WorkItems, zero, one, gates, lin)
    }

    /// The register.
    pub fn state(&self) -> (r: &State<A>)
        ensures
            *r == self.spec_state(),
    {
        &self.state
    }

    /// The number of qubits.
    pub fn num_qubits(&self) -> (r: u8)
        requires
            self.wf(),
        ensures
            r as u32 == self.spec_state().qubits(),
    {
        self.state.num_qubits() as u8
    }

    /// Applies `gate` to qubit `target`.
    pub fn apply_gate(&mut self, gate: Gate<A>, target: u8) -> (r: Result<(), QuantumError>)
        requires
            old(self).wf(),
        ensures
            old(self).same_setup(final(self)),
            r is Ok <==> (target as u32) < old(self).spec_state().qubits(),
            r is Ok ==> gate_applied(
                old(self).amplitudes(),
                target as u32,
                0,
                gate,
                old(self).spec_lin(),
                final(self).amplitudes(),
            ),
            r is Err ==> r == Err::<(), QuantumError>(QuantumError::InvalidQubitIndex) && final(self).amplitudes()
                == old(self).amplitudes(),
    {
        let r = self.state.apply_gate(target as u32, gate, &self.lin);
        proof {
            self.lemma_lin_kept(old(self));
        }
        r
    }

    /// Applies `gate` to every qubit in turn, from qubit 0 upwards.
    pub fn apply_all(&mut self, gate: Gate<A>) -> (r: Result<(), QuantumError>)
        requires
            old(self).wf(),
        ensures
            old(self).same_setup(final(self)),
            r is Ok,
            applied_to_all(
                old(self).amplitudes(),
                old(self).spec_state().qubits(),
                gate,
                old(self).spec_lin(),
                final(self).amplitudes(),
            ),
    {
        self.state.apply_all(gate, &self.lin);
        proof {
            self.lemma_lin_kept(old(self));
        }
        Ok(())
    }

    /// The NOT gate on qubit `target`.
    pub fn x(&mut self, target: u8) -> (r: Result<(), QuantumError>)
        requires
            old(self).wf(),
        ensures
            old(self).same_setup(final(self)),
            r is Ok <==> (target as u32) < old(self).spec_state().qubits(),
            r is Ok ==> final(self).amplitudes() == flipped(old(self).amplitudes(), target as u32, 0),
            r is Err ==> r == Err::<(), QuantumError>(QuantumError::InvalidQubitIndex) && final(self).amplitudes()
                == old(self).amplitudes(),
    {
        let r = self.state.x(target as u32);
        proof {
            self.lemma_lin_kept(old(self));
        }
        r
    }

    /// The Pauli-Y gate on qubit `target`.
    pub fn y(&mut self, target: u8) -> (r: Result<(), QuantumError>)
        requires
            old(self).wf(),
        ensures
            old(self).same_setup(final(self)),
            r is Ok <==> (target as u32) < old(self).spec_state().qubits(),
            r is Ok ==> gate_applied(
                old(self).amplitudes(),
                target as u32,
                0,
                old(self).spec_gates().y,
                old(self).spec_lin(),
                final(self).amplitudes(),
            ),
            r is Err ==> r == Err::<(), QuantumError>(QuantumError::InvalidQubitIndex) && final(self).amplitudes()
                == old(self).amplitudes(),
    {
        let g = self.gates.y;
        let r = self.state.apply_gate(target as u32, g, &self.lin);
        proof {
            self.lemma_lin_kept(old(self));
        }
        r
    }

    /// The Pauli-Z gate on qubit `target`.
    pub fn z(&mut self, target: u8) -> (r: Result<(), QuantumError>)
        requires
            old(self).wf(),
        ensures
            old(self).same_setup(final(self)),
            r is Ok <==> (target as u32) < old(self).spec_state().qubits(),
            r is Ok ==> gate_applied(
                old(self).amplitudes(),
                target as u32,
                0,
                old(self).spec_gates().z,
                old(self).spec_lin(),
                final(self).amplitudes(),
            ),
            r is Err ==> r == Err::<(), QuantumError>(QuantumError::InvalidQubitIndex) && final(self).amplitudes()
                == old(self).amplitudes(),
    {
        let g = self.gates.z;
        let r = self.state.apply_gate(target as u32, g, &self.lin);
        proof {
            self.lemma_lin_kept(old(self));
        }
        r
    }

    /// The Hadamard gate on qubit `target`.
    pub fn h(&mut self, target: u8) -> (r: Result<(), QuantumError>)
        requires
            old(self).wf(),
        ensures
            old(self).same_setup(final(self)),
            r is Ok <==> (target as u32) < old(self).spec_state().qubits(),
            r is Ok ==> gate_applied(
                old(self).amplitudes(),
                target as u32,
                0,
                old(self).spec_gates().h,
                old(self).spec_lin(),
                final(self).amplitudes(),
            ),
            r is Err ==> r == Err::<(), QuantumError>(QuantumError::InvalidQubitIndex) && final(self).amplitudes()
                == old(self).amplitudes(),
    {
        let g = self.gates.h;
        let r = self.state.apply_gate(target as u32, g, &self.lin);
        proof {
            self.lemma_lin_kept(old(self));
        }
        r
    }

    /// The controlled NOT gate: flips `target` where `control` is 1.
    pub fn cx(&mut self, control: u8, target: u8) -> (r: Result<(), QuantumError>)
        requires
            old(self).wf(),
        ensures
            old(self).same_setup(final(self)),
            r is Ok <==> (control as u32) < old(self).spec_state().qubits() && (target as u32)
                < old(self).spec_state().qubits() && control != target,
            r is Ok ==> final(self).amplitudes() == flipped(
                old(self).amplitudes(),
                target as u32,
                mask(control as u32),
            ),
            r is Err ==> r == Err::<(), QuantumError>(QuantumError::InvalidQubitIndex) && final(self).amplitudes()
                == old(self).amplitudes(),
    {
        let r = self.state.cx(control as u32, target as u32);
        proof {
            self.lemma_lin_kept(old(self));
        }
        r
    }

    /// The Toffoli gate: flips `target` where both controls are 1.
    pub fn toffoli(&mut self, control1: u8, control2: u8, target: u8) -> (r: Result<(), QuantumError>)
        requires
            old(self).wf(),
        ensures
            old(self).same_setup(final(self)),
            r is Ok <==> (control1 as u32) < old(self).spec_state().qubits() && (control2 as u32)
                < old(self).spec_state().qubits() && (target as u32) < old(self).spec_state().qubits()
                && control1 != target && control2 != target,
            r is Ok ==> final(self).amplitudes() == flipped(
                old(self).amplitudes(),
                target as u32,
                mask(control1 as u32) | mask(control2 as u32),
            ),
            r is Err ==> r == Err::<(), QuantumError>(QuantumError::InvalidQubitIndex) && final(self).amplitudes()
                == old(self).amplitudes(),
    {
        let r = self.state.toffoli(control1 as u32, control2 as u32, target as u32);
        proof {
            self.lemma_lin_kept(old(self));
        }
        r
    }

    /// Exchanges the values of qubits `first` and `second`.
    pub fn swap(&mut self, first: u8, second: u8) -> (r: Result<(), QuantumError>)
        requires
            old(self).wf(),
        ensures
            old(self).same_setup(final(self)),
            r is Ok <==> (first as u32) < old(self).spec_state().qubits() && (second as u32)
                < old(self).spec_state().qubits(),
            r is Ok ==> final(self).amplitudes() == swapped(old(self).amplitudes(), first as u32, second as u32),
            r is Err ==> r == Err::<(), QuantumError>(QuantumError::InvalidQubitIndex) && final(self).amplitudes()
                == old(self).amplitudes(),
    {
        let r = self.state.swap(first as u32, second as u32);
        proof {
            self.lemma_lin_kept(old(self));
        }
        r
    }

    /// Measures the whole register once (see `State::measure`).
    pub fn measure<P: Copy, K: Copy, N: Fn(A) -> P, S: Fn(K, P) -> (K, bool)>(
        &self,
        key: K,
        norm: &N,
        step: &S,
    ) -> (r: usize)
        requires
            self.wf(),
            forall|x: A| call_requires(*norm, (x,)),
            forall|k: K, p: P| call_requires(*step, (k, p)),
        ensures
            r < self.amplitudes().len(),
            exists|probs: Seq<P>|
                probabilities_of(self.amplitudes(), *norm, probs) && walk_reaches(probs, key, *step, r as int),
    {
        self.state.measure(key, norm, step)
    }
}

} // verus!
