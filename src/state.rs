//! The amplitude store, and gate application on it.
use vstd::prelude::*;
use crate::bits::{MAX_QUBITS, mask, dim, has_bit, flip, controls_set, lemma_flip_in_range,
    lemma_flip_keeps_other_bits, lemma_dim, swap_index, lemma_swap_index, lemma_dim_grows,
    work_item, lemma_work_items, lemma_work_item_of};
use crate::gate::Gate;
use crate::error::QuantumError;
use crate::measure::{Counts, sample_index, sample_many, walk_reaches, probabilities_of, draws_from,
    occurrences, prefixes};
use vstd::string::StringSliceAdditionalSpecFns;
use crate::bitstring::{digits, value_of, valid_bit_string, parse_bit_string};

verus! {

/// What one amplitude of the result of a (controlled) gate application is.
///
/// `lin(p, x, q, y)` is the caller's `p*x + q*y`. Where the qubits of `cmask`
/// are all 1, the pair of amplitudes that differ only in qubit `t` is
/// recombined by `g`; elsewhere the amplitude is kept.
pub open spec fn gate_image<A, L: Fn(A, A, A, A) -> A>(
    old: Seq<A>,
    t: u32,
    cmask: usize,
    g: Gate<A>,
    lin: L,
    k: usize,
    v: A,
) -> bool {
    if !controls_set(k, cmask) {
        v == old[k as int]
    } else if !has_bit(k, t) {
        call_ensures(lin, (g.a, old[k as int], g.b, old[flip(k, t) as int]), v)
    } else {
        call_ensures(lin, (g.c, old[flip(k, t) as int], g.d, old[k as int]), v)
    }
}

/// `new` is `old` with `g` applied to qubit `t` under the controls `cmask`.
pub open spec fn gate_applied<A, L: Fn(A, A, A, A) -> A>(
    old: Seq<A>,
    t: u32,
    cmask: usize,
    g: Gate<A>,
    lin: L,
    new: Seq<A>,
) -> bool {
    &&& new.len() == old.len()
    &&& forall|k: usize| k < new.len() ==> gate_image(old, t, cmask, g, lin, k, #[trigger] new[k as int])
}

/// The amplitudes after qubit `t` is flipped wherever the qubits of `cmask` are 1.
pub open spec fn flipped<A>(old: Seq<A>, t: u32, cmask: usize) -> Seq<A> {
    Seq::new(
        old.len(),
        |k: int|
            if controls_set(k as usize, cmask) {
                old[flip(k as usize, t) as int]
            } else {
                old[k]
            },
    )
}

/// Applies a gate to every pair of amplitudes, reading `old` and building a
/// new buffer.
fn combine_pairs<A: Copy, L: Fn(A, A, A, A) -> A>(
    old: &Vec<A>,
    n: u32,
    t: u32,
    cmask: usize,
    g: Gate<A>,
    lin: &L,
) -> (r: Vec<A>)
    requires
        n <= MAX_QUBITS,
        t < n,
        old.len() == dim(n),
        cmask & mask(t) == 0,
        forall|p: A, x: A, q: A, y: A| call_requires(*lin, (p, x, q, y)),
    ensures
        gate_applied(old@, t, cmask, g, *lin, r@),
{
    let m: usize = 1usize << t;
    let mut r: Vec<A> = Vec::with_capacity(old.len());
    let mut k: usize = 0;
    while k < old.len()
        invariant
            n <= MAX_QUBITS,
            t < n,
            old.len() == dim(n),
            m == mask(t),
            k <= old.len(),
            r.len() == k,
            forall|p: A, x: A, q: A, y: A| call_requires(*lin, (p, x, q, y)),
            forall|i: usize| i < k ==> gate_image(old@, t, cmask, g, *lin, i, #[trigger] r@[i as int]),
        decreases old.len() - k,
    {
        proof {
            lemma_flip_in_range(k, t, n);
        }
        let v = if k & cmask != cmask {
            old[k]
        } else {
            let j = k ^ m;
            if k & m == 0 {
                lin(g.a, old[k], g.b, old[j])
            } else {
                lin(g.c, old[j], g.d, old[k])
            }
        };
        r.push(v);
        k += 1;
    }
    r
}

/// Applies a gate as independent work items, one per pair of amplitudes
/// that differ only in qubit `t`, each reading the old buffer and writing
/// both amplitudes of its pair into the new one: the decomposition a
/// parallel device runs, one lane per item. No two items write the same
/// amplitude, so their order does not matter.
fn combine_work_items<A: Copy, L: Fn(A, A, A, A) -> A>(
    old: &Vec<A>,
    n: u32,
    t: u32,
    cmask: usize,
    g: Gate<A>,
    lin: &L,
) -> (r: Vec<A>)
    requires
        n <= MAX_QUBITS,
        t < n,
        old.len() == dim(n),
        cmask & mask(t) == 0,
        forall|p: A, x: A, q: A, y: A| call_requires(*lin, (p, x, q, y)),
    ensures
        gate_applied(old@, t, cmask, g, *lin, r@),
{
    let m: usize = 1usize << t;
    let mut r: Vec<A> = Vec::with_capacity(old.len());
    let mut k: usize = 0;
    while k < old.len()
        invariant
            k <= old.len(),
            r.len() == k,
            forall|i: int| 0 <= i < k ==> #[trigger] r@[i] == old@[i],
        decreases old.len() - k,
    {
        r.push(old[k]);
        k += 1;
    }
    let half: usize = old.len() >> 1u32;
    proof {
        let u = (n - 1) as u32;
        assert((1usize << n) >> 1u32 == (1usize << u)) by (bit_vector)
            requires
                n <= 31,
                t < n,
                u == n - 1,
        ;
        assert((1usize << t) > 0) by (bit_vector)
            requires
                t < 31,
        ;
    }
    let mut w: usize = 0;
    while w < half
        invariant
            n <= MAX_QUBITS,
            t < n,
            old.len() == dim(n),
            half == dim((n - 1) as u32),
            m == mask(t),
            m > 0,
            cmask & mask(t) == 0,
            forall|p: A, x: A, q: A, y: A| call_requires(*lin, (p, x, q, y)),
            w <= half,
            r.len() == old.len(),
            forall|k: usize|
                k < old.len() ==> if work_item(k, t) < w {
                    gate_image(old@, t, cmask, g, *lin, k, #[trigger] r@[k as int])
                } else {
                    r@[k as int] == old@[k as int]
                },
        decreases half - w,
    {
        let i: usize = ((w >> t) << (t + 1)) | (w & (m - 1));
        proof {
            lemma_work_items(w, t, n);
            lemma_flip_in_range(i, t, n);
            lemma_flip_keeps_other_bits(i, t, cmask);
            assert(i ^ m == i | m) by (bit_vector)
                requires
                    i & m == 0,
            ;
        }
        let j: usize = i | m;
        if i & cmask == cmask {
            let x = old[i];
            let y = old[j];
            let u = lin(g.a, x, g.b, y);
            let v = lin(g.c, x, g.d, y);
            r.set(i, u);
            r.set(j, v);
        }
        proof {
            assert forall|k: usize|
                k < old.len() implies if work_item(k, t) < w + 1 {
                gate_image(old@, t, cmask, g, *lin, k, #[trigger] r@[k as int])
            } else {
                r@[k as int] == old@[k as int]
            } by {
                lemma_work_item_of(k, t, n);
                if work_item(k, t) == w {
                    lemma_flip_in_range(i, t, n);
                }
            }
        }
        w += 1;
    }
    proof {
        assert forall|k: usize| k < r.len() implies gate_image(old@, t, cmask, g, *lin, k, #[trigger] r@[k as int]) by {
            lemma_work_item_of(k, t, n);
        }
    }
    r
}

/// The amplitudes after qubits `a` and `b` exchange their values.
pub open spec fn swapped<A>(old: Seq<A>, a: u32, b: u32) -> Seq<A> {
    Seq::new(old.len(), |k: int| old[swap_index(k as usize, a, b) as int])
}

/// Flips qubit `t` wherever the qubits of `cmask` are 1: a permutation of the
/// amplitudes, so no arithmetic is involved.
fn flip_pairs<A: Copy>(old: &Vec<A>, n: u32, t: u32, cmask: usize) -> (r: Vec<A>)
    requires
        n <= MAX_QUBITS,
        t < n,
        old.len() == dim(n),
    ensures
        r@ == flipped(old@, t, cmask),
{
    let m: usize = 1usize << t;
    let mut r: Vec<A> = Vec::with_capacity(old.len());
    let mut k: usize = 0;
    while k < old.len()
        invariant
            n <= MAX_QUBITS,
            t < n,
            old.len() == dim(n),
            m == mask(t),
            k <= old.len(),
            r.len() == k,
            forall|i: int| 0 <= i < k ==> #[trigger] r@[i] == flipped(old@, t, cmask)[i],
        decreases old.len() - k,
    {
        proof {
            lemma_flip_in_range(k, t, n);
        }
        let v = if k & cmask == cmask {
            old[k ^ m]
        } else {
            old[k]
        };
        r.push(v);
        k += 1;
    }
    assert(r@ =~= flipped(old@, t, cmask));
    r
}

/// Exchanges the values of qubits `a` and `b` in every basis state.
fn swap_pairs<A: Copy>(old: &Vec<A>, n: u32, a: u32, b: u32) -> (r: Vec<A>)
    requires
        n <= MAX_QUBITS,
        a < n,
        b < n,
        old.len() == dim(n),
    ensures
        r@ == swapped(old@, a, b),
{
    let ma: usize = 1usize << a;
    let mb: usize = 1usize << b;
    let mut r: Vec<A> = Vec::with_capacity(old.len());
    let mut k: usize = 0;
    while k < old.len()
        invariant
            n <= MAX_QUBITS,
            a < n,
            b < n,
            old.len() == dim(n),
            ma == mask(a),
            mb == mask(b),
            k <= old.len(),
            r.len() == k,
            forall|i: int| 0 <= i < k ==> #[trigger] r@[i] == swapped(old@, a, b)[i],
        decreases old.len() - k,
    {
        proof {
            lemma_swap_index(k, a, b, n);
        }
        let v = if (k & ma != 0) != (k & mb != 0) {
            old[k ^ ma ^ mb]
        } else {
            old[k]
        };
        r.push(v);
        k += 1;
    }
    assert(r@ =~= swapped(old@, a, b));
    r
}

/// The register of `n` qubits in basis state `idx`.
pub open spec fn basis<A>(n: u32, idx: int, zero: A, one: A) -> Seq<A> {
    Seq::new(dim(n) as nat, |k: int| if k == idx { one } else { zero })
}

/// `new` is `old` with `g` applied to each qubit in turn, from qubit 0
/// up to qubit `n - 1`, each step taking the previous one's result.
pub open spec fn applied_to_all<A, L: Fn(A, A, A, A) -> A>(
    old: Seq<A>,
    n: u32,
    g: Gate<A>,
    lin: L,
    new: Seq<A>,
) -> bool {
    exists|trace: Seq<Seq<A>>|
        {
            &&& trace.len() == n + 1
            &&& trace[0] == old
            &&& trace[n as int] == new
            &&& forall|t: int|
                0 <= t < n ==> gate_applied(#[trigger] trace[t], t as u32, 0, g, lin, trace[t + 1])
        }
}

/// How a register applies its gates. Both meet the same contract, so for
/// arithmetic that is a function of its arguments they give the same
/// amplitudes.
#[derive(Clone, Copy, Debug, PartialEq, Eq, Structural)]
pub enum Backend {
    /// One amplitude after another, in index order: the reference.
    Sequential,
    /// One work item per pair of amplitudes, as a parallel device runs them.
    WorkItems,
}

fn dispatch<A: Copy, L: Fn(A, A, A, A) -> A>(
    backend: Backend,
    old: &Vec<A>,
    n: u32,
    t: u32,
    cmask: usize,
    g: Gate<A>,
    lin: &L,
) -> (r: Vec<A>)
    requires
        n <= MAX_QUBITS,
        t < n,
        old.len() == dim(n),
        cmask & mask(t) == 0,
        forall|p: A, x: A, q: A, y: A| call_requires(*lin, (p, x, q, y)),
    ensures
        gate_applied(old@, t, cmask, g, *lin, r@),
{
    match backend {
        Backend::Sequential => combine_pairs(old, n, t, cmask, g, lin),
        Backend::WorkItems => combine_work_items(old, n, t, cmask, g, lin),
    }
}

/// A quantum register of `num_qubits` qubits: `2^num_qubits` amplitudes.
///
/// Every operation that changes the amplitudes computes a new buffer from the
/// old one and then replaces it, so no amplitude is read after it was
/// overwritten.
pub struct State<A> {
    amps: Vec<A>,
    num_qubits: u32,
    backend: Backend,
}

impl<A: Copy> State<A> {
    /// The amplitudes, indexed by basis state.
    pub closed spec fn amplitudes(&self) -> Seq<A> {
        self.amps@
    }

    /// The number of qubits.
    pub closed spec fn qubits(&self) -> u32 {
        self.num_qubits
    }

    /// How the register applies its gates.
    pub closed spec fn spec_backend(&self) -> Backend {
        self.backend
    }

    pub open spec fn wf(&self) -> bool {
        &&& self.qubits() <= MAX_QUBITS
        &&& self.amplitudes().len() == dim(self.qubits())
    }

    /// A register of `num_qubits` qubits in basis state `index`.
    pub fn with_basis_state(num_qubits: u32, index: usize, backend: Backend, zero: A, one: A) -> (r: Result<
        State<A>,
        QuantumError,
    >)
        ensures
            match r {
                Ok(s) => {
                    &&& num_qubits <= MAX_QUBITS
                    &&& index < dim(num_qubits)
                    &&& s.wf()
                    &&& s.qubits() == num_qubits
                    &&& s.spec_backend() == backend
                    &&& s.amplitudes() == basis(num_qubits, index as int, zero, one)
                },
                Err(e) => {
                    ||| num_qubits > MAX_QUBITS && e == QuantumError::ResourceExhausted
                    ||| num_qubits <= MAX_QUBITS && index >= dim(num_qubits) && e
                        == QuantumError::InvalidBasisState
                },
            },
    {
        if num_qubits > MAX_QUBITS {
            return Err(QuantumError::ResourceExhausted);
        }
        let len: usize = 1usize << num_qubits;
        if index >= len {
            return Err(QuantumError::InvalidBasisState);
        }
        let mut amps: Vec<A> = Vec::with_capacity(len);
        let mut k: usize = 0;
        while k < len
            invariant
                len == dim(num_qubits),
                k <= len,
                amps.len() == k,
                forall|i: int| 0 <= i < k ==> #[trigger] amps@[i] == basis(num_qubits, index as int, zero, one)[i],
            decreases len - k,
        {
            if k == index {
                amps.push(one);
            } else {
                amps.push(zero);
            }
            k += 1;
        }
        assert(amps@ =~= basis(num_qubits, index as int, zero, one));
        Ok(State { amps, num_qubits, backend })
    }

    /// A register of `num_qubits` qubits in the basis state where every
    /// qubit is 0, applying its gates the way `backend` does.
    pub fn new_on(num_qubits: u32, backend: Backend, zero: A, one: A) -> (r: Result<State<A>, QuantumError>)
        ensures
            match r {
                Ok(s) => {
                    &&& num_qubits <= MAX_QUBITS
                    &&& s.wf()
                    &&& s.qubits() == num_qubits
                    &&& s.spec_backend() == backend
                    &&& s.amplitudes() == basis(num_qubits, 0, zero, one)
                },
                Err(e) => num_qubits > MAX_QUBITS && e == QuantumError::ResourceExhausted,
            },
    {
        if num_qubits <= MAX_QUBITS {
            proof {
                lemma_dim(num_qubits);
            }
        }
        State::with_basis_state(num_qubits, 0, backend, zero, one)
    }

    /// A register of `num_qubits` qubits in the basis state where every
    /// qubit is 0, on the sequential backend.
    pub fn new(num_qubits: u32, zero: A, one: A) -> (r: Result<State<A>, QuantumError>)
        ensures
            match r {
                Ok(s) => {
                    &&& num_qubits <= MAX_QUBITS
                    &&& s.wf()
                    &&& s.qubits() == num_qubits
                    &&& s.spec_backend() == Backend::Sequential
                    &&& s.amplitudes() == basis(num_qubits, 0, zero, one)
                },
                Err(e) => num_qubits > MAX_QUBITS && e == QuantumError::ResourceExhausted,
            },
    {
        State::new_on(num_qubits, Backend::Sequential, zero, one)
    }

    /// A register in the basis state written by `bits`, most significant
    /// qubit first, optionally in ket brackets (`"|10110>"`): one qubit per bit.
    pub fn from_bit_string(bits: &str, zero: A, one: A) -> (r: Result<State<A>, QuantumError>)
        ensures
            r is Ok <==> valid_bit_string(bits.spec_bytes()),
            r matches Ok(s) ==> {
                &&& s.wf()
                &&& s.qubits() as int == digits(bits.spec_bytes()).len()
                &&& s.amplitudes() == basis(
                    s.qubits(),
                    value_of(digits(bits.spec_bytes())) as int,
                    zero,
                    one,
                )
            },
            r is Err ==> r == Err::<State<A>, QuantumError>(QuantumError::InvalidBitString),
    {
        match parse_bit_string(bits.as_bytes()) {
            Some((value, width)) => State::with_basis_state(width, value, Backend::Sequential, zero, one),
            None => Err(QuantumError::InvalidBitString),
        }
    }

    /// A description of how the register applies its gates.
    pub fn device_info(&self) -> (r: &'static str)
        ensures
            self.spec_backend() == Backend::Sequential ==> r@ == "sequential"@,
            self.spec_backend() == Backend::WorkItems ==> r@ == "work items"@,
    {
        match self.backend {
            Backend::Sequential => "sequential",
            Backend::WorkItems => "work items",
        }
    }

    /// How the register applies its gates.
    pub fn backend(&self) -> (r: Backend)
        ensures
            r == self.spec_backend(),
    {
        self.backend
    }

    /// The number of qubits in the register.
    pub fn num_qubits(&self) -> (r: u32)
        ensures
            r == self.qubits(),
    {
        self.num_qubits
    }

    /// The amplitudes, indexed by basis state.
    pub fn amplitudes_ref(&self) -> (r: &Vec<A>)
        ensures
            r@ == self.amplitudes(),
    {
        &self.amps
    }

    /// A copy of the amplitudes, indexed by basis state.
    pub fn get_amplitudes(&self) -> (r: Vec<A>)
        ensures
            r@ == self.amplitudes(),
    {
        let mut r: Vec<A> = Vec::with_capacity(self.amps.len());
        let mut k: usize = 0;
        while k < self.amps.len()
            invariant
                k <= self.amps.len(),
                r.len() == k,
                forall|i: int| 0 <= i < k ==> #[trigger] r@[i] == self.amps@[i],
            decreases self.amps.len() - k,
        {
            r.push(self.amps[k]);
            k += 1;
        }
        assert(r@ =~= self.amps@);
        r
    }

    /// Applies `gate` to qubit `target`; `lin(p, x, q, y)` computes `p*x + q*y`.
    pub fn apply_gate<L: Fn(A, A, A, A) -> A>(&mut self, target: u32, gate: Gate<A>, lin: &L) -> (r:
        Result<(), QuantumError>)
        requires
            old(self).wf(),
            forall|p: A, x: A, q: A, y: A| call_requires(*lin, (p, x, q, y)),
        ensures
            final(self).wf(),
            final(self).spec_backend() == old(self).spec_backend(),
            final(self).qubits() == old(self).qubits(),
            r is Ok <==> target < old(self).qubits(),
            r is Ok ==> gate_applied(old(self).amplitudes(), target, 0, gate, *lin, final(self).amplitudes()),
            r is Err ==> r == Err::<(), QuantumError>(QuantumError::InvalidQubitIndex) && *final(self) == *old(self),
    {
        if target >= self.num_qubits {
            return Err(QuantumError::InvalidQubitIndex);
        }
        proof {
            assert(0usize & mask(target) == 0) by (bit_vector);
        }
        let amps = dispatch(self.backend, &self.amps, self.num_qubits, target, 0, gate, lin);
        self.amps = amps;
        Ok(())
    }

    /// Applies `gate` to qubit `target` of the basis states where qubit
    /// `control` is 1; the other amplitudes are kept.
    pub fn apply_controlled_gate<L: Fn(A, A, A, A) -> A>(
        &mut self,
        control: u32,
        target: u32,
        gate: Gate<A>,
        lin: &L,
    ) -> (r: Result<(), QuantumError>)
        requires
            old(self).wf(),
            forall|p: A, x: A, q: A, y: A| call_requires(*lin, (p, x, q, y)),
        ensures
            final(self).wf(),
            final(self).spec_backend() == old(self).spec_backend(),
            final(self).qubits() == old(self).qubits(),
            r is Ok <==> control < old(self).qubits() && target < old(self).qubits() && control != target,
            r is Ok ==> gate_applied(
                old(self).amplitudes(),
                target,
                mask(control),
                gate,
                *lin,
                final(self).amplitudes(),
            ),
            r is Err ==> r == Err::<(), QuantumError>(QuantumError::InvalidQubitIndex) && *final(self) == *old(self),
    {
        if control >= self.num_qubits || target >= self.num_qubits || control == target {
            return Err(QuantumError::InvalidQubitIndex);
        }
        let cmask: usize = 1usize << control;
        proof {
            assert((1usize << control) & (1usize << target) == 0) by (bit_vector)
                requires
                    control != target,
                    control < 31,
                    target < 31,
            ;
        }
        let amps = dispatch(self.backend, &self.amps, self.num_qubits, target, cmask, gate, lin);
        self.amps = amps;
        Ok(())
    }

    /// Applies `gate` to qubit `target` of the basis states where qubits
    /// `control1` and `control2` are both 1; the other amplitudes are kept.
    pub fn apply_doubly_controlled_gate<L: Fn(A, A, A, A) -> A>(
        &mut self,
        control1: u32,
        control2: u32,
        target: u32,
        gate: Gate<A>,
        lin: &L,
    ) -> (r: Result<(), QuantumError>)
        requires
            old(self).wf(),
            forall|p: A, x: A, q: A, y: A| call_requires(*lin, (p, x, q, y)),
        ensures
            final(self).wf(),
            final(self).spec_backend() == old(self).spec_backend(),
            final(self).qubits() == old(self).qubits(),
            r is Ok <==> control1 < old(self).qubits() && control2 < old(self).qubits() && target
                < old(self).qubits() && control1 != target && control2 != target,
            r is Ok ==> gate_applied(
                old(self).amplitudes(),
                target,
                mask(control1) | mask(control2),
                gate,
                *lin,
                final(self).amplitudes(),
            ),
            r is Err ==> r == Err::<(), QuantumError>(QuantumError::InvalidQubitIndex) && *final(self) == *old(self),
    {
        if control1 >= self.num_qubits || control2 >= self.num_qubits || target >= self.num_qubits
            || control1 == target || control2 == target {
            return Err(QuantumError::InvalidQubitIndex);
        }
        let cmask: usize = (1usize << control1) | (1usize << control2);
        proof {
            assert(((1usize << control1) | (1usize << control2)) & (1usize << target) == 0) by (bit_vector)
                requires
                    control1 != target,
                    control2 != target,
                    control1 < 31,
                    control2 < 31,
                    target < 31,
            ;
        }
        let amps = dispatch(self.backend, &self.amps, self.num_qubits, target, cmask, gate, lin);
        self.amps = amps;
        Ok(())
    }

    /// Applies `gate` to every qubit in turn, from qubit 0 upwards.
    pub fn apply_all<L: Fn(A, A, A, A) -> A>(&mut self, gate: Gate<A>, lin: &L)
        requires
            old(self).wf(),
            forall|p: A, x: A, q: A, y: A| call_requires(*lin, (p, x, q, y)),
        ensures
            final(self).wf(),
            final(self).spec_backend() == old(self).spec_backend(),
            final(self).qubits() == old(self).qubits(),
            applied_to_all(old(self).amplitudes(), old(self).qubits(), gate, *lin, final(self).amplitudes()),
    {
        let ghost start = self.amplitudes();
        let ghost mut trace: Seq<Seq<A>> = seq![start];
        let n = self.num_qubits;
        let mut t: u32 = 0;
        while t < n
            invariant
                self.wf(),
                self.qubits() == n,
                self.spec_backend() == old(self).spec_backend(),
                t <= n,
                forall|p: A, x: A, q: A, y: A| call_requires(*lin, (p, x, q, y)),
                trace.len() == t + 1,
                trace[0] == start,
                trace[t as int] == self.amplitudes(),
                forall|i: int| 0 <= i < t ==> gate_applied(#[trigger] trace[i], i as u32, 0, gate, *lin, trace[i + 1]),
            decreases n - t,
        {
            let r = self.apply_gate(t, gate, lin);
            proof {
                trace = trace.push(self.amplitudes());
                assert forall|i: int| 0 <= i < t + 1 implies gate_applied(#[trigger] trace[i], i as u32, 0, gate, *lin, trace[i + 1]) by {
                    if i < t {
                        assert(trace[i] == trace.drop_last()[i]);
                    }
                }
            }
            t += 1;
        }
    }

    /// Flips qubit `target` (the NOT gate, as a permutation of amplitudes).
    pub fn x(&mut self, target: u32) -> (r: Result<(), QuantumError>)
        requires
            old(self).wf(),
        ensures
            final(self).wf(),
            final(self).spec_backend() == old(self).spec_backend(),
            final(self).qubits() == old(self).qubits(),
            r is Ok <==> target < old(self).qubits(),
            r is Ok ==> final(self).amplitudes() == flipped(old(self).amplitudes(), target, 0),
            r is Err ==> r == Err::<(), QuantumError>(QuantumError::InvalidQubitIndex) && *final(self) == *old(self),
    {
        if target >= self.num_qubits {
            return Err(QuantumError::InvalidQubitIndex);
        }
        let amps = flip_pairs(&self.amps, self.num_qubits, target, 0);
        self.amps = amps;
        Ok(())
    }

    /// Flips qubit `target` where qubit `control` is 1 (controlled NOT).
    pub fn cx(&mut self, control: u32, target: u32) -> (r: Result<(), QuantumError>)
        requires
            old(self).wf(),
        ensures
            final(self).wf(),
            final(self).spec_backend() == old(self).spec_backend(),
            final(self).qubits() == old(self).qubits(),
            r is Ok <==> control < old(self).qubits() && target < old(self).qubits() && control != target,
            r is Ok ==> final(self).amplitudes() == flipped(old(self).amplitudes(), target, mask(control)),
            r is Err ==> r == Err::<(), QuantumError>(QuantumError::InvalidQubitIndex) && *final(self) == *old(self),
    {
        if control >= self.num_qubits || target >= self.num_qubits || control == target {
            return Err(QuantumError::InvalidQubitIndex);
        }
        let amps = flip_pairs(&self.amps, self.num_qubits, target, 1usize << control);
        self.amps = amps;
        Ok(())
    }

    /// Flips qubit `target` where qubits `control1` and `control2` are both 1
    /// (the Toffoli gate).
    pub fn toffoli(&mut self, control1: u32, control2: u32, target: u32) -> (r: Result<(), QuantumError>)
        requires
            old(self).wf(),
        ensures
            final(self).wf(),
            final(self).spec_backend() == old(self).spec_backend(),
            final(self).qubits() == old(self).qubits(),
            r is Ok <==> control1 < old(self).qubits() && control2 < old(self).qubits() && target
                < old(self).qubits() && control1 != target && control2 != target,
            r is Ok ==> final(self).amplitudes() == flipped(
                old(self).amplitudes(),
                target,
                mask(control1) | mask(control2),
            ),
            r is Err ==> r == Err::<(), QuantumError>(QuantumError::InvalidQubitIndex) && *final(self) == *old(self),
    {
        if control1 >= self.num_qubits || control2 >= self.num_qubits || target >= self.num_qubits
            || control1 == target || control2 == target {
            return Err(QuantumError::InvalidQubitIndex);
        }
        let cmask: usize = (1usize << control1) | (1usize << control2);
        let amps = flip_pairs(&self.amps, self.num_qubits, target, cmask);
        self.amps = amps;
        Ok(())
    }

    /// Exchanges the values of qubits `first` and `second`.
    pub fn swap(&mut self, first: u32, second: u32) -> (r: Result<(), QuantumError>)
        requires
            old(self).wf(),
        ensures
            final(self).wf(),
            final(self).spec_backend() == old(self).spec_backend(),
            final(self).qubits() == old(self).qubits(),
            r is Ok <==> first < old(self).qubits() && second < old(self).qubits(),
            r is Ok ==> final(self).amplitudes() == swapped(old(self).amplitudes(), first, second),
            r is Err ==> r == Err::<(), QuantumError>(QuantumError::InvalidQubitIndex) && *final(self) == *old(self),
    {
        if first >= self.num_qubits || second >= self.num_qubits {
            return Err(QuantumError::InvalidQubitIndex);
        }
        let amps = swap_pairs(&self.amps, self.num_qubits, first, second);
        self.amps = amps;
        Ok(())
    }

    /// Adds `num_scratch` qubits above the existing ones, all 0: the new
    /// amplitudes, those whose index has a new qubit set, are `zero`.
    pub fn add_scratch(&mut self, num_scratch: u32, zero: A) -> (r: Result<(), QuantumError>)
        requires
            old(self).wf(),
        ensures
            final(self).wf(),
            final(self).spec_backend() == old(self).spec_backend(),
            r is Ok <==> old(self).qubits() + num_scratch <= MAX_QUBITS,
            r is Ok ==> {
                &&& final(self).qubits() == old(self).qubits() + num_scratch
                &&& final(self).amplitudes() == Seq::new(
                    dim(final(self).qubits()) as nat,
                    |k: int|
                        if k < old(self).amplitudes().len() {
                            old(self).amplitudes()[k]
                        } else {
                            zero
                        },
                )
            },
            r is Err ==> r == Err::<(), QuantumError>(QuantumError::ResourceExhausted) && *final(self) == *old(self),
    {
        if num_scratch > MAX_QUBITS - self.num_qubits {
            return Err(QuantumError::ResourceExhausted);
        }
        let n = self.num_qubits + num_scratch;
        let len: usize = 1usize << n;
        proof {
            lemma_dim_grows(self.num_qubits, n);
        }
        let ghost expected = Seq::new(
            dim(n) as nat,
            |k: int| if k < self.amps@.len() { self.amps@[k] } else { zero },
        );
        let mut amps: Vec<A> = Vec::with_capacity(len);
        let mut k: usize = 0;
        while k < len
            invariant
                len == dim(n),
                self.amps.len() <= len,
                expected.len() == len,
                forall|i: int| 0 <= i < len ==> #[trigger] expected[i] == (if i < self.amps@.len() { self.amps@[i] } else { zero }),
                k <= len,
                amps.len() == k,
                forall|i: int| 0 <= i < k ==> #[trigger] amps@[i] == expected[i],
            decreases len - k,
        {
            if k < self.amps.len() {
                amps.push(self.amps[k]);
            } else {
                amps.push(zero);
            }
            k += 1;
        }
        assert(amps@ =~= expected);
        self.amps = amps;
        self.num_qubits = n;
        Ok(())
    }

    /// Removes the `num_to_measure` highest qubits, keeping the amplitudes
    /// of the basis states where all of them are 0.
    ///
    /// The kept amplitudes are neither renormalised nor chosen by a
    /// measurement of the removed qubits: this is exact only where those
    /// qubits are 0 with certainty.
    pub fn measure_scratch(&mut self, num_to_measure: u32) -> (r: Result<(), QuantumError>)
        requires
            old(self).wf(),
        ensures
            final(self).wf(),
            final(self).spec_backend() == old(self).spec_backend(),
            r is Ok <==> num_to_measure <= old(self).qubits(),
            r is Ok ==> {
                &&& final(self).qubits() == old(self).qubits() - num_to_measure
                &&& final(self).amplitudes() == old(self).amplitudes().subrange(
                    0,
                    dim(final(self).qubits()) as int,
                )
            },
            r is Err ==> r == Err::<(), QuantumError>(QuantumError::InvalidQubitIndex) && *final(self) == *old(self),
    {
        if num_to_measure > self.num_qubits {
            return Err(QuantumError::InvalidQubitIndex);
        }
        let n = self.num_qubits - num_to_measure;
        let len: usize = 1usize << n;
        proof {
            lemma_dim_grows(n, self.num_qubits);
        }
        self.amps.truncate(len);
        self.num_qubits = n;
        assert(self.amps@ =~= old(self).amps@.subrange(0, len as int));
        Ok(())
    }

    /// Maps every amplitude to its probability with `norm`, which computes
    /// the squared magnitude.
    pub fn get_probabilities<P, N: Fn(A) -> P>(&self, norm: &N) -> (r: Vec<P>)
        requires
            forall|x: A| call_requires(*norm, (x,)),
        ensures
            r.len() == self.amplitudes().len(),
            forall|k: int| 0 <= k < r.len() ==> call_ensures(*norm, (self.amplitudes()[k],), #[trigger] r@[k]),
    {
        let mut r: Vec<P> = Vec::with_capacity(self.amps.len());
        let mut k: usize = 0;
        while k < self.amps.len()
            invariant
                forall|x: A| call_requires(*norm, (x,)),
                k <= self.amps.len(),
                r.len() == k,
                forall|i: int| 0 <= i < k ==> call_ensures(*norm, (self.amps@[i],), #[trigger] r@[i]),
            decreases self.amps.len() - k,
        {
            let p = norm(self.amps[k]);
            r.push(p);
            k += 1;
        }
        r
    }

    /// Measures the register once without collapsing it: `norm` gives each
    /// amplitude's probability and the walk of `key` along them picks the
    /// basis state (see `sample_index`).
    pub fn measure<P: Copy, K: Copy, N: Fn(A) -> P, S: Fn(K, P) -> (K, bool)>(
        &self,
        key: K,
        norm: &N,
        step: &S,
    ) -> (r: usize)
        requires
            self.wf(),
            forall|x: A| call_requires(*norm, (x,)),
            forall|k: K, p: P| call_requires(*step, (k, p)),
        ensures
            r < self.amplitudes().len(),
            exists|probs: Seq<P>|
                probabilities_of(self.amplitudes(), *norm, probs) && walk_reaches(
                    probs,
                    key,
                    *step,
                    r as int,
                ),
    {
        proof {
            lemma_dim(self.num_qubits);
        }
        let probs = self.get_probabilities(norm);
        let r = sample_index(&probs, key, step);
        assert(probabilities_of(self.amplitudes(), *norm, probs@));
        r
    }

    /// Measures the register once and collapses it to the basis state
    /// measured (up to a global phase, which no measurement can observe).
    pub fn measure_collapse<P: Copy, K: Copy, N: Fn(A) -> P, S: Fn(K, P) -> (K, bool)>(
        &mut self,
        key: K,
        norm: &N,
        step: &S,
        zero: A,
        one: A,
    ) -> (r: usize)
        requires
            old(self).wf(),
            forall|x: A| call_requires(*norm, (x,)),
            forall|k: K, p: P| call_requires(*step, (k, p)),
        ensures
            final(self).wf(),
            final(self).spec_backend() == old(self).spec_backend(),
            final(self).qubits() == old(self).qubits(),
            r < old(self).amplitudes().len(),
            exists|probs: Seq<P>|
                probabilities_of(old(self).amplitudes(), *norm, probs) && walk_reaches(
                    probs,
                    key,
                    *step,
                    r as int,
                ),
            final(self).amplitudes() == basis(old(self).qubits(), r as int, zero, one),
    {
        let r = self.measure(key, norm, step);
        match State::with_basis_state(self.num_qubits, r, self.backend, zero, one) {
            Ok(collapsed) => {
                self.amps = collapsed.amps;
            },
            Err(_) => {
                assert(false);
            },
        }
        r
    }

    /// Measures the register once per key, from one computation of the
    /// probabilities, and counts the outcomes.
    pub fn measure_many<P: Copy, K: Copy, N: Fn(A) -> P, S: Fn(K, P) -> (K, bool)>(
        &self,
        keys: &Vec<K>,
        norm: &N,
        step: &S,
    ) -> (r: Counts)
        requires
            self.wf(),
            forall|x: A| call_requires(*norm, (x,)),
            forall|k: K, p: P| call_requires(*step, (k, p)),
        ensures
            r.wf(),
            r.spec_width() == self.qubits(),
            exists|probs: Seq<P>, draws: Seq<usize>|
                {
                    &&& probabilities_of(self.amplitudes(), *norm, probs)
                    &&& draws_from(probs, keys@, *step, draws)
                    &&& forall|k: usize|
                        k < dim(self.qubits()) ==> #[trigger] r.spec_counts()[k as int] == occurrences(
                            draws,
                            k,
                        )
                },
    {
        proof {
            lemma_dim(self.num_qubits);
        }
        let probs = self.get_probabilities(norm);
        let draws = sample_many(&probs, keys, step);
        assert(probabilities_of(self.amplitudes(), *norm, probs@));
        match Counts::from_outcomes(self.num_qubits, &draws) {
            Ok(c) => c,
            Err(_) => {
                assert(false);
                Counts::from_outcomes(self.num_qubits, &draws).unwrap()
            },
        }
    }

    /// Measures the register once per key and counts the values of its
    /// `width` highest qubits.
    pub fn measure_first<P: Copy, K: Copy, N: Fn(A) -> P, S: Fn(K, P) -> (K, bool)>(
        &self,
        width: u32,
        keys: &Vec<K>,
        norm: &N,
        step: &S,
    ) -> (r: Result<Counts, QuantumError>)
        requires
            self.wf(),
            forall|x: A| call_requires(*norm, (x,)),
            forall|k: K, p: P| call_requires(*step, (k, p)),
        ensures
            r is Ok <==> width <= self.qubits(),
            r is Err ==> r == Err::<Counts, QuantumError>(QuantumError::InvalidQubitIndex),
            r matches Ok(c) ==> {
                &&& c.wf()
                &&& c.spec_width() == width
                &&& exists|probs: Seq<P>, draws: Seq<usize>|
                    {
                        &&& probabilities_of(self.amplitudes(), *norm, probs)
                        &&& draws_from(probs, keys@, *step, draws)
                        &&& forall|k: usize|
                            k < dim(width) ==> #[trigger] c.spec_counts()[k as int] == occurrences(
                                prefixes(draws, self.qubits(), width),
                                k,
                            )
                    }
            },
    {
        if width > self.num_qubits {
            return Err(QuantumError::InvalidQubitIndex);
        }
        proof {
            lemma_dim(self.num_qubits);
        }
        let probs = self.get_probabilities(norm);
        let draws = sample_many(&probs, keys, step);
        assert(probabilities_of(self.amplitudes(), *norm, probs@));
        Counts::from_prefixes(self.num_qubits, width, &draws)
    }
}

} // verus!
