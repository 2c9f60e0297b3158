//! Sampling basis states from a probability distribution, and histograms of
//! the outcomes.
use vstd::prelude::*;
use crate::bits::{MAX_QUBITS, dim};
use vstd::string::StringSliceAdditionalSpecFns;
use crate::bitstring::{is_bit, value_of};
use crate::error::QuantumError;

verus! {

/// The walk of `key` along `probs` stops at index `r`.
///
/// `step(k, p)` is the key after `p` is taken from `k`, and whether it has
/// run out (reached zero or below). `keys[i]` is the key on arrival at index
/// `i`. Before `r` the key never ran out; at `r` it ran out, or `r` is the
/// last index, which is taken when rounding leaves some key over.
pub open spec fn walk_stops_at<P, K, S: Fn(K, P) -> (K, bool)>(
    probs: Seq<P>,
    key: K,
    step: S,
    keys: Seq<K>,
    r: int,
) -> bool {
    &&& 0 <= r < probs.len()
    &&& keys.len() == r + 1
    &&& keys[0] == key
    &&& forall|i: int| 0 <= i < r ==> call_ensures(step, (keys[i], #[trigger] probs[i]), (keys[i + 1], false))
    &&& (exists|k: K| call_ensures(step, (keys[r], probs[r]), (k, true))) || r == probs.len() - 1
}

/// Some walk of `key` along `probs` stops at index `r`.
#[verifier::opaque]
pub open spec fn walk_reaches<P, K, S: Fn(K, P) -> (K, bool)>(probs: Seq<P>, key: K, step: S, r: int) -> bool {
    exists|keys: Seq<K>| walk_stops_at(probs, key, step, keys, r)
}

/// Draws one basis state: walks the probabilities in index order, taking each
/// from `key` (uniform in `[0, 1)`), and returns the index where the key runs
/// out, or the last index if it never does.
pub fn sample_index<P: Copy, K: Copy, S: Fn(K, P) -> (K, bool)>(
    probs: &Vec<P>,
    key: K,
    step: &S,
) -> (r: usize)
    requires
        probs.len() > 0,
        forall|k: K, p: P| call_requires(*step, (k, p)),
    ensures
        r < probs.len(),
        walk_reaches(probs@, key, *step, r as int),
{
    let mut k = key;
    let mut i: usize = 0;
    let ghost mut keys: Seq<K> = seq![key];
    loop
        invariant
            probs.len() > 0,
            forall|k: K, p: P| call_requires(*step, (k, p)),
            i < probs.len(),
            keys.len() == i + 1,
            keys[0] == key,
            keys[i as int] == k,
            forall|j: int| 0 <= j < i ==> call_ensures(*step, (keys[j], #[trigger] probs@[j]), (keys[j + 1], false)),
        decreases probs.len() - i,
    {
        let (next, done) = step(k, probs[i]);
        if done || i + 1 == probs.len() {
            proof {
                if done {
                    assert(call_ensures(*step, (keys[i as int], probs@[i as int]), (next, true)));
                }
                assert(walk_stops_at(probs@, key, *step, keys, i as int));
                reveal(walk_reaches);
            }
            return i;
        }
        proof {
            let old_keys = keys;
            keys = keys.push(next);
            assert forall|j: int| 0 <= j < i + 1 implies call_ensures(*step, (keys[j], #[trigger] probs@[j]), (keys[j + 1], false)) by {
                if j < i {
                    assert(keys[j] == old_keys[j]);
                    assert(keys[j + 1] == old_keys[j + 1]);
                }
            }
        }
        k = next;
        i += 1;
    }
}

/// `probs` are the probabilities of the amplitudes `amps` under `norm`.
pub open spec fn probabilities_of<A, P, N: Fn(A) -> P>(amps: Seq<A>, norm: N, probs: Seq<P>) -> bool {
    &&& probs.len() == amps.len()
    &&& forall|k: int| 0 <= k < probs.len() ==> call_ensures(norm, (amps[k],), #[trigger] probs[k])
}

/// Each of `draws` is where the walk of the matching key along `probs` stops.
pub open spec fn draws_from<P, K, S: Fn(K, P) -> (K, bool)>(
    probs: Seq<P>,
    keys: Seq<K>,
    step: S,
    draws: Seq<usize>,
) -> bool {
    &&& draws.len() == keys.len()
    &&& forall|i: int|
        0 <= i < draws.len() ==> walk_reaches(probs, keys[i], step, #[trigger] draws[i] as int)
}

/// Draws one basis state for each key.
pub fn sample_many<P: Copy, K: Copy, S: Fn(K, P) -> (K, bool)>(
    probs: &Vec<P>,
    keys: &Vec<K>,
    step: &S,
) -> (r: Vec<usize>)
    requires
        probs.len() > 0,
        forall|k: K, p: P| call_requires(*step, (k, p)),
    ensures
        draws_from(probs@, keys@, *step, r@),
        forall|i: int| 0 <= i < r.len() ==> #[trigger] r@[i] < probs.len(),
{
    let mut r: Vec<usize> = Vec::with_capacity(keys.len());
    let mut i: usize = 0;
    while i < keys.len()
        invariant
            probs.len() > 0,
            forall|k: K, p: P| call_requires(*step, (k, p)),
            i <= keys.len(),
            r.len() == i,
            forall|j: int|
                0 <= j < i ==> walk_reaches(probs@, keys@[j], *step, #[trigger] r@[j] as int),
            forall|j: int| 0 <= j < i ==> #[trigger] r@[j] < probs.len(),
        decreases keys.len() - i,
    {
        let d = sample_index(probs, keys[i], step);
        r.push(d);
        proof {
            assert forall|j: int| 0 <= j < i + 1 implies walk_reaches(probs@, keys@[j], *step, #[trigger] r@[j] as int) by {
                if j < i {
                    assert(r@[j] == r@.drop_last()[j]);
                }
            }
        }
        i += 1;
    }
    r
}

/// How many times `x` occurs in `s`.
pub open spec fn occurrences<T>(s: Seq<T>, x: T) -> nat
    decreases s.len(),
{
    if s.len() == 0 {
        0
    } else {
        occurrences(s.drop_last(), x) + (if s.last() == x { 1nat } else { 0nat })
    }
}

/// The `width` highest qubits of basis state `k` of a register of `n` qubits.
pub open spec fn prefix_of(k: usize, n: u32, width: u32) -> usize {
    k >> ((n - width) as u32)
}

/// The outcomes `s` cut down to their `width` highest qubits.
pub open spec fn prefixes(s: Seq<usize>, n: u32, width: u32) -> Seq<usize> {
    Seq::new(s.len(), |i: int| prefix_of(s[i], n, width))
}

/// The `width` highest qubits of basis state `outcome` of a register of
/// `num_qubits` qubits, read as a number.
pub fn prefix(outcome: usize, num_qubits: u32, width: u32) -> (r: usize)
    requires
        width <= num_qubits <= MAX_QUBITS,
        outcome < dim(num_qubits),
    ensures
        r == prefix_of(outcome, num_qubits, width),
        r < dim(width),
{
    let shift: u32 = num_qubits - width;
    proof {
        assert(outcome >> shift < (1usize << width)) by (bit_vector)
            requires
                outcome < (1usize << num_qubits),
                shift == num_qubits - width,
                width <= num_qubits,
                num_qubits <= 31,
        ;
    }
    outcome >> shift
}

/// A histogram of measured basis states of a register of `width` qubits.
#[derive(Debug)]
pub struct Counts {
    width: u32,
    counts: Vec<u64>,
}

impl Counts {
    /// The number of qubits of each outcome.
    pub closed spec fn spec_width(&self) -> u32 {
        self.width
    }

    /// How often each basis state was measured, indexed by basis state.
    pub closed spec fn spec_counts(&self) -> Seq<u64> {
        self.counts@
    }

    pub open spec fn wf(&self) -> bool {
        &&& self.spec_width() <= MAX_QUBITS
        &&& self.spec_counts().len() == dim(self.spec_width())
    }

    /// An empty histogram of outcomes of `width` qubits.
    pub fn new(width: u32) -> (r: Result<Counts, QuantumError>)
        ensures
            r is Ok <==> width <= MAX_QUBITS,
            r matches Ok(c) ==> c.wf() && c.spec_width() == width && forall|k: int|
                0 <= k < dim(width) ==> #[trigger] c.spec_counts()[k] == 0,
            r is Err ==> r == Err::<Counts, QuantumError>(QuantumError::ResourceExhausted),
    {
        if width > MAX_QUBITS {
            return Err(QuantumError::ResourceExhausted);
        }
        let len: usize = 1usize << width;
        let mut counts: Vec<u64> = Vec::with_capacity(len);
        let mut k: usize = 0;
        while k < len
            invariant
                k <= len,
                counts.len() == k,
                forall|i: int| 0 <= i < k ==> #[trigger] counts@[i] == 0,
            decreases len - k,
        {
            counts.push(0);
            k += 1;
        }
        Ok(Counts { width, counts })
    }

    /// The histogram of `outcomes`, basis states of a register of `width`
    /// qubits: each count is the number of times its state occurs.
    pub fn from_outcomes(width: u32, outcomes: &Vec<usize>) -> (r: Result<Counts, QuantumError>)
        ensures
            r is Ok <==> width <= MAX_QUBITS && forall|i: int|
                0 <= i < outcomes.len() ==> #[trigger] outcomes@[i] < dim(width),
            r matches Ok(c) ==> c.wf() && c.spec_width() == width && forall|k: usize|
                k < dim(width) ==> #[trigger] c.spec_counts()[k as int] == occurrences(outcomes@, k),
            r matches Err(e) ==> (width > MAX_QUBITS && e == QuantumError::ResourceExhausted) || (
            width <= MAX_QUBITS && e == QuantumError::InvalidBasisState),
    {
        let mut c = match Counts::new(width) {
            Ok(c) => c,
            Err(e) => return Err(e),
        };
        let len: usize = c.counts.len();
        let mut i: usize = 0;
        while i < outcomes.len()
            invariant
                c.wf(),
                c.spec_width() == width,
                len == dim(width),
                i <= outcomes.len(),
                forall|j: int| 0 <= j < i ==> #[trigger] outcomes@[j] < dim(width),
                forall|k: usize|
                    k < dim(width) ==> #[trigger] c.spec_counts()[k as int] == occurrences(
                        outcomes@.subrange(0, i as int),
                        k,
                    ),
                forall|k: usize| k < dim(width) ==> #[trigger] c.spec_counts()[k as int] <= i,
            decreases outcomes.len() - i,
        {
            let o = outcomes[i];
            if o >= len {
                return Err(QuantumError::InvalidBasisState);
            }
            proof {
                let before = outcomes@.subrange(0, i as int);
                let after = outcomes@.subrange(0, i as int + 1);
                assert(after.drop_last() == before);
                assert(after.last() == o);
                assert(c.spec_counts()[o as int] <= i);
            }
            c.record(o);
            i += 1;
        }
        assert(outcomes@.subrange(0, outcomes.len() as int) == outcomes@);
        Ok(c)
    }

    /// The histogram of the `width` highest qubits of `outcomes`, basis
    /// states of a register of `num_qubits` qubits.
    pub fn from_prefixes(num_qubits: u32, width: u32, outcomes: &Vec<usize>) -> (r: Result<
        Counts,
        QuantumError,
    >)
        ensures
            r is Ok <==> width <= num_qubits <= MAX_QUBITS && forall|i: int|
                0 <= i < outcomes.len() ==> #[trigger] outcomes@[i] < dim(num_qubits),
            r matches Ok(c) ==> c.wf() && c.spec_width() == width && forall|k: usize|
                k < dim(width) ==> #[trigger] c.spec_counts()[k as int] == occurrences(
                    prefixes(outcomes@, num_qubits, width),
                    k,
                ),
            r matches Err(e) ==> (num_qubits > MAX_QUBITS && e == QuantumError::ResourceExhausted) || (
            num_qubits <= MAX_QUBITS && width > num_qubits && e == QuantumError::InvalidQubitIndex) || (
            width <= num_qubits <= MAX_QUBITS && e == QuantumError::InvalidBasisState),
    {
        if num_qubits > MAX_QUBITS {
            return Err(QuantumError::ResourceExhausted);
        }
        if width > num_qubits {
            return Err(QuantumError::InvalidQubitIndex);
        }
        let len: usize = 1usize << num_qubits;
        let mut cut: Vec<usize> = Vec::with_capacity(outcomes.len());
        let mut i: usize = 0;
        while i < outcomes.len()
            invariant
                width <= num_qubits <= MAX_QUBITS,
                len == dim(num_qubits),
                i <= outcomes.len(),
                cut.len() == i,
                forall|j: int| 0 <= j < i ==> #[trigger] outcomes@[j] < dim(num_qubits),
                forall|j: int| 0 <= j < i ==> #[trigger] cut@[j] == prefix_of(outcomes@[j], num_qubits, width),
                forall|j: int| 0 <= j < i ==> #[trigger] cut@[j] < dim(width),
            decreases outcomes.len() - i,
        {
            let o = outcomes[i];
            if o >= len {
                return Err(QuantumError::InvalidBasisState);
            }
            cut.push(prefix(o, num_qubits, width));
            i += 1;
        }
        assert(cut@ =~= prefixes(outcomes@, num_qubits, width));
        Counts::from_outcomes(width, &cut)
    }

    /// The number of qubits of each outcome.
    pub fn width(&self) -> (r: u32)
        ensures
            r == self.spec_width(),
    {
        self.width
    }

    /// Counts one more measurement of basis state `outcome`.
    pub fn record(&mut self, outcome: usize)
        requires
            old(self).wf(),
            outcome < dim(old(self).spec_width()),
            old(self).spec_counts()[outcome as int] < u64::MAX,
        ensures
            final(self).wf(),
            final(self).spec_width() == old(self).spec_width(),
            final(self).spec_counts() == old(self).spec_counts().update(
                outcome as int,
                (old(self).spec_counts()[outcome as int] + 1) as u64,
            ),
    {
        let c = self.counts[outcome];
        self.counts.set(outcome, c + 1);
    }

    /// How often basis state `outcome` was measured (0 outside the register).
    pub fn count(&self, outcome: usize) -> (r: u64)
        requires
            self.wf(),
        ensures
            r == (if outcome < dim(self.spec_width()) { self.spec_counts()[outcome as int] } else { 0 }),
    {
        if outcome < self.counts.len() {
            self.counts[outcome]
        } else {
            0
        }
    }

    /// How often the basis state written by `key` was measured: `None` where
    /// it never was, or where `key` is not a string of exactly `width` bits.
    pub fn get(&self, key: &str) -> (r: Option<u64>)
        requires
            self.wf(),
        ensures
            r is Some <==> (is_key(key.spec_bytes(), self.spec_width()) && self.spec_counts()[value_of(
                key.spec_bytes(),
            ) as int] > 0),
            r matches Some(c) ==> c == self.spec_counts()[value_of(key.spec_bytes()) as int],
    {
        match parse_key(key.as_bytes(), self.width) {
            Some(k) => {
                let c = self.counts[k];
                if c > 0 {
                    Some(c)
                } else {
                    None
                }
            },
            None => None,
        }
    }

    /// Whether the basis state written by `key` was measured at least once.
    pub fn contains_key(&self, key: &str) -> (r: bool)
        requires
            self.wf(),
        ensures
            r == (is_key(key.spec_bytes(), self.spec_width()) && self.spec_counts()[value_of(
                key.spec_bytes(),
            ) as int] > 0),
    {
        self.get(key).is_some()
    }
}

impl PartialEq for Counts {
    fn eq(&self, other: &Counts) -> (r: bool) {
        if self.width != other.width || self.counts.len() != other.counts.len() {
            return false;
        }
        let mut k: usize = 0;
        while k < self.counts.len()
            invariant
                self.counts.len() == other.counts.len(),
                k <= self.counts.len(),
                forall|i: int| 0 <= i < k ==> self.counts@[i] == other.counts@[i],
            decreases self.counts.len() - k,
        {
            if self.counts[k] != other.counts[k] {
                return false;
            }
            k += 1;
        }
        assert(self.counts@ =~= other.counts@);
        true
    }
}

impl vstd::std_specs::cmp::PartialEqSpecImpl for Counts {
    open spec fn obeys_eq_spec() -> bool {
        true
    }

    open spec fn eq_spec(&self, other: &Counts) -> bool {
        self.spec_width() == other.spec_width() && self.spec_counts() == other.spec_counts()
    }
}

/// `s` writes a basis state of a register of `width` qubits: exactly `width`
/// bits, most significant first.
pub open spec fn is_key(s: Seq<u8>, width: u32) -> bool {
    &&& s.len() == width
    &&& forall|i: int| 0 <= i < s.len() ==> is_bit(#[trigger] s[i])
}

fn parse_key(s: &[u8], width: u32) -> (r: Option<usize>)
    requires
        width <= MAX_QUBITS,
    ensures
        r is Some <==> is_key(s@, width),
        r matches Some(k) ==> k as nat == value_of(s@) && k < dim(width),
{
    if s.len() != width as usize {
        return None;
    }
    let mut value: usize = 0;
    let mut i: usize = 0;
    proof {
        assert(0usize < (1usize << 0u32)) by (bit_vector);
        assert(s@.subrange(0, 0).len() == 0);
    }
    while i < s.len()
        invariant
            s.len() == width,
            width <= MAX_QUBITS,
            i <= s.len(),
            value as nat == value_of(s@.subrange(0, i as int)),
            value < dim(i as u32),
            forall|j: int| 0 <= j < i ==> is_bit(#[trigger] s@[j]),
        decreases s.len() - i,
    {
        let b = s[i];
        if b != 48u8 && b != 49u8 {
            return None;
        }
        let bit: usize = if b == 49u8 { 1 } else { 0 };
        proof {
            let w = i as u32;
            assert(value * 2 + bit < (1usize << (w + 1) as u32)) by (bit_vector)
                requires
                    value < (1usize << w),
                    w < 31,
                    bit <= 1,
            ;
            assert(s@.subrange(0, i as int + 1).drop_last() == s@.subrange(0, i as int));
        }
        value = value * 2 + bit;
        i += 1;
    }
    assert(s@.subrange(0, s.len() as int) == s@);
    Some(value)
}

/// The outcomes `results` read as basis states (negative ones never are one).
pub open spec fn as_states(results: Seq<i32>) -> Seq<usize> {
    Seq::new(results.len(), |i: int| results[i] as usize)
}

/// The histogram of measured basis states `results` of a register of
/// `num_qubits` qubits.
pub fn get_counts(results: Vec<i32>, num_qubits: u32) -> (r: Result<Counts, QuantumError>)
    ensures
        r is Ok <==> num_qubits <= MAX_QUBITS && forall|i: int|
            0 <= i < results.len() ==> 0 <= #[trigger] results@[i] < dim(num_qubits),
        r matches Ok(c) ==> c.wf() && c.spec_width() == num_qubits && forall|k: usize|
            k < dim(num_qubits) ==> #[trigger] c.spec_counts()[k as int] == occurrences(
                as_states(results@),
                k,
            ),
        r matches Err(e) ==> (num_qubits > MAX_QUBITS && e == QuantumError::ResourceExhausted) || (
        num_qubits <= MAX_QUBITS && e == QuantumError::InvalidBasisState),
{
    if num_qubits > MAX_QUBITS {
        return Err(QuantumError::ResourceExhausted);
    }
    let mut states: Vec<usize> = Vec::with_capacity(results.len());
    let mut i: usize = 0;
    while i < results.len()
        invariant
            num_qubits <= MAX_QUBITS,
            i <= results.len(),
            states.len() == i,
            forall|j: int| 0 <= j < i ==> 0 <= #[trigger] results@[j] < dim(num_qubits),
            forall|j: int| 0 <= j < i ==> #[trigger] states@[j] == results@[j] as usize,
        decreases results.len() - i,
    {
        let v = results[i];
        if v < 0 {
            return Err(QuantumError::InvalidBasisState);
        }
        let s = v as usize;
        if s >= (1usize << num_qubits) {
            return Err(QuantumError::InvalidBasisState);
        }
        states.push(s);
        i += 1;
    }
    assert(states@ =~= as_states(results@));
    Counts::from_outcomes(num_qubits, &states)
}

} // verus!
