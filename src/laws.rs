//! Laws of the simulator, proved over the contracts of its operations.
use vstd::prelude::*;
use crate::bits::{MAX_QUBITS, mask, dim, flip, controls_set,
    lemma_flip_in_range, lemma_swap_index};
use crate::gate::Gate;
use crate::measure::{walk_reaches, walk_stops_at};
use crate::state::{basis, gate_image, gate_applied, applied_to_all, flipped, swapped};

verus! {

/// `lin` evaluates `g` as a map that, applied twice to any pair of
/// amplitudes, gives the pair back.
pub open spec fn involutive<A, L: Fn(A, A, A, A) -> A>(g: Gate<A>, lin: L) -> bool {
    forall|x: A, y: A, u: A, v: A, u2: A, v2: A|
        #![trigger call_ensures(lin, (g.a, x, g.b, y), u), call_ensures(lin, (g.a, u, g.b, v), u2), call_ensures(lin, (g.c, u, g.d, v), v2)]
        #![trigger call_ensures(lin, (g.c, x, g.d, y), v), call_ensures(lin, (g.a, u, g.b, v), u2), call_ensures(lin, (g.c, u, g.d, v), v2)]
        call_ensures(lin, (g.a, x, g.b, y), u) && call_ensures(lin, (g.c, x, g.d, y), v)
            && call_ensures(lin, (g.a, u, g.b, v), u2) && call_ensures(lin, (g.c, u, g.d, v), v2)
            ==> u2 == x && v2 == y
}

/// A gate whose action on a pair is an involution, applied twice to the same
/// qubit under the same controls, gives back the amplitudes it started from.
pub proof fn lemma_gate_twice_is_identity<A, L: Fn(A, A, A, A) -> A>(
    s0: Seq<A>,
    s1: Seq<A>,
    s2: Seq<A>,
    n: u32,
    t: u32,
    cmask: usize,
    g: Gate<A>,
    lin: L,
)
    requires
        n <= MAX_QUBITS,
        t < n,
        s0.len() == dim(n),
        cmask & mask(t) == 0,
        involutive(g, lin),
        gate_applied(s0, t, cmask, g, lin, s1),
        gate_applied(s1, t, cmask, g, lin, s2),
    ensures
        s2 == s0,
{
    assert forall|k: int| 0 <= k < s0.len() implies s2[k] == s0[k] by {
        let ku = k as usize;
        lemma_flip_in_range(ku, t, n);
        crate::bits::lemma_flip_keeps_other_bits(ku, t, cmask);
        let j = flip(ku, t);
        assert(gate_image(s0, t, cmask, g, lin, ku, s1[k]));
        assert(gate_image(s0, t, cmask, g, lin, j, s1[j as int]));
        assert(gate_image(s1, t, cmask, g, lin, ku, s2[k]));
        assert(gate_image(s1, t, cmask, g, lin, j, s2[j as int]));
    }
    assert(s2 =~= s0);
}

/// Flipping a qubit of a basis state gives the basis state with that qubit flipped.
pub proof fn lemma_flip_basis<A>(n: u32, i: usize, t: u32, zero: A, one: A)
    requires
        n <= MAX_QUBITS,
        t < n,
        i < dim(n),
    ensures
        flipped(basis(n, i as int, zero, one), t, 0) == basis(n, flip(i, t) as int, zero, one),
{
    let s = basis(n, i as int, zero, one);
    assert forall|k: int| 0 <= k < dim(n) implies #[trigger] flipped(s, t, 0)[k] == basis(
        n,
        flip(i, t) as int,
        zero,
        one,
    )[k] by {
        let ku = k as usize;
        lemma_flip_in_range(ku, t, n);
        lemma_flip_in_range(i, t, n);
        assert(controls_set(ku, 0)) by {
            assert(ku & 0usize == 0usize) by (bit_vector);
        }
        assert((flip(ku, t) == i) == (ku == flip(i, t))) by {
            assert((ku ^ (1usize << t) == i) == (ku == i ^ (1usize << t))) by (bit_vector);
        }
    }
    assert(flipped(s, t, 0) =~= basis(n, flip(i, t) as int, zero, one));
}

/// `lin` evaluates `g` as the exchange of the two amplitudes of a pair
/// (the NOT gate).
pub open spec fn exchanges<A, L: Fn(A, A, A, A) -> A>(g: Gate<A>, lin: L) -> bool {
    &&& forall|x: A, y: A, u: A| #[trigger] call_ensures(lin, (g.a, x, g.b, y), u) ==> u == y
    &&& forall|x: A, y: A, v: A| #[trigger] call_ensures(lin, (g.c, x, g.d, y), v) ==> v == x
}

/// A gate that exchanges the amplitudes of each pair flips its qubit.
pub proof fn lemma_exchange_is_flip<A, L: Fn(A, A, A, A) -> A>(
    s0: Seq<A>,
    s1: Seq<A>,
    n: u32,
    t: u32,
    g: Gate<A>,
    lin: L,
)
    requires
        n <= MAX_QUBITS,
        t < n,
        s0.len() == dim(n),
        exchanges(g, lin),
        gate_applied(s0, t, 0, g, lin, s1),
    ensures
        s1 == flipped(s0, t, 0),
{
    assert forall|k: int| 0 <= k < s0.len() implies s1[k] == flipped(s0, t, 0)[k] by {
        let ku = k as usize;
        lemma_flip_in_range(ku, t, n);
        assert(ku & 0usize == 0usize) by (bit_vector);
        assert(gate_image(s0, t, 0, g, lin, ku, s1[k]));
    }
    assert(s1 =~= flipped(s0, t, 0));
}

/// The NOT gate on qubit 0 of a register whose qubits are all 0 gives the
/// basis state 1.
pub proof fn lemma_not_gives_one<A>(n: u32, zero: A, one: A)
    requires
        1 <= n <= MAX_QUBITS,
    ensures
        flipped(basis(n, 0, zero, one), 0, 0) == basis(n, 1, zero, one),
{
    crate::bits::lemma_dim(n);
    lemma_flip_basis(n, 0, 0, zero, one);
    assert(flip(0, 0) == 1) by {
        assert(0usize ^ (1usize << 0u32) == 1usize) by (bit_vector);
    }
}

proof fn lemma_not_prefix<A, L: Fn(A, A, A, A) -> A>(
    n: u32,
    zero: A,
    one: A,
    g: Gate<A>,
    lin: L,
    trace: Seq<Seq<A>>,
    t: u32,
)
    requires
        t <= n <= MAX_QUBITS,
        exchanges(g, lin),
        trace.len() == n + 1,
        trace[0] == basis(n, 0, zero, one),
        forall|i: int| 0 <= i < n ==> gate_applied(#[trigger] trace[i], i as u32, 0, g, lin, trace[i + 1]),
    ensures
        trace[t as int] == basis(n, ((1usize << t) - 1) as usize as int, zero, one),
    decreases t,
{
    if t == 0 {
        assert(((1usize << 0u32) - 1) as usize == 0usize) by (bit_vector);
    } else {
        let u = (t - 1) as u32;
        lemma_not_prefix(n, zero, one, g, lin, trace, u);
        let i = ((1usize << u) - 1) as usize;
        assert(i < dim(n) && flip(i, u) == ((1usize << t) - 1) as usize) by {
            assert((((1usize << u) - 1) as usize) < (1usize << n) && ((((1usize << u) - 1) as usize)
                ^ (1usize << u)) == ((1usize << t) - 1) as usize) by (bit_vector)
                requires
                    u < n,
                    t == u + 1,
                    n <= 31,
            ;
        }
        assert(gate_applied(trace[u as int], u, 0, g, lin, trace[u + 1]));
        lemma_exchange_is_flip(trace[u as int], trace[u + 1], n, u, g, lin);
        lemma_flip_basis(n, i, u, zero, one);
    }
}

/// Applying a NOT gate to every qubit of a register whose qubits are all 0
/// gives the basis state where all are 1, `2^n - 1`.
pub proof fn lemma_not_all_gives_all_ones<A, L: Fn(A, A, A, A) -> A>(
    n: u32,
    zero: A,
    one: A,
    g: Gate<A>,
    lin: L,
    s: Seq<A>,
)
    requires
        n <= MAX_QUBITS,
        exchanges(g, lin),
        applied_to_all(basis(n, 0, zero, one), n, g, lin, s),
    ensures
        s == basis(n, dim(n) - 1, zero, one),
{
    let trace = choose|trace: Seq<Seq<A>>|
        {
            &&& trace.len() == n + 1
            &&& trace[0] == basis(n, 0, zero, one)
            &&& trace[n as int] == s
            &&& forall|t: int|
                0 <= t < n ==> gate_applied(#[trigger] trace[t], t as u32, 0, g, lin, trace[t + 1])
        };
    lemma_not_prefix(n, zero, one, g, lin, trace, n);
    assert(((1usize << n) - 1) as usize == (dim(n) - 1) as usize);
    crate::bits::lemma_dim(n);
}

/// Exchanging two qubits twice gives back the amplitudes, so also every
/// probability.
pub proof fn lemma_swap_twice_is_identity<A>(s: Seq<A>, n: u32, a: u32, b: u32)
    requires
        n <= MAX_QUBITS,
        a < n,
        b < n,
        s.len() == dim(n),
    ensures
        swapped(swapped(s, a, b), a, b) == s,
{
    assert forall|k: int| 0 <= k < s.len() implies swapped(swapped(s, a, b), a, b)[k] == s[k] by {
        lemma_swap_index(k as usize, a, b, n);
    }
    assert(swapped(swapped(s, a, b), a, b) =~= s);
}

/// A walk never stops at an index whose probability takes nothing from the
/// key (`step(k, p)` is `(k, false)` for every key), except at the last index.
pub proof fn lemma_walk_skips_null<P, K, S: Fn(K, P) -> (K, bool)>(
    probs: Seq<P>,
    key: K,
    step: S,
    r: int,
    p0: P,
)
    requires
        forall|k: K, k2: K, d: bool| #[trigger] call_ensures(step, (k, p0), (k2, d)) ==> k2 == k && !d,
        walk_reaches(probs, key, step, r),
        r < probs.len() - 1,
    ensures
        probs[r] != p0,
{
    reveal(walk_reaches);
    let keys = choose|keys: Seq<K>| walk_stops_at(probs, key, step, keys, r);
    let k = choose|k: K| call_ensures(step, (keys[r], probs[r]), (k, true));
    if probs[r] == p0 {
        assert(call_ensures(step, (keys[r], p0), (k, true)));
    }
}

/// Measuring a basis state gives its index, where the probability `p0` of a
/// zero amplitude takes nothing from the key and the probability `p1` of a
/// unit amplitude uses the key up.
pub proof fn lemma_measure_basis<A, P, K, N: Fn(A) -> P, S: Fn(K, P) -> (K, bool)>(
    n: u32,
    i: usize,
    zero: A,
    one: A,
    p0: P,
    p1: P,
    probs: Seq<P>,
    norm: N,
    key: K,
    step: S,
    r: int,
)
    requires
        n <= MAX_QUBITS,
        i < dim(n),
        probs.len() == dim(n),
        forall|k: int| 0 <= k < probs.len() ==> call_ensures(norm, (basis(n, i as int, zero, one)[k],), #[trigger] probs[k]),
        forall|p: P| #[trigger] call_ensures(norm, (zero,), p) ==> p == p0,
        forall|p: P| #[trigger] call_ensures(norm, (one,), p) ==> p == p1,
        forall|k: K, k2: K, d: bool| #[trigger] call_ensures(step, (k, p0), (k2, d)) ==> k2 == k && !d,
        forall|k: K, k2: K, d: bool| #[trigger] call_ensures(step, (k, p1), (k2, d)) ==> d,
        walk_reaches(probs, key, step, r),
    ensures
        r == i,
{
    reveal(walk_reaches);
    let keys = choose|keys: Seq<K>| walk_stops_at(probs, key, step, keys, r);
    if r < i {
        assert(call_ensures(norm, (basis(n, i as int, zero, one)[r],), probs[r]));
        assert(probs[r] == p0);
        if r < probs.len() - 1 {
            let k = choose|k: K| call_ensures(step, (keys[r], probs[r]), (k, true));
            assert(call_ensures(step, (keys[r], p0), (k, true)));
        }
    } else if r > i {
        assert(call_ensures(norm, (basis(n, i as int, zero, one)[i as int],), probs[i as int]));
        assert(probs[i as int] == p1);
        assert(call_ensures(step, (keys[i as int], p1), (keys[i + 1], false)));
    }
}

/// Padding a register with zero amplitudes for new high qubits and then
/// cutting it back to its old size gives back the amplitudes.
pub proof fn lemma_scratch_round_trip<A>(s: Seq<A>, n: u32, k: u32, zero: A)
    requires
        n + k <= MAX_QUBITS,
        s.len() == dim(n),
    ensures
        Seq::new(dim((n + k) as u32) as nat, |i: int| if i < s.len() { s[i] } else { zero }).subrange(
            0,
            dim(n) as int,
        ) == s,
{
    crate::bits::lemma_dim_grows(n, (n + k) as u32);
    let p = Seq::new(dim((n + k) as u32) as nat, |i: int| if i < s.len() { s[i] } else { zero });
    assert(p.subrange(0, dim(n) as int) =~= s);
}

/// `lin` sends a pair of zero amplitudes to zero, whatever the matrix entries.
pub open spec fn keeps_zero<A, L: Fn(A, A, A, A) -> A>(lin: L, zero: A) -> bool {
    forall|p: A, q: A, v: A| #[trigger] call_ensures(lin, (p, zero, q, zero), v) ==> v == zero
}

/// The NOT gate on qubit 0 followed by a measurement of a register whose
/// qubits were all 0 gives 1.
pub proof fn lemma_not_then_measure<A, P, K, N: Fn(A) -> P, S: Fn(K, P) -> (K, bool)>(
    n: u32,
    zero: A,
    one: A,
    p0: P,
    p1: P,
    s: Seq<A>,
    probs: Seq<P>,
    norm: N,
    key: K,
    step: S,
    r: int,
)
    requires
        1 <= n <= MAX_QUBITS,
        s == flipped(basis(n, 0, zero, one), 0, 0),
        probs.len() == s.len(),
        forall|k: int| 0 <= k < probs.len() ==> call_ensures(norm, (s[k],), #[trigger] probs[k]),
        forall|p: P| #[trigger] call_ensures(norm, (zero,), p) ==> p == p0,
        forall|p: P| #[trigger] call_ensures(norm, (one,), p) ==> p == p1,
        forall|k: K, k2: K, d: bool| #[trigger] call_ensures(step, (k, p0), (k2, d)) ==> k2 == k && !d,
        forall|k: K, k2: K, d: bool| #[trigger] call_ensures(step, (k, p1), (k2, d)) ==> d,
        walk_reaches(probs, key, step, r),
    ensures
        r == 1,
{
    lemma_not_gives_one(n, zero, one);
    crate::bits::lemma_dim(n);
    assert(1usize < (1usize << n)) by (bit_vector)
        requires
            1 <= n <= 31,
    ;
    lemma_measure_basis(n, 1, zero, one, p0, p1, probs, norm, key, step, r);
}

/// NOT applied to every qubit, then a measurement, of a register whose qubits
/// were all 0 gives `2^n - 1`.
pub proof fn lemma_not_all_then_measure<A, L: Fn(A, A, A, A) -> A, P, K, N: Fn(A) -> P, S: Fn(
    K,
    P,
) -> (K, bool)>(
    n: u32,
    zero: A,
    one: A,
    g: Gate<A>,
    lin: L,
    p0: P,
    p1: P,
    s: Seq<A>,
    probs: Seq<P>,
    norm: N,
    key: K,
    step: S,
    r: int,
)
    requires
        n <= MAX_QUBITS,
        exchanges(g, lin),
        applied_to_all(basis(n, 0, zero, one), n, g, lin, s),
        probs.len() == s.len(),
        forall|k: int| 0 <= k < probs.len() ==> call_ensures(norm, (s[k],), #[trigger] probs[k]),
        forall|p: P| #[trigger] call_ensures(norm, (zero,), p) ==> p == p0,
        forall|p: P| #[trigger] call_ensures(norm, (one,), p) ==> p == p1,
        forall|k: K, k2: K, d: bool| #[trigger] call_ensures(step, (k, p0), (k2, d)) ==> k2 == k && !d,
        forall|k: K, k2: K, d: bool| #[trigger] call_ensures(step, (k, p1), (k2, d)) ==> d,
        walk_reaches(probs, key, step, r),
    ensures
        r == dim(n) - 1,
{
    lemma_not_all_gives_all_ones(n, zero, one, g, lin, s);
    crate::bits::lemma_dim(n);
    lemma_measure_basis(n, (dim(n) - 1) as usize, zero, one, p0, p1, probs, norm, key, step, r);
}

/// The Bell state, Hadamard on qubit 0 then a controlled NOT from qubit 0 to
/// qubit 1 on two qubits that were 0, has zero amplitude at `01` and `10`.
pub proof fn lemma_bell_state<A, L: Fn(A, A, A, A) -> A>(
    zero: A,
    one: A,
    h: Gate<A>,
    lin: L,
    s1: Seq<A>,
    s2: Seq<A>,
)
    requires
        keeps_zero(lin, zero),
        gate_applied(basis(2, 0, zero, one), 0, 0, h, lin, s1),
        s2 == flipped(s1, 1, mask(0)),
    ensures
        s2.len() == 4,
        s2[1] == zero,
        s2[2] == zero,
{
    let s0 = basis(2, 0, zero, one);
    assert((1usize << 2u32) == 4usize && (2usize & 0usize) == 0usize && (2usize & (1usize << 0u32)) == 0usize
        && (2usize ^ (1usize << 0u32)) == 3usize && (3usize & 0usize) == 0usize && (3usize & (1usize << 0u32))
        != 0usize && (3usize ^ (1usize << 0u32)) == 2usize && (1usize & (1usize << 0u32)) == (1usize << 0u32)
        && (1usize ^ (1usize << 1u32)) == 3usize && (2usize & (1usize << 0u32)) != (1usize << 0u32)) by (bit_vector);
    assert(gate_image(s0, 0, 0, h, lin, 2, s1[2]));
    assert(gate_image(s0, 0, 0, h, lin, 3, s1[3]));
}

/// Measuring the Bell state never gives `01` or `10`, where the probability
/// of a zero amplitude takes nothing from the key.
pub proof fn lemma_bell_measure<A, L: Fn(A, A, A, A) -> A, P, K, N: Fn(A) -> P, S: Fn(K, P) -> (
    K,
    bool,
)>(
    zero: A,
    one: A,
    h: Gate<A>,
    lin: L,
    s1: Seq<A>,
    s2: Seq<A>,
    p0: P,
    probs: Seq<P>,
    norm: N,
    key: K,
    step: S,
    r: int,
)
    requires
        keeps_zero(lin, zero),
        gate_applied(basis(2, 0, zero, one), 0, 0, h, lin, s1),
        s2 == flipped(s1, 1, mask(0)),
        probs.len() == s2.len(),
        forall|k: int| 0 <= k < probs.len() ==> call_ensures(norm, (s2[k],), #[trigger] probs[k]),
        forall|p: P| #[trigger] call_ensures(norm, (zero,), p) ==> p == p0,
        forall|k: K, k2: K, d: bool| #[trigger] call_ensures(step, (k, p0), (k2, d)) ==> k2 == k && !d,
        walk_reaches(probs, key, step, r),
    ensures
        r != 1,
        r != 2,
{
    lemma_bell_state(zero, one, h, lin, s1, s2);
    if r == 1 || r == 2 {
        assert(call_ensures(norm, (s2[r],), probs[r]));
        lemma_walk_skips_null(probs, key, step, r, p0);
    }
}

/// Hadamard on qubits 0 and 1, then Toffoli with controls 0 and 1 and target
/// 2, on three qubits that were 0: no basis state where the target is 1
/// without both controls being 1, nor `011`, has a nonzero amplitude.
pub proof fn lemma_toffoli_state<A, L: Fn(A, A, A, A) -> A>(
    zero: A,
    one: A,
    h: Gate<A>,
    lin: L,
    s1: Seq<A>,
    s2: Seq<A>,
    s3: Seq<A>,
)
    requires
        keeps_zero(lin, zero),
        gate_applied(basis(3, 0, zero, one), 0, 0, h, lin, s1),
        gate_applied(s1, 1, 0, h, lin, s2),
        s3 == flipped(s2, 2, mask(0) | mask(1)),
    ensures
        s3.len() == 8,
        s3[3] == zero,
        s3[4] == zero,
        s3[5] == zero,
        s3[6] == zero,
{
    let s0 = basis(3, 0, zero, one);
    assert((1usize << 3u32) == 8usize && ((1usize << 0u32) | (1usize << 1u32)) == 3usize
        && (1usize << 0u32) == 1usize && (1usize << 1u32) == 2usize && (1usize << 2u32) == 4usize) by (bit_vector);
    assert forall|k: usize| 2 <= k < 8 implies #[trigger] s1[k as int] == zero by {
        assert(k & 0usize == 0usize && (k ^ 1usize) >= 2 && (k ^ 1usize) < 8) by (bit_vector)
            requires
                2 <= k < 8,
        ;
        assert(gate_image(s0, 0, 0, h, lin, k, s1[k as int]));
    }
    assert forall|k: usize| 4 <= k < 8 implies #[trigger] s2[k as int] == zero by {
        assert(k & 0usize == 0usize && (k ^ 2usize) >= 4 && (k ^ 2usize) < 8) by (bit_vector)
            requires
                4 <= k < 8,
        ;
        assert(s1[k as int] == zero);
        assert(s1[(k ^ 2usize) as int] == zero);
        assert(gate_image(s1, 1, 0, h, lin, k, s2[k as int]));
    }
    assert((3usize & 3usize) == 3usize && (3usize ^ 4usize) == 7usize && (4usize & 3usize) != 3usize
        && (5usize & 3usize) != 3usize && (6usize & 3usize) != 3usize) by (bit_vector);
    assert(s2[7] == zero);
    assert(s2[4] == zero);
    assert(s2[5] == zero);
    assert(s2[6] == zero);
}

/// Measuring the state of `lemma_toffoli_state` never gives `011`, `100`,
/// `101` or `110`, where the probability of a zero amplitude takes nothing
/// from the key.
pub proof fn lemma_toffoli_measure<A, L: Fn(A, A, A, A) -> A, P, K, N: Fn(A) -> P, S: Fn(K, P) -> (
    K,
    bool,
)>(
    zero: A,
    one: A,
    h: Gate<A>,
    lin: L,
    s1: Seq<A>,
    s2: Seq<A>,
    s3: Seq<A>,
    p0: P,
    probs: Seq<P>,
    norm: N,
    key: K,
    step: S,
    r: int,
)
    requires
        keeps_zero(lin, zero),
        gate_applied(basis(3, 0, zero, one), 0, 0, h, lin, s1),
        gate_applied(s1, 1, 0, h, lin, s2),
        s3 == flipped(s2, 2, mask(0) | mask(1)),
        probs.len() == s3.len(),
        forall|k: int| 0 <= k < probs.len() ==> call_ensures(norm, (s3[k],), #[trigger] probs[k]),
        forall|p: P| #[trigger] call_ensures(norm, (zero,), p) ==> p == p0,
        forall|k: K, k2: K, d: bool| #[trigger] call_ensures(step, (k, p0), (k2, d)) ==> k2 == k && !d,
        walk_reaches(probs, key, step, r),
    ensures
        r < 3 || r == 7,
{
    lemma_toffoli_state(zero, one, h, lin, s1, s2, s3);
    reveal(walk_reaches);
    if 3 <= r < 7 {
        assert(call_ensures(norm, (s3[r],), probs[r]));
        lemma_walk_skips_null(probs, key, step, r, p0);
    }
}

/// Where `lin` is a function of its arguments, the result of a gate
/// application is determined by its input: two dispatches that both meet the
/// contract, in whatever order their pairs were computed, agree.
pub proof fn lemma_dispatch_deterministic<A, L: Fn(A, A, A, A) -> A>(
    old: Seq<A>,
    t: u32,
    cmask: usize,
    g: Gate<A>,
    lin: L,
    r1: Seq<A>,
    r2: Seq<A>,
)
    requires
        old.len() <= usize::MAX,
        forall|args: (A, A, A, A), v1: A, v2: A|
            #[trigger] call_ensures(lin, args, v1) && #[trigger] call_ensures(lin, args, v2) ==> v1 == v2,
        gate_applied(old, t, cmask, g, lin, r1),
        gate_applied(old, t, cmask, g, lin, r2),
    ensures
        r1 == r2,
{
    assert forall|k: int| 0 <= k < r1.len() implies r1[k] == r2[k] by {
        assert(gate_image(old, t, cmask, g, lin, k as usize, r1[k]));
        assert(gate_image(old, t, cmask, g, lin, k as usize, r2[k]));
    }
    assert(r1 =~= r2);
}

} // verus!
