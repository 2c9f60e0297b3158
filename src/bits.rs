//! Index arithmetic on basis states.
use vstd::prelude::*;

verus! {

/// The largest register width the index arithmetic supports.
pub const MAX_QUBITS: u32 = 31;

/// The single-bit mask of qubit `t`.
pub open spec fn mask(t: u32) -> usize {
    1usize << t
}

/// Number of amplitudes of an `n`-qubit register.
pub open spec fn dim(n: u32) -> usize {
    1usize << n
}

/// Whether qubit `t` is 1 in basis state `k`.
pub open spec fn has_bit(k: usize, t: u32) -> bool {
    k & mask(t) != 0
}

/// Basis state `k` with qubit `t` flipped.
pub open spec fn flip(k: usize, t: u32) -> usize {
    k ^ mask(t)
}

/// Whether every qubit of `cmask` is 1 in basis state `k`.
pub open spec fn controls_set(k: usize, cmask: usize) -> bool {
    k & cmask == cmask
}

pub proof fn lemma_flip_in_range(k: usize, t: u32, n: u32)
    requires
        n <= MAX_QUBITS,
        t < n,
        k < dim(n),
    ensures
        flip(k, t) < dim(n),
        flip(flip(k, t), t) == k,
        has_bit(flip(k, t), t) == !has_bit(k, t),
        flip(k, t) != k,
{
    assert(k ^ (1usize << t) < (1usize << n) && (k ^ (1usize << t)) ^ (1usize << t) == k
        && ((k ^ (1usize << t)) & (1usize << t) != 0) == !(k & (1usize << t) != 0)
        && (k ^ (1usize << t)) != k) by (bit_vector)
        requires
            n <= 31,
            t < n,
            k < (1usize << n),
    ;
}

pub proof fn lemma_flip_keeps_other_bits(k: usize, t: u32, c: usize)
    requires
        t <= MAX_QUBITS,
        c & mask(t) == 0,
    ensures
        controls_set(flip(k, t), c) == controls_set(k, c),
{
    assert(((k ^ (1usize << t)) & c == c) == (k & c == c)) by (bit_vector)
        requires
            t <= 31,
            c & (1usize << t) == 0,
    ;
}

pub proof fn lemma_dim(n: u32)
    requires
        n <= MAX_QUBITS,
    ensures
        dim(n) > 0,
        forall|t: u32| t < n ==> #[trigger] mask(t) < dim(n),
{
    assert((1usize << n) > 0) by (bit_vector)
        requires
            n <= 31,
    ;
    assert forall|t: u32| t < n implies #[trigger] mask(t) < dim(n) by {
        assert((1usize << t) < (1usize << n)) by (bit_vector)
            requires
                t < n,
                n <= 31,
        ;
    }
}

/// Basis state `k` with the values of qubits `a` and `b` exchanged.
pub open spec fn swap_index(k: usize, a: u32, b: u32) -> usize {
    if has_bit(k, a) != has_bit(k, b) {
        k ^ mask(a) ^ mask(b)
    } else {
        k
    }
}

pub proof fn lemma_swap_index(k: usize, a: u32, b: u32, n: u32)
    requires
        n <= MAX_QUBITS,
        a < n,
        b < n,
        k < dim(n),
    ensures
        swap_index(k, a, b) < dim(n),
        swap_index(swap_index(k, a, b), a, b) == k,
{
    assert(((k & (1usize << a) != 0) != (k & (1usize << b) != 0)) ==> (
        (k ^ (1usize << a) ^ (1usize << b)) < (1usize << n)
        && (((k ^ (1usize << a) ^ (1usize << b)) & (1usize << a) != 0)
            != ((k ^ (1usize << a) ^ (1usize << b)) & (1usize << b) != 0))
        && (k ^ (1usize << a) ^ (1usize << b)) ^ (1usize << a) ^ (1usize << b) == k)) by (bit_vector)
        requires
            n <= 31,
            a < n,
            b < n,
            k < (1usize << n),
    ;
}

/// The index of a register of `n` qubits that holds `k` in its lower qubits
/// and 0 in the `n - w` qubits above them lies in the lower block.
pub proof fn lemma_dim_grows(w: u32, n: u32)
    requires
        w <= n <= MAX_QUBITS,
    ensures
        dim(w) <= dim(n),
{
    assert((1usize << w) <= (1usize << n)) by (bit_vector)
        requires
            w <= n <= 31,
    ;
}

/// The work item that handles basis state `k` when qubit `t` is the target:
/// `k` with bit `t` taken out.
pub open spec fn work_item(k: usize, t: u32) -> usize {
    ((k >> (t + 1) as u32) << t) | (k & (mask(t) - 1) as usize)
}

/// The basis state with qubit `t` at 0 that work item `w` handles: `w` with a
/// 0 put in at bit `t`.
pub open spec fn pair_base(w: usize, t: u32) -> usize {
    ((w >> t) << (t + 1) as u32) | (w & (mask(t) - 1) as usize)
}

pub proof fn lemma_work_items(w: usize, t: u32, n: u32)
    requires
        n <= MAX_QUBITS,
        t < n,
        w < dim((n - 1) as u32),
    ensures
        pair_base(w, t) < dim(n),
        !has_bit(pair_base(w, t), t),
        work_item(pair_base(w, t), t) == w,
        work_item(flip(pair_base(w, t), t), t) == w,
{
    let u = (n - 1) as u32;
    assert({
        let i = ((w >> t) << (t + 1) as u32) | (w & ((1usize << t) - 1) as usize);
        &&& i < (1usize << n)
        &&& i & (1usize << t) == 0
        &&& (((i >> (t + 1) as u32) << t) | (i & ((1usize << t) - 1) as usize)) == w
        &&& ((((i ^ (1usize << t)) >> (t + 1) as u32) << t) | ((i ^ (1usize << t)) & ((1usize << t)
            - 1) as usize)) == w
    }) by (bit_vector)
        requires
            n <= 31,
            t < n,
            u == n - 1,
            w < (1usize << u),
    ;
}

pub proof fn lemma_work_item_of(k: usize, t: u32, n: u32)
    requires
        n <= MAX_QUBITS,
        t < n,
        k < dim(n),
    ensures
        work_item(k, t) < dim((n - 1) as u32),
        k == pair_base(work_item(k, t), t) || k == flip(pair_base(work_item(k, t), t), t),
{
    let u = (n - 1) as u32;
    assert({
        let w = ((k >> (t + 1) as u32) << t) | (k & ((1usize << t) - 1) as usize);
        let i = ((w >> t) << (t + 1) as u32) | (w & ((1usize << t) - 1) as usize);
        &&& w < (1usize << u)
        &&& (k == i || k == i ^ (1usize << t))
    }) by (bit_vector)
        requires
            n <= 31,
            t < n,
            u == n - 1,
            k < (1usize << n),
    ;
}

} // verus!
