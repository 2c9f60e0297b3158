//! Integer helpers for algorithms built on the simulator.
use vstd::prelude::*;
use vstd::arithmetic::div_mod::{lemma_mod_self_0, lemma_small_mod, lemma_fundamental_div_mod,
    lemma_mod_multiples_basic};

verus! {

pub open spec fn two_to(w: nat) -> nat
    decreases w,
{
    if w == 0 {
        1
    } else {
        2 * two_to((w - 1) as nat)
    }
}

/// The number of qubits needed to hold `n`: the least `w` with `n < 2^w`,
/// that is `ceil(log2(n + 1))`; 0 for a negative `n`.
pub fn get_width(n: i32) -> (r: i32)
    ensures
        n < 0 ==> r == 0,
        n >= 0 ==> {
            &&& 0 <= r <= 31
            &&& n < two_to(r as nat)
            &&& r == 0 || two_to((r - 1) as nat) <= n
        },
{
    if n < 0 {
        return 0;
    }
    let target: u64 = n as u64;
    let mut p: u64 = 1;
    let mut w: i32 = 0;
    while p <= target
        invariant
            0 <= w <= 31,
            p == two_to(w as nat),
            target == n,
            0 <= n,
            w == 0 || two_to((w - 1) as nat) <= n,
        decreases 32 - w,
    {
        proof {
            if w == 31 {
                reveal_with_fuel(two_to, 32);
                assert(two_to(31) == 2147483648);
                assert(false);
            }
        }
        p = p * 2;
        w = w + 1;
    }
    w
}

/// The greatest common divisor by Euclid's algorithm.
pub open spec fn euclid(a: nat, b: nat) -> nat
    decreases b,
{
    if b == 0 {
        a
    } else {
        euclid(b, a % b)
    }
}

/// The greatest common divisor of two non-negative numbers (`gcd(a, 0) == a`).
pub fn gcd(a: i32, b: i32) -> (r: i32)
    requires
        a >= 0,
        b >= 0,
    ensures
        r as nat == euclid(a as nat, b as nat),
        r == 0 || (a % r == 0 && b % r == 0),
{
    proof {
        lemma_euclid_divides(a as nat, b as nat);
    }
    let mut x = a;
    let mut y = b;
    while y != 0
        invariant
            x >= 0,
            y >= 0,
            euclid(x as nat, y as nat) == euclid(a as nat, b as nat),
        decreases y,
    {
        let t = x;
        x = y;
        y = t % y;
    }
    x
}

/// What Euclid's algorithm returns divides both arguments.
pub proof fn lemma_euclid_divides(a: nat, b: nat)
    ensures
        euclid(a, b) == 0 || (a % euclid(a, b) == 0 && b % euclid(a, b) == 0),
    decreases b,
{
    if b == 0 {
        if a != 0 {
            lemma_mod_self_0(a as int);
            lemma_small_mod(0, a);
        }
    } else {
        lemma_euclid_divides(b, a % b);
        let g = euclid(b, a % b);
        assert(euclid(a, b) == g);
        if g != 0 {
            let r = a % b;
            let q = a / b;
            let qb = b / g;
            let qr = r / g;
            lemma_fundamental_div_mod(a as int, b as int);
            lemma_fundamental_div_mod(b as int, g as int);
            lemma_fundamental_div_mod(r as int, g as int);
            assert(b == g * qb);
            assert(r == g * qr);
            assert(a == b * q + r);
            assert(a == (qb * q + qr) * g) by (nonlinear_arith)
                requires
                    b == g * qb,
                    r == g * qr,
                    a == b * q + r,
            ;
            lemma_mod_multiples_basic((qb * q + qr) as int, g as int);
        }
    }
}

/// Whether bit `n` of `number` is set, as 0 or 1.
pub fn get_bit(number: i32, n: u32) -> (r: i32)
    requires
        n < 32,
    ensures
        r == (if number & (1i32 << n) != 0 { 1i32 } else { 0i32 }),
{
    if number & (1i32 << n) != 0 {
        1
    } else {
        0
    }
}

} // verus!
