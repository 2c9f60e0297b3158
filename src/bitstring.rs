//! Basis states written as strings of bits, most significant qubit first.
use vstd::prelude::*;
use crate::bits::{MAX_QUBITS, dim};

verus! {

/// Bracket characters of the ket notation `|0110>`, which carry no bit.
pub open spec fn is_bracket(b: u8) -> bool {
    b == 124u8 || b == 62u8
}

pub open spec fn is_bit(b: u8) -> bool {
    b == 48u8 || b == 49u8
}

/// The characters of `s` that are not brackets, in order.
pub open spec fn digits(s: Seq<u8>) -> Seq<u8>
    decreases s.len(),
{
    if s.len() == 0 {
        Seq::empty()
    } else if is_bracket(s.last()) {
        digits(s.drop_last())
    } else {
        digits(s.drop_last()).push(s.last())
    }
}

/// The number whose binary digits, most significant first, are `d`.
pub open spec fn value_of(d: Seq<u8>) -> nat
    decreases d.len(),
{
    if d.len() == 0 {
        0
    } else {
        2 * value_of(d.drop_last()) + (if d.last() == 49u8 { 1nat } else { 0nat })
    }
}

/// `s` is a bit string a register can be built from: besides brackets only
/// `0` and `1`, at least one of them and no more than the largest register.
pub open spec fn valid_bit_string(s: Seq<u8>) -> bool {
    &&& 1 <= digits(s).len() <= MAX_QUBITS
    &&& forall|i: int| 0 <= i < digits(s).len() ==> is_bit(#[trigger] digits(s)[i])
}

/// Reads a bit string: `Some((value, width))` where it is valid.
pub fn parse_bit_string(s: &[u8]) -> (r: Option<(usize, u32)>)
    ensures
        r is Some <==> valid_bit_string(s@),
        r matches Some((value, width)) ==> {
            &&& width as int == digits(s@).len()
            &&& value as nat == value_of(digits(s@))
            &&& value < dim(width)
        },
{
    let mut ok = true;
    let mut value: usize = 0;
    let mut width: u32 = 0;
    let mut i: usize = 0;
    proof {
        assert(0usize < (1usize << 0u32)) by (bit_vector);
        assert(s@.subrange(0, 0).len() == 0);
    }
    while i < s.len()
        invariant
            i <= s.len(),
            ok ==> {
                &&& width as int == digits(s@.subrange(0, i as int)).len()
                &&& width <= MAX_QUBITS
                &&& value as nat == value_of(digits(s@.subrange(0, i as int)))
                &&& value < dim(width)
                &&& forall|j: int|
                    0 <= j < width ==> is_bit(#[trigger] digits(s@.subrange(0, i as int))[j])
            },
            !ok ==> {
                ||| digits(s@.subrange(0, i as int)).len() > MAX_QUBITS
                ||| exists|j: int|
                    0 <= j < digits(s@.subrange(0, i as int)).len() && !is_bit(
                        #[trigger] digits(s@.subrange(0, i as int))[j],
                    )
            },
        decreases s.len() - i,
    {
        let b = s[i];
        let ghost before = s@.subrange(0, i as int);
        let ghost after = s@.subrange(0, i as int + 1);
        assert(after.drop_last() == before);
        assert(after.last() == b);
        if b == 124u8 || b == 62u8 {
        } else if !ok {
            proof {
                if digits(before).len() <= MAX_QUBITS {
                    let j = choose|j: int|
                        0 <= j < digits(before).len() && !is_bit(#[trigger] digits(before)[j]);
                    assert(digits(after)[j] == digits(before)[j]);
                }
            }
        } else if b != 48u8 && b != 49u8 {
            ok = false;
            assert(digits(after)[width as int] == b);
        } else if width == MAX_QUBITS {
            ok = false;
        } else {
            let bit: usize = if b == 49u8 { 1 } else { 0 };
            proof {
                let w = width;
                assert(value * 2 + bit < (1usize << (w + 1) as u32)) by (bit_vector)
                    requires
                        value < (1usize << w),
                        w < 31,
                        bit <= 1,
                ;
                assert(digits(after).drop_last() == digits(before));
                assert forall|j: int| 0 <= j < width + 1 implies is_bit(#[trigger] digits(after)[j]) by {
                    if j < width {
                        assert(digits(after)[j] == digits(before)[j]);
                    }
                }
            }
            value = value * 2 + bit;
            width = width + 1;
        }
        i += 1;
    }
    assert(s@.subrange(0, s.len() as int) == s@);
    if ok && width >= 1 {
        Some((value, width))
    } else {
        None
    }
}

} // verus!
