//! Single-qubit gates as 2x2 matrices over an amplitude type.
use vstd::prelude::*;

verus! {

/// The matrix `[[a, b], [c, d]]`: a pair `(x, y)` of amplitudes whose target
/// qubit reads 0 and 1 becomes `(a*x + b*y, c*x + d*y)`.
#[derive(Clone, Copy, Debug)]
pub struct Gate<A> {
    pub a: A,
    pub b: A,
    pub c: A,
    pub d: A,
}

impl<A: Copy> Gate<A> {
    pub fn new(a: A, b: A, c: A, d: A) -> (r: Gate<A>)
        ensures
            r == (Gate { a, b, c, d }),
    {
        Gate { a, b, c, d }
    }
}

} // verus!
