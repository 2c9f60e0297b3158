//! A state-vector simulator for quantum registers.
//!
//! A register of `n` qubits is a sequence of `2^n` amplitudes; bit `b` of an
//! index is the value of qubit `b` (qubit 0 is the lowest-order bit). The
//! engine is generic over the amplitude type: the linear combination of two
//! amplitudes is supplied by the caller, so every index computation, pairing
//! and permutation is verified here while the number format stays the
//! caller's choice.
use vstd::prelude::*;

pub mod bits;
pub mod bitstring;
pub mod error;
pub mod gate;
pub mod laws;
pub mod measure;
pub mod simulator;
pub mod state;
pub mod utilities;

pub use error::QuantumError;
pub use gate::Gate;
pub use measure::{get_counts, Counts};
pub use simulator::{GateSet, Simulator};
pub use state::{Backend, State};
pub use utilities::{gcd, get_width};

verus! {

} // verus!
