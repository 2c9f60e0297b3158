//! Errors of the simulator.
use vstd::prelude::*;

verus! {

/// Why an operation on a register failed.
#[derive(Clone, Copy, Debug, PartialEq, Eq, Structural)]
pub enum QuantumError {
    /// The compute context of a backend could not be built.
    BackendInitFailed,
    /// The register would have more amplitudes than can be stored.
    ResourceExhausted,
    /// A qubit index is out of range, or a control and a target coincide.
    InvalidQubitIndex,
    /// A basis state lies outside the register.
    InvalidBasisState,
    /// A bit string holds a character other than `0`, `1`, `|` and `>`, or
    /// no bit at all.
    InvalidBitString,
    /// Reading the amplitudes back from a device failed.
    DeviceReadFailed,
    /// A device could not run a dispatched operation.
    KernelDispatchFailed,
}

} // verus!
