//! Status codes and finish modes shared by every engine call.

use vstd::prelude::*;

verus! {

/// Failure status reported by engine calls. Success is the `Ok` side of a
/// `Result`; these variants classify every failure the engine can report.
#[derive(Clone, Copy, Debug, PartialEq, Eq, Structural)]
pub enum Status {
    /// The allocator could not supply a buffer; the caller may retry with a
    /// larger budget.
    AllocationFailure,
    /// A configuration or parameter violates the property invariants, or a
    /// call was made in the wrong session state.
    InvalidConfiguration,
    /// The compressed stream is corrupt or inconsistent with the supplied
    /// properties; not resumable.
    DataError,
    /// The stream ended before the requested amount of data was decoded;
    /// the caller may supply more input and retry.
    InsufficientInput,
    /// The declared output length is too small for the data the stream
    /// describes.
    InsufficientOutput,
}

/// End-of-stream policy for an encode or decode call.
#[derive(Clone, Copy, Debug, PartialEq, Eq, Structural)]
pub enum FinishMode {
    /// Leave the stream resumable: no terminator is written, and a decoder
    /// stops once it has produced the declared number of bytes.
    Any,
    /// Terminate the stream with an explicit end marker so a decoder can
    /// detect the end without outside length information.
    End,
}

} // verus!
