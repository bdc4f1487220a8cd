//! Error kinds shared by every engine.

use vstd::prelude::*;

verus! {

/// An error returned by an engine constructor or decision operation.
///
/// All other inputs — out-of-range trust weights, predictions inconsistent
/// with reality, missing prediction-map entries — are valid inputs with
/// well-defined behavior, not errors.
#[derive(Clone, Copy, Debug, PartialEq, Eq, Structural)]
pub enum EngineError {
    /// A non-positive cost, price, capacity or machine count was supplied at
    /// construction.
    InvalidConfiguration,
    /// The two input sequences of a scheduling call differ in length.
    LengthMismatch,
    /// A search was asked for the maximum of an empty sequence.
    EmptyInput,
}

} // verus!
