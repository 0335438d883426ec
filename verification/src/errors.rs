use vstd::prelude::*;

verus! {

/// The failures the engine can surface. They are unrecoverable at the
/// operator level and propagate to the driver.
#[derive(Clone, Copy, Debug, PartialEq, Eq, Structural)]
pub enum EngineError {
    /// A logical time earlier than one already finalized was offered.
    NonMonotonicTime,
    /// Values of incompatible shape were joined or keyed.
    TypeMismatch,
    /// The round cap was reached before the iteration converged.
    NonConvergence,
    /// A net multiplicity or a derived coordinate left the representable
    /// range of its machine integer.
    Overflow,
}

} // verus!
