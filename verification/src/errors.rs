//! The error kinds of the scheme.  None is recoverable within the
//! core; verification failures are never errors but `false` returns.

use vstd::prelude::*;

verus! {

/// Why a prover-side operation refused to produce output.
#[derive(Clone, Copy, Debug, PartialEq, Eq, Structural)]
pub enum SchemeError {
    /// A vector longer than the codeword length was offered to the
    /// Reed-Solomon encoder.
    EncodeDegreeExceeded,
    /// A declared length or commitment disagreed with the data.
    PreconditionMismatch,
    /// The constraint synthesizer reported an error of its own.
    FrontEndFailure,
}

} // verus!
