//! Why a transfer is rejected.

use vstd::prelude::*;

verus! {

/// The reasons for which a transfer is rejected.
#[derive(Debug, PartialEq, Eq)]
pub enum Error {
    /// The inputs and the outputs of `denom` do not add up to the same amount.
    InputOutputMismatch { denom: String },
    /// `address` would have to give more of `denom` than it has on record.
    InsufficientBalance { address: String, denom: String },
    /// What the transfer takes from its senders is more than an amount can
    /// hold.
    ArithmeticFailure,
}

/// The text of an error.
pub open spec fn message_text(e: Error) -> Seq<char> {
    match e {
        Error::InputOutputMismatch { .. } => "Input and output mismatch"@,
        Error::InsufficientBalance { .. } => "Insufficient balance"@,
        Error::ArithmeticFailure => "Calculation failure"@,
    }
}

impl Error {
    /// The text of the error, without the denom or address that it names.
    pub fn message(&self) -> (res: String)
        ensures
            res@ == message_text(*self),
    {
        match self {
            Error::InputOutputMismatch { .. } => "Input and output mismatch".to_owned(),
            Error::InsufficientBalance { .. } => "Insufficient balance".to_owned(),
            Error::ArithmeticFailure => "Calculation failure".to_owned(),
        }
    }
}

} // verus!
