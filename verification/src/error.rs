use vstd::prelude::*;

verus! {

/// Why an operation on the store was refused. A refused operation changes
/// nothing.
#[derive(Clone, Copy, Debug, PartialEq, Eq, Structural)]
pub enum ErrorCode {
    /// The authorising identity is not the owner stored in the record.
    Unauthorized,
    /// The slot's address is not the one derived from owner and symbol.
    AddressMismatch,
    /// No address can be derived from owner and symbol.
    DerivationExhausted,
    /// The slot is occupied on creation, holds no record on update, or is
    /// too small for the record.
    AllocationFailure,
}

impl ErrorCode {
    /// The text that `message` gives.
    pub open spec fn spec_message(self) -> Seq<char> {
        match self {
            ErrorCode::Unauthorized => "You are not authorized to perform this action."@,
            ErrorCode::AddressMismatch => "The slot is not at the address derived for this record."@,
            ErrorCode::DerivationExhausted => "No address can be derived for this record."@,
            ErrorCode::AllocationFailure => "The slot cannot hold this record."@,
        }
    }

    /// The text shown to a caller for this error.
    pub fn message(&self) -> (text: String)
        ensures
            text@ == self.spec_message(),
    {
        match self {
            ErrorCode::Unauthorized => "You are not authorized to perform this action.".to_owned(),
            ErrorCode::AddressMismatch => "The slot is not at the address derived for this record.".to_owned(),
            ErrorCode::DerivationExhausted => "No address can be derived for this record.".to_owned(),
            ErrorCode::AllocationFailure => "The slot cannot hold this record.".to_owned(),
        }
    }
}

} // verus!
