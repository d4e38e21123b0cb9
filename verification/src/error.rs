//! Why a command on the ledger changed nothing.

use vstd::prelude::*;

verus! {

/// The reasons for which a command is refused. A refused command leaves the
/// ledger exactly as it was.
#[derive(Debug, Clone, Copy, PartialEq, Eq, Structural)]
pub enum LedgerError {
    /// The identifier offered for a new record is already in use.
    DuplicateId,
    /// No participant has the given identifier.
    UnknownParticipant,
    /// No receipt has the given identifier.
    UnknownReceipt,
    /// The receipt to carve an amount out of is itself an exclusion record.
    ParentIsExclusion,
}

impl LedgerError {
    /// A short description for messages.
    pub fn describe(&self) -> (text: &'static str)
        ensures
            text@ == match *self {
                LedgerError::DuplicateId => "identifier already in use"@,
                LedgerError::UnknownParticipant => "participant not found"@,
                LedgerError::UnknownReceipt => "receipt not found"@,
                LedgerError::ParentIsExclusion => "receipt is an exclusion record"@,
            },
    {
        match self {
            LedgerError::DuplicateId => "identifier already in use",
            LedgerError::UnknownParticipant => "participant not found",
            LedgerError::UnknownReceipt => "receipt not found",
            LedgerError::ParentIsExclusion => "receipt is an exclusion record",
        }
    }
}

} // verus!
