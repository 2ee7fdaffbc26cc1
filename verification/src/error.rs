//! The ways in which an operation of the store can fail.

use vstd::prelude::*;
use vstd::string::StringExecFns;

verus! {

/// Why an operation on a transaction was refused.
#[derive(Debug, Clone, Copy, PartialEq, Eq, Structural)]
pub enum StoreError {
    /// Savepoints were asked for; no backend of this store has them.
    SavepointsUnsupported,
    /// A stored key or value is not hexadecimal text, so this store did not
    /// write it.
    CorruptEntry,
    /// The transaction was used after its commit.
    TransactionFinished,
}

impl StoreError {
    /// The text shown for the error.
    pub open spec fn text(self) -> Seq<char> {
        match self {
            StoreError::SavepointsUnsupported => "savepoints are not supported"@,
            StoreError::CorruptEntry => "stored entry is not hexadecimal"@,
            StoreError::TransactionFinished => "transaction is already committed"@,
        }
    }

    /// The text shown for the error.
    pub fn message(&self) -> (r: String)
        ensures
            r@ == self.text(),
    {
        match self {
            StoreError::SavepointsUnsupported => String::from_str("savepoints are not supported"),
            StoreError::CorruptEntry => String::from_str("stored entry is not hexadecimal"),
            StoreError::TransactionFinished => String::from_str(
                "transaction is already committed",
            ),
        }
    }
}

} // verus!
