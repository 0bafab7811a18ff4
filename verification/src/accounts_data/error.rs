//! Why a batch, or part of it, was turned down.

use vstd::prelude::*;

verus! {

/// What was wrong with a batch of records. Each of these is the sender's
/// fault: a well-behaved peer never causes one.
#[derive(Clone, Copy, Debug, PartialEq, Eq, Structural)]
pub enum Error {
    /// A signature did not verify. The records verified before it are kept.
    InvalidSignature,
    /// A payload was over the size limit. Nothing of the batch is kept.
    DataTooLarge,
    /// Two records were for the same account in the same epoch. Nothing of
    /// the batch is kept.
    SingleAccountMultipleData,
}

impl Error {
    /// The text that describes the error.
    pub open spec fn text(self) -> Seq<char> {
        match self {
            Error::InvalidSignature => "found an invalid signature"@,
            Error::DataTooLarge => "found too large payload"@,
            Error::SingleAccountMultipleData => {
                "found multiple entries for the same (epoch_id,account_id)"@
            },
        }
    }

    /// A description of the error for logs and messages.
    pub fn message(&self) -> (s: String)
        ensures
            s@ == self.text(),
    {
        match self {
            Error::InvalidSignature => "found an invalid signature".to_owned(),
            Error::DataTooLarge => "found too large payload".to_owned(),
            Error::SingleAccountMultipleData => {
                "found multiple entries for the same (epoch_id,account_id)".to_owned()
            },
        }
    }
}

} // verus!
