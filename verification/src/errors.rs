//! The error taxonomy of the record keeper.

use vstd::prelude::*;

verus! {

/// A fault raised by the store or by persistence.
///
/// `NotFound` marks an absent file or record and is recoverable: the caller
/// substitutes a default. `IoFault` is a read or write failure on disk.
/// `DecodeFault` marks bytes that are not a valid encoding of a database.
/// `EncodeFault` is unreachable for valid in-memory state and marks a
/// programming defect. `BadReference` marks a syntactically invalid identity.
#[derive(Clone, Copy, Debug, PartialEq, Eq, Structural)]
pub enum DbError {
    NotFound,
    IoFault,
    DecodeFault,
    EncodeFault,
    BadReference,
}

impl DbError {
    /// A short description of the fault.
    pub fn message(&self) -> (r: &'static str)
        ensures
            r@ == self.spec_message(),
    {
        match self {
            DbError::NotFound => "not found",
            DbError::IoFault => "i/o fault",
            DbError::DecodeFault => "decode fault",
            DbError::EncodeFault => "encode fault",
            DbError::BadReference => "bad identity reference",
        }
    }

    /// What `message` returns for each fault.
    pub open spec fn spec_message(self) -> Seq<char> {
        match self {
            DbError::NotFound => "not found"@,
            DbError::IoFault => "i/o fault"@,
            DbError::DecodeFault => "decode fault"@,
            DbError::EncodeFault => "encode fault"@,
            DbError::BadReference => "bad identity reference"@,
        }
    }
}

} // verus!
