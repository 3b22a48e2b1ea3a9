//! The ways in which building the path index can fail.

use vstd::prelude::*;

verus! {

/// Every failure is fatal to the worker that meets it: partial results are
/// discarded, never salvaged.
#[derive(Clone, Copy, Debug, PartialEq, Eq, Structural)]
pub enum PathError {
    /// The file is ill-formed: the decoder could not read a record, a RIB
    /// entry names a peer that the peer-index table lacks or carries a
    /// confederation segment, or the file holds no peer-index table.
    MalformedMrt,
    /// A route was built from an empty AS path.
    MalformedRoute,
    /// An AS path was built from an empty hop sequence.
    MalformedAsPath,
    /// An MRT record lies outside the expected table-dump subset, or comes
    /// where another kind of record is due.
    UnexpectedRecordType,
    /// A RIB entry lacks its AS path or its next hop.
    MissingAttribute,
    /// A route or an AS path was handed to a container it does not belong
    /// to.
    InvariantViolation,
    /// The merge coordinator was given nothing to merge.
    EmptyMerge,
}

impl PathError {
    /// The text of the error's name.
    pub open spec fn name(self) -> Seq<char> {
        match self {
            PathError::MalformedMrt => "MalformedMrt"@,
            PathError::MalformedRoute => "MalformedRoute"@,
            PathError::MalformedAsPath => "MalformedAsPath"@,
            PathError::UnexpectedRecordType => "UnexpectedRecordType"@,
            PathError::MissingAttribute => "MissingAttribute"@,
            PathError::InvariantViolation => "InvariantViolation"@,
            PathError::EmptyMerge => "EmptyMerge"@,
        }
    }

    /// The error's name, for reports.
    pub fn message(&self) -> (text: &'static str)
        ensures
            text@ == self.name(),
    {
        match self {
            PathError::MalformedMrt => "MalformedMrt",
            PathError::MalformedRoute => "MalformedRoute",
            PathError::MalformedAsPath => "MalformedAsPath",
            PathError::UnexpectedRecordType => "UnexpectedRecordType",
            PathError::MissingAttribute => "MissingAttribute",
            PathError::InvariantViolation => "InvariantViolation",
            PathError::EmptyMerge => "EmptyMerge",
        }
    }
}

} // verus!
