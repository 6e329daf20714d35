//! The failures that the store reports.

use vstd::prelude::*;
use vstd::string::*;

verus! {

/// Why an operation of the store failed.
#[derive(Clone, Copy, Debug, PartialEq, Eq, Structural)]
pub enum DbError {
    /// A definition with this tag is already in the schema.
    DuplicateTag,
    /// No definition in the schema has this tag.
    UndefinedTag,
    /// The value type has no code in the binary format.
    UnsupportedType,
    /// The multiplicity has no code in the binary format.
    UnsupportedMultiType,
    /// The supplied value is not of the type that the definition declares.
    TypeMismatch,
    /// An address does not lead to a node of the tree.
    PathNotFound,
    /// A nested scope was asked for while none was open.
    MissingChild,
    /// The stored checksum differs from the one computed over the record.
    ChecksumMismatch,
    /// The bytes end before a field is complete.
    Truncated,
    /// A record does not close with the end marker where it must.
    Malformed,
    /// The bytes of a text field are not valid UTF-8.
    InvalidUtf8,
}

impl DbError {
    /// The text that describes the failure.
    pub open spec fn text(self) -> Seq<char> {
        match self {
            DbError::DuplicateTag => "tag is already defined"@,
            DbError::UndefinedTag => "tag is not defined"@,
            DbError::UnsupportedType => "Data type could not get"@,
            DbError::UnsupportedMultiType => "Multi type convert error"@,
            DbError::TypeMismatch => "Cannot convert the value to the type of the definition"@,
            DbError::PathNotFound => "Data root leads to no data"@,
            DbError::MissingChild => "Child binary manager cannot found"@,
            DbError::ChecksumMismatch => "Check sum error!"@,
            DbError::Truncated => "Data ends before the field does"@,
            DbError::Malformed => "Record does not end with the end marker"@,
            DbError::InvalidUtf8 => "Text is not valid UTF-8"@,
        }
    }

    /// The text that describes the failure.
    pub fn message(&self) -> (r: String)
        ensures
            r@ == self.text(),
    {
        match self {
            DbError::DuplicateTag => String::from_str("tag is already defined"),
            DbError::UndefinedTag => String::from_str("tag is not defined"),
            DbError::UnsupportedType => String::from_str("Data type could not get"),
            DbError::UnsupportedMultiType => String::from_str("Multi type convert error"),
            DbError::TypeMismatch => String::from_str(
                "Cannot convert the value to the type of the definition",
            ),
            DbError::PathNotFound => String::from_str("Data root leads to no data"),
            DbError::MissingChild => String::from_str("Child binary manager cannot found"),
            DbError::ChecksumMismatch => String::from_str("Check sum error!"),
            DbError::Truncated => String::from_str("Data ends before the field does"),
            DbError::Malformed => String::from_str("Record does not end with the end marker"),
            DbError::InvalidUtf8 => String::from_str("Text is not valid UTF-8"),
        }
    }
}

} // verus!
