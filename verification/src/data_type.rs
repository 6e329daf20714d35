//! The kinds of value a tag can hold, and their one-byte codes.

use vstd::prelude::*;

verus! {

/// The kind of value stored under a tag.
#[derive(Clone, Copy, Debug, PartialEq, Eq, Structural)]
pub enum Type {
    /// A four-byte signed integer.
    Int,
    /// A four-byte IEEE-754 number.
    Float,
    /// A UTF-8 byte sequence.
    String,
    /// What an unknown type code decodes to.
    Unknown,
}

/// The type that a code byte stands for.
pub open spec fn type_of_code(code: u8) -> Type {
    if code == 0x00 {
        Type::Int
    } else if code == 0x01 {
        Type::Float
    } else if code == 0x02 {
        Type::String
    } else {
        Type::Unknown
    }
}

/// The code byte of a type; `Unknown` has none.
pub open spec fn code_of_type(t: Type) -> Option<u8> {
    match t {
        Type::Int => Some(0x00u8),
        Type::Float => Some(0x01u8),
        Type::String => Some(0x02u8),
        Type::Unknown => None,
    }
}

impl Type {
    /// Decodes a type code; every unknown code gives `Unknown`.
    pub fn u8_to_type(buf: u8) -> (t: Type)
        ensures
            t == type_of_code(buf),
    {
        match buf {
            0x00 => Type::Int,
            0x01 => Type::Float,
            0x02 => Type::String,
            _ => Type::Unknown,
        }
    }
}

/// A code that was produced from a type decodes to that type.
pub proof fn lemma_type_code_round_trip(t: Type)
    requires
        t != Type::Unknown,
    ensures
        code_of_type(t).is_some(),
        type_of_code(code_of_type(t).unwrap()) == t,
{
}

} // verus!
