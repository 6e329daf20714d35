//! How often a child tag may occur under one parent, and the one-byte codes.

use vstd::prelude::*;

verus! {

/// How often a child tag may occur under one parent.
#[derive(Clone, Copy, Debug, PartialEq, Eq, Structural)]
pub enum MultiType {
    /// At most once.
    Single,
    /// Any number of times, told apart by an identity value.
    Dictionary,
    /// What an unknown multiplicity code decodes to.
    Unknown,
}

/// The multiplicity that a code byte stands for.
pub open spec fn multi_type_of_code(code: u8) -> MultiType {
    if code == 0x00 {
        MultiType::Single
    } else if code == 0x01 {
        MultiType::Dictionary
    } else {
        MultiType::Unknown
    }
}

/// The code byte of a multiplicity; `Unknown` has none.
pub open spec fn code_of_multi_type(m: MultiType) -> Option<u8> {
    match m {
        MultiType::Single => Some(0x00u8),
        MultiType::Dictionary => Some(0x01u8),
        MultiType::Unknown => None,
    }
}

impl MultiType {
    /// Decodes a multiplicity code; every unknown code gives `Unknown`.
    pub fn u8_to_multi_type(buf: u8) -> (m: MultiType)
        ensures
            m == multi_type_of_code(buf),
    {
        match buf {
            0x00 => MultiType::Single,
            0x01 => MultiType::Dictionary,
            _ => MultiType::Unknown,
        }
    }
}

/// A code that was produced from a multiplicity decodes to that multiplicity.
pub proof fn lemma_multi_type_code_round_trip(m: MultiType)
    requires
        m != MultiType::Unknown,
    ensures
        code_of_multi_type(m).is_some(),
        multi_type_of_code(code_of_multi_type(m).unwrap()) == m,
{
}

} // verus!
