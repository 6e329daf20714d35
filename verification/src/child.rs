//! How one tag may nest under another.

use vstd::prelude::*;
use crate::error::DbError;
use crate::multi_type::{MultiType, code_of_multi_type, multi_type_of_code};

verus! {

/// Permission for a tag to nest under a parent definition.
#[derive(Clone, Copy, Debug, PartialEq, Eq, Structural)]
pub struct Child {
    /// The tag of the child definition.
    pub tag: u32,
    /// How often the child may occur under the parent.
    pub multi_type: MultiType,
}

impl Child {
    /// The code byte of this child's multiplicity. `Unknown` has no code.
    pub fn get_multi_type_u8_num(&self) -> (r: Result<u8, DbError>)
        ensures
            match code_of_multi_type(self.multi_type) {
                Some(code) => r == Ok::<u8, DbError>(code),
                None => r == Err::<u8, DbError>(DbError::UnsupportedMultiType),
            },
    {
        match self.multi_type {
            MultiType::Single => Ok(0x00),
            MultiType::Dictionary => Ok(0x01),
            MultiType::Unknown => Err(DbError::UnsupportedMultiType),
        }
    }

    /// A child descriptor with the given tag and multiplicity.
    pub fn create(tag: u32, multi_type: MultiType) -> (c: Child)
        ensures
            c == (Child { tag, multi_type }),
    {
        Child { tag, multi_type }
    }

    /// A child descriptor whose multiplicity is decoded from its code byte.
    pub fn create_by_binary(tag: u32, multi_type_binary: u8) -> (c: Child)
        ensures
            c == (Child { tag, multi_type: multi_type_of_code(multi_type_binary) }),
    {
        Child { tag, multi_type: MultiType::u8_to_multi_type(multi_type_binary) }
    }
}

} // verus!
