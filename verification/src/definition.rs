//! Schema records: what a tag means and which tags may nest under it.

use vstd::prelude::*;
use crate::child::Child;
use crate::data_type::{Type, code_of_type};

verus! {

/// The description of one tag of the schema.
#[derive(Debug)]
pub struct Definition {
    /// The tag: group number in the upper 16 bits, element number in the lower.
    pub tag: u32,
    /// The name of the tag.
    pub name: String,
    /// The type of the values stored under the tag.
    pub data_type: Type,
    /// Free text that explains the tag.
    pub explanation: String,
    /// Whether the tag may hold several values.
    pub is_multiple: bool,
    /// Whether this is the definition of the storage root.
    pub is_base: bool,
    /// The tags that may nest under this one.
    pub children: Vec<Child>,
}

/// The mathematical content of a [`Definition`].
pub ghost struct DefinitionView {
    pub tag: u32,
    pub name: Seq<char>,
    pub data_type: Type,
    pub explanation: Seq<char>,
    pub is_multiple: bool,
    pub is_base: bool,
    pub children: Seq<Child>,
}

impl View for Definition {
    type V = DefinitionView;

    open spec fn view(&self) -> DefinitionView {
        DefinitionView {
            tag: self.tag,
            name: self.name@,
            data_type: self.data_type,
            explanation: self.explanation@,
            is_multiple: self.is_multiple,
            is_base: self.is_base,
            children: self.children@,
        }
    }
}

/// The sixteen lower-case hexadecimal digits.
pub open spec fn hex_digits() -> Seq<char> {
    seq!['0', '1', '2', '3', '4', '5', '6', '7', '8', '9', 'a', 'b', 'c', 'd', 'e', 'f']
}

/// A number below 65536 as four lower-case hexadecimal digits.
pub open spec fn hex4(x: u32) -> Seq<char> {
    seq![
        hex_digits()[((x >> 12) & 0xf) as int],
        hex_digits()[((x >> 8) & 0xf) as int],
        hex_digits()[((x >> 4) & 0xf) as int],
        hex_digits()[(x & 0xf) as int],
    ]
}

/// Formats a number below 65536 with `format!("{:04x}", x)`: lower-case
/// hexadecimal, padded with zeros to four digits.
#[verifier::external_body]
fn format_hex4(x: u32) -> (s: String)
    requires
        x <= 0xffff,
    ensures
        s@ == hex4(x),
{
    format!("{:04x}", x)
}

impl Clone for Definition {
    fn clone(&self) -> (r: Self)
        ensures
            r@ == self@,
    {
        let children = self.children.clone();
        assert(children@ =~= self.children@);
        Definition {
            tag: self.tag,
            name: self.name.clone(),
            data_type: self.data_type,
            explanation: self.explanation.clone(),
            is_multiple: self.is_multiple,
            is_base: self.is_base,
            children,
        }
    }
}

impl Definition {
    /// A definition that is not the base, with no explanation and no children.
    pub fn new(tag: u32, name: String, data_type: Type, is_multiple: bool) -> (d: Definition)
        ensures
            d@ == (DefinitionView {
                tag,
                name: name@,
                data_type,
                explanation: Seq::<char>::empty(),
                is_multiple,
                is_base: false,
                children: Seq::<Child>::empty(),
            }),
    {
        Definition {
            tag,
            name,
            data_type,
            explanation: String::new(),
            is_multiple,
            is_base: false,
            children: Vec::new(),
        }
    }

    /// The name of the tag.
    pub fn get_name(&self) -> (r: &String)
        ensures
            r@ == self@.name,
    {
        &self.name
    }

    /// The type of the values stored under the tag.
    pub fn get_type(&self) -> (r: &Type)
        ensures
            *r == self@.data_type,
    {
        &self.data_type
    }

    /// The group number: the upper 16 bits of the tag.
    pub fn get_group_num(&self) -> (r: u32)
        ensures
            r == self.tag >> 16,
            r == self.tag / 0x1_0000,
    {
        let t: u32 = self.tag;
        assert(t >> 16 == t / 0x1_0000) by (bit_vector);
        t >> 16
    }

    /// The element number: the lower 16 bits of the tag.
    pub fn get_element_num(&self) -> (r: u32)
        ensures
            r == self.tag & 0xffff,
            r == self.tag % 0x1_0000,
    {
        let t: u32 = self.tag;
        assert(t & 0xffff == t % 0x1_0000) by (bit_vector);
        t & 0xffff
    }

    /// The element number as four hexadecimal digits.
    pub fn get_element_value(&self) -> (r: String)
        ensures
            r@ == hex4(self.tag & 0xffff),
    {
        let t: u32 = self.tag;
        assert(t & 0xffff <= 0xffff) by (bit_vector);
        format_hex4(t & 0xffff)
    }

    /// The group number as four hexadecimal digits.
    pub fn get_group_value(&self) -> (r: String)
        ensures
            r@ == hex4(self.tag >> 16),
    {
        let t: u32 = self.tag;
        assert(t >> 16 <= 0xffff) by (bit_vector);
        format_hex4(t >> 16)
    }

    /// The code byte of the value type. `Unknown` has no code.
    pub fn get_type_num(&self) -> (r: Option<u8>)
        ensures
            r == code_of_type(self.data_type),
    {
        match self.data_type {
            Type::Int => Some(0x00),
            Type::Float => Some(0x01),
            Type::String => Some(0x02),
            Type::Unknown => None,
        }
    }

    /// The explanation of the tag.
    pub fn get_explanation(&self) -> (r: &String)
        ensures
            r@ == self@.explanation,
    {
        &self.explanation
    }

    /// Replaces the explanation and leaves everything else as it was.
    pub fn set_explanation(&mut self, explanation: String)
        ensures
            final(self)@ == (DefinitionView { explanation: explanation@, ..old(self)@ }),
    {
        self.explanation = explanation
    }

    /// Whether this is the definition of the storage root.
    pub fn is_base(&self) -> (r: bool)
        ensures
            r == self@.is_base,
    {
        self.is_base
    }
}

} // verus!
