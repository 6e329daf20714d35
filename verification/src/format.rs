//! The two file formats, as functions on bytes: what the schema and the
//! data tree are written as, and what bytes are read back as.

use vstd::prelude::*;
use vstd::utf8::{decode_utf8, valid_utf8};
use crate::child::Child;
use crate::codec::{be_bytes_u128, be_bytes_u32, checksum};
use crate::data::DataView;
use crate::data_type::{Type, code_of_type, type_of_code};
use crate::definition::DefinitionView;
use crate::error::DbError;
use crate::io::{
    closed_bytes, field_at, read_body, scan, start_marker, str_bytes, u128_at, u32_at, ETX, STX,
};
use crate::multi_type::{MultiType, code_of_multi_type, multi_type_of_code};

verus! {

/// The sequences of `parts`, one after the other.
pub open spec fn concat(parts: Seq<Seq<u8>>) -> Seq<u8>
    decreases parts.len(),
{
    if parts.len() == 0 {
        Seq::<u8>::empty()
    } else {
        parts[0] + concat(parts.drop_first())
    }
}

/// Adding a part at the end adds its bytes at the end.
pub proof fn lemma_concat_push(parts: Seq<Seq<u8>>, last: Seq<u8>)
    ensures
        concat(parts.push(last)) == concat(parts) + last,
    decreases parts.len(),
{
    if parts.len() == 0 {
        assert(parts.push(last).drop_first() =~= Seq::<Seq<u8>>::empty());
        assert(concat(parts.push(last).drop_first()) =~= Seq::<u8>::empty());
        assert(parts.push(last)[0] == last);
        assert(concat(parts.push(last)) =~= last);
        assert(concat(parts) + last =~= last);
    } else {
        assert(parts.push(last).drop_first() =~= parts.drop_first().push(last));
        lemma_concat_push(parts.drop_first(), last);
        assert(parts[0] + (concat(parts.drop_first()) + last) =~= (parts[0] + concat(
            parts.drop_first(),
        )) + last);
    }
}

/// A record: the start marker, the body, the end marker and the checksum
/// of the body.
pub open spec fn record(body: Seq<u8>) -> Seq<u8> {
    closed_bytes(start_marker() + body)
}

/// The byte that stores a flag.
pub open spec fn bool_byte(b: bool) -> u8 {
    if b {
        0x01
    } else {
        0x00
    }
}

/// A child descriptor as it is stored: the tag, then the multiplicity code.
pub open spec fn child_bytes(c: Child) -> Seq<u8>
    recommends
        c.multi_type != MultiType::Unknown,
{
    be_bytes_u32(c.tag).push(code_of_multi_type(c.multi_type).unwrap())
}

/// The child descriptors of a definition as they are stored, one after the other.
pub open spec fn children_bytes(cs: Seq<Child>) -> Seq<u8> {
    concat(cs.map_values(|c: Child| child_bytes(c)))
}

/// Why a definition cannot be stored, if it cannot.
pub open spec fn def_error(d: DefinitionView) -> Option<DbError> {
    if d.data_type == Type::Unknown {
        Some(DbError::UnsupportedType)
    } else if exists|k: int| 0 <= k < d.children.len() && (#[trigger] d.children[k]).multi_type
        == MultiType::Unknown {
        Some(DbError::UnsupportedMultiType)
    } else {
        None
    }
}

/// The body of the record of a definition: tag, name, type code, the flag
/// for several values, explanation, and the counted list of child descriptors.
pub open spec fn def_body(d: DefinitionView) -> Seq<u8>
    recommends
        def_error(d) is None,
{
    be_bytes_u32(d.tag) + str_bytes(d.name) + seq![
        code_of_type(d.data_type).unwrap(),
        bool_byte(d.is_multiple),
    ] + str_bytes(d.explanation) + be_bytes_u128(d.children.len() as u128) + children_bytes(
        d.children,
    )
}

/// The schema file of a list of definitions: one record for each
/// definition that is not the base, in the order of the list. If one of
/// them cannot be stored, the error of the first such.
pub open spec fn schema_bytes(defs: Seq<DefinitionView>) -> Result<Seq<u8>, DbError>
    decreases defs.len(),
{
    if defs.len() == 0 {
        Ok(Seq::<u8>::empty())
    } else if defs[0].is_base {
        schema_bytes(defs.drop_first())
    } else {
        match def_error(defs[0]) {
            Some(e) => Err(e),
            None => match schema_bytes(defs.drop_first()) {
                Ok(rest) => Ok(record(def_body(defs[0])) + rest),
                Err(e) => Err(e),
            },
        }
    }
}

/// The `n` child descriptors stored from position `i` on, five bytes each.
pub open spec fn parse_children(s: Seq<u8>, i: int, n: nat) -> Result<Seq<Child>, DbError>
    decreases n,
{
    if n == 0 {
        Ok(Seq::<Child>::empty())
    } else {
        match u32_at(s, i) {
            None => Err(DbError::Truncated),
            Some(tag) => if i + 4 >= s.len() {
                Err(DbError::Truncated)
            } else if multi_type_of_code(s[i + 4]) == MultiType::Unknown {
                Err(DbError::UnsupportedMultiType)
            } else {
                match parse_children(s, i + 5, (n - 1) as nat) {
                    Ok(rest) => Ok(
                        seq![Child { tag, multi_type: multi_type_of_code(s[i + 4]) }] + rest,
                    ),
                    Err(e) => Err(e),
                }
            },
        }
    }
}

/// The end of a record at position `i`: the end marker, then the checksum
/// of the bytes between the markers. Gives the length of the record from
/// the second byte of its start marker on.
pub open spec fn parse_end(s: Seq<u8>, i: int) -> Result<int, DbError> {
    if i < 0 || i >= s.len() {
        Err(DbError::Truncated)
    } else if s[i] != ETX {
        Err(DbError::Malformed)
    } else if i + 1 >= s.len() {
        Err(DbError::Truncated)
    } else if s[i + 1] != checksum(read_body(s, i + 1)) {
        Err(DbError::ChecksumMismatch)
    } else {
        Ok(i + 2)
    }
}

/// The definition stored in the record that starts with the first byte of
/// `s`, which is the second byte of the start marker, and the number of
/// bytes that the record takes from there.
pub open spec fn parse_def(s: Seq<u8>) -> Result<(DefinitionView, int), DbError> {
    match u32_at(s, 1) {
        None => Err(DbError::Truncated),
        Some(tag) => match field_at(s, 5) {
            None => Err(DbError::Truncated),
            Some(name) => if !valid_utf8(name) {
                Err(DbError::InvalidUtf8)
            } else {
                let i: int = 21 + name.len() as int;
                if i + 2 > s.len() {
                    Err(DbError::Truncated)
                } else if type_of_code(s[i]) == Type::Unknown {
                    Err(DbError::UnsupportedType)
                } else {
                    match field_at(s, i + 2) {
                        None => Err(DbError::Truncated),
                        Some(explanation) => if !valid_utf8(explanation) {
                            Err(DbError::InvalidUtf8)
                        } else {
                            let j: int = i + 18 + explanation.len() as int;
                            match u128_at(s, j) {
                                None => Err(DbError::Truncated),
                                Some(n) => match parse_children(s, j + 16, n as nat) {
                                    Err(e) => Err(e),
                                    Ok(children) => match parse_end(s, j + 16 + 5 * n) {
                                        Err(e) => Err(e),
                                        Ok(len) => Ok(
                                            (
                                                DefinitionView {
                                                    tag,
                                                    name: decode_utf8(name),
                                                    data_type: type_of_code(s[i]),
                                                    explanation: decode_utf8(explanation),
                                                    is_multiple: s[i + 1] != 0,
                                                    is_base: false,
                                                    children,
                                                },
                                                len,
                                            ),
                                        ),
                                    },
                                },
                            }
                        },
                    }
                }
            },
        },
    }
}

/// Whether a definition of the list has the tag.
pub open spec fn has_tag(defs: Seq<DefinitionView>, tag: u32) -> bool {
    exists|k: int| 0 <= k < defs.len() && (#[trigger] defs[k]).tag == tag
}

/// What reading the records of `s` from position `i` on does to a schema:
/// the list of definitions at the end, the position of the cursor at the
/// end, and the error that ended the reading, if one did. The definitions
/// of the records are added to `defs` one by one. Bytes before a start
/// marker are passed over; an end marker or the end of the bytes ends the
/// reading. A record that cannot be read ends it with the cursor on the
/// record, a record whose tag is already in the list with the cursor
/// behind the record.
pub open spec fn load_schema_run(defs: Seq<DefinitionView>, s: Seq<u8>, i: int) -> (
    Seq<DefinitionView>,
    int,
    Option<DbError>,
)
    decreases s.len() - i,
{
    let p = scan(s, i);
    if 0 <= i <= p < s.len() && s[p] == STX {
        match parse_def(s.skip(p)) {
            Err(e) => (defs, p, Some(e)),
            Ok((d, n)) => if !(2 <= n <= s.len() - p) {
                (defs, p, Some(DbError::Malformed))
            } else if has_tag(defs, d.tag) {
                (defs, p + n, Some(DbError::DuplicateTag))
            } else {
                load_schema_run(defs.push(d), s, p + n)
            },
        }
    } else {
        (defs, p, None)
    }
}

/// The list of definitions after the records of `s` from position `i` on
/// were added to `defs`, or the error that ended the reading.
pub open spec fn load_schema(defs: Seq<DefinitionView>, s: Seq<u8>, i: int) -> Result<
    Seq<DefinitionView>,
    DbError,
> {
    match load_schema_run(defs, s, i).2 {
        Some(e) => Err(e),
        None => Ok(load_schema_run(defs, s, i).0),
    }
}

/// The value of a node as it is stored: a text with its length before it,
/// a number as its bytes alone.
pub open spec fn value_field(d: DataView) -> Seq<u8> {
    if d.def.data_type == Type::String {
        be_bytes_u128(d.value.len() as u128) + d.value
    } else {
        d.value
    }
}

/// The records of the children of a node.
pub open spec fn child_records(d: DataView) -> Seq<Seq<u8>>
    decreases d, 0int,
{
    d.children.map_values(
        |c: DataView|
            if is_smaller_than(c, d) {
                record(node_body(c))
            } else {
                arbitrary()
            },
    )
}

/// The body of the record of a node: the tag, the value, and the records
/// of the children.
pub open spec fn node_body(d: DataView) -> Seq<u8>
    decreases d, 1int,
{
    be_bytes_u32(d.def.tag) + value_field(d) + concat(child_records(d))
}

/// The records of a sequence of nodes, one after the other. For the
/// children of the root this is the data file.
pub open spec fn tree_bytes(nodes: Seq<DataView>) -> Seq<u8> {
    concat(nodes.map_values(|c: DataView| record(node_body(c))))
}

/// The body of a node ends with the records of its children.
pub proof fn lemma_node_body(d: DataView)
    ensures
        node_body(d) == be_bytes_u32(d.def.tag) + value_field(d) + tree_bytes(d.children),
{
    assert forall|i: int| 0 <= i < d.children.len() implies is_smaller_than(
        #[trigger] d.children[i],
        d,
    ) by {
        assert(decreases_to!(d => d.children));
        assert(decreases_to!(d.children => d.children[i]));
    }
    assert(child_records(d) =~= d.children.map_values(|c: DataView| record(node_body(c))));
}

/// The position of the first definition at or after `from` with the tag,
/// or the length of the list if there is none.
pub open spec fn def_index(defs: Seq<DefinitionView>, tag: u32, from: int) -> int
    decreases defs.len() - from,
{
    if from < 0 || from >= defs.len() {
        defs.len() as int
    } else if defs[from].tag == tag {
        from
    } else {
        def_index(defs, tag, from + 1)
    }
}

/// The first definition of the list with the tag.
pub open spec fn find_def(defs: Seq<DefinitionView>, tag: u32) -> Option<DefinitionView> {
    if def_index(defs, tag, 0) < defs.len() {
        Some(defs[def_index(defs, tag, 0)])
    } else {
        None
    }
}

/// Where `def_index` stops: on the first definition with the tag, or at the end.
pub proof fn lemma_def_index(defs: Seq<DefinitionView>, tag: u32, from: int)
    requires
        0 <= from <= defs.len(),
    ensures
        from <= def_index(defs, tag, from) <= defs.len(),
        def_index(defs, tag, from) < defs.len() ==> defs[def_index(defs, tag, from)].tag == tag,
        forall|j: int| from <= j < def_index(defs, tag, from) ==> (#[trigger] defs[j]).tag != tag,
    decreases defs.len() - from,
{
    if from < defs.len() && defs[from].tag != tag {
        lemma_def_index(defs, tag, from + 1);
    }
}

/// A tag is in the list exactly when `find_def` finds a definition.
pub proof fn lemma_find_def(defs: Seq<DefinitionView>, tag: u32)
    ensures
        has_tag(defs, tag) <==> find_def(defs, tag) is Some,
        find_def(defs, tag) is Some ==> find_def(defs, tag)->Some_0.tag == tag,
{
    lemma_def_index(defs, tag, 0);
    if find_def(defs, tag) is Some {
        assert(defs[def_index(defs, tag, 0)].tag == tag);
    }
}

/// The value stored at position `i` under a definition of type `t`, and
/// the position after it: four bytes for a number, a length-prefixed
/// field for a text.
pub open spec fn parse_value(t: Type, s: Seq<u8>, i: int) -> Result<(Seq<u8>, int), DbError> {
    match t {
        Type::Unknown => Err(DbError::UnsupportedType),
        Type::String => match field_at(s, i) {
            Some(bytes) => Ok((bytes, i + 16 + bytes.len())),
            None => Err(DbError::Truncated),
        },
        _ => if 0 <= i && i + 4 <= s.len() {
            Ok((s.subrange(i, i + 4), i + 4))
        } else {
            Err(DbError::Truncated)
        },
    }
}

/// The node stored in the record that starts with the first byte of `s`,
/// which is the second byte of the start marker, and the number of bytes
/// that the record takes from there. The tag must be in the schema, which
/// gives the node its definition and the type by which the value is read.
pub open spec fn parse_node(schema: Seq<DefinitionView>, s: Seq<u8>) -> Result<
    (DataView, int),
    DbError,
>
    decreases s.len(), 1int,
{
    match u32_at(s, 1) {
        None => Err(DbError::Truncated),
        Some(tag) => match find_def(schema, tag) {
            None => Err(DbError::UndefinedTag),
            Some(def) => match parse_value(def.data_type, s, 5) {
                Err(e) => Err(e),
                Ok((value, i)) => if 5 <= i <= s.len() {
                    match parse_nodes(schema, s, i) {
                        Err(e) => Err(e),
                        Ok((children, j)) => match parse_end(s, j) {
                            Err(e) => Err(e),
                            Ok(len) => Ok((DataView { def, value, children }, len)),
                        },
                    }
                } else {
                    Err(DbError::Malformed)
                },
            },
        },
    }
}

/// The nodes stored in the records of `s` from position `i` on, and the
/// position where the list ends. Bytes before a start marker are passed
/// over; an end marker or the end of the bytes ends the list.
pub open spec fn parse_nodes(schema: Seq<DefinitionView>, s: Seq<u8>, i: int) -> Result<
    (Seq<DataView>, int),
    DbError,
>
    decreases s.len() - i, 2int,
{
    let p = scan(s, i);
    if 0 <= i <= p < s.len() && s[p] == STX {
        match parse_node(schema, s.skip(p)) {
            Err(e) => Err(e),
            Ok((d, n)) => if 2 <= n <= s.len() - p {
                match parse_nodes(schema, s, p + n) {
                    Err(e) => Err(e),
                    Ok((rest, j)) => Ok((seq![d] + rest, j)),
                }
            } else {
                Err(DbError::Malformed)
            },
        }
    } else {
        Ok((Seq::<DataView>::empty(), p))
    }
}

/// The direct children of the root as a data file holds them: the nodes
/// of its records.
pub open spec fn load_tree(schema: Seq<DefinitionView>, s: Seq<u8>) -> Result<
    Seq<DataView>,
    DbError,
> {
    match parse_nodes(schema, s, 0) {
        Err(e) => Err(e),
        Ok((nodes, j)) => Ok(nodes),
    }
}

} // verus!
