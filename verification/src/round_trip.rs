//! What is written is read back: the laws that tie the writers of the two
//! file formats to their readers.

use vstd::prelude::*;
use vstd::utf8::{decode_utf8, encode_utf8, valid_utf8};
use crate::child::Child;
use crate::codec::{
    be_bytes_u128, be_bytes_u32, checksum, lemma_be_u128_round_trip, lemma_be_u32_round_trip,
    lemma_checksum_detects_change,
};
use crate::data::{
    DataRootView, DataView, bytes_value, first_match, holds_identity, lemma_first_match, resolve,
    step_matches,
};
use crate::data_type::{Type, code_of_type, type_of_code};
use crate::definition::DefinitionView;
use crate::error::DbError;
use crate::format::{
    bool_byte, child_bytes, children_bytes, def_body, def_error, find_def, has_tag,
    lemma_find_def, lemma_node_body, load_schema, load_tree, node_body, parse_children, parse_def,
    parse_end, parse_node, parse_nodes, parse_value, record, schema_bytes, tree_bytes, value_field,
};
use crate::io::{
    field_at, lemma_scan_bounds, read_body, scan, start_marker, str_bytes, u128_at, u32_at, ETX,
    STX,
};
use crate::manager::{first_def, schema_wf};
use crate::multi_type::{MultiType, code_of_multi_type, multi_type_of_code};

verus! {

/// Four bytes that were written from a value are read as that value.
pub proof fn lemma_u32_at(s: Seq<u8>, i: int, x: u32)
    requires
        0 <= i,
        i + 4 <= s.len(),
        s.subrange(i, i + 4) == be_bytes_u32(x),
    ensures
        u32_at(s, i) == Some(x),
{
    lemma_be_u32_round_trip(x);
}

/// Sixteen bytes that were written from a value are read as that value.
pub proof fn lemma_u128_at(s: Seq<u8>, i: int, x: u128)
    requires
        0 <= i,
        i + 16 <= s.len(),
        s.subrange(i, i + 16) == be_bytes_u128(x),
    ensures
        u128_at(s, i) == Some(x),
{
    lemma_be_u128_round_trip(x);
}

/// A field that was written with its length before it is read as it was.
pub proof fn lemma_field_at(s: Seq<u8>, i: int, bytes: Seq<u8>)
    requires
        0 <= i,
        bytes.len() <= u128::MAX,
        i + 16 + bytes.len() <= s.len(),
        s.subrange(i, i + 16 + bytes.len()) == be_bytes_u128(bytes.len() as u128) + bytes,
    ensures
        field_at(s, i) == Some(bytes),
{
    lemma_be_u128_round_trip(bytes.len() as u128);
    let whole = s.subrange(i, i + 16 + bytes.len());
    assert(s.subrange(i, i + 16) =~= whole.subrange(0, 16));
    assert(whole.subrange(0, 16) =~= be_bytes_u128(bytes.len() as u128));
    lemma_u128_at(s, i, bytes.len() as u128);
    assert(s.subrange(i + 16, i + 16 + bytes.len()) =~= whole.subrange(
        16,
        16 + bytes.len() as int,
    ));
    assert(whole.subrange(16, 16 + bytes.len() as int) =~= bytes);
}

/// The length of a stored text: sixteen bytes and its UTF-8 bytes.
pub proof fn lemma_str_bytes_len(text: Seq<char>)
    ensures
        str_bytes(text).len() == 16 + encode_utf8(text).len(),
{
    lemma_be_u128_round_trip(encode_utf8(text).len() as u128);
}

/// A stored text is read back as it was.
pub proof fn lemma_text_at(s: Seq<u8>, i: int, text: Seq<char>)
    requires
        0 <= i,
        encode_utf8(text).len() <= u128::MAX,
        i + 16 + encode_utf8(text).len() <= s.len(),
        s.subrange(i, i + 16 + encode_utf8(text).len()) == str_bytes(text),
    ensures
        field_at(s, i) == Some(encode_utf8(text)),
        valid_utf8(encode_utf8(text)),
        decode_utf8(encode_utf8(text)) == text,
{
    lemma_field_at(s, i, encode_utf8(text));
    vstd::utf8::encode_utf8_valid_utf8(text);
    vstd::utf8::encode_utf8_decode_utf8(text);
}

/// The stored child descriptors take five bytes each.
pub proof fn lemma_children_bytes_len(cs: Seq<Child>)
    ensures
        children_bytes(cs).len() == 5 * cs.len(),
    decreases cs.len(),
{
    let parts = cs.map_values(|c: Child| child_bytes(c));
    if cs.len() > 0 {
        lemma_be_u32_round_trip(cs[0].tag);
        assert(parts.drop_first() =~= cs.drop_first().map_values(|c: Child| child_bytes(c)));
        lemma_children_bytes_len(cs.drop_first());
    }
}

/// Child descriptors that were written are read back as they were.
pub proof fn lemma_parse_children(s: Seq<u8>, i: int, cs: Seq<Child>)
    requires
        0 <= i,
        i + 5 * cs.len() <= s.len(),
        s.subrange(i, i + 5 * cs.len()) == children_bytes(cs),
        forall|k: int| 0 <= k < cs.len() ==> (#[trigger] cs[k]).multi_type != MultiType::Unknown,
    ensures
        parse_children(s, i, cs.len()) == Ok::<Seq<Child>, DbError>(cs),
    decreases cs.len(),
{
    if cs.len() == 0 {
        assert(cs =~= Seq::<Child>::empty());
    } else {
        let parts = cs.map_values(|c: Child| child_bytes(c));
        let rest = cs.drop_first();
        let whole = s.subrange(i, i + 5 * cs.len());
        lemma_be_u32_round_trip(cs[0].tag);
        assert(parts.drop_first() =~= rest.map_values(|c: Child| child_bytes(c)));
        assert(whole == child_bytes(cs[0]) + children_bytes(rest));
        lemma_children_bytes_len(rest);
        assert(child_bytes(cs[0]).len() == 5);
        assert(s.subrange(i, i + 4) =~= whole.subrange(0, 4));
        assert(whole.subrange(0, 4) =~= be_bytes_u32(cs[0].tag));
        lemma_u32_at(s, i, cs[0].tag);
        assert(s[i + 4] == whole[4]);
        assert(whole[4] == code_of_multi_type(cs[0].multi_type).unwrap());
        assert(multi_type_of_code(s[i + 4]) == cs[0].multi_type);
        assert(s.subrange(i + 5, i + 5 + 5 * rest.len()) =~= whole.subrange(
            5,
            5 * cs.len() as int,
        ));
        assert(whole.subrange(5, 5 * cs.len() as int) =~= children_bytes(rest));
        lemma_parse_children(s, i + 5, rest);
        assert(seq![cs[0]] + rest =~= cs);
    }
}

/// The bytes of a record: the two bytes of the start marker, the body,
/// the end marker, and the checksum of the body.
pub proof fn lemma_record(body: Seq<u8>)
    ensures
        record(body) == seq![0x00u8, STX] + body + seq![ETX, checksum(body)],
{
    assert((start_marker() + body).skip(2) =~= body);
    assert(record(body) =~= seq![0x00u8, STX] + body + seq![ETX, checksum(body)]);
}

/// The end of a record that was written is accepted: where the bytes from
/// the second byte of the start marker on begin with a record, the end
/// marker and the checksum after the body are right.
pub proof fn lemma_parse_end(s: Seq<u8>, body: Seq<u8>)
    requires
        s.len() >= body.len() + 3,
        s.take(body.len() as int + 3) == record(body).skip(1),
    ensures
        parse_end(s, body.len() as int + 1) == Ok::<int, DbError>(body.len() as int + 3),
{
    let rec = record(body);
    let j = body.len() as int + 1;
    let front = s.take(body.len() as int + 3);
    lemma_record(body);
    assert(s[j] == front[j]);
    assert(front[j] == rec[j + 1]);
    assert(s[j + 1] == front[j + 1]);
    assert(front[j + 1] == rec[j + 2]);
    assert forall|k: int| 0 <= k < body.len() implies s.subrange(1, j)[k] == body[k] by {
        assert(s[1 + k] == front[1 + k]);
        assert(front[1 + k] == rec[2 + k]);
    }
    assert(s.subrange(1, j) =~= body);
}

/// Where the bytes from the second byte of the start marker on begin with
/// a record, a stretch of its body is found one position further on.
pub proof fn lemma_body_part(s: Seq<u8>, body: Seq<u8>, from: int, to: int)
    requires
        s.len() >= body.len() + 3,
        s.take(body.len() as int + 3) == record(body).skip(1),
        0 <= from <= to <= body.len(),
    ensures
        s.subrange(1 + from, 1 + to) == body.subrange(from, to),
{
    let front = s.take(body.len() as int + 3);
    assert forall|k: int| 0 <= k < to - from implies s.subrange(1 + from, 1 + to)[k]
        == body.subrange(from, to)[k] by {
        assert(s[1 + from + k] == front[1 + from + k]);
        assert(front[1 + from + k] == record(body)[2 + from + k]);
    }
    assert(s.subrange(1 + from, 1 + to) =~= body.subrange(from, to));
}

/// Whether the lengths in a definition can be stored in sixteen bytes.
pub open spec fn def_fits(d: DefinitionView) -> bool {
    &&& encode_utf8(d.name).len() <= u128::MAX
    &&& encode_utf8(d.explanation).len() <= u128::MAX
    &&& d.children.len() <= u128::MAX
}

/// The length of the body of the record of a definition.
pub proof fn lemma_def_body_len(d: DefinitionView)
    ensures
        def_body(d).len() == 54 + encode_utf8(d.name).len() + encode_utf8(d.explanation).len() + 5
            * d.children.len(),
{
    lemma_be_u32_round_trip(d.tag);
    lemma_str_bytes_len(d.name);
    lemma_str_bytes_len(d.explanation);
    lemma_be_u128_round_trip(d.children.len() as u128);
    lemma_children_bytes_len(d.children);
}

/// The record of a definition is read back as that definition: where the
/// bytes from the second byte of the start marker on begin with the
/// record, whatever follows it.
pub proof fn lemma_parse_def(s: Seq<u8>, d: DefinitionView)
    requires
        def_error(d) is None,
        def_fits(d),
        !d.is_base,
        s.len() >= def_body(d).len() + 3,
        s.take(def_body(d).len() as int + 3) == record(def_body(d)).skip(1),
    ensures
        parse_def(s) == Ok::<(DefinitionView, int), DbError>((d, def_body(d).len() as int + 3)),
{
    let body = def_body(d);
    let len = body.len() as int;
    let a = encode_utf8(d.name).len() as int;
    let b = encode_utf8(d.explanation).len() as int;
    let n = d.children.len() as int;
    lemma_def_body_len(d);
    lemma_be_u32_round_trip(d.tag);
    lemma_str_bytes_len(d.name);
    lemma_str_bytes_len(d.explanation);
    lemma_be_u128_round_trip(d.children.len() as u128);
    lemma_children_bytes_len(d.children);
    let f1 = be_bytes_u32(d.tag);
    let f2 = str_bytes(d.name);
    let f3 = seq![code_of_type(d.data_type).unwrap(), bool_byte(d.is_multiple)];
    let f4 = str_bytes(d.explanation);
    let f5 = be_bytes_u128(d.children.len() as u128);
    let f6 = children_bytes(d.children);
    assert(body == f1 + f2 + f3 + f4 + f5 + f6);
    let i = 21 + a;
    let j = i + 18 + b;
    lemma_body_part(s, body, 0, 4);
    assert(body.subrange(0, 4) =~= f1);
    lemma_u32_at(s, 1, d.tag);
    lemma_body_part(s, body, 4, 20 + a);
    assert(body.subrange(4, 20 + a) =~= f2);
    lemma_text_at(s, 5, d.name);
    lemma_body_part(s, body, i - 1, i + 1);
    assert(body.subrange(i - 1, i + 1) =~= f3);
    assert(s[i] == s.subrange(i, i + 2)[0]);
    assert(s[i + 1] == s.subrange(i, i + 2)[1]);
    assert(type_of_code(s[i]) == d.data_type);
    assert((s[i + 1] != 0) == d.is_multiple);
    lemma_body_part(s, body, i + 1, i + 17 + b);
    assert(body.subrange(i + 1, i + 17 + b) =~= f4);
    lemma_text_at(s, i + 2, d.explanation);
    lemma_body_part(s, body, j - 1, j + 15);
    assert(body.subrange(j - 1, j + 15) =~= f5);
    lemma_u128_at(s, j, d.children.len() as u128);
    lemma_body_part(s, body, j + 15, j + 15 + 5 * n);
    assert(body.subrange(j + 15, j + 15 + 5 * n) =~= f6);
    assert forall|k: int| 0 <= k < d.children.len() implies (#[trigger] d.children[k]).multi_type
        != MultiType::Unknown by {}
    lemma_parse_children(s, j + 16, d.children);
    lemma_parse_end(s, body);
    assert(j + 16 + 5 * n == len + 1);
    let got = DefinitionView {
        tag: d.tag,
        name: decode_utf8(encode_utf8(d.name)),
        data_type: type_of_code(s[i]),
        explanation: decode_utf8(encode_utf8(d.explanation)),
        is_multiple: s[i + 1] != 0,
        is_base: false,
        children: d.children,
    };
    assert(got == d);
}

/// A record at position `i` is found by passing over the zero of its
/// start marker.
pub proof fn lemma_scan_record(s: Seq<u8>, i: int, body: Seq<u8>)
    requires
        0 <= i,
        i + body.len() + 4 <= s.len(),
        s.subrange(i, i + body.len() + 4) == record(body),
    ensures
        scan(s, i) == i + 1,
        s[i + 1] == STX,
        s.skip(i + 1).len() >= body.len() + 3,
        s.skip(i + 1).take(body.len() as int + 3) == record(body).skip(1),
{
    let whole = s.subrange(i, i + body.len() + 4);
    assert(s[i] == whole[0]);
    assert(s[i + 1] == whole[1]);
    assert(scan(s, i + 1) == i + 1);
    assert(s.skip(i + 1).take(body.len() as int + 3) =~= record(body).skip(1));
}

/// Where the bytes from position `i` on are `first` followed by `after`,
/// `first` stands at `i` and `after` behind it.
pub proof fn lemma_split_front(s: Seq<u8>, i: int, first: Seq<u8>, after: Seq<u8>)
    requires
        0 <= i <= s.len(),
        s.skip(i) == first + after,
    ensures
        i + first.len() + after.len() == s.len(),
        s.subrange(i, i + first.len()) == first,
        s.skip(i + first.len()) == after,
{
    assert(s.skip(i).len() == first.len() + after.len());
    assert(s.subrange(i, i + first.len()) =~= s.skip(i).subrange(0, first.len() as int));
    assert(s.skip(i).subrange(0, first.len() as int) =~= first);
    assert(s.skip(i + first.len()) =~= s.skip(i).skip(first.len() as int));
    assert(s.skip(i).skip(first.len() as int) =~= after);
}

/// Whether the definitions can follow `acc` in a schema: none is the base,
/// all lengths fit, and no tag is in `acc` or occurs twice.
pub open spec fn fresh(acc: Seq<DefinitionView>, rest: Seq<DefinitionView>) -> bool {
    &&& forall|k: int| 0 <= k < rest.len() ==> !(#[trigger] rest[k]).is_base && def_fits(rest[k])
    &&& forall|k: int| 0 <= k < rest.len() ==> !has_tag(acc, (#[trigger] rest[k]).tag)
    &&& forall|k: int, l: int|
        0 <= k < l < rest.len() ==> (#[trigger] rest[k]).tag != (#[trigger] rest[l]).tag
}

/// Definitions that can follow `acc` can, but for the first, follow `acc`
/// with the first added.
pub proof fn lemma_fresh_tail(acc: Seq<DefinitionView>, rest: Seq<DefinitionView>)
    requires
        fresh(acc, rest),
        rest.len() > 0,
    ensures
        fresh(acc.push(rest[0]), rest.drop_first()),
        !has_tag(acc, rest[0].tag),
        !rest[0].is_base,
        def_fits(rest[0]),
{
    let d = rest[0];
    let tail = rest.drop_first();
    assert forall|k: int| 0 <= k < tail.len() implies !has_tag(
        acc.push(d),
        (#[trigger] tail[k]).tag,
    ) by {
        assert(tail[k] == rest[k + 1]);
        assert(!has_tag(acc, rest[k + 1].tag));
        if has_tag(acc.push(d), tail[k].tag) {
            let w = choose|w: int|
                0 <= w < acc.push(d).len() && (#[trigger] acc.push(d)[w]).tag == tail[k].tag;
            if w < acc.len() {
                assert(acc[w].tag == tail[k].tag);
            } else {
                assert(rest[0].tag != rest[k + 1].tag);
            }
        }
    }
    assert forall|k: int, l: int| 0 <= k < l < tail.len() implies (#[trigger] tail[k]).tag != (
    #[trigger] tail[l]).tag by {
        assert(tail[k] == rest[k + 1]);
        assert(tail[l] == rest[l + 1]);
    }
    assert forall|k: int| 0 <= k < tail.len() implies !(#[trigger] tail[k]).is_base && def_fits(
        tail[k],
    ) by {
        assert(tail[k] == rest[k + 1]);
    }
}

/// The records of definitions that are not the base and whose tags are
/// new are added to a schema as those definitions, in their order.
pub proof fn lemma_load_schema(
    acc: Seq<DefinitionView>,
    rest: Seq<DefinitionView>,
    s: Seq<u8>,
    i: int,
)
    requires
        0 <= i <= s.len(),
        schema_bytes(rest) is Ok,
        s.skip(i) == schema_bytes(rest)->Ok_0,
        fresh(acc, rest),
    ensures
        load_schema(acc, s, i) == Ok::<Seq<DefinitionView>, DbError>(acc + rest),
    decreases rest.len(),
{
    if rest.len() == 0 {
        assert(s.skip(i).len() == 0);
        assert(acc + rest =~= acc);
    } else {
        let d = rest[0];
        let tail = rest.drop_first();
        let body = def_body(d);
        let after = schema_bytes(tail)->Ok_0;
        lemma_fresh_tail(acc, rest);
        assert(schema_bytes(rest)->Ok_0 == record(body) + after);
        lemma_split_front(s, i, record(body), after);
        lemma_scan_record(s, i, body);
        lemma_parse_def(s.skip(i + 1), d);
        let next = i + body.len() + 4;
        lemma_load_schema(acc.push(d), tail, s, next);
        assert(acc.push(d) + tail =~= acc + rest);
    }
}

/// The schema file of a well-formed schema, read into a schema that holds
/// its base definition alone, gives the schema back: every definition
/// with its tag, name, type, flag, explanation and children, in the same
/// order.
pub proof fn lemma_schema_round_trip(defs: Seq<DefinitionView>)
    requires
        schema_wf(defs),
        forall|k: int| 0 <= k < defs.len() ==> def_fits(#[trigger] defs[k]),
        schema_bytes(defs) is Ok,
    ensures
        load_schema(first_def(defs), schema_bytes(defs)->Ok_0, 0) == Ok::<
            Seq<DefinitionView>,
            DbError,
        >(defs),
{
    let rest = defs.drop_first();
    let s = schema_bytes(defs)->Ok_0;
    let acc = seq![defs[0]];
    assert(s.skip(0) =~= s);
    assert forall|k: int| 0 <= k < rest.len() implies !has_tag(acc, (#[trigger] rest[k]).tag) by {
        assert(rest[k] == defs[k + 1]);
        assert(defs[0].tag != defs[k + 1].tag);
    }
    assert forall|k: int| 0 <= k < rest.len() implies !(#[trigger] rest[k]).is_base && def_fits(
        rest[k],
    ) by {
        assert(rest[k] == defs[k + 1]);
    }
    assert forall|k: int, l: int| 0 <= k < l < rest.len() implies (#[trigger] rest[k]).tag != (
    #[trigger] rest[l]).tag by {
        assert(rest[k] == defs[k + 1]);
        assert(rest[l] == defs[l + 1]);
    }
    lemma_load_schema(acc, rest, s, 0);
    assert(acc + rest =~= defs);
}

/// The children of a node with their definitions taken from a schema.
pub open spec fn rebind_children(schema: Seq<DefinitionView>, d: DataView) -> Seq<DataView>
    decreases d, 0int,
{
    d.children.map_values(
        |c: DataView|
            if is_smaller_than(c, d) {
                rebind(schema, c)
            } else {
                arbitrary()
            },
    )
}

/// A node as it is read back: every node of it has the definition that
/// the schema holds for its tag, and the value and the children it had.
pub open spec fn rebind(schema: Seq<DefinitionView>, d: DataView) -> DataView
    decreases d, 1int,
{
    DataView {
        def: find_def(schema, d.def.tag)->Some_0,
        value: d.value,
        children: rebind_children(schema, d),
    }
}

/// Nodes as they are read back.
pub open spec fn rebind_all(schema: Seq<DefinitionView>, nodes: Seq<DataView>) -> Seq<DataView> {
    nodes.map_values(|c: DataView| rebind(schema, c))
}

/// A node is smaller than the node that it is a child of.
pub proof fn lemma_child_smaller(d: DataView, i: int)
    requires
        0 <= i < d.children.len(),
    ensures
        is_smaller_than(d.children[i], d),
{
    assert(decreases_to!(d => d.children));
    assert(decreases_to!(d.children => d.children[i]));
}

/// The children of a node that is read back are its children read back.
pub proof fn lemma_rebind(schema: Seq<DefinitionView>, d: DataView)
    ensures
        rebind(schema, d).children == rebind_all(schema, d.children),
{
    assert forall|i: int| 0 <= i < d.children.len() implies rebind_children(schema, d)[i]
        == rebind_all(schema, d.children)[i] by {
        lemma_child_smaller(d, i);
    }
    assert(rebind_children(schema, d) =~= rebind_all(schema, d.children));
}

/// Whether a node can be written and read back under a schema: the schema
/// has its tag, with the type of the node's own definition; its value
/// has four bytes unless it is a text; and the same holds of every node
/// below it.
pub open spec fn conforms(schema: Seq<DefinitionView>, d: DataView) -> bool
    decreases d,
{
    &&& find_def(schema, d.def.tag) is Some
    &&& find_def(schema, d.def.tag)->Some_0.data_type == d.def.data_type
    &&& d.def.data_type != Type::Unknown
    &&& d.def.data_type != Type::String ==> d.value.len() == 4
    &&& d.value.len() <= u128::MAX
    &&& forall|i: int|
        0 <= i < d.children.len() && is_smaller_than(#[trigger] d.children[i], d) ==> conforms(
            schema,
            d.children[i],
        )
}

/// Whether every node of a sequence conforms.
pub open spec fn all_conform(schema: Seq<DefinitionView>, nodes: Seq<DataView>) -> bool {
    forall|i: int| 0 <= i < nodes.len() ==> conforms(schema, #[trigger] nodes[i])
}

/// The children of a node that conforms conform.
pub proof fn lemma_conforms_children(schema: Seq<DefinitionView>, d: DataView)
    requires
        conforms(schema, d),
    ensures
        all_conform(schema, d.children),
{
    assert forall|i: int| 0 <= i < d.children.len() implies conforms(
        schema,
        #[trigger] d.children[i],
    ) by {
        lemma_child_smaller(d, i);
    }
}

/// The records of nodes begin with the record of the first node.
pub proof fn lemma_tree_bytes_first(nodes: Seq<DataView>)
    requires
        nodes.len() > 0,
    ensures
        tree_bytes(nodes) == record(node_body(nodes[0])) + tree_bytes(
            nodes.subrange(1, nodes.len() as int),
        ),
{
    let parts = nodes.map_values(|c: DataView| record(node_body(c)));
    assert(parts.drop_first() =~= nodes.subrange(1, nodes.len() as int).map_values(
        |c: DataView| record(node_body(c)),
    ));
}

/// The record of a node that conforms is read back as that node, with the
/// nodes below it: where the bytes from the second byte of the start
/// marker on begin with the record, whatever follows it.
pub proof fn lemma_parse_node(schema: Seq<DefinitionView>, s: Seq<u8>, d: DataView)
    requires
        conforms(schema, d),
        s.len() >= node_body(d).len() + 3,
        s.take(node_body(d).len() as int + 3) == record(node_body(d)).skip(1),
    ensures
        parse_node(schema, s) == Ok::<(DataView, int), DbError>(
            (rebind(schema, d), node_body(d).len() as int + 3),
        ),
    decreases d, 1int,
{
    let body = node_body(d);
    let len = body.len() as int;
    let f1 = be_bytes_u32(d.def.tag);
    let f2 = value_field(d);
    let f3 = tree_bytes(d.children);
    lemma_node_body(d);
    lemma_be_u32_round_trip(d.def.tag);
    lemma_be_u128_round_trip(d.value.len() as u128);
    assert(body == f1 + f2 + f3);
    lemma_body_part(s, body, 0, 4);
    assert(body.subrange(0, 4) =~= f1);
    lemma_u32_at(s, 1, d.def.tag);
    let def = find_def(schema, d.def.tag)->Some_0;
    let i = 5 + f2.len() as int;
    lemma_body_part(s, body, 4, i - 1);
    assert(body.subrange(4, i - 1) =~= f2);
    if d.def.data_type == Type::String {
        lemma_field_at(s, 5, d.value);
    } else {
        assert(s.subrange(5, 9) =~= d.value);
    }
    assert(parse_value(def.data_type, s, 5) == Ok::<(Seq<u8>, int), DbError>((d.value, i)));
    lemma_body_part(s, body, i - 1, len);
    assert(body.subrange(i - 1, len) =~= f3);
    lemma_conforms_children(schema, d);
    let front = s.take(len + 3);
    assert(s[len + 1] == front[len + 1]);
    assert(front[len + 1] == record(body)[len + 2]);
    assert(s[len + 1] == ETX);
    lemma_parse_nodes(schema, s, i, d.children);
    lemma_parse_end(s, body);
    lemma_rebind(schema, d);
}

/// The records of nodes that conform are read back as those nodes, up to
/// the end marker or the end of the bytes that follows them.
pub proof fn lemma_parse_nodes(schema: Seq<DefinitionView>, s: Seq<u8>, i: int, nodes: Seq<DataView>)
    requires
        all_conform(schema, nodes),
        0 <= i,
        i + tree_bytes(nodes).len() <= s.len(),
        s.subrange(i, i + tree_bytes(nodes).len()) == tree_bytes(nodes),
        i + tree_bytes(nodes).len() == s.len() || s[i + tree_bytes(nodes).len()] == ETX,
    ensures
        parse_nodes(schema, s, i) == Ok::<(Seq<DataView>, int), DbError>(
            (rebind_all(schema, nodes), i + tree_bytes(nodes).len()),
        ),
    decreases nodes, 0int,
{
    if nodes.len() == 0 {
        assert(nodes.map_values(|c: DataView| record(node_body(c))) =~= Seq::<Seq<u8>>::empty());
        assert(tree_bytes(nodes).len() == 0);
        assert(scan(s, i) == i);
        assert(rebind_all(schema, nodes) =~= Seq::<DataView>::empty());
    } else {
        let d = nodes[0];
        let rest = nodes.subrange(1, nodes.len() as int);
        let body = node_body(d);
        let whole = tree_bytes(nodes);
        lemma_tree_bytes_first(nodes);
        let after = tree_bytes(rest);
        assert(whole == record(body) + after);
        assert(s.subrange(i, i + body.len() + 4) =~= whole.subrange(0, body.len() as int + 4));
        assert(whole.subrange(0, body.len() as int + 4) =~= record(body));
        lemma_scan_record(s, i, body);
        lemma_parse_node(schema, s.skip(i + 1), d);
        let next = i + body.len() + 4;
        assert(s.subrange(next, next + after.len()) =~= whole.subrange(
            body.len() as int + 4,
            whole.len() as int,
        ));
        assert(whole.subrange(body.len() as int + 4, whole.len() as int) =~= after);
        assert forall|k: int| 0 <= k < rest.len() implies conforms(schema, #[trigger] rest[k]) by {
            assert(rest[k] == nodes[k + 1]);
        }
        lemma_parse_nodes(schema, s, next, rest);
        assert(seq![rebind(schema, d)] + rebind_all(schema, rest) =~= rebind_all(schema, nodes));
    }
}

/// The data file of nodes that conform to the schema is read back as
/// those nodes: every node with the definition that the schema holds for
/// its tag, and with the value and the children that were written.
pub proof fn lemma_data_round_trip(schema: Seq<DefinitionView>, nodes: Seq<DataView>)
    requires
        all_conform(schema, nodes),
    ensures
        load_tree(schema, tree_bytes(nodes)) == Ok::<Seq<DataView>, DbError>(
            rebind_all(schema, nodes),
        ),
{
    let s = tree_bytes(nodes);
    assert(s.subrange(0, s.len() as int) =~= s);
    lemma_parse_nodes(schema, s, 0, nodes);
}

/// Whether two trees have the same shape and, node by node, the same tag,
/// type and raw value.
pub open spec fn same_content(a: DataView, b: DataView) -> bool
    decreases a,
{
    &&& a.def.tag == b.def.tag
    &&& a.def.data_type == b.def.data_type
    &&& a.value == b.value
    &&& a.children.len() == b.children.len()
    &&& forall|i: int|
        0 <= i < a.children.len() && is_smaller_than(#[trigger] a.children[i], a) ==> same_content(
            a.children[i],
            b.children[i],
        )
}

/// The children of trees with the same content have the same content.
pub proof fn lemma_same_children(a: DataView, b: DataView, i: int)
    requires
        same_content(a, b),
        0 <= i < a.children.len(),
    ensures
        same_content(a.children[i], b.children[i]),
{
    lemma_child_smaller(a, i);
}

/// A node that conforms is read back with the content it had.
pub proof fn lemma_rebind_same(schema: Seq<DefinitionView>, d: DataView)
    requires
        conforms(schema, d),
    ensures
        same_content(d, rebind(schema, d)),
    decreases d,
{
    lemma_rebind(schema, d);
    lemma_find_def(schema, d.def.tag);
    lemma_conforms_children(schema, d);
    assert forall|i: int|
        0 <= i < d.children.len() && is_smaller_than(
            #[trigger] d.children[i],
            d,
        ) implies same_content(d.children[i], rebind(schema, d).children[i]) by {
        lemma_rebind_same(schema, d.children[i]);
    }
}

/// Nodes with the same content hold the same identity values.
pub proof fn lemma_same_identity(a: DataView, b: DataView, id: DataView)
    requires
        same_content(a, b),
    ensures
        holds_identity(a, id) == holds_identity(b, id),
{
    if holds_identity(a, id) {
        let k = choose|k: int|
            0 <= k < a.children.len() && (#[trigger] a.children[k]).def.tag == id.def.tag
                && a.children[k].value == id.value;
        lemma_same_children(a, b, k);
        assert(b.children[k].def.tag == id.def.tag);
    }
    if holds_identity(b, id) {
        let k = choose|k: int|
            0 <= k < b.children.len() && (#[trigger] b.children[k]).def.tag == id.def.tag
                && b.children[k].value == id.value;
        lemma_same_children(a, b, k);
        assert(a.children[k].def.tag == id.def.tag);
    }
}

/// Nodes with the same content match the same steps of an address.
pub proof fn lemma_same_step(a: DataView, b: DataView, step: DataRootView)
    requires
        same_content(a, b),
    ensures
        step_matches(a, step) == step_matches(b, step),
{
    match step.id_data {
        Some(id) => {
            lemma_same_identity(a, b, id);
        },
        None => {},
    }
}

/// Among the children of trees with the same content, a step of an
/// address finds its first match at the same position.
pub proof fn lemma_same_first_match(a: DataView, b: DataView, step: DataRootView, from: int)
    requires
        same_content(a, b),
        0 <= from <= a.children.len(),
    ensures
        first_match(a.children, step, from) == first_match(b.children, step, from),
    decreases a.children.len() - from,
{
    if from < a.children.len() {
        lemma_same_children(a, b, from);
        lemma_same_step(a.children[from], b.children[from], step);
        lemma_same_first_match(a, b, step, from + 1);
    }
}

/// In trees with the same content an address resolves to the same index
/// path, and the nodes that it leads to have the same content.
pub proof fn lemma_same_resolve(a: DataView, b: DataView, path: Seq<DataRootView>)
    requires
        same_content(a, b),
    ensures
        resolve(a, path) == resolve(b, path),
        resolve(a, path) is Some ==> same_content(
            a.at(resolve(a, path)->Some_0),
            b.at(resolve(a, path)->Some_0),
        ),
    decreases path.len(),
{
    if path.len() > 0 {
        let k = first_match(a.children, path[0], 0);
        lemma_same_first_match(a, b, path[0], 0);
        lemma_first_match(a.children, path[0], 0);
        if k < a.children.len() {
            lemma_same_children(a, b, k);
            lemma_same_resolve(a.children[k], b.children[k], path.drop_first());
            if resolve(a, path) is Some {
                let rest = resolve(a.children[k], path.drop_first())->Some_0;
                assert((seq![k] + rest).drop_first() =~= rest);
            }
        }
    }
}

/// After the data file of a tree was written and read back under the
/// same schema, every address that led to a node leads to a node again,
/// by the same index path, and that node has the tag, the type and the
/// raw value, and so the decoded value, of the node that it led to before.
pub proof fn lemma_data_paths_survive(
    schema: Seq<DefinitionView>,
    root: DataView,
    path: Seq<DataRootView>,
)
    requires
        all_conform(schema, root.children),
    ensures
        load_tree(schema, tree_bytes(root.children)) == Ok::<Seq<DataView>, DbError>(
            rebind_all(schema, root.children),
        ),
        ({
            let after = DataView { children: rebind_all(schema, root.children), ..root };
            &&& resolve(after, path) == resolve(root, path)
            &&& resolve(root, path) matches Some(p) ==> {
                &&& after.at(p).def.tag == root.at(p).def.tag
                &&& after.at(p).def.data_type == root.at(p).def.data_type
                &&& after.at(p).value == root.at(p).value
                &&& bytes_value(after.at(p).def.data_type, after.at(p).value) == bytes_value(
                    root.at(p).def.data_type,
                    root.at(p).value,
                )
            }
        }),
{
    lemma_data_round_trip(schema, root.children);
    let after = DataView { children: rebind_all(schema, root.children), ..root };
    assert forall|i: int|
        0 <= i < root.children.len() && is_smaller_than(
            #[trigger] root.children[i],
            root,
        ) implies same_content(root.children[i], after.children[i]) by {
        lemma_rebind_same(schema, root.children[i]);
    }
    lemma_same_resolve(root, after, path);
}

/// Where a record ends rightly, it no longer does once a byte between its
/// markers is changed: the checksum then fails.
pub proof fn lemma_end_detects_change(s: Seq<u8>, j: int, k: int, b: u8)
    requires
        parse_end(s, j) is Ok,
        1 <= k < j,
        b != s[k],
    ensures
        parse_end(s.update(k, b), j) == Err::<int, DbError>(DbError::ChecksumMismatch),
{
    let changed = s.update(k, b);
    assert(read_body(changed, j + 1) =~= read_body(s, j + 1).update(k - 1, b));
    lemma_checksum_detects_change(read_body(s, j + 1), k - 1, b);
}

/// `scan` looks only at the bytes from its starting position on.
pub proof fn lemma_scan_frame(s: Seq<u8>, t: Seq<u8>, i: int)
    requires
        0 <= i,
        s.len() == t.len(),
        forall|k: int| i <= k < s.len() ==> s[k] == t[k],
    ensures
        scan(s, i) == scan(t, i),
    decreases s.len() - i,
{
    if i < s.len() && s[i] != ETX && s[i] != STX {
        lemma_scan_frame(s, t, i + 1);
    }
}

/// Reading nodes looks only at the bytes from the starting position on.
pub proof fn lemma_parse_nodes_frame(schema: Seq<DefinitionView>, s: Seq<u8>, t: Seq<u8>, i: int)
    requires
        0 <= i,
        s.len() == t.len(),
        forall|k: int| i <= k < s.len() ==> s[k] == t[k],
    ensures
        parse_nodes(schema, s, i) == parse_nodes(schema, t, i),
    decreases s.len() - i,
{
    lemma_scan_frame(s, t, i);
    if i <= s.len() {
        lemma_scan_bounds(s, i);
    }
    let p = scan(s, i);
    if 0 <= i <= p < s.len() && s[p] == STX {
        assert(s.skip(p) =~= t.skip(p));
        match parse_node(schema, s.skip(p)) {
            Err(e) => {},
            Ok((d, n)) => {
                if 2 <= n <= s.len() - p {
                    lemma_parse_nodes_frame(schema, s, t, p + n);
                }
            },
        }
    }
}

/// The first byte of the value of a node in its record, counted from the
/// second byte of the start marker.
pub open spec fn value_start(d: DataView) -> int {
    if d.def.data_type == Type::String {
        21
    } else {
        5
    }
}

/// A changed byte in the value of a written node is detected: the record
/// is then refused with a checksum mismatch.
pub proof fn lemma_value_change_detected(
    schema: Seq<DefinitionView>,
    s: Seq<u8>,
    d: DataView,
    k: int,
    b: u8,
)
    requires
        conforms(schema, d),
        s.len() >= node_body(d).len() + 3,
        s.take(node_body(d).len() as int + 3) == record(node_body(d)).skip(1),
        value_start(d) <= k < value_start(d) + d.value.len(),
        b != s[k],
    ensures
        parse_node(schema, s.update(k, b)) == Err::<(DataView, int), DbError>(
            DbError::ChecksumMismatch,
        ),
{
    let t = s.update(k, b);
    let body = node_body(d);
    let len = body.len() as int;
    lemma_parse_node(schema, s, d);
    lemma_node_body(d);
    lemma_be_u32_round_trip(d.def.tag);
    lemma_be_u128_round_trip(d.value.len() as u128);
    let i = value_start(d) + d.value.len();
    assert(len >= i - 1);
    assert(t.subrange(1, 5) =~= s.subrange(1, 5));
    assert(u32_at(t, 1) == u32_at(s, 1));
    let def = find_def(schema, d.def.tag)->Some_0;
    lemma_body_part(s, body, 0, 4);
    assert(body.subrange(0, 4) =~= be_bytes_u32(d.def.tag));
    lemma_u32_at(s, 1, d.def.tag);
    lemma_body_part(s, body, 4, i - 1);
    assert(body.subrange(4, i - 1) =~= value_field(d));
    if d.def.data_type == Type::String {
        lemma_field_at(s, 5, d.value);
        assert(t.subrange(5, 21) =~= s.subrange(5, 21));
        assert(u128_at(t, 5) == u128_at(s, 5));
        assert(field_at(t, 5) == Some(t.subrange(21, i)));
    }
    assert(parse_value(def.data_type, s, 5) is Ok);
    assert(parse_value(def.data_type, t, 5) is Ok);
    assert(parse_value(def.data_type, t, 5)->Ok_0.1 == i);
    assert(parse_value(def.data_type, s, 5)->Ok_0.1 == i);
    lemma_parse_nodes_frame(schema, s, t, i);
    let j = parse_nodes(schema, s, i)->Ok_0.1;
    lemma_body_part(s, body, i - 1, len);
    assert(body.subrange(i - 1, len) =~= tree_bytes(d.children));
    lemma_conforms_children(schema, d);
    let front = s.take(len + 3);
    assert(s[len + 1] == front[len + 1]);
    assert(front[len + 1] == record(body)[len + 2]);
    lemma_parse_nodes(schema, s, i, d.children);
    assert(j == len + 1);
    lemma_parse_end(s, body);
    lemma_end_detects_change(s, j, k, b);
}

/// A record whose tag the schema does not have is refused as such,
/// whatever follows the tag.
pub proof fn lemma_undefined_tag(schema: Seq<DefinitionView>, s: Seq<u8>, tag: u32)
    requires
        u32_at(s, 1) == Some(tag),
        !has_tag(schema, tag),
    ensures
        parse_node(schema, s) == Err::<(DataView, int), DbError>(DbError::UndefinedTag),
{
    lemma_find_def(schema, tag);
}

/// A data file in which, after nodes that conform to the schema, comes a
/// node whose tag the schema does not have is refused with `UndefinedTag`.
pub proof fn lemma_absent_tag_refused(
    schema: Seq<DefinitionView>,
    s: Seq<u8>,
    i: int,
    nodes: Seq<DataView>,
    bad: int,
)
    requires
        0 <= bad < nodes.len(),
        forall|k: int| 0 <= k < bad ==> conforms(schema, #[trigger] nodes[k]),
        !has_tag(schema, nodes[bad].def.tag),
        0 <= i,
        i + tree_bytes(nodes).len() <= s.len(),
        s.subrange(i, i + tree_bytes(nodes).len()) == tree_bytes(nodes),
    ensures
        parse_nodes(schema, s, i) == Err::<(Seq<DataView>, int), DbError>(DbError::UndefinedTag),
    decreases bad,
{
    let d = nodes[0];
    let rest = nodes.subrange(1, nodes.len() as int);
    let body = node_body(d);
    let whole = tree_bytes(nodes);
    lemma_tree_bytes_first(nodes);
    let after = tree_bytes(rest);
    assert(s.subrange(i, i + body.len() + 4) =~= whole.subrange(0, body.len() as int + 4));
    assert(whole.subrange(0, body.len() as int + 4) =~= record(body));
    lemma_scan_record(s, i, body);
    let inner = s.skip(i + 1);
    if bad == 0 {
        lemma_node_body(d);
        lemma_be_u32_round_trip(d.def.tag);
        lemma_body_part(inner, body, 0, 4);
        assert(body.subrange(0, 4) =~= be_bytes_u32(d.def.tag));
        lemma_u32_at(inner, 1, d.def.tag);
        lemma_undefined_tag(schema, inner, d.def.tag);
    } else {
        lemma_parse_node(schema, inner, d);
        let next = i + body.len() + 4;
        assert(s.subrange(next, next + after.len()) =~= whole.subrange(
            body.len() as int + 4,
            whole.len() as int,
        ));
        assert(whole.subrange(body.len() as int + 4, whole.len() as int) =~= after);
        assert forall|k: int| 0 <= k < bad - 1 implies conforms(schema, #[trigger] rest[k]) by {
            assert(rest[k] == nodes[k + 1]);
        }
        assert(rest[bad - 1] == nodes[bad]);
        lemma_absent_tag_refused(schema, s, next, rest, bad - 1);
    }
}

} // verus!
