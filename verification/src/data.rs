//! The data tree: typed values under tags, with nested children, addressed
//! by paths of tags and identity values.

use vstd::prelude::*;
use vstd::utf8::{decode_utf8, encode_utf8, valid_utf8};
use crate::codec::string_from_utf8;
use crate::data_type::Type;
use crate::definition::{Definition, DefinitionView};
use crate::error::DbError;

verus! {

/// A value as the application holds it.
#[derive(Debug, PartialEq, Eq)]
pub enum Value {
    /// A signed 32-bit integer.
    Int(i32),
    /// The bit pattern of a 32-bit IEEE-754 number.
    Float(u32),
    /// A text.
    String(String),
}

/// The mathematical content of a [`Value`].
pub ghost enum ValueView {
    Int(i32),
    Float(u32),
    String(Seq<char>),
}

impl View for Value {
    type V = ValueView;

    open spec fn view(&self) -> ValueView {
        match self {
            Value::Int(v) => ValueView::Int(*v),
            Value::Float(bits) => ValueView::Float(*bits),
            Value::String(s) => ValueView::String(s@),
        }
    }
}

/// A node of the data tree.
#[derive(Debug)]
pub struct Data {
    /// The definition that the node was made with.
    pub def: Definition,
    /// The value as raw bytes.
    pub value: Vec<u8>,
    /// The nodes nested under this one, in the order they were added.
    pub children: Vec<Data>,
}

/// The mathematical content of a [`Data`] node.
pub ghost struct DataView {
    pub def: DefinitionView,
    pub value: Seq<u8>,
    pub children: Seq<DataView>,
}

/// One step of an address: a tag, and optionally the identity value that
/// the addressed node must hold among its children.
#[derive(Debug)]
pub struct DataRoot {
    /// The tag of the addressed node.
    pub tag: u32,
    /// The identity value that tells nodes with the same tag apart.
    pub id_data: Option<Data>,
}

/// The mathematical content of a [`DataRoot`].
pub ghost struct DataRootView {
    pub tag: u32,
    pub id_data: Option<DataView>,
}

/// A 32-bit value as four bytes, least significant first.
pub open spec fn le_bytes_u32(x: u32) -> Seq<u8> {
    seq![
        (x & 0xff) as u8,
        ((x >> 8) & 0xff) as u8,
        ((x >> 16) & 0xff) as u8,
        ((x >> 24) & 0xff) as u8,
    ]
}

/// The 32-bit value that the first four bytes spell, least significant first.
pub open spec fn le_value_u32(s: Seq<u8>) -> u32
    recommends
        s.len() >= 4,
{
    (s[0] as u32) | ((s[1] as u32) << 8) | ((s[2] as u32) << 16) | ((s[3] as u32) << 24)
}

/// Four bytes written from a value spell that value.
pub proof fn lemma_le_u32_round_trip(x: u32)
    ensures
        le_bytes_u32(x).len() == 4,
        le_value_u32(le_bytes_u32(x)) == x,
{
    assert((((x & 0xff) as u8) as u32) | ((((x >> 8) & 0xff) as u8) as u32) << 8 | ((((x >> 16)
        & 0xff) as u8) as u32) << 16 | ((((x >> 24) & 0xff) as u8) as u32) << 24 == x)
        by (bit_vector);
}

/// The raw bytes of a value under a definition of type `t`, or the reason
/// why the value cannot be stored under it.
pub open spec fn value_bytes(t: Type, v: ValueView) -> Result<Seq<u8>, DbError> {
    match t {
        Type::Unknown => Err(DbError::UnsupportedType),
        Type::Int => match v {
            ValueView::Int(i) => Ok(le_bytes_u32(i as u32)),
            _ => Err(DbError::TypeMismatch),
        },
        Type::Float => match v {
            ValueView::Float(bits) => Ok(le_bytes_u32(bits)),
            _ => Err(DbError::TypeMismatch),
        },
        Type::String => match v {
            ValueView::String(s) => Ok(encode_utf8(s)),
            _ => Err(DbError::TypeMismatch),
        },
    }
}

/// The value that raw bytes hold under a definition of type `t`, or the
/// reason why they hold none.
pub open spec fn bytes_value(t: Type, bytes: Seq<u8>) -> Result<ValueView, DbError> {
    match t {
        Type::Unknown => Err(DbError::UnsupportedType),
        Type::Int => if bytes.len() >= 4 {
            Ok(ValueView::Int(le_value_u32(bytes) as i32))
        } else {
            Err(DbError::Truncated)
        },
        Type::Float => if bytes.len() >= 4 {
            Ok(ValueView::Float(le_value_u32(bytes)))
        } else {
            Err(DbError::Truncated)
        },
        Type::String => if valid_utf8(bytes) {
            Ok(ValueView::String(decode_utf8(bytes)))
        } else {
            Err(DbError::InvalidUtf8)
        },
    }
}

/// A value that was stored under a type is read back unchanged.
pub proof fn lemma_value_round_trip(t: Type, v: ValueView)
    requires
        value_bytes(t, v) is Ok,
    ensures
        bytes_value(t, value_bytes(t, v)->Ok_0) == Ok::<ValueView, DbError>(v),
{
    match v {
        ValueView::Int(i) => {
            lemma_le_u32_round_trip(i as u32);
            assert((i as u32) as i32 == i) by (bit_vector);
        },
        ValueView::Float(bits) => {
            lemma_le_u32_round_trip(bits);
        },
        ValueView::String(s) => {
            vstd::utf8::encode_utf8_valid_utf8(s);
            vstd::utf8::encode_utf8_decode_utf8(s);
        },
    }
}

/// The four bytes of a value, least significant first.
fn u32_le_bytes(x: u32) -> (r: Vec<u8>)
    ensures
        r@ == le_bytes_u32(x),
{
    let mut v: Vec<u8> = Vec::new();
    assert(x & 0xff <= 0xff && (x >> 8) & 0xff <= 0xff && (x >> 16) & 0xff <= 0xff && (x >> 24)
        & 0xff <= 0xff) by (bit_vector);
    v.push((x & 0xff) as u8);
    v.push(((x >> 8) & 0xff) as u8);
    v.push(((x >> 16) & 0xff) as u8);
    v.push(((x >> 24) & 0xff) as u8);
    assert(v@ =~= le_bytes_u32(x));
    v
}

impl Data {
    /// The mathematical content of the node and of all nodes below it.
    pub open spec fn model(self) -> DataView
        decreases self,
    {
        DataView {
            def: self.def@,
            value: self.value@,
            children: self.children@.map_values(
                |c: Data|
                    if is_smaller_than(c, self) {
                        c.model()
                    } else {
                        arbitrary()
                    },
            ),
        }
    }
}

impl View for Data {
    type V = DataView;

    open spec fn view(&self) -> DataView {
        self.model()
    }
}

impl View for DataRoot {
    type V = DataRootView;

    open spec fn view(&self) -> DataRootView {
        DataRootView {
            tag: self.tag,
            id_data: match self.id_data {
                Some(d) => Some(d@),
                None => None,
            },
        }
    }
}

/// The views of a sequence of nodes.
pub open spec fn views(nodes: Seq<Data>) -> Seq<DataView> {
    nodes.map_values(|c: Data| c@)
}

/// The view of a node consists of the views of its parts.
pub proof fn lemma_view(d: Data)
    ensures
        d@.def == d.def@,
        d@.value == d.value@,
        d@.children == views(d.children@),
        d@.children.len() == d.children@.len(),
        forall|i: int| 0 <= i < d.children@.len() ==> d@.children[i] == (#[trigger] d.children@[i])@,
{
    assert(d@.children =~= views(d.children@));
}

impl Data {
    /// A node without children that holds `value` under `def`. The kind of
    /// the value must be the one that the definition declares.
    pub fn new(def: Definition, value: Value) -> (r: Result<Data, DbError>)
        ensures
            match value_bytes(def@.data_type, value@) {
                Ok(bytes) => r is Ok && r->Ok_0@ == (DataView {
                    def: def@,
                    value: bytes,
                    children: Seq::<DataView>::empty(),
                }),
                Err(e) => r is Err && r->Err_0 == e,
            },
    {
        let bytes: Vec<u8> = match def.data_type {
            Type::Unknown => {
                return Err(DbError::UnsupportedType);
            },
            Type::Int => match value {
                Value::Int(i) => u32_le_bytes(i as u32),
                _ => {
                    return Err(DbError::TypeMismatch);
                },
            },
            Type::Float => match value {
                Value::Float(bits) => u32_le_bytes(bits),
                _ => {
                    return Err(DbError::TypeMismatch);
                },
            },
            Type::String => match value {
                Value::String(s) => s.as_str().as_bytes_vec(),
                _ => {
                    return Err(DbError::TypeMismatch);
                },
            },
        };
        let d = Data { def, value: bytes, children: Vec::new() };
        proof {
            lemma_view(d);
            assert(d@.children =~= Seq::<DataView>::empty());
        }
        Ok(d)
    }

    /// A node without children that holds raw bytes under `def`, as they
    /// come from a file. The bytes are not checked against the definition.
    pub fn read_binary(def: Definition, value: Vec<u8>) -> (d: Data)
        ensures
            d@ == (DataView { def: def@, value: value@, children: Seq::<DataView>::empty() }),
            d.def == def,
            d.value == value,
            d.children@.len() == 0,
    {
        let d = Data { def, value, children: Vec::new() };
        proof {
            lemma_view(d);
            assert(d@.children =~= Seq::<DataView>::empty());
        }
        d
    }

    /// The definition that the node was made with.
    pub fn get_def(&self) -> (r: &Definition)
        ensures
            r@ == self@.def,
            *r == self.def,
    {
        &self.def
    }

    /// The value of the node, decoded by the type of its definition.
    pub fn get_value(&self) -> (r: Result<Value, DbError>)
        ensures
            match bytes_value(self@.def.data_type, self@.value) {
                Ok(v) => r is Ok && r->Ok_0@ == v,
                Err(e) => r is Err && r->Err_0 == e,
            },
    {
        match self.def.data_type {
            Type::Unknown => Err(DbError::UnsupportedType),
            Type::Int => {
                if self.value.len() < 4 {
                    Err(DbError::Truncated)
                } else {
                    let bits: u32 = self.first_word();
                    Ok(Value::Int(bits as i32))
                }
            },
            Type::Float => {
                if self.value.len() < 4 {
                    Err(DbError::Truncated)
                } else {
                    Ok(Value::Float(self.first_word()))
                }
            },
            Type::String => match string_from_utf8(self.value.clone()) {
                Some(s) => Ok(Value::String(s)),
                None => Err(DbError::InvalidUtf8),
            },
        }
    }

    /// The 32-bit value in the first four bytes, least significant first.
    fn first_word(&self) -> (r: u32)
        requires
            self.value@.len() >= 4,
        ensures
            r == le_value_u32(self.value@),
    {
        let b0: u32 = self.value[0] as u32;
        let b1: u32 = self.value[1] as u32;
        let b2: u32 = self.value[2] as u32;
        let b3: u32 = self.value[3] as u32;
        b0 | (b1 << 8) | (b2 << 16) | (b3 << 24)
    }

    /// The nodes nested under this one.
    pub fn get_children(&self) -> (r: &Vec<Data>)
        ensures
            *r == self.children,
            views(r@) == self@.children,
    {
        proof {
            lemma_view(*self);
        }
        &self.children
    }

    /// The value as raw bytes.
    pub fn get_bite_value(&self) -> (r: &Vec<u8>)
        ensures
            r@ == self@.value,
    {
        &self.value
    }
}

/// The positions of an index path as mathematical integers.
pub open spec fn ints(path: Seq<usize>) -> Seq<int> {
    path.map_values(|i: usize| i as int)
}

/// The views of the steps of an address.
pub open spec fn root_views(root: Seq<&DataRoot>) -> Seq<DataRootView> {
    root.map_values(|r: &DataRoot| r@)
}

impl DataView {
    /// Whether the positions of `path`, taken one after the other among the
    /// children, lead to a node.
    pub open spec fn has_path(self, path: Seq<int>) -> bool
        decreases path.len(),
    {
        path.len() > 0 ==> 0 <= path[0] < self.children.len() && self.children[path[0]].has_path(
            path.drop_first(),
        )
    }

    /// The node that `path` leads to.
    pub open spec fn at(self, path: Seq<int>) -> DataView
        recommends
            self.has_path(path),
        decreases path.len(),
    {
        if path.len() == 0 {
            self
        } else {
            self.children[path[0]].at(path.drop_first())
        }
    }

    /// The tree in which the node that `path` leads to is replaced by `node`.
    pub open spec fn put(self, path: Seq<int>, node: DataView) -> DataView
        recommends
            self.has_path(path),
        decreases path.len(),
    {
        if path.len() == 0 {
            node
        } else {
            DataView {
                children: self.children.update(
                    path[0],
                    self.children[path[0]].put(path.drop_first(), node),
                ),
                ..self
            }
        }
    }

    /// The node with `child` added as its last child.
    pub open spec fn push_child(self, child: DataView) -> DataView {
        DataView { children: self.children.push(child), ..self }
    }

    /// The tree in which `child` is added as the last child of the node that
    /// `path` leads to.
    pub open spec fn push_at(self, path: Seq<int>, child: DataView) -> DataView
        recommends
            self.has_path(path),
    {
        self.put(path, self.at(path).push_child(child))
    }
}

/// Whether `node` has a child with the tag and the raw value of `id`.
pub open spec fn holds_identity(node: DataView, id: DataView) -> bool {
    exists|k: int|
        0 <= k < node.children.len() && (#[trigger] node.children[k]).def.tag == id.def.tag
            && node.children[k].value == id.value
}

/// Whether `node` is what the step of an address asks for: it has the tag
/// and, where the step names an identity value, holds it.
pub open spec fn step_matches(node: DataView, step: DataRootView) -> bool {
    node.def.tag == step.tag && match step.id_data {
        Some(id) => holds_identity(node, id),
        None => true,
    }
}

/// The position of the first node at or after `from` that matches `step`,
/// or the number of nodes if none does.
pub open spec fn first_match(nodes: Seq<DataView>, step: DataRootView, from: int) -> int
    decreases nodes.len() - from,
{
    if from < 0 || from >= nodes.len() {
        nodes.len() as int
    } else if step_matches(nodes[from], step) {
        from
    } else {
        first_match(nodes, step, from + 1)
    }
}

/// The index path of the node that an address leads to: at each step the
/// first child that matches is taken. `None` if a step matches no child.
pub open spec fn resolve(node: DataView, path: Seq<DataRootView>) -> Option<Seq<int>>
    decreases path.len(),
{
    if path.len() == 0 {
        Some(Seq::<int>::empty())
    } else {
        let k = first_match(node.children, path[0], 0);
        if k < node.children.len() {
            match resolve(node.children[k], path.drop_first()) {
                Some(rest) => Some(seq![k] + rest),
                None => None,
            }
        } else {
            None
        }
    }
}

/// Where `first_match` stops: on the first match, or at the end.
pub proof fn lemma_first_match(nodes: Seq<DataView>, step: DataRootView, from: int)
    requires
        0 <= from <= nodes.len(),
    ensures
        from <= first_match(nodes, step, from) <= nodes.len(),
        first_match(nodes, step, from) < nodes.len() ==> step_matches(
            nodes[first_match(nodes, step, from)],
            step,
        ),
        forall|j: int| from <= j < first_match(nodes, step, from) ==> !step_matches(nodes[j], step),
    decreases nodes.len() - from,
{
    if from < nodes.len() && !step_matches(nodes[from], step) {
        lemma_first_match(nodes, step, from + 1);
    }
}

/// An address that resolves leads to a node of the tree.
pub proof fn lemma_resolve_has_path(node: DataView, path: Seq<DataRootView>)
    requires
        resolve(node, path) is Some,
    ensures
        node.has_path(resolve(node, path)->Some_0),
        resolve(node, path)->Some_0.len() == path.len(),
    decreases path.len(),
{
    if path.len() > 0 {
        let k = first_match(node.children, path[0], 0);
        lemma_first_match(node.children, path[0], 0);
        lemma_resolve_has_path(node.children[k], path.drop_first());
        let rest = resolve(node.children[k], path.drop_first())->Some_0;
        assert((seq![k] + rest).drop_first() =~= rest);
    }
}

impl Clone for Value {
    fn clone(&self) -> (r: Self)
        ensures
            r@ == self@,
    {
        match self {
            Value::Int(v) => Value::Int(*v),
            Value::Float(bits) => Value::Float(*bits),
            Value::String(s) => Value::String(s.clone()),
        }
    }
}

impl Clone for Data {
    fn clone(&self) -> (r: Self)
        ensures
            r@ == self@,
        decreases self,
    {
        let mut children: Vec<Data> = Vec::new();
        let mut i: usize = 0;
        while i < self.children.len()
            invariant
                i <= self.children@.len(),
                children@.len() == i,
                forall|j: int| 0 <= j < i ==> (#[trigger] children@[j])@ == self.children@[j]@,
            decreases self.children@.len() - i,
        {
            let c = self.children[i].clone();
            children.push(c);
            i += 1;
        }
        let value = self.value.clone();
        assert(value@ =~= self.value@);
        let r = Data { def: self.def.clone(), value, children };
        proof {
            lemma_view(r);
            lemma_view(*self);
            assert(r@.children =~= self@.children);
        }
        r
    }
}

impl Clone for DataRoot {
    fn clone(&self) -> (r: Self)
        ensures
            r@ == self@,
    {
        DataRoot {
            tag: self.tag,
            id_data: match &self.id_data {
                Some(d) => Some(d.clone()),
                None => None,
            },
        }
    }
}

/// Whether two byte vectors hold the same bytes.
fn same_bytes(a: &Vec<u8>, b: &Vec<u8>) -> (r: bool)
    ensures
        r == (a@ == b@),
{
    if a.len() != b.len() {
        return false;
    }
    let mut i: usize = 0;
    while i < a.len()
        invariant
            i <= a@.len(),
            a@.len() == b@.len(),
            forall|j: int| 0 <= j < i ==> a@[j] == b@[j],
        decreases a@.len() - i,
    {
        if a[i] != b[i] {
            return false;
        }
        i += 1;
    }
    assert(a@ =~= b@);
    true
}

impl Data {
    /// Whether `res` is this tree with the node at `path` replaced by `leaf`
    /// and nothing else changed.
    pub open spec fn replaced(self, path: Seq<usize>, leaf: Data, res: Data) -> bool
        decreases path.len(),
    {
        if path.len() == 0 {
            res == leaf
        } else {
            let i = path[0] as int;
            &&& res.def == self.def
            &&& res.value == self.value
            &&& res.children@ == self.children@.update(i, res.children@[i])
            &&& self.children@[i].replaced(path.drop_first(), leaf, res.children@[i])
        }
    }

    /// A tree in which one node was replaced has the view of the old tree
    /// with the view of that node replaced.
    pub proof fn lemma_replaced(self, path: Seq<usize>, leaf: Data, res: Data)
        requires
            self@.has_path(ints(path)),
            self.replaced(path, leaf, res),
        ensures
            res@ == self@.put(ints(path), leaf@),
        decreases path.len(),
    {
        if path.len() > 0 {
            let i = path[0] as int;
            lemma_view(self);
            lemma_view(res);
            assert(ints(path).drop_first() =~= ints(path.drop_first()));
            self.children@[i].lemma_replaced(path.drop_first(), leaf, res.children@[i]);
            assert(res@.children =~= self@.children.update(
                i,
                self@.children[i].put(ints(path).drop_first(), leaf@),
            ));
        }
    }

    /// Whether this node has a child with the tag and the raw value of `data`.
    pub fn is_equal_child(&self, data: &Data) -> (r: bool)
        ensures
            r == holds_identity(self@, data@),
    {
        proof {
            lemma_view(*self);
            lemma_view(*data);
        }
        let mut i: usize = 0;
        while i < self.children.len()
            invariant
                i <= self.children@.len(),
                self@.children.len() == self.children@.len(),
                forall|j: int|
                    0 <= j < self.children@.len() ==> self@.children[j] == (
                    #[trigger] self.children@[j])@,
                data@.def == data.def@,
                data@.value == data.value@,
                forall|j: int|
                    0 <= j < i ==> !((#[trigger] self@.children[j]).def.tag == data@.def.tag
                        && self@.children[j].value == data@.value),
            decreases self.children@.len() - i,
        {
            proof {
                lemma_view(self.children@[i as int]);
            }
            if self.children[i].def.tag == data.def.tag && same_bytes(
                &self.children[i].value,
                &data.value,
            ) {
                assert(self@.children[i as int].def.tag == data@.def.tag);
                return true;
            }
            i += 1;
        }
        false
    }

    /// Whether this node is what `step` asks for.
    fn matches_step(&self, step: &DataRoot) -> (r: bool)
        ensures
            r == step_matches(self@, step@),
    {
        proof {
            lemma_view(*self);
        }
        if self.def.tag != step.tag {
            return false;
        }
        match &step.id_data {
            Some(id) => self.is_equal_child(id),
            None => true,
        }
    }

    /// The position of the first child that `step` asks for, or the number
    /// of children if there is none.
    fn find_child(&self, step: &DataRoot) -> (k: usize)
        ensures
            k == first_match(self@.children, step@, 0),
            k <= self.children@.len(),
    {
        proof {
            lemma_view(*self);
        }
        let mut i: usize = 0;
        while i < self.children.len()
            invariant
                i <= self.children@.len(),
                self@.children.len() == self.children@.len(),
                forall|j: int|
                    0 <= j < self.children@.len() ==> self@.children[j] == (
                    #[trigger] self.children@[j])@,
                first_match(self@.children, step@, 0) == first_match(
                    self@.children,
                    step@,
                    i as int,
                ),
            decreases self.children@.len() - i,
        {
            if self.children[i].matches_step(step) {
                return i;
            }
            i += 1;
        }
        i
    }

    /// Appends to `path` the index path of the node that the steps of
    /// `root` from `from` on lead to, and tells whether there is one.
    fn resolve_from(&self, root: &Vec<&DataRoot>, from: usize, path: &mut Vec<usize>) -> (r: bool)
        requires
            from <= root@.len(),
        ensures
            match resolve(self@, root_views(root@).skip(from as int)) {
                Some(p) => r && ints(final(path)@) == ints(old(path)@) + p,
                None => !r,
            },
        decreases root@.len() - from,
    {
        let ghost steps = root_views(root@).skip(from as int);
        if from >= root.len() {
            assert(ints(path@) =~= ints(path@) + Seq::<int>::empty());
            return true;
        }
        let k = self.find_child(root[from]);
        assert(steps[0] == root@[from as int]@);
        assert(steps.drop_first() =~= root_views(root@).skip(from + 1));
        if k >= self.children.len() {
            proof {
                lemma_view(*self);
            }
            return false;
        }
        proof {
            lemma_view(*self);
        }
        path.push(k);
        let ghost mid = path@;
        let found = self.children[k].resolve_from(root, from + 1, path);
        proof {
            if found {
                let rest = resolve(self@.children[k as int], steps.drop_first())->Some_0;
                assert(ints(mid) =~= ints(old(path)@).push(k as int));
                assert(ints(path@) =~= ints(old(path)@) + (seq![k as int] + rest));
            }
        }
        found
    }

    /// The index path of the node that an address leads to, if it leads to one.
    pub fn resolve_path(&self, root: &Vec<&DataRoot>) -> (r: Option<Vec<usize>>)
        ensures
            match resolve(self@, root_views(root@)) {
                Some(p) => r is Some && ints(r->Some_0@) == p,
                None => r is None,
            },
    {
        let mut path: Vec<usize> = Vec::new();
        assert(root_views(root@).skip(0) =~= root_views(root@));
        if self.resolve_from(root, 0, &mut path) {
            assert(ints(Seq::<usize>::empty()) =~= Seq::<int>::empty());
            let ghost p = resolve(self@, root_views(root@))->Some_0;
            assert(Seq::<int>::empty() + p =~= p);
            Some(path)
        } else {
            None
        }
    }

    /// The node that the positions of `index` from `from` on lead to.
    fn walk(&self, index: &[usize], from: usize) -> (r: Option<&Data>)
        requires
            from <= index@.len(),
        ensures
            r is Some <==> self@.has_path(ints(index@).skip(from as int)),
            r is Some ==> r->Some_0@ == self@.at(ints(index@).skip(from as int)),
        decreases index@.len() - from,
    {
        let ghost rest = ints(index@).skip(from as int);
        if from >= index.len() {
            return Some(self);
        }
        let i: usize = index[from];
        assert(rest[0] == i as int);
        assert(rest.drop_first() =~= ints(index@).skip(from + 1));
        proof {
            lemma_view(*self);
        }
        if i < self.children.len() {
            self.children[i].walk(index, from + 1)
        } else {
            None
        }
    }

    /// The node that an address leads to, if it leads to one.
    pub fn get_child(&self, root: Vec<&DataRoot>) -> (r: Option<&Data>)
        ensures
            match resolve(self@, root_views(root@)) {
                Some(p) => r is Some && r->Some_0@ == self@.at(p),
                None => r is None,
            },
    {
        match self.resolve_path(&root) {
            Some(path) => {
                proof {
                    lemma_resolve_has_path(self@, root_views(root@));
                    assert(ints(path@).skip(0) =~= ints(path@));
                }
                self.walk(path.as_slice(), 0)
            },
            None => None,
        }
    }

    /// The node that the positions of `index` from `from` on lead to, for
    /// changing it in place.
    fn descend_mut(&mut self, index: &[usize], from: usize) -> (r: &mut Data)
        requires
            from <= index@.len(),
            old(self)@.has_path(ints(index@).skip(from as int)),
        ensures
            r@ == old(self)@.at(ints(index@).skip(from as int)),
            old(self).replaced(index@.skip(from as int), *final(r), *final(self)),
        decreases index@.len() - from,
    {
        let ghost rest = ints(index@).skip(from as int);
        if from >= index.len() {
            return self;
        }
        let i: usize = index[from];
        assert(rest[0] == i as int);
        assert(rest.drop_first() =~= ints(index@).skip(from + 1));
        assert(index@.skip(from as int)[0] == i);
        assert(index@.skip(from as int).drop_first() =~= index@.skip(from + 1));
        proof {
            lemma_view(*self);
        }
        self.children[i].descend_mut(index, from + 1)
    }

    /// The node that the positions of `index`, taken one after the other
    /// among the children, lead to, for changing it in place.
    pub fn get_child_mut_by_index(&mut self, index: &[usize]) -> (r: Option<&mut Data>)
        ensures
            r is Some <==> old(self)@.has_path(ints(index@)),
            r is None ==> *final(self) == *old(self),
            r is Some ==> r->Some_0@ == old(self)@.at(ints(index@)),
            r is Some ==> old(self).replaced(index@, *final(r->Some_0), *final(self)),
            r is Some ==> final(self)@ == old(self)@.put(ints(index@), final(r->Some_0)@),
    {
        assert(ints(index@).skip(0) =~= ints(index@));
        assert(index@.skip(0) =~= index@);
        if self.walk(index, 0).is_none() {
            return None;
        }
        let ghost before = *self;
        proof {
            assert forall|leaf: Data, res: Data| #[trigger]
                before.replaced(index@, leaf, res) implies res@ == before@.put(
                ints(index@),
                leaf@,
            ) by {
                before.lemma_replaced(index@, leaf, res);
            }
        }
        Some(self.descend_mut(index, 0))
    }

    /// The node that an address leads to, for changing it in place.
    pub fn get_child_mut(&mut self, root: Vec<&DataRoot>) -> (r: Option<&mut Data>)
        ensures
            match resolve(old(self)@, root_views(root@)) {
                Some(p) => r is Some && r->Some_0@ == old(self)@.at(p) && final(self)@ == old(
                    self,
                )@.put(p, final(r->Some_0)@),
                None => r is None && *final(self) == *old(self),
            },
    {
        match self.resolve_path(&root) {
            Some(path) => {
                proof {
                    lemma_resolve_has_path(self@, root_views(root@));
                }
                self.get_child_mut_by_index(path.as_slice())
            },
            None => None,
        }
    }

    /// Adds a copy of `data` as the last child of the node that `root` leads
    /// to. Where an identity value is given, it first becomes the last child
    /// of `data`. If `root` leads to no node, nothing changes.
    pub fn add_child(&mut self, root: Vec<&DataRoot>, data: &mut Data, id_data: Option<Data>) -> (r:
        Result<(), DbError>)
        ensures
            match resolve(old(self)@, root_views(root@)) {
                Some(p) => r is Ok && final(data)@ == (match id_data {
                    Some(id) => old(data)@.push_child(id@),
                    None => old(data)@,
                }) && final(self)@ == old(self)@.push_at(p, final(data)@),
                None => r == Err::<(), DbError>(DbError::PathNotFound) && *final(self) == *old(self)
                    && *final(data) == *old(data),
            },
    {
        let path = match self.resolve_path(&root) {
            Some(path) => path,
            None => {
                return Err(DbError::PathNotFound);
            },
        };
        proof {
            lemma_resolve_has_path(self@, root_views(root@));
        }
        match id_data {
            Some(id) => {
                let ghost before = *data;
                data.children.push(id);
                proof {
                    lemma_view(before);
                    lemma_view(*data);
                    assert(data@.children =~= before@.children.push(id@));
                }
            },
            None => {},
        }
        let copy = data.clone();
        match self.get_child_mut_by_index(path.as_slice()) {
            Some(target) => {
                let ghost before = *target;
                target.children.push(copy);
                proof {
                    lemma_view(before);
                    lemma_view(*target);
                    assert(target@.children =~= before@.children.push(copy@));
                }
            },
            None => {},
        }
        Ok(())
    }
}

} // verus!
