//! The store: one schema and one data tree, with the operations that
//! change them and that turn them into file contents and back.

use vstd::prelude::*;
use vstd::string::*;
use vstd::utf8::encode_utf8;
use crate::child::Child;
use crate::codec::be_bytes_u32;
use crate::data::{Data, DataRoot, DataView, Value, ints, lemma_view, resolve, root_views, views};
use crate::data_type::Type;
use crate::definition::{Definition, DefinitionView};
use crate::error::DbError;
use crate::format::{
    child_bytes, children_bytes, def_body, def_error, def_index, find_def, has_tag,
    lemma_concat_push, lemma_def_index, lemma_find_def, lemma_node_body, load_schema,
    load_schema_run, load_tree, node_body, parse_children, parse_def, parse_node, parse_nodes,
    record, schema_bytes, tree_bytes, value_field,
};
use crate::io::{BinaryManager, Mode, lemma_scan_bounds, scan, start_marker, ETX, STX};
use crate::multi_type::MultiType;
use crate::path_manager::PathManager;

verus! {

/// A store: the schema, the data tree and the names of its files.
pub struct Manager {
    def_list: Vec<Definition>,
    parent_data: Data,
    path_manager: PathManager,
}

/// The mathematical content of a [`Manager`].
pub ghost struct ManagerView {
    /// The definitions of the schema, in the order they were added.
    pub defs: Seq<DefinitionView>,
    /// The root of the data tree.
    pub root: DataView,
    /// The base directory.
    pub dir_path: Seq<char>,
    /// The name of the table.
    pub table_name: Seq<char>,
    /// The name of the data instance.
    pub data_name: Seq<char>,
}

/// The views of a list of definitions.
pub open spec fn def_views(defs: Seq<Definition>) -> Seq<DefinitionView> {
    defs.map_values(|d: Definition| d@)
}

/// The base definition as the schema holds it.
pub open spec fn base_def() -> DefinitionView {
    DefinitionView {
        tag: 0,
        name: "Parent Tag"@,
        data_type: Type::String,
        explanation: Seq::<char>::empty(),
        is_multiple: false,
        is_base: true,
        children: Seq::<Child>::empty(),
    }
}

/// The definition of the root of the data tree.
pub open spec fn root_def() -> DefinitionView {
    DefinitionView { is_multiple: true, ..base_def() }
}

/// What holds of every schema: it starts with the base definition, which
/// has tag 0 and is the only base, and no tag occurs twice.
pub open spec fn schema_wf(defs: Seq<DefinitionView>) -> bool {
    &&& defs.len() > 0
    &&& defs[0].is_base
    &&& defs[0].tag == 0
    &&& forall|i: int| 0 < i < defs.len() ==> !(#[trigger] defs[i]).is_base
    &&& forall|i: int, j: int|
        0 <= i < j < defs.len() ==> (#[trigger] defs[i]).tag != (#[trigger] defs[j]).tag
}

/// The first definition of a schema alone: the base, where the schema is
/// well formed.
pub open spec fn first_def(defs: Seq<DefinitionView>) -> Seq<DefinitionView> {
    if defs.len() > 0 {
        seq![defs[0]]
    } else {
        Seq::<DefinitionView>::empty()
    }
}

/// What holds of every tree: its root has the definition of the root and,
/// as its value, the name of the data instance.
pub open spec fn root_wf(m: ManagerView) -> bool {
    &&& m.root.def == root_def()
    &&& m.root.value == encode_utf8(m.data_name)
}

impl View for Manager {
    type V = ManagerView;

    closed spec fn view(&self) -> ManagerView {
        ManagerView {
            defs: def_views(self.def_list@),
            root: self.parent_data@,
            dir_path: self.path_manager.dir_path@,
            table_name: self.path_manager.table_name@,
            data_name: self.path_manager.data_name@,
        }
    }
}

impl Manager {
    /// The schema and the root of the tree are well formed.
    pub open spec fn wf(&self) -> bool {
        schema_wf(self@.defs) && root_wf(self@)
    }

    /// A store for the given directory, table and data instance. Its schema
    /// holds the base definition alone, and its tree the root alone, whose
    /// value is the name of the data instance.
    pub fn new(path: String, table_name: String, data_name: String) -> (m: Manager)
        ensures
            m@ == (ManagerView {
                defs: seq![base_def()],
                root: DataView {
                    def: root_def(),
                    value: encode_utf8(data_name@),
                    children: Seq::<DataView>::empty(),
                },
                dir_path: path@,
                table_name: table_name@,
                data_name: data_name@,
            }),
            m.wf(),
    {
        let mut base = Definition::new(0x0000_0000, String::from_str("Parent Tag"), Type::String, false);
        base.is_base = true;
        let mut def_list: Vec<Definition> = Vec::new();
        def_list.push(base);
        let mut root = Definition::new(0x0000_0000, String::from_str("Parent Tag"), Type::String, true);
        root.is_base = true;
        let path_manager = PathManager::new(path, table_name, data_name.clone());
        let data = Data::new(root, Value::String(data_name)).unwrap();
        assert(def_views(def_list@) =~= seq![base_def()]);
        Manager { parent_data: data, def_list, path_manager }
    }

    /// The names from which the file paths are made.
    pub fn get_path_manager(&self) -> (r: &PathManager)
        ensures
            r.dir_path@ == self@.dir_path,
            r.table_name@ == self@.table_name,
            r.data_name@ == self@.data_name,
    {
        &self.path_manager
    }

    /// The position of the first definition with the tag, or the number of
    /// definitions if there is none.
    fn find_index(&self, tag: u32) -> (k: usize)
        ensures
            k == def_index(self@.defs, tag, 0),
            k <= self.def_list@.len(),
            k < self.def_list@.len() ==> self.def_list@[k as int].tag == tag,
    {
        let mut i: usize = 0;
        while i < self.def_list.len()
            invariant
                i <= self.def_list@.len(),
                def_index(self@.defs, tag, 0) == def_index(self@.defs, tag, i as int),
            decreases self.def_list@.len() - i,
        {
            if self.def_list[i].tag == tag {
                return i;
            }
            i += 1;
        }
        i
    }

    /// Adds a definition to the schema. A tag that the schema already has
    /// is refused, and the schema stays as it was.
    pub fn add_def(&mut self, tag: u32, name: String, data_type: Type, is_multiple: bool) -> (r:
        Result<(), DbError>)
        ensures
            has_tag(old(self)@.defs, tag) ==> r == Err::<(), DbError>(DbError::DuplicateTag)
                && *final(self) == *old(self),
            !has_tag(old(self)@.defs, tag) ==> r is Ok && final(self)@ == (ManagerView {
                defs: old(self)@.defs.push(
                    DefinitionView {
                        tag,
                        name: name@,
                        data_type,
                        explanation: Seq::<char>::empty(),
                        is_multiple,
                        is_base: false,
                        children: Seq::<Child>::empty(),
                    },
                ),
                ..old(self)@
            }),
            old(self).wf() ==> final(self).wf(),
    {
        proof {
            lemma_find_def(self@.defs, tag);
        }
        if self.find_index(tag) < self.def_list.len() {
            return Err(DbError::DuplicateTag);
        }
        let def = Definition::new(tag, name, data_type, is_multiple);
        self.def_list.push(def);
        proof {
            assert(self@.defs =~= old(self)@.defs.push(def@));
            assert forall|i: int| 0 <= i < old(self)@.defs.len() implies (
            #[trigger] old(self)@.defs[i]).tag != tag by {
                lemma_def_index(old(self)@.defs, tag, 0);
            }
        }
        Ok(())
    }

    /// The first definition with the tag.
    pub fn get_def(&self, tag: &u32) -> (r: Result<&Definition, DbError>)
        ensures
            match find_def(self@.defs, *tag) {
                Some(d) => r is Ok && r->Ok_0@ == d && d.tag == *tag,
                None => r is Err && r->Err_0 == DbError::UndefinedTag,
            },
            has_tag(self@.defs, *tag) <==> r is Ok,
    {
        proof {
            lemma_find_def(self@.defs, *tag);
        }
        let k = self.find_index(*tag);
        if k < self.def_list.len() {
            Ok(&self.def_list[k])
        } else {
            Err(DbError::UndefinedTag)
        }
    }

    /// The first definition with the tag, for changing it in place.
    pub fn get_def_mut(&mut self, tag: &u32) -> (r: Option<&mut Definition>)
        ensures
            match find_def(old(self)@.defs, *tag) {
                Some(d) => r is Some && r->Some_0@ == d && d.tag == *tag && 0 <= def_index(
                    old(self)@.defs,
                    *tag,
                    0,
                ) < old(self)@.defs.len() && final(self)@ == (ManagerView {
                    defs: old(self)@.defs.update(
                        def_index(old(self)@.defs, *tag, 0),
                        final(r->Some_0)@,
                    ),
                    ..old(self)@
                }),
                None => r is None && *final(self) == *old(self),
            },
    {
        let k = self.find_index(*tag);
        if k >= self.def_list.len() {
            return None;
        }
        let ghost before = *self;
        proof {
            assert forall|m: Manager|
                m.parent_data == before.parent_data && m.path_manager == before.path_manager
                    && m.def_list@ == before.def_list@.update(
                    k as int,
                    m.def_list@[k as int],
                ) implies #[trigger] m@ == (ManagerView {
                defs: before@.defs.update(k as int, m.def_list@[k as int]@),
                ..before@
            }) by {
                assert(m@.defs =~= before@.defs.update(k as int, m.def_list@[k as int]@));
            }
        }
        Some(&mut self.def_list[k])
    }

    /// Allows the tag of `child` to nest under the definition with tag
    /// `tag`. If either tag is not in the schema, nothing changes and the
    /// result is `false`.
    pub fn add_def_child(&mut self, tag: &u32, child: Child) -> (r: bool)
        ensures
            r == (has_tag(old(self)@.defs, *tag) && has_tag(old(self)@.defs, child.tag)),
            !r ==> *final(self) == *old(self),
            r ==> ({
                let k = def_index(old(self)@.defs, *tag, 0);
                &&& 0 <= k < old(self)@.defs.len()
                &&& old(self)@.defs[k].tag == *tag
                &&& final(self)@ == (ManagerView {
                    defs: old(self)@.defs.update(
                        k,
                        DefinitionView {
                            children: old(self)@.defs[k].children.push(child),
                            ..old(self)@.defs[k]
                        },
                    ),
                    ..old(self)@
                })
            }),
            old(self).wf() ==> final(self).wf(),
    {
        proof {
            lemma_find_def(self@.defs, *tag);
            lemma_find_def(self@.defs, child.tag);
        }
        if self.find_index(child.tag) >= self.def_list.len() {
            return false;
        }
        let k = self.find_index(*tag);
        if k >= self.def_list.len() {
            return false;
        }
        self.def_list[k].children.push(child);
        proof {
            assert(self@.defs =~= old(self)@.defs.update(
                k as int,
                DefinitionView {
                    children: old(self)@.defs[k as int].children.push(child),
                    ..old(self)@.defs[k as int]
                },
            ));
        }
        true
    }

    /// The tags of the schema, in the order of its definitions.
    pub fn get_def_tag_list(&self) -> (r: Vec<u32>)
        ensures
            r@ == self@.defs.map_values(|d: DefinitionView| d.tag),
    {
        let mut vec: Vec<u32> = Vec::new();
        let mut i: usize = 0;
        while i < self.def_list.len()
            invariant
                i <= self.def_list@.len(),
                vec@ == self@.defs.take(i as int).map_values(|d: DefinitionView| d.tag),
            decreases self.def_list@.len() - i,
        {
            vec.push(self.def_list[i].tag);
            assert(vec@ =~= self@.defs.take(i + 1).map_values(|d: DefinitionView| d.tag));
            i += 1;
        }
        assert(self@.defs.take(i as int) =~= self@.defs);
        vec
    }

    /// Adds a copy of `data` to the tree, as the last child of the node that
    /// `root` leads to from the root of the tree. Where an identity value
    /// is given, it first becomes the last child of `data`. If `root` leads
    /// to no node, nothing changes.
    pub fn add_child(&mut self, data: &mut Data, root: Vec<&DataRoot>, id_data: Option<Data>) -> (r:
        Result<(), DbError>)
        ensures
            match resolve(old(self)@.root, root_views(root@)) {
                Some(p) => r is Ok && final(data)@ == (match id_data {
                    Some(id) => old(data)@.push_child(id@),
                    None => old(data)@,
                }) && final(self)@ == (ManagerView {
                    root: old(self)@.root.push_at(p, final(data)@),
                    ..old(self)@
                }),
                None => r == Err::<(), DbError>(DbError::PathNotFound) && *final(self) == *old(self)
                    && *final(data) == *old(data),
            },
            old(self).wf() ==> final(self).wf(),
    {
        self.parent_data.add_child(root, data, id_data)
    }

    /// The node that `root` leads to from the root of the tree.
    pub fn get_data(&self, root: Vec<&DataRoot>) -> (r: Option<&Data>)
        ensures
            match resolve(self@.root, root_views(root@)) {
                Some(p) => r is Some && r->Some_0@ == self@.root.at(p),
                None => r is None,
            },
    {
        self.parent_data.get_child(root)
    }

    /// Appends the record of a definition to `b`.
    fn write_def_record(def: &Definition, b: &mut BinaryManager) -> (r: Result<(), DbError>)
        requires
            old(b).wf(),
        ensures
            match def_error(def@) {
                None => r is Ok && final(b).buf@ == old(b).buf@ + record(def_body(def@))
                    && final(b).index == old(b).index && final(b).child@.len() == 0
                    && final(b).wf(),
                Some(e) => r == Err::<(), DbError>(e),
            },
    {
        b.create_child(Mode::Write);
        let scope = b.get_child()?;
        scope.add_start_data();
        let _ = scope.add_u32(def.tag);
        let _ = scope.add_str(&def.name);
        match def.get_type_num() {
            Some(code) => scope.add_u8(code),
            None => {
                return Err(DbError::UnsupportedType);
            },
        }
        scope.add_bool(def.is_multiple);
        let _ = scope.add_str(&def.explanation);
        let _ = scope.add_usize(def.children.len());
        let ghost head = scope.buf@;
        let mut i: usize = 0;
        while i < def.children.len()
            invariant
                i <= def.children@.len(),
                scope.index == 0,
                scope.child@.len() == 0,
                scope.buf@ == head + children_bytes(def.children@.take(i as int)),
                def@.data_type != Type::Unknown,
                forall|k: int|
                    0 <= k < i ==> (#[trigger] def.children@[k]).multi_type != MultiType::Unknown,
            decreases def.children@.len() - i,
        {
            let child: Child = def.children[i];
            let code = match child.get_multi_type_u8_num() {
                Ok(code) => code,
                Err(e) => {
                    assert(def@.children[i as int].multi_type == MultiType::Unknown);
                    return Err(e);
                },
            };
            let _ = scope.add_u32(child.tag);
            scope.add_u8(code);
            proof {
                let done = def.children@.take(i as int);
                assert(def.children@.take(i + 1) =~= done.push(child));
                assert(def.children@.take(i + 1).map_values(|c: Child| child_bytes(c))
                    =~= done.map_values(|c: Child| child_bytes(c)).push(child_bytes(child)));
                lemma_concat_push(done.map_values(|c: Child| child_bytes(c)), child_bytes(child));
                assert(scope.buf@ =~= head + children_bytes(def.children@.take(i + 1)));
            }
            i += 1;
        }
        proof {
            assert(def.children@.take(i as int) =~= def.children@);
            assert(scope.buf@ =~= start_marker() + def_body(def@));
            assert(scope.wf());
        }
        b.end_child_and_add_data()
    }

    /// The content of the schema file: one record for each definition that
    /// is not the base. A definition whose type, or the multiplicity of one
    /// of whose children, has no code cannot be written.
    pub fn write_def(&self) -> (r: Result<Vec<u8>, DbError>)
        ensures
            match schema_bytes(self@.defs) {
                Ok(bytes) => r is Ok && r->Ok_0@ == bytes,
                Err(e) => r is Err && r->Err_0 == e,
            },
    {
        let mut b = BinaryManager::new();
        let mut i: usize = 0;
        assert(self@.defs.skip(0) =~= self@.defs);
        while i < self.def_list.len()
            invariant
                i <= self.def_list@.len(),
                b.wf(),
                schema_bytes(self@.defs) == (match schema_bytes(self@.defs.skip(i as int)) {
                    Ok(rest) => Ok::<Seq<u8>, DbError>(b.buf@ + rest),
                    Err(e) => Err::<Seq<u8>, DbError>(e),
                }),
            decreases self.def_list@.len() - i,
        {
            let def = &self.def_list[i];
            let ghost rest = self@.defs.skip(i as int);
            assert(rest[0] == def@);
            assert(rest.drop_first() =~= self@.defs.skip(i + 1));
            if !def.is_base() {
                let ghost before = b.buf@;
                Self::write_def_record(def, &mut b)?;
                proof {
                    if schema_bytes(self@.defs.skip(i + 1)) is Ok {
                        let tail = schema_bytes(self@.defs.skip(i + 1))->Ok_0;
                        assert(before + (record(def_body(def@)) + tail) =~= b.buf@ + tail);
                    }
                }
            }
            i += 1;
        }
        proof {
            assert(self@.defs.skip(i as int) =~= Seq::<DefinitionView>::empty());
            assert(b.buf@ + Seq::<u8>::empty() =~= b.buf@);
        }
        Ok(b.write())
    }

    /// Appends to `b` the record of a node, which holds the records of the
    /// nodes below it.
    pub fn write_child_data(&self, data: &Data, b: &mut BinaryManager) -> (r: Result<(), DbError>)
        requires
            old(b).wf(),
        ensures
            r is Ok,
            final(b).buf@ == old(b).buf@ + record(node_body(data@)),
            final(b).index == old(b).index,
            final(b).child@.len() == 0,
            final(b).wf(),
        decreases data,
    {
        proof {
            lemma_view(*data);
            lemma_node_body(data@);
        }
        b.create_child(Mode::Write);
        let scope = b.get_child()?;
        scope.add_start_data();
        let _ = scope.add_u32(data.get_def().tag);
        match data.get_def().data_type {
            Type::String => {
                let _ = scope.add_usize(data.get_bite_value().len());
            },
            _ => (),
        }
        let ghost head = scope.buf@;
        let mut k: usize = 0;
        while k < data.value.len()
            invariant
                k <= data.value@.len(),
                scope.index == 0,
                scope.child@.len() == 0,
                scope.buf@ == head + data.value@.take(k as int),
            decreases data.value@.len() - k,
        {
            scope.add_u8(data.value[k]);
            assert(scope.buf@ =~= head + data.value@.take(k + 1));
            k += 1;
        }
        proof {
            assert(data.value@.take(k as int) =~= data.value@);
            assert(scope.buf@ =~= start_marker() + (be_bytes_u32(data@.def.tag) + value_field(
                data@,
            )));
        }
        let ghost front = scope.buf@;
        let mut i: usize = 0;
        while i < data.children.len()
            invariant
                i <= data.children@.len(),
                scope.index == 0,
                scope.child@.len() == 0,
                scope.wf(),
                scope.buf@ == front + tree_bytes(data@.children.take(i as int)),
                data@.children == views(data.children@),
            decreases data.children@.len() - i,
        {
            let child = &data.children[i];
            let _ = self.write_child_data(child, scope);
            proof {
                let done = data@.children.take(i as int);
                assert(data@.children.take(i + 1) =~= done.push(child@));
                assert(data@.children.take(i + 1).map_values(|c: DataView| record(node_body(c)))
                    =~= done.map_values(|c: DataView| record(node_body(c))).push(
                    record(node_body(child@)),
                ));
                lemma_concat_push(
                    done.map_values(|c: DataView| record(node_body(c))),
                    record(node_body(child@)),
                );
                assert(scope.buf@ =~= front + tree_bytes(data@.children.take(i + 1)));
            }
            i += 1;
        }
        proof {
            assert(data@.children.take(i as int) =~= data@.children);
            assert(scope.buf@ =~= start_marker() + node_body(data@));
        }
        b.end_child_and_add_data()
    }

    /// The content of the data file: the records of the children of the
    /// root, one after the other.
    pub fn write_data(&self) -> (r: Result<Vec<u8>, DbError>)
        ensures
            r is Ok,
            r->Ok_0@ == tree_bytes(self@.root.children),
    {
        let mut b = BinaryManager::new();
        let children = self.parent_data.get_children();
        let mut i: usize = 0;
        while i < children.len()
            invariant
                i <= children@.len(),
                b.wf(),
                views(children@) == self@.root.children,
                b.buf@ == tree_bytes(self@.root.children.take(i as int)),
            decreases children@.len() - i,
        {
            let child = &children[i];
            let _ = self.write_child_data(child, &mut b);
            proof {
                let done = self@.root.children.take(i as int);
                assert(self@.root.children.take(i + 1) =~= done.push(child@));
                assert(self@.root.children.take(i + 1).map_values(
                    |c: DataView| record(node_body(c)),
                ) =~= done.map_values(|c: DataView| record(node_body(c))).push(
                    record(node_body(child@)),
                ));
                lemma_concat_push(
                    done.map_values(|c: DataView| record(node_body(c))),
                    record(node_body(child@)),
                );
            }
            i += 1;
        }
        assert(self@.root.children.take(i as int) =~= self@.root.children);
        Ok(b.write())
    }

    /// Reads `n` child descriptors, five bytes each.
    fn read_children(scope: &mut BinaryManager, n: u128) -> (r: Result<Vec<Child>, DbError>)
        requires
            old(scope).wf(),
        ensures
            final(scope).buf == old(scope).buf,
            final(scope).child == old(scope).child,
            final(scope).wf(),
            match parse_children(old(scope).buf@, old(scope).index as int, n as nat) {
                Ok(cs) => r is Ok && r->Ok_0@ == cs && final(scope).index == old(scope).index + 5
                    * n,
                Err(e) => r is Err && r->Err_0 == e,
            },
    {
        let ghost s = scope.buf@;
        let ghost start = scope.index as int;
        let mut children: Vec<Child> = Vec::new();
        let mut k: u128 = 0;
        assert(Seq::<Child>::empty() + parse_children(s, start, n as nat)->Ok_0
            =~= parse_children(s, start, n as nat)->Ok_0);
        while k < n
            invariant
                k <= n,
                scope.buf == old(scope).buf,
                scope.child == old(scope).child,
                scope.buf@ == s,
                start == old(scope).index,
                scope.wf(),
                scope.index == start + 5 * k,
                parse_children(s, start, n as nat) == (match parse_children(
                    s,
                    scope.index as int,
                    (n - k) as nat,
                ) {
                    Ok(rest) => Ok::<Seq<Child>, DbError>(children@ + rest),
                    Err(e) => Err::<Seq<Child>, DbError>(e),
                }),
            decreases n - k,
        {
            let child_tag = scope.read_u32()?;
            let multi_code = scope.read_u8()?;
            let multi_type = MultiType::u8_to_multi_type(multi_code);
            if multi_type == MultiType::Unknown {
                return Err(DbError::UnsupportedMultiType);
            }
            let ghost before = children@;
            children.push(Child::create(child_tag, multi_type));
            proof {
                let here = scope.index as int;
                if parse_children(s, here, (n - k - 1) as nat) is Ok {
                    let rest = parse_children(s, here, (n - k - 1) as nat)->Ok_0;
                    assert(before + (seq![Child { tag: child_tag, multi_type }] + rest)
                        =~= children@ + rest);
                }
            }
            k += 1;
        }
        proof {
            assert(children@ + Seq::<Child>::empty() =~= children@);
        }
        Ok(children)
    }

    /// Reads the record of a definition that starts at the cursor of `b`,
    /// which is on the start marker, and moves the cursor past the record.
    fn read_def_record(b: &mut BinaryManager) -> (r: Result<Definition, DbError>)
        requires
            old(b).wf(),
            old(b).index < old(b).buf@.len(),
        ensures
            final(b).buf == old(b).buf,
            final(b).wf(),
            match parse_def(old(b).buf@.skip(old(b).index as int)) {
                Ok((d, n)) => r is Ok && r->Ok_0@ == d && final(b).index == old(b).index + n && 2
                    <= n <= old(b).buf@.len() - old(b).index,
                Err(e) => r is Err && r->Err_0 == e && final(b).index == old(b).index,
            },
    {
        b.create_child(Mode::Read);
        let scope = b.get_child()?;
        let _ = scope.read_u8()?;
        let tag = scope.read_u32()?;
        let name = scope.read_str()?;
        let code = scope.read_u8()?;
        let flag = scope.read_u8()?;
        let data_type = Type::u8_to_type(code);
        if data_type == Type::Unknown {
            return Err(DbError::UnsupportedType);
        }
        let mut def = Definition::new(tag, name, data_type, flag != 0);
        def.explanation = scope.read_str()?;
        let n: u128 = scope.read_u128()?;
        let children = Self::read_children(scope, n)?;
        def.children = children;
        let etx = scope.read_u8()?;
        if etx != ETX {
            return Err(DbError::Malformed);
        }
        b.read_child()?;
        Ok(def)
    }

    /// Adds to the schema the definitions of the records of `b` from its
    /// cursor on, one by one, and stops at the first record that cannot be
    /// read or whose tag the schema already has. The definitions that were
    /// added before stay in the schema.
    pub fn read_def_from_binary(&mut self, b: &mut BinaryManager) -> (r: Result<(), DbError>)
        requires
            old(b).wf(),
        ensures
            final(b).buf == old(b).buf,
            final(b).wf(),
            ({
                let run = load_schema_run(old(self)@.defs, old(b).buf@, old(b).index as int);
                &&& final(self)@ == (ManagerView { defs: run.0, ..old(self)@ })
                &&& final(b).index == run.1
                &&& r == (match run.2 {
                    Some(e) => Err::<(), DbError>(e),
                    None => Ok::<(), DbError>(()),
                })
            }),
            old(self).wf() ==> final(self).wf(),
    {
        loop
            invariant
                b.buf == old(b).buf,
                b.wf(),
                self@ == (ManagerView { defs: self@.defs, ..old(self)@ }),
                load_schema_run(old(self)@.defs, old(b).buf@, old(b).index as int)
                    == load_schema_run(self@.defs, b.buf@, b.index as int),
                old(self).wf() ==> self.wf(),
            decreases b.buf@.len() - b.index,
        {
            proof {
                lemma_scan_bounds(b.buf@, b.index as int);
            }
            if !b.next_stx_index() {
                return Ok(());
            }
            let def = Self::read_def_record(b)?;
            proof {
                lemma_find_def(self@.defs, def.tag);
                lemma_def_index(self@.defs, def.tag, 0);
            }
            if self.find_index(def.tag) < self.def_list.len() {
                return Err(DbError::DuplicateTag);
            }
            let ghost before = self@.defs;
            self.def_list.push(def);
            proof {
                assert(self@.defs =~= before.push(def@));
                assert forall|i: int| 0 <= i < before.len() implies (#[trigger] before[i]).tag
                    != def.tag by {}
            }
        }
    }

    /// Replaces the schema by its first definition, which is the base, and
    /// the definitions of a schema file. If the file cannot be read to its
    /// end, the schema stays as it was.
    pub fn read_def_from_file(&mut self, file: &[u8]) -> (r: Result<(), DbError>)
        ensures
            match load_schema(first_def(old(self)@.defs), file@, 0) {
                Ok(defs) => r is Ok && final(self)@ == (ManagerView { defs, ..old(self)@ }),
                Err(e) => r == Err::<(), DbError>(e) && final(self)@ == old(self)@,
            },
            old(self).wf() ==> final(self).wf(),
    {
        let mut backup: Vec<Definition> = Vec::new();
        core::mem::swap(&mut self.def_list, &mut backup);
        if backup.len() > 0 {
            self.def_list.push(backup[0].clone());
        }
        assert(self@.defs =~= first_def(old(self)@.defs));
        let mut binary_manager = BinaryManager::new();
        binary_manager.read_to_end(file);
        match self.read_def_from_binary(&mut binary_manager) {
            Ok(_) => Ok(()),
            Err(e) => {
                self.def_list = backup;
                Err(e)
            },
        }
    }

    /// Reads the nodes of the records of `b` from its cursor on, each with
    /// the nodes below it.
    fn read_nodes(&self, b: &mut BinaryManager) -> (r: Result<Vec<Data>, DbError>)
        requires
            old(b).wf(),
        ensures
            final(b).buf == old(b).buf,
            final(b).wf(),
            match parse_nodes(self@.defs, old(b).buf@, old(b).index as int) {
                Ok((nodes, j)) => r is Ok && views(r->Ok_0@) == nodes && final(b).index == j,
                Err(e) => r is Err && r->Err_0 == e,
            },
        decreases old(b).buf@.len() - old(b).index, 2int,
    {
        let mut nodes: Vec<Data> = Vec::new();
        let ghost s = b.buf@;
        let ghost start = b.index as int;
        proof {
            assert(views(nodes@) =~= Seq::<DataView>::empty());
            if parse_nodes(self@.defs, s, start) is Ok {
                let found = parse_nodes(self@.defs, s, start)->Ok_0;
                assert(Seq::<DataView>::empty() + found.0 =~= found.0);
            }
        }
        loop
            invariant
                b.buf == old(b).buf,
                b.buf@ == s,
                start == old(b).index,
                start <= b.index,
                b.wf(),
                parse_nodes(self@.defs, s, start) == (match parse_nodes(
                    self@.defs,
                    s,
                    b.index as int,
                ) {
                    Ok((rest, j)) => Ok::<(Seq<DataView>, int), DbError>(
                        (views(nodes@) + rest, j),
                    ),
                    Err(e) => Err::<(Seq<DataView>, int), DbError>(e),
                }),
            decreases b.buf@.len() - b.index,
        {
            proof {
                lemma_scan_bounds(s, b.index as int);
            }
            if !b.next_stx_index() {
                proof {
                    assert(views(nodes@) + Seq::<DataView>::empty() =~= views(nodes@));
                }
                return Ok(nodes);
            }
            let node = self.read_node(b)?;
            let ghost before = views(nodes@);
            nodes.push(node);
            proof {
                assert(views(nodes@) =~= before.push(node@));
                if parse_nodes(self@.defs, s, b.index as int) is Ok {
                    let rest = parse_nodes(self@.defs, s, b.index as int)->Ok_0.0;
                    assert(before + (seq![node@] + rest) =~= views(nodes@) + rest);
                }
            }
        }
    }

    /// Reads the record of a node that starts at the cursor of `b`, which is
    /// on the start marker, with the records nested in it, and moves the
    /// cursor past the record.
    fn read_node(&self, b: &mut BinaryManager) -> (r: Result<Data, DbError>)
        requires
            old(b).wf(),
            old(b).index < old(b).buf@.len(),
        ensures
            final(b).buf == old(b).buf,
            final(b).wf(),
            match parse_node(self@.defs, old(b).buf@.skip(old(b).index as int)) {
                Ok((d, n)) => r is Ok && r->Ok_0@ == d && final(b).index == old(b).index + n && 2
                    <= n <= old(b).buf@.len() - old(b).index,
                Err(e) => r is Err && r->Err_0 == e && final(b).index == old(b).index,
            },
        decreases old(b).buf@.len() - old(b).index, 1int,
    {
        b.create_child(Mode::Read);
        let scope = b.get_child()?;
        let _ = scope.read_u8()?;
        let tag = scope.read_u32()?;
        let def = self.get_def(&tag)?;
        let value = match def.get_type() {
            Type::Int => scope.read_u8_vec(4)?,
            Type::Float => scope.read_u8_vec(4)?,
            Type::String => scope.read_field()?,
            Type::Unknown => {
                return Err(DbError::UnsupportedType);
            },
        };
        let mut data = Data::read_binary(def.clone(), value);
        let children = self.read_nodes(scope)?;
        data.children = children;
        proof {
            lemma_view(data);
        }
        let etx = scope.read_u8()?;
        if etx != ETX {
            return Err(DbError::Malformed);
        }
        b.read_child()?;
        Ok(data)
    }

    /// Reads the next record of `b` at this level, if there is one, and adds
    /// its node, with the nodes below it, as the last child of the node
    /// that `index` leads to from the root of the tree. Tells whether a
    /// record was read. Whenever it fails, the tree stays as it was.
    pub fn read_child_data(&mut self, index: &[usize], b: &mut BinaryManager) -> (r: Result<
        bool,
        DbError,
    >)
        requires
            old(b).wf(),
        ensures
            final(b).buf == old(b).buf,
            final(b).wf(),
            ({
                let s = old(b).buf@;
                let p = scan(s, old(b).index as int);
                if p < s.len() && s[p] == STX {
                    match parse_node(old(self)@.defs, s.skip(p)) {
                        Ok((d, n)) => if old(self)@.root.has_path(ints(index@)) {
                            r == Ok::<bool, DbError>(true) && final(self)@ == (ManagerView {
                                root: old(self)@.root.push_at(ints(index@), d),
                                ..old(self)@
                            }) && final(b).index == p + n
                        } else {
                            r == Err::<bool, DbError>(DbError::PathNotFound) && final(self)@
                                == old(self)@ && final(b).index == p + n
                        },
                        Err(e) => r == Err::<bool, DbError>(e) && final(self)@ == old(self)@
                            && final(b).index == p,
                    }
                } else {
                    r == Ok::<bool, DbError>(false) && final(self)@ == old(self)@ && final(b).index
                        == p
                }
            }),
            old(self).wf() ==> final(self).wf(),
    {
        proof {
            lemma_scan_bounds(b.buf@, b.index as int);
        }
        if !b.next_stx_index() {
            return Ok(false);
        }
        let node = self.read_node(b)?;
        match self.parent_data.get_child_mut_by_index(index) {
            Some(parent) => {
                let ghost before = *parent;
                parent.children.push(node);
                proof {
                    lemma_view(before);
                    lemma_view(*parent);
                    assert(parent@.children =~= before@.children.push(node@));
                }
                Ok(true)
            },
            None => Err(DbError::PathNotFound),
        }
    }

    /// Replaces the children of the root by the nodes of a data file. Every
    /// tag in the file must be in the schema. If the file cannot be read to
    /// its end, the tree stays as it was.
    pub fn read_data(&mut self, file: &[u8]) -> (r: Result<(), DbError>)
        ensures
            match load_tree(old(self)@.defs, file@) {
                Ok(nodes) => r is Ok && final(self)@ == (ManagerView {
                    root: DataView { children: nodes, ..old(self)@.root },
                    ..old(self)@
                }),
                Err(e) => r == Err::<(), DbError>(e) && final(self)@ == old(self)@,
            },
            old(self).wf() ==> final(self).wf(),
    {
        let mut b = BinaryManager::new();
        b.read_to_end(file);
        let top: Vec<usize> = Vec::new();
        let mut backup: Vec<Data> = Vec::new();
        proof {
            lemma_view(self.parent_data);
        }
        core::mem::swap(&mut self.parent_data.children, &mut backup);
        let ghost root = old(self)@.root;
        let ghost defs = old(self)@.defs;
        proof {
            lemma_view(self.parent_data);
            assert(self@.root.children =~= Seq::<DataView>::empty());
            assert(ints(top@) =~= Seq::<int>::empty());
            if parse_nodes(defs, file@, 0) is Ok {
                let found = parse_nodes(defs, file@, 0)->Ok_0;
                assert(Seq::<DataView>::empty() + found.0 =~= found.0);
            }
        }
        loop
            invariant
                b.buf@ == file@,
                b.wf(),
                top@.len() == 0,
                views(backup@) == root.children,
                root == old(self)@.root,
                defs == old(self)@.defs,
                self@ == (ManagerView {
                    root: DataView { children: self@.root.children, ..root },
                    ..old(self)@
                }),
                parse_nodes(defs, file@, 0) == (match parse_nodes(defs, file@, b.index as int) {
                    Ok((rest, j)) => Ok::<(Seq<DataView>, int), DbError>(
                        (self@.root.children + rest, j),
                    ),
                    Err(e) => Err::<(Seq<DataView>, int), DbError>(e),
                }),
            decreases b.buf@.len() - b.index,
        {
            let ghost before = self@.root;
            let ghost at = b.index as int;
            proof {
                lemma_scan_bounds(file@, at);
                assert(ints(top@) =~= Seq::<int>::empty());
            }
            match self.read_child_data(top.as_slice(), &mut b) {
                Ok(more) => {
                    if !more {
                        proof {
                            assert(self@.root.children + Seq::<DataView>::empty()
                                =~= self@.root.children);
                        }
                        return Ok(());
                    }
                    proof {
                        let p = scan(file@, at);
                        let d = parse_node(defs, file@.skip(p))->Ok_0.0;
                        assert(self@.root.children =~= before.children.push(d));
                        if parse_nodes(defs, file@, b.index as int) is Ok {
                            let rest = parse_nodes(defs, file@, b.index as int)->Ok_0.0;
                            assert(before.children + (seq![d] + rest) =~= self@.root.children
                                + rest);
                        }
                    }
                },
                Err(e) => {
                    self.parent_data.children = backup;
                    proof {
                        lemma_view(self.parent_data);
                    }
                    return Err(e);
                },
            }
        }
    }
}

} // verus!
