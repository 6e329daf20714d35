//! What adding a node does to addresses: the laws of looking up nodes by
//! tag and identity value.

use vstd::prelude::*;
use crate::data::{
    DataRootView, DataView, first_match, holds_identity, lemma_first_match,
    lemma_resolve_has_path, resolve, step_matches,
};

verus! {

/// The node that an index path with one more position leads to is a child
/// of the node that the path leads to.
pub proof fn lemma_at_push(node: DataView, p: Seq<int>, k: int)
    requires
        node.has_path(p),
        0 <= k < node.at(p).children.len(),
    ensures
        node.has_path(p.push(k)),
        node.at(p.push(k)) == node.at(p).children[k],
    decreases p.len(),
{
    let longer = p.push(k);
    if p.len() == 0 {
        assert(longer[0] == k);
        assert(longer.drop_first() =~= Seq::<int>::empty());
        assert(node.children[k].has_path(longer.drop_first()));
        assert(node.children[k].at(longer.drop_first()) == node.children[k]);
    } else {
        assert(longer[0] == p[0]);
        assert(longer.drop_first() =~= p.drop_first().push(k));
        lemma_at_push(node.children[p[0]], p.drop_first(), k);
    }
}

/// An address with one more step leads on from where the address leads:
/// to the first child there that matches the step.
pub proof fn lemma_resolve_push(node: DataView, path: Seq<DataRootView>, step: DataRootView)
    ensures
        resolve(node, path.push(step)) == (match resolve(node, path) {
            Some(p) => {
                let k = first_match(node.at(p).children, step, 0);
                if k < node.at(p).children.len() {
                    Some(p.push(k))
                } else {
                    None
                }
            },
            None => None,
        }),
    decreases path.len(),
{
    let longer = path.push(step);
    if path.len() == 0 {
        assert(longer.drop_first() =~= Seq::<DataRootView>::empty());
        let k = first_match(node.children, step, 0);
        assert(longer[0] == step);
        if k < node.children.len() {
            assert(resolve(node.children[k], longer.drop_first()) == Some(Seq::<int>::empty()));
            assert(seq![k] + Seq::<int>::empty() =~= Seq::<int>::empty().push(k));
        }
    } else {
        assert(longer[0] == path[0]);
        assert(longer.drop_first() =~= path.drop_first().push(step));
        let k = first_match(node.children, path[0], 0);
        if k < node.children.len() {
            let child = node.children[k];
            lemma_resolve_push(child, path.drop_first(), step);
            match resolve(child, path.drop_first()) {
                Some(rest) => {
                    let p = seq![k] + rest;
                    assert(p.drop_first() =~= rest);
                    assert(node.at(p) == child.at(rest));
                    let j = first_match(child.at(rest).children, step, 0);
                    if j < child.at(rest).children.len() {
                        assert(seq![k] + rest.push(j) =~= p.push(j));
                    }
                },
                None => {},
            }
        }
    }
}

/// Adding a node below a node changes neither its tag nor its value nor
/// the number of its children, unless it is added to the node itself.
pub proof fn lemma_push_at_top(node: DataView, p: Seq<int>, x: DataView)
    requires
        node.has_path(p),
    ensures
        node.push_at(p, x).def == node.def,
        node.push_at(p, x).value == node.value,
        p.len() > 0 ==> node.push_at(p, x).children == node.children.update(
            p[0],
            node.children[p[0]].push_at(p.drop_first(), x),
        ),
        p.len() == 0 ==> node.push_at(p, x) == node.push_child(x),
{
}

/// A node that matches a step still matches it after a node was added to
/// it or below it.
pub proof fn lemma_push_at_matches(node: DataView, p: Seq<int>, x: DataView, step: DataRootView)
    requires
        node.has_path(p),
        step_matches(node, step),
    ensures
        step_matches(node.push_at(p, x), step),
{
    lemma_push_at_top(node, p, x);
    let after = node.push_at(p, x);
    match step.id_data {
        Some(id) => {
            let k = choose|k: int|
                0 <= k < node.children.len() && (#[trigger] node.children[k]).def.tag == id.def.tag
                    && node.children[k].value == id.value;
            if p.len() == 0 {
                assert(after.children[k] == node.children[k]);
            } else {
                if k == p[0] {
                    lemma_push_at_top(node.children[k], p.drop_first(), x);
                }
                assert(after.children[k].def.tag == id.def.tag);
                assert(after.children[k].value == id.value);
            }
        },
        None => {},
    }
}

/// After a node was added under the node that an address leads to, the
/// address leads to that node as before, by the same index path, and the
/// node has the new node as its last child.
pub proof fn lemma_push_keeps_path(root: DataView, path: Seq<DataRootView>, x: DataView)
    requires
        resolve(root, path) is Some,
    ensures
        ({
            let p = resolve(root, path)->Some_0;
            let after = root.push_at(p, x);
            &&& resolve(after, path) == Some(p)
            &&& after.has_path(p)
            &&& after.at(p) == root.at(p).push_child(x)
        }),
    decreases path.len(),
{
    let p = resolve(root, path)->Some_0;
    lemma_resolve_has_path(root, path);
    lemma_push_at_top(root, p, x);
    if path.len() > 0 {
        let k = first_match(root.children, path[0], 0);
        lemma_first_match(root.children, path[0], 0);
        let child = root.children[k];
        let rest = resolve(child, path.drop_first())->Some_0;
        assert(p.drop_first() =~= rest);
        lemma_resolve_has_path(child, path.drop_first());
        lemma_push_keeps_path(child, path.drop_first(), x);
        lemma_push_at_matches(child, rest, x, path[0]);
        lemma_first_match_update(root.children, path[0], k, child.push_at(rest, x));
    }
}

/// Replacing the first node that matches a step by one that matches it
/// too leaves it the first that matches.
pub proof fn lemma_first_match_update(
    nodes: Seq<DataView>,
    step: DataRootView,
    k: int,
    node: DataView,
)
    requires
        0 <= k < nodes.len(),
        first_match(nodes, step, 0) == k,
        step_matches(node, step),
    ensures
        first_match(nodes.update(k, node), step, 0) == k,
{
    lemma_first_match(nodes, step, 0);
    lemma_first_match(nodes.update(k, node), step, 0);
    let j = first_match(nodes.update(k, node), step, 0);
    if j < k {
        assert(nodes.update(k, node)[j] == nodes[j]);
    }
    if j > k {
        assert(step_matches(nodes.update(k, node)[k], step));
    }
}

/// Adding a node at the end leaves the first node that matches a step
/// the first, if there is one; if there is none, the new node is the
/// first exactly if it matches.
pub proof fn lemma_first_match_push(nodes: Seq<DataView>, step: DataRootView, node: DataView)
    ensures
        first_match(nodes, step, 0) < nodes.len() ==> first_match(nodes.push(node), step, 0)
            == first_match(nodes, step, 0),
        first_match(nodes, step, 0) >= nodes.len() && step_matches(node, step) ==> first_match(
            nodes.push(node),
            step,
            0,
        ) == nodes.len(),
{
    lemma_first_match(nodes, step, 0);
    lemma_first_match(nodes.push(node), step, 0);
    let old_k = first_match(nodes, step, 0);
    let j = first_match(nodes.push(node), step, 0);
    if j < nodes.len() {
        assert(nodes.push(node)[j] == nodes[j]);
    }
    if old_k < nodes.len() {
        assert(nodes.push(node)[old_k] == nodes[old_k]);
    } else {
        if step_matches(node, step) {
            assert(nodes.push(node)[nodes.len() as int] == node);
        }
        assert forall|i: int| 0 <= i < nodes.len() implies !step_matches(
            #[trigger] nodes.push(node)[i],
            step,
        ) by {
            assert(nodes.push(node)[i] == nodes[i]);
        }
    }
}

/// A node that was added under the node that an address leads to is found
/// by the address with one more step, if the node matches the step and no
/// older child there does.
pub proof fn lemma_added_node_is_found(
    root: DataView,
    path: Seq<DataRootView>,
    step: DataRootView,
    x: DataView,
)
    requires
        resolve(root, path) is Some,
        step_matches(x, step),
        first_match(root.at(resolve(root, path)->Some_0).children, step, 0) >= root.at(
            resolve(root, path)->Some_0,
        ).children.len(),
    ensures
        ({
            let p = resolve(root, path)->Some_0;
            let n = root.at(p).children.len() as int;
            let after = root.push_at(p, x);
            &&& resolve(after, path.push(step)) == Some(p.push(n))
            &&& after.has_path(p.push(n))
            &&& after.at(p.push(n)) == x
        }),
{
    let p = resolve(root, path)->Some_0;
    let target = root.at(p);
    let after = root.push_at(p, x);
    lemma_push_keeps_path(root, path, x);
    lemma_resolve_push(after, path, step);
    lemma_first_match_push(target.children, step, x);
    lemma_at_push(after, p, target.children.len() as int);
}

/// A node that an address with a last step leads to is still found by it
/// after another node was added under the same parent.
pub proof fn lemma_older_node_is_found(
    root: DataView,
    path: Seq<DataRootView>,
    step: DataRootView,
    x: DataView,
)
    requires
        resolve(root, path.push(step)) is Some,
    ensures
        resolve(root, path) is Some,
        ({
            let p = resolve(root, path)->Some_0;
            let after = root.push_at(p, x);
            &&& resolve(after, path.push(step)) == resolve(root, path.push(step))
            &&& after.at(resolve(root, path.push(step))->Some_0) == root.at(
                resolve(root, path.push(step))->Some_0,
            )
        }),
{
    lemma_resolve_push(root, path, step);
    let p = resolve(root, path)->Some_0;
    let target = root.at(p);
    let k = first_match(target.children, step, 0);
    let after = root.push_at(p, x);
    lemma_first_match(target.children, step, 0);
    lemma_resolve_has_path(root, path);
    lemma_push_keeps_path(root, path, x);
    lemma_resolve_push(after, path, step);
    lemma_first_match_push(target.children, step, x);
    lemma_at_push(after, p, k);
    lemma_at_push(root, p, k);
}

/// Two nodes with the same tag that are added under the same parent, each
/// with an identity value of its own, are told apart by their identity
/// values: the address with the first value leads to the first node, the
/// address with the second value to the second, provided that the values
/// differ, that the nodes hold no other value under the tag of the
/// identity values, and that no older child of the parent matches.
pub proof fn lemma_identity_lookup(
    root: DataView,
    path: Seq<DataRootView>,
    first: DataView,
    second: DataView,
    id1: DataView,
    id2: DataView,
)
    requires
        resolve(root, path) is Some,
        first.def.tag == second.def.tag,
        id1.def.tag == id2.def.tag,
        id1.value != id2.value,
        forall|k: int| 0 <= k < first.children.len() ==> (#[trigger] first.children[k]).def.tag
            != id1.def.tag,
        forall|k: int| 0 <= k < second.children.len() ==> (#[trigger] second.children[k]).def.tag
            != id1.def.tag,
        forall|k: int|
            0 <= k < root.at(resolve(root, path)->Some_0).children.len() ==> (#[trigger] root.at(
                resolve(root, path)->Some_0,
            ).children[k]).def.tag != first.def.tag,
    ensures
        ({
            let p = resolve(root, path)->Some_0;
            let n = root.at(p).children.len() as int;
            let one = first.push_child(id1);
            let two = second.push_child(id2);
            let after = root.push_at(p, one).push_at(p, two);
            let step1 = DataRootView { tag: first.def.tag, id_data: Some(id1) };
            let step2 = DataRootView { tag: first.def.tag, id_data: Some(id2) };
            &&& resolve(after, path.push(step1)) == Some(p.push(n))
            &&& after.at(p.push(n)) == one
            &&& resolve(after, path.push(step2)) == Some(p.push(n + 1))
            &&& after.at(p.push(n + 1)) == two
        }),
{
    let p = resolve(root, path)->Some_0;
    let target = root.at(p);
    let n = target.children.len() as int;
    let one = first.push_child(id1);
    let two = second.push_child(id2);
    let step1 = DataRootView { tag: first.def.tag, id_data: Some(id1) };
    let step2 = DataRootView { tag: first.def.tag, id_data: Some(id2) };
    let mid = root.push_at(p, one);
    let after = mid.push_at(p, two);
    assert(one.children[first.children.len() as int] == id1);
    assert(two.children[second.children.len() as int] == id2);
    assert(step_matches(one, step1));
    assert(step_matches(two, step2));
    assert(!holds_identity(one, id2)) by {
        assert forall|k: int| 0 <= k < one.children.len() implies !((
        #[trigger] one.children[k]).def.tag == id2.def.tag && one.children[k].value
            == id2.value) by {
            if k < first.children.len() {
                assert(one.children[k] == first.children[k]);
            }
        }
    }
    lemma_first_match(target.children, step1, 0);
    lemma_first_match(target.children, step2, 0);
    lemma_added_node_is_found(root, path, step1, one);
    lemma_push_keeps_path(root, path, one);
    lemma_older_node_is_found(mid, path, step1, two);
    assert forall|k: int| 0 <= k < mid.at(p).children.len() implies !step_matches(
        #[trigger] mid.at(p).children[k],
        step2,
    ) by {
        if k < n {
            assert(mid.at(p).children[k] == target.children[k]);
        }
    }
    lemma_first_match(mid.at(p).children, step2, 0);
    lemma_added_node_is_found(mid, path, step2, two);
}

} // verus!
