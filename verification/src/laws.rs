//! What holds of every tree, however it was edited.

use vstd::prelude::*;
use crate::dom::with_data;
use crate::edit::{replaced, slot_of};
use crate::edit_model::{adoptable, spliced, lemma_splice_wf};
use crate::model::{NodeId, DataView, Forest, well_formed, reaches, subtree};
use crate::model_proofs::{lemma_subtree_frame, same_links};
use crate::model::{Tree, shape};
use crate::copy::extends;
use crate::model_proofs::lemma_prefix_subtree;
use crate::serializer::{ScopeView, node_calls, children_calls, writable, serializable, serialize_calls, html_output};

verus! {

/// Every node has at most one parent, and every list of children holds each
/// child exactly once: a node stands in the list of `p` exactly when its
/// parent link names `p`, and no list names a node twice.
pub open spec fn singly_linked(f: Forest) -> bool {
    &&& forall|p1: NodeId, p2: NodeId, c: NodeId|
        p1 < f.len() && p2 < f.len() && #[trigger] f[p1 as int].children.contains(c)
            && #[trigger] f[p2 as int].children.contains(c) ==> p1 == p2
    &&& forall|p: NodeId| p < f.len() ==> (#[trigger] f[p as int]).children.no_duplicates()
    &&& forall|p: NodeId, c: NodeId|
        p < f.len() && c < f.len() ==> (#[trigger] f[p as int].children.contains(c) <==> f[c as int].parent
            == Some(p))
}

/// In a well-formed forest every node has at most one parent and stands
/// exactly once among the children of that parent.
pub proof fn lemma_singly_linked(f: Forest)
    requires
        well_formed(f),
    ensures
        singly_linked(f),
{
    assert forall|p: NodeId, c: NodeId| p < f.len() && c < f.len() implies (#[trigger] f[p as int].children.contains(
        c,
    ) <==> f[c as int].parent == Some(p)) by {
        if f[p as int].children.contains(c) {
            let k = choose|k: int| 0 <= k < f[p as int].children.len() && f[p as int].children[k] == c;
            assert(f[f[p as int].children[k] as int].parent == Some(p));
        }
        if f[c as int].parent == Some(p) {
            assert(f[c as int].parent is Some);
        }
    }
    assert forall|p1: NodeId, p2: NodeId, c: NodeId|
        p1 < f.len() && p2 < f.len() && #[trigger] f[p1 as int].children.contains(c)
            && #[trigger] f[p2 as int].children.contains(c) implies p1 == p2 by {
        let k1 = choose|k: int| 0 <= k < f[p1 as int].children.len() && f[p1 as int].children[k] == c;
        let k2 = choose|k: int| 0 <= k < f[p2 as int].children.len() && f[p2 as int].children[k] == c;
        assert(f[f[p1 as int].children[k1] as int].parent == Some(p1));
        assert(f[f[p2 as int].children[k2] as int].parent == Some(p2));
    }
}

/// A structural edit of the tree.
pub enum Edit {
    /// Append `nodes` to the children of `parent`.
    Append { parent: NodeId, nodes: Seq<NodeId> },
    /// Put `node` in front of the children of `parent`.
    Prepend { parent: NodeId, node: NodeId },
    /// Insert `nodes` among the children of `parent`, before its child
    /// `before`.
    Insert { parent: NodeId, before: NodeId, nodes: Seq<NodeId> },
    /// Put `nodes` in the place of `node` among the children of its parent.
    Replace { node: NodeId, nodes: Seq<NodeId> },
    /// Take `node` out of the children of its parent.
    Remove { node: NodeId },
}

/// The edit is valid on `f`: it names nodes of `f`, the nodes that it hands
/// to a parent can be adopted, and the child it inserts before is a child.
pub open spec fn edit_valid(f: Forest, e: Edit) -> bool {
    match e {
        Edit::Append { parent, nodes } => adoptable(f, parent, nodes),
        Edit::Prepend { parent, node } => adoptable(f, parent, seq![node]),
        Edit::Insert { parent, before, nodes } => adoptable(f, parent, nodes)
            && f[parent as int].children.contains(before),
        Edit::Replace { node, nodes } => node < f.len() && match f[node as int].parent {
            Some(p) => adoptable(f, p, nodes),
            None => true,
        },
        Edit::Remove { node } => node < f.len(),
    }
}

/// The forest after the edit.
pub open spec fn edit_result(f: Forest, e: Edit) -> Forest {
    match e {
        Edit::Append { parent, nodes } => spliced(
            f,
            parent,
            f[parent as int].children.len() as int,
            f[parent as int].children.len() as int,
            nodes,
        ),
        Edit::Prepend { parent, node } => spliced(f, parent, 0, 0, seq![node]),
        Edit::Insert { parent, before, nodes } => spliced(
            f,
            parent,
            slot_of(f, parent, before),
            slot_of(f, parent, before),
            nodes,
        ),
        Edit::Replace { node, nodes } => replaced(f, node, nodes),
        Edit::Remove { node } => replaced(f, node, Seq::empty()),
    }
}

/// Every edit of the sequence is valid on the forest that the edits before it
/// have made.
pub open spec fn edits_valid(f: Forest, edits: Seq<Edit>) -> bool
    decreases edits.len(),
{
    edits.len() == 0 || (edit_valid(f, edits[0]) && edits_valid(
        edit_result(f, edits[0]),
        edits.drop_first(),
    ))
}

/// The forest after all edits of the sequence, in order.
pub open spec fn edits_result(f: Forest, edits: Seq<Edit>) -> Forest
    decreases edits.len(),
{
    if edits.len() == 0 {
        f
    } else {
        edits_result(edit_result(f, edits[0]), edits.drop_first())
    }
}

/// One valid edit keeps the forest well formed.
pub proof fn lemma_edit_keeps_form(f: Forest, e: Edit)
    requires
        well_formed(f),
        edit_valid(f, e),
    ensures
        well_formed(edit_result(f, e)),
{
    match e {
        Edit::Append { parent, nodes } => {
            let n = f[parent as int].children.len() as int;
            lemma_splice_wf(f, parent, n, n, nodes);
        },
        Edit::Prepend { parent, node } => {
            lemma_splice_wf(f, parent, 0, 0, seq![node]);
        },
        Edit::Insert { parent, before, nodes } => {
            let ch = f[parent as int].children;
            let i = ch.index_of(before);
            assert(0 <= i < ch.len() && ch[i] == before);
            lemma_splice_wf(f, parent, i, i, nodes);
        },
        Edit::Replace { node, nodes } => {
            lemma_replace_keeps_form(f, node, nodes);
        },
        Edit::Remove { node } => {
            if f[node as int].parent is Some {
                assert(f[node as int].parent->0 < f.len());
            }
            lemma_replace_keeps_form(f, node, Seq::empty());
        },
    }
}

/// Replacing a node by nodes that its parent can adopt keeps the forest well
/// formed.
pub proof fn lemma_replace_keeps_form(f: Forest, node: NodeId, nodes: Seq<NodeId>)
    requires
        well_formed(f),
        node < f.len(),
        match f[node as int].parent {
            Some(p) => adoptable(f, p, nodes),
            None => true,
        },
    ensures
        well_formed(replaced(f, node, nodes)),
{
    match f[node as int].parent {
        Some(p) => {
            assert(f[node as int].parent is Some);
            let ch = f[p as int].children;
            assert(ch.contains(node));
            let i = ch.index_of(node);
            assert(0 <= i < ch.len() && ch[i] == node);
            lemma_splice_wf(f, p, i, i + 1, nodes);
        },
        None => {},
    }
}

/// After any sequence of valid structural edits of a well-formed tree, every
/// node has at most one parent and every list of children holds each child
/// exactly once.
pub proof fn lemma_edits_keep_linkage(f: Forest, edits: Seq<Edit>)
    requires
        well_formed(f),
        edits_valid(f, edits),
    ensures
        well_formed(edits_result(f, edits)),
        singly_linked(edits_result(f, edits)),
    decreases edits.len(),
{
    if edits.len() == 0 {
        lemma_singly_linked(f);
    } else {
        lemma_edit_keeps_form(f, edits[0]);
        lemma_edits_keep_linkage(edit_result(f, edits[0]), edits.drop_first());
    }
}

/// An edit of the children of `p` leaves every subtree that does not hold `p`
/// as it was.
pub proof fn lemma_splice_elsewhere(
    f: Forest,
    p: NodeId,
    from: int,
    to: int,
    kids: Seq<NodeId>,
    a: NodeId,
)
    requires
        well_formed(f),
        adoptable(f, p, kids),
        0 <= from <= to <= f[p as int].children.len(),
        a < f.len(),
        !reaches(f, a, p),
    ensures
        subtree(spliced(f, p, from, to, kids), a) == subtree(f, a),
{
    let f2 = spliced(f, p, from, to, kids);
    lemma_splice_wf(f, p, from, to, kids);
    assert forall|x: NodeId| #[trigger] reaches(f, a, x) implies x < f2.len() && same_links(
        f[x as int],
        f2[x as int],
    ) by {
        crate::model_proofs::lemma_reaches_valid(f, a, x);
    }
    lemma_subtree_frame(f, f2, a);
}

/// A change of the payload of node `id` leaves every subtree that does not
/// hold `id` as it was.
pub proof fn lemma_data_elsewhere(f: Forest, id: NodeId, data: DataView, a: NodeId)
    requires
        well_formed(f),
        well_formed(with_data(f, id, data)),
        id < f.len(),
        a < f.len(),
        !reaches(f, a, id),
    ensures
        subtree(with_data(f, id, data), a) == subtree(f, a),
{
    let f2 = with_data(f, id, data);
    assert forall|x: NodeId| #[trigger] reaches(f, a, x) implies x < f2.len() && same_links(
        f[x as int],
        f2[x as int],
    ) by {
        crate::model_proofs::lemma_reaches_valid(f, a, x);
    }
    lemma_subtree_frame(f, f2, a);
}

/// The requests that serialize the children of a subtree depend only on the
/// shape of the subtree.
pub proof fn lemma_children_calls_of_shape(t: Tree, k: nat)
    ensures
        children_calls(shape(t), k) == children_calls(t, k),
    decreases t, t.children.len() - k,
{
    if k < t.children.len() {
        assert(shape(t).children[k as int] == shape(t.children[k as int]));
        lemma_calls_of_shape(t.children[k as int]);
        lemma_children_calls_of_shape(t, k + 1);
    }
}

/// The requests that serialize a subtree, and whether it can be serialized,
/// depend only on the shape of the subtree.
pub proof fn lemma_calls_of_shape(t: Tree)
    ensures
        node_calls(shape(t)) == node_calls(t),
        writable(shape(t)) == writable(t),
    decreases t, t.children.len() + 1,
{
    lemma_children_calls_of_shape(t, 0);
    if t.data is Element {
        assert forall|k: int| 0 <= k < t.children.len() implies writable(
            #[trigger] shape(t).children[k],
        ) == writable(t.children[k]) by {
            assert(shape(t).children[k] == shape(t.children[k]));
            lemma_calls_of_shape(t.children[k]);
        }
        if writable(t) {
            assert forall|k: int| 0 <= k < shape(t).children.len() implies writable(
                #[trigger] shape(t).children[k],
            ) by {
                assert(writable(t.children[k]));
            }
        }
        if writable(shape(t)) {
            assert forall|k: int| 0 <= k < t.children.len() implies writable(
                #[trigger] t.children[k],
            ) by {
                assert(writable(shape(t).children[k]));
            }
        }
    }
}

/// Two subtrees of the same shape, such as a deep copy and its original, can
/// be serialized in the same scopes, and their serialisations make the same
/// requests of the serializer, so that the bytes written are the same.
pub proof fn lemma_same_shape_serializes_alike(
    t1: Tree,
    t2: Tree,
    scripting_enabled: bool,
    scope: ScopeView,
)
    requires
        shape(t1) == shape(t2),
    ensures
        serializable(t1, scope) == serializable(t2, scope),
        serialize_calls(t1, scripting_enabled, scope) == serialize_calls(t2, scripting_enabled, scope),
{
    lemma_calls_of_shape(t1);
    lemma_calls_of_shape(t2);
    lemma_children_calls_of_shape(t1, 0);
    lemma_children_calls_of_shape(t2, 0);
    assert forall|k: int| 0 <= k < t1.children.len() implies writable(#[trigger] t1.children[k])
        == writable(t2.children[k]) by {
        assert(shape(t1).children[k] == shape(t1.children[k]));
        assert(shape(t2).children[k] == shape(t2.children[k]));
        lemma_calls_of_shape(t1.children[k]);
        lemma_calls_of_shape(t2.children[k]);
    }
    assert(t1.children.len() == shape(t1).children.len());
    assert(t2.children.len() == shape(t2).children.len());
    match scope {
        ScopeView::IncludeNode => {},
        ScopeView::ChildrenOnly(_) => {
            if serializable(t1, scope) {
                assert forall|k: int| 0 <= k < t2.children.len() implies writable(
                    #[trigger] t2.children[k],
                ) by {
                    assert(writable(t1.children[k]));
                }
            }
            if serializable(t2, scope) {
                assert forall|k: int| 0 <= k < t1.children.len() implies writable(
                    #[trigger] t1.children[k],
                ) by {
                    assert(writable(t2.children[k]));
                }
            }
        },
    }
}

/// An edit of the children of `p`, such as one inside a copy, leaves the
/// serialisation of every subtree that does not hold `p` as it was.
pub proof fn lemma_edit_elsewhere_serializes_alike(
    f: Forest,
    p: NodeId,
    from: int,
    to: int,
    kids: Seq<NodeId>,
    a: NodeId,
    scripting_enabled: bool,
    scope: ScopeView,
)
    requires
        well_formed(f),
        adoptable(f, p, kids),
        0 <= from <= to <= f[p as int].children.len(),
        a < f.len(),
        !reaches(f, a, p),
    ensures
        serialize_calls(subtree(spliced(f, p, from, to, kids), a), scripting_enabled, scope)
            == serialize_calls(subtree(f, a), scripting_enabled, scope),
{
    lemma_splice_elsewhere(f, p, from, to, kids, a);
}

/// A deep copy serializes to the same bytes as its original, in every
/// scope in which the original can be serialized, and making the copy leaves
/// the serialisation of the original as it was. Here `before` and `after`
/// are the tree before and after the copy `copy` of node `id` was made.
pub proof fn lemma_deep_clone_serializes_alike(
    before: Forest,
    after: Forest,
    id: NodeId,
    copy: NodeId,
    scripting_enabled: bool,
    scope: ScopeView,
)
    requires
        well_formed(before),
        well_formed(after),
        extends(before, after),
        id < before.len(),
        shape(subtree(after, copy)) == shape(subtree(before, id)),
    ensures
        serializable(subtree(after, copy), scope) == serializable(subtree(before, id), scope),
        html_output(serialize_calls(subtree(after, copy), scripting_enabled, scope)) == html_output(
            serialize_calls(subtree(before, id), scripting_enabled, scope),
        ),
        html_output(serialize_calls(subtree(after, id), scripting_enabled, scope)) == html_output(
            serialize_calls(subtree(before, id), scripting_enabled, scope),
        ),
{
    lemma_same_shape_serializes_alike(subtree(after, copy), subtree(before, id), scripting_enabled, scope);
    assert forall|x: NodeId| x < before.len() implies same_links(
        before[x as int],
        #[trigger] after[x as int],
    ) by {}
    lemma_prefix_subtree(before, after, id);
}

/// A change of the payload of node `id`, such as a new attribute or a new
/// text inside a copy, leaves the serialisation of every subtree that does
/// not hold `id` as it was.
pub proof fn lemma_data_elsewhere_serializes_alike(
    f: Forest,
    id: NodeId,
    data: DataView,
    a: NodeId,
    scripting_enabled: bool,
    scope: ScopeView,
)
    requires
        well_formed(f),
        well_formed(with_data(f, id, data)),
        id < f.len(),
        a < f.len(),
        !reaches(f, a, id),
    ensures
        serialize_calls(subtree(with_data(f, id, data), a), scripting_enabled, scope) == serialize_calls(
            subtree(f, a),
            scripting_enabled,
            scope,
        ),
{
    lemma_data_elsewhere(f, id, data, a);
}

/// No node of a deep copy lies in the subtree of its original: an edit
/// inside the copy is an edit elsewhere for the original. Here `before` and
/// `after` are the tree before and after the copy `copy` of node `id` was
/// made, and `p` is a node of the copy.
pub proof fn lemma_copy_apart(before: Forest, after: Forest, id: NodeId, copy: NodeId, p: NodeId)
    requires
        well_formed(before),
        well_formed(after),
        extends(before, after),
        id < before.len(),
        forall|x: NodeId| reaches(after, copy, x) ==> x >= before.len(),
        reaches(after, copy, p),
    ensures
        !reaches(after, id, p),
{
    assert forall|x: NodeId| x < before.len() implies same_links(
        before[x as int],
        #[trigger] after[x as int],
    ) by {}
    lemma_prefix_subtree(before, after, id);
    if reaches(after, id, p) {
        assert(reaches(before, id, p));
        crate::model_proofs::lemma_reaches_valid(before, id, p);
    }
}

} // verus!
