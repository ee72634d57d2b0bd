//! The mathematical model of the tree: a forest of nodes addressed by index,
//! its well-formedness, and the subtree that hangs below a node.

use vstd::prelude::*;

verus! {

/// A node is named by its index in the arena. Indices are never reused, so an
/// index identifies one node for the lifetime of the arena.
pub type NodeId = usize;

/// A qualified name as a value: optional prefix, namespace URL, local name.
pub struct NameView {
    pub prefix: Option<Seq<char>>,
    pub ns: Seq<char>,
    pub local: Seq<char>,
}

/// An attribute as a value.
pub struct AttrView {
    pub name: NameView,
    pub value: Seq<char>,
}

/// The payload of a node as a value.
#[allow(inconsistent_fields)]
pub enum DataView {
    Document,
    Doctype { name: Seq<char>, public_id: Seq<char>, system_id: Seq<char> },
    Text { contents: Seq<char> },
    Comment { contents: Seq<char> },
    Element {
        name: NameView,
        attrs: Seq<AttrView>,
        template_contents: Option<NodeId>,
        mathml_annotation_xml_integration_point: bool,
    },
    ProcessingInstruction { target: Seq<char>, contents: Seq<char> },
}

/// One node of the forest: its upward link, its ordered children, its payload.
pub struct NodeView {
    pub parent: Option<NodeId>,
    pub children: Seq<NodeId>,
    pub data: DataView,
}

/// The whole arena as a value.
pub type Forest = Seq<NodeView>;

/// The root of the template contents that element `id` owns, if any.
pub open spec fn template_of(f: Forest, id: NodeId) -> Option<NodeId> {
    match f[id as int].data {
        DataView::Element { template_contents, .. } => template_contents,
        _ => None,
    }
}

/// `u` owns `v`: `v` is listed among the children of `u`, or is the root of the
/// template contents of `u`.
pub open spec fn edge(f: Forest, u: NodeId, v: NodeId) -> bool {
    &&& u < f.len()
    &&& v < f.len()
    &&& (f[u as int].children.contains(v) || template_of(f, u) == Some(v))
}

/// Parent links and child lists agree: every listed child names its parent,
/// every parent link is matched by a slot in that parent's list, no list holds
/// a node twice, and every index that occurs is in range.
pub open spec fn linked(f: Forest) -> bool {
    &&& forall|p: NodeId, k: int|
        p < f.len() && 0 <= k < f[p as int].children.len() ==> {
            &&& (#[trigger] f[p as int].children[k]) < f.len()
            &&& f[f[p as int].children[k] as int].parent == Some(p)
        }
    &&& forall|p: NodeId| p < f.len() ==> (#[trigger] f[p as int]).children.no_duplicates()
    &&& forall|c: NodeId|
        c < f.len() && (#[trigger] f[c as int]).parent is Some ==> {
            &&& f[c as int].parent->0 < f.len()
            &&& f[f[c as int].parent->0 as int].children.contains(c)
        }
    &&& forall|e: NodeId|
        e < f.len() && (#[trigger] template_of(f, e)) is Some ==> template_of(f, e)->0
            < f.len()
}

/// `r` assigns every node a rank above the ranks of all nodes it owns.
pub open spec fn ranked(f: Forest, r: Seq<nat>) -> bool {
    &&& r.len() == f.len()
    &&& forall|u: NodeId, v: NodeId| #[trigger] edge(f, u, v) ==> r[v as int] < r[u as int]
}

/// Ownership has no cycles.
pub open spec fn acyclic(f: Forest) -> bool {
    exists|r: Seq<nat>| ranked(f, r)
}

/// The invariant of the tree model.
pub open spec fn well_formed(f: Forest) -> bool {
    linked(f) && acyclic(f)
}

/// Some ranking of a forest without cycles.
pub open spec fn rank_of(f: Forest) -> Seq<nat> {
    choose|r: Seq<nat>| ranked(f, r)
}

/// A subtree as a value: the node, the subtree of its template contents, and
/// the subtrees of its children in order.
pub struct Tree {
    pub id: NodeId,
    pub data: DataView,
    pub template: Option<Box<Tree>>,
    pub children: Seq<Tree>,
}

/// The subtree that hangs below node `id`.
pub open spec fn subtree(f: Forest, id: NodeId) -> Tree
    decreases rank_of(f)[id as int],
    when well_formed(f) && id < f.len()
{
    Tree {
        id,
        data: f[id as int].data,
        template: match template_of(f, id) {
            Some(t) => {
                if edge(f, id, t) {
                    Some(Box::new(subtree(f, t)))
                } else {
                    None
                }
            },
            None => None,
        },
        children: Seq::new(
            f[id as int].children.len(),
            |k: int|
                if 0 <= k < f[id as int].children.len() && edge(f, id, f[id as int].children[k]) {
                    subtree(f, f[id as int].children[k])
                } else {
                    arbitrary()
                },
        ),
    }
}

/// The nodes of a subtree in the order of a preorder walk: the node, then its
/// children's subtrees in order, then the subtree of its template contents.
pub open spec fn tree_ids(t: Tree) -> Seq<NodeId>
    decreases t, t.children.len() + 1,
{
    seq![t.id] + children_ids(t, 0) + match t.template {
        Some(b) => tree_ids(*b),
        None => Seq::empty(),
    }
}

/// The preorder walk of the children of `t` from the `k`th on.
pub open spec fn children_ids(t: Tree, k: nat) -> Seq<NodeId>
    decreases t, t.children.len() - k,
{
    if k >= t.children.len() {
        Seq::empty()
    } else {
        tree_ids(t.children[k as int]) + children_ids(t, k + 1)
    }
}

/// The preorder walk from node `id`.
pub open spec fn preorder(f: Forest, id: NodeId) -> Seq<NodeId> {
    tree_ids(subtree(f, id))
}

/// Node `b` lies in the subtree of node `a` (which includes `a` itself).
pub open spec fn reaches(f: Forest, a: NodeId, b: NodeId) -> bool {
    preorder(f, a).contains(b)
}

/// A payload in which the element's template contents are `template`; a
/// payload that is no element stays as it is.
pub open spec fn with_template(d: DataView, template: Option<NodeId>) -> DataView {
    match d {
        DataView::Element { name, attrs, template_contents, mathml_annotation_xml_integration_point } => {
            DataView::Element {
                name,
                attrs,
                template_contents: template,
                mathml_annotation_xml_integration_point,
            }
        },
        _ => d,
    }
}

/// The text of a text node; nothing for any other node.
pub open spec fn own_text(f: Forest, id: NodeId) -> Seq<char> {
    match f[id as int].data {
        DataView::Text { contents } => contents,
        _ => Seq::empty(),
    }
}

/// The texts of the text nodes among `ids`, joined in order.
pub open spec fn texts(f: Forest, ids: Seq<NodeId>) -> Seq<char>
    decreases ids.len(),
{
    if ids.len() == 0 {
        Seq::empty()
    } else {
        texts(f, ids.drop_last()) + own_text(f, ids.last())
    }
}

/// The text of node `id` and of its descendants, joined in preorder.
pub open spec fn text_content(f: Forest, id: NodeId) -> Seq<char> {
    texts(f, preorder(f, id))
}

/// A subtree without the identities of its nodes: what is left is what a copy
/// has in common with its original.
pub open spec fn shape(t: Tree) -> Tree
    decreases t,
{
    Tree {
        id: 0,
        data: with_template(t.data, None),
        template: match t.template {
            Some(b) => Some(Box::new(shape(*b))),
            None => None,
        },
        children: Seq::new(
            t.children.len(),
            |k: int|
                if 0 <= k < t.children.len() {
                    shape(t.children[k])
                } else {
                    arbitrary()
                },
        ),
    }
}

} // verus!
