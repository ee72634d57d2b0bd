//! Construction of small trees whose shape is known.

use vstd::prelude::*;
use vstd::string::StringExecFns;
use crate::dom::{Dom, NodeData};
use crate::edit_model::adoptable;
use crate::model::{NodeId, NodeView, DataView, AttrView, Forest, Tree, well_formed, reaches, subtree, shape};
use crate::model_proofs::{lemma_prefix_subtree, lemma_reaches_valid, same_links};
use crate::names::{QualName, Attribute, attrs_view, html_name, attribute_name};
use crate::shape::{text_shape, element_shape, shapes, lemma_fresh_shape, lemma_push_keeps, lemma_append_shape};

verus! {

/// The nodes `ids` are different nodes without parents.
pub open spec fn free_roots(f: Forest, ids: Seq<NodeId>) -> bool {
    &&& ids.no_duplicates()
    &&& forall|i: int| 0 <= i < ids.len() ==> (#[trigger] ids[i]) < f.len()
    &&& forall|i: int| 0 <= i < ids.len() ==> f[(#[trigger] ids[i]) as int].parent is None
}

/// The forest `f2` is `f` with one new node at the end that has adopted
/// `kids`: the kids name the new node as their parent, and no other node of
/// `f` has changed.
pub open spec fn grown_by(f: Forest, f2: Forest, kids: Seq<NodeId>) -> bool {
    &&& f2.len() == f.len() + 1
    &&& f2[f.len() as int].parent is None
    &&& f2[f.len() as int].children == kids
    &&& forall|x: NodeId|
        x < f.len() ==> #[trigger] f2[x as int] == if kids.contains(x) {
            NodeView { parent: Some(f.len() as usize), children: f[x as int].children, data: f[x as int].data }
        } else {
            f[x as int]
        }
}

/// An attribute without namespace.
pub fn plain_attribute(name: &str, value: &str) -> (attr: Attribute)
    ensures
        attr@ == (AttrView { name: attribute_name(name@), value: value@ }),
{
    Attribute { name: QualName::attribute(name), value: String::from_str(value) }
}

/// Creates a text node without a parent.
pub fn text_node(dom: &mut Dom, text: &str) -> (id: NodeId)
    requires
        old(dom).wf(),
    ensures
        final(dom).wf(),
        id == old(dom)@.len(),
        grown_by(old(dom)@, final(dom)@, Seq::empty()),
        shape(subtree(final(dom)@, id)) == text_shape(text@),
        forall|a: NodeId| a < old(dom)@.len() ==> subtree(final(dom)@, a) == subtree(old(dom)@, a),
        forall|x: NodeId| #[trigger] reaches(final(dom)@, id, x) ==> x == id,
{
    let ghost f = dom@;
    let n = dom.len();
    let id = dom.create_text_node(text);
    let m = dom.len();
    proof {
        lemma_fresh_shape(f, DataView::Text { contents: text@ });
        assert forall|a: NodeId| a < f.len() implies subtree(dom@, a) == subtree(f, a) by {
            lemma_push_keeps(f, DataView::Text { contents: text@ }, a);
        }
    }
    id
}

/// Creates an HTML element with the given attributes that adopts the given
/// nodes as its children. The element has no parent.
pub fn element(dom: &mut Dom, name: &str, attrs: Vec<Attribute>, children: Vec<NodeId>) -> (id: NodeId)
    requires
        old(dom).wf(),
        free_roots(old(dom)@, children@),
    ensures
        final(dom).wf(),
        id == old(dom)@.len(),
        grown_by(old(dom)@, final(dom)@, children@),
        shape(subtree(final(dom)@, id)) == element_shape(
            name@,
            attrs_view(attrs@),
            shapes(old(dom)@, children@),
        ),
        forall|a: NodeId| a < old(dom)@.len() ==> subtree(final(dom)@, a) == subtree(old(dom)@, a),
        forall|x: NodeId| #[trigger]
            reaches(final(dom)@, id, x) ==> x == id || exists|k: int|
                0 <= k < children@.len() && reaches(old(dom)@, #[trigger] children@[k], x),
{
    let ghost f = dom@;
    let n = dom.len();
    let ghost data = DataView::Element {
        name: html_name(name@),
        attrs: attrs_view(attrs@),
        template_contents: None,
        mathml_annotation_xml_integration_point: false,
    };
    let id = dom.create_node(
        NodeData::Element {
            name: QualName::html(name),
            attrs,
            template_contents: None,
            mathml_annotation_xml_integration_point: false,
        },
    );
    let ghost f1 = dom@;
    let m = dom.len();
    proof {
        lemma_fresh_shape(f, data);
        assert forall|k: int| 0 <= k < children@.len() implies !reaches(f1, #[trigger] children@[k], id) by {
            lemma_push_keeps(f, data, children@[k]);
            if reaches(f1, children@[k], id) {
                lemma_reaches_valid(f, children@[k], id);
            }
        }
        assert forall|k: int| 0 <= k < children@.len() implies f1[(#[trigger] children@[k]) as int].parent is None by {
            assert(f1[children@[k] as int] == f[children@[k] as int]);
        }
        assert(adoptable(f1, id, children@));
        lemma_append_shape(f1, id, children@);
    }
    dom.splice_children(id, 0, 0, &children);
    proof {
        let f2 = dom@;
        assert(f1[id as int].children =~= Seq::<NodeId>::empty());
        assert(f1[id as int].children.subrange(0, 0) =~= Seq::<NodeId>::empty());
        assert(f2[id as int].children =~= children@);
        assert forall|x: NodeId| x < f.len() implies #[trigger] f2[x as int] == if children@.contains(x) {
            NodeView { parent: Some(id), children: f[x as int].children, data: f[x as int].data }
        } else {
            f[x as int]
        } by {
            assert(f1[x as int] == f[x as int]);
        }
        assert forall|x: NodeId| x < f.len() implies same_links(f[x as int], #[trigger] f2[x as int]) by {}
        assert forall|a: NodeId| a < f.len() implies subtree(f2, a) == subtree(f, a) by {
            lemma_prefix_subtree(f, f2, a);
        }
        let s = shape(subtree(f2, id));
        assert(shapes(f1, children@) =~= shapes(f, children@)) by {
            assert forall|k: int| 0 <= k < children@.len() implies shapes(f1, children@)[k] == shapes(
                f,
                children@,
            )[k] by {
                lemma_push_keeps(f, data, children@[k]);
            }
        }
        assert(s.children =~= shapes(f, children@));
        assert(s == element_shape(name@, attrs_view(attrs@), shapes(f, children@)));
        assert forall|x: NodeId| #[trigger] reaches(f2, id, x) implies x == id || exists|k: int|
            0 <= k < children@.len() && reaches(f, #[trigger] children@[k], x) by {
            crate::model_proofs::lemma_reaches_unfold(f2, id, x);
            if x != id {
                let v = choose|v: NodeId| #[trigger] crate::model::edge(f2, id, v) && reaches(f2, v, x);
                assert(crate::model::template_of(f2, id) is None);
                let k = choose|k: int| 0 <= k < children@.len() && children@[k] == v;
                assert(subtree(f2, children@[k]) == subtree(f, children@[k]));
                assert(reaches(f, children@[k], x));
            }
        }
    }
    id
}

/// The forest `new` is `old` with new nodes at the end, among them the
/// parentless root of a subtree of the given shape. No node of `old` has
/// changed.
pub open spec fn built(old: Forest, new: Forest, root: NodeId, tree: Tree) -> bool {
    &&& well_formed(new)
    &&& crate::copy::extends(old, new)
    &&& old.len() <= root < new.len()
    &&& new[root as int].parent is None
    &&& shape(subtree(new, root)) == tree
    &&& forall|x: NodeId| #[trigger] reaches(new, root, x) ==> x >= old.len()
}

/// Roots that were built stay built when more nodes are added and the nodes
/// that were there stay as they were.
pub proof fn lemma_extends_keeps(f1: Forest, f2: Forest, ids: Seq<NodeId>)
    requires
        well_formed(f1),
        well_formed(f2),
        crate::copy::extends(f1, f2),
        forall|i: int| 0 <= i < ids.len() ==> (#[trigger] ids[i]) < f1.len(),
    ensures
        shapes(f2, ids) == shapes(f1, ids),
        forall|i: int| 0 <= i < ids.len() ==> f2[(#[trigger] ids[i]) as int] == f1[ids[i] as int],
{
    assert forall|x: NodeId| x < f1.len() implies same_links(f1[x as int], #[trigger] f2[x as int]) by {}
    assert forall|i: int| 0 <= i < ids.len() implies shapes(f2, ids)[i] == shapes(f1, ids)[i] by {
        lemma_prefix_subtree(f1, f2, ids[i]);
    }
    assert(shapes(f2, ids) =~= shapes(f1, ids));
}

/// What was built stays built when more nodes are added and the nodes that
/// were there stay as they were.
pub proof fn lemma_built_extends(old: Forest, g1: Forest, g2: Forest, root: NodeId, tree: Tree)
    requires
        built(old, g1, root, tree),
        well_formed(g2),
        crate::copy::extends(g1, g2),
    ensures
        built(old, g2, root, tree),
{
    assert forall|x: NodeId| x < g1.len() implies same_links(g1[x as int], #[trigger] g2[x as int]) by {}
    lemma_prefix_subtree(g1, g2, root);
    assert forall|x: int| 0 <= x < old.len() implies #[trigger] g2[x] == old[x] by {
        assert(g1[x] == old[x]);
    }
    assert(g2[root as int] == g1[root as int]);
    assert forall|x: NodeId| #[trigger] reaches(g2, root, x) implies x >= old.len() by {
        assert(reaches(g1, root, x));
    }
}

/// What was built after `mid` was built after every forest that `mid`
/// extends.
pub proof fn lemma_built_rebase(old: Forest, mid: Forest, g: Forest, root: NodeId, tree: Tree)
    requires
        built(mid, g, root, tree),
        crate::copy::extends(old, mid),
    ensures
        built(old, g, root, tree),
{
    assert forall|x: int| 0 <= x < old.len() implies #[trigger] g[x] == old[x] by {
        assert(mid[x] == old[x]);
    }
}

/// Creates a text node without a parent.
pub fn build_text(dom: &mut Dom, text: &str) -> (id: NodeId)
    requires
        old(dom).wf(),
    ensures
        built(old(dom)@, final(dom)@, id, text_shape(text@)),
{
    text_node(dom, text)
}

/// Creates an HTML element with the given attributes that adopts as its
/// children the given nodes, which were built after the arena was `base`.
pub fn build_element(
    dom: &mut Dom,
    name: &str,
    attrs: Vec<Attribute>,
    children: Vec<NodeId>,
    Ghost(base): Ghost<Forest>,
) -> (id: NodeId)
    requires
        old(dom).wf(),
        crate::copy::extends(base, old(dom)@),
        free_roots(old(dom)@, children@),
        forall|i: int| 0 <= i < children@.len() ==> (#[trigger] children@[i]) >= base.len(),
        forall|i: int, x: NodeId|
            0 <= i < children@.len() && #[trigger] reaches(old(dom)@, children@[i], x) ==> x >= base.len(),
    ensures
        built(
            base,
            final(dom)@,
            id,
            element_shape(name@, attrs_view(attrs@), shapes(old(dom)@, children@)),
        ),
        final(dom)@.len() == old(dom)@.len() + 1,
        id == old(dom)@.len(),
{
    let ghost f = dom@;
    let id = element(dom, name, attrs, children);
    proof {
        assert forall|x: int| 0 <= x < base.len() implies #[trigger] dom@[x] == base[x] by {
            assert(f[x] == base[x]);
            let y = x as usize;
            assert(dom@[y as int] == if children@.contains(y) {
                NodeView { parent: Some(f.len() as usize), children: f[y as int].children, data: f[y as int].data }
            } else {
                f[y as int]
            });
            if children@.contains(y) {
                let k = choose|k: int| 0 <= k < children@.len() && children@[k] == y;
                assert(children@[k] >= base.len());
            }
        }
    }
    id
}

/// The kids were built after `base` and are still free, and their shapes
/// are `trees`.
pub open spec fn kids_built(base: Forest, f: Forest, kids: Seq<NodeId>, trees: Seq<Tree>) -> bool {
    &&& well_formed(f)
    &&& crate::copy::extends(base, f)
    &&& kids.len() == trees.len()
    &&& forall|i: int| 0 <= i < kids.len() ==> base.len() <= (#[trigger] kids[i]) < f.len()
    &&& forall|i: int| 0 <= i < kids.len() ==> f[(#[trigger] kids[i]) as int].parent is None
    &&& forall|i: int, j: int| 0 <= i < j < kids.len() ==> kids[i] < kids[j]
    &&& forall|i: int, x: NodeId| 0 <= i < kids.len() && #[trigger] reaches(f, kids[i], x) ==> x >= base.len()
    &&& shapes(f, kids) == trees
}

/// The kids stay built when a new root is built after them.
pub proof fn lemma_kids_grow(base: Forest, f: Forest, f2: Forest, kids: Seq<NodeId>, trees: Seq<Tree>, root: NodeId, tree: Tree)
    requires
        kids_built(base, f, kids, trees),
        built(f, f2, root, tree),
    ensures
        kids_built(base, f2, kids.push(root), trees.push(tree)),
{
    lemma_extends_keeps(f, f2, kids);
    let k2 = kids.push(root);
    assert forall|i: int| 0 <= i < k2.len() implies shapes(f2, k2)[i] == trees.push(tree)[i] by {
        if i < kids.len() {
            assert(shapes(f2, kids)[i] == trees[i]);
        }
    }
    assert(shapes(f2, k2) =~= trees.push(tree));
    assert forall|x: int| 0 <= x < base.len() implies #[trigger] f2[x] == base[x] by {
        assert(f[x] == base[x]);
    }
    assert forall|x: NodeId| x < f.len() implies same_links(f[x as int], #[trigger] f2[x as int]) by {}
    assert forall|i: int, x: NodeId| 0 <= i < k2.len() && #[trigger] reaches(f2, k2[i], x) implies x
        >= base.len() by {
        if i < kids.len() {
            lemma_prefix_subtree(f, f2, kids[i]);
            assert(reaches(f, kids[i], x));
        }
    }
}

/// Kids that are built are free roots.
pub proof fn lemma_kids_free(base: Forest, f: Forest, kids: Seq<NodeId>, trees: Seq<Tree>)
    requires
        kids_built(base, f, kids, trees),
    ensures
        free_roots(f, kids),
{
}


} // verus!
