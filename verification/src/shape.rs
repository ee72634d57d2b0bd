//! Subtrees as values: how an edit changes the subtree below a node, and the
//! shapes of the small trees that the passes build.

use vstd::prelude::*;
use crate::dom::{with_data, fresh_node};
use crate::edit_model::{adoptable, spliced, lemma_splice_wf};
use crate::laws::{lemma_splice_elsewhere, lemma_data_elsewhere};
use crate::model::{NodeId, DataView, AttrView, Forest, Tree, well_formed, edge, reaches, subtree, shape, template_of, with_template};
use crate::model_proofs::{lemma_subtree_fields, lemma_reaches_valid, lemma_rank_of, lemma_subtree_frame, lemma_reaches_unfold, same_links};
use crate::names::html_name;

verus! {

/// The shape of a text node without children.
pub open spec fn text_shape(text: Seq<char>) -> Tree {
    Tree { id: 0, data: DataView::Text { contents: text }, template: None, children: Seq::empty() }
}

/// The shape of an HTML element with these attributes and children.
pub open spec fn element_shape(local: Seq<char>, attrs: Seq<AttrView>, children: Seq<Tree>) -> Tree {
    Tree {
        id: 0,
        data: DataView::Element {
            name: html_name(local),
            attrs,
            template_contents: None,
            mathml_annotation_xml_integration_point: false,
        },
        template: None,
        children,
    }
}

/// The shapes of the subtrees below `ids`, in order.
pub open spec fn shapes(f: Forest, ids: Seq<NodeId>) -> Seq<Tree> {
    Seq::new(ids.len(), |i: int| shape(subtree(f, ids[i])))
}

/// The shape of a subtree, read off the forest.
pub proof fn lemma_shape_fields(f: Forest, id: NodeId)
    requires
        well_formed(f),
        id < f.len(),
    ensures
        shape(subtree(f, id)).id == 0,
        shape(subtree(f, id)).data == with_template(f[id as int].data, None),
        shape(subtree(f, id)).children == shapes(f, f[id as int].children),
        match template_of(f, id) {
            Some(t) => shape(subtree(f, id)).template == Some(Box::new(shape(subtree(f, t)))),
            None => shape(subtree(f, id)).template is None,
        },
{
    lemma_subtree_fields(f, id);
    assert(shape(subtree(f, id)).children =~= shapes(f, f[id as int].children));
}

/// A node does not lie in the subtree of a node that it owns.
pub proof fn lemma_owner_not_below(f: Forest, p: NodeId, c: NodeId)
    requires
        well_formed(f),
        edge(f, p, c),
    ensures
        !reaches(f, c, p),
{
    lemma_rank_of(f);
    if reaches(f, c, p) {
        lemma_reaches_valid(f, c, p);
    }
}

/// A new node without children or template contents has the shape of its
/// payload, and the subtrees that were there stay as they were.
pub proof fn lemma_fresh_shape(f: Forest, data: DataView)
    requires
        well_formed(f),
        well_formed(f.push(fresh_node(data))),
        f.len() < usize::MAX,
        with_template(data, None) == data,
    ensures
        shape(subtree(f.push(fresh_node(data)), f.len() as usize)) == (Tree {
            id: 0,
            data,
            template: None,
            children: Seq::empty(),
        }),
        forall|x: NodeId| #[trigger] reaches(f.push(fresh_node(data)), f.len() as usize, x) ==> x == f.len(),
{
    let f2 = f.push(fresh_node(data));
    let id = f.len() as usize;
    lemma_shape_fields(f2, id);
    assert(shapes(f2, f2[id as int].children) =~= Seq::<Tree>::empty());
    assert forall|x: NodeId| #[trigger] reaches(f2, id, x) implies x == f.len() by {
        lemma_reaches_unfold(f2, id, x);
        assert forall|v: NodeId| !edge(f2, id, v) by {
            if f2[id as int].children.contains(v) {
                let k = choose|k: int| 0 <= k < f2[id as int].children.len() && f2[id as int].children[k] == v;
            }
        }
    }
}

/// A subtree stays as it is when nodes are added to the arena.
pub proof fn lemma_push_keeps(f: Forest, data: DataView, a: NodeId)
    requires
        well_formed(f),
        well_formed(f.push(fresh_node(data))),
        a < f.len(),
    ensures
        subtree(f.push(fresh_node(data)), a) == subtree(f, a),
{
    let f2 = f.push(fresh_node(data));
    assert forall|x: NodeId| #[trigger] reaches(f, a, x) implies x < f2.len() && same_links(
        f[x as int],
        f2[x as int],
    ) by {
        lemma_reaches_valid(f, a, x);
    }
    lemma_subtree_frame(f, f2, a);
}

/// After nodes have been appended to the children of `p`, the subtree below
/// `p` is what it was with the subtrees of the new children at the end.
pub proof fn lemma_append_shape(f: Forest, p: NodeId, kids: Seq<NodeId>)
    requires
        well_formed(f),
        adoptable(f, p, kids),
    ensures
        ({
            let n = f[p as int].children.len() as int;
            let f2 = spliced(f, p, n, n, kids);
            let s = shape(subtree(f2, p));
            let s0 = shape(subtree(f, p));
            &&& s.data == s0.data
            &&& s.template == s0.template
            &&& s.children == s0.children + shapes(f, kids)
            &&& forall|i: int| 0 <= i < kids.len() ==> subtree(f2, #[trigger] kids[i]) == subtree(f, kids[i])
        }),
{
    let n = f[p as int].children.len() as int;
    let f2 = spliced(f, p, n, n, kids);
    lemma_splice_wf(f, p, n, n, kids);
    lemma_shape_fields(f, p);
    lemma_shape_fields(f2, p);
    let ch = f[p as int].children;
    assert(f2[p as int].children =~= ch + kids);
    assert(f2[p as int].data == f[p as int].data);
    assert forall|i: int| 0 <= i < kids.len() implies subtree(f2, #[trigger] kids[i]) == subtree(
        f,
        kids[i],
    ) by {
        lemma_splice_elsewhere(f, p, n, n, kids, kids[i]);
    }
    assert forall|k: int| 0 <= k < ch.len() implies subtree(f2, #[trigger] ch[k]) == subtree(f, ch[k]) by {
        assert(f[p as int].children[k] < f.len());
        assert(edge(f, p, ch[k]));
        lemma_owner_not_below(f, p, ch[k]);
        lemma_splice_elsewhere(f, p, n, n, kids, ch[k]);
    }
    let s = shape(subtree(f2, p));
    let s0 = shape(subtree(f, p));
    assert forall|k: int| 0 <= k < s.children.len() implies s.children[k] == (s0.children + shapes(
        f,
        kids,
    ))[k] by {
        if k < ch.len() {
            assert((ch + kids)[k] == ch[k]);
            assert(subtree(f2, ch[k]) == subtree(f, ch[k]));
        } else {
            assert((ch + kids)[k] == kids[k - ch.len()]);
            assert(subtree(f2, kids[k - ch.len()]) == subtree(f, kids[k - ch.len()]));
        }
    }
    assert(s.children =~= s0.children + shapes(f, kids));
    match template_of(f, p) {
        Some(t) => {
            assert(edge(f, p, t));
            lemma_owner_not_below(f, p, t);
            lemma_splice_elsewhere(f, p, n, n, kids, t);
        },
        None => {},
    }
}

/// After the payload of `id` has changed, without a change of its template
/// contents, the subtree below `id` is what it was with the new payload.
pub proof fn lemma_data_shape(f: Forest, id: NodeId, data: DataView)
    requires
        well_formed(f),
        well_formed(with_data(f, id, data)),
        id < f.len(),
        template_of(with_data(f, id, data), id) == template_of(f, id),
    ensures
        shape(subtree(with_data(f, id, data), id)).data == with_template(data, None),
        shape(subtree(with_data(f, id, data), id)).template == shape(subtree(f, id)).template,
        shape(subtree(with_data(f, id, data), id)).children == shape(subtree(f, id)).children,
{
    let f2 = with_data(f, id, data);
    lemma_shape_fields(f, id);
    lemma_shape_fields(f2, id);
    let ch = f[id as int].children;
    assert forall|k: int| 0 <= k < ch.len() implies subtree(f2, #[trigger] ch[k]) == subtree(f, ch[k]) by {
        assert(f[id as int].children[k] < f.len());
        assert(edge(f, id, ch[k]));
        lemma_owner_not_below(f, id, ch[k]);
        lemma_data_elsewhere(f, id, data, ch[k]);
    }
    assert(shapes(f2, ch) =~= shapes(f, ch));
    match template_of(f, id) {
        Some(t) => {
            assert(edge(f, id, t));
            lemma_owner_not_below(f, id, t);
            lemma_data_elsewhere(f, id, data, t);
        },
        None => {},
    }
}

} // verus!
