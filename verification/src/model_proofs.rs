//! Facts about the forest model: what a subtree contains, which nodes a node
//! reaches, and when a change leaves a subtree as it was.

use vstd::prelude::*;
use crate::model::{NodeId, NodeView, Forest, Tree, template_of, edge, ranked, acyclic, well_formed, rank_of, subtree, tree_ids, children_ids, reaches};

verus! {

/// An element of a concatenation is an element of one of its parts.
pub proof fn lemma_concat_contains<A>(a: Seq<A>, b: Seq<A>, x: A)
    ensures
        (a + b).contains(x) <==> a.contains(x) || b.contains(x),
{
    let ab = a + b;
    if a.contains(x) {
        let i = choose|i: int| 0 <= i < a.len() && a[i] == x;
        assert(ab[i] == x);
    }
    if b.contains(x) {
        let i = choose|i: int| 0 <= i < b.len() && b[i] == x;
        assert(ab[a.len() + i] == x);
    }
    if ab.contains(x) {
        let i = choose|i: int| 0 <= i < ab.len() && ab[i] == x;
        if i < a.len() {
            assert(a[i] == x);
        } else {
            assert(b[i - a.len()] == x);
        }
    }
}

/// Some number lies above every rank of a ranking.
pub proof fn lemma_rank_bound(r: Seq<nat>) -> (b: nat)
    ensures
        forall|i: int| 0 <= i < r.len() ==> r[i] < b,
    decreases r.len(),
{
    if r.len() == 0 {
        0
    } else {
        let b0 = lemma_rank_bound(r.drop_last());
        let b = if b0 > r.last() { b0 } else { r.last() + 1 };
        assert forall|i: int| 0 <= i < r.len() implies r[i] < b by {
            if i < r.len() - 1 {
                assert(r.drop_last()[i] == r[i]);
            }
        }
        b
    }
}

/// The ranking that `rank_of` picks is a ranking.
pub proof fn lemma_rank_of(f: Forest)
    requires
        acyclic(f),
    ensures
        ranked(f, rank_of(f)),
{
}

/// The fields of the subtree below a node, read off the forest.
pub proof fn lemma_subtree_fields(f: Forest, id: NodeId)
    requires
        well_formed(f),
        id < f.len(),
    ensures
        subtree(f, id).id == id,
        subtree(f, id).data == f[id as int].data,
        subtree(f, id).children.len() == f[id as int].children.len(),
        forall|k: int|
            0 <= k < f[id as int].children.len() ==> #[trigger] subtree(f, id).children[k]
                == subtree(f, f[id as int].children[k]),
        match template_of(f, id) {
            Some(t) => subtree(f, id).template == Some(Box::new(subtree(f, t))),
            None => subtree(f, id).template is None,
        },
{
    assert forall|k: int| 0 <= k < f[id as int].children.len() implies edge(
        f,
        id,
        #[trigger] f[id as int].children[k],
    ) by {}
}

/// What the walk of the children from the `j`th on contains.
pub proof fn lemma_children_ids_contains(t: Tree, j: nat, x: NodeId)
    ensures
        children_ids(t, j).contains(x) <==> exists|k: int|
            j <= k < t.children.len() && tree_ids(#[trigger] t.children[k]).contains(x),
    decreases t.children.len() - j,
{
    if j >= t.children.len() {
    } else {
        lemma_children_ids_contains(t, j + 1, x);
        lemma_concat_contains(tree_ids(t.children[j as int]), children_ids(t, j + 1), x);
        if children_ids(t, j).contains(x) {
            if tree_ids(t.children[j as int]).contains(x) {
            } else {
                let k = choose|k: int|
                    j + 1 <= k < t.children.len() && tree_ids(#[trigger] t.children[k]).contains(
                        x,
                    );
                assert(j <= k < t.children.len() && tree_ids(t.children[k]).contains(x));
            }
        }
        if exists|k: int|
            j <= k < t.children.len() && tree_ids(#[trigger] t.children[k]).contains(x) {
            let k = choose|k: int|
                j <= k < t.children.len() && tree_ids(#[trigger] t.children[k]).contains(x);
            if k == j {
            } else {
                assert(j + 1 <= k < t.children.len() && tree_ids(t.children[k]).contains(x));
            }
        }
    }
}

/// What the walk of a subtree contains.
pub proof fn lemma_tree_ids_contains(t: Tree, x: NodeId)
    ensures
        tree_ids(t).contains(x) <==> {
            ||| x == t.id
            ||| exists|k: int|
                0 <= k < t.children.len() && tree_ids(#[trigger] t.children[k]).contains(x)
            ||| (t.template is Some && tree_ids(*t.template->0).contains(x))
        },
{
    let tail = match t.template {
        Some(b) => tree_ids(*b),
        None => Seq::empty(),
    };
    lemma_children_ids_contains(t, 0, x);
    lemma_concat_contains(seq![t.id], children_ids(t, 0), x);
    lemma_concat_contains(seq![t.id] + children_ids(t, 0), tail, x);
    assert(seq![t.id].contains(x) <==> x == t.id) by {
        if x == t.id {
            assert(seq![t.id][0] == x);
        }
    }
}

/// A node reaches itself.
pub proof fn lemma_reaches_self(f: Forest, a: NodeId)
    requires
        well_formed(f),
        a < f.len(),
    ensures
        reaches(f, a, a),
{
    lemma_subtree_fields(f, a);
    lemma_tree_ids_contains(subtree(f, a), a);
}

/// A node reaches itself and whatever the nodes it owns reach, and nothing
/// else.
pub proof fn lemma_reaches_unfold(f: Forest, a: NodeId, x: NodeId)
    requires
        well_formed(f),
        a < f.len(),
    ensures
        reaches(f, a, x) <==> (x == a || exists|v: NodeId| #[trigger]
            edge(f, a, v) && reaches(f, v, x)),
{
    let t = subtree(f, a);
    lemma_subtree_fields(f, a);
    lemma_tree_ids_contains(t, x);
    if reaches(f, a, x) && x != a {
        if exists|k: int|
            0 <= k < t.children.len() && tree_ids(#[trigger] t.children[k]).contains(x) {
            let k = choose|k: int|
                0 <= k < t.children.len() && tree_ids(#[trigger] t.children[k]).contains(x);
            let v = f[a as int].children[k];
            assert(edge(f, a, v) && reaches(f, v, x));
        } else {
            let v = template_of(f, a)->0;
            assert(edge(f, a, v) && reaches(f, v, x));
        }
    }
    if exists|v: NodeId| #[trigger] edge(f, a, v) && reaches(f, v, x) {
        let v = choose|v: NodeId| #[trigger] edge(f, a, v) && reaches(f, v, x);
        if f[a as int].children.contains(v) {
            let k = choose|k: int| 0 <= k < f[a as int].children.len() && f[a as int].children[k] == v;
            assert(tree_ids(t.children[k]).contains(x));
        } else {
        }
    }
}

/// Whatever a node reaches is a node of the forest, and ranks no higher.
pub proof fn lemma_reaches_valid(f: Forest, a: NodeId, x: NodeId)
    requires
        well_formed(f),
        a < f.len(),
        reaches(f, a, x),
    ensures
        x < f.len(),
        rank_of(f)[x as int] <= rank_of(f)[a as int],
        x != a ==> rank_of(f)[x as int] < rank_of(f)[a as int],
    decreases rank_of(f)[a as int],
{
    lemma_reaches_unfold(f, a, x);
    if x != a {
        let v = choose|v: NodeId| #[trigger] edge(f, a, v) && reaches(f, v, x);
        lemma_reaches_valid(f, v, x);
    }
}

/// Reaching is transitive.
pub proof fn lemma_reaches_trans(f: Forest, a: NodeId, b: NodeId, c: NodeId)
    requires
        well_formed(f),
        a < f.len(),
        reaches(f, a, b),
        reaches(f, b, c),
    ensures
        reaches(f, a, c),
    decreases rank_of(f)[a as int],
{
    lemma_reaches_unfold(f, a, b);
    if b != a {
        let v = choose|v: NodeId| #[trigger] edge(f, a, v) && reaches(f, v, b);
        lemma_reaches_trans(f, v, b, c);
        lemma_reaches_unfold(f, a, c);
        assert(edge(f, a, v) && reaches(f, v, c));
    }
}

/// The nodes that a node reaches are closed under ownership.
pub proof fn lemma_reaches_edge(f: Forest, a: NodeId, u: NodeId, v: NodeId)
    requires
        well_formed(f),
        a < f.len(),
        reaches(f, a, u),
        edge(f, u, v),
    ensures
        reaches(f, a, v),
{
    lemma_reaches_self(f, v);
    lemma_reaches_unfold(f, u, v);
    assert(edge(f, u, v) && reaches(f, v, v));
    lemma_reaches_trans(f, a, u, v);
}

/// Two nodes have the same children and the same payload.
pub open spec fn same_links(a: NodeView, b: NodeView) -> bool {
    a.children == b.children && a.data == b.data
}

/// A subtree is the same in two forests that agree, up to parent links, on
/// every node the subtree holds.
pub proof fn lemma_subtree_frame(f1: Forest, f2: Forest, id: NodeId)
    requires
        well_formed(f1),
        well_formed(f2),
        id < f1.len(),
        forall|x: NodeId| #[trigger]
            reaches(f1, id, x) ==> x < f2.len() && same_links(f1[x as int], f2[x as int]),
    ensures
        subtree(f2, id) == subtree(f1, id),
    decreases rank_of(f1)[id as int],
{
    lemma_reaches_self(f1, id);
    assert(reaches(f1, id, id));
    lemma_subtree_fields(f1, id);
    lemma_subtree_fields(f2, id);
    let t1 = subtree(f1, id);
    let t2 = subtree(f2, id);
    assert forall|k: int| 0 <= k < t1.children.len() implies t1.children[k] == t2.children[k] by {
        let c = f1[id as int].children[k];
        assert(edge(f1, id, c));
        lemma_reaches_edge(f1, id, id, c);
        assert forall|x: NodeId| #[trigger] reaches(f1, c, x) implies x < f2.len() && same_links(
            f1[x as int],
            f2[x as int],
        ) by {
            lemma_reaches_trans(f1, id, c, x);
        }
        lemma_rank_of(f1);
        lemma_subtree_frame(f1, f2, c);
    }
    assert(t1.children =~= t2.children);
    match template_of(f1, id) {
        Some(t) => {
            assert(edge(f1, id, t));
            lemma_reaches_edge(f1, id, id, t);
            assert forall|x: NodeId| #[trigger] reaches(f1, t, x) implies x < f2.len()
                && same_links(f1[x as int], f2[x as int]) by {
                lemma_reaches_trans(f1, id, t, x);
            }
            lemma_rank_of(f1);
            lemma_subtree_frame(f1, f2, t);
        },
        None => {},
    }
}

/// Handing nodes to a new owner keeps ownership free of cycles, provided the
/// new owner lies in the subtree of none of them.
pub proof fn lemma_adopt_acyclic(f: Forest, f2: Forest, p: NodeId, kids: Seq<NodeId>)
    requires
        well_formed(f),
        f2.len() == f.len(),
        p < f.len(),
        forall|k: int| 0 <= k < kids.len() ==> #[trigger] kids[k] < f.len(),
        forall|k: int| 0 <= k < kids.len() ==> !reaches(f, #[trigger] kids[k], p),
        forall|u: NodeId, v: NodeId| #[trigger]
            edge(f2, u, v) ==> edge(f, u, v) || (u == p && kids.contains(v)),
    ensures
        acyclic(f2),
{
    let r = rank_of(f);
    lemma_rank_of(f);
    let b = lemma_rank_bound(r);
    let below = |x: int|
        exists|k: int| 0 <= k < kids.len() && reaches(f, #[trigger] kids[k], x as usize);
    let r2 = Seq::new(
        f.len(),
        |x: int|
            if below(x) {
                r[x]
            } else {
                (r[x] + b) as nat
            },
    );
    assert forall|u: NodeId, v: NodeId| #[trigger] edge(f2, u, v) implies r2[v as int] < r2[u as int] by {
        if edge(f, u, v) {
            if below(u as int) {
                let k = choose|k: int|
                    0 <= k < kids.len() && reaches(f, #[trigger] kids[k], u);
                lemma_reaches_edge(f, kids[k], u, v);
                assert(below(v as int));
            }
        } else {
            let k = choose|k: int| 0 <= k < kids.len() && kids[k] == v;
            lemma_reaches_self(f, v);
            assert(reaches(f, kids[k], v));
            assert(below(v as int));
            if below(u as int) {
                let k2 = choose|k2: int|
                    0 <= k2 < kids.len() && reaches(f, #[trigger] kids[k2], u);
                assert(false);
            }
        }
    }
    assert(ranked(f2, r2));
}

/// A subtree stays as it is when nodes are added to the arena and the nodes
/// that were there stay as they were.
pub proof fn lemma_prefix_subtree(f1: Forest, f2: Forest, id: NodeId)
    requires
        well_formed(f1),
        well_formed(f2),
        id < f1.len() <= f2.len(),
        forall|x: NodeId| x < f1.len() ==> same_links(f1[x as int], #[trigger] f2[x as int]),
    ensures
        subtree(f2, id) == subtree(f1, id),
{
    assert forall|x: NodeId| #[trigger] reaches(f1, id, x) implies x < f2.len() && same_links(
        f1[x as int],
        f2[x as int],
    ) by {
        lemma_reaches_valid(f1, id, x);
    }
    lemma_subtree_frame(f1, f2, id);
}

/// A node at or above `lo` reaches only nodes at or above `lo`, if no node
/// at or above `lo` owns a node below it.
pub proof fn lemma_reaches_closed(f: Forest, a: NodeId, lo: NodeId, x: NodeId)
    requires
        well_formed(f),
        lo <= a < f.len(),
        forall|u: NodeId, v: NodeId| u >= lo && #[trigger] edge(f, u, v) ==> v >= lo,
        reaches(f, a, x),
    ensures
        x >= lo,
    decreases rank_of(f)[a as int],
{
    lemma_reaches_unfold(f, a, x);
    if x != a {
        let v = choose|v: NodeId| #[trigger] edge(f, a, v) && reaches(f, v, x);
        lemma_rank_of(f);
        lemma_reaches_closed(f, v, lo, x);
    }
}

/// What a node reaches depends only on the lists of children and the
/// template contents of the nodes that it reaches: a node that `a` reaches in
/// `f2` is reached in `f1`, if `f2` has the same links as `f1` on every node
/// that `a` reaches in `f1`.
pub proof fn lemma_reaches_frame_back(f1: Forest, f2: Forest, a: NodeId, x: NodeId)
    requires
        well_formed(f1),
        well_formed(f2),
        a < f1.len(),
        a < f2.len(),
        forall|y: NodeId| #[trigger]
            reaches(f1, a, y) ==> y < f2.len() && f2[y as int].children == f1[y as int].children
                && template_of(f2, y) == template_of(f1, y),
        reaches(f2, a, x),
    ensures
        reaches(f1, a, x),
    decreases rank_of(f2)[a as int],
{
    lemma_reaches_self(f1, a);
    lemma_reaches_unfold(f2, a, x);
    if x != a {
        let v = choose|v: NodeId| #[trigger] edge(f2, a, v) && reaches(f2, v, x);
        assert(reaches(f1, a, a));
        assert(f2[a as int].children == f1[a as int].children);
        if f2[a as int].children.contains(v) {
            let k = choose|k: int| 0 <= k < f1[a as int].children.len() && f1[a as int].children[k] == v;
            assert(f1[a as int].children[k] < f1.len());
        } else {
            assert(template_of(f1, a) is Some);
        }
        assert(edge(f1, a, v));
        lemma_reaches_edge(f1, a, a, v);
        assert forall|y: NodeId| #[trigger] reaches(f1, v, y) implies y < f2.len() && f2[y as int].children
            == f1[y as int].children && template_of(f2, y) == template_of(f1, y) by {
            lemma_reaches_trans(f1, a, v, y);
        }
        lemma_rank_of(f2);
        lemma_reaches_frame_back(f1, f2, v, x);
        lemma_reaches_trans(f1, a, v, x);
    }
}

} // verus!
