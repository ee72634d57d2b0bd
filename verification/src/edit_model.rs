//! The structural edit as a function on forests, and the proof that it keeps
//! the forest well formed.

use vstd::prelude::*;
use crate::model::{NodeId, NodeView, Forest, well_formed, edge, reaches, template_of};
use crate::model_proofs::{lemma_adopt_acyclic, lemma_rank_of};

verus! {

/// The nodes `kids` can be handed to the owner `p`: each is a node without a
/// parent, none occurs twice, and `p` lies in the subtree of none of them, so
/// that no node comes to own itself.
pub open spec fn adoptable(f: Forest, p: NodeId, kids: Seq<NodeId>) -> bool {
    &&& p < f.len()
    &&& kids.no_duplicates()
    &&& forall|k: int| 0 <= k < kids.len() ==> (#[trigger] kids[k]) < f.len()
    &&& forall|k: int| 0 <= k < kids.len() ==> f[(#[trigger] kids[k]) as int].parent is None
    &&& forall|k: int| 0 <= k < kids.len() ==> !reaches(f, #[trigger] kids[k], p)
}

/// The children of a node after `kids` have taken the place of the slots
/// `from..to`.
pub open spec fn spliced_children(children: Seq<NodeId>, from: int, to: int, kids: Seq<NodeId>) -> Seq<NodeId> {
    children.subrange(0, from) + kids + children.subrange(to, children.len() as int)
}

/// The forest after the children `from..to` of `p` have been replaced by
/// `kids`: the children that left have no parent, `kids` have the parent `p`,
/// and nothing else has changed.
pub open spec fn spliced(f: Forest, p: NodeId, from: int, to: int, kids: Seq<NodeId>) -> Forest {
    Seq::new(
        f.len(),
        |x: int|
            if x == p {
                NodeView {
                    parent: f[x].parent,
                    children: spliced_children(f[x].children, from, to, kids),
                    data: f[x].data,
                }
            } else if kids.contains(x as usize) {
                NodeView { parent: Some(p), children: f[x].children, data: f[x].data }
            } else if f[p as int].children.subrange(from, to).contains(x as usize) {
                NodeView { parent: None, children: f[x].children, data: f[x].data }
            } else {
                f[x]
            },
    )
}

/// No node is its own child.
pub proof fn lemma_not_own_child(f: Forest, p: NodeId)
    requires
        well_formed(f),
        p < f.len(),
    ensures
        !f[p as int].children.contains(p),
{
    lemma_rank_of(f);
    if f[p as int].children.contains(p) {
        assert(edge(f, p, p));
    }
}

/// What the new list of children holds: the old children outside the slots
/// that were replaced, and the new ones.
pub proof fn lemma_spliced_children_contains(
    children: Seq<NodeId>,
    from: int,
    to: int,
    kids: Seq<NodeId>,
    x: NodeId,
)
    requires
        0 <= from <= to <= children.len(),
    ensures
        spliced_children(children, from, to, kids).contains(x) <==> {
            ||| kids.contains(x)
            ||| exists|m: int|
                0 <= m < children.len() && !(from <= m < to) && #[trigger] children[m] == x
        },
{
    let s = spliced_children(children, from, to, kids);
    if s.contains(x) {
        let i = choose|i: int| 0 <= i < s.len() && s[i] == x;
        if i < from {
            assert(children[i] == x);
        } else if i < from + kids.len() {
            assert(kids[i - from] == x);
        } else {
            let m = i - from - kids.len() + to;
            assert(children[m] == x);
        }
    }
    if kids.contains(x) {
        let k = choose|k: int| 0 <= k < kids.len() && kids[k] == x;
        assert(s[from + k] == x);
    }
    if exists|m: int| 0 <= m < children.len() && !(from <= m < to) && #[trigger] children[m] == x {
        let m = choose|m: int|
            0 <= m < children.len() && !(from <= m < to) && #[trigger] children[m] == x;
        if m < from {
            assert(s[m] == x);
        } else {
            assert(s[m - to + from + kids.len()] == x);
        }
    }
}

/// Replacing a run of children by nodes that can be adopted keeps the forest
/// well formed.
pub proof fn lemma_splice_wf(f: Forest, p: NodeId, from: int, to: int, kids: Seq<NodeId>)
    requires
        well_formed(f),
        adoptable(f, p, kids),
        0 <= from <= to <= f[p as int].children.len(),
    ensures
        well_formed(spliced(f, p, from, to, kids)),
{
    let f2 = spliced(f, p, from, to, kids);
    let ch = f[p as int].children;
    let ch2 = spliced_children(ch, from, to, kids);
    let gone = ch.subrange(from, to);
    lemma_not_own_child(f, p);
    assert(f2[p as int].children == ch2);
    // Facts about the three groups of nodes.
    assert forall|k: int| 0 <= k < kids.len() implies !ch.contains(#[trigger] kids[k]) && kids[k]
        != p by {
        if ch.contains(kids[k]) {
            let m = choose|m: int| 0 <= m < ch.len() && ch[m] == kids[k];
            assert(f[ch[m] as int].parent == Some(p));
        }
        if kids[k] == p {
            crate::model_proofs::lemma_reaches_self(f, p);
        }
    }
    assert forall|x: NodeId| gone.contains(x) implies ch.contains(x) && !kids.contains(x) && x != p by {
        let m = choose|m: int| 0 <= m < gone.len() && gone[m] == x;
        assert(ch[from + m] == x);
        if kids.contains(x) {
            let k = choose|k: int| 0 <= k < kids.len() && kids[k] == x;
            assert(!ch.contains(kids[k]));
        }
    }
    assert forall|x: NodeId| x < f.len() && x != p implies (#[trigger] f2[x as int]).children
        == f[x as int].children by {}
    assert forall|x: NodeId| x < f.len() implies (#[trigger] f2[x as int]).data == f[x as int].data by {}
    // Ownership stays free of cycles.
    assert forall|u: NodeId, v: NodeId| #[trigger] edge(f2, u, v) implies edge(f, u, v) || (u == p
        && kids.contains(v)) by {
        assert(f2[u as int].data == f[u as int].data);
        assert(template_of(f2, u) == template_of(f, u));
        if u == p {
            if ch2.contains(v) {
                lemma_spliced_children_contains(ch, from, to, kids, v);
            }
        } else {
            assert(f2[u as int].children == f[u as int].children);
        }
    }
    lemma_adopt_acyclic(f, f2, p, kids);
    // Every child names its parent.
    assert forall|q: NodeId, k: int| q < f2.len() && 0 <= k < f2[q as int].children.len() implies {
        &&& (#[trigger] f2[q as int].children[k]) < f2.len()
        &&& f2[f2[q as int].children[k] as int].parent == Some(q)
    } by {
        let c = f2[q as int].children[k];
        if q == p {
            assert(ch2.contains(c));
            lemma_spliced_children_contains(ch, from, to, kids, c);
            if kids.contains(c) {
                let j = choose|j: int| 0 <= j < kids.len() && kids[j] == c;
                assert(kids[j] < f.len());
            } else {
                let m = choose|m: int|
                    0 <= m < ch.len() && !(from <= m < to) && #[trigger] ch[m] == c;
                assert(f[ch[m] as int].parent == Some(p));
                if gone.contains(c) {
                    let g = choose|g: int| 0 <= g < gone.len() && gone[g] == c;
                    assert(ch[from + g] == c);
                    assert(ch.no_duplicates());
                    assert(false);
                }
            }
        } else {
            assert(f2[q as int].children == f[q as int].children);
            assert(f[q as int].children[k] == c);
            assert(f[c as int].parent == Some(q));
            if kids.contains(c) {
                let j = choose|j: int| 0 <= j < kids.len() && kids[j] == c;
                assert(f[kids[j] as int].parent is None);
            }
            if gone.contains(c) {
                let g = choose|g: int| 0 <= g < gone.len() && gone[g] == c;
                assert(f[ch[from + g] as int].parent == Some(p));
            }
        }
    }
    // No list holds a node twice.
    assert forall|q: NodeId| q < f2.len() implies (#[trigger] f2[q as int]).children.no_duplicates() by {
        if q == p {
            assert(ch.no_duplicates());
            assert forall|i: int, j: int| 0 <= i < ch2.len() && 0 <= j < ch2.len() && i != j implies ch2[i]
                != ch2[j] by {
                let oi = if i < from {
                    i
                } else {
                    i - from - kids.len() + to
                };
                let oj = if j < from {
                    j
                } else {
                    j - from - kids.len() + to
                };
                let ki = from <= i < from + kids.len();
                let kj = from <= j < from + kids.len();
                if ki && kj {
                    assert(ch2[i] == kids[i - from]);
                    assert(ch2[j] == kids[j - from]);
                } else if ki {
                    assert(ch2[i] == kids[i - from]);
                    assert(ch2[j] == ch[oj]);
                    assert(ch.contains(ch[oj]));
                } else if kj {
                    assert(ch2[j] == kids[j - from]);
                    assert(ch2[i] == ch[oi]);
                    assert(ch.contains(ch[oi]));
                } else {
                    assert(ch2[i] == ch[oi]);
                    assert(ch2[j] == ch[oj]);
                }
            }
        } else {
            assert(f2[q as int].children == f[q as int].children);
            assert(f[q as int].children.no_duplicates());
        }
    }
    // Every parent lists its child.
    assert forall|c: NodeId| c < f2.len() && (#[trigger] f2[c as int]).parent is Some implies {
        &&& f2[c as int].parent->0 < f2.len()
        &&& f2[f2[c as int].parent->0 as int].children.contains(c)
    } by {
        if c != p && kids.contains(c) {
            lemma_spliced_children_contains(ch, from, to, kids, c);
        } else {
            assert(f2[c as int].parent == f[c as int].parent);
            let q = f[c as int].parent->0;
            assert(f[q as int].children.contains(c));
            if q == p {
                let m = choose|m: int| 0 <= m < ch.len() && ch[m] == c;
                if from <= m < to {
                    assert(gone[m - from] == c);
                    assert(gone.contains(c));
                    assert(false);
                }
                lemma_spliced_children_contains(ch, from, to, kids, c);
            } else {
                assert(f2[q as int].children == f[q as int].children);
            }
        }
    }
    // Template roots stay in range.
    assert forall|e: NodeId|
        e < f2.len() && (#[trigger] template_of(f2, e)) is Some implies template_of(f2, e)->0
        < f2.len() by {
        assert(f2[e as int].data == f[e as int].data);
        assert(template_of(f, e) is Some);
    }
}

/// What a splice changes, node by node: the list of children of `p`, the
/// parent links of the children that leave and of those that come, and
/// nothing else.
pub proof fn lemma_spliced_nodes(f: Forest, p: NodeId, from: int, to: int, kids: Seq<NodeId>)
    requires
        well_formed(f),
        adoptable(f, p, kids),
        0 <= from <= to <= f[p as int].children.len(),
    ensures
        ({
            let f2 = spliced(f, p, from, to, kids);
            &&& f2.len() == f.len()
            &&& f2[p as int].children == spliced_children(f[p as int].children, from, to, kids)
            &&& f2[p as int].parent == f[p as int].parent
            &&& forall|x: NodeId| x < f.len() ==> (#[trigger] f2[x as int]).data == f[x as int].data
            &&& forall|x: NodeId| x < f.len() && x != p ==> (#[trigger] f2[x as int]).children == f[x as int].children
            &&& forall|k: int| 0 <= k < kids.len() ==> f2[(#[trigger] kids[k]) as int].parent == Some(p)
            &&& forall|m: int| from <= m < to ==> f2[(#[trigger] f[p as int].children[m]) as int].parent is None
            &&& forall|x: NodeId|
                x < f.len() && x != p && !kids.contains(x) && !f[p as int].children.subrange(from, to).contains(x)
                    ==> #[trigger] f2[x as int] == f[x as int]
        }),
{
    let f2 = spliced(f, p, from, to, kids);
    let ch = f[p as int].children;
    let gone = ch.subrange(from, to);
    lemma_not_own_child(f, p);
    assert forall|k: int| 0 <= k < kids.len() implies f2[(#[trigger] kids[k]) as int].parent == Some(p) by {
        if kids[k] == p {
            crate::model_proofs::lemma_reaches_self(f, p);
        }
    }
    assert forall|m: int| from <= m < to implies f2[(#[trigger] ch[m]) as int].parent is None by {
        let c = ch[m];
        assert(gone[m - from] == c);
        assert(gone.contains(c));
        assert(ch.contains(c));
        assert(f[ch[m] as int].parent == Some(p));
        if kids.contains(c) {
            let k = choose|k: int| 0 <= k < kids.len() && kids[k] == c;
            assert(f[kids[k] as int].parent is None);
        }
    }
}

} // verus!
