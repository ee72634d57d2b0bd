//! Deep copies of subtrees.

use vstd::prelude::*;
use crate::dom::{Dom, NodeData, fresh_node};
use crate::rewrite::{TextRewrite, rewritten, lemma_keep_identity};
use crate::edit_model::{adoptable, spliced};
use crate::model::{NodeId, Forest, well_formed, edge, rank_of, ranked, subtree, shape, reaches, template_of};
use crate::model_proofs::{lemma_rank_of, lemma_subtree_fields, lemma_prefix_subtree, lemma_reaches_closed, lemma_reaches_valid, same_links};

verus! {

/// `f2` holds every node of `f1` unchanged, and maybe more nodes after them.
pub open spec fn extends(f1: Forest, f2: Forest) -> bool {
    &&& f1.len() <= f2.len()
    &&& forall|x: int| 0 <= x < f1.len() ==> #[trigger] f2[x] == f1[x]
}

/// No node at or above `lo` owns a node below `lo`.
pub open spec fn closed_above(f: Forest, lo: NodeId) -> bool {
    forall|u: NodeId, v: NodeId| u >= lo && #[trigger] edge(f, u, v) ==> v >= lo
}

/// A copy of a list of node ids.
fn copy_ids(v: &Vec<NodeId>) -> (out: Vec<NodeId>)
    ensures
        out@ == v@,
{
    let mut out: Vec<NodeId> = Vec::new();
    let mut i: usize = 0;
    while i < v.len()
        invariant
            i <= v.len(),
            out@ == v@.subrange(0, i as int),
        decreases v.len() - i,
    {
        out.push(v[i]);
        i += 1;
        assert(out@ =~= v@.subrange(0, i as int));
    }
    assert(v@.subrange(0, v.len() as int) =~= v@);
    out
}

impl Dom {
    /// Copies the subtree below `id`, which is a node of the forest `src` that
    /// the arena still holds unchanged.
    fn clone_subtree(&mut self, id: NodeId, rw: TextRewrite, Ghost(src): Ghost<Forest>) -> (copy: NodeId)
        requires
            old(self).wf(),
            well_formed(src),
            id < src.len(),
            extends(src, old(self)@),
        ensures
            final(self).wf(),
            extends(old(self)@, final(self)@),
            old(self)@.len() <= copy < final(self)@.len(),
            final(self)@[copy as int].parent is None,
            shape(subtree(final(self)@, copy)) == rewritten(rw, shape(subtree(src, id))),
            forall|u: NodeId, v: NodeId|
                u >= old(self)@.len() && #[trigger] edge(final(self)@, u, v) ==> v >= old(self)@.len(),
        decreases rank_of(src)[id as int],
    {
        let ghost f0 = self@;
        let n0 = self.len();
        proof {
            lemma_rank_of(src);
            lemma_subtree_fields(src, id);
            assert(f0[id as int] == src[id as int]);
        }
        // The template contents.
        let template: Option<NodeId> = match self.data(id) {
            NodeData::Element { template_contents: Some(t), .. } => Some(*t),
            _ => None,
        };
        let new_template: Option<NodeId> = match template {
            Some(t) => {
                proof {
                    assert(template_of(src, id) == Some(t));
                    assert(edge(src, id, t));
                }
                Some(self.clone_subtree(t, rw, Ghost(src)))
            },
            None => None,
        };
        let ghost f1 = self@;
        // The children.
        let kids = copy_ids(self.children(id));
        let mut copies: Vec<NodeId> = Vec::new();
        let mut k: usize = 0;
        while k < kids.len()
            invariant
                self.wf(),
                well_formed(src),
                ranked(src, rank_of(src)),
                id < src.len(),
                extends(src, self@),
                extends(f0, self@),
                extends(f1, self@),
                n0 == f0.len(),
                kids@ == src[id as int].children,
                k <= kids.len(),
                copies.len() == k,
                closed_above(self@, n0),
                match new_template {
                    Some(nt) => n0 <= nt < f1.len(),
                    None => true,
                },
                forall|j: int| 0 <= j < k ==> n0 <= #[trigger] copies@[j] < self@.len(),
                forall|j: int| 0 <= j < k ==> self@[(#[trigger] copies@[j]) as int].parent is None,
                forall|i: int, j: int| 0 <= i < j < k ==> copies@[i] < copies@[j],
                forall|j: int|
                    0 <= j < k ==> shape(subtree(self@, #[trigger] copies@[j])) == rewritten(
                        rw,
                        shape(subtree(src, kids@[j])),
                    ),
                match new_template {
                    Some(nt) => template_of(src, id) is Some && shape(subtree(f1, nt)) == rewritten(
                        rw,
                        shape(subtree(src, template_of(src, id)->0)),
                    ),
                    None => template_of(src, id) is None,
                },
            decreases kids.len() - k,
        {
            let c = kids[k];
            let ghost before = self@;
            proof {
                assert(src[id as int].children[k as int] == c);
                assert(edge(src, id, c));
            }
            let cc = self.clone_subtree(c, rw, Ghost(src));
            proof {
                let after = self@;
                assert forall|j: int| 0 <= j < k implies shape(subtree(after, #[trigger] copies@[j]))
                    == rewritten(rw, shape(subtree(src, kids@[j]))) by {
                    assert forall|x: NodeId| x < before.len() implies same_links(
                        before[x as int],
                        #[trigger] after[x as int],
                    ) by {}
                    lemma_prefix_subtree(before, after, copies@[j]);
                }
                assert forall|u: NodeId, v: NodeId| u >= n0 && #[trigger] edge(after, u, v) implies v
                    >= n0 by {
                    if u < before.len() {
                        assert(after[u as int] == before[u as int]);
                        assert(template_of(after, u) == template_of(before, u));
                        if before[u as int].children.contains(v) {
                            let i = choose|i: int|
                                0 <= i < before[u as int].children.len() && before[u as int].children[i]
                                    == v;
                            assert(before[u as int].children[i] < before.len());
                        } else {
                            assert(template_of(before, u) is Some);
                        }
                        assert(edge(before, u, v));
                    }
                }
            }
            copies.push(cc);
            k += 1;
        }
        let ghost f2 = self@;
        let data = self.data(id).rewritten_clone(new_template, rw);
        let node = self.create_node(data);
        let ghost f3 = self@;
        proof {
            assert(f3 == f2.push(fresh_node(data@)));
            assert forall|x: NodeId| x < f2.len() implies same_links(f2[x as int], #[trigger] f3[x as int]) by {}
            assert forall|j: int| 0 <= j < copies@.len() implies !reaches(f3, #[trigger] copies@[j], node) by {
                lemma_prefix_subtree(f2, f3, copies@[j]);
                if reaches(f3, copies@[j], node) {
                    lemma_reaches_valid(f2, copies@[j], node);
                }
            }
            assert(copies@.no_duplicates());
            assert forall|j: int| 0 <= j < copies@.len() implies f3[(#[trigger] copies@[j]) as int].parent is None by {
                assert(f3[copies@[j] as int] == f2[copies@[j] as int]);
            }
            assert(adoptable(f3, node, copies@));
        }
        self.splice_children(node, 0, 0, &copies);
        proof {
            let f4 = self@;
            assert(f4 == spliced(f3, node, 0, 0, copies@));
            assert(f3[node as int].children.subrange(0, 0) =~= Seq::<NodeId>::empty());
            assert(f4[node as int].children =~= copies@);
            assert(f4[node as int].data == data@);
            // The nodes that were there are untouched.
            assert forall|x: int| 0 <= x < f0.len() implies #[trigger] f4[x] == f0[x] by {
                assert(f2[x] == f0[x]);
                assert(f3[x] == f2[x]);
                if copies@.contains(x as usize) {
                    let j = choose|j: int| 0 <= j < copies@.len() && copies@[j] == x as usize;
                    assert(copies@[j] >= n0);
                }
            }
            // New nodes own only new nodes.
            assert forall|u: NodeId, v: NodeId| u >= n0 && #[trigger] edge(f4, u, v) implies v >= n0 by {
                if u == node {
                    if f4[u as int].children.contains(v) {
                        let j = choose|j: int| 0 <= j < copies@.len() && copies@[j] == v;
                        assert(copies@[j] >= n0);
                    } else {
                        assert(template_of(f4, u) == new_template);
                    }
                } else {
                    assert(f4[u as int].children == f3[u as int].children);
                    assert(f4[u as int].data == f3[u as int].data);
                    assert(f3[u as int] == f2[u as int]);
                    assert(template_of(f4, u) == template_of(f2, u));
                    if f2[u as int].children.contains(v) {
                        let i = choose|i: int|
                            0 <= i < f2[u as int].children.len() && f2[u as int].children[i] == v;
                        assert(f2[u as int].children[i] < f2.len());
                    } else {
                        assert(template_of(f2, u) is Some);
                    }
                    assert(edge(f2, u, v));
                }
            }
            // The copy has the shape of the original.
            lemma_subtree_fields(f4, node);
            let t4 = subtree(f4, node);
            let t0 = subtree(src, id);
            assert(src[id as int] == f2[id as int]);
            let goal = rewritten(rw, shape(t0));
            assert(shape(t4).data == goal.data);
            assert forall|x: NodeId| x < f2.len() implies same_links(f2[x as int], #[trigger] f4[x as int]) by {
                assert(f3[x as int] == f2[x as int]);
            }
            assert forall|j: int| 0 <= j < t4.children.len() implies shape(t4).children[j]
                == goal.children[j] by {
                lemma_prefix_subtree(f2, f4, copies@[j]);
                assert(t4.children[j] == subtree(f4, copies@[j]));
                assert(t0.children[j] == subtree(src, kids@[j]));
                assert(shape(t0).children[j] == shape(t0.children[j]));
            }
            assert(shape(t4).children =~= goal.children);
            match new_template {
                Some(nt) => {
                    assert forall|x: NodeId| x < f1.len() implies same_links(f1[x as int], #[trigger] f4[x as int]) by {
                        assert(f2[x as int] == f1[x as int]);
                        assert(f3[x as int] == f2[x as int]);
                    }
                    lemma_prefix_subtree(f1, f4, nt);
                    assert(template_of(f4, node) == Some(nt));
                },
                None => {
                    assert(template_of(f4, node) is None);
                    assert(template_of(src, id) is None);
                },
            }
            assert(shape(t4) == goal);
        }
        node
    }

    /// Clones the node and its entire subtree (including template contents).
    /// The copy is made of new nodes and has no parent.
    pub fn deep_clone(&mut self, id: NodeId) -> (copy: NodeId)
        requires
            old(self).wf(),
            id < old(self)@.len(),
        ensures
            final(self).wf(),
            extends(old(self)@, final(self)@),
            old(self)@.len() <= copy < final(self)@.len(),
            final(self)@[copy as int].parent is None,
            shape(subtree(final(self)@, copy)) == shape(subtree(old(self)@, id)),
            forall|x: NodeId| reaches(final(self)@, copy, x) ==> x >= old(self)@.len(),
    {
        let ghost src = self@;
        let copy = self.clone_subtree(id, TextRewrite::Keep, Ghost(src));
        proof {
            lemma_keep_identity(shape(subtree(src, id)));
            assert forall|x: NodeId| reaches(self@, copy, x) implies x >= src.len() by {
                lemma_reaches_closed(self@, copy, src.len() as usize, x);
            }
        }
        copy
    }

    /// Copies the subtree below node `id` of another arena (template
    /// contents included) into this arena. The copy is made of new nodes and
    /// has no parent.
    pub fn import_subtree(&mut self, other: &Dom, id: NodeId) -> (copy: NodeId)
        requires
            old(self).wf(),
            other.wf(),
            id < other@.len(),
        ensures
            final(self).wf(),
            extends(old(self)@, final(self)@),
            old(self)@.len() <= copy < final(self)@.len(),
            final(self)@[copy as int].parent is None,
            shape(subtree(final(self)@, copy)) == shape(subtree(other@, id)),
            forall|x: NodeId| reaches(final(self)@, copy, x) ==> x >= old(self)@.len(),
    {
        let ghost n0 = self@.len();
        let copy = self.import_rec(other, id, TextRewrite::Keep);
        proof {
            lemma_keep_identity(shape(subtree(other@, id)));
            assert forall|x: NodeId| reaches(self@, copy, x) implies x >= n0 by {
                lemma_reaches_closed(self@, copy, n0 as usize, x);
            }
        }
        copy
    }

    /// Copies the subtree below node `id` of another arena into this one.
    fn import_rec(&mut self, other: &Dom, id: NodeId, rw: TextRewrite) -> (copy: NodeId)
        requires
            old(self).wf(),
            other.wf(),
            id < other@.len(),
        ensures
            final(self).wf(),
            extends(old(self)@, final(self)@),
            old(self)@.len() <= copy < final(self)@.len(),
            final(self)@[copy as int].parent is None,
            shape(subtree(final(self)@, copy)) == rewritten(rw, shape(subtree(other@, id))),
            forall|u: NodeId, v: NodeId|
                u >= old(self)@.len() && #[trigger] edge(final(self)@, u, v) ==> v >= old(self)@.len(),
        decreases rank_of(other@)[id as int],
    {
        let ghost src = other@;
        let ghost f0 = self@;
        let n0 = self.len();
        proof {
            lemma_rank_of(src);
            lemma_subtree_fields(src, id);
        }
        // The template contents.
        let template: Option<NodeId> = match other.data(id) {
            NodeData::Element { template_contents: Some(t), .. } => Some(*t),
            _ => None,
        };
        let new_template: Option<NodeId> = match template {
            Some(t) => {
                proof {
                    assert(template_of(src, id) == Some(t));
                    assert(edge(src, id, t));
                }
                Some(self.import_rec(other, t, rw))
            },
            None => None,
        };
        let ghost f1 = self@;
        // The children.
        let kids = other.children(id);
        let mut copies: Vec<NodeId> = Vec::new();
        let mut k: usize = 0;
        while k < kids.len()
            invariant
                self.wf(),
                well_formed(src),
                src == other@,
                ranked(src, rank_of(src)),
                id < src.len(),
                extends(f0, self@),
                extends(f1, self@),
                n0 == f0.len(),
                kids@ == src[id as int].children,
                k <= kids.len(),
                copies.len() == k,
                closed_above(self@, n0),
                match new_template {
                    Some(nt) => n0 <= nt < f1.len(),
                    None => true,
                },
                forall|j: int| 0 <= j < k ==> n0 <= #[trigger] copies@[j] < self@.len(),
                forall|j: int| 0 <= j < k ==> self@[(#[trigger] copies@[j]) as int].parent is None,
                forall|i: int, j: int| 0 <= i < j < k ==> copies@[i] < copies@[j],
                forall|j: int|
                    0 <= j < k ==> shape(subtree(self@, #[trigger] copies@[j])) == rewritten(
                        rw,
                        shape(subtree(src, kids@[j])),
                    ),
                match new_template {
                    Some(nt) => template_of(src, id) is Some && shape(subtree(f1, nt)) == rewritten(
                        rw,
                        shape(subtree(src, template_of(src, id)->0)),
                    ),
                    None => template_of(src, id) is None,
                },
            decreases kids.len() - k,
        {
            let c = kids[k];
            let ghost before = self@;
            proof {
                assert(src[id as int].children[k as int] == c);
                assert(edge(src, id, c));
            }
            let cc = self.import_rec(other, c, rw);
            proof {
                let after = self@;
                assert forall|j: int| 0 <= j < k implies shape(subtree(after, #[trigger] copies@[j]))
                    == rewritten(rw, shape(subtree(src, kids@[j]))) by {
                    assert forall|x: NodeId| x < before.len() implies same_links(
                        before[x as int],
                        #[trigger] after[x as int],
                    ) by {}
                    lemma_prefix_subtree(before, after, copies@[j]);
                }
                assert forall|u: NodeId, v: NodeId| u >= n0 && #[trigger] edge(after, u, v) implies v
                    >= n0 by {
                    if u < before.len() {
                        assert(after[u as int] == before[u as int]);
                        assert(template_of(after, u) == template_of(before, u));
                        if before[u as int].children.contains(v) {
                            let i = choose|i: int|
                                0 <= i < before[u as int].children.len() && before[u as int].children[i]
                                    == v;
                            assert(before[u as int].children[i] < before.len());
                        } else {
                            assert(template_of(before, u) is Some);
                        }
                        assert(edge(before, u, v));
                    }
                }
            }
            copies.push(cc);
            k += 1;
        }
        let ghost f2 = self@;
        let data = other.data(id).rewritten_clone(new_template, rw);
        let node = self.create_node(data);
        let ghost f3 = self@;
        proof {
            assert(f3 == f2.push(fresh_node(data@)));
            assert forall|x: NodeId| x < f2.len() implies same_links(f2[x as int], #[trigger] f3[x as int]) by {}
            assert forall|j: int| 0 <= j < copies@.len() implies !reaches(f3, #[trigger] copies@[j], node) by {
                lemma_prefix_subtree(f2, f3, copies@[j]);
                if reaches(f3, copies@[j], node) {
                    lemma_reaches_valid(f2, copies@[j], node);
                }
            }
            assert(copies@.no_duplicates());
            assert forall|j: int| 0 <= j < copies@.len() implies f3[(#[trigger] copies@[j]) as int].parent is None by {
                assert(f3[copies@[j] as int] == f2[copies@[j] as int]);
            }
            assert(adoptable(f3, node, copies@));
        }
        self.splice_children(node, 0, 0, &copies);
        proof {
            let f4 = self@;
            assert(f4 == spliced(f3, node, 0, 0, copies@));
            assert(f3[node as int].children.subrange(0, 0) =~= Seq::<NodeId>::empty());
            assert(f4[node as int].children =~= copies@);
            assert(f4[node as int].data == data@);
            // The nodes that were there are untouched.
            assert forall|x: int| 0 <= x < f0.len() implies #[trigger] f4[x] == f0[x] by {
                assert(f2[x] == f0[x]);
                assert(f3[x] == f2[x]);
                if copies@.contains(x as usize) {
                    let j = choose|j: int| 0 <= j < copies@.len() && copies@[j] == x as usize;
                    assert(copies@[j] >= n0);
                }
            }
            // New nodes own only new nodes.
            assert forall|u: NodeId, v: NodeId| u >= n0 && #[trigger] edge(f4, u, v) implies v >= n0 by {
                if u == node {
                    if f4[u as int].children.contains(v) {
                        let j = choose|j: int| 0 <= j < copies@.len() && copies@[j] == v;
                        assert(copies@[j] >= n0);
                    } else {
                        assert(template_of(f4, u) == new_template);
                    }
                } else {
                    assert(f4[u as int].children == f3[u as int].children);
                    assert(f4[u as int].data == f3[u as int].data);
                    assert(f3[u as int] == f2[u as int]);
                    assert(template_of(f4, u) == template_of(f2, u));
                    if f2[u as int].children.contains(v) {
                        let i = choose|i: int|
                            0 <= i < f2[u as int].children.len() && f2[u as int].children[i] == v;
                        assert(f2[u as int].children[i] < f2.len());
                    } else {
                        assert(template_of(f2, u) is Some);
                    }
                    assert(edge(f2, u, v));
                }
            }
            // The copy has the shape of the original.
            lemma_subtree_fields(f4, node);
            let t4 = subtree(f4, node);
            let t0 = subtree(src, id);
            let goal = rewritten(rw, shape(t0));
            assert(shape(t4).data == goal.data);
            assert forall|x: NodeId| x < f2.len() implies same_links(f2[x as int], #[trigger] f4[x as int]) by {
                assert(f3[x as int] == f2[x as int]);
            }
            assert forall|j: int| 0 <= j < t4.children.len() implies shape(t4).children[j]
                == goal.children[j] by {
                lemma_prefix_subtree(f2, f4, copies@[j]);
                assert(t4.children[j] == subtree(f4, copies@[j]));
                assert(t0.children[j] == subtree(src, kids@[j]));
                assert(shape(t0).children[j] == shape(t0.children[j]));
            }
            assert(shape(t4).children =~= goal.children);
            match new_template {
                Some(nt) => {
                    assert forall|x: NodeId| x < f1.len() implies same_links(f1[x as int], #[trigger] f4[x as int]) by {
                        assert(f2[x as int] == f1[x as int]);
                        assert(f3[x as int] == f2[x as int]);
                    }
                    lemma_prefix_subtree(f1, f4, nt);
                    assert(template_of(f4, node) == Some(nt));
                },
                None => {
                    assert(template_of(f4, node) is None);
                    assert(template_of(src, id) is None);
                },
            }
            assert(shape(t4) == goal);
        }
        node
    }

    /// Clones the node and its entire subtree (including template contents),
    /// rewriting the text of every text node of the copy. The copy is made of
    /// new nodes and has no parent.
    pub fn deep_clone_rewritten(&mut self, id: NodeId, rw: TextRewrite) -> (copy: NodeId)
        requires
            old(self).wf(),
            id < old(self)@.len(),
        ensures
            final(self).wf(),
            extends(old(self)@, final(self)@),
            old(self)@.len() <= copy < final(self)@.len(),
            final(self)@[copy as int].parent is None,
            shape(subtree(final(self)@, copy)) == rewritten(rw, shape(subtree(old(self)@, id))),
            forall|x: NodeId| reaches(final(self)@, copy, x) ==> x >= old(self)@.len(),
    {
        let ghost src = self@;
        let copy = self.clone_subtree(id, rw, Ghost(src));
        proof {
            assert forall|x: NodeId| reaches(self@, copy, x) implies x >= src.len() by {
                lemma_reaches_closed(self@, copy, src.len() as usize, x);
            }
        }
        copy
    }
}

} // verus!
