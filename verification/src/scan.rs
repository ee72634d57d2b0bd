//! Walks over a subtree: the preorder scan, the text of a subtree, and the
//! test whether a node lies in the subtree of another.

use vstd::prelude::*;
use vstd::string::StringExecFns;
use crate::dom::{Dom, NodeData};
use crate::edit::position;
use crate::edit_model::adoptable;
use crate::model::{NodeId, edge, rank_of, ranked, subtree, tree_ids, children_ids, preorder, reaches, template_of, texts, own_text, text_content};
use crate::model_proofs::{lemma_rank_of, lemma_subtree_fields};

verus! {

/// Appends the preorder walk from `id` to `out`.
fn scan_into(dom: &Dom, id: NodeId, out: &mut Vec<NodeId>)
    requires
        dom.wf(),
        id < dom@.len(),
    ensures
        final(out)@ == old(out)@ + preorder(dom@, id),
    decreases rank_of(dom@)[id as int],
{
    let ghost f = dom@;
    let ghost t = subtree(f, id);
    let ghost start = out@;
    proof {
        lemma_subtree_fields(f, id);
        lemma_rank_of(f);
    }
    out.push(id);
    let children = dom.children(id);
    let mut k: usize = 0;
    while k < children.len()
        invariant
            dom.wf(),
            f == dom@,
            id < f.len(),
            t == subtree(f, id),
            children@ == f[id as int].children,
            k <= children.len(),
            ranked(f, rank_of(f)),
            out@ + children_ids(t, k as nat) == start + seq![id] + children_ids(t, 0),
        decreases children.len() - k,
    {
        let c = children[k];
        let ghost before = out@;
        proof {
            assert(f[id as int].children[k as int] == c);
            assert(edge(f, id, c));
            lemma_subtree_fields(f, id);
            assert(t.children[k as int] == subtree(f, c));
        }
        scan_into(dom, c, out);
        proof {
            assert(children_ids(t, k as nat) == tree_ids(t.children[k as int]) + children_ids(
                t,
                (k + 1) as nat,
            ));
            assert(out@ + children_ids(t, (k + 1) as nat) =~= before + children_ids(t, k as nat));
        }
        k += 1;
    }
    proof {
        assert(children_ids(t, k as nat) =~= Seq::<NodeId>::empty());
        assert(out@ =~= start + seq![id] + children_ids(t, 0));
    }
    match dom.data(id) {
        NodeData::Element { template_contents: Some(tc), .. } => {
            proof {
                assert(template_of(f, id) == Some(*tc));
                assert(edge(f, id, *tc));
            }
            scan_into(dom, *tc, out);
            assert(out@ =~= start + preorder(f, id));
        },
        _ => {
            assert(template_of(f, id) is None);
            assert(out@ =~= start + preorder(f, id));
        },
    }
}


/// Visits every node of the subtree below `id` in preorder: a node, then its
/// children in order, then its template contents. Returns the nodes in the
/// order of the visit.
pub fn scan_dom(dom: &Dom, id: NodeId) -> (order: Vec<NodeId>)
    requires
        dom.wf(),
        id < dom@.len(),
    ensures
        order@ == preorder(dom@, id),
{
    let mut out: Vec<NodeId> = Vec::new();
    scan_into(dom, id, &mut out);
    assert(out@ =~= preorder(dom@, id));
    out
}

impl Dom {
    /// Whether `node` lies in the subtree of `root`, `root` itself included.
    pub fn subtree_contains(&self, root: NodeId, node: NodeId) -> (yes: bool)
        requires
            self.wf(),
            root < self@.len(),
        ensures
            yes == reaches(self@, root, node),
    {
        let order = scan_dom(self, root);
        position(&order, node) < order.len()
    }

    /// Whether `children` can be handed to `id` as new children: every one
    /// is a node without a parent, none is named twice, and `id` lies in the
    /// subtree of none of them.
    pub fn can_adopt(&self, id: NodeId, children: &Vec<NodeId>) -> (yes: bool)
        requires
            self.wf(),
        ensures
            yes == adoptable(self@, id, children@),
    {
        if id >= self.len() {
            return false;
        }
        let mut k: usize = 0;
        while k < children.len()
            invariant
                self.wf(),
                id < self@.len(),
                k <= children.len(),
                adoptable(self@, id, children@.subrange(0, k as int)),
            decreases children.len() - k,
        {
            let c = children[k];
            let ghost prev = children@.subrange(0, k as int);
            let ghost next = children@.subrange(0, k + 1);
            if c >= self.len() {
                assert(next[k as int] == c);
                assert(!adoptable(self@, id, children@)) by {
                    assert(children@[k as int] == c);
                }
                return false;
            }
            let first = position(children, c);
            let bad = self.parent_node(c).is_some() || first < k || self.subtree_contains(c, id);
            if bad {
                proof {
                    if adoptable(self@, id, children@) {
                        assert(children@[k as int] == c);
                        if first < k {
                            assert(children@[first as int] == children@[k as int] && first != k);
                        }
                        assert(false);
                    }
                }
                return false;
            }
            proof {
                assert(next =~= prev.push(c));
                assert forall|i: int, j: int| 0 <= i < next.len() && 0 <= j < next.len() && i != j implies next[i]
                    != next[j] by {
                    assert(next[i] == children@[i] && next[j] == children@[j]);
                    if i < k && j < k {
                        assert(prev[i] != prev[j]);
                    } else if i < k {
                        assert(children@[i] != c);
                    } else {
                        assert(children@[j] != c);
                    }
                }
            }
            k += 1;
        }
        assert(children@.subrange(0, k as int) =~= children@);
        true
    }

    /// Concatenate the text of the node and its descendants.
    pub fn text_content(&self, id: NodeId) -> (text: String)
        requires
            self.wf(),
            id < self@.len(),
        ensures
            text@ == text_content(self@, id),
    {
        let order = scan_dom(self, id);
        let mut text = String::new();
        let mut k: usize = 0;
        proof {
            assert forall|j: int| 0 <= j < order@.len() implies order@[j] < self@.len() by {
                assert(reaches(self@, id, order@[j]));
                crate::model_proofs::lemma_reaches_valid(self@, id, order@[j]);
            }
        }
        while k < order.len()
            invariant
                k <= order.len(),
                forall|j: int| 0 <= j < order@.len() ==> order@[j] < self@.len(),
                text@ == texts(self@, order@.subrange(0, k as int)),
            decreases order.len() - k,
        {
            let ghost next = order@.subrange(0, k + 1);
            proof {
                assert(next.drop_last() =~= order@.subrange(0, k as int));
                assert(next.last() == order@[k as int]);
            }
            match self.data(order[k]) {
                NodeData::Text { contents } => {
                    text.append(contents.as_str());
                },
                _ => {
                    assert(text@ + own_text(self@, order@[k as int]) =~= text@);
                },
            }
            k += 1;
        }
        assert(order@.subrange(0, k as int) =~= order@);
        text
    }
}

} // verus!
