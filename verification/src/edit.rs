//! Structural edits: append, prepend, insert, replace and remove. Each hands
//! nodes to a new parent or takes a node from its parent, and each keeps the
//! links of the whole arena consistent.

use vstd::prelude::*;
use crate::dom::Dom;
use crate::model::{NodeId, NodeView, Forest};
use crate::edit_model::{adoptable, spliced, spliced_children, lemma_splice_wf, lemma_not_own_child, lemma_spliced_nodes};
use crate::model_proofs::lemma_reaches_self;

verus! {

/// The list `v` with `kids` in the place of the slots `from..to`.
pub fn splice_ids(v: &Vec<NodeId>, from: usize, to: usize, kids: &Vec<NodeId>) -> (out: Vec<NodeId>)
    requires
        from <= to <= v.len(),
    ensures
        out@ == spliced_children(v@, from as int, to as int, kids@),
{
    let mut out: Vec<NodeId> = Vec::new();
    let mut i: usize = 0;
    while i < from
        invariant
            i <= from <= v.len(),
            out@ == v@.subrange(0, i as int),
        decreases from - i,
    {
        out.push(v[i]);
        i += 1;
        assert(out@ =~= v@.subrange(0, i as int));
    }
    let mut k: usize = 0;
    while k < kids.len()
        invariant
            k <= kids.len(),
            out@ == v@.subrange(0, from as int) + kids@.subrange(0, k as int),
        decreases kids.len() - k,
    {
        out.push(kids[k]);
        k += 1;
        assert(out@ =~= v@.subrange(0, from as int) + kids@.subrange(0, k as int));
    }
    assert(kids@.subrange(0, kids.len() as int) =~= kids@);
    let mut j: usize = to;
    while j < v.len()
        invariant
            to <= j <= v.len(),
            out@ == v@.subrange(0, from as int) + kids@ + v@.subrange(to as int, j as int),
        decreases v.len() - j,
    {
        out.push(v[j]);
        j += 1;
        assert(out@ =~= v@.subrange(0, from as int) + kids@ + v@.subrange(to as int, j as int));
    }
    out
}

/// The slot of `c` in the list of children of `p`.
pub open spec fn slot_of(f: Forest, p: NodeId, c: NodeId) -> int {
    f[p as int].children.index_of(c)
}

/// The forest after node `id` has left its parent and `kids` have taken its
/// place; the forest as it is where `id` has no parent.
pub open spec fn replaced(f: Forest, id: NodeId, kids: Seq<NodeId>) -> Forest {
    match f[id as int].parent {
        Some(p) => spliced(f, p, slot_of(f, p, id), slot_of(f, p, id) + 1, kids),
        None => f,
    }
}

/// Where `c` stands in `v`, or the length of `v` if it is not there.
pub fn position(v: &Vec<NodeId>, c: NodeId) -> (i: usize)
    ensures
        i <= v.len(),
        i < v.len() <==> v@.contains(c),
        i < v.len() ==> v@[i as int] == c,
        forall|j: int| 0 <= j < i ==> v@[j] != c,
{
    let mut i: usize = 0;
    while i < v.len()
        invariant
            i <= v.len(),
            forall|j: int| 0 <= j < i ==> v@[j] != c,
        decreases v.len() - i,
    {
        if v[i] == c {
            return i;
        }
        i += 1;
    }
    i
}

impl Dom {
    /// Replaces the children `from..to` of `p` by `kids`.
    pub(crate) fn splice_children(&mut self, p: NodeId, from: usize, to: usize, kids: &Vec<NodeId>)
        requires
            old(self).wf(),
            adoptable(old(self)@, p, kids@),
            from <= to <= old(self)@[p as int].children.len(),
        ensures
            final(self).wf(),
            final(self)@ == spliced(old(self)@, p, from as int, to as int, kids@),
    {
        let ghost f = self@;
        let ghost ch = f[p as int].children;
        let ghost gone = ch.subrange(from as int, to as int);
        proof {
            lemma_splice_wf(f, p, from as int, to as int, kids@);
            lemma_not_own_child(f, p);
            assert forall|k: int| 0 <= k < kids@.len() implies !ch.contains(#[trigger] kids@[k])
                && kids@[k] != p by {
                if ch.contains(kids@[k]) {
                    let m = choose|m: int| 0 <= m < ch.len() && ch[m] == kids@[k];
                    assert(f[ch[m] as int].parent == Some(p));
                }
                if kids@[k] == p {
                    lemma_reaches_self(f, p);
                }
            }
            assert forall|x: NodeId| gone.contains(x) implies ch.contains(x) && !kids@.contains(x)
                && x != p && x < f.len() by {
                let m = choose|m: int| 0 <= m < gone.len() && gone[m] == x;
                assert(ch[from + m] == x);
                if kids@.contains(x) {
                    let k = choose|k: int| 0 <= k < kids@.len() && kids@[k] == x;
                    assert(!ch.contains(kids@[k]));
                }
            }
        }
        let new_children = splice_ids(self.children(p), from, to, kids);
        let n = self.len();
        let mut m: usize = from;
        while m < to
            invariant
                from <= m <= to <= ch.len(),
                p < f.len(),
                self@.len() == f.len(),
                ch == f[p as int].children,
                gone == ch.subrange(from as int, to as int),
                forall|x: NodeId| gone.contains(x) ==> x != p && x < f.len(),
                forall|x: NodeId|
                    x < f.len() ==> #[trigger] self@[x as int] == if ch.subrange(
                        from as int,
                        m as int,
                    ).contains(x) {
                        NodeView { parent: None, children: f[x as int].children, data: f[x as int].data }
                    } else {
                        f[x as int]
                    },
            decreases to - m,
        {
            assert(self@[p as int] == f[p as int]) by {
                if ch.subrange(from as int, m as int).contains(p) {
                    let i = choose|i: int| 0 <= i < m - from && ch.subrange(from as int, m as int)[i] == p;
                    assert(gone[i] == p);
                    assert(gone.contains(p));
                }
            }
            let c = self.children(p)[m];
            assert(gone[m - from] == c);
            assert(gone.contains(c));
            self.set_parent(c, None);
            proof {
                let s0 = ch.subrange(from as int, m as int);
                let s1 = ch.subrange(from as int, m + 1);
                assert(s1 =~= s0.push(c));
                assert forall|x: NodeId| x < f.len() implies #[trigger] self@[x as int] == if s1.contains(
                    x,
                ) {
                    NodeView { parent: None, children: f[x as int].children, data: f[x as int].data }
                } else {
                    f[x as int]
                } by {
                    if s0.contains(x) {
                        let i = choose|i: int| 0 <= i < s0.len() && s0[i] == x;
                        assert(s1[i] == x);
                    }
                    if x == c {
                        assert(s1[m - from] == c);
                    }
                    if s1.contains(x) && x != c {
                        let i = choose|i: int| 0 <= i < s1.len() && s1[i] == x;
                        assert(s0[i] == x);
                    }
                }
            }
            m += 1;
        }
        self.set_children(p, new_children);
        let ghost mid = self@;
        let mut k: usize = 0;
        while k < kids.len()
            invariant
                k <= kids.len(),
                self@.len() == f.len(),
                mid.len() == f.len(),
                n == f.len(),
                forall|j: int| 0 <= j < kids@.len() ==> (#[trigger] kids@[j]) < f.len(),
                forall|x: NodeId|
                    x < f.len() ==> #[trigger] self@[x as int] == if kids@.subrange(0, k as int).contains(
                        x,
                    ) {
                        NodeView { parent: Some(p), children: mid[x as int].children, data: mid[x as int].data }
                    } else {
                        mid[x as int]
                    },
            decreases kids.len() - k,
        {
            let c = kids[k];
            self.set_parent(c, Some(p));
            proof {
                let s0 = kids@.subrange(0, k as int);
                let s1 = kids@.subrange(0, k + 1);
                assert(s1 =~= s0.push(c));
                assert forall|x: NodeId| x < f.len() implies #[trigger] self@[x as int] == if s1.contains(
                    x,
                ) {
                    NodeView { parent: Some(p), children: mid[x as int].children, data: mid[x as int].data }
                } else {
                    mid[x as int]
                } by {
                    if s0.contains(x) {
                        let i = choose|i: int| 0 <= i < s0.len() && s0[i] == x;
                        assert(s1[i] == x);
                    }
                    if x == c {
                        assert(s1[k as int] == c);
                    }
                    if s1.contains(x) && x != c {
                        let i = choose|i: int| 0 <= i < s1.len() && s1[i] == x;
                        assert(s0[i] == x);
                    }
                }
            }
            k += 1;
        }
        proof {
            assert(kids@.subrange(0, kids@.len() as int) =~= kids@);
            assert(ch.subrange(from as int, to as int) == gone);
            let goal = spliced(f, p, from as int, to as int, kids@);
            assert forall|i: int| 0 <= i < f.len() implies self@[i] == goal[i] by {
                let x = i as usize;
                assert(i < n);
                assert(x as int == i);
                assert(self@[x as int] == self@[i]);
                if x == p {
                    assert(!kids@.contains(p));
                    assert(!gone.contains(p));
                } else if kids@.contains(x) {
                    assert(!gone.contains(x));
                } else {
                }
            }
            assert(self@ =~= goal);
        }
    }

    /// Appends children to the end of the children of `id`, in order, making
    /// `id` the parent of each.
    pub fn append_children(&mut self, id: NodeId, children: Vec<NodeId>)
        requires
            old(self).wf(),
            adoptable(old(self)@, id, children@),
        ensures
            final(self).wf(),
            final(self)@ == spliced(
                old(self)@,
                id,
                old(self)@[id as int].children.len() as int,
                old(self)@[id as int].children.len() as int,
                children@,
            ),
            final(self)@.len() == old(self)@.len(),
            final(self)@[id as int].children == old(self)@[id as int].children + children@,
            forall|k: int| 0 <= k < children@.len() ==> final(self)@[(#[trigger] children@[k]) as int].parent == Some(id),
            forall|x: NodeId|
                x < old(self)@.len() && x != id && !children@.contains(x) ==> #[trigger] final(self)@[x as int]
                    == old(self)@[x as int],
    {
        let n = self.children(id).len();
        proof {
            lemma_spliced_nodes(self@, id, n as int, n as int, children@);
            let ch = self@[id as int].children;
            assert(spliced_children(ch, n as int, n as int, children@) =~= ch + children@);
            assert(ch.subrange(n as int, n as int) =~= Seq::<NodeId>::empty());
        }
        self.splice_children(id, n, n, &children);
    }

    /// Prepends a single child to the node's children.
    pub fn prepend_child(&mut self, id: NodeId, child: NodeId)
        requires
            old(self).wf(),
            adoptable(old(self)@, id, seq![child]),
        ensures
            final(self).wf(),
            final(self)@ == spliced(old(self)@, id, 0, 0, seq![child]),
            final(self)@.len() == old(self)@.len(),
            final(self)@[id as int].children == seq![child] + old(self)@[id as int].children,
            final(self)@[child as int].parent == Some(id),
            forall|x: NodeId|
                x < old(self)@.len() && x != id && x != child ==> #[trigger] final(self)@[x as int] == old(self)@[x as int],
    {
        let mut kids: Vec<NodeId> = Vec::new();
        kids.push(child);
        assert(kids@ =~= seq![child]);
        proof {
            lemma_spliced_nodes(self@, id, 0, 0, seq![child]);
            let ch = self@[id as int].children;
            assert(spliced_children(ch, 0, 0, seq![child]) =~= seq![child] + ch);
            assert(ch.subrange(0, 0) =~= Seq::<NodeId>::empty());
            assert(seq![child][0] == child);
            assert forall|x: NodeId| x != child implies !seq![child].contains(x) by {}
        }
        self.splice_children(id, 0, 0, &kids);
    }

    /// Inserts children before the specified child of `id`, which must be
    /// among its children.
    pub fn insert_children_before(&mut self, id: NodeId, existing: NodeId, new: Vec<NodeId>)
        requires
            old(self).wf(),
            adoptable(old(self)@, id, new@),
            old(self)@[id as int].children.contains(existing),
        ensures
            final(self).wf(),
            final(self)@ == spliced(
                old(self)@,
                id,
                slot_of(old(self)@, id, existing),
                slot_of(old(self)@, id, existing),
                new@,
            ),
            final(self)@.len() == old(self)@.len(),
            final(self)@[id as int].children == old(self)@[id as int].children.subrange(
                0,
                slot_of(old(self)@, id, existing),
            ) + new@ + old(self)@[id as int].children.subrange(
                slot_of(old(self)@, id, existing),
                old(self)@[id as int].children.len() as int,
            ),
            forall|k: int| 0 <= k < new@.len() ==> final(self)@[(#[trigger] new@[k]) as int].parent == Some(id),
            forall|x: NodeId|
                x < old(self)@.len() && x != id && !new@.contains(x) ==> #[trigger] final(self)@[x as int] == old(self)@[x as int],
    {
        let i = position(self.children(id), existing);
        proof {
            let ch = self@[id as int].children;
            assert(ch.no_duplicates());
            let s = ch.index_of(existing);
            assert(ch[s] == existing && 0 <= s < ch.len());
            lemma_spliced_nodes(self@, id, i as int, i as int, new@);
            assert(ch.subrange(i as int, i as int) =~= Seq::<NodeId>::empty());
        }
        self.splice_children(id, i, i, &new);
    }

    /// Removes the node from its parent and replaces it with the nodes
    /// provided. Does nothing if the node has no parent.
    pub fn replace_with(&mut self, id: NodeId, replacements: Vec<NodeId>)
        requires
            old(self).wf(),
            id < old(self)@.len(),
            match old(self)@[id as int].parent {
                Some(p) => adoptable(old(self)@, p, replacements@),
                None => true,
            },
        ensures
            final(self).wf(),
            final(self)@ == replaced(old(self)@, id, replacements@),
            final(self)@.len() == old(self)@.len(),
            match old(self)@[id as int].parent {
                Some(p) => {
                    &&& final(self)@[id as int].parent is None
                    &&& final(self)@[p as int].children == spliced_children(
                        old(self)@[p as int].children,
                        slot_of(old(self)@, p, id),
                        slot_of(old(self)@, p, id) + 1,
                        replacements@,
                    )
                    &&& forall|k: int|
                        0 <= k < replacements@.len() ==> final(self)@[(#[trigger] replacements@[k]) as int].parent
                            == Some(p)
                },
                None => final(self)@ == old(self)@,
            },
    {
        match self.parent_node(id) {
            Some(p) => {
                let i = position(self.children(p), id);
                proof {
                    let ch = self@[p as int].children;
                    assert(self@[id as int].parent is Some);
                    assert(ch.contains(id));
                    assert(ch.no_duplicates());
                    let s = ch.index_of(id);
                    assert(ch[s] == id && 0 <= s < ch.len());
                    lemma_spliced_nodes(self@, p, i as int, i + 1, replacements@);
                    assert(self@[p as int].children[i as int] == id);
                }
                self.splice_children(p, i, i + 1, &replacements);
            },
            None => {},
        }
    }

    /// Removes the node from its parent.
    pub fn remove(&mut self, id: NodeId)
        requires
            old(self).wf(),
            id < old(self)@.len(),
        ensures
            final(self).wf(),
            final(self)@ == replaced(old(self)@, id, Seq::empty()),
            final(self)@.len() == old(self)@.len(),
            final(self)@[id as int].parent is None,
            match old(self)@[id as int].parent {
                Some(p) => final(self)@[p as int].children == old(self)@[p as int].children.remove(
                    slot_of(old(self)@, p, id),
                ),
                None => final(self)@ == old(self)@,
            },
    {
        proof {
            if self@[id as int].parent is Some {
                let p = self@[id as int].parent->0;
                assert(p < self@.len());
                let ch = self@[p as int].children;
                assert(ch.contains(id));
                let s = ch.index_of(id);
                assert(0 <= s < ch.len());
                assert(spliced_children(ch, s, s + 1, Seq::empty()) =~= ch.remove(s));
            }
        }
        self.replace_with(id, Vec::new());
    }
}

} // verus!
