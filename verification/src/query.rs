//! Read-only questions about nodes that the passes ask.

use vstd::prelude::*;
use crate::dom::{Dom, is_html, is_element_node, has_class_token};
use crate::model::{NodeId, Forest};

verus! {

/// The heading level that node `id` declares: 1 to 6 for the HTML elements
/// `h1` to `h6`, nothing for any other node.
pub open spec fn heading_level_of(f: Forest, id: NodeId) -> Option<u8> {
    if is_html(f, id, "h1"@) {
        Some(1u8)
    } else if is_html(f, id, "h2"@) {
        Some(2u8)
    } else if is_html(f, id, "h3"@) {
        Some(3u8)
    } else if is_html(f, id, "h4"@) {
        Some(4u8)
    } else if is_html(f, id, "h5"@) {
        Some(5u8)
    } else if is_html(f, id, "h6"@) {
        Some(6u8)
    } else {
        None
    }
}

/// Returns the heading level (from 1 to 6) that the <h1> through <h6>
/// declares, or None for all other nodes.
pub fn heading_level(dom: &Dom, node: NodeId) -> (level: Option<u8>)
    requires
        node < dom@.len(),
    ensures
        level == heading_level_of(dom@, node),
{
    if dom.is_html_element(node, "h1") {
        Some(1)
    } else if dom.is_html_element(node, "h2") {
        Some(2)
    } else if dom.is_html_element(node, "h3") {
        Some(3)
    } else if dom.is_html_element(node, "h4") {
        Some(4)
    } else if dom.is_html_element(node, "h5") {
        Some(5)
    } else if dom.is_html_element(node, "h6") {
        Some(6)
    } else {
        None
    }
}

/// The elements among `ch[k..]`, in order.
pub open spec fn elements_from(f: Forest, ch: Seq<NodeId>, k: int) -> Seq<NodeId>
    decreases ch.len() - k,
{
    if k < 0 || k >= ch.len() {
        Seq::empty()
    } else if is_element_node(f, ch[k]) {
        seq![ch[k]] + elements_from(f, ch, k + 1)
    } else {
        elements_from(f, ch, k + 1)
    }
}

/// `s` without its leading nodes other than `x`.
pub open spec fn skip_until(s: Seq<NodeId>, x: NodeId) -> Seq<NodeId>
    decreases s.len(),
{
    if s.len() > 0 && s[0] != x {
        skip_until(s.drop_first(), x)
    } else {
        s
    }
}

/// `s` without its leading HTML elements named `tag`.
pub open spec fn skip_html(f: Forest, s: Seq<NodeId>, tag: Seq<char>) -> Seq<NodeId>
    decreases s.len(),
{
    if s.len() > 0 && is_html(f, s[0], tag) {
        skip_html(f, s.drop_first(), tag)
    } else {
        s
    }
}

/// The leading HTML elements named `tag` of `s`.
pub open spec fn take_html(f: Forest, s: Seq<NodeId>, tag: Seq<char>) -> Seq<NodeId>
    decreases s.len(),
{
    if s.len() > 0 && is_html(f, s[0], tag) {
        seq![s[0]] + take_html(f, s.drop_first(), tag)
    } else {
        Seq::empty()
    }
}

/// The `dd` elements that describe the term `dt`: among the element children
/// of the `dl` that holds `dt`, the run of `dd` that follows the run of `dt`
/// in which `dt` stands. Nothing where the parent of `dt` is no `dl`.
pub open spec fn descriptions(f: Forest, dt: NodeId) -> Seq<NodeId> {
    match f[dt as int].parent {
        Some(dl) => if is_html(f, dl, "dl"@) {
            take_html(
                f,
                skip_html(f, skip_until(elements_from(f, f[dl as int].children, 0), dt), "dt"@),
                "dd"@,
            )
        } else {
            Seq::empty()
        },
        None => Seq::empty(),
    }
}

/// What is still to come for the result when the walk over the element
/// children has reached `s`: in phase 0 the term has not been seen, in phase 1
/// the run of terms is being passed, in phase 2 descriptions are being taken.
pub open spec fn pending(f: Forest, phase: int, s: Seq<NodeId>, dt: NodeId) -> Seq<NodeId> {
    if phase == 0 {
        take_html(f, skip_html(f, skip_until(s, dt), "dt"@), "dd"@)
    } else if phase == 1 {
        take_html(f, skip_html(f, s, "dt"@), "dd"@)
    } else if phase == 2 {
        take_html(f, s, "dd"@)
    } else {
        Seq::empty()
    }
}

/// Given a <dt> element, find the corresponding <dd> elements.
///
/// There can be multiple <dt> listing various terms with one or more common
/// <dd> definitions: the <dt> is found in the child list, it and any other
/// <dt> are passed over, and the <dd> that follow are the result.
pub fn dt_descriptions(dom: &Dom, dt: NodeId) -> (out: Vec<NodeId>)
    requires
        dom.wf(),
        dt < dom@.len(),
        is_html(dom@, dt, "dt"@),
    ensures
        out@ == descriptions(dom@, dt),
{
    let mut out: Vec<NodeId> = Vec::new();
    let dl = match dom.parent_node(dt) {
        Some(p) => p,
        None => {
            return out;
        },
    };
    if !dom.is_html_element(dl, "dl") {
        return out;
    }
    let children = dom.children(dl);
    let ghost f = dom@;
    let ghost ch = children@;
    let mut phase: u8 = 0;
    let mut k: usize = 0;
    while k < children.len() && phase < 3
        invariant
            dom.wf(),
            f == dom@,
            ch == children@,
            ch == f[dl as int].children,
            dl < f.len(),
            dt < f.len(),
            is_html(f, dt, "dt"@),
            k <= children.len(),
            phase <= 3,
            descriptions(f, dt) == out@ + pending(f, phase as int, elements_from(f, ch, k as int), dt),
        decreases children.len() - k,
    {
        let c = children[k];
        let ghost s = elements_from(f, ch, k as int);
        let ghost rest = elements_from(f, ch, k + 1);
        assert(ch[k as int] < f.len());
        if dom.is_element(c) {
            proof {
                assert(s == seq![c] + rest);
                assert(s.drop_first() =~= rest);
            }
            if phase == 0 {
                if c == dt {
                    phase = 1;
                }
            } else {
                if phase == 1 && !dom.is_html_element(c, "dt") {
                    phase = 2;
                }
                if phase == 2 {
                    if dom.is_html_element(c, "dd") {
                        let ghost before = out@;
                        out.push(c);
                        assert(out@ + take_html(f, rest, "dd"@) =~= before + (seq![c] + take_html(
                            f,
                            rest,
                            "dd"@,
                        )));
                    } else {
                        phase = 3;
                    }
                }
            }
        }
        k += 1;
    }
    proof {
        if phase < 3 {
            assert(elements_from(f, ch, k as int) =~= Seq::<NodeId>::empty());
        }
        assert(out@ + Seq::<NodeId>::empty() =~= out@);
    }
    out
}

impl Dom {
    /// True if any child matches the predicate.
    pub fn any_child<F: Fn(&Dom, NodeId) -> bool>(&self, id: NodeId, f: F) -> (found: bool)
        requires
            id < self@.len(),
            forall|k: int|
                0 <= k < self@[id as int].children.len() ==> call_requires(
                    f,
                    (self, #[trigger] self@[id as int].children[k]),
                ),
        ensures
            found ==> exists|k: int|
                0 <= k < self@[id as int].children.len() && call_ensures(
                    f,
                    (self, #[trigger] self@[id as int].children[k]),
                    true,
                ),
            !found ==> forall|k: int|
                0 <= k < self@[id as int].children.len() ==> call_ensures(
                    f,
                    (self, #[trigger] self@[id as int].children[k]),
                    false,
                ),
    {
        let children = self.children(id);
        let mut k: usize = 0;
        while k < children.len()
            invariant
                k <= children.len(),
                children@ == self@[id as int].children,
                forall|j: int|
                    0 <= j < children@.len() ==> call_requires(f, (self, #[trigger] children@[j])),
                forall|j: int| 0 <= j < k ==> call_ensures(f, (self, #[trigger] children@[j]), false),
            decreases children.len() - k,
        {
            if f(self, children[k]) {
                assert(call_ensures(f, (self, children@[k as int]), true));
                return true;
            }
            k += 1;
        }
        false
    }

    /// Returns true if the node is an element with any of the given classes.
    pub fn has_any_class(&self, id: NodeId, classes: &[&str]) -> (yes: bool)
        requires
            id < self@.len(),
        ensures
            yes == exists|i: int|
                0 <= i < classes@.len() && has_class_token(self@, id, (#[trigger] classes@[i])@),
    {
        let mut i: usize = 0;
        while i < classes.len()
            invariant
                i <= classes.len(),
                id < self@.len(),
                forall|j: int| 0 <= j < i ==> !has_class_token(self@, id, (#[trigger] classes@[j])@),
            decreases classes.len() - i,
        {
            if self.has_class(id, classes[i]) {
                return true;
            }
            i += 1;
        }
        false
    }
}

} // verus!
