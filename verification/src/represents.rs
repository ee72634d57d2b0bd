//! Replaces <!--REPRESENTS tagname--> comments with the HTML which appears in a
//! paragraph of the form:
//!   <p>The <code>tagname</code> element <span>represents</span> ...</p>

use vstd::prelude::*;
use vstd::string::StringExecFns;
use crate::dom::{Dom, NodeData, is_html};
use crate::construct::{built, kids_built, lemma_kids_grow, lemma_kids_free};
use crate::edit::replaced;
use crate::edit_model::adoptable;
use crate::model::{Tree, subtree, shape};
use crate::shape::{shapes, lemma_data_shape};
use crate::errors::{Error, ErrorKind};
use crate::model::{NodeId, Forest, DataView, text_content, own_text, reaches, well_formed};
use crate::model_proofs::{lemma_prefix_subtree, same_links};
use crate::text::{chars_of, str_eq, trim, trim_start, trimmed, trimmed_start, starts_with, has_prefix, string_of, to_string, views};

verus! {

/// The state of the pass.
pub struct Processor {
    /// For each paragraph that defines an element, in the order of the
    /// visits: the tag name (as found in the paragraph) and the <span> which
    /// contains the text "represents". A later definition of a tag name
    /// replaces an earlier one.
    tags: Vec<String>,
    spans: Vec<NodeId>,
    /// List of <!--REPRESENTS--> comments to be replaced, and what tag name
    /// they correspond to.
    placeholders: Vec<NodeId>,
    wanted: Vec<String>,
}

/// The text of node `id` is `text` once whitespace around it is left out;
/// false where `id` is no text node.
pub open spec fn trimmed_text_is(f: Forest, id: NodeId, text: Seq<char>) -> bool {
    f[id as int].data is Text && trim(own_text(f, id)) == text
}

/// Where the text node `text` is the "represents" of a defining paragraph
/// `<p>The <code>tag</code> element <span>represents</span> ...</p>`: the
/// tag name and the span.
pub open spec fn definition_at(f: Forest, text: NodeId) -> Option<(Seq<char>, NodeId)> {
    match f[text as int].parent {
        Some(span) => match f[span as int].parent {
            Some(p) => {
                let ch = f[p as int].children;
                if is_html(f, span, "span"@) && is_html(f, p, "p"@) && ch.len() >= 4 && trimmed_text_is(
                    f,
                    ch[0],
                    "The"@,
                ) && is_html(f, ch[1], "code"@) && trimmed_text_is(f, ch[2], "element"@) && ch[3]
                    == span {
                    Some((text_content(f, ch[1]), span))
                } else {
                    None
                }
            },
            None => None,
        },
        None => None,
    }
}

/// The span that defines `tag`: that of the last definition of `tag`.
pub open spec fn defined_span(defs: Seq<(Seq<char>, NodeId)>, tag: Seq<char>) -> Option<NodeId>
    decreases defs.len(),
{
    if defs.len() == 0 {
        None
    } else if defs.last().0 == tag {
        Some(defs.last().1)
    } else {
        defined_span(defs.drop_last(), tag)
    }
}

/// The first of the wanted tags that has no definition, if there is one.
pub open spec fn first_unknown(defs: Seq<(Seq<char>, NodeId)>, wanted: Seq<(NodeId, Seq<char>)>) -> Option<Seq<char>>
    decreases wanted.len(),
{
    if wanted.len() == 0 {
        None
    } else if defined_span(defs, wanted[0].1) is None {
        Some(wanted[0].1)
    } else {
        first_unknown(defs, wanted.drop_first())
    }
}

/// The message about a placeholder whose tag has no definition.
pub open spec fn unknown_tag_message(tag: Seq<char>) -> Seq<char> {
    "<!--REPRESENTS "@ + tag + "--> refers to unknown tag"@
}

/// The upper-case letter for a lower-case ASCII letter; any other character
/// as it is.
pub open spec fn ascii_upper(c: char) -> char {
    if 'a' <= c && c <= 'z' {
        ((c as u8) - 32) as char
    } else {
        c
    }
}

/// `text` with its first character in upper case.
pub open spec fn capitalized(text: Seq<char>) -> Seq<char> {
    if text.len() == 0 {
        text
    } else {
        seq![ascii_upper(text[0])] + text.drop_first()
    }
}

/// `text` with its first character in upper case.
pub fn capitalize(text: &Vec<char>) -> (out: String)
    ensures
        out@ == capitalized(text@),
{
    let mut out = String::new();
    if text.len() > 0 {
        let c = text[0];
        let up = if 'a' <= c && c <= 'z' {
            ((c as u8) - 32) as char
        } else {
            c
        };
        out.push(up);
        out.append(string_of(text, 1, text.len()).as_str());
        assert(out@ =~= capitalized(text@));
    } else {
        assert(out@ =~= capitalized(text@));
    }
    out
}

/// Whether `id` is a text node whose text is `text` once whitespace around
/// it is left out.
pub fn has_trimmed_text(dom: &Dom, id: NodeId, text: &str) -> (yes: bool)
    requires
        id < dom@.len(),
    ensures
        yes == trimmed_text_is(dom@, id, text@),
{
    match dom.data(id) {
        NodeData::Text { contents } => {
            let t = to_string(&trimmed(&chars_of(contents.as_str())));
            str_eq(t.as_str(), text)
        },
        _ => false,
    }
}

/// Walks from the text node "represents" and finds the tag name and the
/// span that marks where the description begins, or returns None if that
/// cannot be found.
pub fn find_tag_name(dom: &Dom, represents_text: NodeId) -> (found: Option<(String, NodeId)>)
    requires
        dom.wf(),
        represents_text < dom@.len(),
    ensures
        match found {
            Some((tag, span)) => definition_at(dom@, represents_text) == Some((tag@, span)),
            None => definition_at(dom@, represents_text) is None,
        },
{
    let span = match dom.parent_node(represents_text) {
        Some(s) => s,
        None => {
            return None;
        },
    };
    assert(dom@[represents_text as int].parent is Some);
    let p = match dom.parent_node(span) {
        Some(p) => p,
        None => {
            return None;
        },
    };
    assert(dom@[span as int].parent is Some);
    if !dom.is_html_element(span, "span") || !dom.is_html_element(p, "p") {
        return None;
    }
    let children = dom.children(p);
    if children.len() < 4 {
        return None;
    }
    assert(children@[0] < dom@.len() && children@[1] < dom@.len() && children@[2] < dom@.len()) by {
        assert(dom@[p as int].children[0] < dom@.len());
        assert(dom@[p as int].children[1] < dom@.len());
        assert(dom@[p as int].children[2] < dom@.len());
    }
    if has_trimmed_text(dom, children[0], "The") && dom.is_html_element(children[1], "code")
        && has_trimmed_text(dom, children[2], "element") && children[3] == span {
        Some((dom.text_content(children[1]), span))
    } else {
        None
    }
}

/// The shape of the first node of a description: a text loses its leading
/// whitespace and gets its first character in upper case.
pub open spec fn capitalized_first(t: Tree) -> Tree {
    match t.data {
        DataView::Text { contents } => Tree {
            id: t.id,
            data: DataView::Text { contents: capitalized(trim_start(contents)) },
            template: t.template,
            children: t.children,
        },
        _ => t,
    }
}

/// The shapes of the description that follows `span`: those of the siblings
/// after `span`, the first of them with a capital.
pub open spec fn description_shapes(f: Forest, span: NodeId) -> Seq<Tree> {
    match f[span as int].parent {
        Some(p) => {
            let ch = f[p as int].children;
            let from = ch.index_of(span) + 1;
            Seq::new(
                (ch.len() - from) as nat,
                |k: int|
                    if k == 0 {
                        capitalized_first(shape(subtree(f, ch[from])))
                    } else {
                        shape(subtree(f, ch[from + k]))
                    },
            )
        },
        None => Seq::empty(),
    }
}

/// The forest `f2` is `f` after `placeholder` has been replaced by new nodes
/// with the shapes of the description that follows `span`; `f` itself where
/// `span` has no parent.
pub open spec fn description_inserted(f: Forest, f2: Forest, placeholder: NodeId, span: NodeId) -> bool {
    match f[span as int].parent {
        Some(_) => exists|g: Forest, kids: Seq<NodeId>| #[trigger]
            kids_built(f, g, kids, description_shapes(f, span)) && f2 == replaced(g, placeholder, kids),
        None => f2 == f,
    }
}

/// The forests `steps` lead from the first to the last by replacing the
/// first `n` placeholders, each of which has a definition, one after the
/// other.
pub open spec fn replaced_through(
    steps: Seq<Forest>,
    defs: Seq<(Seq<char>, NodeId)>,
    wanted: Seq<(NodeId, Seq<char>)>,
    n: int,
) -> bool {
    &&& 0 <= n <= wanted.len()
    &&& steps.len() == n + 1
    &&& forall|i: int|
        0 <= i < n ==> defined_span(defs, wanted[i].1) is Some && description_inserted(
            #[trigger] steps[i],
            steps[i + 1],
            wanted[i].0,
            defined_span(defs, wanted[i].1)->0,
        )
}

/// The pairs of two lists of equal length.
pub open spec fn zipped<A, B>(a: Seq<A>, b: Seq<B>) -> Seq<(A, B)> {
    Seq::new(a.len(), |i: int| (a[i], b[i]))
}

impl Processor {
    /// The definitions seen, in the order of the visits: tag name and span.
    pub closed spec fn definitions(&self) -> Seq<(Seq<char>, NodeId)> {
        zipped(views(self.tags@), self.spans@)
    }

    /// The placeholders seen, in the order of the visits: comment and tag
    /// name.
    pub closed spec fn placeholders(&self) -> Seq<(NodeId, Seq<char>)> {
        zipped(self.placeholders@, views(self.wanted@))
    }

    /// The lists of the state are of matching lengths.
    pub closed spec fn wf(&self) -> bool {
        self.tags@.len() == self.spans@.len() && self.placeholders@.len() == self.wanted@.len()
    }

    /// A pass that has seen nothing.
    pub fn new() -> (out: Processor)
        ensures
            out.wf(),
            out.definitions() == Seq::<(Seq<char>, NodeId)>::empty(),
            out.placeholders() == Seq::<(NodeId, Seq<char>)>::empty(),
    {
        let out = Processor {
            tags: Vec::new(),
            spans: Vec::new(),
            placeholders: Vec::new(),
            wanted: Vec::new(),
        };
        assert(out.definitions() =~= Seq::<(Seq<char>, NodeId)>::empty());
        assert(out.placeholders() =~= Seq::<(NodeId, Seq<char>)>::empty());
        out
    }

    /// Should be called for each node the document. Records when it sees a
    /// <span>represents</span> and which element it is defining, and when it
    /// sees a <!--REPRESENTS tagname--> comment.
    pub fn visit(&mut self, dom: &Dom, node: NodeId)
        requires
            old(self).wf(),
            dom.wf(),
            node < dom@.len(),
        ensures
            final(self).wf(),
            final(self).definitions() == match dom@[node as int].data {
                DataView::Text { contents } => if contents == "represents"@ {
                    match definition_at(dom@, node) {
                        Some(d) => old(self).definitions().push(d),
                        None => old(self).definitions(),
                    }
                } else {
                    old(self).definitions()
                },
                _ => old(self).definitions(),
            },
            final(self).placeholders() == match dom@[node as int].data {
                DataView::Comment { contents } => if has_prefix(contents, "REPRESENTS "@) {
                    old(self).placeholders().push((node, contents.subrange(11, contents.len() as int)))
                } else {
                    old(self).placeholders()
                },
                _ => old(self).placeholders(),
            },
    {
        match dom.data(node) {
            NodeData::Text { contents } => {
                if str_eq(contents.as_str(), "represents") {
                    match find_tag_name(dom, node) {
                        Some((tag, span)) => {
                            let ghost before = self.definitions();
                            self.tags.push(tag);
                            self.spans.push(span);
                            assert(self.definitions() =~= before.push((tag@, span)));
                        },
                        None => {},
                    }
                }
            },
            NodeData::Comment { contents } => {
                let chars = chars_of(contents.as_str());
                let prefix = chars_of("REPRESENTS ");
                if starts_with(&chars, &prefix) {
                    proof {
                        reveal_strlit("REPRESENTS ");
                    }
                    let tag = string_of(&chars, 11, chars.len());
                    let ghost before = self.placeholders();
                    self.placeholders.push(node);
                    self.wanted.push(tag);
                    assert(self.placeholders() =~= before.push((node, tag@)));
                }
            },
            _ => {},
        }
    }

    /// The span that defines `tag`, if one does.
    fn lookup(&self, tag: &str) -> (span: Option<NodeId>)
        requires
            self.wf(),
        ensures
            span == defined_span(self.definitions(), tag@),
    {
        let ghost defs = self.definitions();
        let mut i: usize = self.tags.len();
        assert(defs.take(i as int) =~= defs);
        while i > 0
            invariant
                self.wf(),
                i <= self.tags.len(),
                defs == self.definitions(),
                defined_span(defs, tag@) == defined_span(defs.take(i as int), tag@),
            decreases i,
        {
            let ghost cur = defs.take(i as int);
            proof {
                assert(cur.last() == defs[i - 1]);
                assert(defs[i - 1] == (self.tags@[i - 1]@, self.spans@[i - 1]));
                assert(cur.drop_last() =~= defs.take(i - 1));
            }
            if str_eq(self.tags[i - 1].as_str(), tag) {
                return Some(self.spans[i - 1]);
            }
            i -= 1;
        }
        None
    }

    /// Replaces each placeholder by copies of what follows the span of its
    /// definition, in the order of the visits; the first copy, if it is a
    /// text, starts with its first word in upper case. Fails at the first
    /// placeholder whose tag has no definition; the placeholders before it
    /// stay replaced. A placeholder whose definition stands in no paragraph
    /// any more stays as it is.
    pub fn apply(self, dom: &mut Dom) -> (result: Result<(), Error>)
        requires
            self.wf(),
            old(dom).wf(),
            forall|i: int|
                0 <= i < self.placeholders().len() ==> (#[trigger] self.placeholders()[i]).0 < old(dom)@.len(),
            forall|i: int|
                0 <= i < self.definitions().len() ==> (#[trigger] self.definitions()[i]).1 < old(dom)@.len(),
        ensures
            final(dom).wf(),
            match result {
                Ok(_) => first_unknown(self.definitions(), self.placeholders()) is None && exists|
                    steps: Seq<Forest>,
                | #[trigger]
                    replaced_through(
                        steps,
                        self.definitions(),
                        self.placeholders(),
                        self.placeholders().len() as int,
                    ) && steps[0] == old(dom)@ && steps.last() == final(dom)@,
                Err(e) => e.spec_kind() == ErrorKind::InvalidData && match first_unknown(
                    self.definitions(),
                    self.placeholders(),
                ) {
                    Some(tag) => e.spec_message() == unknown_tag_message(tag) && exists|
                        steps: Seq<Forest>,
                        n: int,
                    | #[trigger]
                        replaced_through(steps, self.definitions(), self.placeholders(), n) && n
                            < self.placeholders().len() && self.placeholders()[n].1 == tag && steps[0] == old(dom)@ && steps.last() == final(dom)@,
                    None => false,
                },
            },
    {
        let ghost f0 = dom@;
        let ghost wanted = self.placeholders();
        let ghost defs = self.definitions();
        let ghost mut steps: Seq<Forest> = seq![f0];
        let mut n: usize = 0;
        assert(wanted.subrange(0, wanted.len() as int) =~= wanted);
        while n < self.placeholders.len()
            invariant
                self.wf(),
                dom.wf(),
                n <= self.placeholders.len(),
                wanted == self.placeholders(),
                defs == self.definitions(),
                f0 == old(dom)@,
                dom@.len() >= f0.len(),
                forall|i: int| 0 <= i < wanted.len() ==> (#[trigger] wanted[i]).0 < f0.len(),
                forall|i: int| 0 <= i < defs.len() ==> (#[trigger] defs[i]).1 < f0.len(),
                first_unknown(defs, wanted.subrange(n as int, wanted.len() as int)) == first_unknown(defs, wanted),
                replaced_through(steps, defs, wanted, n as int),
                steps[0] == f0,
                steps.last() == dom@,
            decreases self.placeholders.len() - n,
        {
            let placeholder = self.placeholders[n];
            let ghost rest = wanted.subrange(n as int, wanted.len() as int);
            let ghost f = dom@;
            proof {
                assert(rest[0] == wanted[n as int]);
                assert(wanted[n as int] == (self.placeholders@[n as int], self.wanted@[n as int]@));
                assert(rest.drop_first() =~= wanted.subrange(n + 1, wanted.len() as int));
                assert(wanted[n as int].0 < f0.len());
            }
            let span = match self.lookup(self.wanted[n].as_str()) {
                Some(span) => span,
                None => {
                    let mut message = String::from_str("<!--REPRESENTS ");
                    message.append(self.wanted[n].as_str());
                    message.append("--> refers to unknown tag");
                    return Err(Error::new(ErrorKind::InvalidData, message));
                },
            };
            proof {
                lemma_defined_span_is_listed(defs, self.wanted@[n as int]@);
            }
            replace_with_description(dom, placeholder, span);
            proof {
                let before = steps;
                steps = steps.push(dom@);
                assert forall|i: int| 0 <= i < n + 1 implies defined_span(defs, wanted[i].1) is Some
                    && description_inserted(
                    #[trigger] steps[i],
                    steps[i + 1],
                    wanted[i].0,
                    defined_span(defs, wanted[i].1)->0,
                ) by {
                    if i < n {
                        assert(steps[i] == before[i] && steps[i + 1] == before[i + 1]);
                    }
                }
            }
            n += 1;
        }
        Ok(())
    }
}

/// The span that defines a tag is the span of one of the definitions.
pub proof fn lemma_defined_span_is_listed(defs: Seq<(Seq<char>, NodeId)>, tag: Seq<char>)
    ensures
        match defined_span(defs, tag) {
            Some(span) => exists|i: int| 0 <= i < defs.len() && (#[trigger] defs[i]).1 == span,
            None => true,
        },
    decreases defs.len(),
{
    if defs.len() > 0 {
        if defs.last().0 == tag {
            assert(defs[defs.len() - 1].1 == defs.last().1);
        } else {
            lemma_defined_span_is_listed(defs.drop_last(), tag);
            match defined_span(defs.drop_last(), tag) {
                Some(span) => {
                    let i = choose|i: int|
                        0 <= i < defs.drop_last().len() && (#[trigger] defs.drop_last()[i]).1 == span;
                    assert(defs[i].1 == span);
                },
                None => {},
            }
        }
    }
}

/// Replaces `placeholder` by copies of the siblings that follow `span`. The
/// first copy, if it is a text, loses its leading whitespace and gets its
/// first character in upper case. Nothing happens where `span` has no
/// parent; where `placeholder` has none, the copies are made and left
/// without a parent.
pub fn replace_with_description(dom: &mut Dom, placeholder: NodeId, span: NodeId)
    requires
        old(dom).wf(),
        placeholder < old(dom)@.len(),
        span < old(dom)@.len(),
    ensures
        final(dom).wf(),
        final(dom)@.len() >= old(dom)@.len(),
        description_inserted(old(dom)@, final(dom)@, placeholder, span),
{
    let ghost f0 = dom@;
    let parent = match dom.parent_node(span) {
        Some(p) => p,
        None => {
            return;
        },
    };
    assert(dom@[span as int].parent is Some);
    let siblings = crate::edit::splice_ids(dom.children(parent), 0, 0, &Vec::new());
    let at = crate::edit::position(&siblings, span);
    assert(siblings@ =~= f0[parent as int].children);
    let ghost ch = f0[parent as int].children;
    let ghost goal = description_shapes(f0, span);
    proof {
        assert(ch.contains(span));
        assert(ch.no_duplicates());
        let s = ch.index_of(span);
        assert(ch[s] == span && 0 <= s < ch.len());
        assert(s == at);
    }
    let mut replacements: Vec<NodeId> = Vec::new();
    let mut k: usize = at + 1;
    proof {
        assert(shapes(dom@, replacements@) =~= goal.take(0));
    }
    while k < siblings.len()
        invariant
            dom.wf(),
            at < k <= siblings.len(),
            siblings@ == ch,
            ch == f0[parent as int].children,
            at == ch.index_of(span),
            f0[span as int].parent == Some(parent),
            goal == description_shapes(f0, span),
            well_formed(f0),
            parent < f0.len(),
            placeholder < f0.len(),
            kids_built(f0, dom@, replacements@, goal.take(k - at - 1)),
        decreases siblings.len() - k,
    {
        let sibling = siblings[k];
        assert(f0[parent as int].children[k as int] < f0.len());
        let ghost before = dom@;
        let clone = dom.deep_clone(sibling);
        let ghost mid = dom@;
        let ghost copied = shape(subtree(f0, sibling));
        proof {
            assert forall|x: NodeId| x < f0.len() implies same_links(f0[x as int], #[trigger] before[x as int]) by {}
            lemma_prefix_subtree(f0, before, sibling);
            assert(shape(subtree(mid, clone)) == copied);
        }
        // Capitalize the first letter of the first node (which is expected to be text).
        if k == at + 1 {
            let text: Option<String> = match dom.data(clone) {
                NodeData::Text { contents } => Some(
                    capitalize(&trimmed_start(&chars_of(contents.as_str()))),
                ),
                _ => None,
            };
            match text {
                Some(t) => {
                    dom.replace_text(clone, t);
                    proof {
                        lemma_data_shape(mid, clone, DataView::Text { contents: t@ });
                        crate::shape::lemma_shape_fields(mid, clone);
                    }
                },
                None => {},
            }
        }
        proof {
            let after = dom@;
            let tree = goal[k - at - 1];
            assert(shape(subtree(after, clone)) == tree);
            assert forall|x: NodeId| #[trigger] reaches(after, clone, x) implies x >= before.len() by {
                assert forall|y: NodeId| #[trigger] reaches(mid, clone, y) implies y < after.len()
                    && after[y as int].children == mid[y as int].children && crate::model::template_of(
                    after,
                    y,
                ) == crate::model::template_of(mid, y) by {
                    crate::model_proofs::lemma_reaches_valid(mid, clone, y);
                }
                crate::model_proofs::lemma_reaches_frame_back(mid, after, clone, x);
            }
            assert forall|x: int| 0 <= x < before.len() implies #[trigger] after[x] == before[x] by {
                assert(mid[x] == before[x]);
            }
            assert(built(before, after, clone, tree));
            lemma_kids_grow(f0, before, after, replacements@, goal.take(k - at - 1), clone, tree);
            assert(goal.take(k - at - 1).push(tree) =~= goal.take(k - at));
        }
        replacements.push(clone);
        k += 1;
    }
    let ghost g = dom@;
    proof {
        assert(goal.take(k - at - 1) =~= goal);
        lemma_kids_free(f0, g, replacements@, goal);
        match g[placeholder as int].parent {
            Some(p) => {
                assert(g[placeholder as int] == f0[placeholder as int]);
                assert(f0[placeholder as int].parent is Some);
                assert(p < f0.len());
                assert forall|c: int| 0 <= c < replacements@.len() implies !reaches(g, #[trigger] replacements@[c], p) by {}
                assert(adoptable(g, p, replacements@));
            },
            None => {},
        }
    }
    dom.replace_with(placeholder, replacements);
    proof {
        assert(kids_built(f0, g, replacements@, description_shapes(f0, span)));
    }
}

} // verus!
