//! Replaces <!--BOILERPLATE filename.inc--> comments.
//! These can either be comment nodes (in which case the resulting fragment will
//! be inserted), or the complete value of an element's attribute (in which case
//! the text will become the attribute value). Texts of the form
//! `EXAMPLE filename` in <pre> are replaced by the example.
//!
//! The files are read by the caller: the pass says which file each
//! replacement needs, and takes what was read.

use vstd::prelude::*;
use vstd::string::StringExecFns;
use crate::construct::kids_built;
use crate::dom::{Dom, NodeData, is_html, is_element_node, attrs_of, with_data, with_attrs};
use crate::edit::replaced;
use crate::edit_model::adoptable;
use crate::errors::{Error, ErrorKind};
use crate::io_utils::{is_safe_path, safe_path};
use crate::model::{NodeId, Forest, DataView, AttrView, NameView, own_text};
use crate::names::{QualName, attrs_view, attrs_set};
use crate::parser::adopt_fragment;
use crate::shape::shapes;
use crate::text::{chars_of, slice, trim, trimmed, to_string, starts_with, ends_with, has_prefix, has_suffix};

verus! {

/// What a replacement replaces.
#[derive(Debug)]
pub enum EditKind {
    /// A comment, by the nodes parsed from the file.
    ReplaceHtml,
    /// The value of the attribute with this name, by the text of the file.
    ReplaceAttr(QualName),
    /// The text of a text node, by the text of the file.
    ReplaceText,
}

/// What a replacement replaces, as a value.
pub enum EditKindView {
    ReplaceHtml,
    ReplaceAttr(NameView),
    ReplaceText,
}

/// Where the file of a replacement is looked for.
#[derive(Clone, Copy, Debug, PartialEq, Eq, Structural)]
pub enum Source {
    /// The directory of boilerplate files.
    Boilerplate,
    /// The directory of example files.
    Example,
}

/// A change to be made in the apply step.
#[derive(Debug)]
pub struct Edit {
    pub node: NodeId,
    pub kind: EditKind,
    pub source: Source,
    /// The path of the file, relative to the directory of its source.
    pub path: String,
}

/// A change as a value.
pub struct EditView {
    pub node: NodeId,
    pub kind: EditKindView,
    pub source: Source,
    pub path: Seq<char>,
}

impl View for Edit {
    type V = EditView;

    open spec fn view(&self) -> EditView {
        EditView {
            node: self.node,
            kind: match self.kind {
                EditKind::ReplaceHtml => EditKindView::ReplaceHtml,
                EditKind::ReplaceAttr(name) => EditKindView::ReplaceAttr(name@),
                EditKind::ReplaceText => EditKindView::ReplaceText,
            },
            source: self.source,
            path: self.path@,
        }
    }
}

/// The views of a list of edits.
pub open spec fn edit_views(edits: Seq<Edit>) -> Seq<EditView> {
    edits.map_values(|e: Edit| e@)
}

/// The state of the pass: the changes to be made, in the order of the visits.
pub struct Processor {
    edits: Vec<Edit>,
}

/// The file that a boilerplate comment with this text names, if it is one.
pub open spec fn comment_path(contents: Seq<char>) -> Option<Seq<char>> {
    if has_prefix(contents, "BOILERPLATE "@) {
        Some(trim(contents.subrange(12, contents.len() as int)))
    } else {
        None
    }
}

/// The file that an attribute with this value names, if the whole value is a
/// boilerplate pseudo-comment.
pub open spec fn attribute_path(value: Seq<char>) -> Option<Seq<char>> {
    if value.len() >= 19 && has_prefix(value, "<!--BOILERPLATE "@) && has_suffix(value, "-->"@) {
        Some(trim(value.subrange(16, value.len() - 3)))
    } else {
        None
    }
}

/// The parent of the text node `node` is a `<pre>`, or a `<code>` in a
/// `<pre>`.
pub open spec fn in_pre(f: Forest, node: NodeId) -> bool {
    match f[node as int].parent {
        Some(p) => is_html(f, p, "pre"@) || (is_html(f, p, "code"@) && match f[p as int].parent {
            Some(p2) => is_html(f, p2, "pre"@),
            None => false,
        }),
        None => false,
    }
}

/// The file that the text node `node` names, if it is an example
/// placeholder.
pub open spec fn example_path(f: Forest, node: NodeId) -> Option<Seq<char>> {
    let text = trim(own_text(f, node));
    if has_prefix(text, "EXAMPLE "@) && in_pre(f, node) {
        Some(trim(text.subrange(8, text.len() as int)))
    } else {
        None
    }
}

/// The replacements that the attributes from the `i`th on ask for.
pub open spec fn attribute_edits(node: NodeId, attrs: Seq<AttrView>, i: int) -> Seq<EditView>
    decreases attrs.len() - i,
{
    if i < 0 || i >= attrs.len() {
        Seq::empty()
    } else {
        match attribute_path(attrs[i].value) {
            Some(path) => seq![
                EditView {
                    node,
                    kind: EditKindView::ReplaceAttr(attrs[i].name),
                    source: Source::Boilerplate,
                    path,
                },
            ] + attribute_edits(node, attrs, i + 1),
            None => attribute_edits(node, attrs, i + 1),
        }
    }
}

/// The replacements that a visit of `node` asks for.
pub open spec fn wanted(f: Forest, node: NodeId) -> Seq<EditView> {
    match f[node as int].data {
        DataView::Comment { contents } => match comment_path(contents) {
            Some(path) => seq![
                EditView { node, kind: EditKindView::ReplaceHtml, source: Source::Boilerplate, path },
            ],
            None => Seq::empty(),
        },
        DataView::Element { attrs, .. } => attribute_edits(node, attrs, 0),
        DataView::Text { .. } => match example_path(f, node) {
            Some(path) => seq![
                EditView { node, kind: EditKindView::ReplaceText, source: Source::Example, path },
            ],
            None => Seq::empty(),
        },
        _ => Seq::empty(),
    }
}

/// What is to be done for a change.
#[derive(Debug)]
pub enum Step {
    /// Nothing: the comment has no parent any more.
    Skip,
    /// Fail: the file lies outside the directory of its source.
    Fail(Error),
    /// Read the file, parse it as a fragment in the context of this node,
    /// and hand the fragment to `apply`.
    LoadHtml { context: NodeId },
    /// Read the file and hand its text to `apply`.
    LoadText,
}

/// The message about a path that leaves the directory of its source.
pub open spec fn unsafe_path_message() -> Seq<char> {
    "cannot traverse to a parent directory in {path}"@
}

/// What was read for a change.
#[derive(Debug)]
pub enum Loaded {
    /// The nodes of the fragment parsed from the file, in their own arena.
    Html(Dom, Vec<NodeId>),
    /// The text of the file.
    Text(String),
}

/// What `apply` makes of the forest `f` for the change `e`: the forest `f2`.
pub open spec fn applied(f: Forest, f2: Forest, e: EditView, loaded: Loaded) -> bool {
    match (e.kind, loaded) {
        (EditKindView::ReplaceHtml, Loaded::Html(fragment, nodes)) => exists|g: Forest, kids: Seq<NodeId>|
            #[trigger] kids_built(f, g, kids, shapes(fragment@, nodes@)) && f2 == replaced(g, e.node, kids),
        (EditKindView::ReplaceAttr(name), Loaded::Text(text)) => f2 == with_data(
            f,
            e.node,
            with_attrs(f[e.node as int].data, attrs_set(attrs_of(f, e.node), name, text@)),
        ),
        (EditKindView::ReplaceText, Loaded::Text(text)) => f2 == with_data(
            f,
            e.node,
            DataView::Text { contents: text@ },
        ),
        _ => false,
    }
}

/// The change and what was read for it fit each other and the forest.
pub open spec fn fits(f: Forest, e: EditView, loaded: Loaded) -> bool {
    &&& e.node < f.len()
    &&& match (e.kind, loaded) {
        (EditKindView::ReplaceHtml, Loaded::Html(fragment, nodes)) => fragment.wf() && forall|i: int|
            0 <= i < nodes@.len() ==> nodes@[i] < fragment@.len(),
        (EditKindView::ReplaceAttr(_), Loaded::Text(_)) => is_element_node(f, e.node),
        (EditKindView::ReplaceText, Loaded::Text(_)) => f[e.node as int].data is Text,
        _ => false,
    }
}

impl Processor {
    /// The changes to be made, in the order of the visits.
    pub closed spec fn spec_edits(&self) -> Seq<EditView> {
        edit_views(self.edits@)
    }

    /// A pass that has seen nothing.
    pub fn new() -> (out: Processor)
        ensures
            out.spec_edits() == Seq::<EditView>::empty(),
    {
        let out = Processor { edits: Vec::new() };
        assert(out.spec_edits() =~= Seq::<EditView>::empty());
        out
    }

    /// The changes to be made, in the order of the visits.
    pub fn edits(&self) -> (edits: &Vec<Edit>)
        ensures
            edit_views(edits@) == self.spec_edits(),
    {
        &self.edits
    }

    /// Records a change.
    fn push(&mut self, node: NodeId, kind: EditKind, source: Source, path: String)
        ensures
            final(self).spec_edits() == old(self).spec_edits().push(
                (Edit { node, kind, source, path })@,
            ),
    {
        let e = Edit { node, kind, source, path };
        let ghost before = self.spec_edits();
        self.edits.push(e);
        assert(self.spec_edits() =~= before.push(e@));
    }

    /// Should be called for each node in the document. Identifies the
    /// replacements which will be needed.
    pub fn visit(&mut self, dom: &Dom, node: NodeId)
        requires
            dom.wf(),
            node < dom@.len(),
        ensures
            final(self).spec_edits() == old(self).spec_edits() + wanted(dom@, node),
    {
        let ghost f = dom@;
        let ghost start = self.spec_edits();
        match dom.data(node) {
            // BOILERPLATE comments will need to be replaced with their
            // corresponding HTML, parsed.
            NodeData::Comment { contents } => {
                let chars = chars_of(contents.as_str());
                if starts_with(&chars, &chars_of("BOILERPLATE ")) {
                    proof {
                        reveal_strlit("BOILERPLATE ");
                    }
                    let path = to_string(&trimmed(&slice(&chars, 12, chars.len())));
                    self.push(node, EditKind::ReplaceHtml, Source::Boilerplate, path);
                } else {
                    assert(start + Seq::<EditView>::empty() =~= start);
                }
            },
            // Pseudo-comments can also appear in element attributes. These are
            // not parsed as HTML, so we simply want to read them into memory so
            // they can be replaced.
            NodeData::Element { attrs, .. } => {
                let ghost av = attrs_view(attrs@);
                let mut i: usize = 0;
                while i < attrs.len()
                    invariant
                        i <= attrs.len(),
                        av == attrs_view(attrs@),
                        self.spec_edits() + attribute_edits(node, av, i as int) == start + attribute_edits(
                            node,
                            av,
                            0,
                        ),
                    decreases attrs.len() - i,
                {
                    let value = chars_of(attrs[i].value.as_str());
                    let ghost before = self.spec_edits();
                    proof {
                        assert(av[i as int] == attrs@[i as int]@);
                    }
                    if value.len() >= 19 && starts_with(&value, &chars_of("<!--BOILERPLATE ")) && ends_with(
                        &value,
                        &chars_of("-->"),
                    ) {
                        let path = to_string(&trimmed(&slice(&value, 16, value.len() - 3)));
                        self.push(node, EditKind::ReplaceAttr(attrs[i].name.clone()), Source::Boilerplate, path);
                        proof {
                            let e = EditView {
                                node,
                                kind: EditKindView::ReplaceAttr(av[i as int].name),
                                source: Source::Boilerplate,
                                path: path@,
                            };
                            assert(self.spec_edits() + attribute_edits(node, av, i + 1) =~= before + (seq![e]
                                + attribute_edits(node, av, i + 1)));
                        }
                    }
                    i += 1;
                }
                assert(self.spec_edits() + Seq::<EditView>::empty() =~= self.spec_edits());
            },
            // <pre> and <pre><code> which contain EXAMPLE also need to be
            // replaced, but as plain text. These are loaded from the "examples"
            // directory instead.
            NodeData::Text { contents } => {
                let text = trimmed(&chars_of(contents.as_str()));
                if !starts_with(&text, &chars_of("EXAMPLE ")) {
                    assert(start + Seq::<EditView>::empty() =~= start);
                    return;
                }
                proof {
                    reveal_strlit("EXAMPLE ");
                }
                let has_suitable_parent = match dom.parent_node(node) {
                    Some(p) => {
                        assert(f[node as int].parent is Some);
                        dom.is_html_element(p, "pre") || (dom.is_html_element(p, "code") && match dom.parent_node(
                            p,
                        ) {
                            Some(p2) => {
                                assert(f[p as int].parent is Some);
                                dom.is_html_element(p2, "pre")
                            },
                            None => false,
                        })
                    },
                    None => false,
                };
                if has_suitable_parent {
                    let path = to_string(&trimmed(&slice(&text, 8, text.len())));
                    self.push(node, EditKind::ReplaceText, Source::Example, path);
                } else {
                    assert(start + Seq::<EditView>::empty() =~= start);
                }
            },
            _ => {
                assert(start + Seq::<EditView>::empty() =~= start);
            },
        }
    }

    /// Says what is to be done for a change before it can be applied: a
    /// comment without a parent is passed over; a path that is not safe
    /// fails; otherwise the file is to be read.
    pub fn plan(dom: &Dom, edit: &Edit) -> (step: Step)
        requires
            edit.node < dom@.len(),
        ensures
            match step {
                Step::Skip => edit@.kind is ReplaceHtml && dom@[edit.node as int].parent is None,
                Step::Fail(e) => !safe_path(edit.path@) && !(edit@.kind is ReplaceHtml && dom@[edit.node as int].parent is None)
                    && e.spec_kind() == ErrorKind::PermissionDenied && e.spec_message()
                    == unsafe_path_message(),
                Step::LoadHtml { context } => safe_path(edit.path@) && edit@.kind is ReplaceHtml && dom@[edit.node as int].parent
                    == Some(context),
                Step::LoadText => safe_path(edit.path@) && !(edit@.kind is ReplaceHtml),
            },
    {
        let context = match &edit.kind {
            // When parsing HTML, we need the context it's in so that the
            // context-sensitive parsing behavior works correctly.
            EditKind::ReplaceHtml => match dom.parent_node(edit.node) {
                Some(n) => Some(n),
                None => {
                    return Step::Skip;
                },
            },
            _ => None,
        };
        if !is_safe_path(edit.path.as_str()) {
            return Step::Fail(
                Error::new(
                    ErrorKind::PermissionDenied,
                    String::from_str("cannot traverse to a parent directory in {path}"),
                ),
            );
        }
        match context {
            Some(context) => Step::LoadHtml { context },
            None => Step::LoadText,
        }
    }

    /// Applies one change with what was read for it: the fragment takes the
    /// place of the comment, or the text becomes the value of the attribute
    /// or the text of the text node.
    pub fn apply(dom: &mut Dom, edit: &Edit, loaded: Loaded)
        requires
            old(dom).wf(),
            fits(old(dom)@, edit@, loaded),
        ensures
            final(dom).wf(),
            applied(old(dom)@, final(dom)@, edit@, loaded),
    {
        let ghost f = dom@;
        match loaded {
            Loaded::Html(fragment, nodes) => {
                let new_children = adopt_fragment(dom, &fragment, &nodes);
                let ghost g = dom@;
                proof {
                    assert(shapes(g, new_children@) =~= shapes(fragment@, nodes@));
                    assert(kids_built(f, g, new_children@, shapes(fragment@, nodes@)));
                    assert(g[edit.node as int] == f[edit.node as int]);
                    match g[edit.node as int].parent {
                        Some(p) => {
                            assert(f[edit.node as int].parent is Some);
                            assert(p < f.len());
                            assert(new_children@.no_duplicates());
                            assert(adoptable(g, p, new_children@));
                        },
                        None => {},
                    }
                }
                dom.replace_with(edit.node, new_children);
            },
            Loaded::Text(text) => {
                match &edit.kind {
                    EditKind::ReplaceAttr(attr) => {
                        dom.set_attribute(edit.node, attr, text);
                    },
                    EditKind::ReplaceText => {
                        dom.replace_text(edit.node, text);
                    },
                    EditKind::ReplaceHtml => {},
                }
            },
        }
    }
}

} // verus!
