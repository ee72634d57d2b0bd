//! Looks at the "Optional tags" and "Void elements" sections from the HTML
//! syntax spec and replicates that information into the descriptions of the
//! individual elements.

use vstd::prelude::*;
use vstd::string::StringExecFns;
use crate::construct::{built, build_text, build_element, plain_attribute, kids_built, lemma_kids_grow, lemma_kids_free};
use crate::dom::{Dom, NodeData, is_html, has_class_token, attribute_of};
use crate::edit_model::{adoptable, spliced};
use crate::errors::Error;
use crate::model::{NodeId, Forest, Tree, AttrView, text_content, own_text, preorder, subtree, shape, reaches, well_formed};
use crate::model_proofs::{lemma_prefix_subtree, lemma_reaches_valid, same_links};
use crate::names::{QualName, Attribute, attribute_name, attrs_view};
use crate::query::{heading_level, heading_level_of, dt_descriptions, descriptions};
use crate::represents::{has_trimmed_text, trimmed_text_is};
use crate::rewrite::{TextRewrite, rewritten};
use crate::scan::scan_dom;
use crate::shape::{text_shape, element_shape, shapes};
use crate::string_map::{StringMap, map_of, sorted, lemma_map_insert, lemma_map_update};
use crate::text::{chars_of, str_eq, trim, trimmed, to_string, starts_with, has_prefix};

verus! {

/// What is known of one element.
#[derive(Debug)]
pub struct ElementInfo {
    /// Handles on any paragraphs in the "Optional tags" section which refer to the element.
    optional_tags_info: Vec<NodeId>,
    /// Whether the element appears in the "Void elements" list.
    is_void_element: bool,
    /// <dl class=element> into which this info must be added.
    dl: Option<NodeId>,
}

/// What is known of one element, as a value.
pub struct ElementInfoView {
    pub optional_tags_info: Seq<NodeId>,
    pub is_void_element: bool,
    pub dl: Option<NodeId>,
}

impl View for ElementInfo {
    type V = ElementInfoView;

    closed spec fn view(&self) -> ElementInfoView {
        ElementInfoView {
            optional_tags_info: self.optional_tags_info@,
            is_void_element: self.is_void_element,
            dl: self.dl,
        }
    }
}

/// The state of the pass.
pub struct Processor {
    /// The heading level of the "Optional tags" heading, if inside one.
    in_optional_tags_heading: Option<u8>,
    /// Most recently seen <dfn element>.
    most_recent_element_dfn: Option<String>,
    /// Info about elements which have been referred to in these sections.
    elements: StringMap<ElementInfo>,
}

/// What is known of an element that has not been referred to.
pub open spec fn unknown() -> ElementInfoView {
    ElementInfoView { optional_tags_info: Seq::empty(), is_void_element: false, dl: None }
}

/// What is known of `name` in `m`.
pub open spec fn info_of(m: Map<Seq<char>, ElementInfoView>, name: Seq<char>) -> ElementInfoView {
    if m.contains_key(name) {
        m[name]
    } else {
        unknown()
    }
}

/// The "Optional tags" section that is open once `node` is reached: a
/// heading of the same or a higher level ends it.
pub open spec fn heading_ended(open: Option<u8>, f: Forest, node: NodeId) -> Option<u8> {
    match (open, heading_level_of(f, node)) {
        (Some(level0), Some(level)) => if level <= level0 {
            None
        } else {
            open
        },
        _ => open,
    }
}

/// Node `node` is the heading "Optional tags".
pub open spec fn starts_optional_tags(f: Forest, node: NodeId) -> bool {
    heading_level_of(f, node) is Some && trim(text_content(f, node)) == "Optional tags"@
}

/// The element that the paragraph `p` speaks of, where `p` has the form
/// "A(n) <code>name</code> element ...".
pub open spec fn paragraph_subject(f: Forest, p: NodeId) -> Option<Seq<char>> {
    let ch = f[p as int].children;
    if ch.len() >= 3 && (trimmed_text_is(f, ch[0], "A"@) || trimmed_text_is(f, ch[0], "An"@)) && is_html(
        f,
        ch[1],
        "code"@,
    ) && f[ch[2] as int].data is Text && has_prefix(trim(own_text(f, ch[2])), "element"@) {
        Some(text_content(f, ch[1]))
    } else {
        None
    }
}

/// Node `node` is a paragraph of an open "Optional tags" section.
pub open spec fn in_optional_tags(open: Option<u8>, f: Forest, node: NodeId) -> bool {
    heading_level_of(f, node) is None && open is Some && is_html(f, node, "p"@)
}

/// The term of the definition list that `node` heads, where `node` is the
/// `<dfn>Void elements</dfn>` of a `<dt>`.
pub open spec fn void_elements_term(f: Forest, node: NodeId) -> Option<NodeId> {
    if is_html(f, node, "dfn"@) && trim(text_content(f, node)) == "Void elements"@ {
        match f[node as int].parent {
            Some(dt) => if is_html(f, dt, "dt"@) {
                Some(dt)
            } else {
                None
            },
            None => None,
        }
    } else {
        None
    }
}

/// The texts of the `code` elements among `ids`, in order.
pub open spec fn code_names(f: Forest, ids: Seq<NodeId>) -> Seq<Seq<char>>
    decreases ids.len(),
{
    if ids.len() == 0 {
        Seq::empty()
    } else if is_html(f, ids.last(), "code"@) {
        code_names(f, ids.drop_last()).push(text_content(f, ids.last()))
    } else {
        code_names(f, ids.drop_last())
    }
}

/// The texts of the `code` elements in the subtrees of `roots`, in order.
pub open spec fn all_code_names(f: Forest, roots: Seq<NodeId>) -> Seq<Seq<char>>
    decreases roots.len(),
{
    if roots.len() == 0 {
        Seq::empty()
    } else {
        all_code_names(f, roots.drop_last()) + code_names(f, preorder(f, roots.last()))
    }
}

/// The map after the elements `names` have been marked as void.
pub open spec fn marked_void(m: Map<Seq<char>, ElementInfoView>, names: Seq<Seq<char>>) -> Map<Seq<char>, ElementInfoView>
    decreases names.len(),
{
    if names.len() == 0 {
        m
    } else {
        let before = marked_void(m, names.drop_last());
        before.insert(
            names.last(),
            ElementInfoView {
                optional_tags_info: info_of(before, names.last()).optional_tags_info,
                is_void_element: true,
                dl: info_of(before, names.last()).dl,
            },
        )
    }
}

/// Marking two lists of names in turn marks their concatenation.
pub proof fn lemma_marked_concat(m: Map<Seq<char>, ElementInfoView>, a: Seq<Seq<char>>, b: Seq<Seq<char>>)
    ensures
        marked_void(marked_void(m, a), b) == marked_void(m, a + b),
    decreases b.len(),
{
    if b.len() == 0 {
        assert(a + b =~= a);
    } else {
        lemma_marked_concat(m, a, b.drop_last());
        assert((a + b).drop_last() =~= a + b.drop_last());
        assert((a + b).last() == b.last());
    }
}

/// Node `node` is a `<dfn element>`.
pub open spec fn is_element_dfn(f: Forest, node: NodeId) -> bool {
    is_html(f, node, "dfn"@) && attribute_of(f, node, attribute_name("element"@)) is Some
}

/// Node `node` is a `<dl class="element">`.
pub open spec fn is_element_dl(f: Forest, node: NodeId) -> bool {
    is_html(f, node, "dl"@) && has_class_token(f, node, "element"@)
}

/// The state of the pass as a value.
pub struct StateView {
    pub open: Option<u8>,
    pub recent: Option<Seq<char>>,
    pub elements: Map<Seq<char>, ElementInfoView>,
}

/// The state after a visit of `node`.
pub open spec fn visited(s: StateView, f: Forest, node: NodeId) -> StateView {
    let open1 = heading_ended(s.open, f, node);
    let open2 = if starts_optional_tags(f, node) {
        heading_level_of(f, node)
    } else {
        open1
    };
    let m1 = if in_optional_tags(open1, f, node) {
        match paragraph_subject(f, node) {
            Some(name) => s.elements.insert(
                name,
                ElementInfoView {
                    optional_tags_info: info_of(s.elements, name).optional_tags_info.push(node),
                    is_void_element: info_of(s.elements, name).is_void_element,
                    dl: info_of(s.elements, name).dl,
                },
            ),
            None => s.elements,
        }
    } else {
        s.elements
    };
    let m2 = match void_elements_term(f, node) {
        Some(dt) => marked_void(m1, all_code_names(f, descriptions(f, dt))),
        None => m1,
    };
    let recent1 = if is_element_dfn(f, node) {
        Some(text_content(f, node))
    } else {
        s.recent
    };
    if is_element_dl(f, node) {
        match recent1 {
            Some(name) => StateView {
                open: open2,
                recent: None,
                elements: m2.insert(
                    name,
                    ElementInfoView {
                        optional_tags_info: info_of(m2, name).optional_tags_info,
                        is_void_element: info_of(m2, name).is_void_element,
                        dl: if info_of(m2, name).dl is None {
                            Some(node)
                        } else {
                            info_of(m2, name).dl
                        },
                    },
                ),
            },
            None => StateView { open: open2, recent: None, elements: m2 },
        }
    } else {
        StateView { open: open2, recent: recent1, elements: m2 }
    }
}

/// The term that is put in front of the information on tag omission.
pub open spec fn omission_term() -> Tree {
    element_shape(
        "dt"@,
        Seq::empty(),
        seq![
            element_shape(
                "span"@,
                seq![AttrView { name: attribute_name("data-x"@), value: "concept-element-tag-omission"@ }],
                seq![text_shape("Tag omission in text/html"@)],
            ),
            text_shape(":"@),
        ],
    )
}

/// The description for a void element.
pub open spec fn void_description() -> Tree {
    element_shape(
        "dd"@,
        Seq::empty(),
        seq![
            text_shape("No "@),
            element_shape(
                "span"@,
                seq![AttrView { name: attribute_name("data-x"@), value: "syntax-end-tag"@ }],
                seq![text_shape("end tag"@)],
            ),
            text_shape("."@),
        ],
    )
}

/// The description for an element of which nothing is said.
pub open spec fn default_description() -> Tree {
    element_shape("dd"@, Seq::empty(), seq![text_shape("Neither tag is omissible."@)])
}

/// The description made of the paragraph `p`: a `dd` with copies of the
/// children of `p`, in which the first "may" of every text is "can".
pub open spec fn optional_description(f: Forest, p: NodeId) -> Tree {
    element_shape(
        "dd"@,
        Seq::empty(),
        Seq::new(
            f[p as int].children.len(),
            |k: int| rewritten(TextRewrite::MayToCan, shape(subtree(f, f[p as int].children[k]))),
        ),
    )
}

/// The descriptions for an element.
pub open spec fn omission_descriptions(f: Forest, info: ElementInfoView) -> Seq<Tree> {
    if info.optional_tags_info.len() > 0 {
        Seq::new(info.optional_tags_info.len(), |i: int| optional_description(f, info.optional_tags_info[i]))
    } else if info.is_void_element {
        seq![void_description()]
    } else {
        seq![default_description()]
    }
}

/// What is inserted into the definition list of an element: the term, the
/// descriptions, and a line break.
pub open spec fn omission_entry(f: Forest, info: ElementInfoView) -> Seq<Tree> {
    seq![omission_term()] + omission_descriptions(f, info) + seq![text_shape("\n"@)]
}

/// Node `c` is a `dt` with a child whose `data-x` is
/// `concept-element-attributes`.
pub open spec fn is_attributes_term(f: Forest, c: NodeId) -> bool {
    is_html(f, c, "dt"@) && exists|k: int|
        0 <= k < f[c as int].children.len() && attribute_of(
            f,
            #[trigger] f[c as int].children[k],
            attribute_name("data-x"@),
        ) == Some("concept-element-attributes"@)
}

/// Slot `k` holds the first attributes term among the children of `dl`.
pub open spec fn is_attributes_slot(f: Forest, dl: NodeId, k: int) -> bool {
    &&& 0 <= k < f[dl as int].children.len()
    &&& is_attributes_term(f, f[dl as int].children[k])
    &&& forall|j: int| 0 <= j < k ==> !is_attributes_term(f, #[trigger] f[dl as int].children[j])
}

/// The forest `f2` is `f` after the information on tag omission for one
/// element has been inserted before the attributes term of its definition
/// list; `f` itself where the element has no definition list, or the list no
/// attributes term.
pub open spec fn entry_inserted(f: Forest, f2: Forest, info: ElementInfoView) -> bool {
    match info.dl {
        Some(dl) => if exists|k: int| is_attributes_slot(f, dl, k) {
            exists|g: Forest, kids: Seq<NodeId>, k: int|
                entry_inserted_at(f, f2, info, dl, g, kids, k)
        } else {
            f2 == f
        },
        None => f2 == f,
    }
}

/// The forest `f2` is `g` after `kids`, built after `f` with the shapes of
/// the entry, have been inserted at slot `k` of `dl`.
pub open spec fn entry_inserted_at(
    f: Forest,
    f2: Forest,
    info: ElementInfoView,
    dl: NodeId,
    g: Forest,
    kids: Seq<NodeId>,
    k: int,
) -> bool {
    &&& is_attributes_slot(f, dl, k)
    &&& kids_built(f, g, kids, omission_entry(f, info))
    &&& f2 == spliced(g, dl, k, k, kids)
}

/// The forests `steps` lead from the first to the last by inserting the
/// entries of `infos` one after the other.
pub open spec fn entries_inserted(steps: Seq<Forest>, infos: Seq<ElementInfoView>) -> bool {
    &&& steps.len() == infos.len() + 1
    &&& forall|i: int| 0 <= i < infos.len() ==> entry_inserted(#[trigger] steps[i], steps[i + 1], infos[i])
}

/// Whether the text of `node` and its descendants is `text` once whitespace
/// around it is left out.
fn trimmed_content_is(dom: &Dom, node: NodeId, text: &str) -> (yes: bool)
    requires
        dom.wf(),
        node < dom@.len(),
    ensures
        yes == (trim(text_content(dom@, node)) == text@),
{
    let t = to_string(&trimmed(&chars_of(dom.text_content(node).as_str())));
    str_eq(t.as_str(), text)
}

/// Whether `id` is a text node whose text starts with `text` once leading
/// whitespace is left out.
fn trimmed_text_starts_with(dom: &Dom, id: NodeId, text: &str) -> (yes: bool)
    requires
        id < dom@.len(),
    ensures
        yes == (dom@[id as int].data is Text && has_prefix(trim(own_text(dom@, id)), text@)),
{
    match dom.data(id) {
        NodeData::Text { contents } => starts_with(&trimmed(&chars_of(contents.as_str())), &chars_of(text)),
        _ => false,
    }
}

/// The element that a paragraph of the "Optional tags" section speaks of.
fn find_paragraph_subject(dom: &Dom, paragraph: NodeId) -> (name: Option<String>)
    requires
        dom.wf(),
        paragraph < dom@.len(),
    ensures
        match name {
            Some(n) => paragraph_subject(dom@, paragraph) == Some(n@),
            None => paragraph_subject(dom@, paragraph) is None,
        },
{
    // The paragraph must have the structure "A(n) <code>img</code> element..."
    let children = dom.children(paragraph);
    if children.len() < 3 {
        return None;
    }
    assert(dom@[paragraph as int].children[0] < dom@.len());
    assert(dom@[paragraph as int].children[1] < dom@.len());
    assert(dom@[paragraph as int].children[2] < dom@.len());
    let a = children[0];
    let b = children[1];
    let c = children[2];
    if (has_trimmed_text(dom, a, "A") || has_trimmed_text(dom, a, "An")) && dom.is_html_element(b, "code")
        && trimmed_text_starts_with(dom, c, "element") {
        Some(dom.text_content(b))
    } else {
        None
    }
}

/// The views of the infos of a list.
pub closed spec fn info_views(infos: Seq<ElementInfo>) -> Seq<ElementInfoView> {
    infos.map_values(|i: ElementInfo| i@)
}

/// Creates the term that is put in front of the information.
fn make_term(dom: &mut Dom) -> (dt: NodeId)
    requires
        old(dom).wf(),
    ensures
        built(old(dom)@, final(dom)@, dt, omission_term()),
{
    let ghost f0 = dom@;
    let t = build_text(dom, "Tag omission in text/html");
    let ghost f1 = dom@;
    let mut attrs: Vec<Attribute> = Vec::new();
    attrs.push(plain_attribute("data-x", "concept-element-tag-omission"));
    let mut span_kids: Vec<NodeId> = Vec::new();
    span_kids.push(t);
    proof {
        assert(span_kids@ =~= seq![t]);
        assert(shapes(f1, span_kids@) =~= seq![text_shape("Tag omission in text/html"@)]);
        assert(attrs_view(attrs@) =~= seq![
            AttrView { name: attribute_name("data-x"@), value: "concept-element-tag-omission"@ },
        ]);
    }
    let span = build_element(dom, "span", attrs, span_kids, Ghost(f0));
    let ghost span_tree = element_shape(
        "span"@,
        seq![AttrView { name: attribute_name("data-x"@), value: "concept-element-tag-omission"@ }],
        seq![text_shape("Tag omission in text/html"@)],
    );
    let mut kids: Vec<NodeId> = Vec::new();
    kids.push(span);
    let ghost mut trees: Seq<Tree> = seq![span_tree];
    proof {
        assert(kids@ =~= seq![span]);
        assert(shapes(dom@, kids@) =~= trees);
        assert(kids_built(f0, dom@, kids@, trees));
    }
    let ghost fa = dom@;
    let colon = build_text(dom, ":");
    proof {
        lemma_kids_grow(f0, fa, dom@, kids@, trees, colon, text_shape(":"@));
        trees = trees.push(text_shape(":"@));
    }
    kids.push(colon);
    proof {
        lemma_kids_free(f0, dom@, kids@, trees);
        assert(trees =~= seq![span_tree, text_shape(":"@)]);
        assert(attrs_view(Seq::<Attribute>::empty()) =~= Seq::<AttrView>::empty());
    }
    build_element(dom, "dt", Vec::new(), kids, Ghost(f0))
}

/// Creates the description for a void element.
fn make_void_description(dom: &mut Dom) -> (dd: NodeId)
    requires
        old(dom).wf(),
    ensures
        built(old(dom)@, final(dom)@, dd, void_description()),
{
    let ghost f0 = dom@;
    let no = build_text(dom, "No ");
    let mut kids: Vec<NodeId> = Vec::new();
    kids.push(no);
    let ghost mut trees: Seq<Tree> = seq![text_shape("No "@)];
    proof {
        assert(kids@ =~= seq![no]);
        assert(shapes(dom@, kids@) =~= trees);
        assert(kids_built(f0, dom@, kids@, trees));
    }
    let ghost f1 = dom@;
    let t = build_text(dom, "end tag");
    let ghost f2 = dom@;
    let mut attrs: Vec<Attribute> = Vec::new();
    attrs.push(plain_attribute("data-x", "syntax-end-tag"));
    let mut span_kids: Vec<NodeId> = Vec::new();
    span_kids.push(t);
    proof {
        assert(span_kids@ =~= seq![t]);
        assert(shapes(f2, span_kids@) =~= seq![text_shape("end tag"@)]);
        assert(attrs_view(attrs@) =~= seq![AttrView { name: attribute_name("data-x"@), value: "syntax-end-tag"@ }]);
    }
    let span = build_element(dom, "span", attrs, span_kids, Ghost(f1));
    let ghost span_tree = element_shape(
        "span"@,
        seq![AttrView { name: attribute_name("data-x"@), value: "syntax-end-tag"@ }],
        seq![text_shape("end tag"@)],
    );
    proof {
        lemma_kids_grow(f0, f1, dom@, kids@, trees, span, span_tree);
        trees = trees.push(span_tree);
    }
    kids.push(span);
    let ghost f3 = dom@;
    let dot = build_text(dom, ".");
    proof {
        lemma_kids_grow(f0, f3, dom@, kids@, trees, dot, text_shape("."@));
        trees = trees.push(text_shape("."@));
    }
    kids.push(dot);
    proof {
        lemma_kids_free(f0, dom@, kids@, trees);
        assert(trees =~= seq![text_shape("No "@), span_tree, text_shape("."@)]);
        assert(attrs_view(Seq::<Attribute>::empty()) =~= Seq::<AttrView>::empty());
    }
    build_element(dom, "dd", Vec::new(), kids, Ghost(f0))
}

/// Creates the description for an element of which nothing is said.
fn make_default_description(dom: &mut Dom) -> (dd: NodeId)
    requires
        old(dom).wf(),
    ensures
        built(old(dom)@, final(dom)@, dd, default_description()),
{
    let ghost f0 = dom@;
    let t = build_text(dom, "Neither tag is omissible.");
    let mut kids: Vec<NodeId> = Vec::new();
    kids.push(t);
    proof {
        assert(kids@ =~= seq![t]);
        assert(shapes(dom@, kids@) =~= seq![text_shape("Neither tag is omissible."@)]);
        assert(attrs_view(Seq::<Attribute>::empty()) =~= Seq::<AttrView>::empty());
    }
    build_element(dom, "dd", Vec::new(), kids, Ghost(f0))
}

/// Creates the description made of the paragraph `p`: converts <p> to
/// <dd>, replacing "may" with "can".
fn make_optional_description(dom: &mut Dom, p: NodeId) -> (dd: NodeId)
    requires
        old(dom).wf(),
        p < old(dom)@.len(),
    ensures
        built(old(dom)@, final(dom)@, dd, optional_description(old(dom)@, p)),
{
    let ghost f0 = dom@;
    let ghost ch = f0[p as int].children;
    let ghost goal = Seq::new(
        ch.len(),
        |k: int| rewritten(TextRewrite::MayToCan, shape(subtree(f0, ch[k]))),
    );
    let n = dom.children(p).len();
    let mut kids: Vec<NodeId> = Vec::new();
    let mut k: usize = 0;
    proof {
        assert(shapes(dom@, kids@) =~= goal.take(0));
    }
    while k < n
        invariant
            dom.wf(),
            well_formed(f0),
            p < f0.len(),
            ch == f0[p as int].children,
            n == ch.len(),
            k <= n,
            goal == Seq::new(ch.len(), |k: int| rewritten(TextRewrite::MayToCan, shape(subtree(f0, ch[k])))),
            kids_built(f0, dom@, kids@, goal.take(k as int)),
        decreases n - k,
    {
        let ghost fa = dom@;
        proof {
            assert(fa[p as int] == f0[p as int]);
            assert(f0[p as int].children[k as int] < f0.len());
        }
        let child = dom.children(p)[k];
        let copy = dom.deep_clone_rewritten(child, TextRewrite::MayToCan);
        proof {
            assert forall|x: NodeId| x < f0.len() implies same_links(f0[x as int], #[trigger] fa[x as int]) by {}
            lemma_prefix_subtree(f0, fa, child);
            assert(built(fa, dom@, copy, goal[k as int]));
            lemma_kids_grow(f0, fa, dom@, kids@, goal.take(k as int), copy, goal[k as int]);
            assert(goal.take(k as int).push(goal[k as int]) =~= goal.take(k + 1));
        }
        kids.push(copy);
        k += 1;
    }
    proof {
        assert(goal.take(n as int) =~= goal);
        lemma_kids_free(f0, dom@, kids@, goal);
        assert(attrs_view(Seq::<Attribute>::empty()) =~= Seq::<AttrView>::empty());
    }
    build_element(dom, "dd", Vec::new(), kids, Ghost(f0))
}

/// Where the first attributes term stands among the children of `dl`.
fn find_attributes_term(dom: &Dom, dl: NodeId) -> (slot: Option<usize>)
    requires
        dom.wf(),
        dl < dom@.len(),
    ensures
        match slot {
            Some(k) => is_attributes_slot(dom@, dl, k as int),
            None => !exists|k: int| is_attributes_slot(dom@, dl, k),
        },
{
    let children = dom.children(dl);
    let data_x = QualName::attribute("data-x");
    let mut k: usize = 0;
    while k < children.len()
        invariant
            dom.wf(),
            dl < dom@.len(),
            children@ == dom@[dl as int].children,
            k <= children.len(),
            data_x@ == attribute_name("data-x"@),
            forall|j: int| 0 <= j < k ==> !is_attributes_term(dom@, #[trigger] children@[j]),
        decreases children.len() - k,
    {
        let c = children[k];
        assert(dom@[dl as int].children[k as int] < dom@.len());
        if dom.is_html_element(c, "dt") {
            let grand = dom.children(c);
            let mut j: usize = 0;
            while j < grand.len()
                invariant
                    dom.wf(),
                    c < dom@.len(),
                    dl < dom@.len(),
                    k < children.len(),
                    children@ == dom@[dl as int].children,
                    c == children@[k as int],
                    is_html(dom@, c, "dt"@),
                    forall|j: int| 0 <= j < k ==> !is_attributes_term(dom@, #[trigger] children@[j]),
                    grand@ == dom@[c as int].children,
                    j <= grand.len(),
                    data_x@ == attribute_name("data-x"@),
                    forall|i: int|
                        0 <= i < j ==> attribute_of(dom@, #[trigger] grand@[i], attribute_name("data-x"@)) != Some(
                            "concept-element-attributes"@,
                        ),
                decreases grand.len() - j,
            {
                assert(dom@[c as int].children[j as int] < dom@.len());
                if dom.attribute_is(grand[j], &data_x, "concept-element-attributes") {
                    let ghost w = j as int;
                    assert(0 <= w < dom@[c as int].children.len() && attribute_of(
                        dom@,
                        dom@[c as int].children[w],
                        attribute_name("data-x"@),
                    ) == Some("concept-element-attributes"@));
                    assert(is_html(dom@, c, "dt"@));
                    assert(is_attributes_term(dom@, c));
                    return Some(k);
                }
                j += 1;
            }
        }
        k += 1;
    }
    proof {
        if exists|s: int| is_attributes_slot(dom@, dl, s) {
            let s = choose|s: int| is_attributes_slot(dom@, dl, s);
            assert(!is_attributes_term(dom@, children@[s]));
        }
    }
    None
}

/// Creates what is inserted into the definition list of an element.
fn make_entry(dom: &mut Dom, info: &ElementInfo) -> (kids: Vec<NodeId>)
    requires
        old(dom).wf(),
        forall|i: int|
            0 <= i < info@.optional_tags_info.len() ==> (#[trigger] info@.optional_tags_info[i]) < old(dom)@.len(),
    ensures
        kids_built(old(dom)@, final(dom)@, kids@, omission_entry(old(dom)@, info@)),
{
    let ghost f0 = dom@;
    let ghost paragraphs = info@.optional_tags_info;
    let ghost descriptions = omission_descriptions(f0, info@);
    let dt = make_term(dom);
    let mut kids: Vec<NodeId> = Vec::new();
    kids.push(dt);
    let ghost mut trees: Seq<Tree> = seq![omission_term()];
    proof {
        assert(kids@ =~= seq![dt]);
        assert(shapes(dom@, kids@) =~= trees);
        assert(kids_built(f0, dom@, kids@, trees));
    }
    if info.optional_tags_info.len() > 0 {
        let mut i: usize = 0;
        proof {
            assert(trees =~= seq![omission_term()] + descriptions.take(0));
        }
        while i < info.optional_tags_info.len()
            invariant
                dom.wf(),
                well_formed(f0),
                i <= info.optional_tags_info.len(),
                paragraphs == info@.optional_tags_info,
                paragraphs == info.optional_tags_info@,
                paragraphs.len() > 0,
                descriptions == omission_descriptions(f0, info@),
                forall|j: int| 0 <= j < paragraphs.len() ==> (#[trigger] paragraphs[j]) < f0.len(),
                kids_built(f0, dom@, kids@, trees),
                trees == seq![omission_term()] + descriptions.take(i as int),
            decreases info.optional_tags_info.len() - i,
        {
            let ghost fa = dom@;
            let p = info.optional_tags_info[i];
            assert(paragraphs[i as int] < f0.len());
            let dd = make_optional_description(dom, p);
            proof {
                assert forall|x: NodeId| x < f0.len() implies same_links(f0[x as int], #[trigger] fa[x as int]) by {}
                assert(fa[p as int] == f0[p as int]);
                assert forall|k: int| 0 <= k < f0[p as int].children.len() implies subtree(
                    fa,
                    #[trigger] f0[p as int].children[k],
                ) == subtree(f0, f0[p as int].children[k]) by {
                    assert(f0[p as int].children[k] < f0.len());
                    lemma_prefix_subtree(f0, fa, f0[p as int].children[k]);
                }
                assert(optional_description(fa, p).children =~= optional_description(f0, p).children);
                assert(optional_description(fa, p) == optional_description(f0, p));
                assert(descriptions[i as int] == optional_description(f0, p));
                lemma_kids_grow(f0, fa, dom@, kids@, trees, dd, descriptions[i as int]);
                trees = trees.push(descriptions[i as int]);
                assert(trees =~= seq![omission_term()] + descriptions.take(i + 1));
            }
            kids.push(dd);
            i += 1;
        }
        proof {
            assert(descriptions.take(i as int) =~= descriptions);
        }
    } else if info.is_void_element {
        let ghost fa = dom@;
        let dd = make_void_description(dom);
        proof {
            lemma_kids_grow(f0, fa, dom@, kids@, trees, dd, void_description());
            trees = trees.push(void_description());
            assert(trees =~= seq![omission_term()] + descriptions);
        }
        kids.push(dd);
    } else {
        let ghost fa = dom@;
        let dd = make_default_description(dom);
        proof {
            lemma_kids_grow(f0, fa, dom@, kids@, trees, dd, default_description());
            trees = trees.push(default_description());
            assert(trees =~= seq![omission_term()] + descriptions);
        }
        kids.push(dd);
    }
    let ghost fb = dom@;
    let newline = build_text(dom, "\n");
    proof {
        lemma_kids_grow(f0, fb, dom@, kids@, trees, newline, text_shape("\n"@));
        trees = trees.push(text_shape("\n"@));
        assert(trees =~= omission_entry(f0, info@));
    }
    kids.push(newline);
    kids
}

impl Processor {
    /// The names of the elements referred to, in ascending order.
    pub closed spec fn names(&self) -> Seq<Seq<char>> {
        self.elements.keys()
    }

    /// What is known of the elements, in the order of their names.
    pub closed spec fn infos(&self) -> Seq<ElementInfoView> {
        info_views(self.elements.values())
    }

    /// The state of the pass as a value.
    pub closed spec fn view(&self) -> StateView {
        StateView {
            open: self.in_optional_tags_heading,
            recent: match self.most_recent_element_dfn {
                Some(s) => Some(s@),
                None => None,
            },
            elements: map_of(self.names(), self.infos()),
        }
    }

    /// The names are in ascending order, and each has its info.
    pub open spec fn wf(&self) -> bool {
        sorted(self.names()) && self.names().len() == self.infos().len()
    }

    /// A pass that has seen nothing.
    pub fn new() -> (out: Processor)
        ensures
            out.wf(),
            out.names() == Seq::<Seq<char>>::empty(),
            out.view().open is None,
            out.view().recent is None,
    {
        let out = Processor {
            in_optional_tags_heading: None,
            most_recent_element_dfn: None,
            elements: StringMap::new(),
        };
        assert(out.infos() =~= Seq::<ElementInfoView>::empty());
        out
    }

    /// Where `name` stands in the map, after it has been put there if it
    /// was not.
    fn entry(&mut self, name: String) -> (idx: usize)
        requires
            old(self).wf(),
        ensures
            final(self).wf(),
            idx < final(self).infos().len(),
            idx < final(self).elements.values().len(),
            final(self).names()[idx as int] == name@,
            final(self).infos()[idx as int] == info_of(old(self).view().elements, name@),
            map_of(final(self).names(), final(self).infos()).insert(name@, final(self).infos()[idx as int])
                == old(self).view().elements.insert(name@, final(self).infos()[idx as int]),
            final(self).in_optional_tags_heading == old(self).in_optional_tags_heading,
            final(self).most_recent_element_dfn == old(self).most_recent_element_dfn,
    {
        let ghost keys0 = self.names();
        let ghost infos0 = self.infos();
        let ghost m0 = map_of(keys0, infos0);
        let ghost values0 = self.elements.values();
        let fresh = ElementInfo { optional_tags_info: Vec::new(), is_void_element: false, dl: None };
        let idx = self.elements.ensure(name, fresh);
        proof {
            let keys1 = self.names();
            let infos1 = self.infos();
            if keys0.contains(name@) {
            } else {
                let values1 = self.elements.values();
                assert(values1 == values0.insert(idx as int, fresh));
                assert forall|j: int| 0 <= j < infos1.len() implies infos1[j] == infos0.insert(
                    idx as int,
                    unknown(),
                )[j] by {
                    assert(infos1[j] == values1[j]@);
                    if j < idx {
                        assert(values1[j] == values0[j]);
                    } else if j > idx {
                        assert(values1[j] == values0[j - 1]);
                    }
                }
                assert(infos1 =~= infos0.insert(idx as int, unknown()));
                lemma_map_insert(keys0, infos0, idx as int, name@, unknown());
            }
            lemma_map_update(keys1, infos1, idx as int, infos1[idx as int]);
            let m1 = map_of(keys1, infos1);
            assert(m1.insert(name@, infos1[idx as int]) =~= m0.insert(name@, infos1[idx as int]));
        }
        idx
    }

    /// The map after the entry at `idx` has changed.
    proof fn lemma_entry_changed(pre: Processor, post: Processor, idx: usize, name: Seq<char>, m0: Map<Seq<char>, ElementInfoView>)
        requires
            pre.wf(),
            idx < pre.infos().len(),
            pre.names()[idx as int] == name,
            post.names() == pre.names(),
            post.elements.values().len() == pre.elements.values().len(),
            forall|j: int|
                0 <= j < pre.elements.values().len() && j != idx ==> post.elements.values()[j]
                    == pre.elements.values()[j],
            map_of(pre.names(), pre.infos()).insert(name, pre.infos()[idx as int]) == m0.insert(
                name,
                pre.infos()[idx as int],
            ),
        ensures
            post.wf(),
            map_of(post.names(), post.infos()) == m0.insert(name, post.infos()[idx as int]),
    {
        let keys = pre.names();
        let infos1 = pre.infos();
        let new_info = post.infos()[idx as int];
        assert(post.infos() =~= infos1.update(idx as int, new_info));
        lemma_map_update(keys, infos1, idx as int, new_info);
        lemma_map_update(keys, infos1, idx as int, infos1[idx as int]);
        let m1 = map_of(keys, infos1);
        assert(m1.insert(name, new_info) =~= m1.insert(name, infos1[idx as int]).insert(name, new_info));
        assert(m0.insert(name, infos1[idx as int]).insert(name, new_info) =~= m0.insert(name, new_info));
    }

    /// Marks the `code` elements among `ids` as void.
    fn mark_void(&mut self, dom: &Dom, ids: &Vec<NodeId>)
        requires
            old(self).wf(),
            dom.wf(),
            forall|i: int| 0 <= i < ids@.len() ==> ids@[i] < dom@.len(),
        ensures
            final(self).wf(),
            final(self).view().open == old(self).view().open,
            final(self).view().recent == old(self).view().recent,
            final(self).view().elements == marked_void(old(self).view().elements, code_names(dom@, ids@)),
    {
        let ghost m0 = self.view().elements;
        let mut i: usize = 0;
        proof {
            assert(ids@.take(0) =~= Seq::<NodeId>::empty());
        }
        while i < ids.len()
            invariant
                self.wf(),
                dom.wf(),
                i <= ids.len(),
                forall|j: int| 0 <= j < ids@.len() ==> ids@[j] < dom@.len(),
                self.view().open == old(self).view().open,
                self.view().recent == old(self).view().recent,
                self.view().elements == marked_void(m0, code_names(dom@, ids@.take(i as int))),
            decreases ids.len() - i,
        {
            let n = ids[i];
            proof {
                assert(ids@.take(i + 1).drop_last() =~= ids@.take(i as int));
                assert(ids@.take(i + 1).last() == n);
            }
            if dom.is_html_element(n, "code") {
                let name = dom.text_content(n);
                let ghost before = self.view().elements;
                let idx = self.entry(name);
                let ghost pre = *self;
                let info = self.elements.value_mut(idx);
                info.is_void_element = true;
                proof {
                    Self::lemma_entry_changed(pre, *self, idx, name@, before);
                    let names = code_names(dom@, ids@.take(i + 1));
                    assert(names.drop_last() =~= code_names(dom@, ids@.take(i as int)));
                }
            }
            i += 1;
        }
        assert(ids@.take(i as int) =~= ids@);
    }

    /// Should be called for each node of the document, in preorder.
    pub fn visit(&mut self, dom: &Dom, node: NodeId)
        requires
            old(self).wf(),
            dom.wf(),
            node < dom@.len(),
        ensures
            final(self).wf(),
            final(self).view() == visited(old(self).view(), dom@, node),
    {
        let ghost f = dom@;
        let ghost s0 = self.view();
        let level = heading_level(dom, node);
        // If the heading ends the "Optional tags" section, clear that state.
        match (self.in_optional_tags_heading, level) {
            (Some(level0), Some(l)) => {
                if l <= level0 {
                    self.in_optional_tags_heading = None;
                }
            },
            _ => {},
        }
        let ghost open1 = self.in_optional_tags_heading;
        // If we encounter an "Optional tags" section, start observing relevant paragraphs.
        // When one is encountered, possibly add it.
        match level {
            Some(l) => {
                if trimmed_content_is(dom, node, "Optional tags") {
                    self.in_optional_tags_heading = Some(l);
                }
            },
            None => {
                if self.in_optional_tags_heading.is_some() && dom.is_html_element(node, "p") {
                    match find_paragraph_subject(dom, node) {
                        Some(name) => {
                            let ghost before = self.view().elements;
                            let idx = self.entry(name);
                            let ghost pre = *self;
                            let info = self.elements.value_mut(idx);
                            info.optional_tags_info.push(node);
                            proof {
                                Self::lemma_entry_changed(pre, *self, idx, name@, before);
                            }
                        },
                        None => {},
                    }
                }
            },
        }
        let ghost m1 = self.view().elements;
        // If we encounter the Void elements section, look for the next dt.
        if dom.is_html_element(node, "dfn") && trimmed_content_is(dom, node, "Void elements") {
            match dom.parent_node(node) {
                Some(dt) => {
                    assert(f[node as int].parent is Some);
                    if dom.is_html_element(dt, "dt") {
                        let dds = dt_descriptions(dom, dt);
                        let mut j: usize = 0;
                        proof {
                            assert(dds@.take(0) =~= Seq::<NodeId>::empty());
                            lemma_listed_valid(f, dt);
                        }
                        while j < dds.len()
                            invariant
                                self.wf(),
                                dom.wf(),
                                f == dom@,
                                j <= dds.len(),
                                forall|i: int| 0 <= i < dds@.len() ==> dds@[i] < f.len(),
                                self.view().open == visited(s0, f, node).open,
                                self.view().recent == s0.recent,
                                self.view().elements == marked_void(m1, all_code_names(f, dds@.take(j as int))),
                            decreases dds.len() - j,
                        {
                            let ghost before = self.view().elements;
                            let order = scan_dom(dom, dds[j]);
                            proof {
                                assert forall|i: int| 0 <= i < order@.len() implies order@[i] < f.len() by {
                                    assert(reaches(f, dds@[j as int], order@[i]));
                                    lemma_reaches_valid(f, dds@[j as int], order@[i]);
                                }
                            }
                            self.mark_void(dom, &order);
                            proof {
                                assert(dds@.take(j + 1).drop_last() =~= dds@.take(j as int));
                                assert(dds@.take(j + 1).last() == dds@[j as int]);
                                lemma_marked_concat(
                                    m1,
                                    all_code_names(f, dds@.take(j as int)),
                                    code_names(f, order@),
                                );
                            }
                            j += 1;
                        }
                        assert(dds@.take(j as int) =~= dds@);
                    }
                },
                None => {},
            }
        }
        // If we see an element dfn, watch out for the upcoming <dl class="element">.
        if dom.is_html_element(node, "dfn") && dom.has_attribute(node, &QualName::attribute("element")) {
            self.most_recent_element_dfn = Some(dom.text_content(node));
        }
        // If we see a <dl class="element">, record that.
        if dom.is_html_element(node, "dl") && dom.has_class(node, "element") {
            let recent = self.most_recent_element_dfn.take();
            match recent {
                Some(elem) => {
                    let ghost before = self.view().elements;
                    let idx = self.entry(elem);
                    let ghost pre = *self;
                    let info = self.elements.value_mut(idx);
                    if info.dl.is_none() {
                        info.dl = Some(node);
                    }
                    proof {
                        Self::lemma_entry_changed(pre, *self, idx, elem@, before);
                    }
                },
                None => {},
            }
        }
    }

    /// Inserts, for each element in the order of the names, the information
    /// on tag omission before the attributes term of its definition list.
    pub fn apply(self, dom: &mut Dom) -> (result: Result<(), Error>)
        requires
            self.wf(),
            old(dom).wf(),
            forall|i: int, j: int|
                0 <= i < self.infos().len() && 0 <= j < self.infos()[i].optional_tags_info.len() ==> (
                #[trigger] self.infos()[i].optional_tags_info[j]) < old(dom)@.len(),
            forall|i: int|
                0 <= i < self.infos().len() && (#[trigger] self.infos()[i]).dl is Some ==> self.infos()[i].dl->0
                    < old(dom)@.len(),
        ensures
            final(dom).wf(),
            result is Ok,
            exists|steps: Seq<Forest>| #[trigger]
                entries_inserted(steps, self.infos()) && steps[0] == old(dom)@ && steps.last() == final(dom)@,
    {
        let ghost f0 = dom@;
        let ghost infos = self.infos();
        let ghost mut steps: Seq<Forest> = seq![f0];
        let n = self.elements.len();
        let mut i: usize = 0;
        while i < n
            invariant
                self.wf(),
                dom.wf(),
                n == infos.len(),
                infos == self.infos(),
                i <= n,
                f0.len() <= dom@.len(),
                forall|a: int, b: int|
                    0 <= a < infos.len() && 0 <= b < infos[a].optional_tags_info.len() ==> (
                    #[trigger] infos[a].optional_tags_info[b]) < f0.len(),
                forall|a: int| 0 <= a < infos.len() && (#[trigger] infos[a]).dl is Some ==> infos[a].dl->0 < f0.len(),
                steps.len() == i + 1,
                steps[0] == f0,
                steps.last() == dom@,
                forall|a: int| 0 <= a < i ==> entry_inserted(#[trigger] steps[a], steps[a + 1], infos[a]),
            decreases n - i,
        {
            let ghost f = dom@;
            let info = self.elements.value(i);
            proof {
                assert(infos[i as int] == self.elements.values()[i as int]@);
                assert(info@ == infos[i as int]);
            }
            let target: Option<(NodeId, usize)> = match info.dl {
                Some(dl) => {
                    assert(infos[i as int].dl is Some);
                    match find_attributes_term(dom, dl) {
                        Some(k) => Some((dl, k)),
                        None => None,
                    }
                },
                None => None,
            };
            match target {
                Some((dl, k)) => {
                    proof {
                        assert forall|b: int| 0 <= b < info@.optional_tags_info.len() implies (
                        #[trigger] info@.optional_tags_info[b]) < f.len() by {
                            assert(infos[i as int].optional_tags_info[b] < f0.len());
                        }
                    }
                    let kids = make_entry(dom, info);
                    let ghost g = dom@;
                    proof {
                        lemma_kids_free(f, g, kids@, omission_entry(f, info@));
                        assert(g[dl as int] == f[dl as int]);
                        assert forall|c: int| 0 <= c < kids@.len() implies !reaches(g, #[trigger] kids@[c], dl) by {}
                        assert(adoptable(g, dl, kids@));
                    }
                    dom.splice_children(dl, k, k, &kids);
                    proof {
                        assert(entry_inserted_at(f, dom@, infos[i as int], dl, g, kids@, k as int));
                        assert(entry_inserted(f, dom@, infos[i as int]));
                    }
                },
                None => {
                    assert(entry_inserted(f, dom@, infos[i as int]));
                },
            }
            proof {
                let before = steps;
                steps = steps.push(dom@);
                assert forall|a: int| 0 <= a < i + 1 implies entry_inserted(
                    #[trigger] steps[a],
                    steps[a + 1],
                    infos[a],
                ) by {
                    if a < i {
                        assert(steps[a] == before[a] && steps[a + 1] == before[a + 1]);
                    }
                }
            }
            i += 1;
        }
        proof {
            assert(entries_inserted(steps, self.infos()));
        }
        Ok(())
    }
}

/// The descriptions of a term are nodes of the forest.
pub proof fn lemma_listed_valid(f: Forest, dt: NodeId)
    requires
        well_formed(f),
        dt < f.len(),
    ensures
        forall|i: int| 0 <= i < descriptions(f, dt).len() ==> descriptions(f, dt)[i] < f.len(),
{
    match f[dt as int].parent {
        Some(dl) => {
            assert(f[dt as int].parent is Some);
            let ch = f[dl as int].children;
            let e = crate::query::elements_from(f, ch, 0);
            lemma_elements_valid(f, ch, 0);
            lemma_skip_until_sub(e, dt);
            lemma_skip_html_sub(f, crate::query::skip_until(e, dt), "dt"@);
            lemma_take_html_sub(f, crate::query::skip_html(f, crate::query::skip_until(e, dt), "dt"@), "dd"@);
            let d = descriptions(f, dt);
            assert forall|i: int| 0 <= i < d.len() implies d[i] < f.len() by {
                if is_html(f, dl, "dl"@) {
                    assert(d.contains(d[i]));
                    let x = d[i];
                    assert(crate::query::skip_html(f, crate::query::skip_until(e, dt), "dt"@).contains(x));
                    assert(crate::query::skip_until(e, dt).contains(x));
                    assert(e.contains(x));
                    assert(ch.contains(x));
                    let k = choose|k: int| 0 <= k < ch.len() && ch[k] == x;
                    assert(f[dl as int].children[k] < f.len());
                }
            }
        },
        None => {},
    }
}

/// The elements among children are among the children.
pub proof fn lemma_elements_valid(f: Forest, ch: Seq<NodeId>, k: int)
    requires
        0 <= k,
    ensures
        forall|x: NodeId| crate::query::elements_from(f, ch, k).contains(x) ==> ch.contains(x),
    decreases ch.len() - k,
{
    if k < ch.len() {
        lemma_elements_valid(f, ch, k + 1);
        let rest = crate::query::elements_from(f, ch, k + 1);
        assert forall|x: NodeId| crate::query::elements_from(f, ch, k).contains(x) implies ch.contains(x) by {
            crate::model_proofs::lemma_concat_contains(seq![ch[k]], rest, x);
            if seq![ch[k]].contains(x) {
                assert(x == ch[k]);
            }
        }
    }
}

/// What is left after skipping is part of the list.
pub proof fn lemma_skip_until_sub(s: Seq<NodeId>, x: NodeId)
    ensures
        forall|y: NodeId| crate::query::skip_until(s, x).contains(y) ==> s.contains(y),
    decreases s.len(),
{
    if s.len() > 0 && s[0] != x {
        lemma_skip_until_sub(s.drop_first(), x);
        assert forall|y: NodeId| crate::query::skip_until(s, x).contains(y) implies s.contains(y) by {
            assert(crate::query::skip_until(s.drop_first(), x).contains(y));
            assert(s.drop_first().contains(y));
            let i = choose|i: int| 0 <= i < s.drop_first().len() && s.drop_first()[i] == y;
            assert(s[i + 1] == y);
        }
    }
}

/// What is left after skipping is part of the list.
pub proof fn lemma_skip_html_sub(f: Forest, s: Seq<NodeId>, tag: Seq<char>)
    ensures
        forall|y: NodeId| crate::query::skip_html(f, s, tag).contains(y) ==> s.contains(y),
    decreases s.len(),
{
    if s.len() > 0 && is_html(f, s[0], tag) {
        lemma_skip_html_sub(f, s.drop_first(), tag);
        assert forall|y: NodeId| crate::query::skip_html(f, s, tag).contains(y) implies s.contains(y) by {
            assert(crate::query::skip_html(f, s.drop_first(), tag).contains(y));
            assert(s.drop_first().contains(y));
            let i = choose|i: int| 0 <= i < s.drop_first().len() && s.drop_first()[i] == y;
            assert(s[i + 1] == y);
        }
    }
}

/// What is taken from the front is part of the list.
pub proof fn lemma_take_html_sub(f: Forest, s: Seq<NodeId>, tag: Seq<char>)
    ensures
        forall|y: NodeId| crate::query::take_html(f, s, tag).contains(y) ==> s.contains(y),
    decreases s.len(),
{
    if s.len() > 0 && is_html(f, s[0], tag) {
        lemma_take_html_sub(f, s.drop_first(), tag);
        let rest = crate::query::take_html(f, s.drop_first(), tag);
        assert forall|y: NodeId| crate::query::take_html(f, s, tag).contains(y) implies s.contains(y) by {
            crate::model_proofs::lemma_concat_contains(seq![s[0]], rest, y);
            if seq![s[0]].contains(y) {
                assert(s[0] == y);
            } else {
                assert(rest.contains(y));
                assert(s.drop_first().contains(y));
                let i = choose|i: int| 0 <= i < s.drop_first().len() && s.drop_first()[i] == y;
                assert(s[i + 1] == y);
            }
        }
    }
}

} // verus!
