//! Generates an index of WebIDL interfaces.
//! This index is inserted where "INSERT INTERFACES HERE" appears.

use vstd::prelude::*;
use vstd::string::StringExecFns;
use crate::construct::{built, free_roots, build_text, build_element, plain_attribute, lemma_built_extends, lemma_built_rebase, kids_built, lemma_kids_grow, lemma_kids_free};
use crate::dom::{Dom, NodeData, is_html, has_class_token, attribute_of};
use crate::edit::replaced;
use crate::edit_model::adoptable;
use crate::errors::{Error, ErrorKind};
use crate::model::{NodeId, Forest, Tree, DataView, AttrView, text_content, own_text, shape, reaches};
use crate::model_proofs::{lemma_prefix_subtree, same_links};
use crate::names::{QualName, Attribute, attribute_name, attrs_view};
use crate::shape::{text_shape, element_shape, shapes};
use crate::string_map::{StringMap, map_of, sorted, lemma_map_insert, lemma_map_update};
use crate::text::{chars_of, string_of, ends_with, has_suffix, find, contains, has_substring, first_occurrence, decimal, push_decimal, views};

verus! {

/// What is known of one interface.
#[derive(Debug)]
pub struct InterfaceInfo {
    /// Number of times the interface definition was seen. Should be one.
    /// The count stops at the greatest number it can hold.
    seen: u32,
    /// The IDs of the partial interfaces, in the order they appear in the document.
    partials: Vec<String>,
    /// Set to true if a partial is missing its ID.
    has_partial_with_no_id: bool,
}

/// What is known of one interface, as a value.
pub struct InfoView {
    pub seen: u32,
    pub partials: Seq<Seq<char>>,
    pub has_partial_with_no_id: bool,
}

impl View for InterfaceInfo {
    type V = InfoView;

    closed spec fn view(&self) -> InfoView {
        InfoView {
            seen: self.seen,
            partials: views(self.partials@),
            has_partial_with_no_id: self.has_partial_with_no_id,
        }
    }
}

/// The state of the pass.
pub struct Processor {
    /// The interfaces encountered, keyed and sorted by name.
    interfaces: StringMap<InterfaceInfo>,
    /// The text nodes which contains the text "INSERT INTERFACES HERE".
    marker_nodes: Vec<NodeId>,
}

/// The string which marks where the index belongs.
pub open spec fn marker() -> Seq<char> {
    "INSERT INTERFACES HERE"@
}

/// What is known of an interface that has not been seen.
pub open spec fn unseen() -> InfoView {
    InfoView { seen: 0, partials: Seq::empty(), has_partial_with_no_id: false }
}

/// What node `w` declares by its text: `Some(true)` a partial interface,
/// `Some(false)` an interface, nothing otherwise.
pub open spec fn declares(f: Forest, w: NodeId) -> Option<bool> {
    match f[w as int].data {
        DataView::Text { contents } => if has_suffix(contents, "partial interface "@) {
            Some(true)
        } else if has_suffix(contents, "interface "@) {
            Some(false)
        } else {
            None
        },
        _ => None,
    }
}

/// Node `w` can hold the name of an interface: it is a `span`, `dfn` or `a`.
pub open spec fn holds_name(f: Forest, w: NodeId) -> bool {
    is_html(f, w, "span"@) || is_html(f, w, "dfn"@) || is_html(f, w, "a"@)
}

/// What is known of an interface after one more declaration.
pub open spec fn declared(info: InfoView, partial: bool, id: Option<Seq<char>>) -> InfoView {
    if partial {
        match id {
            Some(id) => InfoView {
                seen: info.seen,
                partials: info.partials.push(id),
                has_partial_with_no_id: info.has_partial_with_no_id,
            },
            None => InfoView { seen: info.seen, partials: info.partials, has_partial_with_no_id: true },
        }
    } else {
        InfoView {
            seen: if info.seen < u32::MAX {
                (info.seen + 1) as u32
            } else {
                info.seen
            },
            partials: info.partials,
            has_partial_with_no_id: info.has_partial_with_no_id,
        }
    }
}

/// What is known of `name` in `m`.
pub open spec fn info_of(m: Map<Seq<char>, InfoView>, name: Seq<char>) -> InfoView {
    if m.contains_key(name) {
        m[name]
    } else {
        unseen()
    }
}

/// The interfaces after the two neighbours `w0`, `w1` have been looked at.
pub open spec fn recorded(m: Map<Seq<char>, InfoView>, f: Forest, w0: NodeId, w1: NodeId) -> Map<Seq<char>, InfoView> {
    match declares(f, w0) {
        Some(partial) => if holds_name(f, w1) {
            m.insert(
                text_content(f, w1),
                declared(
                    info_of(m, text_content(f, w1)),
                    partial,
                    attribute_of(f, w1, attribute_name("id"@)),
                ),
            )
        } else {
            m
        },
        None => m,
    }
}

/// The interfaces after all pairs of neighbours among `ch` from the `i`th on
/// have been looked at, in order.
pub open spec fn windows_recorded(m: Map<Seq<char>, InfoView>, f: Forest, ch: Seq<NodeId>, i: int) -> Map<Seq<char>, InfoView>
    decreases ch.len() - i,
{
    if i < 0 || i + 1 >= ch.len() {
        m
    } else {
        windows_recorded(recorded(m, f, ch[i], ch[i + 1]), f, ch, i + 1)
    }
}

/// Node `node` is a `<code class="idl">` inside a `<pre>` that is no
/// extract: a place where interfaces are defined.
pub open spec fn is_idl_block(f: Forest, node: NodeId) -> bool {
    is_html(f, node, "code"@) && has_class_token(f, node, "idl"@) && match f[node as int].parent {
        Some(p) => is_html(f, p, "pre"@) && !has_class_token(f, p, "extract"@),
        None => false,
    }
}

/// Node `node` is a text that holds the marker.
pub open spec fn holds_marker(f: Forest, node: NodeId) -> bool {
    f[node as int].data is Text && has_substring(own_text(f, node), marker())
}

/// The views of the infos of a list.
pub closed spec fn info_views(infos: Seq<InterfaceInfo>) -> Seq<InfoView> {
    infos.map_values(|i: InterfaceInfo| i@)
}

/// A link to a partial interface.
pub open spec fn link_shape(id: Seq<char>, text: Seq<char>) -> Tree {
    element_shape(
        "a"@,
        seq![AttrView { name: attribute_name("href"@), value: "#"@ + id }],
        seq![text_shape(text)],
    )
}

/// The links to the partial interfaces from the `i`th on, each after a
/// space and numbered from one.
pub open spec fn more_links(partials: Seq<Seq<char>>, i: int) -> Seq<Tree>
    decreases partials.len() - i,
{
    if i < 0 || i >= partials.len() {
        Seq::empty()
    } else {
        seq![text_shape(" "@), link_shape(partials[i], decimal((i + 1) as nat))] + more_links(partials, i + 1)
    }
}

/// What follows the name of an interface in the index: nothing without
/// partial interfaces, a link "partial" for one, numbered links for more.
pub open spec fn partial_links(partials: Seq<Seq<char>>) -> Seq<Tree> {
    if partials.len() == 0 {
        Seq::empty()
    } else if partials.len() == 1 {
        seq![text_shape(", "@), link_shape(partials[0], "partial"@)]
    } else {
        seq![text_shape(", "@), link_shape(partials[0], "partial 1"@)] + more_links(partials, 1)
    }
}

/// The entry of one interface in the index.
pub open spec fn item_shape(name: Seq<char>, partials: Seq<Seq<char>>) -> Tree {
    element_shape(
        "li"@,
        Seq::empty(),
        seq![element_shape("code"@, Seq::empty(), seq![text_shape(name)])] + partial_links(partials),
    )
}

/// The index: a list with one entry for each interface, in the order of the
/// names.
pub open spec fn index_shape(names: Seq<Seq<char>>, infos: Seq<InfoView>) -> Tree {
    element_shape(
        "ul"@,
        seq![AttrView { name: attribute_name("class"@), value: "brief"@ }],
        Seq::new(names.len(), |i: int| item_shape(names[i], infos[i].partials)),
    )
}

/// The first interface, in the order of the names, that was defined more
/// than once.
pub open spec fn first_repeated(infos: Seq<InfoView>) -> Option<int>
    decreases infos.len(),
{
    if infos.len() == 0 {
        None
    } else {
        match first_repeated(infos.drop_last()) {
            Some(i) => Some(i),
            None => if infos.last().seen > 1 {
                Some(infos.len() - 1)
            } else {
                None
            },
        }
    }
}

/// What `apply` reports, if anything.
pub open spec fn report(f: Forest, markers: Seq<NodeId>, names: Seq<Seq<char>>, infos: Seq<InfoView>) -> Option<Seq<char>> {
    if markers.len() == 0 {
        Some("Marker \"INSERT INTERFACES HERE\" not found."@)
    } else if markers.len() > 1 {
        Some("\"INSERT INTERFACES HERE\" found "@ + decimal(markers.len()) + " times, expected just one."@)
    } else if !has_substring(own_text(f, markers[0]), marker()) {
        Some("Marker \"INSERT INTERFACES HERE\" not found (but was during first pass)."@)
    } else {
        match first_repeated(infos) {
            Some(i) => Some(
                "Interface "@ + names[i] + " defined "@ + decimal(infos[i].seen as nat) + " times."@,
            ),
            None => None,
        }
    }
}

/// The forest `new` is `g` after the text node `marker_node` has been
/// replaced by the nodes `b`, `ul` and `a`, which were built after `old`: the
/// text before the marker (which stands at `at`), the index, and the text
/// after the marker.
pub open spec fn index_inserted_at(
    old: Forest,
    new: Forest,
    marker_node: NodeId,
    index: Tree,
    g: Forest,
    b: NodeId,
    ul: NodeId,
    a: NodeId,
    at: int,
) -> bool {
    let text = own_text(old, marker_node);
    &&& first_occurrence(text, marker(), at)
    &&& built(old, g, b, text_shape(text.subrange(0, at)))
    &&& built(old, g, ul, index)
    &&& built(old, g, a, text_shape(text.subrange(at + marker().len(), text.len() as int)))
    &&& free_roots(g, seq![b, ul, a])
    &&& new == replaced(g, marker_node, seq![b, ul, a])
}

/// The forest `new` is `old` after the text node `marker_node` has been
/// replaced by the text before the marker, the index, and the text after the
/// marker, all three made of new nodes.
pub open spec fn index_inserted(old: Forest, new: Forest, marker_node: NodeId, index: Tree) -> bool {
    exists|g: Forest, b: NodeId, ul: NodeId, a: NodeId, at: int|
        index_inserted_at(old, new, marker_node, index, g, b, ul, a, at)
}

/// Creates a link to a partial interface.
fn make_link(dom: &mut Dom, id: &str, text: &str) -> (link: NodeId)
    requires
        old(dom).wf(),
    ensures
        built(old(dom)@, final(dom)@, link, link_shape(id@, text@)),
{
    let ghost f0 = dom@;
    let t = build_text(dom, text);
    let mut href = String::from_str("#");
    href.append(id);
    let mut attrs: Vec<Attribute> = Vec::new();
    attrs.push(plain_attribute("href", href.as_str()));
    let mut kids: Vec<NodeId> = Vec::new();
    kids.push(t);
    proof {
        assert(kids@ =~= seq![t]);
        assert(attrs_view(attrs@) =~= seq![AttrView { name: attribute_name("href"@), value: "#"@ + id@ }]);
        assert(crate::shape::shapes(dom@, kids@) =~= seq![text_shape(text@)]);
    }
    build_element(dom, "a", attrs, kids, Ghost(f0))
}

/// Creates the entry of one interface in the index.
fn make_item(dom: &mut Dom, name: &str, partials: &Vec<String>) -> (li: NodeId)
    requires
        old(dom).wf(),
    ensures
        built(old(dom)@, final(dom)@, li, item_shape(name@, views(partials@))),
{
    let ghost f0 = dom@;
    let ghost ps = views(partials@);
    let t = build_text(dom, name);
    let ghost f1 = dom@;
    let mut code_kids: Vec<NodeId> = Vec::new();
    code_kids.push(t);
    proof {
        assert(code_kids@ =~= seq![t]);
        assert(shapes(f1, code_kids@) =~= seq![text_shape(name@)]);
    }
    let code = build_element(dom, "code", Vec::new(), code_kids, Ghost(f0));
    let ghost code_tree = element_shape("code"@, Seq::<AttrView>::empty(), seq![text_shape(name@)]);
    let mut kids: Vec<NodeId> = Vec::new();
    kids.push(code);
    let ghost mut trees: Seq<Tree> = seq![code_tree];
    proof {
        assert(attrs_view(Seq::<Attribute>::empty()) =~= Seq::<AttrView>::empty());
        assert(kids@ =~= seq![code]);
        assert(shapes(dom@, kids@) =~= trees);
        assert(kids_built(f0, dom@, kids@, trees));
    }
    if partials.len() == 1 {
        let ghost fa = dom@;
        let sep = build_text(dom, ", ");
        proof {
            lemma_kids_grow(f0, fa, dom@, kids@, trees, sep, text_shape(", "@));
            trees = trees.push(text_shape(", "@));
        }
        kids.push(sep);
        let ghost fb = dom@;
        let link = make_link(dom, partials[0].as_str(), "partial");
        proof {
            assert(ps[0] == partials@[0]@);
            lemma_kids_grow(f0, fb, dom@, kids@, trees, link, link_shape(ps[0], "partial"@));
            trees = trees.push(link_shape(ps[0], "partial"@));
        }
        kids.push(link);
        assert(trees =~= seq![code_tree] + partial_links(ps));
    } else if partials.len() > 1 {
        let ghost fa = dom@;
        let sep = build_text(dom, ", ");
        proof {
            lemma_kids_grow(f0, fa, dom@, kids@, trees, sep, text_shape(", "@));
            trees = trees.push(text_shape(", "@));
        }
        kids.push(sep);
        let ghost fb = dom@;
        let link = make_link(dom, partials[0].as_str(), "partial 1");
        proof {
            assert(ps[0] == partials@[0]@);
            lemma_kids_grow(f0, fb, dom@, kids@, trees, link, link_shape(ps[0], "partial 1"@));
            trees = trees.push(link_shape(ps[0], "partial 1"@));
        }
        kids.push(link);
        let mut i: usize = 1;
        while i < partials.len()
            invariant
                1 <= i <= partials.len(),
                ps == views(partials@),
                dom.wf(),
                kids_built(f0, dom@, kids@, trees),
                trees + more_links(ps, i as int) == seq![code_tree] + partial_links(ps),
            decreases partials.len() - i,
        {
            let ghost fc = dom@;
            let space = build_text(dom, " ");
            proof {
                lemma_kids_grow(f0, fc, dom@, kids@, trees, space, text_shape(" "@));
                trees = trees.push(text_shape(" "@));
            }
            kids.push(space);
            let mut number = String::new();
            assert(i + 1 <= usize::MAX) by {
                assert(i < partials.len());
            }
            push_decimal(&mut number, (i + 1) as u64);
            let ghost fd = dom@;
            let link = make_link(dom, partials[i].as_str(), number.as_str());
            proof {
                assert(ps[i as int] == partials@[i as int]@);
                assert(number@ =~= decimal((i + 1) as nat));
                lemma_kids_grow(f0, fd, dom@, kids@, trees, link, link_shape(ps[i as int], number@));
                let before = trees;
                trees = trees.push(link_shape(ps[i as int], number@));
                assert(trees + more_links(ps, i + 1) =~= before.drop_last() + more_links(ps, i as int));
            }
            kids.push(link);
            i += 1;
        }
        assert(trees + Seq::<Tree>::empty() =~= trees);
    } else {
        assert(trees =~= seq![code_tree] + partial_links(ps));
    }
    proof {
        lemma_kids_free(f0, dom@, kids@, trees);
    }
    build_element(dom, "li", Vec::new(), kids, Ghost(f0))
}

impl Processor {
    /// The names of the interfaces encountered, in ascending order.
    pub closed spec fn names(&self) -> Seq<Seq<char>> {
        self.interfaces.keys()
    }

    /// What is known of the interfaces, in the order of their names.
    pub closed spec fn infos(&self) -> Seq<InfoView> {
        info_views(self.interfaces.values())
    }

    /// What is known of each interface encountered.
    pub open spec fn interfaces(&self) -> Map<Seq<char>, InfoView> {
        map_of(self.names(), self.infos())
    }

    /// The text nodes that hold the marker, in the order of the visits.
    pub closed spec fn markers(&self) -> Seq<NodeId> {
        self.marker_nodes@
    }

    /// The names are in ascending order, and each has its info.
    pub open spec fn wf(&self) -> bool {
        sorted(self.names()) && self.names().len() == self.infos().len()
    }

    /// A pass that has seen nothing.
    pub fn new() -> (out: Processor)
        ensures
            out.wf(),
            out.names() == Seq::<Seq<char>>::empty(),
            out.markers() == Seq::<NodeId>::empty(),
    {
        let out = Processor { interfaces: StringMap::new(), marker_nodes: Vec::new() };
        assert(out.infos() =~= Seq::<InfoView>::empty());
        out
    }

    /// Records the declaration that the neighbours `w0`, `w1` make, if any.
    fn record(&mut self, dom: &Dom, w0: NodeId, w1: NodeId)
        requires
            old(self).wf(),
            dom.wf(),
            w0 < dom@.len(),
            w1 < dom@.len(),
        ensures
            final(self).wf(),
            final(self).markers() == old(self).markers(),
            final(self).interfaces() == recorded(old(self).interfaces(), dom@, w0, w1),
    {
        let is_partial = match dom.data(w0) {
            NodeData::Text { contents } => {
                let a = chars_of(contents.as_str());
                if ends_with(&a, &chars_of("partial interface ")) {
                    true
                } else if ends_with(&a, &chars_of("interface ")) {
                    false
                } else {
                    return;
                }
            },
            _ => {
                return;
            },
        };
        // These definitions must appear as a <span>, <dfn> or <a> element.
        if !dom.is_html_element(w1, "span") && !dom.is_html_element(w1, "dfn") && !dom.is_html_element(
            w1,
            "a",
        ) {
            return;
        }
        let name = dom.text_content(w1);
        let ghost keys0 = self.names();
        let ghost infos0 = self.infos();
        let ghost m0 = self.interfaces();
        let fresh = InterfaceInfo { seen: 0, partials: Vec::new(), has_partial_with_no_id: false };
        assert(fresh@ == unseen()) by {
            assert(views(fresh.partials@) =~= Seq::<Seq<char>>::empty());
        }
        let ghost values0 = self.interfaces.values();
        let idx = self.interfaces.ensure(name, fresh);
        let ghost keys1 = self.names();
        let ghost infos1 = self.infos();
        proof {
            if keys0.contains(name@) {
            } else {
                let values1 = self.interfaces.values();
                assert(values1 == values0.insert(idx as int, fresh));
                assert(keys1.len() == keys0.len() + 1);
                assert forall|j: int| 0 <= j < infos1.len() implies infos1[j] == infos0.insert(
                    idx as int,
                    unseen(),
                )[j] by {
                    assert(infos1[j] == values1[j]@);
                    if j < idx {
                        assert(values1[j] == values0[j]);
                    } else if j > idx {
                        assert(values1[j] == values0[j - 1]);
                    }
                }
                assert(infos1 =~= infos0.insert(idx as int, unseen()));
                lemma_map_insert(keys0, infos0, idx as int, name@, unseen());
            }
            lemma_map_update(keys1, infos1, idx as int, infos1[idx as int]);
            assert(infos1[idx as int] == info_of(m0, name@));
        }
        let id = dom.get_attribute(w1, &QualName::attribute("id"));
        let info = self.interfaces.value_mut(idx);
        let ghost before = info@;
        if is_partial {
            match id {
                Some(id) => {
                    info.partials.push(id);
                    assert(views(info.partials@) =~= before.partials.push(id@));
                },
                None => {
                    info.has_partial_with_no_id = true;
                },
            }
        } else {
            if info.seen < u32::MAX {
                info.seen += 1;
            }
        }
        proof {
            let new_info = declared(infos1[idx as int], is_partial, attribute_of(dom@, w1, attribute_name("id"@)));
            assert(self.infos() =~= infos1.update(idx as int, new_info));
            lemma_map_update(keys1, infos1, idx as int, new_info);
            let m1 = map_of(keys1, infos1);
            assert(m1.insert(name@, new_info) =~= m0.insert(name@, new_info));
        }
    }

    /// Should be called for each node of the document.
    pub fn visit(&mut self, dom: &Dom, node: NodeId)
        requires
            old(self).wf(),
            dom.wf(),
            node < dom@.len(),
        ensures
            final(self).wf(),
            final(self).interfaces() == if is_idl_block(dom@, node) {
                windows_recorded(old(self).interfaces(), dom@, dom@[node as int].children, 0)
            } else {
                old(self).interfaces()
            },
            final(self).markers() == if holds_marker(dom@, node) {
                old(self).markers().push(node)
            } else {
                old(self).markers()
            },
    {
        // We're looking for <code class="idl"> inside a <pre>, to find
        // potential interfaces defined there.
        let in_pre = match dom.parent_node(node) {
            Some(p) => {
                assert(dom@[node as int].parent is Some);
                dom.is_html_element(p, "pre") && !dom.has_class(p, "extract")
            },
            None => false,
        };
        if dom.is_html_element(node, "code") && dom.has_class(node, "idl") && in_pre {
            let children = dom.children(node);
            let ghost m0 = self.interfaces();
            let mut i: usize = 0;
            let last: usize = if children.len() == 0 {
                0
            } else {
                children.len() - 1
            };
            while i < last
                invariant
                    last == if children@.len() == 0 {
                        0
                    } else {
                        children@.len() - 1
                    },
                    self.wf(),
                    dom.wf(),
                    node < dom@.len(),
                    children@ == dom@[node as int].children,
                    i <= children.len(),
                    self.markers() == old(self).markers(),
                    windows_recorded(self.interfaces(), dom@, children@, i as int) == windows_recorded(
                        m0,
                        dom@,
                        children@,
                        0,
                    ),
                decreases children.len() - i,
            {
                assert(dom@[node as int].children[i as int] < dom@.len());
                assert(dom@[node as int].children[i + 1] < dom@.len());
                self.record(dom, children[i], children[i + 1]);
                i += 1;
            }
        }
        let holds = match dom.data(node) {
            NodeData::Text { contents } => contains(&chars_of(contents.as_str()), &chars_of("INSERT INTERFACES HERE")),
            _ => false,
        };
        if holds {
            self.marker_nodes.push(node);
        }
    }

    /// Where the first interface that was defined more than once stands.
    fn find_repeated(&self) -> (at: Option<usize>)
        requires
            self.wf(),
        ensures
            match at {
                Some(i) => first_repeated(self.infos()) == Some(i as int) && i < self.infos().len(),
                None => first_repeated(self.infos()) is None,
            },
    {
        let ghost infos = self.infos();
        let n = self.interfaces.len();
        let mut i: usize = 0;
        assert(first_repeated(infos.take(0)) is None);
        while i < n
            invariant
                self.wf(),
                n == infos.len(),
                infos == self.infos(),
                i <= n,
                first_repeated(infos.take(i as int)) is None,
            decreases n - i,
        {
            proof {
                assert(infos.take(i + 1).drop_last() =~= infos.take(i as int));
                assert(infos.take(i + 1).last() == infos[i as int]);
                assert(infos[i as int] == self.interfaces.values()[i as int]@);
            }
            if self.interfaces.value(i).seen > 1 {
                proof {
                    lemma_first_repeated_prefix(infos, i + 1);
                }
                return Some(i);
            }
            i += 1;
        }
        assert(infos.take(n as int) =~= infos);
        None
    }

    /// Creates the index of all interfaces.
    fn make_index(&self, dom: &mut Dom) -> (ul: NodeId)
        requires
            self.wf(),
            old(dom).wf(),
        ensures
            built(old(dom)@, final(dom)@, ul, index_shape(self.names(), self.infos())),
    {
        let ghost f0 = dom@;
        let ghost names = self.names();
        let ghost infos = self.infos();
        let ghost items = Seq::new(names.len(), |i: int| item_shape(names[i], infos[i].partials));
        let n = self.interfaces.len();
        let mut kids: Vec<NodeId> = Vec::new();
        let mut i: usize = 0;
        proof {
            assert(shapes(dom@, kids@) =~= items.take(0));
        }
        while i < n
            invariant
                self.wf(),
                n == names.len(),
                names == self.names(),
                infos == self.infos(),
                items == Seq::new(names.len(), |i: int| item_shape(names[i], infos[i].partials)),
                i <= n,
                dom.wf(),
                kids_built(f0, dom@, kids@, items.take(i as int)),
            decreases n - i,
        {
            let ghost fa = dom@;
            let info = self.interfaces.value(i);
            let li = make_item(dom, self.interfaces.key(i).as_str(), &info.partials);
            proof {
                assert(infos[i as int] == self.interfaces.values()[i as int]@);
                lemma_kids_grow(f0, fa, dom@, kids@, items.take(i as int), li, items[i as int]);
                assert(items.take(i as int).push(items[i as int]) =~= items.take(i + 1));
            }
            kids.push(li);
            i += 1;
        }
        let mut attrs: Vec<Attribute> = Vec::new();
        attrs.push(plain_attribute("class", "brief"));
        proof {
            assert(items.take(n as int) =~= items);
            assert(attrs_view(attrs@) =~= seq![AttrView { name: attribute_name("class"@), value: "brief"@ }]);
            lemma_kids_free(f0, dom@, kids@, items);
        }
        build_element(dom, "ul", attrs, kids, Ghost(f0))
    }

    /// Replaces the text node that holds the marker by the text before the
    /// marker, the index of the interfaces, and the text after the marker.
    /// Fails, and leaves the tree as it is, where the marker does not stand
    /// in exactly one text node, or an interface was defined more than once.
    pub fn apply(self, dom: &mut Dom) -> (result: Result<(), Error>)
        requires
            self.wf(),
            old(dom).wf(),
            forall|i: int|
                0 <= i < self.markers().len() ==> (#[trigger] self.markers()[i]) < old(dom)@.len() && old(dom)@[self.markers()[i] as int].data is Text,
        ensures
            final(dom).wf(),
            match result {
                Ok(_) => report(old(dom)@, self.markers(), self.names(), self.infos()) is None && index_inserted(
                    old(dom)@,
                    final(dom)@,
                    self.markers()[0],
                    index_shape(self.names(), self.infos()),
                ),
                Err(e) => final(dom)@ == old(dom)@ && e.spec_kind() == ErrorKind::InvalidData && report(
                    old(dom)@,
                    self.markers(),
                    self.names(),
                    self.infos(),
                ) == Some(e.spec_message()),
            },
    {
        // It is likely an author error to not include anywhere to insert an
        // interface index.
        if self.marker_nodes.len() == 0 {
            return Err(
                Error::new(
                    ErrorKind::InvalidData,
                    String::from_str("Marker \"INSERT INTERFACES HERE\" not found."),
                ),
            );
        }
        if self.marker_nodes.len() > 1 {
            let mut message = String::from_str("\"INSERT INTERFACES HERE\" found ");
            push_decimal(&mut message, self.marker_nodes.len() as u64);
            message.append(" times, expected just one.");
            return Err(Error::new(ErrorKind::InvalidData, message));
        }
        let node = self.marker_nodes[0];
        assert(node == self.markers()[0]);
        // We need to find where the marker appears in the text so that we
        // can split it into two text nodes.
        let text = match dom.data(node) {
            NodeData::Text { contents } => chars_of(contents.as_str()),
            _ => Vec::new(),
        };
        let pattern = chars_of("INSERT INTERFACES HERE");
        let position = match find(&text, &pattern) {
            Some(p) => p,
            None => {
                return Err(
                    Error::new(
                        ErrorKind::InvalidData,
                        String::from_str(
                            "Marker \"INSERT INTERFACES HERE\" not found (but was during first pass).",
                        ),
                    ),
                );
            },
        };
        assert(has_substring(text@, marker()));
        assert(crate::text::occurs_at(text@, pattern@, position as int));
        match self.find_repeated() {
            Some(i) => {
                let mut message = String::from_str("Interface ");
                message.append(self.interfaces.key(i).as_str());
                message.append(" defined ");
                assert(self.infos()[i as int] == self.interfaces.values()[i as int]@);
                push_decimal(&mut message, self.interfaces.value(i).seen as u64);
                message.append(" times.");
                return Err(Error::new(ErrorKind::InvalidData, message));
            },
            None => {},
        }
        let text_len = text.len();
        assert(position + pattern.len() <= text_len);
        let end_position = position + pattern.len();
        let ghost f0 = dom@;
        let before = build_text(dom, string_of(&text, 0, position).as_str());
        let ghost f1 = dom@;
        // Then, we need to construct a list of interfaces and their partial interfaces.
        let ul = self.make_index(dom);
        let ghost f2 = dom@;
        let after = build_text(dom, string_of(&text, end_position, text.len()).as_str());
        let ghost g = dom@;
        // Finally, we replace the marker's text node with the combination of the two.
        let mut replacements: Vec<NodeId> = Vec::new();
        replacements.push(before);
        replacements.push(ul);
        replacements.push(after);
        proof {
            assert(replacements@ =~= seq![before, ul, after]);
            assert forall|x: NodeId| x < f1.len() implies same_links(f1[x as int], #[trigger] g[x as int]) by {
                assert(f2[x as int] == f1[x as int]);
            }
            assert forall|x: NodeId| x < f2.len() implies same_links(f2[x as int], #[trigger] g[x as int]) by {}
            lemma_prefix_subtree(f1, g, before);
            lemma_prefix_subtree(f2, g, ul);
            assert(g[before as int] == f1[before as int]) by {
                assert(f2[before as int] == f1[before as int]);
            }
            assert(g[ul as int] == f2[ul as int]);
            assert forall|x: int| 0 <= x < f0.len() implies #[trigger] g[x] == f0[x] by {
                assert(f1[x] == f0[x]);
                assert(f2[x] == f1[x]);
            }
            assert(before < ul && ul < after);
            assert(seq![before, ul, after].no_duplicates());
            assert(free_roots(g, seq![before, ul, after]));
            assert(g[node as int] == f0[node as int]);
            match g[node as int].parent {
                Some(p) => {
                    assert(f0[node as int].parent is Some);
                    assert(p < f0.len());
                    let three = seq![before, ul, after];
                    assert forall|k: int| 0 <= k < three.len() implies !reaches(g, #[trigger] three[k], p) by {
                        if reaches(g, before, p) {
                            assert(reaches(f1, before, p));
                        }
                        if reaches(g, ul, p) {
                            assert(reaches(f2, ul, p));
                        }
                    }
                    assert(adoptable(g, p, three));
                },
                None => {},
            }
        }
        dom.replace_with(node, replacements);
        proof {
            assert(own_text(f0, node) == text@);
            assert(text@.subrange(0, text@.len() as int) =~= text@);
            assert(first_occurrence(text@, marker(), position as int));
            lemma_built_extends(f0, f1, f2, before, text_shape(text@.subrange(0, position as int)));
            lemma_built_extends(f0, f2, g, before, text_shape(text@.subrange(0, position as int)));
            lemma_built_rebase(f0, f1, f2, ul, index_shape(self.names(), self.infos()));
            lemma_built_extends(f0, f2, g, ul, index_shape(self.names(), self.infos()));
            lemma_built_rebase(
                f0,
                f2,
                g,
                after,
                text_shape(text@.subrange(end_position as int, text@.len() as int)),
            );
            assert(index_inserted_at(
                f0,
                dom@,
                node,
                index_shape(self.names(), self.infos()),
                g,
                before,
                ul,
                after,
                position as int,
            ));
        }
        Ok(())
    }
}

/// The first repeated interface of a prefix, once found, is that of the
/// whole list.
pub proof fn lemma_first_repeated_prefix(infos: Seq<InfoView>, n: int)
    requires
        0 <= n <= infos.len(),
        first_repeated(infos.take(n)) is Some,
    ensures
        first_repeated(infos) == first_repeated(infos.take(n)),
    decreases infos.len() - n,
{
    if n < infos.len() {
        assert(infos.take(n + 1).drop_last() =~= infos.take(n));
        lemma_first_repeated_prefix(infos, n + 1);
    } else {
        assert(infos.take(n) =~= infos);
    }
}

} // verus!
