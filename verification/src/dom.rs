//! The tree: an arena of nodes, each with a parent link, an ordered list of
//! children and a payload. Children lists own; parent links only point back.

use vstd::prelude::*;
use vstd::string::StringExecFns;
use crate::model::{NodeId, NodeView, DataView, Forest, well_formed, ranked, rank_of, edge, template_of, with_template};
use crate::model_proofs::{lemma_rank_of, lemma_rank_bound};
use crate::names::{QualName, Attribute, attrs_view, attribute_name, has_attr, attr_value, attrs_set, attrs_removed, find_attr};
use crate::text::{chars_of, contains_token, has_token};

verus! {

/// What a node is.
#[derive(Debug)]
#[allow(inconsistent_fields)]
pub enum NodeData {
    /// The root of a document, or of the contents of a template.
    Document,
    /// A document type declaration.
    Doctype { name: String, public_id: String, system_id: String },
    /// A run of text.
    Text { contents: String },
    /// A comment.
    Comment { contents: String },
    /// An element.
    Element {
        name: QualName,
        attrs: Vec<Attribute>,
        /// The root of the contents of a `template` element.
        template_contents: Option<NodeId>,
        /// Whether a MathML `annotation-xml` element is an HTML integration
        /// point.
        mathml_annotation_xml_integration_point: bool,
    },
    /// A processing instruction.
    ProcessingInstruction { target: String, contents: String },
}

impl View for NodeData {
    type V = DataView;

    open spec fn view(&self) -> DataView {
        match *self {
            NodeData::Document => DataView::Document,
            NodeData::Doctype { name, public_id, system_id } => DataView::Doctype {
                name: name@,
                public_id: public_id@,
                system_id: system_id@,
            },
            NodeData::Text { contents } => DataView::Text { contents: contents@ },
            NodeData::Comment { contents } => DataView::Comment { contents: contents@ },
            NodeData::Element {
                name,
                attrs,
                template_contents,
                mathml_annotation_xml_integration_point,
            } => DataView::Element {
                name: name@,
                attrs: attrs_view(attrs@),
                template_contents,
                mathml_annotation_xml_integration_point,
            },
            NodeData::ProcessingInstruction { target, contents } => DataView::ProcessingInstruction {
                target: target@,
                contents: contents@,
            },
        }
    }
}

/// A copy of a list of attributes.
pub fn clone_attrs(attrs: &Vec<Attribute>) -> (out: Vec<Attribute>)
    ensures
        attrs_view(out@) == attrs_view(attrs@),
{
    let mut out: Vec<Attribute> = Vec::new();
    let mut i: usize = 0;
    while i < attrs.len()
        invariant
            i <= attrs.len(),
            out.len() == i,
            forall|j: int| 0 <= j < i ==> (#[trigger] out@[j])@ == attrs@[j]@,
        decreases attrs.len() - i,
    {
        out.push(attrs[i].clone());
        i += 1;
    }
    assert(attrs_view(out@) =~= attrs_view(attrs@));
    out
}

impl NodeData {
    /// A copy of the payload in which the element's template contents are
    /// `template` and the text of a text node is rewritten.
    pub fn rewritten_clone(&self, template: Option<NodeId>, rw: crate::rewrite::TextRewrite) -> (out: NodeData)
        ensures
            out@ == crate::rewrite::rewritten_data(rw, with_template(self@, template)),
    {
        match self {
            NodeData::Text { contents } => NodeData::Text {
                contents: crate::rewrite::rewrite_text(rw, contents.as_str()),
            },
            _ => self.clone_with_template(template),
        }
    }

    /// A copy of the payload in which the element's template contents are
    /// `template`.
    pub fn clone_with_template(&self, template: Option<NodeId>) -> (out: NodeData)
        ensures
            out@ == with_template(self@, template),
    {
        match self {
            NodeData::Document => NodeData::Document,
            NodeData::Doctype { name, public_id, system_id } => NodeData::Doctype {
                name: name.clone(),
                public_id: public_id.clone(),
                system_id: system_id.clone(),
            },
            NodeData::Text { contents } => NodeData::Text { contents: contents.clone() },
            NodeData::Comment { contents } => NodeData::Comment { contents: contents.clone() },
            NodeData::Element {
                name,
                attrs,
                template_contents,
                mathml_annotation_xml_integration_point,
            } => NodeData::Element {
                name: name.clone(),
                attrs: clone_attrs(attrs),
                template_contents: template,
                mathml_annotation_xml_integration_point: *mathml_annotation_xml_integration_point,
            },
            NodeData::ProcessingInstruction { target, contents } => {
                NodeData::ProcessingInstruction {
                    target: target.clone(),
                    contents: contents.clone(),
                }
            },
        }
    }
}

/// One node of the arena.
#[derive(Debug)]
pub struct Node {
    parent: Option<NodeId>,
    children: Vec<NodeId>,
    data: NodeData,
}

impl View for Node {
    type V = NodeView;

    closed spec fn view(&self) -> NodeView {
        NodeView { parent: self.parent, children: self.children@, data: self.data@ }
    }
}

/// The arena that holds every node of one or more trees.
#[derive(Debug)]
pub struct Dom {
    nodes: Vec<Node>,
}

impl View for Dom {
    type V = Forest;

    closed spec fn view(&self) -> Forest {
        self.nodes@.map_values(|n: Node| n@)
    }
}

/// A new node as a value: no parent, no children.
pub open spec fn fresh_node(data: DataView) -> NodeView {
    NodeView { parent: None, children: Seq::empty(), data }
}

/// The forest in which node `id` has the payload `data`.
pub open spec fn with_data(f: Forest, id: NodeId, data: DataView) -> Forest {
    f.update(id as int, NodeView { parent: f[id as int].parent, children: f[id as int].children, data })
}

/// The attributes of node `id`; none where it is no element.
pub open spec fn attrs_of(f: Forest, id: NodeId) -> Seq<crate::model::AttrView> {
    match f[id as int].data {
        DataView::Element { attrs, .. } => attrs,
        _ => Seq::empty(),
    }
}

/// The payload of element `id` with the attributes `attrs`.
pub open spec fn with_attrs(d: DataView, new_attrs: Seq<crate::model::AttrView>) -> DataView {
    match d {
        DataView::Element { name, attrs, template_contents, mathml_annotation_xml_integration_point } => {
            DataView::Element {
                name,
                attrs: new_attrs,
                template_contents,
                mathml_annotation_xml_integration_point,
            }
        },
        _ => d,
    }
}

/// Node `id` is an element.
pub open spec fn is_element_node(f: Forest, id: NodeId) -> bool {
    f[id as int].data is Element
}

/// Node `id` is an HTML element with the local name `tag`.
pub open spec fn is_html(f: Forest, id: NodeId, tag: Seq<char>) -> bool {
    match f[id as int].data {
        DataView::Element { name, .. } => name.ns == crate::names::html_ns() && name.local == tag,
        _ => false,
    }
}

/// The value of the attribute `name` of node `id`, if it is an element that
/// has it.
pub open spec fn attribute_of(f: Forest, id: NodeId, name: crate::model::NameView) -> Option<Seq<char>> {
    attr_value(attrs_of(f, id), name)
}

/// A change of payloads that keeps every link and every template root keeps
/// the forest well formed.
pub proof fn lemma_same_links_wf(f: Forest, f2: Forest)
    requires
        well_formed(f),
        f2.len() == f.len(),
        forall|x: NodeId|
            x < f.len() ==> (#[trigger] f2[x as int]).parent == f[x as int].parent && f2[x as int].children
                == f[x as int].children && template_of(f2, x) == template_of(f, x),
    ensures
        well_formed(f2),
{
    let r = rank_of(f);
    lemma_rank_of(f);
    assert forall|u: NodeId, v: NodeId| #[trigger] edge(f2, u, v) implies r[v as int] < r[u as int] by {
        assert(f2[u as int].children == f[u as int].children);
        assert(edge(f, u, v));
    }
    assert(ranked(f2, r));
    assert forall|c: NodeId| c < f2.len() && (#[trigger] f2[c as int]).parent is Some implies {
        &&& f2[c as int].parent->0 < f2.len()
        &&& f2[f2[c as int].parent->0 as int].children.contains(c)
    } by {
        assert(f[c as int].parent is Some);
        let p = f[c as int].parent->0;
        assert(f2[p as int].children == f[p as int].children);
    }
    assert forall|p: NodeId, k: int| p < f2.len() && 0 <= k < f2[p as int].children.len() implies {
        &&& (#[trigger] f2[p as int].children[k]) < f2.len()
        &&& f2[f2[p as int].children[k] as int].parent == Some(p)
    } by {
        assert(f2[p as int].children == f[p as int].children);
        let c = f[p as int].children[k];
        assert(f2[c as int].parent == f[c as int].parent);
    }
    assert forall|e: NodeId|
        e < f2.len() && (#[trigger] template_of(f2, e)) is Some implies template_of(f2, e)->0
        < f2.len() by {
        assert(f2[e as int].parent == f[e as int].parent);
        assert(template_of(f, e) is Some);
    }
    assert forall|p: NodeId| p < f2.len() implies (#[trigger] f2[p as int]).children.no_duplicates() by {
        assert(f[p as int].children.no_duplicates());
    }
}

/// Adding a node without parent or children keeps the forest well formed.
pub proof fn lemma_push_wf(f: Forest, data: DataView)
    requires
        well_formed(f),
        match data {
            DataView::Element { template_contents: Some(t), .. } => t < f.len(),
            _ => true,
        },
    ensures
        well_formed(f.push(fresh_node(data))),
{
    let f2 = f.push(fresh_node(data));
    let r = rank_of(f);
    lemma_rank_of(f);
    let b = lemma_rank_bound(r);
    let r2 = r.push(b);
    assert forall|u: NodeId, v: NodeId| #[trigger] edge(f2, u, v) implies r2[v as int] < r2[u as int] by {
        if u < f.len() {
            assert(f2[u as int] == f[u as int]);
            if f[u as int].children.contains(v) {
                let k = choose|k: int| 0 <= k < f[u as int].children.len() && f[u as int].children[k] == v;
                assert(f[u as int].children[k] < f.len());
            } else {
                assert(template_of(f, u) is Some);
            }
            assert(edge(f, u, v));
        } else {
            assert(!f2[u as int].children.contains(v));
        }
    }
    assert(ranked(f2, r2));
    assert forall|p: NodeId, k: int| p < f2.len() && 0 <= k < f2[p as int].children.len() implies {
        &&& (#[trigger] f2[p as int].children[k]) < f2.len()
        &&& f2[f2[p as int].children[k] as int].parent == Some(p)
    } by {
        assert(f2[p as int] == f[p as int]);
        let c = f[p as int].children[k];
        assert(f2[c as int] == f[c as int]);
    }
    assert forall|c: NodeId| c < f2.len() && (#[trigger] f2[c as int]).parent is Some implies {
        &&& f2[c as int].parent->0 < f2.len()
        &&& f2[f2[c as int].parent->0 as int].children.contains(c)
    } by {
        assert(f2[c as int] == f[c as int]);
        let p = f[c as int].parent->0;
        assert(f2[p as int] == f[p as int]);
    }
    assert forall|e: NodeId|
        e < f2.len() && (#[trigger] template_of(f2, e)) is Some implies template_of(f2, e)->0
        < f2.len() by {
        if e < f.len() {
            assert(f2[e as int] == f[e as int]);
            assert(template_of(f, e) is Some);
        }
    }
    assert forall|p: NodeId| p < f2.len() implies (#[trigger] f2[p as int]).children.no_duplicates() by {
        if p < f.len() {
            assert(f2[p as int] == f[p as int]);
        }
    }
}

impl Dom {
    /// The invariant of the tree: links agree and ownership has no cycles.
    pub open spec fn wf(&self) -> bool {
        well_formed(self@)
    }

    /// An arena without nodes.
    pub fn new() -> (dom: Dom)
        ensures
            dom@ == Seq::<NodeView>::empty(),
            dom.wf(),
    {
        let dom = Dom { nodes: Vec::new() };
        proof {
            assert(dom@ =~= Seq::<NodeView>::empty());
            assert(ranked(dom@, Seq::<nat>::empty()));
        }
        dom
    }

    /// The number of nodes ever created in the arena.
    pub fn len(&self) -> (n: usize)
        ensures
            n == self@.len(),
    {
        self.nodes.len()
    }

    /// Adds a node with the given payload, without parent or children. The
    /// template contents of an element must be a node of the arena.
    pub fn create_node(&mut self, data: NodeData) -> (id: NodeId)
        requires
            old(self).wf(),
            match data@ {
                DataView::Element { template_contents: Some(t), .. } => t < old(self)@.len(),
                _ => true,
            },
        ensures
            final(self).wf(),
            id == old(self)@.len(),
            final(self)@ == old(self)@.push(fresh_node(data@)),
    {
        let id = self.nodes.len();
        proof {
            lemma_push_wf(self@, data@);
        }
        self.nodes.push(Node { parent: None, children: Vec::new(), data });
        assert(self@ =~= old(self)@.push(fresh_node(data@)));
        id
    }

    /// Create a new text node.
    pub fn create_text_node(&mut self, text: &str) -> (id: NodeId)
        requires
            old(self).wf(),
        ensures
            final(self).wf(),
            id == old(self)@.len(),
            final(self)@ == old(self)@.push(fresh_node(DataView::Text { contents: text@ })),
    {
        self.create_node(NodeData::Text { contents: String::from_str(text) })
    }

    /// The payload of a node.
    pub fn data(&self, id: NodeId) -> (data: &NodeData)
        requires
            id < self@.len(),
        ensures
            data@ == self@[id as int].data,
    {
        &self.nodes[id].data
    }

    /// The children of a node, in order.
    pub fn children(&self, id: NodeId) -> (children: &Vec<NodeId>)
        requires
            id < self@.len(),
        ensures
            children@ == self@[id as int].children,
    {
        &self.nodes[id].children
    }

    /// Returns the parent node, if there is one.
    pub fn parent_node(&self, id: NodeId) -> (parent: Option<NodeId>)
        requires
            id < self@.len(),
        ensures
            parent == self@[id as int].parent,
    {
        self.nodes[id].parent
    }

    /// Returns true if the node is an element.
    pub fn is_element(&self, id: NodeId) -> (yes: bool)
        requires
            id < self@.len(),
        ensures
            yes == is_element_node(self@, id),
    {
        match &self.nodes[id].data {
            NodeData::Element { .. } => true,
            _ => false,
        }
    }

    /// Returns true if the node is an HTML element with the given tag name.
    pub fn is_html_element(&self, id: NodeId, tag_name: &str) -> (yes: bool)
        requires
            id < self@.len(),
        ensures
            yes == is_html(self@, id, tag_name@),
    {
        match &self.nodes[id].data {
            NodeData::Element { name, .. } => {
                let html = String::from_str("http://www.w3.org/1999/xhtml");
                let tag = String::from_str(tag_name);
                name.ns == html && name.local == tag
            },
            _ => false,
        }
    }

    /// Gets an attribute on the element, or None if absent or not an element.
    pub fn get_attribute(&self, id: NodeId, name: &QualName) -> (value: Option<String>)
        requires
            id < self@.len(),
        ensures
            match value {
                Some(v) => attribute_of(self@, id, name@) == Some(v@),
                None => attribute_of(self@, id, name@) is None,
            },
    {
        match &self.nodes[id].data {
            NodeData::Element { attrs, .. } => {
                let i = find_attr(attrs, name);
                if i < attrs.len() {
                    assert(attrs_view(attrs@)[i as int] == attrs@[i as int]@);
                    Some(attrs[i].value.clone())
                } else {
                    None
                }
            },
            _ => {
                assert(!has_attr(Seq::<crate::model::AttrView>::empty(), name@));
                None
            },
        }
    }

    /// Returns whether the node has the named attribute.
    pub fn has_attribute(&self, id: NodeId, name: &QualName) -> (yes: bool)
        requires
            id < self@.len(),
        ensures
            yes == attribute_of(self@, id, name@) is Some,
    {
        self.get_attribute(id, name).is_some()
    }

    /// Returns true if the attribute exists and has the value mentioned.
    pub fn attribute_is(&self, id: NodeId, name: &QualName, expected: &str) -> (yes: bool)
        requires
            id < self@.len(),
        ensures
            yes == (attribute_of(self@, id, name@) == Some(expected@)),
    {
        match self.get_attribute(id, name) {
            Some(v) => v == String::from_str(expected),
            None => false,
        }
    }

    /// Returns true if the node is an element with the given ID.
    pub fn has_id(&self, id: NodeId, value: &str) -> (yes: bool)
        requires
            id < self@.len(),
        ensures
            yes == (attribute_of(self@, id, attribute_name("id"@)) == Some(value@)),
    {
        self.attribute_is(id, &QualName::attribute("id"), value)
    }

    /// Returns true if the node is an element with the given class.
    pub fn has_class(&self, id: NodeId, class: &str) -> (yes: bool)
        requires
            id < self@.len(),
        ensures
            yes == has_class_token(self@, id, class@),
    {
        match self.get_attribute(id, &QualName::attribute("class")) {
            Some(v) => contains_token(&chars_of(v.as_str()), &chars_of(class)),
            None => false,
        }
    }

    /// If this is a text node, returns its text.
    pub fn node_text(&self, id: NodeId) -> (text: Option<String>)
        requires
            id < self@.len(),
        ensures
            match text {
                Some(t) => self@[id as int].data == (DataView::Text { contents: t@ }),
                None => !(self@[id as int].data is Text),
            },
    {
        match &self.nodes[id].data {
            NodeData::Text { contents } => Some(contents.clone()),
            _ => None,
        }
    }

    /// Writes the parent link of a node and nothing else.
    pub(crate) fn set_parent(&mut self, id: NodeId, parent: Option<NodeId>)
        requires
            id < old(self)@.len(),
        ensures
            final(self)@ == old(self)@.update(
                id as int,
                NodeView {
                    parent,
                    children: old(self)@[id as int].children,
                    data: old(self)@[id as int].data,
                },
            ),
    {
        self.nodes[id].parent = parent;
        assert(self@ =~= old(self)@.update(
            id as int,
            NodeView {
                parent,
                children: old(self)@[id as int].children,
                data: old(self)@[id as int].data,
            },
        ));
    }

    /// Writes the list of children of a node and nothing else.
    pub(crate) fn set_children(&mut self, id: NodeId, children: Vec<NodeId>)
        requires
            id < old(self)@.len(),
        ensures
            final(self)@ == old(self)@.update(
                id as int,
                NodeView {
                    parent: old(self)@[id as int].parent,
                    children: children@,
                    data: old(self)@[id as int].data,
                },
            ),
    {
        self.nodes[id].children = children;
        assert(self@ =~= old(self)@.update(
            id as int,
            NodeView {
                parent: old(self)@[id as int].parent,
                children: children@,
                data: old(self)@[id as int].data,
            },
        ));
    }

    /// Sets an attribute on the element: the first attribute with that name
    /// gets the value, or the attribute is added at the end. The node must be
    /// an element.
    pub fn set_attribute(&mut self, id: NodeId, name: &QualName, value: String)
        requires
            old(self).wf(),
            id < old(self)@.len(),
            is_element_node(old(self)@, id),
        ensures
            final(self).wf(),
            final(self)@ == with_data(
                old(self)@,
                id,
                with_attrs(old(self)@[id as int].data, attrs_set(attrs_of(old(self)@, id), name@, value@)),
            ),
    {
        let ghost goal = with_data(
            old(self)@,
            id,
            with_attrs(old(self)@[id as int].data, attrs_set(attrs_of(old(self)@, id), name@, value@)),
        );
        match &mut self.nodes[id].data {
            NodeData::Element { attrs, .. } => {
                let ghost before = attrs_view(attrs@);
                let i = find_attr(attrs, name);
                if i < attrs.len() {
                    attrs[i].value = value;
                    assert(attrs_view(attrs@) =~= attrs_set(before, name@, value@));
                } else {
                    attrs.push(Attribute { name: name.clone(), value });
                    assert(attrs_view(attrs@) =~= attrs_set(before, name@, value@));
                }
            },
            _ => {},
        }
        proof {
            assert(self@ =~= goal);
            lemma_same_links_wf(old(self)@, self@);
        }
    }

    /// Gives the element the list of attributes `attrs`. The node must be
    /// an element.
    pub fn replace_attrs(&mut self, id: NodeId, attrs: Vec<Attribute>)
        requires
            old(self).wf(),
            id < old(self)@.len(),
            is_element_node(old(self)@, id),
        ensures
            final(self).wf(),
            final(self)@ == with_data(old(self)@, id, with_attrs(old(self)@[id as int].data, attrs_view(attrs@))),
    {
        let ghost goal = with_data(
            old(self)@,
            id,
            with_attrs(old(self)@[id as int].data, attrs_view(attrs@)),
        );
        match &mut self.nodes[id].data {
            NodeData::Element { attrs: slot, .. } => {
                *slot = attrs;
            },
            _ => {},
        }
        proof {
            assert(self@ =~= goal);
            lemma_same_links_wf(old(self)@, self@);
        }
    }

    /// Gives the text node the text `text`. The node must be a text node.
    pub fn replace_text(&mut self, id: NodeId, text: String)
        requires
            old(self).wf(),
            id < old(self)@.len(),
            old(self)@[id as int].data is Text,
        ensures
            final(self).wf(),
            final(self)@ == with_data(old(self)@, id, DataView::Text { contents: text@ }),
    {
        let ghost goal = with_data(old(self)@, id, DataView::Text { contents: text@ });
        match &mut self.nodes[id].data {
            NodeData::Text { contents } => {
                *contents = text;
            },
            _ => {},
        }
        proof {
            assert(self@ =~= goal);
            lemma_same_links_wf(old(self)@, self@);
        }
    }

    /// Removes the first attribute with that name from the element, if
    /// present. The node must be an element.
    pub fn remove_attribute(&mut self, id: NodeId, name: &QualName)
        requires
            old(self).wf(),
            id < old(self)@.len(),
            is_element_node(old(self)@, id),
        ensures
            final(self).wf(),
            final(self)@ == with_data(
                old(self)@,
                id,
                with_attrs(old(self)@[id as int].data, attrs_removed(attrs_of(old(self)@, id), name@)),
            ),
    {
        let ghost goal = with_data(
            old(self)@,
            id,
            with_attrs(old(self)@[id as int].data, attrs_removed(attrs_of(old(self)@, id), name@)),
        );
        match &mut self.nodes[id].data {
            NodeData::Element { attrs, .. } => {
                let ghost before = attrs_view(attrs@);
                let i = find_attr(attrs, name);
                if i < attrs.len() {
                    attrs.remove(i);
                    assert(attrs_view(attrs@) =~= attrs_removed(before, name@));
                }
            },
            _ => {},
        }
        proof {
            assert(self@ =~= goal);
            lemma_same_links_wf(old(self)@, self@);
        }
    }
}

/// Node `id` is an element whose `class` attribute lists `class` among its
/// whitespace-separated tokens.
pub open spec fn has_class_token(f: Forest, id: NodeId, class: Seq<char>) -> bool {
    match attribute_of(f, id, attribute_name("class"@)) {
        Some(v) => has_token(v, class),
        None => false,
    }
}

} // verus!
