//! Construction of new elements.
//!
//! Use like:
//!   dom.create_element("a")
//!       .attribute(&mut dom, "href", "/")
//!       .text(&mut dom, "Home")
//!       .build()

use vstd::prelude::*;
use vstd::string::StringExecFns;
use crate::dom::{Dom, NodeData, fresh_node, with_data, with_attrs, attrs_of, is_element_node};
use crate::edit_model::{adoptable, spliced};
use crate::model::{NodeId, DataView, Forest, AttrView, reaches, edge, well_formed};
use crate::model_proofs::lemma_reaches_unfold;
use crate::names::{QualName, attribute_name, html_name, attrs_set};

verus! {

/// Convenience helper for constructing nodes: the element under construction.
pub struct ElementBuilder {
    element: NodeId,
}

/// An HTML element without attributes as a value.
pub open spec fn empty_element(local: Seq<char>) -> DataView {
    DataView::Element {
        name: html_name(local),
        attrs: Seq::empty(),
        template_contents: None,
        mathml_annotation_xml_integration_point: false,
    }
}

/// A node without children or template contents reaches only itself.
pub proof fn lemma_leaf_reaches(f: Forest, a: NodeId, x: NodeId)
    requires
        well_formed(f),
        a < f.len(),
        f[a as int].children.len() == 0,
        crate::model::template_of(f, a) is None,
    ensures
        reaches(f, a, x) <==> x == a,
{
    lemma_reaches_unfold(f, a, x);
    assert forall|v: NodeId| !edge(f, a, v) by {
        if f[a as int].children.contains(v) {
            let k = choose|k: int| 0 <= k < f[a as int].children.len() && f[a as int].children[k] == v;
        }
    }
}

impl Dom {
    /// Create a new HTML element, to be filled in through the builder.
    pub fn create_element(&mut self, name: &str) -> (builder: ElementBuilder)
        requires
            old(self).wf(),
        ensures
            final(self).wf(),
            builder.node() == old(self)@.len(),
            final(self)@ == old(self)@.push(fresh_node(empty_element(name@))),
    {
        let data = NodeData::Element {
            name: QualName::html(name),
            attrs: Vec::new(),
            template_contents: None,
            mathml_annotation_xml_integration_point: false,
        };
        assert(data@ == empty_element(name@)) by {
            assert(crate::names::attrs_view(Seq::<crate::names::Attribute>::empty()) =~= Seq::<AttrView>::empty());
        }
        ElementBuilder { element: self.create_node(data) }
    }
}

impl ElementBuilder {
    /// The element under construction.
    pub closed spec fn node(&self) -> NodeId {
        self.element
    }

    /// The builder can work on `f`: its element is an element of `f`.
    pub open spec fn fits(&self, f: Forest) -> bool {
        self.node() < f.len() && is_element_node(f, self.node())
    }

    /// Sets an attribute without namespace on the element.
    pub fn attribute(self, dom: &mut Dom, name: &str, value: &str) -> (out: Self)
        requires
            old(dom).wf(),
            self.fits(old(dom)@),
        ensures
            final(dom).wf(),
            out.node() == self.node(),
            out.fits(final(dom)@),
            final(dom)@ == with_data(
                old(dom)@,
                self.node(),
                with_attrs(
                    old(dom)@[self.node() as int].data,
                    attrs_set(attrs_of(old(dom)@, self.node()), attribute_name(name@), value@),
                ),
            ),
    {
        dom.set_attribute(self.element, &QualName::attribute(name), String::from_str(value));
        self
    }

    /// Appends children to the element.
    pub fn children(self, dom: &mut Dom, children: Vec<NodeId>) -> (out: Self)
        requires
            old(dom).wf(),
            self.fits(old(dom)@),
            adoptable(old(dom)@, self.node(), children@),
        ensures
            final(dom).wf(),
            out.node() == self.node(),
            out.fits(final(dom)@),
            final(dom)@ == spliced(
                old(dom)@,
                self.node(),
                old(dom)@[self.node() as int].children.len() as int,
                old(dom)@[self.node() as int].children.len() as int,
                children@,
            ),
    {
        dom.append_children(self.element, children);
        self
    }

    /// Appends one child to the element.
    pub fn child(self, dom: &mut Dom, child: NodeId) -> (out: Self)
        requires
            old(dom).wf(),
            self.fits(old(dom)@),
            adoptable(old(dom)@, self.node(), seq![child]),
        ensures
            final(dom).wf(),
            out.node() == self.node(),
            out.fits(final(dom)@),
            final(dom)@ == spliced(
                old(dom)@,
                self.node(),
                old(dom)@[self.node() as int].children.len() as int,
                old(dom)@[self.node() as int].children.len() as int,
                seq![child],
            ),
    {
        let mut kids: Vec<NodeId> = Vec::new();
        kids.push(child);
        assert(kids@ =~= seq![child]);
        self.children(dom, kids)
    }

    /// Appends a new text node to the element.
    pub fn text(self, dom: &mut Dom, text: &str) -> (out: Self)
        requires
            old(dom).wf(),
            self.fits(old(dom)@),
        ensures
            final(dom).wf(),
            out.node() == self.node(),
            out.fits(final(dom)@),
            final(dom)@ == spliced(
                old(dom)@.push(fresh_node(DataView::Text { contents: text@ })),
                self.node(),
                old(dom)@[self.node() as int].children.len() as int,
                old(dom)@[self.node() as int].children.len() as int,
                seq![old(dom)@.len() as usize],
            ),
    {
        let t = dom.create_text_node(text);
        proof {
            let f = dom@;
            lemma_leaf_reaches(f, t, self.node());
            assert(seq![t].no_duplicates());
            assert(adoptable(f, self.node(), seq![t]));
        }
        self.child(dom, t)
    }

    /// The finished element.
    pub fn build(self) -> (id: NodeId)
        ensures
            id == self.node(),
    {
        self.element
    }
}

} // verus!
