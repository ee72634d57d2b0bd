//! A tree under construction together with the line of the source that the
//! tokenizer has reached: every parse error is reported with the line at which
//! it was raised, and every element remembers the line at which it was made.

use std::collections::HashMap;
use vstd::prelude::*;
use vstd::string::StringExecFns;
use crate::dom::{Dom, NodeData, fresh_node};
use crate::errors::{Error, ErrorKind};
use crate::model::{NodeId, DataView};
use crate::names::{QualName, Attribute, attrs_view};
use crate::text::{decimal, push_decimal, joined, views, join};

verus! {

/// The tree, the current line, the lines of the elements and the errors so
/// far.
#[derive(Debug)]
pub struct RcDomWithLineNumbers {
    dom: Dom,
    document: NodeId,
    current_line: u64,
    node_line_map: HashMap<NodeId, u64>,
    errors: Vec<String>,
}

/// A message with the line at which it was raised in front.
pub open spec fn line_message(line: u64, msg: Seq<char>) -> Seq<char> {
    "Line "@ + decimal(line as nat) + ": "@ + msg
}

/// The report of all parse errors: a heading, then one error per line.
pub open spec fn parse_error_report(errors: Seq<Seq<char>>) -> Seq<char> {
    "Parse errors encountered:\n\n"@ + joined(errors, "\n"@)
}

/// The element that a tree builder asks for, as a value.
pub open spec fn built_element(
    name: QualName,
    attrs: Vec<Attribute>,
    template: Option<NodeId>,
    integration_point: bool,
) -> DataView {
    DataView::Element {
        name: name@,
        attrs: attrs_view(attrs@),
        template_contents: template,
        mathml_annotation_xml_integration_point: integration_point,
    }
}

/// A message with the line at which it was raised in front.
pub fn prefix_with_line(line: u64, msg: &str) -> (out: String)
    ensures
        out@ == line_message(line, msg@),
{
    let mut out = String::from_str("Line ");
    push_decimal(&mut out, line);
    out.append(": ");
    out.append(msg);
    assert(out@ =~= line_message(line, msg@));
    out
}

impl Default for RcDomWithLineNumbers {
    /// A tree that holds only the document root, at line 1, without errors.
    fn default() -> (out: RcDomWithLineNumbers)
        ensures
            out.wf(),
            out.spec_dom()@ == seq![fresh_node(DataView::Document)],
            out.spec_document() == 0,
            out.spec_current_line() == 1,
            out.lines() == Map::<NodeId, u64>::empty(),
            out.spec_errors() == Seq::<Seq<char>>::empty(),
    {
        RcDomWithLineNumbers::new()
    }
}

impl RcDomWithLineNumbers {
    /// The tree, as a value.
    pub closed spec fn spec_dom(&self) -> Dom {
        self.dom
    }

    /// The root of the document, as a value.
    pub closed spec fn spec_document(&self) -> NodeId {
        self.document
    }

    /// The line that the tokenizer has reached, as a value.
    pub closed spec fn spec_current_line(&self) -> u64 {
        self.current_line
    }

    /// The line at which each element was made.
    pub closed spec fn lines(&self) -> Map<NodeId, u64> {
        self.node_line_map@
    }

    /// The parse errors so far, in the order in which they were raised.
    pub closed spec fn spec_errors(&self) -> Seq<Seq<char>> {
        views(self.errors@)
    }

    /// The tree is well formed and holds the document root.
    pub open spec fn wf(&self) -> bool {
        self.spec_dom().wf() && self.spec_document() < self.spec_dom()@.len()
    }

    /// A tree that holds only the document root, at line 1, without errors.
    pub fn new() -> (out: RcDomWithLineNumbers)
        ensures
            out.wf(),
            out.spec_dom()@ == seq![fresh_node(DataView::Document)],
            out.spec_document() == 0,
            out.spec_current_line() == 1,
            out.lines() == Map::<NodeId, u64>::empty(),
            out.spec_errors() == Seq::<Seq<char>>::empty(),
    {
        let mut dom = Dom::new();
        let document = dom.create_node(NodeData::Document);
        let out = RcDomWithLineNumbers {
            dom,
            document,
            current_line: 1,
            node_line_map: HashMap::new(),
            errors: Vec::new(),
        };
        assert(out.spec_dom()@ =~= seq![fresh_node(DataView::Document)]);
        assert(out.spec_errors() =~= Seq::<Seq<char>>::empty());
        out
    }

    /// The tree.
    pub fn dom(&self) -> (dom: &Dom)
        ensures
            *dom == self.spec_dom(),
    {
        &self.dom
    }

    /// The tree alone.
    pub fn into_dom(self) -> (dom: Dom)
        ensures
            dom == self.spec_dom(),
    {
        self.dom
    }

    /// The tree, to be edited.
    pub fn dom_mut(&mut self) -> (dom: &mut Dom)
        ensures
            *dom == old(self).spec_dom(),
            final(self).spec_dom() == *final(dom),
            final(self).spec_document() == old(self).spec_document(),
            final(self).spec_current_line() == old(self).spec_current_line(),
            final(self).lines() == old(self).lines(),
            final(self).spec_errors() == old(self).spec_errors(),
    {
        &mut self.dom
    }

    /// The root of the document.
    pub fn document(&self) -> (id: NodeId)
        ensures
            id == self.spec_document(),
    {
        self.document
    }

    /// The line that the tokenizer has reached.
    pub fn current_line(&self) -> (line: u64)
        ensures
            line == self.spec_current_line(),
    {
        self.current_line
    }

    /// Records that the tokenizer has reached `line`.
    pub fn set_current_line(&mut self, line: u64)
        ensures
            final(self).spec_current_line() == line,
            final(self).spec_dom() == old(self).spec_dom(),
            final(self).spec_document() == old(self).spec_document(),
            final(self).lines() == old(self).lines(),
            final(self).spec_errors() == old(self).spec_errors(),
    {
        self.current_line = line;
    }

    /// Records a parse error, with the current line in front of its message.
    pub fn parse_error(&mut self, msg: &str)
        ensures
            final(self).spec_errors() == old(self).spec_errors().push(
                line_message(old(self).spec_current_line(), msg@),
            ),
            final(self).spec_dom() == old(self).spec_dom(),
            final(self).spec_document() == old(self).spec_document(),
            final(self).lines() == old(self).lines(),
            final(self).spec_current_line() == old(self).spec_current_line(),
    {
        let with_line = prefix_with_line(self.current_line, msg);
        self.errors.push(with_line);
        assert(self.spec_errors() =~= old(self).spec_errors().push(
            line_message(old(self).spec_current_line(), msg@),
        ));
    }

    /// Makes the element that the tree builder asks for, and records the
    /// current line for it. An element made as a template gets a new document
    /// node for its contents.
    pub fn create_element(
        &mut self,
        name: QualName,
        attrs: Vec<Attribute>,
        template: bool,
        integration_point: bool,
    ) -> (id: NodeId)
        requires
            old(self).wf(),
        ensures
            final(self).wf(),
            final(self).spec_dom()@ == if template {
                old(self).spec_dom()@.push(fresh_node(DataView::Document)).push(
                    fresh_node(
                        built_element(name, attrs, Some(old(self).spec_dom()@.len() as usize), integration_point),
                    ),
                )
            } else {
                old(self).spec_dom()@.push(fresh_node(built_element(name, attrs, None, integration_point)))
            },
            id == final(self).spec_dom()@.len() - 1,
            final(self).lines() == old(self).lines().insert(id, old(self).spec_current_line()),
            final(self).spec_document() == old(self).spec_document(),
            final(self).spec_current_line() == old(self).spec_current_line(),
            final(self).spec_errors() == old(self).spec_errors(),
    {
        broadcast use vstd::std_specs::hash::group_hash_axioms;

        let template_contents = if template {
            Some(self.dom.create_node(NodeData::Document))
        } else {
            None
        };
        let id = self.dom.create_node(
            NodeData::Element {
                name,
                attrs,
                template_contents,
                mathml_annotation_xml_integration_point: integration_point,
            },
        );
        self.node_line_map.insert(id, self.current_line);
        id
    }

    /// Returns the 1-based line number where the element `id` was created,
    /// if known.
    pub fn line_number_for(&self, id: NodeId) -> (line: Option<u64>)
        ensures
            line == if self.lines().contains_key(id) {
                Some(self.lines()[id])
            } else {
                None
            },
    {
        broadcast use vstd::std_specs::hash::group_hash_axioms;

        match self.node_line_map.get(&id) {
            Some(l) => Some(*l),
            None => None,
        }
    }

    /// Fails with one report of all parse errors if there are any.
    pub fn create_error_from_parse_errors(&self) -> (result: Result<(), Error>)
        ensures
            match result {
                Ok(_) => self.spec_errors().len() == 0,
                Err(e) => self.spec_errors().len() > 0 && e.spec_kind() == ErrorKind::InvalidData
                    && e.spec_message() == parse_error_report(self.spec_errors()),
            },
    {
        if self.errors.len() > 0 {
            let error_messages = join(&self.errors, "\n");
            let mut message = String::from_str("Parse errors encountered:\n\n");
            message.append(error_messages.as_str());
            Err(Error::new(ErrorKind::InvalidData, message))
        } else {
            Ok(())
        }
    }
}

} // verus!
