//! The token filter that makes one element void: after each of its start tags
//! the filter sends the tree builder a matching end tag, so that the element
//! never has children.

use vstd::prelude::*;
use crate::model::AttrView;
use crate::names::{Attribute, attrs_view};

verus! {

/// The two kinds of tag tokens.
#[derive(Clone, Copy, Debug, PartialEq, Eq, Structural)]
pub enum TagKind {
    StartTag,
    EndTag,
}

/// A tag token.
#[derive(Debug)]
pub struct Tag {
    pub kind: TagKind,
    pub name: String,
    pub self_closing: bool,
    pub attrs: Vec<Attribute>,
}

/// A tag token as a value.
pub struct TagView {
    pub kind: TagKind,
    pub name: Seq<char>,
    pub self_closing: bool,
    pub attrs: Seq<AttrView>,
}

impl View for Tag {
    type V = TagView;

    open spec fn view(&self) -> TagView {
        TagView {
            kind: self.kind,
            name: self.name@,
            self_closing: self.self_closing,
            attrs: attrs_view(self.attrs@),
        }
    }
}

/// The end tag that closes the void element: no attributes, not
/// self-closing.
pub open spec fn closing_tag(name: Seq<char>) -> TagView {
    TagView { kind: TagKind::EndTag, name, self_closing: false, attrs: Seq::empty() }
}

/// The filter, set up for one tag name.
#[derive(Debug)]
pub struct VoidElementFilter {
    name: String,
}

impl VoidElementFilter {
    /// The name of the element that the filter makes void, as a value.
    pub closed spec fn spec_name(&self) -> Seq<char> {
        self.name@
    }

    /// A filter for the element `name`.
    pub fn new(name: String) -> (filter: VoidElementFilter)
        ensures
            filter.spec_name() == name@,
    {
        VoidElementFilter { name }
    }

    /// After `tag` the filter owes the sink an end tag: `tag` is a start tag
    /// of the void element, and the sink, when it took `tag`, did not ask the
    /// tokenizer to stop.
    pub open spec fn owes_close(&self, tag: TagView, sink_continues: bool) -> bool {
        tag.kind == TagKind::StartTag && tag.name == self.spec_name() && sink_continues
    }

    /// What the filter sends after it has forwarded `tag` and the sink has
    /// answered: the end tag of the void element where one is owed, nothing
    /// otherwise. Every token itself is forwarded unchanged.
    pub fn synthetic_close(&self, tag: &Tag, sink_continues: bool) -> (close: Option<Tag>)
        ensures
            match close {
                Some(t) => self.owes_close(tag@, sink_continues) && t@ == closing_tag(self.spec_name()),
                None => !self.owes_close(tag@, sink_continues),
            },
    {
        if tag.kind == TagKind::StartTag && tag.name == self.name && sink_continues {
            let t = Tag {
                kind: TagKind::EndTag,
                name: self.name.clone(),
                self_closing: false,
                attrs: Vec::new(),
            };
            assert(t@.attrs =~= Seq::<AttrView>::empty());
            Some(t)
        } else {
            None
        }
    }
}

} // verus!
