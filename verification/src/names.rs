//! Qualified names and attributes.

use vstd::prelude::*;
use vstd::string::StringExecFns;
use crate::model::{NameView, AttrView};

verus! {

/// The namespace of HTML elements.
pub open spec fn html_ns() -> Seq<char> {
    "http://www.w3.org/1999/xhtml"@
}

/// A qualified name: an optional prefix, a namespace URL (empty for no
/// namespace) and a local name.
#[derive(Debug)]
pub struct QualName {
    pub prefix: Option<String>,
    pub ns: String,
    pub local: String,
}

impl View for QualName {
    type V = NameView;

    open spec fn view(&self) -> NameView {
        NameView {
            prefix: match self.prefix {
                Some(p) => Some(p@),
                None => None,
            },
            ns: self.ns@,
            local: self.local@,
        }
    }
}

impl Clone for QualName {
    fn clone(&self) -> (out: Self)
        ensures
            out@ == self@,
    {
        QualName {
            prefix: match &self.prefix {
                Some(p) => Some(p.clone()),
                None => None,
            },
            ns: self.ns.clone(),
            local: self.local.clone(),
        }
    }
}

impl QualName {
    /// A name from its three parts.
    pub fn new(prefix: Option<String>, ns: String, local: String) -> (out: QualName)
        ensures
            out.prefix == prefix,
            out.ns == ns,
            out.local == local,
    {
        QualName { prefix, ns, local }
    }

    /// The name of an attribute without prefix or namespace.
    pub fn attribute(local: &str) -> (out: QualName)
        ensures
            out@ == attribute_name(local@),
    {
        QualName { prefix: None, ns: String::new(), local: String::from_str(local) }
    }

    /// The name of an HTML element.
    pub fn html(local: &str) -> (out: QualName)
        ensures
            out@ == html_name(local@),
    {
        QualName {
            prefix: None,
            ns: String::from_str("http://www.w3.org/1999/xhtml"),
            local: String::from_str(local),
        }
    }

    /// Whether two names have the same prefix, namespace and local name.
    pub fn same(&self, other: &QualName) -> (eq: bool)
        ensures
            eq == (self@ == other@),
    {
        let prefixes = match (&self.prefix, &other.prefix) {
            (Some(a), Some(b)) => *a == *b,
            (None, None) => true,
            _ => false,
        };
        prefixes && self.ns == other.ns && self.local == other.local
    }
}

/// The name of an attribute without prefix or namespace, as a value.
pub open spec fn attribute_name(local: Seq<char>) -> NameView {
    NameView { prefix: None, ns: Seq::empty(), local }
}

/// The name of an HTML element, as a value.
pub open spec fn html_name(local: Seq<char>) -> NameView {
    NameView { prefix: None, ns: html_ns(), local }
}

/// An attribute: a qualified name and a value.
#[derive(Debug)]
pub struct Attribute {
    pub name: QualName,
    pub value: String,
}

impl View for Attribute {
    type V = AttrView;

    open spec fn view(&self) -> AttrView {
        AttrView { name: self.name@, value: self.value@ }
    }
}

impl Clone for Attribute {
    fn clone(&self) -> (out: Self)
        ensures
            out@ == self@,
    {
        Attribute { name: self.name.clone(), value: self.value.clone() }
    }
}

/// The attributes of a list as values.
pub open spec fn attrs_view(attrs: Seq<Attribute>) -> Seq<AttrView> {
    attrs.map_values(|a: Attribute| a@)
}

/// Some attribute of the list has the name.
pub open spec fn has_attr(attrs: Seq<AttrView>, name: NameView) -> bool {
    exists|i: int| 0 <= i < attrs.len() && (#[trigger] attrs[i]).name == name
}

/// The `i`th attribute is the first of the list that has the name.
pub open spec fn first_match(attrs: Seq<AttrView>, name: NameView, i: int) -> bool {
    &&& 0 <= i < attrs.len()
    &&& attrs[i].name == name
    &&& forall|j: int| 0 <= j < i ==> (#[trigger] attrs[j]).name != name
}

/// The index of the first attribute with the name.
pub open spec fn first_index(attrs: Seq<AttrView>, name: NameView) -> int {
    choose|i: int| first_match(attrs, name, i)
}

/// The value of the first attribute with the name, if there is one.
pub open spec fn attr_value(attrs: Seq<AttrView>, name: NameView) -> Option<Seq<char>> {
    if has_attr(attrs, name) {
        Some(attrs[first_index(attrs, name)].value)
    } else {
        None
    }
}

/// The list after a write: the first attribute with the name gets the value,
/// or, where none has the name, the attribute is added at the end.
pub open spec fn attrs_set(attrs: Seq<AttrView>, name: NameView, value: Seq<char>) -> Seq<
    AttrView,
> {
    if has_attr(attrs, name) {
        attrs.update(first_index(attrs, name), AttrView { name, value })
    } else {
        attrs.push(AttrView { name, value })
    }
}

/// The list without the first attribute that has the name.
pub open spec fn attrs_removed(attrs: Seq<AttrView>, name: NameView) -> Seq<AttrView> {
    if has_attr(attrs, name) {
        attrs.remove(first_index(attrs, name))
    } else {
        attrs
    }
}

/// Where the first attribute with the name stands, or the length of the list
/// if none has it.
pub fn find_attr(attrs: &Vec<Attribute>, name: &QualName) -> (i: usize)
    ensures
        i <= attrs.len(),
        i < attrs.len() <==> has_attr(attrs_view(attrs@), name@),
        i < attrs.len() ==> first_match(attrs_view(attrs@), name@, i as int) && i == first_index(
            attrs_view(attrs@),
            name@,
        ),
{
    let ghost av = attrs_view(attrs@);
    let mut i: usize = 0;
    while i < attrs.len()
        invariant
            i <= attrs.len(),
            av == attrs_view(attrs@),
            forall|j: int| 0 <= j < i ==> (#[trigger] av[j]).name != name@,
        decreases attrs.len() - i,
    {
        if attrs[i].name.same(name) {
            proof {
                assert(av[i as int] == attrs@[i as int]@);
                assert(first_match(av, name@, i as int));
                let c = first_index(av, name@);
                assert(first_match(av, name@, c));
            }
            return i;
        }
        assert(av[i as int] == attrs@[i as int]@);
        i += 1;
    }
    i
}

} // verus!
