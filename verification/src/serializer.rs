//! Serialisation of a tree to HTML. The text is written by html5ever's
//! serializer; this module walks the tree and tells the serializer what to
//! write. The end tag of `ref` elements is left out, as for a void element.

use vstd::prelude::*;
use vstd::utf8::encode_utf8;
use html5ever::serialize::{HtmlSerializer, Serializer};
use crate::dom::{Dom, NodeData};
use crate::model::{NodeId, Tree, DataView, NameView, AttrView, rank_of, ranked, edge, subtree};
use crate::model_proofs::{lemma_rank_of, lemma_subtree_fields};
use crate::names::{QualName, Attribute, attrs_view, html_ns};

verus! {

/// html5ever's `HtmlSerializer`, writing into a vector of bytes. It is held
/// in a field of a type of this crate because its own type is generic over
/// the writer.
#[verifier::external_body]
pub struct HtmlWriter {
    inner: HtmlSerializer<Vec<u8>>,
}

/// What to serialize of a node.
#[derive(Debug)]
pub enum TraversalScope {
    /// The node and everything below it.
    IncludeNode,
    /// Only what is below the node; the name, if given, is taken as that of
    /// the parent.
    ChildrenOnly(Option<QualName>),
}

/// A traversal scope as a value.
pub enum ScopeView {
    IncludeNode,
    ChildrenOnly(Option<NameView>),
}

impl View for TraversalScope {
    type V = ScopeView;

    open spec fn view(&self) -> ScopeView {
        match *self {
            TraversalScope::IncludeNode => ScopeView::IncludeNode,
            TraversalScope::ChildrenOnly(None) => ScopeView::ChildrenOnly(None),
            TraversalScope::ChildrenOnly(Some(n)) => ScopeView::ChildrenOnly(Some(n@)),
        }
    }
}

/// Options of a serialisation.
#[derive(Debug)]
pub struct SerializeOpts {
    /// Is scripting enabled? It decides how the text of `noscript` is written.
    pub scripting_enabled: bool,
    /// Serialize the root node?
    pub traversal_scope: TraversalScope,
}

impl Default for SerializeOpts {
    /// Scripting enabled, children only.
    fn default() -> (opts: SerializeOpts)
        ensures
            opts.scripting_enabled,
            opts.traversal_scope@ == ScopeView::ChildrenOnly(None),
    {
        SerializeOpts { scripting_enabled: true, traversal_scope: TraversalScope::ChildrenOnly(None) }
    }
}

/// One request to the serializer.
#[allow(inconsistent_fields)]
pub enum SerCall {
    /// The serializer was made with these options.
    New { scripting_enabled: bool, scope: ScopeView },
    StartElem { name: NameView, attrs: Seq<AttrView> },
    EndElem { name: NameView },
    Text { text: Seq<char> },
    Comment { text: Seq<char> },
    Doctype { name: Seq<char> },
    ProcessingInstruction { target: Seq<char>, data: Seq<char> },
}

/// The requests that a serializer has received since it was made, its making
/// included, in order. The functions below are the only ones that make a
/// request of a serializer, and each records its own.
pub uninterp spec fn serializer_log(ser: HtmlWriter) -> Seq<SerCall>;

/// The bytes that html5ever's serializer has written after it has received
/// the requests `log`: what it writes for an element or a text depends on
/// the elements that are open, on their names, and on the options.
pub uninterp spec fn html_output(log: Seq<SerCall>) -> Seq<u8>;

/// By how much a request changes the number of elements that the serializer
/// holds open. A new serializer holds one entry for the root.
pub open spec fn opens(call: SerCall) -> int {
    match call {
        SerCall::New { .. } => 1,
        SerCall::StartElem { .. } => 1,
        SerCall::EndElem { .. } => -1,
        _ => 0,
    }
}

/// The number of elements that the serializer holds open after `log`.
pub open spec fn open_elements(log: Seq<SerCall>) -> int
    decreases log.len(),
{
    if log.len() == 0 {
        0
    } else {
        open_elements(log.drop_last()) + opens(log.last())
    }
}

/// `HtmlSerializer::new` on an empty vector, with `create_missing_parent`
/// off. The new serializer has received nothing but its making, and has
/// written nothing.
#[verifier::external_body]
fn new_serializer(opts: &SerializeOpts) -> (ser: HtmlWriter)
    ensures
        serializer_log(ser) == seq![
            SerCall::New { scripting_enabled: opts.scripting_enabled, scope: opts.traversal_scope@ },
        ],
        html_output(serializer_log(ser)) == Seq::<u8>::empty(),
{
    let name = |n: &QualName| html5ever::QualName::new(
        n.prefix.as_deref().map(html5ever::Prefix::from),
        html5ever::Namespace::from(n.ns.as_str()),
        html5ever::LocalName::from(n.local.as_str()),
    );
    let traversal_scope = match &opts.traversal_scope {
        TraversalScope::IncludeNode => html5ever::serialize::TraversalScope::IncludeNode,
        TraversalScope::ChildrenOnly(n) => html5ever::serialize::TraversalScope::ChildrenOnly(n.as_ref().map(name)),
    };
    let scripting_enabled = opts.scripting_enabled;
    let opts = html5ever::serialize::SerializeOpts { scripting_enabled, traversal_scope, create_missing_parent: false };
    HtmlWriter { inner: HtmlSerializer::new(Vec::new(), opts) }
}

/// `Serializer::start_elem` of `HtmlSerializer`, with the name and the
/// attributes converted to html5ever's. It reads the innermost open element,
/// so one must be open; on a vector it cannot fail. The contract records
/// the request.
#[verifier::external_body]
fn start_elem(ser: &mut HtmlWriter, name: &QualName, attrs: &Vec<Attribute>)
    requires
        open_elements(serializer_log(*old(ser))) >= 1,
    ensures
        serializer_log(*final(ser)) == serializer_log(*old(ser)).push(
            SerCall::StartElem { name: name@, attrs: attrs_view(attrs@) },
        ),
{
    let outside = |n: &QualName| html5ever::QualName::new(
        n.prefix.as_deref().map(html5ever::Prefix::from),
        html5ever::Namespace::from(n.ns.as_str()),
        html5ever::LocalName::from(n.local.as_str()),
    );
    let names: Vec<html5ever::QualName> = attrs.iter().map(|a| outside(&a.name)).collect();
    let pairs = names.iter().zip(attrs.iter()).map(|(n, a)| (n, a.value.as_str()));
    let _ = ser.inner.start_elem(outside(name), pairs);
}

/// `Serializer::end_elem` of `HtmlSerializer`. It closes the innermost open
/// element, so one must be open. The contract records the request.
#[verifier::external_body]
fn end_elem(ser: &mut HtmlWriter, name: &QualName)
    requires
        open_elements(serializer_log(*old(ser))) >= 1,
    ensures
        serializer_log(*final(ser)) == serializer_log(*old(ser)).push(SerCall::EndElem { name: name@ }),
{
    let _ = ser.inner.end_elem(html5ever::QualName::new(
        name.prefix.as_deref().map(html5ever::Prefix::from),
        html5ever::Namespace::from(name.ns.as_str()),
        html5ever::LocalName::from(name.local.as_str()),
    ));
}

/// `Serializer::write_text` of `HtmlSerializer`. It reads the innermost open
/// element, so one must be open. The contract records the request.
#[verifier::external_body]
fn write_text(ser: &mut HtmlWriter, text: &str)
    requires
        open_elements(serializer_log(*old(ser))) >= 1,
    ensures
        serializer_log(*final(ser)) == serializer_log(*old(ser)).push(SerCall::Text { text: text@ }),
{
    let _ = ser.inner.write_text(text);
}

/// `Serializer::write_comment` of `HtmlSerializer`: it writes the text
/// between `<!--` and `-->`, whatever element is open.
#[verifier::external_body]
fn write_comment(ser: &mut HtmlWriter, text: &str)
    ensures
        serializer_log(*final(ser)) == serializer_log(*old(ser)).push(SerCall::Comment { text: text@ }),
        html_output(serializer_log(*final(ser))) == html_output(serializer_log(*old(ser))) + encode_utf8(
            "<!--"@ + text@ + "-->"@,
        ),
{
    let _ = ser.inner.write_comment(text);
}

/// `Serializer::write_doctype` of `HtmlSerializer`: it writes the name
/// between `<!DOCTYPE ` and `>`, whatever element is open.
#[verifier::external_body]
fn write_doctype(ser: &mut HtmlWriter, name: &str)
    ensures
        serializer_log(*final(ser)) == serializer_log(*old(ser)).push(SerCall::Doctype { name: name@ }),
        html_output(serializer_log(*final(ser))) == html_output(serializer_log(*old(ser))) + encode_utf8(
            "<!DOCTYPE "@ + name@ + ">"@,
        ),
{
    let _ = ser.inner.write_doctype(name);
}

/// `Serializer::write_processing_instruction` of `HtmlSerializer`: it
/// writes the target, a space and the data between `<?` and `>`, whatever
/// element is open.
#[verifier::external_body]
fn write_processing_instruction(ser: &mut HtmlWriter, target: &str, data: &str)
    ensures
        serializer_log(*final(ser)) == serializer_log(*old(ser)).push(
            SerCall::ProcessingInstruction { target: target@, data: data@ },
        ),
        html_output(serializer_log(*final(ser))) == html_output(serializer_log(*old(ser))) + encode_utf8(
            "<?"@ + target@ + " "@ + data@ + ">"@,
        ),
{
    let _ = ser.inner.write_processing_instruction(target, data);
}

/// The field `writer` of `HtmlSerializer`: the bytes written so far.
#[verifier::external_body]
fn into_output(ser: HtmlWriter) -> (out: Vec<u8>)
    ensures
        out@ == html_output(serializer_log(ser)),
{
    ser.inner.writer
}

/// The end tag of this element is left out: it is the HTML element `ref`.
pub open spec fn omits_end_tag(name: NameView) -> bool {
    name.ns == html_ns() && name.local == "ref"@
}

/// Whether the end tag of an element with this name is left out.
pub fn is_void_ref(name: &QualName) -> (omit: bool)
    ensures
        omit == omits_end_tag(name@),
{
    let html = "http://www.w3.org/1999/xhtml".to_owned();
    let local = "ref".to_owned();
    name.ns == html && name.local == local
}

/// The requests that serialize a subtree: an element is opened, its children
/// follow, and it is closed unless its end tag is left out; a text, a comment,
/// a doctype or a processing instruction is one request. Template contents
/// are not serialized.
pub open spec fn node_calls(t: Tree) -> Seq<SerCall>
    decreases t, t.children.len() + 1,
{
    match t.data {
        DataView::Element { name, attrs, .. } => {
            seq![SerCall::StartElem { name, attrs }] + children_calls(t, 0) + if omits_end_tag(name) {
                Seq::empty()
            } else {
                seq![SerCall::EndElem { name }]
            }
        },
        DataView::Doctype { name, .. } => seq![SerCall::Doctype { name }],
        DataView::Text { contents } => seq![SerCall::Text { text: contents }],
        DataView::Comment { contents } => seq![SerCall::Comment { text: contents }],
        DataView::ProcessingInstruction { target, contents } => seq![
            SerCall::ProcessingInstruction { target, data: contents },
        ],
        DataView::Document => Seq::empty(),
    }
}

/// The requests that serialize the children of `t` from the `k`th on.
pub open spec fn children_calls(t: Tree, k: nat) -> Seq<SerCall>
    decreases t, t.children.len() - k,
{
    if k >= t.children.len() {
        Seq::empty()
    } else {
        node_calls(t.children[k as int]) + children_calls(t, k + 1)
    }
}

/// The subtree can be serialized with its root: the root is no document node,
/// and no document node stands among the children of an element in it.
pub open spec fn writable(t: Tree) -> bool
    decreases t,
{
    &&& !(t.data is Document)
    &&& t.data is Element ==> forall|k: int|
        0 <= k < t.children.len() ==> writable(#[trigger] t.children[k])
}

/// The subtree can be serialized in the given scope.
pub open spec fn serializable(t: Tree, scope: ScopeView) -> bool {
    match scope {
        ScopeView::IncludeNode => writable(t),
        ScopeView::ChildrenOnly(_) => forall|k: int|
            0 <= k < t.children.len() ==> writable(#[trigger] t.children[k]),
    }
}

/// All requests of a serialisation of a subtree, from the making of the
/// serializer on.
pub open spec fn serialize_calls(t: Tree, scripting_enabled: bool, scope: ScopeView) -> Seq<SerCall> {
    seq![SerCall::New { scripting_enabled, scope }] + match scope {
        ScopeView::IncludeNode => node_calls(t),
        ScopeView::ChildrenOnly(_) => children_calls(t, 0),
    }
}

/// The count of open elements of a log with one more request.
pub proof fn lemma_open_push(log: Seq<SerCall>, call: SerCall)
    ensures
        open_elements(log.push(call)) == open_elements(log) + opens(call),
{
    assert(log.push(call).drop_last() =~= log);
}

/// Tells the serializer to write the subtree below `id`.
fn serialize_node(dom: &Dom, id: NodeId, ser: &mut HtmlWriter)
    requires
        dom.wf(),
        id < dom@.len(),
        writable(subtree(dom@, id)),
        open_elements(serializer_log(*old(ser))) >= 1,
    ensures
        serializer_log(*final(ser)) == serializer_log(*old(ser)) + node_calls(subtree(dom@, id)),
        open_elements(serializer_log(*final(ser))) >= open_elements(serializer_log(*old(ser))),
    decreases rank_of(dom@)[id as int],
{
    let ghost f = dom@;
    let ghost t = subtree(f, id);
    let ghost log0 = serializer_log(*ser);
    proof {
        lemma_subtree_fields(f, id);
        lemma_rank_of(f);
    }
    match dom.data(id) {
        NodeData::Element { name, attrs, .. } => {
            start_elem(ser, name, attrs);
            proof {
                lemma_open_push(log0, SerCall::StartElem { name: name@, attrs: attrs_view(attrs@) });
            }
            let ghost log1 = serializer_log(*ser);
            let children = dom.children(id);
            let mut k: usize = 0;
            while k < children.len()
                invariant
                    dom.wf(),
                    f == dom@,
                    id < f.len(),
                    t == subtree(f, id),
                    t.data is Element,
                    writable(t),
                    children@ == f[id as int].children,
                    k <= children.len(),
                    ranked(f, rank_of(f)),
                    open_elements(serializer_log(*ser)) >= open_elements(log1),
                    open_elements(log1) >= 2,
                    serializer_log(*ser) + children_calls(t, k as nat) == log1 + children_calls(t, 0),
                decreases children.len() - k,
            {
                let c = children[k];
                let ghost before = serializer_log(*ser);
                proof {
                    assert(f[id as int].children[k as int] == c);
                    assert(edge(f, id, c));
                    lemma_subtree_fields(f, id);
                    assert(t.children[k as int] == subtree(f, c));
                    assert(writable(t.children[k as int]));
                }
                serialize_node(dom, c, ser);
                proof {
                    assert(serializer_log(*ser) + children_calls(t, (k + 1) as nat) =~= before
                        + children_calls(t, k as nat));
                }
                k += 1;
            }
            proof {
                assert(children_calls(t, k as nat) =~= Seq::<SerCall>::empty());
                assert(serializer_log(*ser) =~= log1 + children_calls(t, 0));
            }
            let ghost log2 = serializer_log(*ser);
            if !is_void_ref(name) {
                end_elem(ser, name);
                proof {
                    lemma_open_push(log2, SerCall::EndElem { name: name@ });
                    assert(serializer_log(*ser) =~= log0 + node_calls(t));
                }
            } else {
                assert(serializer_log(*ser) =~= log0 + node_calls(t));
            }
        },
        NodeData::Doctype { name, .. } => {
            write_doctype(ser, name.as_str());
            proof {
                lemma_open_push(log0, SerCall::Doctype { name: name@ });
                assert(serializer_log(*ser) =~= log0 + node_calls(t));
            }
        },
        NodeData::Text { contents } => {
            write_text(ser, contents.as_str());
            proof {
                lemma_open_push(log0, SerCall::Text { text: contents@ });
                assert(serializer_log(*ser) =~= log0 + node_calls(t));
            }
        },
        NodeData::Comment { contents } => {
            write_comment(ser, contents.as_str());
            proof {
                lemma_open_push(log0, SerCall::Comment { text: contents@ });
                assert(serializer_log(*ser) =~= log0 + node_calls(t));
            }
        },
        NodeData::ProcessingInstruction { target, contents } => {
            write_processing_instruction(ser, target.as_str(), contents.as_str());
            proof {
                lemma_open_push(
                    log0,
                    SerCall::ProcessingInstruction { target: target@, data: contents@ },
                );
                assert(serializer_log(*ser) =~= log0 + node_calls(t));
            }
        },
        NodeData::Document => {
            assert(false);
        },
    }
}

/// Whether the subtree below `id` can be serialized with its root.
fn is_writable(dom: &Dom, id: NodeId) -> (yes: bool)
    requires
        dom.wf(),
        id < dom@.len(),
    ensures
        yes == writable(subtree(dom@, id)),
    decreases rank_of(dom@)[id as int],
{
    let ghost f = dom@;
    let ghost t = subtree(f, id);
    proof {
        lemma_subtree_fields(f, id);
        lemma_rank_of(f);
    }
    match dom.data(id) {
        NodeData::Document => false,
        NodeData::Element { .. } => children_writable(dom, id),
        _ => true,
    }
}

/// Whether every subtree below a child of `id` can be serialized with its
/// root.
fn children_writable(dom: &Dom, id: NodeId) -> (yes: bool)
    requires
        dom.wf(),
        id < dom@.len(),
    ensures
        yes == forall|k: int|
            0 <= k < subtree(dom@, id).children.len() ==> writable(#[trigger] subtree(dom@, id).children[k]),
    decreases rank_of(dom@)[id as int], 0nat,
{
    let ghost f = dom@;
    let ghost t = subtree(f, id);
    proof {
        lemma_subtree_fields(f, id);
        lemma_rank_of(f);
    }
    let children = dom.children(id);
    let mut k: usize = 0;
    while k < children.len()
        invariant
            dom.wf(),
            f == dom@,
            id < f.len(),
            t == subtree(f, id),
            children@ == f[id as int].children,
            k <= children.len(),
            ranked(f, rank_of(f)),
            forall|j: int| 0 <= j < k ==> writable(#[trigger] t.children[j]),
        decreases children.len() - k,
    {
        let c = children[k];
        proof {
            assert(f[id as int].children[k as int] == c);
            assert(edge(f, id, c));
            lemma_subtree_fields(f, id);
            assert(t.children[k as int] == subtree(f, c));
        }
        if !is_writable(dom, c) {
            return false;
        }
        k += 1;
    }
    true
}

/// Whether `serialize` can be asked for this node in this scope.
pub fn can_serialize(dom: &Dom, node: NodeId, scope: &TraversalScope) -> (yes: bool)
    requires
        dom.wf(),
        node < dom@.len(),
    ensures
        yes == serializable(subtree(dom@, node), scope@),
{
    match scope {
        TraversalScope::IncludeNode => is_writable(dom, node),
        TraversalScope::ChildrenOnly(_) => children_writable(dom, node),
    }
}

/// Serializes the node, or only what is below it, as HTML. End tags of `ref`
/// elements are not written.
pub fn serialize(dom: &Dom, node: NodeId, opts: &SerializeOpts) -> (out: Vec<u8>)
    requires
        dom.wf(),
        node < dom@.len(),
        serializable(subtree(dom@, node), opts.traversal_scope@),
    ensures
        out@ == html_output(
            serialize_calls(subtree(dom@, node), opts.scripting_enabled, opts.traversal_scope@),
        ),
{
    let mut ser = new_serializer(opts);
    let ghost f = dom@;
    let ghost t = subtree(f, node);
    let ghost log0 = serializer_log(ser);
    proof {
        lemma_open_push(
            Seq::empty(),
            SerCall::New { scripting_enabled: opts.scripting_enabled, scope: opts.traversal_scope@ },
        );
        assert(log0 =~= Seq::<SerCall>::empty().push(
            SerCall::New { scripting_enabled: opts.scripting_enabled, scope: opts.traversal_scope@ },
        ));
        lemma_subtree_fields(f, node);
    }
    match &opts.traversal_scope {
        TraversalScope::IncludeNode => {
            serialize_node(dom, node, &mut ser);
        },
        TraversalScope::ChildrenOnly(_) => {
            let children = dom.children(node);
            let mut k: usize = 0;
            while k < children.len()
                invariant
                    dom.wf(),
                    f == dom@,
                    node < f.len(),
                    t == subtree(f, node),
                    children@ == f[node as int].children,
                    k <= children.len(),
                    forall|j: int| 0 <= j < t.children.len() ==> writable(#[trigger] t.children[j]),
                    open_elements(serializer_log(ser)) >= 1,
                    serializer_log(ser) + children_calls(t, k as nat) == log0 + children_calls(t, 0),
                decreases children.len() - k,
            {
                let c = children[k];
                let ghost before = serializer_log(ser);
                proof {
                    assert(f[node as int].children[k as int] == c);
                    lemma_subtree_fields(f, node);
                    assert(t.children[k as int] == subtree(f, c));
                    assert(writable(t.children[k as int]));
                }
                serialize_node(dom, c, &mut ser);
                proof {
                    assert(serializer_log(ser) + children_calls(t, (k + 1) as nat) =~= before
                        + children_calls(t, k as nat));
                }
                k += 1;
            }
            proof {
                assert(children_calls(t, k as nat) =~= Seq::<SerCall>::empty());
                assert(serializer_log(ser) =~= log0 + children_calls(t, 0));
            }
        },
    }
    into_output(ser)
}

} // verus!
