//! Inserts `<a class="self-link" href="#ID">` links for elements with `id`
//! attributes and certain classes.

use vstd::prelude::*;
use vstd::string::StringExecFns;
use url::Url;
use crate::builder::lemma_leaf_reaches;
use crate::dom::{Dom, fresh_node, is_html, is_element_node, has_class_token, attribute_of, attrs_of};
use crate::edit_model::{adoptable, spliced};
use crate::errors::{Error, ErrorKind};
use crate::model::{NodeId, DataView, AttrView, Forest};
use crate::names::{QualName, attribute_name, html_name, attrs_set, has_attr};

verus! {

/// The fragment of a URL that `Url::set_fragment` makes of a text: the text
/// percent-encoded for use as a fragment.
pub uninterp spec fn url_fragment(id: Seq<char>) -> Seq<char>;

/// `Url::set_fragment` on the URL of the multipage specification, then
/// `Url::fragment`: the text as the fragment of a URL.
#[verifier::external_body]
fn encode_fragment(id: &str) -> (out: String)
    ensures
        out@ == url_fragment(id@),
{
    let mut url = Url::parse("https://html.spec.whatwg.org/multipage/").unwrap();
    url.set_fragment(Some(id));
    url.fragment().unwrap_or("").to_string()
}

/// One link to insert.
struct Edit {
    node: NodeId,
    id: String,
    after_summary: bool,
}

/// One link to insert, as a value: the element that gets the link, its ID,
/// and whether the link goes after the `summary` child (for `details`) or
/// first.
pub struct EditView {
    pub node: NodeId,
    pub id: Seq<char>,
    pub after_summary: bool,
}

impl View for Edit {
    type V = EditView;

    closed spec fn view(&self) -> EditView {
        EditView { node: self.node, id: self.id@, after_summary: self.after_summary }
    }
}

/// The state of the pass: the links to insert, in the order of the visits.
pub struct Processor {
    edits: Vec<Edit>,
}

/// Node `node` has one of the classes `example`, `note` and `XXX`.
pub open spec fn has_target_class(f: Forest, node: NodeId) -> bool {
    has_class_token(f, node, "example"@) || has_class_token(f, node, "note"@) || has_class_token(
        f,
        node,
        "XXX"@,
    )
}

/// Some child of `node` has the class `self-link`.
pub open spec fn has_self_link(f: Forest, node: NodeId) -> bool {
    exists|k: int|
        0 <= k < f[node as int].children.len() && has_class_token(
            f,
            #[trigger] f[node as int].children[k],
            "self-link"@,
        )
}

/// The link that a visit of `node` asks for, if any: `node` is an element
/// with a target class and an ID, and has no self-link yet.
pub open spec fn wanted_link(f: Forest, node: NodeId) -> Option<EditView> {
    if is_element_node(f, node) && has_target_class(f, node) && !has_self_link(f, node) {
        match attribute_of(f, node, attribute_name("id"@)) {
            Some(id) => Some(EditView { node, id, after_summary: is_html(f, node, "details"@) }),
            None => None,
        }
    } else {
        None
    }
}

/// The link element for an ID.
pub open spec fn link_data(id: Seq<char>) -> DataView {
    DataView::Element {
        name: html_name("a"@),
        attrs: seq![
            AttrView { name: attribute_name("href"@), value: "#"@ + url_fragment(id) },
            AttrView { name: attribute_name("class"@), value: "self-link"@ },
        ],
        template_contents: None,
        mathml_annotation_xml_integration_point: false,
    }
}

/// The forest with a new link for `id` at slot `at` of the children of
/// `node`.
pub open spec fn with_link(f: Forest, node: NodeId, at: int, id: Seq<char>) -> Forest {
    spliced(f.push(fresh_node(link_data(id))), node, at, at, seq![f.len() as usize])
}

/// The slot of the first `summary` child of `node`, if it has one.
pub open spec fn summary_slot(f: Forest, node: NodeId) -> Option<int> {
    if exists|k: int| is_summary_slot(f, node, k) {
        Some(choose|k: int| is_summary_slot(f, node, k))
    } else {
        None
    }
}

/// Slot `k` holds the first `summary` child of `node`.
pub open spec fn is_summary_slot(f: Forest, node: NodeId, k: int) -> bool {
    &&& 0 <= k < f[node as int].children.len()
    &&& is_html(f, f[node as int].children[k], "summary"@)
    &&& forall|j: int| 0 <= j < k ==> !is_html(f, #[trigger] f[node as int].children[j], "summary"@)
}

/// The forest after one link has been inserted; nothing where the link
/// belongs after a `summary` that is not there.
pub open spec fn link_inserted(f: Forest, e: EditView) -> Option<Forest> {
    if e.after_summary {
        match summary_slot(f, e.node) {
            Some(k) => Some(with_link(f, e.node, k + 1, e.id)),
            None => None,
        }
    } else {
        Some(with_link(f, e.node, 0, e.id))
    }
}

/// The forest after the links have been inserted in order, up to the first
/// that cannot be, and whether all could be.
pub open spec fn links_inserted(f: Forest, edits: Seq<EditView>) -> (Forest, bool)
    decreases edits.len(),
{
    if edits.len() == 0 {
        (f, true)
    } else {
        match link_inserted(f, edits[0]) {
            Some(f1) => links_inserted(f1, edits.drop_first()),
            None => (f, false),
        }
    }
}

/// Creates the link element for an ID, without a parent.
fn create_self_link(dom: &mut Dom, id: &str) -> (link: NodeId)
    requires
        old(dom).wf(),
    ensures
        final(dom).wf(),
        link == old(dom)@.len(),
        final(dom)@ == old(dom)@.push(fresh_node(link_data(id@))),
{
    let mut href = String::from_str("#");
    href.append(encode_fragment(id).as_str());
    let ghost f0 = dom@;
    let builder = dom.create_element("a");
    let ghost f1 = dom@;
    let builder = builder.attribute(dom, "href", href.as_str());
    let ghost f2 = dom@;
    let builder = builder.attribute(dom, "class", "self-link");
    proof {
        reveal_strlit("href");
        reveal_strlit("class");
        let l = f0.len() as usize;
        let href_attr = AttrView { name: attribute_name("href"@), value: href@ };
        let class_attr = AttrView { name: attribute_name("class"@), value: "self-link"@ };
        let a1 = attrs_of(f1, l);
        assert(a1 =~= Seq::<AttrView>::empty());
        assert(!has_attr(a1, attribute_name("href"@)));
        assert(attrs_set(a1, attribute_name("href"@), href@) =~= seq![href_attr]);
        let a2 = attrs_of(f2, l);
        assert(a2 =~= seq![href_attr]);
        assert(!has_attr(a2, attribute_name("class"@))) by {
            assert("href"@.len() != "class"@.len());
        }
        assert(attrs_set(a2, attribute_name("class"@), "self-link"@) =~= seq![href_attr, class_attr]);
        assert(dom@[l as int].data == link_data(id@));
        assert(dom@[l as int] == fresh_node(link_data(id@)));
        assert(dom@ =~= f0.push(fresh_node(link_data(id@))));
    }
    builder.build()
}

/// Where the first `summary` child of `node` stands, if it has one.
fn find_summary(dom: &Dom, node: NodeId) -> (slot: Option<usize>)
    requires
        dom.wf(),
        node < dom@.len(),
    ensures
        match slot {
            Some(k) => summary_slot(dom@, node) == Some(k as int) && k < dom@[node as int].children.len()
                && k < usize::MAX,
            None => summary_slot(dom@, node) is None,
        },
{
    let children = dom.children(node);
    let mut k: usize = 0;
    while k < children.len()
        invariant
            dom.wf(),
            node < dom@.len(),
            children@ == dom@[node as int].children,
            k <= children.len(),
            forall|j: int| 0 <= j < k ==> !is_html(dom@, #[trigger] children@[j], "summary"@),
        decreases children.len() - k,
    {
        assert(children@[k as int] < dom@.len());
        if dom.is_html_element(children[k], "summary") {
            proof {
                assert(is_summary_slot(dom@, node, k as int));
                let c = choose|c: int| is_summary_slot(dom@, node, c);
                if c < k {
                    assert(!is_html(dom@, children@[c], "summary"@));
                } else if k < c {
                    assert(!is_html(dom@, dom@[node as int].children[k as int], "summary"@));
                }
            }
            return Some(k);
        }
        k += 1;
    }
    proof {
        if exists|c: int| is_summary_slot(dom@, node, c) {
            let c = choose|c: int| is_summary_slot(dom@, node, c);
            assert(!is_html(dom@, children@[c], "summary"@));
        }
    }
    None
}

/// The views of a list of edits.
spec fn edit_views(edits: Seq<Edit>) -> Seq<EditView> {
    edits.map_values(|e: Edit| e@)
}

impl Processor {
    /// The links to insert, in the order of the visits.
    pub closed spec fn edits(&self) -> Seq<EditView> {
        edit_views(self.edits@)
    }

    /// A pass that has seen nothing.
    pub fn new() -> (out: Processor)
        ensures
            out.edits() == Seq::<EditView>::empty(),
    {
        let out = Processor { edits: Vec::new() };
        assert(out.edits() =~= Seq::<EditView>::empty());
        out
    }

    /// Should be called for each node of the document.
    pub fn visit(&mut self, dom: &Dom, node: NodeId)
        requires
            dom.wf(),
            node < dom@.len(),
        ensures
            final(self).edits() == match wanted_link(dom@, node) {
                Some(e) => old(self).edits().push(e),
                None => old(self).edits(),
            },
    {
        if !dom.is_element(node) {
            return;
        }
        if !(dom.has_class(node, "example") || dom.has_class(node, "note") || dom.has_class(node, "XXX")) {
            return;
        }
        let children = dom.children(node);
        let mut k: usize = 0;
        while k < children.len()
            invariant
                dom.wf(),
                node < dom@.len(),
                children@ == dom@[node as int].children,
                k <= children.len(),
                forall|j: int| 0 <= j < k ==> !has_class_token(dom@, #[trigger] children@[j], "self-link"@),
            decreases children.len() - k,
        {
            assert(children@[k as int] < dom@.len());
            if dom.has_class(children[k], "self-link") {
                assert(has_class_token(dom@, dom@[node as int].children[k as int], "self-link"@));
                return;
            }
            k += 1;
        }
        match dom.get_attribute(node, &QualName::attribute("id")) {
            Some(id) => {
                let after_summary = dom.is_html_element(node, "details");
                let e = Edit { node, id, after_summary };
                let ghost before = self.edits@;
                self.edits.push(e);
                assert(edit_views(self.edits@) =~= edit_views(before).push(e@));
            },
            None => {},
        }
    }

    /// Inserts the links, in the order of the visits. Fails at the first
    /// `details` element that has no `summary` to put the link after; the
    /// links before it stay inserted.
    pub fn apply(self, dom: &mut Dom) -> (result: Result<(), Error>)
        requires
            old(dom).wf(),
            forall|i: int| 0 <= i < self.edits().len() ==> (#[trigger] self.edits()[i]).node < old(dom)@.len(),
        ensures
            final(dom).wf(),
            (final(dom)@, result is Ok) == links_inserted(old(dom)@, self.edits()),
            match result {
                Ok(_) => true,
                Err(e) => e.spec_kind() == ErrorKind::InvalidData && e.spec_message()
                    == "details element with self-link target class has no summary"@,
            },
    {
        let ghost f0 = dom@;
        let ghost all = edit_views(self.edits@);
        let mut n: usize = 0;
        assert(all.subrange(0, all.len() as int) =~= all);
        assert(all == self.edits());
        while n < self.edits.len()
            invariant
                dom.wf(),
                n <= self.edits.len(),
                all == edit_views(self.edits@),
                all == self.edits(),
                f0 == old(dom)@,
                f0.len() <= dom@.len(),
                forall|i: int| 0 <= i < all.len() ==> (#[trigger] all[i]).node < f0.len(),
                links_inserted(dom@, all.subrange(n as int, all.len() as int)) == links_inserted(f0, all),
            decreases self.edits.len() - n,
        {
            let ghost rest = all.subrange(n as int, all.len() as int);
            let ghost f = dom@;
            let node = self.edits[n].node;
            proof {
                assert(rest[0] == all[n as int]);
                assert(all[n as int] == self.edits@[n as int]@);
                assert(rest.drop_first() =~= all.subrange(n + 1, all.len() as int));
                assert(all[n as int].node < f0.len());
            }
            let mut at: usize = 0;
            if self.edits[n].after_summary {
                match find_summary(dom, node) {
                    Some(k) => {
                        at = k + 1;
                    },
                    None => {
                        assert(link_inserted(f, rest[0]) is None);
                        assert(links_inserted(f, rest) == (f, false));
                        return Err(
                            Error::new(
                                ErrorKind::InvalidData,
                                String::from_str(
                                    "details element with self-link target class has no summary",
                                ),
                            ),
                        );
                    },
                }
            }
            let link = create_self_link(dom, self.edits[n].id.as_str());
            proof {
                let f1 = dom@;
                lemma_leaf_reaches(f1, link, node);
                assert(seq![link].no_duplicates());
                assert(adoptable(f1, node, seq![link]));
                assert(f1[node as int] == f[node as int]);
            }
            let mut kids: Vec<NodeId> = Vec::new();
            kids.push(link);
            assert(kids@ =~= seq![link]);
            dom.splice_children(node, at, at, &kids);
            assert(Some(dom@) == link_inserted(f, rest[0]));
            n += 1;
        }
        Ok(())
    }
}

} // verus!
