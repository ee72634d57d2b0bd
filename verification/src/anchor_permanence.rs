//! Postprocess step for ensuring anchor permanence.
//!
//! Scans for the `<script type="text/required-ids">` element, which lists
//! (whitespace-separated) IDs that must appear somewhere in the document.
//! After verifying that all listed IDs are present, removes the script element.

use vstd::prelude::*;
use vstd::string::StringExecFns;
use crate::dom::{Dom, is_html, attribute_of};
use crate::edit::replaced;
use crate::errors::{Error, ErrorKind};
use crate::model::{NodeId, Forest, text_content};
use crate::names::{QualName, attribute_name};
use crate::string_set::{StringSet, ascending};
use crate::text::{chars_of, tokens, token_set, lemma_push_to_set, join, joined, views};

verus! {

/// The state of the pass: the IDs still looked for, and the script element
/// that listed them.
pub struct Processor {
    required_ids: StringSet,
    script_node: Option<NodeId>,
}

/// Node `node` is a `<script type="text/required-ids">`.
pub open spec fn is_required_ids_script(f: Forest, node: NodeId) -> bool {
    is_html(f, node, "script"@) && attribute_of(f, node, attribute_name("type"@)) == Some(
        "text/required-ids"@,
    )
}

/// The IDs looked for once `node` has been seen as a possible list of IDs.
pub open spec fn ids_after_script(ids: Set<Seq<char>>, f: Forest, node: NodeId) -> Set<Seq<char>> {
    if is_required_ids_script(f, node) {
        ids.union(token_set(text_content(f, node)))
    } else {
        ids
    }
}

/// The IDs looked for once `node` has been seen as a possible bearer of an
/// ID.
pub open spec fn ids_after_id(ids: Set<Seq<char>>, f: Forest, node: NodeId) -> Set<Seq<char>> {
    match attribute_of(f, node, attribute_name("id"@)) {
        Some(id) => ids.remove(id),
        None => ids,
    }
}

/// The message that names the IDs that were not found.
pub open spec fn missing_ids_message(missing: Seq<Seq<char>>) -> Seq<char> {
    "Missing required IDs for anchor permanence: "@ + joined(missing, ", "@)
}

impl Processor {
    /// The IDs still looked for.
    pub closed spec fn ids(&self) -> Set<Seq<char>> {
        self.required_ids@
    }

    /// The script element that listed the IDs, once it has been seen.
    pub closed spec fn script(&self) -> Option<NodeId> {
        self.script_node
    }

    /// A pass that has seen nothing.
    pub fn new() -> (out: Processor)
        ensures
            out.ids() == Set::<Seq<char>>::empty(),
            out.script() is None,
    {
        Processor { required_ids: StringSet::new(), script_node: None }
    }

    /// Should be called for each node of the document, in preorder. The
    /// document may hold one list of required IDs only.
    pub fn visit(&mut self, dom: &Dom, node: NodeId)
        requires
            dom.wf(),
            node < dom@.len(),
            !(is_required_ids_script(dom@, node) && old(self).script() is Some),
        ensures
            final(self).script() == if is_required_ids_script(dom@, node) {
                Some(node)
            } else {
                old(self).script()
            },
            final(self).ids() == ids_after_id(ids_after_script(old(self).ids(), dom@, node), dom@, node),
    {
        // Capture and parse the <script type="text/required-ids"> element exactly once.
        if dom.is_html_element(node, "script") && dom.attribute_is(
            node,
            &QualName::attribute("type"),
            "text/required-ids",
        ) {
            self.script_node = Some(node);
            // Gather all text within the script and split on any ASCII whitespace.
            let content = chars_of(dom.text_content(node).as_str());
            let ids = tokens(&content);
            let ghost start = self.required_ids@;
            let mut n: usize = 0;
            assert(views(ids@).subrange(0, 0).to_set() =~= Set::<Seq<char>>::empty());
            assert(start.union(Set::<Seq<char>>::empty()) =~= start);
            while n < ids.len()
                invariant
                    n <= ids.len(),
                    self.script_node == Some(node),
                    self.required_ids@ == start.union(views(ids@).subrange(0, n as int).to_set()),
                decreases ids.len() - n,
            {
                let ghost seen = views(ids@).subrange(0, n as int);
                self.required_ids.insert(ids[n].clone());
                proof {
                    assert(views(ids@).subrange(0, n + 1) =~= seen.push(ids@[n as int]@));
                    lemma_push_to_set(seen, ids@[n as int]@);
                    assert(start.union(seen.to_set()).insert(ids@[n as int]@) =~= start.union(
                        seen.to_set().insert(ids@[n as int]@),
                    ));
                }
                n += 1;
            }
            assert(views(ids@).subrange(0, n as int) =~= views(ids@));
        }
        // For elements with an id attribute, mark the ID as seen.
        if self.required_ids.is_empty() {
            proof {
                let ids = self.required_ids@;
                assert(ids_after_id(ids, dom@, node) =~= ids);
            }
            return;
        }
        match dom.get_attribute(node, &QualName::attribute("id")) {
            Some(id) => {
                self.required_ids.remove(id.as_str());
            },
            None => {},
        }
    }

    /// Fails if an ID that the document requires was not found; the message
    /// names the missing IDs in ascending order. Otherwise removes the script
    /// element, if there was one, from its parent.
    pub fn apply(self, dom: &mut Dom) -> (result: Result<(), Error>)
        requires
            old(dom).wf(),
            match self.script() {
                Some(s) => s < old(dom)@.len(),
                None => true,
            },
        ensures
            final(dom).wf(),
            match result {
                Ok(_) => {
                    &&& self.ids() == Set::<Seq<char>>::empty()
                    &&& final(dom)@ == match self.script() {
                        Some(s) => replaced(old(dom)@, s, Seq::empty()),
                        None => old(dom)@,
                    }
                },
                Err(e) => {
                    &&& self.ids() != Set::<Seq<char>>::empty()
                    &&& final(dom)@ == old(dom)@
                    &&& e.spec_kind() == ErrorKind::InvalidData
                    &&& exists|missing: Seq<Seq<char>>|
                        ascending(missing) && missing.to_set() == self.ids() && e.spec_message()
                            == #[trigger] missing_ids_message(missing)
                },
            },
    {
        if !self.required_ids.is_empty() {
            let missing = self.required_ids.sorted();
            let list = join(&missing, ", ");
            let mut message = String::from_str("Missing required IDs for anchor permanence: ");
            message.append(list.as_str());
            let e = Error::new(ErrorKind::InvalidData, message);
            assert(e.spec_message() == missing_ids_message(views(missing@)));
            return Err(e);
        }
        // Remove the script element (if present) after verification.
        match self.script_node {
            Some(script) => {
                dom.remove(script);
            },
            None => {},
        }
        Ok(())
    }
}

} // verus!
