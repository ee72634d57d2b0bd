//! Rewriting of the texts of a subtree while it is copied.

use vstd::prelude::*;
use regex::Regex;
use crate::model::{DataView, Tree};

verus! {

/// What becomes of the text of each text node.
#[derive(Clone, Copy, Debug, PartialEq, Eq, Structural)]
pub enum TextRewrite {
    /// The text stays as it is.
    Keep,
    /// The first word "may" of the text becomes "can".
    MayToCan,
}

/// The text in which `Regex::replace` has replaced the leftmost match of the
/// pattern `\bmay\b` by "can".
pub uninterp spec fn may_replaced(text: Seq<char>) -> Seq<char>;

/// `Regex::replace` on the pattern `\bmay\b`, with the replacement "can":
/// the leftmost match is replaced.
#[verifier::external_body]
fn replace_may(text: &str) -> (out: String)
    ensures
        out@ == may_replaced(text@),
{
    Regex::new(r"\bmay\b").unwrap().replace(text, "can").into_owned()
}

/// The text after the rewrite.
pub open spec fn rewritten_text(rw: TextRewrite, text: Seq<char>) -> Seq<char> {
    match rw {
        TextRewrite::Keep => text,
        TextRewrite::MayToCan => may_replaced(text),
    }
}

/// The text after the rewrite.
pub fn rewrite_text(rw: TextRewrite, text: &str) -> (out: String)
    ensures
        out@ == rewritten_text(rw, text@),
{
    match rw {
        TextRewrite::Keep => text.to_owned(),
        TextRewrite::MayToCan => replace_may(text),
    }
}

/// The payload after the rewrite: the text of a text node is rewritten, any
/// other payload stays as it is.
pub open spec fn rewritten_data(rw: TextRewrite, data: DataView) -> DataView {
    match data {
        DataView::Text { contents } => DataView::Text { contents: rewritten_text(rw, contents) },
        _ => data,
    }
}

/// The subtree after every text in it, template contents included, has been
/// rewritten.
pub open spec fn rewritten(rw: TextRewrite, t: Tree) -> Tree
    decreases t,
{
    Tree {
        id: t.id,
        data: rewritten_data(rw, t.data),
        template: match t.template {
            Some(b) => Some(Box::new(rewritten(rw, *b))),
            None => None,
        },
        children: Seq::new(
            t.children.len(),
            |k: int|
                if 0 <= k < t.children.len() {
                    rewritten(rw, t.children[k])
                } else {
                    arbitrary()
                },
        ),
    }
}

/// Keeping every text keeps the subtree.
pub proof fn lemma_keep_identity(t: Tree)
    ensures
        rewritten(TextRewrite::Keep, t) == t,
    decreases t,
{
    let r = rewritten(TextRewrite::Keep, t);
    assert forall|k: int| 0 <= k < t.children.len() implies r.children[k] == t.children[k] by {
        lemma_keep_identity(t.children[k]);
    }
    assert(r.children =~= t.children);
    match t.template {
        Some(b) => {
            lemma_keep_identity(*b);
        },
        None => {},
    }
}

} // verus!
