//! What surrounds a parse: the options, the steps of the loop that reads the
//! source in chunks, and what becomes of the tree once the source is read.

use vstd::prelude::*;
use crate::copy::extends;
use crate::dom::Dom;
use crate::edit_model::{adoptable, spliced};
use crate::errors::{Error, ErrorKind};
use crate::model::{NodeId, subtree, shape, reaches};
use crate::model_proofs::{lemma_prefix_subtree, same_links};
use crate::rcdom_with_line_numbers::{RcDomWithLineNumbers, parse_error_report};

verus! {

/// The size of the buffer that one read fills at most.
pub const BUFFER_SIZE: u32 = 131072;

/// Options of the tokenizer.
#[derive(Clone, Copy, Debug)]
pub struct TokenizerOpts {
    /// Report all parse errors described in the specification, at some
    /// performance penalty?
    pub exact_errors: bool,
}

/// Options of the tree builder.
#[derive(Clone, Copy, Debug)]
pub struct TreeBuilderOpts {
    /// Report all parse errors described in the specification, at some
    /// performance penalty?
    pub exact_errors: bool,
}

/// Options of a parse.
#[derive(Clone, Copy, Debug)]
pub struct ParseOpts {
    pub tokenizer: TokenizerOpts,
    pub tree_builder: TreeBuilderOpts,
}

/// The options with which documents and fragments are parsed: both the
/// tokenizer and the tree builder report exact errors.
pub fn create_error_opts() -> (opts: ParseOpts)
    ensures
        opts.tokenizer.exact_errors,
        opts.tree_builder.exact_errors,
{
    ParseOpts {
        tokenizer: TokenizerOpts { exact_errors: true },
        tree_builder: TreeBuilderOpts { exact_errors: true },
    }
}

/// How a read of the source ended.
#[derive(Clone, Copy, Debug)]
pub enum ReadOutcome {
    /// So many bytes were read.
    Read(usize),
    /// The read was interrupted before it read anything.
    Interrupted,
    /// The source failed.
    Failed,
}

/// What the loop that reads the source does next.
#[derive(Clone, Copy, Debug, PartialEq, Eq, Structural)]
pub enum ReadStep {
    /// The source is at its end: finish the parse.
    Finish,
    /// Cut the unused `surplus` bytes off the end of the buffer, feed the
    /// rest to the parser, and read again into a new buffer.
    Process { surplus: u32 },
    /// Read again into the same buffer.
    Retry,
    /// Give up, and hand on the failure of the source.
    Abort,
}

/// The step that follows a read.
pub open spec fn read_step(outcome: ReadOutcome) -> ReadStep {
    match outcome {
        ReadOutcome::Read(n) => if n == 0 {
            ReadStep::Finish
        } else {
            ReadStep::Process { surplus: (BUFFER_SIZE - n) as u32 }
        },
        ReadOutcome::Interrupted => ReadStep::Retry,
        ReadOutcome::Failed => ReadStep::Abort,
    }
}

/// Decides what the loop that reads the source does after a read into a
/// buffer of `BUFFER_SIZE` bytes. A read returns no more bytes than the
/// buffer holds.
pub fn next_read_step(outcome: ReadOutcome) -> (step: ReadStep)
    requires
        match outcome {
            ReadOutcome::Read(n) => n <= BUFFER_SIZE,
            _ => true,
        },
    ensures
        step == read_step(outcome),
{
    match outcome {
        ReadOutcome::Read(n) => {
            if n == 0 {
                ReadStep::Finish
            } else {
                ReadStep::Process { surplus: BUFFER_SIZE - (n as u32) }
            }
        },
        ReadOutcome::Interrupted => ReadStep::Retry,
        ReadOutcome::Failed => ReadStep::Abort,
    }
}

/// Where the loop that drives the parser stands.
#[derive(Clone, Copy, Debug, PartialEq, Eq, Structural)]
pub enum DriverState {
    /// A read of the source is awaited.
    Reading,
    /// A chunk was handed to the tokenizer, which has not yet used up what
    /// it holds.
    Feeding,
    /// The source is at its end.
    Finished,
    /// The source has failed.
    Failed,
}

/// What happened outside the loop.
#[derive(Clone, Copy, Debug)]
pub enum DriverEvent {
    /// A read of the source has ended.
    Read(ReadOutcome),
    /// The tokenizer has worked on what it holds, and is done with it or
    /// not.
    Fed { done: bool },
}

/// What the loop does next.
#[derive(Clone, Copy, Debug, PartialEq, Eq, Structural)]
pub enum DriverAction {
    /// Await a read of the source into a buffer of `BUFFER_SIZE` bytes.
    Read,
    /// Cut the unused `surplus` bytes off the end of the buffer, decode the
    /// rest and hand it to the tokenizer.
    Feed { surplus: u32 },
    /// Let the tokenizer work again on what it holds.
    FeedAgain,
    /// Flush what is buffered, tell the tokenizer that the input has ended,
    /// and take the tree from the tree builder.
    Finish,
    /// Give up, and hand on the failure of the source.
    Abort,
}

/// The next state and the action for an event; nothing for an event that
/// cannot occur in the state. While the tokenizer has work, no read is
/// asked for; a read that was interrupted is asked for again; the end of
/// the source ends the loop.
pub open spec fn driver_step(state: DriverState, event: DriverEvent) -> Option<(DriverState, DriverAction)> {
    match (state, event) {
        (DriverState::Reading, DriverEvent::Read(outcome)) => match outcome {
            ReadOutcome::Read(n) => if n > BUFFER_SIZE {
                None
            } else {
                match read_step(outcome) {
                    ReadStep::Finish => Some((DriverState::Finished, DriverAction::Finish)),
                    ReadStep::Process { surplus } => Some((DriverState::Feeding, DriverAction::Feed { surplus })),
                    ReadStep::Retry => Some((DriverState::Reading, DriverAction::Read)),
                    ReadStep::Abort => Some((DriverState::Failed, DriverAction::Abort)),
                }
            },
            ReadOutcome::Interrupted => Some((DriverState::Reading, DriverAction::Read)),
            ReadOutcome::Failed => Some((DriverState::Failed, DriverAction::Abort)),
        },
        (DriverState::Feeding, DriverEvent::Fed { done }) => if done {
            Some((DriverState::Reading, DriverAction::Read))
        } else {
            Some((DriverState::Feeding, DriverAction::FeedAgain))
        },
        _ => None,
    }
}

/// Advances the loop that drives the parser by one event.
pub fn advance(state: DriverState, event: DriverEvent) -> (next: Option<(DriverState, DriverAction)>)
    ensures
        next == driver_step(state, event),
{
    match (state, event) {
        (DriverState::Reading, DriverEvent::Read(outcome)) => {
            match outcome {
                ReadOutcome::Read(n) => {
                    if n > BUFFER_SIZE as usize {
                        return None;
                    }
                },
                _ => {},
            }
            match next_read_step(outcome) {
                ReadStep::Finish => Some((DriverState::Finished, DriverAction::Finish)),
                ReadStep::Process { surplus } => Some((DriverState::Feeding, DriverAction::Feed { surplus })),
                ReadStep::Retry => Some((DriverState::Reading, DriverAction::Read)),
                ReadStep::Abort => Some((DriverState::Failed, DriverAction::Abort)),
            }
        },
        (DriverState::Feeding, DriverEvent::Fed { done }) => {
            if done {
                Some((DriverState::Reading, DriverAction::Read))
            } else {
                Some((DriverState::Feeding, DriverAction::FeedAgain))
            }
        },
        _ => None,
    }
}

/// The result of a parse of a whole document: the tree, or the report of all
/// parse errors if there are any.
pub fn finish_document(parsed: RcDomWithLineNumbers) -> (result: Result<RcDomWithLineNumbers, Error>)
    ensures
        match result {
            Ok(p) => parsed.spec_errors().len() == 0 && p == parsed,
            Err(e) => parsed.spec_errors().len() > 0 && e.spec_kind() == ErrorKind::InvalidData
                && e.spec_message() == parse_error_report(parsed.spec_errors()),
        },
{
    match parsed.create_error_from_parse_errors() {
        Ok(_) => Ok(parsed),
        Err(e) => Err(e),
    }
}

/// The root that the tree builder wraps round a fragment: the first child of
/// the document.
pub open spec fn fragment_root(parsed: RcDomWithLineNumbers) -> NodeId {
    parsed.spec_dom()@[parsed.spec_document() as int].children[0]
}

/// The result of a parse of a fragment: the report of all parse errors if
/// there are any; otherwise the nodes of the fragment, taken out of the root
/// that the tree builder wrapped round them, so that they have no parent. The
/// tree builder always makes that root.
pub fn finish_fragment(parsed: RcDomWithLineNumbers) -> (result: Result<
    (RcDomWithLineNumbers, Vec<NodeId>),
    Error,
>)
    requires
        parsed.wf(),
        parsed.spec_errors().len() == 0 ==> parsed.spec_dom()@[parsed.spec_document() as int].children.len()
            > 0,
    ensures
        match result {
            Ok((p, nodes)) => {
                &&& parsed.spec_errors().len() == 0
                &&& p.wf()
                &&& nodes@ == parsed.spec_dom()@[fragment_root(parsed) as int].children
                &&& p.spec_dom()@ == spliced(
                    parsed.spec_dom()@,
                    fragment_root(parsed),
                    0,
                    nodes@.len() as int,
                    Seq::empty(),
                )
                &&& p.spec_document() == parsed.spec_document()
                &&& p.lines() == parsed.lines()
            },
            Err(e) => parsed.spec_errors().len() > 0 && e.spec_kind() == ErrorKind::InvalidData
                && e.spec_message() == parse_error_report(parsed.spec_errors()),
        },
{
    let mut parsed = parsed;
    match parsed.create_error_from_parse_errors() {
        Ok(_) => {},
        Err(e) => {
            return Err(e);
        },
    }
    let ghost f = parsed.spec_dom()@;
    let document = parsed.document();
    let root = parsed.dom().children(document)[0];
    assert(root < f.len());
    let nodes = copy_children(parsed.dom(), root);
    let n = nodes.len();
    let dom = parsed.dom_mut();
    assert(adoptable(dom@, root, Seq::<NodeId>::empty()));
    dom.splice_children(root, 0, n, &Vec::new());
    Ok((parsed, nodes))
}

/// The children of a node, as a list of its own.
fn copy_children(dom: &Dom, id: NodeId) -> (out: Vec<NodeId>)
    requires
        id < dom@.len(),
    ensures
        out@ == dom@[id as int].children,
{
    let children = dom.children(id);
    let mut out: Vec<NodeId> = Vec::new();
    let mut i: usize = 0;
    while i < children.len()
        invariant
            i <= children.len(),
            out@ == children@.subrange(0, i as int),
        decreases children.len() - i,
    {
        out.push(children[i]);
        i += 1;
        assert(out@ =~= children@.subrange(0, i as int));
    }
    assert(children@.subrange(0, children.len() as int) =~= children@);
    out
}

/// Copies the nodes of a fragment, which were parsed into an arena of their
/// own, into the arena of the document. The copies are new nodes without
/// parents, in the order of `nodes`.
pub fn adopt_fragment(dom: &mut Dom, fragment: &Dom, nodes: &Vec<NodeId>) -> (copies: Vec<NodeId>)
    requires
        old(dom).wf(),
        fragment.wf(),
        forall|i: int| 0 <= i < nodes@.len() ==> nodes@[i] < fragment@.len(),
    ensures
        final(dom).wf(),
        extends(old(dom)@, final(dom)@),
        copies@.len() == nodes@.len(),
        forall|i: int|
            0 <= i < copies@.len() ==> old(dom)@.len() <= #[trigger] copies@[i] < final(dom)@.len(),
        forall|i: int| 0 <= i < copies@.len() ==> final(dom)@[(#[trigger] copies@[i]) as int].parent is None,
        forall|i: int, j: int| 0 <= i < j < copies@.len() ==> copies@[i] < copies@[j],
        forall|i: int|
            0 <= i < copies@.len() ==> shape(subtree(final(dom)@, #[trigger] copies@[i])) == shape(
                subtree(fragment@, nodes@[i]),
            ),
        forall|i: int, x: NodeId|
            0 <= i < copies@.len() && #[trigger] reaches(final(dom)@, copies@[i], x) ==> x >= old(dom)@.len(),
{
    let ghost f0 = dom@;
    let mut copies: Vec<NodeId> = Vec::new();
    let mut k: usize = 0;
    while k < nodes.len()
        invariant
            dom.wf(),
            fragment.wf(),
            forall|i: int| 0 <= i < nodes@.len() ==> nodes@[i] < fragment@.len(),
            extends(f0, dom@),
            k <= nodes.len(),
            copies@.len() == k,
            forall|i: int| 0 <= i < k ==> f0.len() <= #[trigger] copies@[i] < dom@.len(),
            forall|i: int| 0 <= i < k ==> dom@[(#[trigger] copies@[i]) as int].parent is None,
            forall|i: int, j: int| 0 <= i < j < k ==> copies@[i] < copies@[j],
            forall|i: int|
                0 <= i < k ==> shape(subtree(dom@, #[trigger] copies@[i])) == shape(
                    subtree(fragment@, nodes@[i]),
                ),
            forall|i: int, x: NodeId|
                0 <= i < k && #[trigger] reaches(dom@, copies@[i], x) ==> x >= f0.len(),
        decreases nodes.len() - k,
    {
        let ghost before = dom@;
        let c = dom.import_subtree(fragment, nodes[k]);
        proof {
            let after = dom@;
            assert forall|x: NodeId| x < before.len() implies same_links(
                before[x as int],
                #[trigger] after[x as int],
            ) by {}
            assert forall|i: int| 0 <= i < k implies shape(subtree(after, #[trigger] copies@[i]))
                == shape(subtree(fragment@, nodes@[i])) by {
                lemma_prefix_subtree(before, after, copies@[i]);
            }
            assert forall|i: int, x: NodeId| 0 <= i < k && #[trigger] reaches(
                after,
                copies@[i],
                x,
            ) implies x >= f0.len() by {
                lemma_prefix_subtree(before, after, copies@[i]);
                assert(reaches(before, copies@[i], x));
            }
        }
        copies.push(c);
        k += 1;
    }
    copies
}

} // verus!
