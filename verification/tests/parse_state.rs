use html_build::errors::ErrorKind;
use html_build::names::QualName;
use html_build::parser::{
    adopt_fragment, advance, create_error_opts, finish_document, finish_fragment, next_read_step,
    DriverAction, DriverEvent, DriverState, ReadOutcome, ReadStep, BUFFER_SIZE,
};
use html_build::rcdom_with_line_numbers::{prefix_with_line, RcDomWithLineNumbers};
use html_build::void_filter::{Tag, TagKind, VoidElementFilter};

#[test]
fn error_options_ask_for_exact_errors() {
    let opts = create_error_opts();
    assert!(opts.tokenizer.exact_errors);
    assert!(opts.tree_builder.exact_errors);
}

#[test]
fn read_steps() {
    assert_eq!(BUFFER_SIZE, 128 * 1024);
    assert_eq!(next_read_step(ReadOutcome::Read(0)), ReadStep::Finish);
    assert_eq!(next_read_step(ReadOutcome::Read(1)), ReadStep::Process { surplus: 131071 });
    assert_eq!(next_read_step(ReadOutcome::Read(131072)), ReadStep::Process { surplus: 0 });
    assert_eq!(next_read_step(ReadOutcome::Interrupted), ReadStep::Retry);
    assert_eq!(next_read_step(ReadOutcome::Failed), ReadStep::Abort);
}

#[test]
fn messages_carry_the_line_at_which_they_were_raised() {
    assert_eq!(prefix_with_line(0, "x"), "Line 0: x");
    assert_eq!(prefix_with_line(7, "x"), "Line 7: x");
    assert_eq!(prefix_with_line(10, ""), "Line 10: ");
    assert_eq!(prefix_with_line(1234567890, "a b"), "Line 1234567890: a b");
    assert_eq!(prefix_with_line(u64::MAX, "m"), "Line 18446744073709551615: m");
    let mut parsed = RcDomWithLineNumbers::new();
    assert_eq!(parsed.current_line(), 1);
    parsed.parse_error("first");
    parsed.set_current_line(2);
    parsed.parse_error("second");
    parsed.set_current_line(40);
    let error = parsed.create_error_from_parse_errors().unwrap_err();
    assert_eq!(error.kind(), ErrorKind::InvalidData);
    assert_eq!(
        error.to_string(),
        "Parse errors encountered:\n\nLine 1: first\nLine 2: second"
    );
    let error = finish_document(parsed).unwrap_err();
    assert!(error.to_string().contains("Line 2: "));
}

#[test]
fn no_errors_no_failure() {
    let parsed = RcDomWithLineNumbers::new();
    assert!(parsed.create_error_from_parse_errors().is_ok());
    let parsed = finish_document(parsed).unwrap();
    assert_eq!(parsed.dom().len(), 1);
    assert_eq!(parsed.document(), 0);
}

#[test]
fn elements_remember_their_line() {
    let mut parsed = RcDomWithLineNumbers::new();
    let a = parsed.create_element(QualName::html("div"), vec![], false, false);
    parsed.set_current_line(3);
    let b = parsed.create_element(QualName::html("div"), vec![], false, false);
    let t = parsed.create_element(QualName::html("template"), vec![], true, false);
    let text = parsed.dom_mut().create_text_node("text");
    assert_eq!(parsed.line_number_for(a), Some(1));
    assert_eq!(parsed.line_number_for(b), Some(3));
    assert_eq!(parsed.line_number_for(t), Some(3));
    // Two elements that look alike are two entries; other nodes have none.
    assert!(a != b);
    assert_eq!(parsed.line_number_for(text), None);
    assert_eq!(parsed.line_number_for(parsed.document()), None);
    assert_eq!(parsed.line_number_for(1000), None);
    match parsed.dom().data(t) {
        html_build::dom::NodeData::Element { template_contents: Some(c), .. } => {
            assert!(matches!(parsed.dom().data(*c), html_build::dom::NodeData::Document));
            assert_eq!(parsed.line_number_for(*c), None);
        }
        _ => panic!("no template contents"),
    }
}

#[test]
fn fragment_nodes_leave_their_wrapper() {
    let mut parsed = RcDomWithLineNumbers::new();
    let document = parsed.document();
    let html = parsed.create_element(QualName::html("html"), vec![], false, false);
    let tbody = parsed.create_element(QualName::html("tbody"), vec![], false, false);
    let dom = parsed.dom_mut();
    let text = dom.create_text_node("t");
    dom.append_children(html, vec![tbody, text]);
    dom.append_children(document, vec![html]);
    let (parsed, nodes) = finish_fragment(parsed).unwrap();
    assert_eq!(nodes, vec![tbody, text]);
    assert_eq!(parsed.dom().parent_node(tbody), None);
    assert_eq!(parsed.dom().parent_node(text), None);
    assert!(parsed.dom().children(html).is_empty());
    let mut target = html_build::dom::Dom::new();
    let table = target.create_element("table").build();
    let copies = adopt_fragment(&mut target, parsed.dom(), &nodes);
    assert_eq!(copies.len(), 2);
    assert!(target.can_adopt(table, &copies));
    target.append_children(table, copies);
    let opts = html_build::serializer::SerializeOpts {
        scripting_enabled: true,
        traversal_scope: html_build::serializer::TraversalScope::IncludeNode,
    };
    assert_eq!(
        String::from_utf8(html_build::serializer::serialize(&target, table, &opts)).unwrap(),
        "<table><tbody></tbody>t</table>"
    );
}

#[test]
fn fragment_with_errors_fails() {
    let mut parsed = RcDomWithLineNumbers::new();
    parsed.set_current_line(3);
    parsed.parse_error("Unexpected token");
    let error = finish_fragment(parsed).unwrap_err();
    assert_eq!(error.kind(), ErrorKind::InvalidData);
    assert!(error.to_string().contains("Line 3: "));
}

fn tag(kind: TagKind, name: &str) -> Tag {
    Tag { kind, name: name.to_string(), self_closing: false, attrs: vec![] }
}

#[test]
fn void_filter_closes_its_element_only() {
    let filter = VoidElementFilter::new("ref".to_string());
    let close = filter.synthetic_close(&tag(TagKind::StartTag, "ref"), true).unwrap();
    assert_eq!(close.kind, TagKind::EndTag);
    assert_eq!(close.name, "ref");
    assert!(!close.self_closing);
    assert!(close.attrs.is_empty());
    // Not when the sink asked the tokenizer to stop.
    assert!(filter.synthetic_close(&tag(TagKind::StartTag, "ref"), false).is_none());
    // Not for end tags or other elements.
    assert!(filter.synthetic_close(&tag(TagKind::EndTag, "ref"), true).is_none());
    assert!(filter.synthetic_close(&tag(TagKind::StartTag, "div"), true).is_none());
    assert!(filter.synthetic_close(&tag(TagKind::StartTag, "REF"), true).is_none());
}

#[test]
fn driver_feeds_until_the_tokenizer_is_done_before_it_reads_again() {
    let read = |n| DriverEvent::Read(ReadOutcome::Read(n));
    assert_eq!(advance(DriverState::Reading, read(5)), Some((DriverState::Feeding, DriverAction::Feed { surplus: 131067 })));
    assert_eq!(advance(DriverState::Feeding, DriverEvent::Fed { done: false }), Some((DriverState::Feeding, DriverAction::FeedAgain)));
    assert_eq!(advance(DriverState::Feeding, DriverEvent::Fed { done: true }), Some((DriverState::Reading, DriverAction::Read)));
    assert_eq!(advance(DriverState::Reading, DriverEvent::Read(ReadOutcome::Interrupted)), Some((DriverState::Reading, DriverAction::Read)));
    assert_eq!(advance(DriverState::Reading, read(0)), Some((DriverState::Finished, DriverAction::Finish)));
    assert_eq!(advance(DriverState::Reading, DriverEvent::Read(ReadOutcome::Failed)), Some((DriverState::Failed, DriverAction::Abort)));
    assert_eq!(advance(DriverState::Reading, read(131072)), Some((DriverState::Feeding, DriverAction::Feed { surplus: 0 })));
    // What cannot occur has no step.
    assert_eq!(advance(DriverState::Reading, read(131073)), None);
    assert_eq!(advance(DriverState::Reading, DriverEvent::Fed { done: true }), None);
    assert_eq!(advance(DriverState::Feeding, read(1)), None);
    assert_eq!(advance(DriverState::Finished, read(1)), None);
    assert_eq!(advance(DriverState::Failed, DriverEvent::Fed { done: false }), None);
}
