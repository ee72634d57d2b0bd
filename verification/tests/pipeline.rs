use std::borrow::Cow;
use std::cell::RefCell;
use std::rc::Rc;

use html5ever::interface::{ElementFlags, NodeOrText, QuirksMode, TreeSink};
use html5ever::tendril::StrTendril;
use html5ever::tokenizer::{
    BufferQueue, Token, TokenSink, TokenSinkResult, Tokenizer, TokenizerOpts,
};
use html5ever::TokenizerResult;
use html5ever::tree_builder::{TreeBuilder, TreeBuilderOpts};
use html5ever::{ExpandedName, LocalName};
use markup5ever_rcdom::NodeData as RcData;
use markup5ever_rcdom::{Handle, RcDom};

use html_build::dom::{Dom, NodeData};
use html_build::errors::{Error, ErrorKind};
use html_build::names::{Attribute, QualName};
use html_build::parser::{adopt_fragment, create_error_opts, finish_document, finish_fragment};
use html_build::rcdom_with_line_numbers::RcDomWithLineNumbers;
use html_build::serializer::{can_serialize, serialize, SerializeOpts, TraversalScope};
use html_build::void_filter::{Tag, TagKind, VoidElementFilter};

/// The tree sink of the tests: html5ever's tree, with the library's record of
/// lines and errors beside it.
struct Sink {
    dom: RcDom,
    state: RefCell<RcDomWithLineNumbers>,
    lines: RefCell<Vec<(Handle, u64)>>,
}

impl Sink {
    fn new() -> Sink {
        Sink {
            dom: RcDom::default(),
            state: RefCell::new(RcDomWithLineNumbers::default()),
            lines: RefCell::new(Vec::new()),
        }
    }
}

impl TreeSink for Sink {
    type Handle = Handle;
    type Output = Sink;
    type ElemName<'a> = ExpandedName<'a>;

    fn finish(self) -> Sink {
        self
    }
    fn parse_error(&self, msg: Cow<'static, str>) {
        self.state.borrow_mut().parse_error(&msg);
    }
    fn set_current_line(&self, line: u64) {
        self.state.borrow_mut().set_current_line(line);
    }
    fn create_element(
        &self,
        name: html5ever::QualName,
        attrs: Vec<html5ever::Attribute>,
        flags: ElementFlags,
    ) -> Handle {
        let h = self.dom.create_element(name, attrs, flags);
        let line = self.state.borrow().current_line();
        self.lines.borrow_mut().push((h.clone(), line));
        h
    }
    fn get_document(&self) -> Handle {
        self.dom.get_document()
    }
    fn elem_name<'a>(&'a self, target: &'a Handle) -> ExpandedName<'a> {
        self.dom.elem_name(target)
    }
    fn create_comment(&self, text: StrTendril) -> Handle {
        self.dom.create_comment(text)
    }
    fn create_pi(&self, target: StrTendril, data: StrTendril) -> Handle {
        self.dom.create_pi(target, data)
    }
    fn append(&self, parent: &Handle, child: NodeOrText<Handle>) {
        self.dom.append(parent, child)
    }
    fn append_based_on_parent_node(&self, element: &Handle, prev: &Handle, child: NodeOrText<Handle>) {
        self.dom.append_based_on_parent_node(element, prev, child)
    }
    fn append_doctype_to_document(&self, name: StrTendril, public_id: StrTendril, system_id: StrTendril) {
        self.dom.append_doctype_to_document(name, public_id, system_id)
    }
    fn mark_script_already_started(&self, node: &Handle) {
        self.dom.mark_script_already_started(node)
    }
    fn pop(&self, node: &Handle) {
        self.dom.pop(node)
    }
    fn get_template_contents(&self, target: &Handle) -> Handle {
        self.dom.get_template_contents(target)
    }
    fn same_node(&self, x: &Handle, y: &Handle) -> bool {
        self.dom.same_node(x, y)
    }
    fn set_quirks_mode(&self, mode: QuirksMode) {
        self.dom.set_quirks_mode(mode)
    }
    fn append_before_sibling(&self, sibling: &Handle, new_node: NodeOrText<Handle>) {
        self.dom.append_before_sibling(sibling, new_node)
    }
    fn add_attrs_if_missing(&self, target: &Handle, attrs: Vec<html5ever::Attribute>) {
        self.dom.add_attrs_if_missing(target, attrs)
    }
    fn associate_with_form(&self, target: &Handle, form: &Handle, nodes: (&Handle, Option<&Handle>)) {
        self.dom.associate_with_form(target, form, nodes)
    }
    fn remove_from_parent(&self, target: &Handle) {
        self.dom.remove_from_parent(target)
    }
    fn reparent_children(&self, node: &Handle, new_parent: &Handle) {
        self.dom.reparent_children(node, new_parent)
    }
    fn is_mathml_annotation_xml_integration_point(&self, handle: &Handle) -> bool {
        self.dom.is_mathml_annotation_xml_integration_point(handle)
    }
}

/// The token sink of the tests: it asks the library's filter what to send
/// after each tag.
struct Filter<S> {
    inner: S,
    filter: VoidElementFilter,
}

fn name_of(name: &html5ever::QualName) -> QualName {
    QualName::new(
        name.prefix.as_ref().map(|p| p.to_string()),
        name.ns.to_string(),
        name.local.to_string(),
    )
}

fn attrs_of(attrs: &[html5ever::Attribute]) -> Vec<Attribute> {
    attrs
        .iter()
        .map(|a| Attribute { name: name_of(&a.name), value: a.value.to_string() })
        .collect()
}

impl<S: TokenSink> TokenSink for Filter<S> {
    type Handle = S::Handle;

    fn process_token(&self, token: Token, line: u64) -> TokenSinkResult<S::Handle> {
        let tag = match &token {
            Token::TagToken(t) => Some(Tag {
                kind: match t.kind {
                    html5ever::tokenizer::TagKind::StartTag => TagKind::StartTag,
                    html5ever::tokenizer::TagKind::EndTag => TagKind::EndTag,
                },
                name: t.name.to_string(),
                self_closing: t.self_closing,
                attrs: attrs_of(&t.attrs),
            }),
            _ => None,
        };
        let result = self.inner.process_token(token, line);
        if let Some(tag) = tag {
            let continues = matches!(result, TokenSinkResult::Continue);
            if let Some(close) = self.filter.synthetic_close(&tag, continues) {
                let close = html5ever::tokenizer::Tag {
                    kind: html5ever::tokenizer::TagKind::EndTag,
                    name: LocalName::from(close.name),
                    self_closing: close.self_closing,
                    attrs: vec![],
                    had_duplicate_attributes: false,
                };
                return self.inner.process_token(Token::TagToken(close), line);
            }
        }
        result
    }
    fn end(&self) {
        self.inner.end()
    }
    fn adjusted_current_node_present_but_not_in_html_namespace(&self) -> bool {
        self.inner.adjusted_current_node_present_but_not_in_html_namespace()
    }
}

fn tokenizer_opts() -> TokenizerOpts {
    TokenizerOpts { exact_errors: create_error_opts().tokenizer.exact_errors, ..Default::default() }
}

fn tree_builder_opts() -> TreeBuilderOpts {
    TreeBuilderOpts { exact_errors: create_error_opts().tree_builder.exact_errors, ..Default::default() }
}

/// Feeds the input to the tokenizer in chunks of the given size.
fn run(tokenizer: Tokenizer<Filter<TreeBuilder<Handle, Sink>>>, input: &[u8], chunk: usize) -> Sink {
    let text = String::from_utf8_lossy(input).to_string();
    let queue = BufferQueue::default();
    let mut rest = text.as_str();
    while !rest.is_empty() {
        let mut n = chunk.min(rest.len());
        while !rest.is_char_boundary(n) {
            n += 1;
        }
        queue.push_back(StrTendril::from(&rest[..n]));
        rest = &rest[n..];
        while !matches!(tokenizer.feed(&queue), TokenizerResult::Done) {}
    }
    tokenizer.end();
    tokenizer.sink.inner.sink.finish()
}

/// Copies html5ever's tree below `handle` into the library's arena.
fn convert(sink: &Sink, state: &mut RcDomWithLineNumbers, handle: &Handle) -> usize {
    let id = match &handle.data {
        RcData::Document => state.dom_mut().create_node(NodeData::Document),
        RcData::Doctype { name, public_id, system_id } => state.dom_mut().create_node(NodeData::Doctype {
            name: name.to_string(),
            public_id: public_id.to_string(),
            system_id: system_id.to_string(),
        }),
        RcData::Text { contents } => {
            state.dom_mut().create_node(NodeData::Text { contents: contents.borrow().to_string() })
        }
        RcData::Comment { contents } => {
            state.dom_mut().create_node(NodeData::Comment { contents: contents.to_string() })
        }
        RcData::ProcessingInstruction { target, contents } => {
            state.dom_mut().create_node(NodeData::ProcessingInstruction {
                target: target.to_string(),
                contents: contents.to_string(),
            })
        }
        RcData::Element { name, attrs, template_contents, mathml_annotation_xml_integration_point } => {
            let line = sink.lines.borrow().iter().find(|(h, _)| Rc::ptr_eq(h, handle)).map(|(_, l)| *l);
            let template = template_contents.borrow().clone();
            let attrs = attrs_of(&attrs.borrow());
            let flag = *mathml_annotation_xml_integration_point;
            match line {
                Some(line) => {
                    state.set_current_line(line);
                    let id = state.create_element(name_of(name), attrs, template.is_some(), flag);
                    if let Some(t) = template {
                        let contents = match state.dom().data(id) {
                            NodeData::Element { template_contents: Some(c), .. } => *c,
                            _ => unreachable!(),
                        };
                        convert_children(sink, state, &t, contents);
                    }
                    id
                }
                None => {
                    let template_contents = template.map(|t| convert(sink, state, &t));
                    state.dom_mut().create_node(NodeData::Element {
                        name: name_of(name),
                        attrs,
                        template_contents,
                        mathml_annotation_xml_integration_point: flag,
                    })
                }
            }
        }
    };
    convert_children(sink, state, handle, id);
    id
}

fn convert_children(sink: &Sink, state: &mut RcDomWithLineNumbers, handle: &Handle, id: usize) {
    let children: Vec<usize> =
        handle.children.borrow().iter().map(|c| convert(sink, state, c)).collect();
    assert!(state.dom().can_adopt(id, &children));
    state.dom_mut().append_children(id, children);
}

/// The library's state after a parse: the errors as they were raised, the
/// tree as html5ever built it.
fn converted(sink: Sink) -> RcDomWithLineNumbers {
    let mut state = sink.state.replace(RcDomWithLineNumbers::default());
    let document = state.document();
    let root = sink.dom.document.clone();
    convert_children(&sink, &mut state, &root, document);
    state
}

fn parse_document_chunked(input: &[u8], chunk: usize) -> Result<RcDomWithLineNumbers, Error> {
    let filter = Filter {
        inner: TreeBuilder::new(Sink::new(), tree_builder_opts()),
        filter: VoidElementFilter::new("ref".to_string()),
    };
    let sink = run(Tokenizer::new(filter, tokenizer_opts()), input, chunk);
    finish_document(converted(sink))
}

fn parse_document(input: &str) -> Result<RcDomWithLineNumbers, Error> {
    parse_document_chunked(input.as_bytes(), 128 * 1024)
}

fn parse_fragment_arena(input: &[u8], dom: &Dom, context: usize) -> Result<(Dom, Vec<usize>), Error> {
    let sink = Sink::new();
    let context_elem = match dom.data(context) {
        NodeData::Element { name, attrs, .. } => html5ever::interface::create_element(
            &sink,
            html5ever::QualName::new(
                name.prefix.as_deref().map(html5ever::Prefix::from),
                html5ever::Namespace::from(name.ns.as_str()),
                LocalName::from(name.local.as_str()),
            ),
            attrs
                .iter()
                .map(|a| html5ever::Attribute {
                    name: html5ever::QualName::new(
                        a.name.prefix.as_deref().map(html5ever::Prefix::from),
                        html5ever::Namespace::from(a.name.ns.as_str()),
                        LocalName::from(a.name.local.as_str()),
                    ),
                    value: StrTendril::from(a.value.as_str()),
                })
                .collect(),
        ),
        _ => panic!("the context is no element"),
    };
    let tree_builder = TreeBuilder::new_for_fragment(sink, context_elem, None, tree_builder_opts());
    let opts = TokenizerOpts {
        initial_state: Some(tree_builder.tokenizer_state_for_context_elem(false)),
        ..tokenizer_opts()
    };
    let filter = Filter { inner: tree_builder, filter: VoidElementFilter::new("ref".to_string()) };
    let sink = run(Tokenizer::new(filter, opts), input, 128 * 1024);
    let state = converted(sink);
    assert!(state.dom().len() > 1 || !state.create_error_from_parse_errors().is_ok());
    let (state, nodes) = finish_fragment(state)?;
    Ok((state.into_dom(), nodes))
}

fn parse_fragment(input: &[u8], dom: &mut Dom, context: usize) -> Result<Vec<usize>, Error> {
    let (arena, nodes) = parse_fragment_arena(input, dom, context)?;
    Ok(adopt_fragment(dom, &arena, &nodes))
}

fn serialize_for_test(dom: &Dom, nodes: &[usize]) -> String {
    let mut output = vec![];
    for &node in nodes {
        let traversal_scope = match dom.data(node) {
            NodeData::Document => TraversalScope::ChildrenOnly(None),
            _ => TraversalScope::IncludeNode,
        };
        assert!(can_serialize(dom, node, &traversal_scope));
        let opts = SerializeOpts { scripting_enabled: true, traversal_scope };
        output.extend(serialize(dom, node, &opts));
    }
    String::from_utf8(output).unwrap()
}

/// Checks on a whole arena what must hold after every edit.
fn assert_singly_linked(dom: &Dom) {
    let mut seen = vec![0usize; dom.len()];
    for p in 0..dom.len() {
        for &c in dom.children(p).iter() {
            assert_eq!(dom.parent_node(c), Some(p));
            seen[c] += 1;
        }
    }
    for c in 0..dom.len() {
        assert_eq!(seen[c], if dom.parent_node(c).is_some() { 1 } else { 0 });
    }
}

#[test]
fn test_fragment_respects_context() {
    // Checks that we have the appropriate insertion mode for the element
    // we're in. This is important because of the special rules
    // surrounding, e.g., tables. If you change this to use the body as context,
    // no element at all is emitted.
    let mut parsed = parse_document("<!DOCTYPE html><table></table>").unwrap();
    let document = parsed.document();
    let dom = parsed.dom_mut();
    let body = dom.children(dom.children(document)[1])[1];
    assert!(dom.is_html_element(body, "body"));
    let table = dom.children(body)[0];
    assert!(dom.is_html_element(table, "table"));
    let children = parse_fragment("<tbody>".as_bytes(), dom, table).unwrap();
    assert_eq!(serialize_for_test(dom, &children), "<tbody></tbody>");
    // Inserted into the table, the fragment gives what the document would have.
    assert!(dom.can_adopt(table, &children));
    dom.append_children(table, children);
    let whole = parse_document("<!DOCTYPE html><table><tbody></tbody></table>").unwrap();
    assert_eq!(
        serialize_for_test(dom, &[document]),
        serialize_for_test(whole.dom(), &[whole.document()])
    );
    assert_singly_linked(dom);
}

#[test]
fn test_document_error_line_number() {
    let result = parse_document("<!DOCTYPE html>Hello\n<strong><em>world</strong></em>");
    let error = result.unwrap_err();
    assert_eq!(error.kind(), ErrorKind::InvalidData);
    assert!(error.to_string().contains("Line 2: "));
}

#[test]
fn test_document_error_line_number_pre() {
    let result = parse_document(
        r##"<!DOCTYPE html>
<pre>h1&gt;
</pre>
<p>Test 2</span>"##,
    );
    let error = result.unwrap_err();
    assert_eq!(error.kind(), ErrorKind::InvalidData);
    assert!(error.to_string().contains("Line 4: "));
}

#[test]
fn test_document_error_exact() {
    let result = parse_document("<!DOCTYPE html>&asdf;");
    let error = result.unwrap_err();
    assert_eq!(error.kind(), ErrorKind::InvalidData);
    assert!(error.to_string().contains("&asdf;"));
}

#[test]
fn test_fragment_error_line_number() {
    let mut parsed = parse_document("<!DOCTYPE html>").unwrap();
    let document = parsed.document();
    let dom = parsed.dom_mut();
    let body = dom.children(dom.children(document)[1])[1];
    assert!(dom.is_html_element(body, "body"));
    let result = parse_fragment("Hello \n\n<strong><em>world</strong></em>".as_bytes(), dom, body);
    let error = result.unwrap_err();
    assert_eq!(error.kind(), ErrorKind::InvalidData);
    assert!(error.to_string().contains("Line 3: "));
}

#[test]
fn test_fragment_error_exact() {
    let mut parsed = parse_document("<!DOCTYPE html>").unwrap();
    let document = parsed.document();
    let dom = parsed.dom_mut();
    let body = dom.children(dom.children(document)[1])[1];
    assert!(dom.is_html_element(body, "body"));
    let result = parse_fragment("&asdf;".as_bytes(), dom, body);
    let error = result.unwrap_err();
    assert_eq!(error.kind(), ErrorKind::InvalidData);
    assert!(error.to_string().contains("&asdf;"));
}

#[test]
fn all_parse_errors_are_reported_one_per_line() {
    let error = parse_document("<!DOCTYPE html>&asdf;\n<p>x</span>\n</div>").unwrap_err();
    let message = error.to_string();
    assert!(message.starts_with("Parse errors encountered:\n\nLine 1: "));
    let lines: Vec<&str> = message.lines().skip(2).collect();
    assert!(lines.len() >= 3);
    assert!(lines.iter().all(|l| l.starts_with("Line ")));
    assert!(lines.iter().any(|l| l.starts_with("Line 2: ")));
    assert!(lines.iter().any(|l| l.starts_with("Line 3: ")));
}

#[test]
fn void_ref_elements_are_siblings_without_end_tags() {
    let parsed = parse_document("<!DOCTYPE html><ref a><ref b>").unwrap();
    let dom = parsed.dom();
    let body = dom.children(dom.children(parsed.document())[1])[1];
    let refs = dom.children(body);
    assert_eq!(refs.len(), 2);
    assert!(dom.is_html_element(refs[0], "ref"));
    assert!(dom.is_html_element(refs[1], "ref"));
    assert!(dom.children(refs[0]).is_empty());
    assert!(dom.children(refs[1]).is_empty());
    let once = serialize_for_test(dom, &[parsed.document()]);
    assert_eq!(once, "<!DOCTYPE html><html><head></head><body><ref a=\"\"><ref b=\"\"></body></html>");
    let again = parse_document(&once).unwrap();
    assert_eq!(serialize_for_test(again.dom(), &[again.document()]), once);
}

#[test]
fn void_ref_survives_chunk_boundaries() {
    let input = "<!DOCTYPE html><p>x<ref spec=a>y<ref\nspec=b>z</p><script>if (a < b) { ref(); }</script>";
    let whole = parse_document(input).unwrap();
    let expected = serialize_for_test(whole.dom(), &[whole.document()]);
    assert_eq!(
        expected,
        "<!DOCTYPE html><html><head></head><body><p>x<ref spec=\"a\">y<ref spec=\"b\">z</p><script>if (a < b) { ref(); }</script></body></html>"
    );
    for chunk in 1..input.len() {
        let parsed = parse_document_chunked(input.as_bytes(), chunk).unwrap();
        assert_eq!(serialize_for_test(parsed.dom(), &[parsed.document()]), expected);
    }
}

#[test]
fn well_formed_document_round_trips() {
    let input = "<!DOCTYPE html><html lang=\"en\" class=\"a b\"><head><title>T &amp; U</title></head><body><p id=\"x\" class=\"note\" data-x=\"1\">Hello <em>world</em>!</p><!-- c --><template><b>t</b></template></body></html>";
    let parsed = parse_document(input).unwrap();
    let dom = parsed.dom();
    let once = serialize_for_test(dom, &[parsed.document()]);
    assert_eq!(
        once,
        "<!DOCTYPE html><html lang=\"en\" class=\"a b\"><head><title>T &amp; U</title></head><body><p id=\"x\" class=\"note\" data-x=\"1\">Hello <em>world</em>!</p><!-- c --><template></template></body></html>"
    );
    let again = parse_document(&once).unwrap();
    assert_eq!(serialize_for_test(again.dom(), &[again.document()]), once);
    let body = dom.children(dom.children(parsed.document())[1])[1];
    let p = dom.children(body)[0];
    assert_eq!(dom.text_content(p), "Hello world!");
    assert_eq!(parsed.line_number_for(p), Some(1));
    assert_singly_linked(dom);
}

#[test]
fn elements_know_the_line_of_their_start_tag() {
    let parsed = parse_document("<!DOCTYPE html>\n<p>a</p>\n\n<div>\n<span>b</span></div>").unwrap();
    let dom = parsed.dom();
    let body = dom.children(dom.children(parsed.document())[1])[1];
    let elements: Vec<usize> =
        dom.children(body).iter().copied().filter(|&c| dom.is_element(c)).collect();
    assert_eq!(parsed.line_number_for(elements[0]), Some(2));
    assert_eq!(parsed.line_number_for(elements[1]), Some(4));
    let span = dom.children(elements[1])[1];
    assert!(dom.is_html_element(span, "span"));
    assert_eq!(parsed.line_number_for(span), Some(5));
    assert_eq!(parsed.line_number_for(dom.children(span)[0]), None);
}

#[test]
fn deep_clone_of_parsed_tree_serializes_alike() {
    let mut parsed = parse_document(
        "<!DOCTYPE html><div class=x><p>a<ref t>b</p><template><i>in</i></template><!--c--></div>",
    )
    .unwrap();
    let document = parsed.document();
    let dom = parsed.dom_mut();
    let body = dom.children(dom.children(document)[1])[1];
    let div = dom.children(body)[0];
    let original = serialize_for_test(dom, &[div]);
    let whole = serialize_for_test(dom, &[document]);
    let copy = dom.deep_clone(div);
    assert_eq!(serialize_for_test(dom, &[copy]), original);
    let p = dom.children(copy)[0];
    dom.remove(p);
    dom.set_attribute(copy, &QualName::attribute("class"), "y".to_string());
    assert_eq!(serialize_for_test(dom, &[div]), original);
    assert_eq!(serialize_for_test(dom, &[document]), whole);
    assert_singly_linked(dom);
}

fn visit_anchor_permanence(dom: &Dom, document: usize) -> html_build::anchor_permanence::Processor {
    let mut processor = html_build::anchor_permanence::Processor::new();
    let mut seen_script = false;
    for h in html_build::scan::scan_dom(dom, document) {
        let is_script = dom.is_html_element(h, "script")
            && dom.attribute_is(h, &QualName::attribute("type"), "text/required-ids");
        assert!(!(is_script && seen_script), "multiple required-ids scripts encountered");
        seen_script = seen_script || is_script;
        processor.visit(dom, h);
    }
    processor
}

#[test]
fn removes_script_from_head() {
    let mut parsed = parse_document(r#"<!DOCTYPE html>
<html><head><script type="text/required-ids">a b c</script></head><body><div id="a"></div><p id="b"></p><section id="c"></section></body></html>
"#).unwrap();
    let document = parsed.document();
    let processor = visit_anchor_permanence(parsed.dom(), document);
    processor.apply(parsed.dom_mut()).unwrap();
    let serialized = serialize_for_test(parsed.dom(), &[document]);
    assert!(!serialized.contains("text/required-ids"));
    assert_eq!(
        serialized,
        "<!DOCTYPE html><html><head></head><body><div id=\"a\"></div><p id=\"b\"></p><section id=\"c\"></section>\n</body></html>"
    );
    assert_singly_linked(parsed.dom());
}

#[test]
fn no_script_present_noop() {
    let mut parsed = parse_document(
        r#"<!DOCTYPE html>
<html><head></head><body></body></html>
"#,
    )
    .unwrap();
    let document = parsed.document();
    let before = serialize_for_test(parsed.dom(), &[document]);
    let processor = visit_anchor_permanence(parsed.dom(), document);
    processor.apply(parsed.dom_mut()).unwrap();
    assert_eq!(before, serialize_for_test(parsed.dom(), &[document]));
}

#[test]
fn whitespace_splitting() {
    // Includes indentation, multiple spaces, and newlines in the script content.
    let mut parsed = parse_document(r#"<!DOCTYPE html><html><head><script type="text/required-ids">
        foo   bar
            baz
    qux
</script></head><body><div id="foo"></div><div id="bar"></div><div id="baz"></div><div id="qux"></div></body></html>
"#).unwrap();
    let document = parsed.document();
    let processor = visit_anchor_permanence(parsed.dom(), document);
    processor.apply(parsed.dom_mut()).unwrap();
    let serialized = serialize_for_test(parsed.dom(), &[document]);
    assert!(!serialized.contains("text/required-ids"));
}

#[test]
fn errors_on_missing_ids() {
    let mut parsed = parse_document(r#"<!DOCTYPE html>
<html><head><script type="text/required-ids">foo bar baz</script></head><body><div id="foo"></div></body></html>
"#).unwrap();
    let document = parsed.document();
    let before = serialize_for_test(parsed.dom(), &[document]);
    let processor = visit_anchor_permanence(parsed.dom(), document);
    let err = processor.apply(parsed.dom_mut()).expect_err("expected missing IDs error");
    assert!(err.to_string().contains("Missing required IDs for anchor permanence: bar, baz"));
    assert_eq!(err.to_string(), "Missing required IDs for anchor permanence: bar, baz");
    assert_eq!(err.kind(), ErrorKind::InvalidData);
    assert_eq!(before, serialize_for_test(parsed.dom(), &[document]));
}

#[test]
#[should_panic(expected = "multiple required-ids scripts encountered")]
fn panics_on_multiple_required_ids_scripts() {
    let parsed = parse_document(r#"<!DOCTYPE html><html><head>
<script type="text/required-ids">a b</script>
<script type="text/required-ids">c d</script>
</head><body><div id="a"></div><div id="b"></div><div id="c"></div><div id="d"></div></body></html>"#).unwrap();
    let document = parsed.document();
    visit_anchor_permanence(parsed.dom(), document);
}

#[test]
fn missing_ids_are_listed_in_ascending_order() {
    let mut parsed = parse_document(
        "<!DOCTYPE html><script type=\"text/required-ids\">b ab a Z aa b \u{e9} a-b</script><p id=\"zz\">",
    )
    .unwrap();
    let document = parsed.document();
    let processor = visit_anchor_permanence(parsed.dom(), document);
    let err = processor.apply(parsed.dom_mut()).unwrap_err();
    assert_eq!(
        err.to_string(),
        "Missing required IDs for anchor permanence: Z, a, a-b, aa, ab, b, \u{e9}"
    );
}

fn run_self_link(parsed: &mut RcDomWithLineNumbers) -> Result<(), Error> {
    let document = parsed.document();
    let mut processor = html_build::self_link::Processor::new();
    for h in html_build::scan::scan_dom(parsed.dom(), document) {
        processor.visit(parsed.dom(), h);
    }
    processor.apply(parsed.dom_mut())
}

#[test]
fn test_add_self_link() {
    let mut document = parse_document(
        r##"<!DOCTYPE html>
<div class="example" id="foo"></div>
<div class="note" id="bar"></div>
<div class="XXX" id="baz"></div>
<div class="example"></div>
<div id="qux"></div>
"##,
    )
    .unwrap();
    run_self_link(&mut document).unwrap();
    assert_eq!(
        serialize_for_test(document.dom(), &[document.document()]),
        r##"<!DOCTYPE html><html><head></head><body><div class="example" id="foo"><a href="#foo" class="self-link"></a></div>
<div class="note" id="bar"><a href="#bar" class="self-link"></a></div>
<div class="XXX" id="baz"><a href="#baz" class="self-link"></a></div>
<div class="example"></div>
<div id="qux"></div>
</body></html>"##
    );
    assert_singly_linked(document.dom());
}

#[test]
fn test_add_self_link_details() {
    let mut document = parse_document(
        r##"<!DOCTYPE html>
<details class="example" id="foo"><summary>Foo</summary></details>
"##,
    )
    .unwrap();
    run_self_link(&mut document).unwrap();
    assert_eq!(
        serialize_for_test(document.dom(), &[document.document()]),
        r##"<!DOCTYPE html><html><head></head><body><details class="example" id="foo"><summary>Foo</summary><a href="#foo" class="self-link"></a></details>
</body></html>"##
    );
    assert_singly_linked(document.dom());
}

#[test]
fn test_add_self_link_details_no_summary() {
    let mut document =
        parse_document(r##"<!DOCTYPE html><details class="example" id="foo"></details>"##).unwrap();
    let result = run_self_link(&mut document);
    assert!(result.is_err());
    let err = result.unwrap_err();
    assert_eq!(err.kind(), ErrorKind::InvalidData);
    assert_eq!(err.to_string(), "details element with self-link target class has no summary");
}

#[test]
fn test_add_self_link_already_present() {
    let mut document = parse_document(
        r##"<!DOCTYPE html>
<div class="example" id="foo"><a class="self-link" href="#foo"></a></div>
"##,
    )
    .unwrap();
    run_self_link(&mut document).unwrap();
    assert_eq!(
        serialize_for_test(document.dom(), &[document.document()]),
        r##"<!DOCTYPE html><html><head></head><body><div class="example" id="foo"><a class="self-link" href="#foo"></a></div>
</body></html>"##
    );
}

#[test]
fn test_url_encoding() {
    let mut document = parse_document(
        r##"<!DOCTYPE html>
<div class="example" id="foo bar"></div>
"##,
    )
    .unwrap();
    run_self_link(&mut document).unwrap();
    assert_eq!(
        serialize_for_test(document.dom(), &[document.document()]),
        r##"<!DOCTYPE html><html><head></head><body><div class="example" id="foo bar"><a href="#foo%20bar" class="self-link"></a></div>
</body></html>"##
    );
}

fn run_variables(parsed: &mut RcDomWithLineNumbers) -> Result<(), Error> {
    let mut processor = html_build::variables::Processor::new();
    for h in html_build::scan::scan_dom(parsed.dom(), parsed.document()) {
        processor.visit(parsed, h);
    }
    processor.apply(parsed)
}

fn run_represents(parsed: &mut RcDomWithLineNumbers) -> Result<(), Error> {
    let mut processor = html_build::represents::Processor::new();
    for h in html_build::scan::scan_dom(parsed.dom(), parsed.document()) {
        processor.visit(parsed.dom(), h);
    }
    let result = processor.apply(parsed.dom_mut());
    assert_singly_linked(parsed.dom());
    result
}

fn run_interface_index(parsed: &mut RcDomWithLineNumbers) -> Result<(), Error> {
    let mut processor = html_build::interface_index::Processor::new();
    for h in html_build::scan::scan_dom(parsed.dom(), parsed.document()) {
        processor.visit(parsed.dom(), h);
    }
    let result = processor.apply(parsed.dom_mut());
    assert_singly_linked(parsed.dom());
    result
}

fn run_tag_omission(parsed: &mut RcDomWithLineNumbers) -> Result<(), Error> {
    let mut processor = html_build::tag_omission::Processor::new();
    for h in html_build::scan::scan_dom(parsed.dom(), parsed.document()) {
        processor.visit(parsed.dom(), h);
    }
    let result = processor.apply(parsed.dom_mut());
    assert_singly_linked(parsed.dom());
    result
}

fn run_annotate_attributes(parsed: &mut RcDomWithLineNumbers) -> Result<(), Error> {
    let mut processor = html_build::annotate_attributes::Processor::new();
    for h in html_build::scan::scan_dom(parsed.dom(), parsed.document()) {
        processor.visit(parsed.dom_mut(), h);
    }
    for i in 0..processor.edit_count() {
        match processor.plan(i) {
            html_build::annotate_attributes::Step::Skip => {}
            html_build::annotate_attributes::Step::Fail(e) => return Err(e),
            html_build::annotate_attributes::Step::Parse { context, text } => {
                let fragment = parse_fragment_arena(text.as_bytes(), parsed.dom(), context)?;
                processor.apply(parsed.dom_mut(), i, Some(fragment));
            }
            html_build::annotate_attributes::Step::Ready => {
                processor.apply(parsed.dom_mut(), i, None);
            }
        }
    }
    assert_singly_linked(parsed.dom());
    Ok(())
}

/// The files of the tests: directory, name, contents.
fn run_boilerplate(
    parsed: &mut RcDomWithLineNumbers,
    files: &[(html_build::boilerplate::Source, &str, &str)],
) -> Result<(), Error> {
    let mut processor = html_build::boilerplate::Processor::new();
    for h in html_build::scan::scan_dom(parsed.dom(), parsed.document()) {
        processor.visit(parsed.dom(), h);
    }
    for edit in processor.edits() {
        let read = |edit: &html_build::boilerplate::Edit| -> Result<String, Error> {
            files
                .iter()
                .find(|(source, name, _)| *source == edit.source && *name == edit.path)
                .map(|(_, _, contents)| contents.to_string())
                .ok_or_else(|| Error::new(ErrorKind::InvalidData, format!("no file {}", edit.path)))
        };
        let loaded = match html_build::boilerplate::Processor::plan(parsed.dom(), edit) {
            html_build::boilerplate::Step::Skip => continue,
            html_build::boilerplate::Step::Fail(e) => return Err(e),
            html_build::boilerplate::Step::LoadHtml { context } => {
                let (arena, nodes) = parse_fragment_arena(read(edit)?.as_bytes(), parsed.dom(), context)?;
                html_build::boilerplate::Loaded::Html(arena, nodes)
            }
            html_build::boilerplate::Step::LoadText => html_build::boilerplate::Loaded::Text(read(edit)?),
        };
        html_build::boilerplate::Processor::apply(parsed.dom_mut(), edit, loaded);
    }
    assert_singly_linked(parsed.dom());
    Ok(())
}

#[test]
fn test_basic_conversion() {
    let mut document = parse_document(
        r##"<!DOCTYPE html>
<div algorithm></div>
<p algorithm="foo">Hi</p>
<span var-scope="bar"></span>
<em>No change</em>
"##,
    )
    .unwrap();

    let result = run_variables(&mut document);
    result.unwrap();

    assert_eq!(
        serialize_for_test(document.dom(), &[document.document()]),
        r##"<!DOCTYPE html><html><head></head><body><div data-algorithm=""></div>
<p data-algorithm="foo">Hi</p>
<span data-var-scope="bar"></span>
<em>No change</em>
</body></html>"##
    );
}

#[test]
fn test_error_on_existing_data_attr() {
    let mut document = parse_document(
        r##"<!DOCTYPE html>
<div data-algorithm></div>
<div data-var-scope></div>
"##,
    )
    .unwrap();

    let result = run_variables(&mut document);
    let err = result.unwrap_err();
    assert!(err.to_string().contains("Line 2: "));
    assert!(err.to_string().contains("Line 3: "));
}

#[test]
fn test_error_on_both() {
    let mut document = parse_document(
        r##"<!DOCTYPE html>
<div algorithm="a" var-scope="b"></div>
"##,
    )
    .unwrap();

    let result = run_variables(&mut document);
    let err = result.unwrap_err();
    assert!(err.to_string().contains("Line 2: "));
}

#[test]
fn test_var_ignore_removes_attr_and_no_error() {
    let mut document = parse_document(
        r##"<!DOCTYPE html>
<p>Outside scope <var ignore>foo</var></p>
"##,
    )
    .unwrap();

    let result = run_variables(&mut document);
    result.unwrap();

    assert_eq!(
        serialize_for_test(document.dom(), &[document.document()]),
        r##"<!DOCTYPE html><html><head></head><body><p>Outside scope <var>foo</var></p>
</body></html>"##
    );
}

#[test]
fn test_var_outside_scope_errors() {
    let mut document = parse_document(
        r##"<!DOCTYPE html>
<p>Outside scope <var>bar</var></p>
"##,
    )
    .unwrap();

    let result = run_variables(&mut document);
    let err = result.unwrap_err();
    assert!(err.to_string().contains("Line 2: "));
}

#[test]
fn test_var_inside_algorithm_ok() {
    let mut document = parse_document(
        r##"<!DOCTYPE html>
<div algorithm="algorithm label"><p>In scope <var>n</var></p></div>
"##,
    )
    .unwrap();

    let result = run_variables(&mut document);
    result.unwrap();

    assert_eq!(
        serialize_for_test(document.dom(), &[document.document()]),
        r##"<!DOCTYPE html><html><head></head><body><div data-algorithm="algorithm label"><p>In scope <var>n</var></p></div>
</body></html>"##
    );
}

#[test]
fn test_var_inside_var_scope_ok() {
    let mut document = parse_document(
        r##"<!DOCTYPE html>
<section var-scope="scope label"><p>In scope <var>x</var></p></section>
"##,
    )
    .unwrap();

    let result = run_variables(&mut document);
    result.unwrap();

    assert_eq!(
        serialize_for_test(document.dom(), &[document.document()]),
        r##"<!DOCTYPE html><html><head></head><body><section data-var-scope="scope label"><p>In scope <var>x</var></p></section>
</body></html>"##
    );
}

#[test]
fn test_var_inside_domintro_ok() {
    let mut document = parse_document(
        r##"<!DOCTYPE html>
  <dl class="domintro">
   <dt><code data-x=""><var>variable</var> = <var>object</var>.<span data-x="x-that">method</span>([<var>optionalArgument</var>])</code></dt>

   <dd><p>This is a note to authors describing the usage of an interface.</p></dd>
  </dl>
"##
    ).unwrap();
    let result = run_variables(&mut document);
    result.unwrap();

    assert_eq!(
        serialize_for_test(document.dom(), &[document.document()]),
        r##"<!DOCTYPE html><html><head></head><body><dl class="domintro">
   <dt><code data-x=""><var>variable</var> = <var>object</var>.<span data-x="x-that">method</span>([<var>optionalArgument</var>])</code></dt>

   <dd><p>This is a note to authors describing the usage of an interface.</p></dd>
  </dl>
</body></html>"##
    );
}

#[test]
fn test_represents() {
    // Uses can occur either before or after.
    let mut document = parse_document("<!DOCTYPE html><p><!--REPRESENTS chair--><p>The <code>chair</code> element <span>represents</span> a seat\nat a <code>table</code>.<p><!--REPRESENTS chair-->").unwrap();
    let result = run_represents(&mut document);
    result.unwrap();
    assert_eq!(
        serialize_for_test(document.dom(), &[document.document()]),
        "<!DOCTYPE html><html><head></head><body><p>A seat\nat a <code>table</code>.</p><p>The <code>chair</code> element <span>represents</span> a seat\nat a <code>table</code>.</p><p>A seat\nat a <code>table</code>.</p></body></html>"
    );
}

#[test]
fn test_represents_undefined() {
    // Uses can occur either before or after.
    let mut document = parse_document("<!DOCTYPE html><p><!--REPRESENTS chain--><p>The <code>chair</code> element <span>represents</span> a seat\nat a <code>table</code>.<p><!--REPRESENTS chair-->").unwrap();
    let result = run_represents(&mut document);
    assert!(matches!(result, Err(e) if e.kind() == ErrorKind::InvalidData));
}

#[test]
fn test_two_interfaces_in_one_block() {
    let mut document = parse_document(
        r#"
<!DOCTYPE html>
<pre><code class=idl>
interface <dfn interface>HTMLMarqueeElement</dfn> { ... }
interface <dfn interface>HTMLBlinkElement</dfn> { ... }
</code></pre>
INSERT INTERFACES HERE
        "#
        .trim(),
    )
    .unwrap();
    let result = run_interface_index(&mut document);
    result.unwrap();
    assert_eq!(
        serialize_for_test(document.dom(), &[document.document()]),
        r#"
<!DOCTYPE html><html><head></head><body><pre><code class="idl">
interface <dfn interface="">HTMLMarqueeElement</dfn> { ... }
interface <dfn interface="">HTMLBlinkElement</dfn> { ... }
</code></pre>
<ul class="brief"><li><code>HTMLBlinkElement</code></li><li><code>HTMLMarqueeElement</code></li></ul></body></html>
        "#.trim());
}

#[test]
fn test_two_interfaces_in_separate_blocks() {
    let mut document = parse_document(
        r#"
<!DOCTYPE html>
<pre><code class=idl>
interface <dfn interface>HTMLMarqueeElement</dfn> { ... }
</code></pre>
<pre><code class=idl>
interface <dfn interface>HTMLBlinkElement</dfn> { ... }
</code></pre>
INSERT INTERFACES HERE
        "#
        .trim(),
    )
    .unwrap();
    let result = run_interface_index(&mut document);
    result.unwrap();
    assert_eq!(
        serialize_for_test(document.dom(), &[document.document()]),
        r#"
<!DOCTYPE html><html><head></head><body><pre><code class="idl">
interface <dfn interface="">HTMLMarqueeElement</dfn> { ... }
</code></pre>
<pre><code class="idl">
interface <dfn interface="">HTMLBlinkElement</dfn> { ... }
</code></pre>
<ul class="brief"><li><code>HTMLBlinkElement</code></li><li><code>HTMLMarqueeElement</code></li></ul></body></html>
        "#.trim());
}

#[test]
fn interface_with_partial() {
    let mut document = parse_document(
        r#"
<!DOCTYPE html>
<pre><code class=idl>
interface <dfn interface>HTMLMarqueeElement</dfn> { ... }
</code></pre>
<pre><code class=idl>
partial interface <span id=HTMLMarqueeElement-partial>HTMLMarqueeElement</span> { ... }
</code></pre>
INSERT INTERFACES HERE
        "#
        .trim(),
    )
    .unwrap();
    let result = run_interface_index(&mut document);
    result.unwrap();
    assert_eq!(
        serialize_for_test(document.dom(), &[document.document()]),
        r##"
<!DOCTYPE html><html><head></head><body><pre><code class="idl">
interface <dfn interface="">HTMLMarqueeElement</dfn> { ... }
</code></pre>
<pre><code class="idl">
partial interface <span id="HTMLMarqueeElement-partial">HTMLMarqueeElement</span> { ... }
</code></pre>
<ul class="brief"><li><code>HTMLMarqueeElement</code>, <a href="#HTMLMarqueeElement-partial">partial</a></li></ul></body></html>
        "##.trim());
}

#[test]
fn interface_with_two_partials() {
    let mut document = parse_document(
        r#"
<!DOCTYPE html>
<pre><code class=idl>
interface <dfn interface>HTMLMarqueeElement</dfn> { ... }
partial interface <span id=HTMLMarqueeElement-partial>HTMLMarqueeElement</span> { ... }
partial interface <span id=HTMLMarqueeElement-partial-2>HTMLMarqueeElement</span> { ... }
</code></pre>
INSERT INTERFACES HERE
        "#
        .trim(),
    )
    .unwrap();
    let result = run_interface_index(&mut document);
    result.unwrap();
    assert_eq!(
        serialize_for_test(document.dom(), &[document.document()]),
        r##"
<!DOCTYPE html><html><head></head><body><pre><code class="idl">
interface <dfn interface="">HTMLMarqueeElement</dfn> { ... }
partial interface <span id="HTMLMarqueeElement-partial">HTMLMarqueeElement</span> { ... }
partial interface <span id="HTMLMarqueeElement-partial-2">HTMLMarqueeElement</span> { ... }
</code></pre>
<ul class="brief"><li><code>HTMLMarqueeElement</code>, <a href="#HTMLMarqueeElement-partial">partial 1</a> <a href="#HTMLMarqueeElement-partial-2">2</a></li></ul></body></html>
        "##.trim());
}

#[test]
fn only_partials() {
    let mut document = parse_document(
        r#"
<!DOCTYPE html>
<pre><code class=idl>
partial interface <span id=HTMLMarqueeElement-partial>HTMLMarqueeElement</span> { ... }
partial interface <span id=HTMLMarqueeElement-partial-2>HTMLMarqueeElement</span> { ... }
</code></pre>
INSERT INTERFACES HERE
        "#
        .trim(),
    )
    .unwrap();
    let result = run_interface_index(&mut document);
    result.unwrap();
    assert_eq!(
        serialize_for_test(document.dom(), &[document.document()]),
        r##"
<!DOCTYPE html><html><head></head><body><pre><code class="idl">
partial interface <span id="HTMLMarqueeElement-partial">HTMLMarqueeElement</span> { ... }
partial interface <span id="HTMLMarqueeElement-partial-2">HTMLMarqueeElement</span> { ... }
</code></pre>
<ul class="brief"><li><code>HTMLMarqueeElement</code>, <a href="#HTMLMarqueeElement-partial">partial 1</a> <a href="#HTMLMarqueeElement-partial-2">2</a></li></ul></body></html>
        "##.trim());
}

#[test]
fn marker_before() {
    let mut document = parse_document(
        r#"
<!DOCTYPE html>
INSERT INTERFACES HERE
<pre><code class=idl>
interface <dfn interface>HTMLMarqueeElement</dfn> { ... }
</code></pre>
        "#
        .trim(),
    )
    .unwrap();
    let result = run_interface_index(&mut document);
    result.unwrap();
    assert_eq!(
        serialize_for_test(document.dom(), &[document.document()]),
        r#"
<!DOCTYPE html><html><head></head><body><ul class="brief"><li><code>HTMLMarqueeElement</code></li></ul>
<pre><code class="idl">
interface <dfn interface="">HTMLMarqueeElement</dfn> { ... }
</code></pre></body></html>
        "#
        .trim()
    );
}

#[test]
fn no_marker() {
    let mut document = parse_document("<!DOCTYPE html>").unwrap();
    let result = run_interface_index(&mut document);
    assert!(matches!(result, Err(e) if e.kind() == ErrorKind::InvalidData));
}

#[test]
fn duplicate_marker() {
    let mut document = parse_document(
        "<!DOCTYPE html><div>INSERT INTERFACES HERE</div><div>INSERT INTERFACES HERE</div>",
    )
    .unwrap();
    let result = run_interface_index(&mut document);
    assert!(matches!(result, Err(e) if e.kind() == ErrorKind::InvalidData));
}

#[test]
fn duplicate_dfn() {
    let mut document = parse_document(
        r#"
<!DOCTYPE html>
<pre><code class=idl>
interface <dfn interface>HTMLMarqueeElement</dfn> { ... }
interface <dfn interface>HTMLMarqueeElement</dfn> { ... }
</code></pre>
        "#,
    )
    .unwrap();
    let result = run_interface_index(&mut document);
    assert!(matches!(result, Err(e) if e.kind() == ErrorKind::InvalidData));
}

#[test]
fn tag_omission_test_simple() {
    let mut document = parse_document(
        r#"
<!DOCTYPE html>
<h3>Optional tags</h3>
<p>A <code>td</code> element does very tdish things and may be very cellular.</p>
<p>An <code>audio</code> element is quite audible.</p>
<h3>Another section</h3>
<p>A <code>body</code> element is ignored because it's in another section.
<dl>
<dt><dfn>Void elements</dfn>
<dd><code>img</code> and <code>meta</code> are void.
<dd><code>input</code> is too.
<dt>Non-void elements
<dd><code>html</code> is interesting but not void.
</dl>
<h2>Elements</h2>
<p><dfn element>audio</dfn>
<dl class=element>
<dt><span data-x=concept-element-attributes></span>
</dl>
<p><dfn element>body</dfn>
<dl class=element>
<dt><span data-x=concept-element-attributes></span>
</dl>
<p><dfn element>html</dfn>
<dl class=element>
<dt><span data-x=concept-element-attributes></span>
</dl>
<p><dfn element>img</dfn>
<dl class=element>
<dt><span data-x=concept-element-attributes></span>
</dl>
<p><dfn element>input</dfn>
<dl class=element>
<dt><span data-x=concept-element-attributes></span>
</dl>
<p><dfn element>meta</dfn>
<dl class=element>
<dt><span data-x=concept-element-attributes></span>
</dl>
<p><dfn element>td</dfn>
<dl class=element>
<dt><span data-x=concept-element-attributes></span>
</dl>
        "#
        .trim(),
    )
    .unwrap();
    let result = run_tag_omission(&mut document);
    result.unwrap();
    assert_eq!(
        serialize_for_test(document.dom(), &[document.document()]),
        r#"
<!DOCTYPE html><html><head></head><body><h3>Optional tags</h3>
<p>A <code>td</code> element does very tdish things and may be very cellular.</p>
<p>An <code>audio</code> element is quite audible.</p>
<h3>Another section</h3>
<p>A <code>body</code> element is ignored because it's in another section.
</p><dl>
<dt><dfn>Void elements</dfn>
</dt><dd><code>img</code> and <code>meta</code> are void.
</dd><dd><code>input</code> is too.
</dd><dt>Non-void elements
</dt><dd><code>html</code> is interesting but not void.
</dd></dl>
<h2>Elements</h2>
<p><dfn element="">audio</dfn>
</p><dl class="element">
<dt><span data-x="concept-element-tag-omission">Tag omission in text/html</span>:</dt><dd>An <code>audio</code> element is quite audible.</dd>
<dt><span data-x="concept-element-attributes"></span>
</dt></dl>
<p><dfn element="">body</dfn>
</p><dl class="element">
<dt><span data-x="concept-element-tag-omission">Tag omission in text/html</span>:</dt><dd>Neither tag is omissible.</dd>
<dt><span data-x="concept-element-attributes"></span>
</dt></dl>
<p><dfn element="">html</dfn>
</p><dl class="element">
<dt><span data-x="concept-element-tag-omission">Tag omission in text/html</span>:</dt><dd>Neither tag is omissible.</dd>
<dt><span data-x="concept-element-attributes"></span>
</dt></dl>
<p><dfn element="">img</dfn>
</p><dl class="element">
<dt><span data-x="concept-element-tag-omission">Tag omission in text/html</span>:</dt><dd>No <span data-x="syntax-end-tag">end tag</span>.</dd>
<dt><span data-x="concept-element-attributes"></span>
</dt></dl>
<p><dfn element="">input</dfn>
</p><dl class="element">
<dt><span data-x="concept-element-tag-omission">Tag omission in text/html</span>:</dt><dd>No <span data-x="syntax-end-tag">end tag</span>.</dd>
<dt><span data-x="concept-element-attributes"></span>
</dt></dl>
<p><dfn element="">meta</dfn>
</p><dl class="element">
<dt><span data-x="concept-element-tag-omission">Tag omission in text/html</span>:</dt><dd>No <span data-x="syntax-end-tag">end tag</span>.</dd>
<dt><span data-x="concept-element-attributes"></span>
</dt></dl>
<p><dfn element="">td</dfn>
</p><dl class="element">
<dt><span data-x="concept-element-tag-omission">Tag omission in text/html</span>:</dt><dd>A <code>td</code> element does very tdish things and can be very cellular.</dd>
<dt><span data-x="concept-element-attributes"></span>
</dt></dl></body></html>
        "#.trim());
}

#[test]
fn annotate_attributes_test_simple() {
    // This is a simple document with enough stuff in it. Elements are shown
    // before and after the attributes table, to demonstrate that this is
    // not sensitive to which order they occur in (i.e., these could be
    // reordered in the HTML spec).
    let mut document = parse_document(
        r#"
<!DOCTYPE html><h3>The a element</h3>
<dl class="element">
<dt>Categories
<dd>Flow content
<dt><span data-x="concept-element-attributes">Content attributes</span>
<dd><code data-x="attr-a-href">href</code>
</dl>
<h3>Attributes</h3>
<table id="attributes-1"><tbody>
<tr><th><code data-x>href</code><td><code data-x="attr-a-href">a</code>; <code data-x="attr-area-href">area</code><td>Destination of the <span>hyperlink</span>
</tbody></table>
<h3>The area element</h3>
<dl class="element">
<dt>Categories
<dd>Flow content
<dt><span data-x="concept-element-attributes">Content attributes</span>
<dd><code data-x="attr-area-href">href</code>
</dl>
        "#.trim()).unwrap();
    let result = run_annotate_attributes(&mut document);
    result.unwrap();
    assert_eq!(
        serialize_for_test(document.dom(), &[document.document()]),
        r#"
<!DOCTYPE html><html><head></head><body><h3>The a element</h3>
<dl class="element">
<dt>Categories
</dt><dd>Flow content
</dd><dt><span data-x="concept-element-attributes">Content attributes</span>
</dt><dd><code data-x="attr-a-href">href</code>
 — Destination of the <span>hyperlink</span>
</dd></dl>
<h3>Attributes</h3>
<table id="attributes-1"><tbody>
<tr><th><code data-x="">href</code></th><td><code data-x="attr-a-href">a</code>; <code data-x="attr-area-href">area</code></td><td>Destination of the <span>hyperlink</span>
</td></tr></tbody></table>
<h3>The area element</h3>
<dl class="element">
<dt>Categories
</dt><dd>Flow content
</dd><dt><span data-x="concept-element-attributes">Content attributes</span>
</dt><dd><code data-x="attr-area-href">href</code>
 — Destination of the <span>hyperlink</span>
</dd></dl></body></html>
        "#.trim()
    );
}

#[test]
fn test_variant() {
    // This checks that <!-- variant --> and <!-- or: --> work correctly.
    // i.e., the variant description is used where requested
    let mut document = parse_document(
        r#"
<!DOCTYPE html><h3>The a element</h3>
<dl class="element">
<dt><span data-x="concept-element-attributes">Content attributes</span>
<dd><code data-x="attr-a-href">href</code>
</dl>
<h3>Attributes</h3>
<table id="attributes-1"><tbody>
<tr><th><code data-x>href</code><td><code data-x="attr-a-href">a</code>; <code data-x="attr-area-href">area</code><td>Destination of the <span>hyperlink</span><!-- or: click on <span>shapes</span>! -->
</tbody></table>
<h3>The area element</h3>
<dl class="element">
<dt><span data-x="concept-element-attributes">Content attributes</span>
<dd><code data-x="attr-area-href">href</code><!-- variant -->
</dl>
        "#.trim()).unwrap();
    let result = run_annotate_attributes(&mut document);
    result.unwrap();
    assert_eq!(
        serialize_for_test(document.dom(), &[document.document()]),
        r#"
<!DOCTYPE html><html><head></head><body><h3>The a element</h3>
<dl class="element">
<dt><span data-x="concept-element-attributes">Content attributes</span>
</dt><dd><code data-x="attr-a-href">href</code>
 — Destination of the <span>hyperlink</span>
</dd></dl>
<h3>Attributes</h3>
<table id="attributes-1"><tbody>
<tr><th><code data-x="">href</code></th><td><code data-x="attr-a-href">a</code>; <code data-x="attr-area-href">area</code></td><td>Destination of the <span>hyperlink</span><!-- or: click on <span>shapes</span>! -->
</td></tr></tbody></table>
<h3>The area element</h3>
<dl class="element">
<dt><span data-x="concept-element-attributes">Content attributes</span>
</dt><dd><code data-x="attr-area-href">href</code><!-- variant -->
 — click on <span>shapes</span>!</dd></dl></body></html>
        "#.trim()
    );
}

#[test]
fn test_special_semantics() {
    // Checks that the special rules for using : instead of an em dash work.
    let mut document = parse_document(
        r#"
<!DOCTYPE html><h3>The a element</h3>
<dl class="element">
<dt><span data-x="concept-element-attributes">Content attributes</span>
<dd>Also, the <code data-x="attr-a-name">name</code> attribute <span data-x="attr-a-name">has special semantics</span> on this element.
</dl>
<h3>Attributes</h3>
<table id="attributes-1"><tbody>
<tr><th><code data-x>name</code><td><code data-x="attr-a-name">a</code><td>Anchor name
</tbody></table>
        "#.trim()).unwrap();
    let result = run_annotate_attributes(&mut document);
    result.unwrap();
    assert_eq!(
        serialize_for_test(document.dom(), &[document.document()]),
        r#"
<!DOCTYPE html><html><head></head><body><h3>The a element</h3>
<dl class="element">
<dt><span data-x="concept-element-attributes">Content attributes</span>
</dt><dd>Also, the <code data-x="attr-a-name">name</code> attribute <span data-x="attr-a-name">has special semantics</span> on this element: Anchor name
</dd></dl>
<h3>Attributes</h3>
<table id="attributes-1"><tbody>
<tr><th><code data-x="">name</code></th><td><code data-x="attr-a-name">a</code></td><td>Anchor name
</td></tr></tbody></table></body></html>
        "#.trim()
    );
}

#[test]
fn test_special_semantics_multiple() {
    // Checks that the special rules for joining any special semantics with a ; work.
    let mut document = parse_document(
        r#"
<!DOCTYPE html><h3>The a element</h3>
<dl class="element">
<dt><span data-x="concept-element-attributes">Content attributes</span>
<dd>Also, the <code data-x="attr-a-name">name</code> attribute <span data-x="attr-a-name">has special semantics</span> on this element.
</dl>
<h3>Attributes</h3>
<table id="attributes-1"><tbody>
<tr><th><code data-x>name</code><td><code data-x="attr-a-name">a</code><td>Anchor name
<tr><th><code data-x>name</code><td><code data-x="attr-a-name">a</code><td>Name of the anchor
</tbody></table>
        "#.trim()).unwrap();
    let result = run_annotate_attributes(&mut document);
    result.unwrap();
    assert_eq!(
        serialize_for_test(document.dom(), &[document.document()]),
        r#"
<!DOCTYPE html><html><head></head><body><h3>The a element</h3>
<dl class="element">
<dt><span data-x="concept-element-attributes">Content attributes</span>
</dt><dd>Also, the <code data-x="attr-a-name">name</code> attribute <span data-x="attr-a-name">has special semantics</span> on this element: Anchor name; Name of the anchor
</dd></dl>
<h3>Attributes</h3>
<table id="attributes-1"><tbody>
<tr><th><code data-x="">name</code></th><td><code data-x="attr-a-name">a</code></td><td>Anchor name
</td></tr><tr><th><code data-x="">name</code></th><td><code data-x="attr-a-name">a</code></td><td>Name of the anchor
</td></tr></tbody></table></body></html>
        "#.trim()
    );
}

#[test]
fn test_identical_links() {
    // This checks the same identifier can be linked multiple times without
    // repeating the description.
    let mut document = parse_document(
        r#"
<!DOCTYPE html><h3>The img element</h3>
<dl class="element">
<dt><span data-x="concept-element-attributes">Content attributes</span>
<dd><code data-x="attr-dim-width">width</code>
</dl>
<h3>The video element</h3>
<dl class="element">
<dt><span data-x="concept-element-attributes">Content attributes</span>
<dd><code data-x="attr-dim-width">width</code>
</dl>
<h3>Attributes</h3>
<table id="attributes-1"><tbody>
<tr><th><code data-x>width</code><td><code data-x="attr-dim-width">img</code>; <code data-x="attr-dim-width">video</code><td>Horizontal dimension
</tbody></table>
        "#.trim()).unwrap();
    let result = run_annotate_attributes(&mut document);
    result.unwrap();
    assert_eq!(
        serialize_for_test(document.dom(), &[document.document()]),
        r#"
<!DOCTYPE html><html><head></head><body><h3>The img element</h3>
<dl class="element">
<dt><span data-x="concept-element-attributes">Content attributes</span>
</dt><dd><code data-x="attr-dim-width">width</code>
 — Horizontal dimension
</dd></dl>
<h3>The video element</h3>
<dl class="element">
<dt><span data-x="concept-element-attributes">Content attributes</span>
</dt><dd><code data-x="attr-dim-width">width</code>
 — Horizontal dimension
</dd></dl>
<h3>Attributes</h3>
<table id="attributes-1"><tbody>
<tr><th><code data-x="">width</code></th><td><code data-x="attr-dim-width">img</code>; <code data-x="attr-dim-width">video</code></td><td>Horizontal dimension
</td></tr></tbody></table></body></html>
        "#.trim()
    );
}

#[test]
fn test_replace_boilerplate_comment() {
    let files = [(html_build::boilerplate::Source::Boilerplate, "languages", "<tr><td>en<td>English")];
    let mut document =
        parse_document("<!DOCTYPE html><table><!--BOILERPLATE languages--></table>").unwrap();
    run_boilerplate(&mut document, &files).unwrap();
    assert_eq!(
        serialize_for_test(document.dom(), &[document.document()]),
        "<!DOCTYPE html><html><head></head><body><table><tbody><tr><td>en</td><td>English</td></tr></tbody></table></body></html>"
    );
}

#[test]
fn test_replace_boilerplate_attribute() {
    let files =
        [(html_build::boilerplate::Source::Boilerplate, "data.url", "data:text/html,Hello, world!")];
    let mut document =
        parse_document("<!DOCTYPE html><a href=\"<!--BOILERPLATE data.url-->\">hello</a>").unwrap();
    run_boilerplate(&mut document, &files).unwrap();
    assert_eq!(
        serialize_for_test(document.dom(), &[document.document()]),
        "<!DOCTYPE html><html><head></head><body><a href=\"data:text/html,Hello, world!\">hello</a></body></html>"
    );
}

#[test]
fn test_replace_example() {
    let files = [
        (html_build::boilerplate::Source::Example, "ex1", "first"),
        (html_build::boilerplate::Source::Example, "ex2", "second"),
        (html_build::boilerplate::Source::Example, "ignored", "bad"),
    ];
    let mut document = parse_document("<!DOCTYPE html><pre>EXAMPLE ex1</pre><pre><code class=html>\nEXAMPLE ex2  </code></pre><p>EXAMPLE ignored</p>").unwrap();
    run_boilerplate(&mut document, &files).unwrap();
    assert_eq!(
        serialize_for_test(document.dom(), &[document.document()]),
        "<!DOCTYPE html><html><head></head><body><pre>first</pre><pre><code class=\"html\">second</code></pre><p>EXAMPLE ignored</p></body></html>"
    );
}

#[test]
fn test_errors_unsafe_paths() {
    let bad_path_examples = [
        "<!DOCTYPE html><body><!--BOILERPLATE /etc/passwd-->",
        "<!DOCTYPE html><body><pre data-x=\"<!--BOILERPLATE src/../../foo-->\"></pre>",
        "<!DOCTYPE html><body><pre>EXAMPLE ../foo</pre>",
    ];
    for example in bad_path_examples {
        let mut document = parse_document(example).unwrap();
        let result = run_boilerplate(&mut document, &[]);
        assert!(matches!(result, Err(e) if e.kind() == ErrorKind::PermissionDenied));
    }
}

#[test]
fn boilerplate_asks_for_each_file_in_the_order_of_the_visits() {
    let document = parse_document(
        "<!DOCTYPE html><!--BOILERPLATE  a/b.inc --><p title=\"<!--BOILERPLATE t-->\" lang=\"<!--BOILERPLATE -->\" id=\"<!--BOILERPLATE x\"><!--BOILER--><pre><code> EXAMPLE  e1 </code></pre><code>EXAMPLE e2</code>",
    )
    .unwrap();
    let mut processor = html_build::boilerplate::Processor::new();
    for h in html_build::scan::scan_dom(document.dom(), document.document()) {
        processor.visit(document.dom(), h);
    }
    let found: Vec<(String, html_build::boilerplate::Source, String)> = processor
        .edits()
        .iter()
        .map(|e| {
            let kind = match &e.kind {
                html_build::boilerplate::EditKind::ReplaceHtml => "html".to_string(),
                html_build::boilerplate::EditKind::ReplaceAttr(name) => format!("attr {}", name.local),
                html_build::boilerplate::EditKind::ReplaceText => "text".to_string(),
            };
            (kind, e.source, e.path.clone())
        })
        .collect();
    assert_eq!(
        found,
        vec![
            ("html".to_string(), html_build::boilerplate::Source::Boilerplate, "a/b.inc".to_string()),
            ("attr title".to_string(), html_build::boilerplate::Source::Boilerplate, "t".to_string()),
            ("attr lang".to_string(), html_build::boilerplate::Source::Boilerplate, "".to_string()),
            ("text".to_string(), html_build::boilerplate::Source::Example, "e1".to_string()),
        ]
    );
}

#[test]
fn annotate_attributes_reports_a_missing_variant() {
    let mut document = parse_document(
        "<!DOCTYPE html><dl class=element><dt><span data-x=concept-element-attributes></span><dd><code data-x=k>k</code><!-- variant --></dl><table id=attributes-1><tbody><tr><td><code data-x=k></code><td>Text</table>",
    )
    .unwrap();
    let err = run_annotate_attributes(&mut document).unwrap_err();
    assert_eq!(err.kind(), ErrorKind::InvalidData);
    assert_eq!(err.to_string(), "Attribute k wants variant description, but no <!--or--> was found");
}

#[test]
fn annotate_attributes_joins_variants_and_skips_unknown_keys() {
    let mut document = parse_document(
        "<!DOCTYPE html><dl class=element><dt><span data-x=concept-element-attributes></span><dd><code data-x=k>k</code><!--variant--><dd><code data-x=unknown>u</code><dd><!--no-annotate--><code data-x=k>k</code><dt>stop<dd><code data-x=k>after</code></dl><table id=attributes-1><tbody><tr><td><code data-x=k></code><td>One.  <!-- or:  first <b>v</b>--><tr><td><code data-x=k></code><td><i>Two</i><!--or: second--></table>",
    )
    .unwrap();
    run_annotate_attributes(&mut document).unwrap();
    let html = serialize_for_test(document.dom(), &[document.document()]);
    assert!(html.contains(
        "<dd><code data-x=\"k\">k</code><!--variant--> \u{2014} first <b>v</b>; second</dd><dd><code data-x=\"unknown\">u</code></dd><dd><!--no-annotate--><code data-x=\"k\">k</code></dd><dt>stop</dt><dd><code data-x=\"k\">after</code></dd>"
    ));
}

#[test]
fn variables_report_each_kind_of_offense() {
    let mut document = parse_document(
        "<!DOCTYPE html>\n<div data-algorithm></div>\n<p data-var-scope></p>\n<div algorithm var-scope></div><var>x</var>",
    )
    .unwrap();
    let err = run_variables(&mut document).unwrap_err();
    assert_eq!(err.kind(), ErrorKind::InvalidData);
    assert_eq!(
        err.to_string(),
        "Line 2: data-algorithm=\"\" present in source. Use algorithm=\"\" instead.\nLine 3: data-var-scope=\"\" present in source. Use var-scope=\"\" instead."
    );
    let mut document =
        parse_document("<!DOCTYPE html>\n\n<div algorithm var-scope></div><var>x</var>").unwrap();
    let err = run_variables(&mut document).unwrap_err();
    assert_eq!(
        err.to_string(),
        "Line 3: both algorithm=\"\" and var-scope=\"\" present on the same element. Pick one."
    );
    let mut document =
        parse_document("<!DOCTYPE html>\n<p><var> x y </var></p>\n<p algorithm><var>ok</var></p><var>z</var>")
            .unwrap();
    let err = run_variables(&mut document).unwrap_err();
    assert_eq!(
        err.to_string(),
        "Line 2: \"x y\" <var> outside algorithm=\"\"/var-scope=\"\" container.\nLine 3: \"z\" <var> outside algorithm=\"\"/var-scope=\"\" container."
    );
}

#[test]
fn variables_rename_moves_the_attribute_to_the_end() {
    let mut document =
        parse_document("<!DOCTYPE html><div algorithm=\"a\" id=\"x\"><var ignore class=\"c\">v</var></div>")
            .unwrap();
    run_variables(&mut document).unwrap();
    assert_eq!(
        serialize_for_test(document.dom(), &[document.document()]),
        "<!DOCTYPE html><html><head></head><body><div id=\"x\" data-algorithm=\"a\"><var class=\"c\">v</var></div></body></html>"
    );
}

#[test]
fn represents_capitalizes_only_the_first_text() {
    assert_eq!(html_build::represents::capitalize(&"a seat".chars().collect()), "A seat");
    assert_eq!(html_build::represents::capitalize(&"Zebra".chars().collect()), "Zebra");
    assert_eq!(html_build::represents::capitalize(&"\u{e9}t\u{e9}".chars().collect()), "\u{e9}t\u{e9}");
    assert_eq!(html_build::represents::capitalize(&"".chars().collect()), "");
    assert_eq!(html_build::represents::capitalize(&"z".chars().collect()), "Z");
    let mut document = parse_document(
        "<!DOCTYPE html><p><!--REPRESENTS b--></p><p>The <code>b</code> element <span>represents</span><em>in</em> bold.</p>",
    )
    .unwrap();
    run_represents(&mut document).unwrap();
    assert_eq!(
        serialize_for_test(document.dom(), &[document.document()]),
        "<!DOCTYPE html><html><head></head><body><p><em>in</em> bold.</p><p>The <code>b</code> element <span>represents</span><em>in</em> bold.</p></body></html>"
    );
}

#[test]
fn represents_names_the_unknown_tag() {
    let mut document = parse_document("<!DOCTYPE html><p><!--REPRESENTS chain--></p>").unwrap();
    let err = run_represents(&mut document).unwrap_err();
    assert_eq!(err.kind(), ErrorKind::InvalidData);
    assert_eq!(err.to_string(), "<!--REPRESENTS chain--> refers to unknown tag");
}

#[test]
fn interface_index_error_messages() {
    let mut document = parse_document("<!DOCTYPE html>").unwrap();
    let err = run_interface_index(&mut document).unwrap_err();
    assert_eq!(err.to_string(), "Marker \"INSERT INTERFACES HERE\" not found.");
    let mut document = parse_document(
        "<!DOCTYPE html><div>INSERT INTERFACES HERE</div><div>INSERT INTERFACES HERE</div>",
    )
    .unwrap();
    let err = run_interface_index(&mut document).unwrap_err();
    assert_eq!(err.to_string(), "\"INSERT INTERFACES HERE\" found 2 times, expected just one.");
    let mut document = parse_document(
        "<!DOCTYPE html><pre><code class=idl>interface <dfn>B</dfn>; interface <dfn>A</dfn>; interface <dfn>B</dfn>; interface <dfn>A</dfn>; interface <dfn>A</dfn>;</code></pre>INSERT INTERFACES HERE",
    )
    .unwrap();
    let before = serialize_for_test(document.dom(), &[document.document()]);
    let err = run_interface_index(&mut document).unwrap_err();
    assert_eq!(err.to_string(), "Interface A defined 3 times.");
    assert_eq!(serialize_for_test(document.dom(), &[document.document()]), before);
}

#[test]
fn interface_index_splits_the_text_around_the_marker() {
    let mut document = parse_document(
        "<!DOCTYPE html><pre class=extract><code class=idl>interface <dfn>Hidden</dfn></code></pre><pre><code class=idl>partial interface <a>NoId</a> partial interface <span id=p1>P</span> partial interface <span id=p2>P</span> partial interface <span id=p3>P</span> interface <b>NotAName</b></code></pre><p>before INSERT INTERFACES HERE after</p>",
    )
    .unwrap();
    run_interface_index(&mut document).unwrap();
    assert_eq!(
        serialize_for_test(document.dom(), &[document.document()]),
        "<!DOCTYPE html><html><head></head><body><pre class=\"extract\"><code class=\"idl\">interface <dfn>Hidden</dfn></code></pre><pre><code class=\"idl\">partial interface <a>NoId</a> partial interface <span id=\"p1\">P</span> partial interface <span id=\"p2\">P</span> partial interface <span id=\"p3\">P</span> interface <b>NotAName</b></code></pre><p>before <ul class=\"brief\"><li><code>NoId</code></li><li><code>P</code>, <a href=\"#p1\">partial 1</a> <a href=\"#p2\">2</a> <a href=\"#p3\">3</a></li></ul> after</p></body></html>"
    );
}

#[test]
fn tag_omission_replaces_the_first_may_of_each_text_only() {
    let mut document = parse_document(
        "<!DOCTYPE html><h2>Optional tags</h2><p>An <code>li</code> element's end tag may be omitted; it may, maybe. <em>It may</em> dismay.</p><p>A <code>li</code> element may too.</p><h2>Next</h2><p>A <code>p</code> element may not count.</p><p><dfn element>li</dfn></p><dl class=element><dt><span data-x=concept-element-attributes></span></dt></dl><dl class=element><dt>second list, no element</dt></dl>",
    )
    .unwrap();
    run_tag_omission(&mut document).unwrap();
    let html = serialize_for_test(document.dom(), &[document.document()]);
    assert!(html.contains(
        "<dl class=\"element\"><dt><span data-x=\"concept-element-tag-omission\">Tag omission in text/html</span>:</dt><dd>An <code>li</code> element's end tag can be omitted; it may, maybe. <em>It can</em> dismay.</dd><dd>A <code>li</code> element can too.</dd>\n<dt><span data-x=\"concept-element-attributes\"></span></dt></dl>"
    ));
    assert!(html.contains("<p>An <code>li</code> element's end tag may be omitted; it may, maybe. <em>It may</em> dismay.</p>"));
    assert!(html.ends_with("<dl class=\"element\"><dt>second list, no element</dt></dl></body></html>"));
}
