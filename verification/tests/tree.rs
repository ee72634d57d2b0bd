use html_build::dom::{Dom, NodeData};
use html_build::names::{Attribute, QualName};
use html_build::query::{dt_descriptions, heading_level};
use html_build::scan::scan_dom;
use html_build::serializer::{can_serialize, serialize, SerializeOpts, TraversalScope};

fn html_of(dom: &Dom, node: usize) -> String {
    let opts = SerializeOpts {
        scripting_enabled: true,
        traversal_scope: match dom.data(node) {
            NodeData::Document => TraversalScope::ChildrenOnly(None),
            _ => TraversalScope::IncludeNode,
        },
    };
    assert!(can_serialize(dom, node, &opts.traversal_scope));
    String::from_utf8(serialize(dom, node, &opts)).unwrap()
}

/// Checks on a whole arena what must hold after every edit.
fn assert_links_agree(dom: &Dom) {
    let mut seen = vec![0usize; dom.len()];
    for p in 0..dom.len() {
        for &c in dom.children(p).iter() {
            assert_eq!(dom.parent_node(c), Some(p));
            seen[c] += 1;
        }
    }
    for c in 0..dom.len() {
        assert_eq!(seen[c], if dom.parent_node(c).is_some() { 1 } else { 0 });
    }
}

#[test]
fn builder_makes_element_with_attributes_and_text() {
    let mut dom = Dom::new();
    let a = dom
        .create_element("a")
        .attribute(&mut dom, "href", "/")
        .attribute(&mut dom, "class", "self-link")
        .text(&mut dom, "Home")
        .build();
    assert_eq!(html_of(&dom, a), "<a href=\"/\" class=\"self-link\">Home</a>");
    assert!(dom.is_element(a));
    assert!(dom.is_html_element(a, "a"));
    assert!(!dom.is_html_element(a, "b"));
    assert_eq!(dom.parent_node(a), None);
    assert_links_agree(&dom);
}

#[test]
fn attributes_are_set_overwritten_and_removed() {
    let mut dom = Dom::new();
    let p = dom.create_element("p").build();
    let id = QualName::attribute("id");
    let class = QualName::attribute("class");
    assert_eq!(dom.get_attribute(p, &id), None);
    assert!(!dom.has_attribute(p, &id));
    dom.set_attribute(p, &id, "one".to_string());
    dom.set_attribute(p, &class, "x y".to_string());
    dom.set_attribute(p, &id, "two".to_string());
    assert_eq!(dom.get_attribute(p, &id), Some("two".to_string()));
    assert_eq!(html_of(&dom, p), "<p id=\"two\" class=\"x y\"></p>");
    assert!(dom.attribute_is(p, &id, "two"));
    assert!(!dom.attribute_is(p, &id, "one"));
    assert!(dom.has_id(p, "two"));
    dom.remove_attribute(p, &id);
    assert_eq!(html_of(&dom, p), "<p class=\"x y\"></p>");
    dom.remove_attribute(p, &id);
    assert_eq!(html_of(&dom, p), "<p class=\"x y\"></p>");
    let t = dom.create_text_node("text");
    assert_eq!(dom.get_attribute(t, &id), None);
}

#[test]
fn attribute_names_differ_by_namespace() {
    let mut dom = Dom::new();
    let p = dom.create_element("p").build();
    let plain = QualName::attribute("href");
    let xlink = QualName::new(
        Some("xlink".to_string()),
        "http://www.w3.org/1999/xlink".to_string(),
        "href".to_string(),
    );
    assert!(!plain.same(&xlink));
    assert!(plain.same(&QualName::attribute("href")));
    dom.set_attribute(p, &xlink, "a".to_string());
    assert_eq!(dom.get_attribute(p, &plain), None);
    assert_eq!(dom.get_attribute(p, &xlink), Some("a".to_string()));
    assert_eq!(html_of(&dom, p), "<p xlink:href=\"a\"></p>");
}

#[test]
fn class_tests_split_on_ascii_whitespace() {
    let mut dom = Dom::new();
    let p = dom
        .create_element("p")
        .attribute(&mut dom, "class", "  note\texample\n XXX ")
        .build();
    assert!(dom.has_class(p, "note"));
    assert!(dom.has_class(p, "example"));
    assert!(dom.has_class(p, "XXX"));
    assert!(!dom.has_class(p, "not"));
    assert!(!dom.has_class(p, "note\texample"));
    assert!(!dom.has_class(p, ""));
    assert!(dom.has_any_class(p, &["a", "XXX"]));
    assert!(!dom.has_any_class(p, &["a", "b"]));
    assert!(!dom.has_any_class(p, &[]));
    let q = dom.create_element("p").build();
    assert!(!dom.has_class(q, "note"));
    let t = dom.create_text_node("note");
    assert!(!dom.has_class(t, "note"));
}

#[test]
fn append_prepend_insert_keep_order_and_links() {
    let mut dom = Dom::new();
    let ul = dom.create_element("ul").build();
    let a = dom.create_element("li").text(&mut dom, "a").build();
    let b = dom.create_element("li").text(&mut dom, "b").build();
    let c = dom.create_element("li").text(&mut dom, "c").build();
    let d = dom.create_element("li").text(&mut dom, "d").build();
    assert!(dom.can_adopt(ul, &vec![b, c]));
    dom.append_children(ul, vec![b, c]);
    assert!(!dom.can_adopt(ul, &vec![b]));
    dom.prepend_child(ul, a);
    dom.insert_children_before(ul, c, vec![d]);
    assert_eq!(
        html_of(&dom, ul),
        "<ul><li>a</li><li>b</li><li>d</li><li>c</li></ul>"
    );
    assert_eq!(dom.children(ul), &vec![a, b, d, c]);
    assert_eq!(dom.parent_node(d), Some(ul));
    assert_links_agree(&dom);
}

#[test]
fn replace_with_splices_and_unparents() {
    let mut dom = Dom::new();
    let ul = dom.create_element("ul").build();
    let a = dom.create_element("li").text(&mut dom, "a").build();
    let b = dom.create_element("li").text(&mut dom, "b").build();
    let c = dom.create_element("li").text(&mut dom, "c").build();
    dom.append_children(ul, vec![a, b, c]);
    let x = dom.create_text_node("x");
    let y = dom.create_comment_for_test();
    dom.replace_with(b, vec![x, y]);
    assert_eq!(html_of(&dom, ul), "<ul><li>a</li>x<!--y--><li>c</li></ul>");
    assert_eq!(dom.parent_node(b), None);
    assert_eq!(dom.parent_node(x), Some(ul));
    assert_eq!(html_of(&dom, b), "<li>b</li>");
    assert_links_agree(&dom);
    // Without a parent nothing happens, and the replacements stay free.
    let z = dom.create_text_node("z");
    dom.replace_with(b, vec![z]);
    assert_eq!(dom.parent_node(z), None);
    assert_eq!(html_of(&dom, b), "<li>b</li>");
    dom.remove(a);
    dom.remove(a);
    assert_eq!(html_of(&dom, ul), "<ul>x<!--y--><li>c</li></ul>");
    assert_links_agree(&dom);
}

trait CommentForTest {
    fn create_comment_for_test(&mut self) -> usize;
}

impl CommentForTest for Dom {
    fn create_comment_for_test(&mut self) -> usize {
        self.create_node(NodeData::Comment { contents: "y".to_string() })
    }
}

#[test]
fn can_adopt_refuses_what_would_break_the_tree() {
    let mut dom = Dom::new();
    let outer = dom.create_element("div").build();
    let inner = dom.create_element("p").build();
    let free = dom.create_element("span").build();
    dom.append_children(outer, vec![inner]);
    // A node with a parent.
    assert!(!dom.can_adopt(free, &vec![inner]));
    // The same node twice.
    assert!(!dom.can_adopt(outer, &vec![free, free]));
    // A node that does not exist.
    assert!(!dom.can_adopt(outer, &vec![dom.len()]));
    assert!(!dom.can_adopt(dom.len(), &vec![free]));
    // An ancestor below its own descendant, and a node below itself.
    assert!(!dom.can_adopt(inner, &vec![outer]));
    assert!(!dom.can_adopt(outer, &vec![outer]));
    assert!(dom.can_adopt(inner, &vec![free]));
    assert!(dom.can_adopt(inner, &vec![]));
    assert!(dom.subtree_contains(outer, inner));
    assert!(dom.subtree_contains(outer, outer));
    assert!(!dom.subtree_contains(inner, outer));
}

fn template_with_contents(dom: &mut Dom) -> (usize, usize) {
    let contents = dom.create_node(NodeData::Document);
    let b = dom.create_element("b").text(dom, "inside").build();
    dom.append_children(contents, vec![b]);
    let template = dom.create_node(NodeData::Element {
        name: QualName::html("template"),
        attrs: vec![Attribute { name: QualName::attribute("id"), value: "t".to_string() }],
        template_contents: Some(contents),
        mathml_annotation_xml_integration_point: false,
    });
    (template, contents)
}

#[test]
fn scan_visits_children_then_template_contents() {
    let mut dom = Dom::new();
    let (template, contents) = template_with_contents(&mut dom);
    let child = dom.create_text_node("child");
    dom.append_children(template, vec![child]);
    let b = dom.children(contents)[0];
    let inside = dom.children(b)[0];
    assert_eq!(scan_dom(&dom, template), vec![template, child, contents, b, inside]);
    assert_eq!(dom.text_content(template), "childinside");
    assert_eq!(dom.node_text(child), Some("child".to_string()));
    assert_eq!(dom.node_text(template), None);
    assert!(dom.subtree_contains(template, inside));
}

#[test]
fn deep_clone_copies_subtree_and_template_contents() {
    let mut dom = Dom::new();
    let div = dom.create_element("div").attribute(&mut dom, "class", "c").build();
    let (template, contents) = template_with_contents(&mut dom);
    let em = dom.create_element("em").text(&mut dom, "hi & bye").build();
    dom.append_children(div, vec![template, em]);
    let before = dom.len();
    let original = html_of(&dom, div);
    let copy = dom.deep_clone(div);
    assert!(copy >= before);
    assert_eq!(dom.parent_node(copy), None);
    assert_eq!(html_of(&dom, copy), original);
    assert_eq!(html_of(&dom, div), original);
    assert_eq!(dom.text_content(copy), dom.text_content(div));
    // Every node of the copy is new, the template contents too.
    for n in scan_dom(&dom, copy) {
        assert!(n >= before);
    }
    let copied_template = dom.children(copy)[0];
    match dom.data(copied_template) {
        NodeData::Element { template_contents: Some(t), .. } => {
            assert!(*t != contents);
            assert_eq!(html_of(&dom, *t), "<b>inside</b>");
        }
        _ => panic!("not a template"),
    }
    for &c in dom.children(copy).iter() {
        assert_eq!(dom.parent_node(c), Some(copy));
    }
    // Edits of the copy leave the original as it was.
    let copied_em = dom.children(copy)[1];
    dom.remove(copied_em);
    dom.set_attribute(copy, &QualName::attribute("class"), "changed".to_string());
    let extra = dom.create_text_node("more");
    dom.append_children(copied_template, vec![extra]);
    assert_eq!(html_of(&dom, div), original);
    assert_eq!(
        html_of(&dom, copy),
        "<div class=\"changed\"><template id=\"t\">more</template></div>"
    );
    assert_links_agree(&dom);
}

#[test]
fn import_subtree_copies_between_arenas() {
    let mut source = Dom::new();
    let p = source
        .create_element("p")
        .attribute(&mut source, "id", "x")
        .text(&mut source, "one")
        .build();
    let mut target = Dom::new();
    let body = target.create_element("body").build();
    let copy = target.import_subtree(&source, p);
    assert_eq!(target.parent_node(copy), None);
    target.append_children(body, vec![copy]);
    assert_eq!(html_of(&target, body), "<body><p id=\"x\">one</p></body>");
    assert_eq!(html_of(&source, p), "<p id=\"x\">one</p>");
    assert_links_agree(&target);
}

#[test]
fn heading_levels() {
    let mut dom = Dom::new();
    let names = ["h1", "h2", "h3", "h4", "h5", "h6"];
    for (i, name) in names.iter().enumerate() {
        let h = dom.create_element(name).build();
        assert_eq!(heading_level(&dom, h), Some(i as u8 + 1));
    }
    let h7 = dom.create_element("h7").build();
    assert_eq!(heading_level(&dom, h7), None);
    let svg = dom.create_node(NodeData::Element {
        name: QualName::new(None, "http://www.w3.org/2000/svg".to_string(), "h1".to_string()),
        attrs: vec![],
        template_contents: None,
        mathml_annotation_xml_integration_point: false,
    });
    assert_eq!(heading_level(&dom, svg), None);
    let t = dom.create_text_node("h1");
    assert_eq!(heading_level(&dom, t), None);
}

#[test]
fn dt_descriptions_follow_the_run_of_terms() {
    let mut dom = Dom::new();
    let dl = dom.create_element("dl").build();
    let dt1 = dom.create_element("dt").build();
    let ws = dom.create_text_node("\n");
    let dt2 = dom.create_element("dt").build();
    let dd1 = dom.create_element("dd").build();
    let ws2 = dom.create_text_node("\n");
    let dd2 = dom.create_element("dd").build();
    let dt3 = dom.create_element("dt").build();
    let dd3 = dom.create_element("dd").build();
    dom.append_children(dl, vec![dt1, ws, dt2, dd1, ws2, dd2, dt3, dd3]);
    assert_eq!(dt_descriptions(&dom, dt1), vec![dd1, dd2]);
    assert_eq!(dt_descriptions(&dom, dt2), vec![dd1, dd2]);
    assert_eq!(dt_descriptions(&dom, dt3), vec![dd3]);
    let lone = dom.create_element("dt").build();
    assert_eq!(dt_descriptions(&dom, lone), Vec::<usize>::new());
    let div = dom.create_element("div").build();
    let dt4 = dom.create_element("dt").build();
    let dd4 = dom.create_element("dd").build();
    dom.append_children(div, vec![dt4, dd4]);
    assert_eq!(dt_descriptions(&dom, dt4), Vec::<usize>::new());
}

#[test]
fn any_child_asks_each_child() {
    let mut dom = Dom::new();
    let div = dom.create_element("div").build();
    let a = dom.create_element("a").attribute(&mut dom, "class", "self-link").build();
    let t = dom.create_text_node("t");
    assert!(!dom.any_child(div, |d: &Dom, c| d.has_class(c, "self-link")));
    dom.append_children(div, vec![t, a]);
    assert!(dom.any_child(div, |d: &Dom, c| d.has_class(c, "self-link")));
    assert!(!dom.any_child(div, |d: &Dom, c| d.has_class(c, "other")));
}

#[test]
fn serializer_omits_end_tag_of_ref_only() {
    let mut dom = Dom::new();
    let p = dom.create_element("p").build();
    let r1 = dom.create_element("ref").attribute(&mut dom, "a", "").build();
    let r2 = dom.create_element("ref").attribute(&mut dom, "b", "").build();
    let svg_ref = dom.create_node(NodeData::Element {
        name: QualName::new(None, "http://www.w3.org/2000/svg".to_string(), "ref".to_string()),
        attrs: vec![],
        template_contents: None,
        mathml_annotation_xml_integration_point: false,
    });
    let br = dom.create_element("br").build();
    dom.append_children(p, vec![r1, r2, svg_ref, br]);
    assert_eq!(html_of(&dom, p), "<p><ref a=\"\"><ref b=\"\"><ref></ref><br></p>");
}

#[test]
fn serializer_writes_every_kind_of_node() {
    let mut dom = Dom::new();
    let document = dom.create_node(NodeData::Document);
    let doctype = dom.create_node(NodeData::Doctype {
        name: "html".to_string(),
        public_id: String::new(),
        system_id: String::new(),
    });
    let html = dom.create_element("html").build();
    let comment = dom.create_node(NodeData::Comment { contents: " c ".to_string() });
    let pi = dom.create_node(NodeData::ProcessingInstruction {
        target: "x".to_string(),
        contents: "y".to_string(),
    });
    let script = dom.create_element("script").text(&mut dom, "a < b").build();
    let text = dom.create_text_node("a < b & c");
    dom.append_children(html, vec![comment, pi, script, text]);
    dom.append_children(document, vec![doctype, html]);
    assert_eq!(
        html_of(&dom, document),
        "<!DOCTYPE html><html><!-- c --><?x y><script>a < b</script>a &lt; b &amp; c</html>"
    );
    // A document node cannot be written with its root, nor below an element.
    assert!(!can_serialize(&dom, document, &TraversalScope::IncludeNode));
    assert!(can_serialize(&dom, document, &TraversalScope::ChildrenOnly(None)));
    let inner = dom.create_node(NodeData::Document);
    dom.append_children(html, vec![inner]);
    assert!(!can_serialize(&dom, document, &TraversalScope::ChildrenOnly(None)));
    let default = SerializeOpts::default();
    assert!(default.scripting_enabled);
    assert!(matches!(default.traversal_scope, TraversalScope::ChildrenOnly(None)));
}

#[test]
fn children_only_scope_takes_the_name_as_parent() {
    let mut dom = Dom::new();
    let script = dom.create_element("script").text(&mut dom, "a < b").build();
    let as_script = SerializeOpts {
        scripting_enabled: true,
        traversal_scope: TraversalScope::ChildrenOnly(Some(QualName::html("script"))),
    };
    let as_div = SerializeOpts {
        scripting_enabled: true,
        traversal_scope: TraversalScope::ChildrenOnly(Some(QualName::html("div"))),
    };
    assert_eq!(String::from_utf8(serialize(&dom, script, &as_script)).unwrap(), "a < b");
    assert_eq!(String::from_utf8(serialize(&dom, script, &as_div)).unwrap(), "a &lt; b");
}
