//! Converts custom attributes `algorithm=""` and `var-scope=""` to `data-`
//! equivalents, to preserve validity of the output document. Errors on `<var>`s
//! outside of those scopes, unless the `<var>` has an `ignore=""` attribute.

use vstd::prelude::*;
use vstd::string::StringExecFns;
use crate::dom::{NodeData, clone_attrs, is_html, is_element_node, has_class_token, attribute_of, attrs_of, with_data, with_attrs};
use crate::errors::{Error, ErrorKind};
use crate::model::{NodeId, Forest, AttrView, NameView, text_content};
use crate::names::{QualName, Attribute, attribute_name, attrs_view, has_attr, first_index, find_attr, attrs_removed};
use crate::rcdom_with_line_numbers::RcDomWithLineNumbers;
use crate::text::{chars_of, trimmed, trim, to_string, decimal, push_decimal, join, joined, views};

verus! {

/// The state of the pass.
pub struct Processor {
    /// Elements that start a variable scope, whose attributes will be
    /// rewritten.
    scope_roots: Vec<NodeId>,
    /// Offenses collected during the visits, reported by `apply`.
    disallowed_data_algorithm: Vec<NodeId>,
    disallowed_data_var_scope: Vec<NodeId>,
    both_old_attrs: Vec<NodeId>,
    var_out_of_scope_msgs: Vec<String>,
    /// The open elements of the preorder walk, and for each whether it
    /// starts a scope and whether it starts a `domintro`.
    stack: Vec<NodeId>,
    scope_flags: Vec<bool>,
    scope_depth: usize,
    domintro_flags: Vec<bool>,
    domintro_depth: usize,
    /// `<var>` elements whose `ignore` attribute will be removed.
    vars_to_strip_ignore: Vec<NodeId>,
}

/// The state of the pass as a value.
pub struct ProcessorView {
    pub scope_roots: Seq<NodeId>,
    pub disallowed_data_algorithm: Seq<NodeId>,
    pub disallowed_data_var_scope: Seq<NodeId>,
    pub both_old_attrs: Seq<NodeId>,
    pub var_out_of_scope_msgs: Seq<Seq<char>>,
    pub stack: Seq<NodeId>,
    pub scope_flags: Seq<bool>,
    pub domintro_flags: Seq<bool>,
    pub vars_to_strip_ignore: Seq<NodeId>,
}

/// How many of the flags are set.
pub open spec fn count_set(flags: Seq<bool>) -> nat
    decreases flags.len(),
{
    if flags.len() == 0 {
        0
    } else {
        count_set(flags.drop_last()) + if flags.last() {
            1nat
        } else {
            0nat
        }
    }
}

/// How many open elements stay open when a node with this parent is reached:
/// those up to the parent, or none if the parent is not open.
pub open spec fn kept(stack: Seq<NodeId>, parent: Option<NodeId>) -> int
    decreases stack.len(),
{
    if stack.len() == 0 {
        0
    } else if parent == Some(stack.last()) {
        stack.len() as int
    } else {
        kept(stack.drop_last(), parent)
    }
}

/// `"Line N: "` for an element whose line is known, nothing otherwise.
pub open spec fn line_prefix(lines: Map<NodeId, u64>, node: NodeId) -> Seq<char> {
    if lines.contains_key(node) {
        "Line "@ + decimal(lines[node] as nat) + ": "@
    } else {
        Seq::empty()
    }
}

/// Node `node` has the attribute `name` without namespace.
pub open spec fn carries(f: Forest, node: NodeId, name: Seq<char>) -> bool {
    attribute_of(f, node, attribute_name(name)) is Some
}

/// The complaint about a `<var>` outside of every scope.
pub open spec fn var_message(f: Forest, lines: Map<NodeId, u64>, node: NodeId) -> Seq<char> {
    line_prefix(lines, node) + "\""@ + trim(text_content(f, node))
        + "\" <var> outside algorithm=\"\"/var-scope=\"\" container."@
}

/// `s` with `x` at the end if `add`, else `s`.
pub open spec fn push_if<A>(s: Seq<A>, add: bool, x: A) -> Seq<A> {
    if add {
        s.push(x)
    } else {
        s
    }
}

/// Node `node` starts a variable scope.
pub open spec fn starts_scope(f: Forest, node: NodeId) -> bool {
    carries(f, node, "algorithm"@) || carries(f, node, "var-scope"@)
}

/// The state after a visit of `node`.
pub open spec fn visited(v: ProcessorView, f: Forest, lines: Map<NodeId, u64>, node: NodeId) -> ProcessorView {
    if !is_element_node(f, node) {
        v
    } else {
        let k = kept(v.stack, f[node as int].parent);
        let scope_flags = v.scope_flags.take(k).push(starts_scope(f, node));
        let domintro_flags = v.domintro_flags.take(k).push(has_class_token(f, node, "domintro"@));
        let is_var = is_html(f, node, "var"@);
        ProcessorView {
            scope_roots: push_if(v.scope_roots, starts_scope(f, node), node),
            disallowed_data_algorithm: push_if(
                v.disallowed_data_algorithm,
                carries(f, node, "data-algorithm"@),
                node,
            ),
            disallowed_data_var_scope: push_if(
                v.disallowed_data_var_scope,
                carries(f, node, "data-var-scope"@),
                node,
            ),
            both_old_attrs: push_if(
                v.both_old_attrs,
                carries(f, node, "algorithm"@) && carries(f, node, "var-scope"@),
                node,
            ),
            var_out_of_scope_msgs: push_if(
                v.var_out_of_scope_msgs,
                is_var && !carries(f, node, "ignore"@) && count_set(domintro_flags) == 0 && count_set(
                    scope_flags,
                ) == 0,
                var_message(f, lines, node),
            ),
            stack: v.stack.take(k).push(node),
            scope_flags,
            domintro_flags,
            vars_to_strip_ignore: push_if(v.vars_to_strip_ignore, is_var && carries(f, node, "ignore"@), node),
        }
    }
}

/// The list after the first attribute named `old_name` has been taken out and
/// put back at the end under the name `new_name`; the list as it is where no
/// attribute has the name.
pub open spec fn attrs_renamed(attrs: Seq<AttrView>, old_name: NameView, new_name: NameView) -> Seq<AttrView> {
    if has_attr(attrs, old_name) {
        attrs.remove(first_index(attrs, old_name)).push(
            AttrView { name: new_name, value: attrs[first_index(attrs, old_name)].value },
        )
    } else {
        attrs
    }
}

/// Renames the first attribute named `old_name`, if there is one, and moves
/// it to the end of the list.
pub fn rename_if_present(attrs: &mut Vec<Attribute>, old_name: &QualName, new_name: &QualName)
    ensures
        attrs_view(final(attrs)@) == attrs_renamed(attrs_view(old(attrs)@), old_name@, new_name@),
{
    let ghost before = attrs_view(attrs@);
    let idx = find_attr(attrs, old_name);
    if idx < attrs.len() {
        assert(before[idx as int] == attrs@[idx as int]@);
        let removed = attrs.remove(idx);
        let value = removed.value;
        attrs.push(Attribute { name: new_name.clone(), value });
        assert(attrs_view(attrs@) =~= attrs_renamed(before, old_name@, new_name@));
    }
}

/// The attributes of a scope root after `apply`.
pub open spec fn scope_attrs_renamed(attrs: Seq<AttrView>) -> Seq<AttrView> {
    attrs_renamed(
        attrs_renamed(attrs, attribute_name("algorithm"@), attribute_name("data-algorithm"@)),
        attribute_name("var-scope"@),
        attribute_name("data-var-scope"@),
    )
}

/// The forest after the scope attributes of the elements among `roots` have
/// been renamed, in order.
pub open spec fn roots_renamed(f: Forest, roots: Seq<NodeId>) -> Forest
    decreases roots.len(),
{
    if roots.len() == 0 {
        f
    } else if is_element_node(f, roots[0]) {
        roots_renamed(
            with_data(
                f,
                roots[0],
                with_attrs(f[roots[0] as int].data, scope_attrs_renamed(attrs_of(f, roots[0]))),
            ),
            roots.drop_first(),
        )
    } else {
        roots_renamed(f, roots.drop_first())
    }
}

/// The forest after the `ignore` attribute has been removed from `vars`, in
/// order.
pub open spec fn ignores_stripped(f: Forest, vars: Seq<NodeId>) -> Forest
    decreases vars.len(),
{
    if vars.len() == 0 {
        f
    } else {
        ignores_stripped(
            with_data(
                f,
                vars[0],
                with_attrs(
                    f[vars[0] as int].data,
                    attrs_removed(attrs_of(f, vars[0]), attribute_name("ignore"@)),
                ),
            ),
            vars.drop_first(),
        )
    }
}

/// One complaint for each of `nodes`: the line of the node, then `text`.
pub open spec fn complaints(lines: Map<NodeId, u64>, nodes: Seq<NodeId>, text: Seq<char>) -> Seq<Seq<char>> {
    Seq::new(nodes.len(), |i: int| line_prefix(lines, nodes[i]) + text)
}

/// The text of the complaint about `data-algorithm`.
pub open spec fn data_algorithm_text() -> Seq<char> {
    "data-algorithm=\"\" present in source. Use algorithm=\"\" instead."@
}

/// The text of the complaint about `data-var-scope`.
pub open spec fn data_var_scope_text() -> Seq<char> {
    "data-var-scope=\"\" present in source. Use var-scope=\"\" instead."@
}

/// The text of the complaint about both attributes on one element.
pub open spec fn both_text() -> Seq<char> {
    "both algorithm=\"\" and var-scope=\"\" present on the same element. Pick one."@
}

/// What `apply` reports, if anything: first the `data-` attributes found in
/// the source, else the elements with both attributes, else the `<var>`s out
/// of scope.
pub open spec fn report(v: ProcessorView, lines: Map<NodeId, u64>) -> Option<Seq<char>> {
    if v.disallowed_data_algorithm.len() > 0 || v.disallowed_data_var_scope.len() > 0 {
        Some(
            joined(
                complaints(lines, v.disallowed_data_algorithm, data_algorithm_text()) + complaints(
                    lines,
                    v.disallowed_data_var_scope,
                    data_var_scope_text(),
                ),
                "\n"@,
            ),
        )
    } else if v.both_old_attrs.len() > 0 {
        Some(joined(complaints(lines, v.both_old_attrs, both_text()), "\n"@))
    } else if v.var_out_of_scope_msgs.len() > 0 {
        Some(joined(v.var_out_of_scope_msgs, "\n"@))
    } else {
        None
    }
}

/// `"Line N: "` for an element whose line is known, nothing otherwise.
fn line_prefix_for(parsed: &RcDomWithLineNumbers, node: NodeId) -> (out: String)
    ensures
        out@ == line_prefix(parsed.lines(), node),
{
    let mut out = String::new();
    match parsed.line_number_for(node) {
        Some(n) => {
            out.append("Line ");
            push_decimal(&mut out, n);
            out.append(": ");
            assert(out@ =~= "Line "@ + decimal(n as nat) + ": "@);
        },
        None => {},
    }
    out
}

/// Appends to `msgs` one complaint for each of `nodes`.
fn push_complaints(msgs: &mut Vec<String>, parsed: &RcDomWithLineNumbers, nodes: &Vec<NodeId>, text: &str)
    ensures
        views(final(msgs)@) == views(old(msgs)@) + complaints(parsed.lines(), nodes@, text@),
{
    let ghost start = views(msgs@);
    let ghost all = complaints(parsed.lines(), nodes@, text@);
    let mut i: usize = 0;
    assert(start + all.subrange(0, 0) =~= start);
    while i < nodes.len()
        invariant
            i <= nodes.len(),
            all == complaints(parsed.lines(), nodes@, text@),
            views(msgs@) == start + all.subrange(0, i as int),
        decreases nodes.len() - i,
    {
        let mut line = line_prefix_for(parsed, nodes[i]);
        line.append(text);
        let ghost before = views(msgs@);
        msgs.push(line);
        proof {
            assert(views(msgs@) =~= before.push(line@));
            assert(all.subrange(0, i + 1) =~= all.subrange(0, i as int).push(all[i as int]));
            assert(views(msgs@) =~= start + all.subrange(0, i + 1));
        }
        i += 1;
    }
    assert(all.subrange(0, i as int) =~= all);
}

/// Taking one flag off the end changes the count by that flag.
proof fn lemma_count_take(flags: Seq<bool>)
    requires
        flags.len() > 0,
    ensures
        flags.take(flags.len() - 1) == flags.drop_last(),
        count_set(flags) == count_set(flags.drop_last()) + if flags.last() {
            1nat
        } else {
            0nat
        },
        count_set(flags) <= flags.len(),
    decreases flags.len(),
{
    assert(flags.take(flags.len() - 1) =~= flags.drop_last());
    lemma_count_bound(flags);
}

/// No more flags are set than there are.
proof fn lemma_count_bound(flags: Seq<bool>)
    ensures
        count_set(flags) <= flags.len(),
    decreases flags.len(),
{
    if flags.len() > 0 {
        lemma_count_bound(flags.drop_last());
    }
}

impl Processor {
    /// The state of the pass as a value.
    pub closed spec fn view(&self) -> ProcessorView {
        ProcessorView {
            scope_roots: self.scope_roots@,
            disallowed_data_algorithm: self.disallowed_data_algorithm@,
            disallowed_data_var_scope: self.disallowed_data_var_scope@,
            both_old_attrs: self.both_old_attrs@,
            var_out_of_scope_msgs: views(self.var_out_of_scope_msgs@),
            stack: self.stack@,
            scope_flags: self.scope_flags@,
            domintro_flags: self.domintro_flags@,
            vars_to_strip_ignore: self.vars_to_strip_ignore@,
        }
    }

    /// The counts of open scopes agree with the flags of the open elements.
    pub closed spec fn wf(&self) -> bool {
        &&& self.stack@.len() == self.scope_flags@.len()
        &&& self.stack@.len() == self.domintro_flags@.len()
        &&& self.scope_depth == count_set(self.scope_flags@)
        &&& self.domintro_depth == count_set(self.domintro_flags@)
    }

    /// A pass that has seen nothing.
    pub fn new() -> (out: Processor)
        ensures
            out.wf(),
            out.view() == (ProcessorView {
                scope_roots: Seq::empty(),
                disallowed_data_algorithm: Seq::empty(),
                disallowed_data_var_scope: Seq::empty(),
                both_old_attrs: Seq::empty(),
                var_out_of_scope_msgs: Seq::empty(),
                stack: Seq::empty(),
                scope_flags: Seq::empty(),
                domintro_flags: Seq::empty(),
                vars_to_strip_ignore: Seq::empty(),
            }),
    {
        let out = Processor {
            scope_roots: Vec::new(),
            disallowed_data_algorithm: Vec::new(),
            disallowed_data_var_scope: Vec::new(),
            both_old_attrs: Vec::new(),
            var_out_of_scope_msgs: Vec::new(),
            stack: Vec::new(),
            scope_flags: Vec::new(),
            scope_depth: 0,
            domintro_flags: Vec::new(),
            domintro_depth: 0,
            vars_to_strip_ignore: Vec::new(),
        };
        assert(out.view().var_out_of_scope_msgs =~= Seq::<Seq<char>>::empty());
        out
    }

    /// Should be called for each node of the document, in preorder.
    pub fn visit(&mut self, parsed: &RcDomWithLineNumbers, node: NodeId)
        requires
            old(self).wf(),
            parsed.wf(),
            node < parsed.spec_dom()@.len(),
        ensures
            final(self).wf(),
            final(self).view() == visited(old(self).view(), parsed.spec_dom()@, parsed.lines(), node),
    {
        let dom = parsed.dom();
        let ghost f = dom@;
        let ghost v0 = self.view();
        if !dom.is_element(node) {
            return;
        }
        let old_algorithm = QualName::attribute("algorithm");
        let old_var_scope = QualName::attribute("var-scope");
        let data_algorithm = QualName::attribute("data-algorithm");
        let data_var_scope = QualName::attribute("data-var-scope");
        let ignore_attr = QualName::attribute("ignore");

        // Maintain stack based on preorder and parent link
        let parent = dom.parent_node(node);
        proof {
            assert(self.stack@.take(self.stack@.len() as int) =~= self.stack@);
            assert(self.scope_flags@.take(self.stack@.len() as int) =~= self.scope_flags@);
            assert(self.domintro_flags@.take(self.stack@.len() as int) =~= self.domintro_flags@);
        }
        while self.stack.len() > 0 && parent != Some(self.stack[self.stack.len() - 1])
            invariant
                self.wf(),
                self.stack@.len() <= v0.stack.len(),
                self.stack@ == v0.stack.take(self.stack@.len() as int),
                self.scope_flags@ == v0.scope_flags.take(self.stack@.len() as int),
                self.domintro_flags@ == v0.domintro_flags.take(self.stack@.len() as int),
                kept(self.stack@, parent) == kept(v0.stack, parent),
                self.scope_roots@ == v0.scope_roots,
                self.disallowed_data_algorithm@ == v0.disallowed_data_algorithm,
                self.disallowed_data_var_scope@ == v0.disallowed_data_var_scope,
                self.both_old_attrs@ == v0.both_old_attrs,
                views(self.var_out_of_scope_msgs@) == v0.var_out_of_scope_msgs,
                self.vars_to_strip_ignore@ == v0.vars_to_strip_ignore,
                v0.stack.len() == v0.scope_flags.len(),
                v0.stack.len() == v0.domintro_flags.len(),
            decreases self.stack.len(),
        {
            let ghost n = self.stack@.len() as int;
            proof {
                lemma_count_take(self.scope_flags@);
                lemma_count_take(self.domintro_flags@);
                assert(self.stack@.drop_last() =~= v0.stack.take(n - 1));
                assert(self.scope_flags@.drop_last() =~= v0.scope_flags.take(n - 1));
                assert(self.domintro_flags@.drop_last() =~= v0.domintro_flags.take(n - 1));
            }
            self.stack.pop();
            let scope = self.scope_flags.pop();
            if scope == Some(true) {
                self.scope_depth -= 1;
            }
            let domintro = self.domintro_flags.pop();
            if domintro == Some(true) {
                self.domintro_depth -= 1;
            }
        }
        let ghost k = self.stack@.len() as int;
        proof {
            assert(kept(v0.stack, parent) == k);
        }
        let has_algorithm = dom.has_attribute(node, &old_algorithm);
        let has_var_scope = dom.has_attribute(node, &old_var_scope);
        let starts = has_algorithm || has_var_scope;
        let starts_domintro = dom.has_class(node, "domintro");
        self.stack.push(node);
        self.scope_flags.push(starts);
        self.domintro_flags.push(starts_domintro);
        proof {
            lemma_count_take(self.scope_flags@);
            lemma_count_take(self.domintro_flags@);
            assert(self.scope_flags@.drop_last() =~= v0.scope_flags.take(k));
            assert(self.domintro_flags@.drop_last() =~= v0.domintro_flags.take(k));
        }
        let open = self.scope_flags.len();
        assert(self.scope_flags@.len() == open && self.domintro_flags@.len() == open);
        if starts {
            self.scope_depth += 1;
        }
        if starts_domintro {
            self.domintro_depth += 1;
        }
        if starts {
            self.scope_roots.push(node);
        }
        if dom.has_attribute(node, &data_algorithm) {
            self.disallowed_data_algorithm.push(node);
        }
        if dom.has_attribute(node, &data_var_scope) {
            self.disallowed_data_var_scope.push(node);
        }
        if has_algorithm && has_var_scope {
            self.both_old_attrs.push(node);
        }
        // Check <var> semantics
        if dom.is_html_element(node, "var") {
            if dom.has_attribute(node, &ignore_attr) {
                // Ignore `<var>` with `ignore=""` attribute, and note it for later removal.
                self.vars_to_strip_ignore.push(node);
            } else if self.domintro_depth > 0 {
                // Ignore `<var>` inside domintro sections.
            } else if self.scope_depth == 0 {
                let text = chars_of(dom.text_content(node).as_str());
                let mut msg = line_prefix_for(parsed, node);
                msg.append("\"");
                msg.append(to_string(&trimmed(&text)).as_str());
                msg.append("\" <var> outside algorithm=\"\"/var-scope=\"\" container.");
                let ghost before = views(self.var_out_of_scope_msgs@);
                self.var_out_of_scope_msgs.push(msg);
                proof {
                    assert(msg@ =~= var_message(f, parsed.lines(), node));
                    assert(views(self.var_out_of_scope_msgs@) =~= before.push(msg@));
                }
            }
        }
        proof {
            let goal = visited(v0, f, parsed.lines(), node);
            assert(self.view().stack =~= goal.stack);
            assert(self.view().scope_flags =~= goal.scope_flags);
            assert(self.view().domintro_flags =~= goal.domintro_flags);
            assert(self.view().var_out_of_scope_msgs =~= goal.var_out_of_scope_msgs);
        }
    }

    /// Reports what the visits have found wrong, if anything. Otherwise
    /// renames the scope attributes and removes the `ignore` attributes.
    pub fn apply(self, parsed: &mut RcDomWithLineNumbers) -> (result: Result<(), Error>)
        requires
            old(parsed).wf(),
            forall|i: int|
                0 <= i < self.view().scope_roots.len() ==> (#[trigger] self.view().scope_roots[i])
                    < old(parsed).spec_dom()@.len(),
            forall|i: int|
                0 <= i < self.view().vars_to_strip_ignore.len() ==> (
                #[trigger] self.view().vars_to_strip_ignore[i]) < old(parsed).spec_dom()@.len()
                    && is_element_node(old(parsed).spec_dom()@, self.view().vars_to_strip_ignore[i]),
        ensures
            final(parsed).wf(),
            final(parsed).lines() == old(parsed).lines(),
            final(parsed).spec_document() == old(parsed).spec_document(),
            match result {
                Ok(_) => report(self.view(), old(parsed).lines()) is None && final(parsed).spec_dom()@
                    == ignores_stripped(
                    roots_renamed(old(parsed).spec_dom()@, self.view().scope_roots),
                    self.view().vars_to_strip_ignore,
                ),
                Err(e) => final(parsed).spec_dom()@ == old(parsed).spec_dom()@ && e.spec_kind()
                    == ErrorKind::InvalidData && report(self.view(), old(parsed).lines()) == Some(
                    e.spec_message(),
                ),
            },
    {
        if self.disallowed_data_algorithm.len() > 0 || self.disallowed_data_var_scope.len() > 0 {
            let mut msgs: Vec<String> = Vec::new();
            push_complaints(
                &mut msgs,
                parsed,
                &self.disallowed_data_algorithm,
                "data-algorithm=\"\" present in source. Use algorithm=\"\" instead.",
            );
            push_complaints(
                &mut msgs,
                parsed,
                &self.disallowed_data_var_scope,
                "data-var-scope=\"\" present in source. Use var-scope=\"\" instead.",
            );
            proof {
                assert(views(msgs@) =~= complaints(
                    parsed.lines(),
                    self.view().disallowed_data_algorithm,
                    data_algorithm_text(),
                ) + complaints(parsed.lines(), self.view().disallowed_data_var_scope, data_var_scope_text()));
            }
            return Err(Error::new(ErrorKind::InvalidData, join(&msgs, "\n")));
        }
        if self.both_old_attrs.len() > 0 {
            let mut msgs: Vec<String> = Vec::new();
            push_complaints(
                &mut msgs,
                parsed,
                &self.both_old_attrs,
                "both algorithm=\"\" and var-scope=\"\" present on the same element. Pick one.",
            );
            proof {
                assert(views(msgs@) =~= complaints(parsed.lines(), self.view().both_old_attrs, both_text()));
            }
            return Err(Error::new(ErrorKind::InvalidData, join(&msgs, "\n")));
        }
        if self.var_out_of_scope_msgs.len() > 0 {
            return Err(Error::new(ErrorKind::InvalidData, join(&self.var_out_of_scope_msgs, "\n")));
        }
        let old_algorithm = QualName::attribute("algorithm");
        let new_algorithm = QualName::attribute("data-algorithm");
        let old_var_scope = QualName::attribute("var-scope");
        let new_var_scope = QualName::attribute("data-var-scope");
        let ignore_attr = QualName::attribute("ignore");

        let dom = parsed.dom_mut();
        let ghost f0 = dom@;
        let ghost roots = self.scope_roots@;
        let ghost vars = self.vars_to_strip_ignore@;
        let ghost goal = ignores_stripped(roots_renamed(f0, roots), vars);
        let mut n: usize = 0;
        assert(roots.subrange(0, roots.len() as int) =~= roots);
        assert(roots == self.view().scope_roots);
        assert(vars == self.view().vars_to_strip_ignore);
        assert(f0 == old(parsed).spec_dom()@);
        while n < self.scope_roots.len()
            invariant
                dom.wf(),
                n <= self.scope_roots.len(),
                roots == self.scope_roots@,
                vars == self.vars_to_strip_ignore@,
                dom@.len() == f0.len(),
                forall|i: int| 0 <= i < roots.len() ==> (#[trigger] roots[i]) < f0.len(),
                forall|i: int|
                    0 <= i < vars.len() ==> (#[trigger] vars[i]) < f0.len() && is_element_node(dom@, vars[i]),
                old_algorithm@ == attribute_name("algorithm"@),
                new_algorithm@ == attribute_name("data-algorithm"@),
                old_var_scope@ == attribute_name("var-scope"@),
                new_var_scope@ == attribute_name("data-var-scope"@),
                roots_renamed(dom@, roots.subrange(n as int, roots.len() as int)) == roots_renamed(f0, roots),
            decreases self.scope_roots.len() - n,
        {
            let node = self.scope_roots[n];
            let ghost rest = roots.subrange(n as int, roots.len() as int);
            proof {
                assert(rest[0] == roots[n as int]);
                assert(rest.drop_first() =~= roots.subrange(n + 1, roots.len() as int));
                assert(roots[n as int] < f0.len());
            }
            if dom.is_element(node) {
                let mut attrs = match dom.data(node) {
                    NodeData::Element { attrs, .. } => clone_attrs(attrs),
                    _ => Vec::new(),
                };
                rename_if_present(&mut attrs, &old_algorithm, &new_algorithm);
                rename_if_present(&mut attrs, &old_var_scope, &new_var_scope);
                dom.replace_attrs(node, attrs);
            }
            n += 1;
        }
        let ghost f1 = dom@;
        let mut m: usize = 0;
        assert(vars.subrange(0, vars.len() as int) =~= vars);
        while m < self.vars_to_strip_ignore.len()
            invariant
                dom.wf(),
                m <= self.vars_to_strip_ignore.len(),
                vars == self.vars_to_strip_ignore@,
                dom@.len() == f0.len(),
                forall|i: int|
                    0 <= i < vars.len() ==> (#[trigger] vars[i]) < f0.len() && is_element_node(dom@, vars[i]),
                ignore_attr@ == attribute_name("ignore"@),
                ignores_stripped(dom@, vars.subrange(m as int, vars.len() as int)) == ignores_stripped(f1, vars),
            decreases self.vars_to_strip_ignore.len() - m,
        {
            let node = self.vars_to_strip_ignore[m];
            let ghost rest = vars.subrange(m as int, vars.len() as int);
            proof {
                assert(rest[0] == vars[m as int]);
                assert(rest.drop_first() =~= vars.subrange(m + 1, vars.len() as int));
                assert(vars[m as int] < f0.len());
            }
            dom.remove_attribute(node, &ignore_attr);
            m += 1;
        }
        Ok(())
    }
}

} // verus!
