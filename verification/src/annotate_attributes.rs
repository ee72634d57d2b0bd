//! Augments the content attribute list for each element with a description
//! found in the Attributes table.

use vstd::prelude::*;
use vstd::string::StringExecFns;
use crate::construct::{built, build_text, kids_built, lemma_kids_grow, lemma_kids_free};
use crate::copy::extends;
use crate::dom::{Dom, NodeData, is_html, has_class_token, attribute_of, with_data};
use crate::edit_model::{adoptable, spliced};
use crate::errors::{Error, ErrorKind};
use crate::model::{NodeId, Forest, Tree, DataView, own_text, preorder, subtree, shape, reaches, well_formed};
use crate::model_proofs::{lemma_prefix_subtree, lemma_reaches_valid, same_links};
use crate::names::{QualName, attribute_name};
use crate::parser::adopt_fragment;
use crate::query::{elements_from, take_html};
use crate::scan::scan_dom;
use crate::shape::{text_shape, shapes};
use crate::string_map::{StringMap, sorted};
use crate::string_set::StringSet;
use crate::text::{chars_of, str_eq, slice, trim, trim_start, trimmed, trimmed_start, to_string, starts_with, has_prefix, contains, has_substring, is_ascii_ws, is_ascii_whitespace, views};

verus! {

/// The descriptions of one attribute key.
#[derive(Debug)]
pub struct Descriptions {
    /// The default description, as a list of nodes without parents.
    default: Vec<NodeId>,
    /// The variant description, if any, as an unparsed string.
    variant: Option<String>,
}

/// The descriptions of one attribute key, as a value.
pub struct DescriptionsView {
    pub default: Seq<NodeId>,
    pub variant: Option<Seq<char>>,
}

impl View for Descriptions {
    type V = DescriptionsView;

    closed spec fn view(&self) -> DescriptionsView {
        DescriptionsView {
            default: self.default@,
            variant: match self.variant {
                Some(v) => Some(v@),
                None => None,
            },
        }
    }
}

/// A place that is to be filled in.
#[derive(Debug)]
pub struct Edit {
    /// Handle on the <dd> element which is to be filled in.
    dd: NodeId,
    /// The data-x attribute which must be described.
    key: String,
    /// Whether this location has requested the variant/alternate description.
    wants_variant_description: bool,
    /// Whether this is described as having "special semantics" and so must be
    /// formatted differently.
    has_special_semantics: bool,
}

/// A place that is to be filled in, as a value.
pub struct EditView {
    pub dd: NodeId,
    pub key: Seq<char>,
    pub wants_variant_description: bool,
    pub has_special_semantics: bool,
}

impl View for Edit {
    type V = EditView;

    closed spec fn view(&self) -> EditView {
        EditView {
            dd: self.dd,
            key: self.key@,
            wants_variant_description: self.wants_variant_description,
            has_special_semantics: self.has_special_semantics,
        }
    }
}

/// The state of the pass.
pub struct Processor {
    /// Map from attribute key (e.g., attr-elem-someattribute) to the
    /// descriptions found in the Attributes table.
    attributes: StringMap<Descriptions>,
    /// List of <dd> nodes in Content attributes sections that need to be filled in.
    edits: Vec<Edit>,
}

/// Node `n` is a comment `<!-- or: ... -->`.
pub open spec fn is_variant_comment(f: Forest, n: NodeId) -> bool {
    match f[n as int].data {
        DataView::Comment { contents } => has_prefix(trim(contents), "or:"@),
        _ => false,
    }
}

/// The variant description that a comment `<!-- or: ... -->` holds.
pub open spec fn variant_text(contents: Seq<char>) -> Seq<char> {
    trim_start(trim(contents).subrange(3, trim(contents).len() as int))
}

/// The last variant comment among `ch`, if there is one.
pub open spec fn last_variant(f: Forest, ch: Seq<NodeId>) -> Option<NodeId>
    decreases ch.len(),
{
    if ch.len() == 0 {
        None
    } else if is_variant_comment(f, ch.last()) {
        Some(ch.last())
    } else {
        last_variant(f, ch.drop_last())
    }
}

/// The nodes of `ch` other than `skip`, in order.
pub open spec fn kept(ch: Seq<NodeId>, skip: Option<NodeId>) -> Seq<NodeId>
    decreases ch.len(),
{
    if ch.len() == 0 {
        Seq::empty()
    } else if Some(ch.last()) == skip {
        kept(ch.drop_last(), skip)
    } else {
        kept(ch.drop_last(), skip).push(ch.last())
    }
}

/// What a walk over the subtree of a `<dd>` has found so far.
pub struct Flags {
    pub can_annotate: bool,
    pub wants_variant_description: bool,
    pub has_special_semantics: bool,
    pub key: Option<Seq<char>>,
}

/// What is found after one more node.
pub open spec fn noted(flags: Flags, f: Forest, n: NodeId) -> Flags {
    match f[n as int].data {
        DataView::Comment { contents } => if trim(contents) == "no-annotate"@ {
            Flags {
                can_annotate: false,
                wants_variant_description: flags.wants_variant_description,
                has_special_semantics: flags.has_special_semantics,
                key: flags.key,
            }
        } else if trim(contents) == "variant"@ {
            Flags {
                can_annotate: flags.can_annotate,
                wants_variant_description: true,
                has_special_semantics: flags.has_special_semantics,
                key: flags.key,
            }
        } else {
            flags
        },
        DataView::Text { contents } => if has_substring(contents, "has special semantics"@) {
            Flags {
                can_annotate: flags.can_annotate,
                wants_variant_description: flags.wants_variant_description,
                has_special_semantics: true,
                key: flags.key,
            }
        } else {
            flags
        },
        DataView::Element { .. } => if flags.key is None {
            Flags {
                can_annotate: flags.can_annotate,
                wants_variant_description: flags.wants_variant_description,
                has_special_semantics: flags.has_special_semantics,
                key: attribute_of(f, n, attribute_name("data-x"@)),
            }
        } else {
            flags
        },
        _ => flags,
    }
}

/// What is found after the nodes `ids`, in order.
pub open spec fn noted_all(f: Forest, ids: Seq<NodeId>) -> Flags
    decreases ids.len(),
{
    if ids.len() == 0 {
        Flags {
            can_annotate: true,
            wants_variant_description: false,
            has_special_semantics: false,
            key: None,
        }
    } else {
        noted(noted_all(f, ids.drop_last()), f, ids.last())
    }
}

/// The place to fill in that the `<dd>` makes, if it makes one: it names a
/// key and does not forbid the annotation.
pub open spec fn annotation(f: Forest, dd: NodeId) -> Option<EditView> {
    let flags = noted_all(f, preorder(f, dd));
    match flags.key {
        Some(key) => if flags.can_annotate {
            Some(
                EditView {
                    dd,
                    key,
                    wants_variant_description: flags.wants_variant_description,
                    has_special_semantics: flags.has_special_semantics,
                },
            )
        } else {
            None
        },
        None => None,
    }
}

/// The places to fill in that the nodes `dds` make, in order.
pub open spec fn annotations(f: Forest, dds: Seq<NodeId>) -> Seq<EditView>
    decreases dds.len(),
{
    if dds.len() == 0 {
        Seq::empty()
    } else {
        match annotation(f, dds.last()) {
            Some(e) => annotations(f, dds.drop_last()).push(e),
            None => annotations(f, dds.drop_last()),
        }
    }
}

/// Node `dt` is the term "Content attributes" of the definition list of an
/// element.
pub open spec fn is_content_attribute_dt(f: Forest, dt: NodeId) -> bool {
    is_html(f, dt, "dt"@) && match f[dt as int].parent {
        Some(p) => is_html(f, p, "dl"@) && has_class_token(f, p, "element"@),
        None => false,
    } && exists|k: int|
        0 <= k < f[dt as int].children.len() && attribute_of(
            f,
            #[trigger] f[dt as int].children[k],
            attribute_name("data-x"@),
        ) == Some("concept-element-attributes"@)
}

/// The `<dd>` elements that follow the term `dt` among the element children
/// of its parent, up to the first element that is no `<dd>`.
pub open spec fn following_descriptions(f: Forest, dt: NodeId) -> Seq<NodeId> {
    match f[dt as int].parent {
        Some(p) => take_html(
            f,
            elements_from(f, f[p as int].children, f[p as int].children.index_of(dt) + 1),
            "dd"@,
        ),
        None => Seq::empty(),
    }
}

/// Node `node` is the table of attributes.
pub open spec fn is_attribute_table(f: Forest, node: NodeId) -> bool {
    is_html(f, node, "table"@) && attribute_of(f, node, attribute_name("id"@)) == Some("attributes-1"@)
}

/// `text` without its trailing ASCII whitespace; `text` as it is where it
/// holds nothing else.
pub open spec fn ascii_trimmed_end(text: Seq<char>) -> Seq<char>
    decreases text.len(),
{
    if text.len() == 0 {
        text
    } else if !is_ascii_ws(text.last()) {
        text
    } else if forall|i: int| 0 <= i < text.len() ==> is_ascii_ws(#[trigger] text[i]) {
        text
    } else {
        ascii_trimmed_end(text.drop_last())
    }
}

/// `text` without its trailing ASCII whitespace and full stops.
pub open spec fn without_full_stop(text: Seq<char>) -> Seq<char>
    decreases text.len(),
{
    if text.len() > 0 && (is_ascii_ws(text.last()) || text.last() == '.') {
        without_full_stop(text.drop_last())
    } else {
        text
    }
}

/// The text that leads over to the description of an attribute with special
/// semantics: the trailing period becomes a separating colon.
pub open spec fn with_colon(text: Seq<char>) -> Seq<char> {
    without_full_stop(text) + ": "@
}

/// `text` without its trailing ASCII whitespace; `text` as it is where it
/// holds nothing else.
pub fn trim_end_ascii(text: &Vec<char>) -> (out: Vec<char>)
    ensures
        out@ == ascii_trimmed_end(text@),
{
    let mut any: bool = false;
    let mut k: usize = 0;
    while k < text.len()
        invariant
            k <= text.len(),
            any == exists|i: int| 0 <= i < k && !is_ascii_ws(#[trigger] text@[i]),
        decreases text.len() - k,
    {
        if !is_ascii_whitespace(text[k]) {
            any = true;
            assert(!is_ascii_ws(text@[k as int]));
        }
        k += 1;
    }
    if !any {
        proof {
            lemma_all_ws_unchanged(text@);
        }
        return slice(text, 0, text.len());
    }
    let mut j: usize = text.len();
    proof {
        assert(text@.take(j as int) =~= text@);
    }
    while j > 0 && is_ascii_whitespace(text[j - 1])
        invariant
            j <= text.len(),
            exists|i: int| 0 <= i < j && !is_ascii_ws(#[trigger] text@[i]),
            ascii_trimmed_end(text@) == ascii_trimmed_end(text@.take(j as int)),
        decreases j,
    {
        proof {
            let cur = text@.take(j as int);
            let w = choose|i: int| 0 <= i < j && !is_ascii_ws(#[trigger] text@[i]);
            assert(cur[w] == text@[w]);
            assert(cur.drop_last() =~= text@.take(j - 1));
            assert(w < j - 1);
        }
        j -= 1;
    }
    proof {
        let cur = text@.take(j as int);
        assert(cur.last() == text@[j - 1]);
    }
    slice(text, 0, j)
}

/// A text that holds only whitespace is left as it is.
pub proof fn lemma_all_ws_unchanged(text: Seq<char>)
    requires
        forall|i: int| 0 <= i < text.len() ==> is_ascii_ws(#[trigger] text[i]),
    ensures
        ascii_trimmed_end(text) == text,
{
}

/// `text` with a separating colon in place of its trailing period.
pub fn replace_full_stop(text: &Vec<char>) -> (out: String)
    ensures
        out@ == with_colon(text@),
{
    let mut j: usize = text.len();
    proof {
        assert(text@.take(j as int) =~= text@);
    }
    while j > 0 && (is_ascii_whitespace(text[j - 1]) || text[j - 1] == '.')
        invariant
            j <= text.len(),
            without_full_stop(text@) == without_full_stop(text@.take(j as int)),
        decreases j,
    {
        proof {
            let cur = text@.take(j as int);
            assert(cur.last() == text@[j - 1]);
            assert(cur.drop_last() =~= text@.take(j - 1));
        }
        j -= 1;
    }
    proof {
        let cur = text@.take(j as int);
        if j > 0 {
            assert(cur.last() == text@[j - 1]);
        }
    }
    let mut out = crate::text::string_of(text, 0, j);
    out.append(": ");
    out
}

/// The last variant comment among the children of `td`, and the variant
/// description that it holds.
fn find_variant(dom: &Dom, td: NodeId) -> (found: Option<(NodeId, String)>)
    requires
        dom.wf(),
        td < dom@.len(),
    ensures
        match found {
            Some((node, text)) => last_variant(dom@, dom@[td as int].children) == Some(node) && match dom@[node as int].data {
                DataView::Comment { contents } => text@ == variant_text(contents),
                _ => false,
            } && node < dom@.len(),
            None => last_variant(dom@, dom@[td as int].children) is None,
        },
{
    let children = dom.children(td);
    let mut i: usize = children.len();
    proof {
        assert(children@.take(i as int) =~= children@);
    }
    while i > 0
        invariant
            dom.wf(),
            td < dom@.len(),
            children@ == dom@[td as int].children,
            i <= children.len(),
            last_variant(dom@, children@) == last_variant(dom@, children@.take(i as int)),
        decreases i,
    {
        let node = children[i - 1];
        proof {
            let cur = children@.take(i as int);
            assert(cur.last() == node);
            assert(cur.drop_last() =~= children@.take(i - 1));
            assert(dom@[td as int].children[i - 1] < dom@.len());
        }
        match dom.data(node) {
            NodeData::Comment { contents } => {
                let t = trimmed(&chars_of(contents.as_str()));
                if starts_with(&t, &chars_of("or:")) {
                    proof {
                        reveal_strlit("or:");
                    }
                    let text = to_string(&trimmed_start(&slice(&t, 3, t.len())));
                    return Some((node, text));
                }
            },
            _ => {},
        }
        i -= 1;
    }
    None
}

/// Copies the children of `td` other than `skip`. The copies have no
/// parents.
fn clone_description(dom: &mut Dom, td: NodeId, skip: Option<NodeId>) -> (copies: Vec<NodeId>)
    requires
        old(dom).wf(),
        td < old(dom)@.len(),
    ensures
        kids_built(
            old(dom)@,
            final(dom)@,
            copies@,
            shapes(old(dom)@, kept(old(dom)@[td as int].children, skip)),
        ),
{
    let ghost f0 = dom@;
    let ghost ch = f0[td as int].children;
    let n = dom.children(td).len();
    let mut copies: Vec<NodeId> = Vec::new();
    let mut k: usize = 0;
    proof {
        assert(ch.take(0) =~= Seq::<NodeId>::empty());
        assert(shapes(dom@, copies@) =~= shapes(f0, kept(ch.take(0), skip)));
    }
    while k < n
        invariant
            dom.wf(),
            well_formed(f0),
            td < f0.len(),
            ch == f0[td as int].children,
            n == ch.len(),
            k <= n,
            kids_built(f0, dom@, copies@, shapes(f0, kept(ch.take(k as int), skip))),
        decreases n - k,
    {
        let ghost fa = dom@;
        proof {
            assert(fa[td as int] == f0[td as int]);
            assert(f0[td as int].children[k as int] < f0.len());
            assert(ch.take(k + 1).drop_last() =~= ch.take(k as int));
            assert(ch.take(k + 1).last() == ch[k as int]);
        }
        let child = dom.children(td)[k];
        if Some(child) != skip {
            let copy = dom.deep_clone(child);
            proof {
                assert forall|x: NodeId| x < f0.len() implies same_links(f0[x as int], #[trigger] fa[x as int]) by {}
                lemma_prefix_subtree(f0, fa, child);
                let tree = shape(subtree(f0, child));
                assert(built(fa, dom@, copy, tree));
                let before = shapes(f0, kept(ch.take(k as int), skip));
                lemma_kids_grow(f0, fa, dom@, copies@, before, copy, tree);
                assert(before.push(tree) =~= shapes(f0, kept(ch.take(k + 1), skip)));
            }
            copies.push(copy);
        }
        k += 1;
    }
    proof {
        assert(ch.take(n as int) =~= ch);
    }
    copies
}

/// What a walk over the subtree of the `<dd>` finds: whether it may be
/// annotated, and how.
fn annotate(dom: &Dom, dd: NodeId) -> (edit: Option<Edit>)
    requires
        dom.wf(),
        dd < dom@.len(),
    ensures
        match edit {
            Some(e) => annotation(dom@, dd) == Some(e@),
            None => annotation(dom@, dd) is None,
        },
{
    // If a <dd> contains <!-- no-annotate -->, it is not annotated.
    // If it contains <!-- variant -->, the description found in a <!-- or: ... --> comment is used instead.
    // If it mentions "special semantics", it is joined with a colon rather than an em dash.
    let data_x = QualName::attribute("data-x");
    let order = scan_dom(dom, dd);
    let mut can_annotate = true;
    let mut wants_variant_description = false;
    let mut has_special_semantics = false;
    let mut key: Option<String> = None;
    let mut i: usize = 0;
    proof {
        assert(order@.take(0) =~= Seq::<NodeId>::empty());
        assert forall|j: int| 0 <= j < order@.len() implies order@[j] < dom@.len() by {
            assert(reaches(dom@, dd, order@[j]));
            lemma_reaches_valid(dom@, dd, order@[j]);
        }
    }
    while i < order.len()
        invariant
            dom.wf(),
            i <= order.len(),
            data_x@ == attribute_name("data-x"@),
            forall|j: int| 0 <= j < order@.len() ==> order@[j] < dom@.len(),
            noted_all(dom@, order@.take(i as int)) == (Flags {
                can_annotate,
                wants_variant_description,
                has_special_semantics,
                key: match key {
                    Some(k) => Some(k@),
                    None => None,
                },
            }),
        decreases order.len() - i,
    {
        let n = order[i];
        proof {
            assert(order@.take(i + 1).drop_last() =~= order@.take(i as int));
            assert(order@.take(i + 1).last() == n);
        }
        match dom.data(n) {
            NodeData::Comment { contents } => {
                let t = to_string(&trimmed(&chars_of(contents.as_str())));
                if str_eq(t.as_str(), "no-annotate") {
                    can_annotate = false;
                } else if str_eq(t.as_str(), "variant") {
                    wants_variant_description = true;
                }
            },
            NodeData::Text { contents } => {
                if contains(&chars_of(contents.as_str()), &chars_of("has special semantics")) {
                    has_special_semantics = true;
                }
            },
            NodeData::Element { .. } => {
                if key.is_none() {
                    key = dom.get_attribute(n, &data_x);
                }
            },
            _ => {},
        }
        i += 1;
    }
    proof {
        assert(order@.take(i as int) =~= order@);
    }
    match key {
        Some(key) => {
            if can_annotate {
                Some(Edit { dd, key, wants_variant_description, has_special_semantics })
            } else {
                None
            }
        },
        None => None,
    }
}

/// The first HTML element named `name` among `ch` from the `k`th on.
pub open spec fn first_html_child(f: Forest, ch: Seq<NodeId>, name: Seq<char>, k: int) -> Option<NodeId>
    decreases ch.len() - k,
{
    if k < 0 || k >= ch.len() {
        None
    } else if is_html(f, ch[k], name) {
        Some(ch[k])
    } else {
        first_html_child(f, ch, name, k + 1)
    }
}

/// The `<td>` elements among `ch` from the `k`th on.
pub open spec fn cells_from(f: Forest, ch: Seq<NodeId>, k: int) -> Seq<NodeId>
    decreases ch.len() - k,
{
    if k < 0 || k >= ch.len() {
        Seq::empty()
    } else if is_html(f, ch[k], "td"@) {
        seq![ch[k]] + cells_from(f, ch, k + 1)
    } else {
        cells_from(f, ch, k + 1)
    }
}

/// The first two `<td>` children of `row`, if it has two: the cell of the
/// keys and the cell of the description.
pub open spec fn two_cells(f: Forest, row: NodeId) -> Option<(NodeId, NodeId)> {
    let cells = cells_from(f, f[row as int].children, 0);
    if cells.len() >= 2 {
        Some((cells[0], cells[1]))
    } else {
        None
    }
}

/// The variant description in the cell `td`, if it has one.
pub open spec fn variant_of_cell(f: Forest, td: NodeId) -> Option<Seq<char>> {
    match last_variant(f, f[td as int].children) {
        Some(n) => match f[n as int].data {
            DataView::Comment { contents } => Some(variant_text(contents)),
            _ => None,
        },
        None => None,
    }
}

/// One description to be joined to what is known of a key.
struct PlanItem {
    key: String,
    td: NodeId,
    skip: Option<NodeId>,
    variant: Option<String>,
}

/// One description to be joined to what is known of a key, as a value: the
/// key, the cell that holds the description, the variant comment in it, and
/// the variant description.
pub struct PlanItemView {
    pub key: Seq<char>,
    pub td: NodeId,
    pub skip: Option<NodeId>,
    pub variant: Option<Seq<char>>,
}

impl View for PlanItem {
    type V = PlanItemView;

    closed spec fn view(&self) -> PlanItemView {
        PlanItemView {
            key: self.key@,
            td: self.td,
            skip: self.skip,
            variant: match self.variant {
                Some(v) => Some(v@),
                None => None,
            },
        }
    }
}

/// The views of the items of a list.
spec fn item_views(items: Seq<PlanItem>) -> Seq<PlanItemView> {
    items.map_values(|i: PlanItem| i@)
}

/// The description of the cell `td` for the key `key`.
pub open spec fn plan_item(f: Forest, key: Seq<char>, td: NodeId) -> PlanItemView {
    PlanItemView { key, td, skip: last_variant(f, f[td as int].children), variant: variant_of_cell(f, td) }
}

/// The descriptions that one row asks to join: one for each key that the
/// nodes from the `k`th on name by a `data-x` that is not empty and was not
/// `seen` in this row.
pub open spec fn row_plan(f: Forest, nodes: Seq<NodeId>, k: int, seen: Set<Seq<char>>, td: NodeId) -> Seq<PlanItemView>
    decreases nodes.len() - k,
{
    if k < 0 || k >= nodes.len() {
        Seq::empty()
    } else {
        match attribute_of(f, nodes[k], attribute_name("data-x"@)) {
            Some(key) => if key.len() > 0 && !seen.contains(key) {
                seq![plan_item(f, key, td)] + row_plan(f, nodes, k + 1, seen.insert(key), td)
            } else {
                row_plan(f, nodes, k + 1, seen, td)
            },
            None => row_plan(f, nodes, k + 1, seen, td),
        }
    }
}

/// The descriptions that the rows from the `r`th on ask to join: those of
/// each `<tr>` with two cells.
pub open spec fn rows_plan(f: Forest, rows: Seq<NodeId>, r: int) -> Seq<PlanItemView>
    decreases rows.len() - r,
{
    if r < 0 || r >= rows.len() {
        Seq::empty()
    } else if is_html(f, rows[r], "tr"@) {
        match two_cells(f, rows[r]) {
            Some((keys_td, description_td)) => row_plan(
                f,
                f[keys_td as int].children,
                0,
                Set::empty(),
                description_td,
            ) + rows_plan(f, rows, r + 1),
            None => rows_plan(f, rows, r + 1),
        }
    } else {
        rows_plan(f, rows, r + 1)
    }
}

/// The descriptions that the table asks to join: those of the rows of its
/// first `<tbody>`.
pub open spec fn table_plan(f: Forest, table: NodeId) -> Seq<PlanItemView> {
    match first_html_child(f, f[table as int].children, "tbody"@, 0) {
        Some(tbody) => rows_plan(f, f[tbody as int].children, 0),
        None => Seq::empty(),
    }
}

/// What is known of one key, with the default description as shapes.
pub struct DescriptionShape {
    pub default: Seq<Tree>,
    pub variant: Option<Seq<char>>,
}

/// What is known of a key that the table has not described.
pub open spec fn no_description() -> DescriptionShape {
    DescriptionShape { default: Seq::empty(), variant: None }
}

/// What is known of `key` in `m`.
pub open spec fn shape_of(m: Map<Seq<char>, DescriptionShape>, key: Seq<char>) -> DescriptionShape {
    if m.contains_key(key) {
        m[key]
    } else {
        no_description()
    }
}

/// The description with a last text that has lost its trailing whitespace.
pub open spec fn with_last_trimmed(trees: Seq<Tree>) -> Seq<Tree> {
    if trees.len() == 0 {
        trees
    } else {
        match trees.last().data {
            DataView::Text { contents } => trees.drop_last().push(text_shape(ascii_trimmed_end(contents))),
            _ => trees,
        }
    }
}

/// Two default descriptions joined: the second follows the first after a
/// semicolon.
pub open spec fn joined_default(old: Seq<Tree>, new: Seq<Tree>) -> Seq<Tree> {
    if old.len() == 0 {
        new
    } else if new.len() == 0 {
        old
    } else {
        with_last_trimmed(old) + seq![text_shape("; "@)] + new
    }
}

/// Two variant descriptions joined: the second follows the first after a
/// semicolon.
pub open spec fn joined_variant(old: Option<Seq<char>>, new: Option<Seq<char>>) -> Option<Seq<char>> {
    match (old, new) {
        (None, _) => new,
        (Some(o), Some(n)) => Some(o + "; "@ + n),
        (Some(o), None) => Some(o),
    }
}

/// What is known after the description `trees`, `variant` has been joined
/// to what is known of `key`.
pub open spec fn described_more(
    m: Map<Seq<char>, DescriptionShape>,
    key: Seq<char>,
    trees: Seq<Tree>,
    variant: Option<Seq<char>>,
) -> Map<Seq<char>, DescriptionShape> {
    m.insert(
        key,
        DescriptionShape {
            default: joined_default(shape_of(m, key).default, trees),
            variant: joined_variant(shape_of(m, key).variant, variant),
        },
    )
}

/// What is known after the descriptions `plan` have been joined, in order.
pub open spec fn plan_joined(m: Map<Seq<char>, DescriptionShape>, f: Forest, plan: Seq<PlanItemView>) -> Map<Seq<char>, DescriptionShape>
    decreases plan.len(),
{
    if plan.len() == 0 {
        m
    } else {
        plan_joined(
            described_more(
                m,
                plan[0].key,
                shapes(f, kept(f[plan[0].td as int].children, plan[0].skip)),
                plan[0].variant,
            ),
            f,
            plan.drop_first(),
        )
    }
}

/// What is known of each key, with the default descriptions as shapes.
pub open spec fn shape_values(f: Forest, values: Seq<DescriptionsView>) -> Seq<DescriptionShape> {
    Seq::new(
        values.len(),
        |i: int| DescriptionShape { default: shapes(f, values[i].default), variant: values[i].variant },
    )
}

/// The nodes that are kept are among the nodes.
pub proof fn lemma_kept_sub(ch: Seq<NodeId>, skip: Option<NodeId>)
    ensures
        forall|i: int| 0 <= i < kept(ch, skip).len() ==> ch.contains(#[trigger] kept(ch, skip)[i]),
    decreases ch.len(),
{
    if ch.len() > 0 {
        lemma_kept_sub(ch.drop_last(), skip);
        let k = kept(ch, skip);
        assert forall|i: int| 0 <= i < k.len() implies ch.contains(#[trigger] k[i]) by {
            if i < kept(ch.drop_last(), skip).len() {
                assert(k[i] == kept(ch.drop_last(), skip)[i]);
                assert(ch.drop_last().contains(k[i]));
                let j = choose|j: int| 0 <= j < ch.drop_last().len() && ch.drop_last()[j] == k[i];
                assert(ch[j] == k[i]);
            } else {
                assert(k[i] == ch.last());
                assert(ch[ch.len() - 1] == k[i]);
            }
        }
    }
}

/// A variant description as a value.
pub open spec fn variant_view(variant: Option<String>) -> Option<Seq<char>> {
    match variant {
        Some(v) => Some(v@),
        None => None,
    }
}

/// The views of the edits of a list.
pub closed spec fn edit_views(edits: Seq<Edit>) -> Seq<EditView> {
    edits.map_values(|e: Edit| e@)
}

/// The views of the descriptions of a list.
pub closed spec fn description_views(values: Seq<Descriptions>) -> Seq<DescriptionsView> {
    values.map_values(|d: Descriptions| d@)
}

/// What is to be done for a place before it can be filled in.
#[derive(Debug)]
pub enum Step {
    /// Nothing: the table describes no attribute with this key.
    Skip,
    /// Fail: the place asks for a variant description that the table does
    /// not have.
    Fail(Error),
    /// Parse the text as a fragment in the context of the `<dd>`, and hand
    /// the fragment to `apply`.
    Parse { context: NodeId, text: String },
    /// Nothing: `apply` can be called without a fragment.
    Ready,
}

/// The message about a missing variant description.
pub open spec fn no_variant_message(key: Seq<char>) -> Seq<char> {
    "Attribute "@ + key + " wants variant description, but no <!--or--> was found"@
}

/// The forest `f` with a colon at the end of the last child of `dd`, if the
/// place has special semantics and that child is a text.
pub open spec fn led_over(f: Forest, e: EditView) -> Forest {
    let ch = f[e.dd as int].children;
    if e.has_special_semantics && ch.len() > 0 && f[ch.last() as int].data is Text {
        with_data(f, ch.last(), DataView::Text { contents: with_colon(own_text(f, ch.last())) })
    } else {
        f
    }
}

/// The shapes of what is appended to the `<dd>`: an em dash, unless the
/// place has special semantics, and the description.
pub open spec fn appended(e: EditView, description: Seq<Tree>) -> Seq<Tree> {
    if e.has_special_semantics {
        description
    } else {
        seq![text_shape(" \u{2014} "@)] + description
    }
}

/// The forest `f2` is `f` after nodes of the shapes `trees` were built and
/// appended to the children of `dd`, with a colon leading over to them if
/// the place has special semantics.
pub open spec fn filled_in(f: Forest, f2: Forest, e: EditView, trees: Seq<Tree>) -> bool {
    exists|g: Forest, kids: Seq<NodeId>| #[trigger]
        kids_built(led_over(f, e), g, kids, trees) && f2 == spliced(
            g,
            e.dd,
            g[e.dd as int].children.len() as int,
            g[e.dd as int].children.len() as int,
            kids,
        )
}

impl Processor {
    /// The keys of the attributes that the table describes, in ascending
    /// order.
    pub closed spec fn keys(&self) -> Seq<Seq<char>> {
        self.attributes.keys()
    }

    /// The descriptions of the attributes, in the order of their keys.
    pub closed spec fn descriptions(&self) -> Seq<DescriptionsView> {
        description_views(self.attributes.values())
    }

    /// The places to fill in, in the order of the visits.
    pub closed spec fn edits(&self) -> Seq<EditView> {
        edit_views(self.edits@)
    }

    /// What the table says of each key, with the default descriptions as
    /// shapes of nodes of `f`.
    pub open spec fn described(&self, f: Forest) -> Map<Seq<char>, DescriptionShape> {
        crate::string_map::map_of(self.keys(), shape_values(f, self.descriptions()))
    }

    /// The keys are in ascending order, and each has its descriptions.
    pub open spec fn wf(&self) -> bool {
        sorted(self.keys()) && self.keys().len() == self.descriptions().len()
    }

    /// Every node of a default description is a node of `f`.
    pub open spec fn fits(&self, f: Forest) -> bool {
        forall|i: int, j: int|
            0 <= i < self.descriptions().len() && 0 <= j < self.descriptions()[i].default.len() ==> (
            #[trigger] self.descriptions()[i].default[j]) < f.len()
    }

    /// A pass that has seen nothing.
    pub fn new() -> (out: Processor)
        ensures
            out.wf(),
            out.keys() == Seq::<Seq<char>>::empty(),
            out.edits() == Seq::<EditView>::empty(),
    {
        let out = Processor { attributes: StringMap::new(), edits: Vec::new() };
        assert(out.descriptions() =~= Seq::<DescriptionsView>::empty());
        assert(out.edits() =~= Seq::<EditView>::empty());
        out
    }

    /// The number of places to fill in.
    pub fn edit_count(&self) -> (n: usize)
        ensures
            n == self.edits().len(),
    {
        self.edits.len()
    }

    /// What is known of the keys stays the same when nodes are added to
    /// the arena.
    proof fn lemma_described_extends(&self, f1: Forest, f2: Forest)
        requires
            self.fits(f1),
            well_formed(f1),
            well_formed(f2),
            extends(f1, f2),
        ensures
            shape_values(f2, self.descriptions()) == shape_values(f1, self.descriptions()),
            self.described(f2) == self.described(f1),
            self.fits(f2),
    {
        let d = self.descriptions();
        assert forall|i: int| 0 <= i < d.len() implies shape_values(f2, d)[i] == shape_values(f1, d)[i] by {
            assert forall|j: int| 0 <= j < d[i].default.len() implies (#[trigger] d[i].default[j]) < f1.len() by {}
            crate::construct::lemma_extends_keeps(f1, f2, d[i].default);
        }
        assert(shape_values(f2, d) =~= shape_values(f1, d));
    }

    /// Joins the description `default`, `variant` of one row of the table to
    /// what is known of the key: the first description is taken as it is; a
    /// later one follows after a semicolon, and the text before the semicolon
    /// loses its trailing whitespace.
    fn join(
        &mut self,
        dom: &mut Dom,
        key: String,
        default: Vec<NodeId>,
        variant: Option<String>,
        Ghost(trees): Ghost<Seq<Tree>>,
    )
        requires
            old(self).wf(),
            old(self).fits(old(dom)@),
            old(dom).wf(),
            forall|i: int| 0 <= i < default@.len() ==> default@[i] < old(dom)@.len(),
            shapes(old(dom)@, default@) == trees,
        ensures
            final(self).wf(),
            final(self).fits(final(dom)@),
            final(self).edits() == old(self).edits(),
            final(dom).wf(),
            extends(old(dom)@, final(dom)@),
            final(self).described(final(dom)@) == described_more(
                old(self).described(old(dom)@),
                key@,
                trees,
                variant_view(variant),
            ),
    {
        let ghost f0 = dom@;
        let ghost keys0 = self.keys();
        let ghost values0 = self.attributes.values();
        let ghost d0 = self.descriptions();
        let ghost sv0 = shape_values(f0, d0);
        let ghost m0 = self.described(f0);
        let ghost variant_in: Option<Seq<char>> = variant_view(variant);
        let fresh = Descriptions { default: Vec::new(), variant: None };
        let idx = self.attributes.ensure(key, fresh);
        let ghost keys1 = self.keys();
        let ghost values1 = self.attributes.values();
        let ghost d1 = self.descriptions();
        let ghost sv1 = shape_values(f0, d1);
        proof {
            if keys0.contains(key@) {
                assert(d1 =~= d0);
            } else {
                assert(values1 == values0.insert(idx as int, fresh));
                assert forall|j: int| 0 <= j < d1.len() implies d1[j] == d0.insert(idx as int, fresh@)[j] by {
                    assert(d1[j] == values1[j]@);
                    if j < idx {
                        assert(values1[j] == values0[j]);
                        assert(d0[j] == values0[j]@);
                    } else if j > idx {
                        assert(values1[j] == values0[j - 1]);
                        assert(d0[j - 1] == values0[j - 1]@);
                    }
                }
                assert(d1 =~= d0.insert(idx as int, fresh@));
                assert(shapes(f0, fresh@.default) =~= Seq::<Tree>::empty());
                assert(sv1 =~= sv0.insert(idx as int, no_description()));
                crate::string_map::lemma_map_insert(keys0, sv0, idx as int, key@, no_description());
            }
            crate::string_map::lemma_map_update(keys1, sv1, idx as int, sv1[idx as int]);
            assert(sv1[idx as int] == shape_of(m0, key@));
            assert forall|i: int, j: int| 0 <= i < d1.len() && 0 <= j < d1[i].default.len() implies (
            #[trigger] d1[i].default[j]) < f0.len() by {
                if keys0.contains(key@) {
                    assert(d0[i].default[j] < f0.len());
                } else if i < idx {
                    assert(d1[i] == d0[i]);
                    assert(d0[i].default[j] < f0.len());
                } else if i > idx {
                    assert(d1[i] == d0[i - 1]);
                    assert(d0[i - 1].default[j] < f0.len());
                }
            }
        }
        let existing = self.attributes.value_mut(idx);
        let ghost before = existing@;
        assert(before == d1[idx as int]) by {
            assert(d1[idx as int] == values1[idx as int]@);
        }
        let ghost old_trees = shapes(f0, before.default);
        let ghost default_in = default@;
        let mut default = default;
        if existing.default.len() == 0 {
            existing.default = default;
            proof {
                assert(shapes(dom@, existing.default@) =~= joined_default(old_trees, trees));
            }
        } else if default.len() > 0 {
            let at = existing.default.len() - 1;
            let last = existing.default[at];
            assert(last < f0.len()) by {
                assert(d1[idx as int].default[at as int] < f0.len());
            }
            let trimmed_last: Option<String> = match dom.data(last) {
                NodeData::Text { contents } => Some(to_string(&trim_end_ascii(&chars_of(contents.as_str())))),
                _ => None,
            };
            let ghost fa = dom@;
            match trimmed_last {
                Some(t) => {
                    let shorter = crate::construct::build_text(dom, t.as_str());
                    existing.default.set(at, shorter);
                },
                None => {},
            }
            let ghost fb = dom@;
            let separator = crate::construct::build_text(dom, "; ");
            existing.default.push(separator);
            existing.default.append(&mut default);
            proof {
                let f2 = dom@;
                let stored = existing.default@;
                let m = before.default.len() as int;
                let goal = joined_default(old_trees, trees);
                crate::shape::lemma_shape_fields(f0, last);
                assert(old_trees.last() == shape(subtree(f0, last)));
                assert forall|x: NodeId| x < f0.len() implies same_links(f0[x as int], #[trigger] f2[x as int]) by {
                    assert(fb[x as int] == f0[x as int]);
                }
                assert forall|x: NodeId| x < fb.len() implies same_links(fb[x as int], #[trigger] f2[x as int]) by {}
                assert(stored.len() == m + 1 + default_in.len());
                assert forall|j: int| 0 <= j < stored.len() implies shapes(f2, stored)[j] == goal[j] by {
                    if j < m - 1 {
                        assert(stored[j] == before.default[j]);
                        assert(before.default[j] < f0.len());
                        lemma_prefix_subtree(f0, f2, stored[j]);
                        assert(old_trees[j] == shape(subtree(f0, before.default[j])));
                    } else if j == m - 1 {
                        if f0[last as int].data is Text {
                            lemma_prefix_subtree(fb, f2, stored[j]);
                        } else {
                            assert(stored[j] == last);
                            lemma_prefix_subtree(f0, f2, last);
                        }
                    } else if j == m {
                    } else {
                        assert(stored[j] == default_in[j - m - 1]);
                        lemma_prefix_subtree(f0, f2, stored[j]);
                        assert(trees[j - m - 1] == shape(subtree(f0, default_in[j - m - 1])));
                    }
                }
                assert(shapes(f2, stored) =~= goal);
            }
        } else {
            proof {
                assert(shapes(dom@, existing.default@) =~= joined_default(old_trees, trees));
            }
        }
        match &mut existing.variant {
            None => {
                existing.variant = variant;
            },
            Some(existing_variant) => {
                match variant {
                    Some(v) => {
                        existing_variant.append("; ");
                        existing_variant.append(v.as_str());
                    },
                    None => {},
                }
            },
        }
        proof {
            let f2 = dom@;
            let d2 = self.descriptions();
            let values2 = self.attributes.values();
            let sv2 = shape_values(f2, d2);
            assert(d2.len() == d1.len());
            let new_shape = DescriptionShape {
                default: joined_default(shape_of(m0, key@).default, trees),
                variant: joined_variant(shape_of(m0, key@).variant, variant_in),
            };
            assert forall|x: NodeId| x < f0.len() implies same_links(f0[x as int], #[trigger] f2[x as int]) by {}
            assert forall|i: int| 0 <= i < d2.len() implies sv2[i] == sv1.update(idx as int, new_shape)[i] by {
                assert(d2[i] == values2[i]@);
                if i != idx {
                    assert(values2[i] == values1[i]);
                    assert(d1[i] == values1[i]@);
                    assert forall|j: int| 0 <= j < d1[i].default.len() implies (#[trigger] d1[i].default[j])
                        < f0.len() by {}
                    crate::construct::lemma_extends_keeps(f0, f2, d1[i].default);
                } else {
                    assert(d2[i].default == self.attributes.values()[idx as int]@.default);
                }
            }
            assert(sv2 =~= sv1.update(idx as int, new_shape));
            crate::string_map::lemma_map_update(keys1, sv1, idx as int, new_shape);
            let m1 = crate::string_map::map_of(keys1, sv1);
            assert(m1.insert(key@, sv1[idx as int]) =~= m0.insert(key@, sv1[idx as int]));
            assert(m1.insert(key@, new_shape) =~= m1.insert(key@, sv1[idx as int]).insert(key@, new_shape));
            assert(m0.insert(key@, sv1[idx as int]).insert(key@, new_shape) =~= m0.insert(key@, new_shape));
            assert forall|i: int, j: int| 0 <= i < d2.len() && 0 <= j < d2[i].default.len() implies (
            #[trigger] d2[i].default[j]) < f2.len() by {
                assert(d2[i] == values2[i]@);
                if i != idx {
                    assert(values2[i] == values1[i]);
                    assert(d1[i] == values1[i]@);
                    assert(d1[i].default[j] < f0.len());
                } else {
                    let stored = d2[i].default;
                    if before.default.len() == 0 {
                        assert(stored[j] == default_in[j]);
                    } else if default_in.len() > 0 {
                        let m = before.default.len() as int;
                        if j < m - 1 {
                            assert(stored[j] == before.default[j]);
                            assert(d1[idx as int].default[j] < f0.len());
                        } else if j == m - 1 {
                            assert(d1[idx as int].default[j] < f0.len());
                        } else if j == m {
                        } else {
                            assert(stored[j] == default_in[j - m - 1]);
                        }
                    } else {
                        assert(stored[j] == before.default[j]);
                        assert(d1[idx as int].default[j] < f0.len());
                    }
                }
            }
        }
    }

    /// Should be called for each node of the document. Copies the
    /// descriptions of the table of attributes into nodes of their own, and
    /// records the places to fill in.
    pub fn visit(&mut self, dom: &mut Dom, node: NodeId)
        requires
            old(self).wf(),
            old(self).fits(old(dom)@),
            old(dom).wf(),
            node < old(dom)@.len(),
        ensures
            final(self).wf(),
            final(self).fits(final(dom)@),
            final(dom).wf(),
            extends(old(dom)@, final(dom)@),
            final(self).edits() == if is_content_attribute_dt(old(dom)@, node) && !is_attribute_table(
                old(dom)@,
                node,
            ) {
                old(self).edits() + annotations(old(dom)@, following_descriptions(old(dom)@, node))
            } else {
                old(self).edits()
            },
            final(self).described(final(dom)@) == if is_attribute_table(old(dom)@, node) {
                plan_joined(old(self).described(old(dom)@), old(dom)@, table_plan(old(dom)@, node))
            } else {
                old(self).described(old(dom)@)
            },
    {
        // We're looking for a <table id="attributes-1"> (which is under the Attributes heading).
        if dom.is_html_element(node, "table") && dom.has_id(node, "attributes-1") {
            self.index_attribute_table(dom, node);
            proof {
                reveal_strlit("table");
                reveal_strlit("dt");
                assert(!is_html(old(dom)@, node, "dt"@)) by {
                    assert("table"@.len() != "dt"@.len());
                }
            }
            return;
        }
        // We're looking for the following:
        // <dl class="element">
        //   ...
        //   <dt><span data-x="concept-element-attributes">Content attributes</span>:</dt>
        //   <dd><span>Global attributes</span></dd>
        //   <dd><span data-x="attr-a-href">href</span></dd>
        //   ...
        if self.is_content_attribute_term(dom, node) {
            self.index_attribute_list(dom, node);
        }
    }

    /// Whether `dt` is the term "Content attributes" of the definition list
    /// of an element.
    fn is_content_attribute_term(&self, dom: &Dom, dt: NodeId) -> (yes: bool)
        requires
            dom.wf(),
            dt < dom@.len(),
        ensures
            yes == is_content_attribute_dt(dom@, dt),
    {
        if !dom.is_html_element(dt, "dt") {
            return false;
        }
        match dom.parent_node(dt) {
            Some(p) => {
                assert(dom@[dt as int].parent is Some);
                if !(dom.is_html_element(p, "dl") && dom.has_class(p, "element")) {
                    return false;
                }
            },
            None => {
                return false;
            },
        }
        let data_x = QualName::attribute("data-x");
        let children = dom.children(dt);
        let mut k: usize = 0;
        while k < children.len()
            invariant
                dom.wf(),
                dt < dom@.len(),
                is_html(dom@, dt, "dt"@),
                match dom@[dt as int].parent {
                    Some(p) => is_html(dom@, p, "dl"@) && has_class_token(dom@, p, "element"@),
                    None => false,
                },
                children@ == dom@[dt as int].children,
                k <= children.len(),
                data_x@ == attribute_name("data-x"@),
                forall|i: int|
                    0 <= i < k ==> attribute_of(dom@, #[trigger] children@[i], attribute_name("data-x"@)) != Some(
                        "concept-element-attributes"@,
                    ),
            decreases children.len() - k,
        {
            assert(dom@[dt as int].children[k as int] < dom@.len());
            if dom.attribute_is(children[k], &data_x, "concept-element-attributes") {
                let ghost w = k as int;
                assert(0 <= w < dom@[dt as int].children.len() && attribute_of(
                    dom@,
                    dom@[dt as int].children[w],
                    attribute_name("data-x"@),
                ) == Some("concept-element-attributes"@));
                return true;
            }
            k += 1;
        }
        false
    }

    /// Records the places to fill in that follow the term `dt`.
    fn index_attribute_list(&mut self, dom: &Dom, dt: NodeId)
        requires
            old(self).wf(),
            dom.wf(),
            dt < dom@.len(),
            dom@[dt as int].parent is Some,
        ensures
            final(self).wf(),
            final(self).keys() == old(self).keys(),
            final(self).descriptions() == old(self).descriptions(),
            final(self).edits() == old(self).edits() + annotations(dom@, following_descriptions(dom@, dt)),
    {
        let ghost f = dom@;
        let parent = match dom.parent_node(dt) {
            Some(p) => p,
            None => {
                return;
            },
        };
        let children = dom.children(parent);
        let at = crate::edit::position(children, dt);
        proof {
            let ch = f[parent as int].children;
            assert(ch.contains(dt));
            assert(ch.no_duplicates());
            let s = ch.index_of(dt);
            assert(ch[s] == dt && 0 <= s < ch.len());
            assert(s == at);
        }
        let ghost start = self.edits();
        let ghost ch = f[parent as int].children;
        let ghost dds = following_descriptions(f, dt);
        let mut taken: Ghost<Seq<NodeId>> = Ghost(Seq::empty());
        let mut k: usize = at + 1;
        let mut done = false;
        while k < children.len() && !done
            invariant
                self.wf(),
                dom.wf(),
                f == dom@,
                parent < f.len(),
                ch == f[parent as int].children,
                children@ == ch,
                at < k <= children.len(),
                self.keys() == old(self).keys(),
                self.descriptions() == old(self).descriptions(),
                dds == following_descriptions(f, dt),
                f[dt as int].parent == Some(parent),
                at == ch.index_of(dt),
                !done ==> dds == taken@ + take_html(f, elements_from(f, ch, k as int), "dd"@),
                done ==> dds == taken@,
                self.edits() == start + annotations(f, taken@),
            decreases children.len() - k, if done { 0int } else { 1int },
        {
            let c = children[k];
            let ghost rest = elements_from(f, ch, k + 1);
            let ghost cur = elements_from(f, ch, k as int);
            assert(f[parent as int].children[k as int] < f.len());
            if dom.is_element(c) {
                proof {
                    assert(cur == seq![c] + rest);
                    assert(cur.drop_first() =~= rest);
                }
                if dom.is_html_element(c, "dd") {
                    let ghost before = self.edits();
                    match annotate(dom, c) {
                        Some(e) => {
                            self.edits.push(e);
                            assert(self.edits() =~= before.push(e@));
                        },
                        None => {},
                    }
                    proof {
                        let t0 = taken@;
                        taken@ = taken@.push(c);
                        assert(taken@.drop_last() =~= t0);
                        assert(taken@ + take_html(f, rest, "dd"@) =~= t0 + (seq![c] + take_html(f, rest, "dd"@)));
                    }
                    k += 1;
                } else {
                    proof {
                        assert(taken@ + Seq::<NodeId>::empty() =~= taken@);
                    }
                    done = true;
                }
            } else {
                k += 1;
            }
        }
        proof {
            if !done {
                assert(elements_from(f, ch, k as int) =~= Seq::<NodeId>::empty());
                assert(taken@ + Seq::<NodeId>::empty() =~= taken@);
            }
        }
    }

    /// Copies the descriptions of the table of attributes. Each row of the
    /// table body is expected to have this structure:
    /// <tr>
    ///   <th> <code data-x>someattribute</code>
    ///   <td> <code data-x="attr-a-someattribute">a</code>; <code data-x="attr-b-someattribute">b</code>; ...
    ///   <td> Description of how someattribute applies to a, b, etc.
    ///   <td> Description if the valid values
    /// The description is copied for each key of the row, and joined to what
    /// is known of the key.
    fn index_attribute_table(&mut self, dom: &mut Dom, table: NodeId)
        requires
            old(self).wf(),
            old(self).fits(old(dom)@),
            old(dom).wf(),
            table < old(dom)@.len(),
        ensures
            final(self).wf(),
            final(self).fits(final(dom)@),
            final(self).edits() == old(self).edits(),
            final(dom).wf(),
            extends(old(dom)@, final(dom)@),
            final(self).described(final(dom)@) == plan_joined(
                old(self).described(old(dom)@),
                old(dom)@,
                table_plan(old(dom)@, table),
            ),
    {
        let ghost f0 = dom@;
        let ghost m0 = self.described(f0);
        let plan = plan_table(dom, table);
        let ghost items = item_views(plan@);
        let mut i: usize = 0;
        proof {
            assert(items.subrange(0, items.len() as int) =~= items);
        }
        while i < plan.len()
            invariant
                self.wf(),
                self.fits(dom@),
                self.edits() == old(self).edits(),
                dom.wf(),
                well_formed(f0),
                extends(f0, dom@),
                i <= plan.len(),
                items == item_views(plan@),
                forall|j: int| 0 <= j < items.len() ==> (#[trigger] items[j]).td < f0.len(),
                plan_joined(self.described(dom@), f0, items.subrange(i as int, items.len() as int)) == plan_joined(
                    m0,
                    f0,
                    items,
                ),
            decreases plan.len() - i,
        {
            let item = &plan[i];
            let ghost rest = items.subrange(i as int, items.len() as int);
            let ghost fa = dom@;
            proof {
                assert(rest[0] == items[i as int]);
                assert(items[i as int] == item@);
                assert(rest.drop_first() =~= items.subrange(i + 1, items.len() as int));
                assert(items[i as int].td < f0.len());
                assert(fa[item.td as int] == f0[item.td as int]);
            }
            // Store the (already parsed) ordinary description. If a variant
            // comment exists, omit it and instead store its unparsed
            // string.
            let default = clone_description(dom, item.td, item.skip);
            let ghost fb = dom@;
            let ghost ids = kept(f0[item.td as int].children, item.skip);
            let ghost trees = shapes(f0, ids);
            proof {
                lemma_kept_sub(f0[item.td as int].children, item.skip);
                assert forall|j: int| 0 <= j < ids.len() implies (#[trigger] ids[j]) < f0.len() by {
                    let c = ids[j];
                    assert(f0[item.td as int].children.contains(c));
                    let k = choose|k: int|
                        0 <= k < f0[item.td as int].children.len() && f0[item.td as int].children[k] == c;
                    assert(f0[item.td as int].children[k] < f0.len());
                }
                crate::construct::lemma_extends_keeps(f0, fa, ids);
                assert(shapes(fb, default@) == trees);
                self.lemma_described_extends(fa, fb);
                assert forall|x: int| 0 <= x < f0.len() implies #[trigger] fb[x] == f0[x] by {
                    assert(fa[x] == f0[x]);
                }
            }
            let key = item.key.clone();
            let variant = match &item.variant {
                Some(v) => Some(v.clone()),
                None => None,
            };
            self.join(dom, key, default, variant, Ghost(trees));
            proof {
                assert forall|x: int| 0 <= x < f0.len() implies #[trigger] dom@[x] == f0[x] by {
                    assert(fb[x] == f0[x]);
                }
            }
            i += 1;
        }
    }

    /// Says what is to be done for the `i`th place before it can be filled
    /// in.
    pub fn plan(&self, i: usize) -> (step: Step)
        requires
            self.wf(),
            i < self.edits().len(),
        ensures
            match step {
                Step::Skip => !self.keys().contains(self.edits()[i as int].key),
                Step::Fail(e) => self.keys().contains(self.edits()[i as int].key) && self.edits()[i as int].wants_variant_description
                    && self.variant_of(self.edits()[i as int].key) is None && e.spec_kind()
                    == ErrorKind::InvalidData && e.spec_message() == no_variant_message(
                    self.edits()[i as int].key,
                ),
                Step::Parse { context, text } => self.keys().contains(self.edits()[i as int].key)
                    && self.edits()[i as int].wants_variant_description && self.variant_of(
                    self.edits()[i as int].key,
                ) == Some(text@) && context == self.edits()[i as int].dd,
                Step::Ready => self.keys().contains(self.edits()[i as int].key)
                    && !self.edits()[i as int].wants_variant_description,
            },
    {
        let edit = &self.edits[i];
        assert(self.edits()[i as int] == edit@);
        // Find the requested description to insert at this point.
        let idx = match self.attributes.position(edit.key.as_str()) {
            Some(idx) => idx,
            None => {
                return Step::Skip;
            },
        };
        proof {
            crate::string_map::lemma_sorted_index(self.keys(), idx as int);
            assert(self.descriptions()[idx as int] == self.attributes.values()[idx as int]@);
        }
        let descriptions = self.attributes.value(idx);
        if edit.wants_variant_description {
            match &descriptions.variant {
                Some(variant) => Step::Parse { context: edit.dd, text: variant.clone() },
                None => {
                    let mut message = String::from_str("Attribute ");
                    message.append(edit.key.as_str());
                    message.append(" wants variant description, but no <!--or--> was found");
                    Step::Fail(Error::new(ErrorKind::InvalidData, message))
                },
            }
        } else {
            Step::Ready
        }
    }

    /// The variant description of `key`, which the table describes.
    pub open spec fn variant_of(&self, key: Seq<char>) -> Option<Seq<char>> {
        self.descriptions()[self.keys().index_of(key)].variant
    }

    /// The default description of `key`, which the table describes.
    pub open spec fn default_of(&self, key: Seq<char>) -> Seq<NodeId> {
        self.descriptions()[self.keys().index_of(key)].default
    }

    /// Fills in the `i`th place, whose description the table has: appends to
    /// the `<dd>` an em dash and the description, or, where the place has
    /// special semantics, puts a colon in the place of the trailing period
    /// and appends the description. The description is the fragment parsed
    /// from the variant description, where the place asks for the variant,
    /// and copies of the default description otherwise.
    pub fn apply(&self, dom: &mut Dom, i: usize, fragment: Option<(Dom, Vec<NodeId>)>)
        requires
            self.wf(),
            self.fits(old(dom)@),
            old(dom).wf(),
            i < self.edits().len(),
            self.edits()[i as int].dd < old(dom)@.len(),
            self.keys().contains(self.edits()[i as int].key),
            self.edits()[i as int].wants_variant_description == fragment is Some,
            match fragment {
                Some((arena, nodes)) => arena.wf() && forall|k: int|
                    0 <= k < nodes@.len() ==> nodes@[k] < arena@.len(),
                None => true,
            },
        ensures
            final(dom).wf(),
            self.fits(final(dom)@),
            filled_in(
                old(dom)@,
                final(dom)@,
                self.edits()[i as int],
                appended(
                    self.edits()[i as int],
                    match fragment {
                        Some((arena, nodes)) => shapes(arena@, nodes@),
                        None => shapes(
                        led_over(old(dom)@, self.edits()[i as int]),
                        self.default_of(self.edits()[i as int].key),
                    ),
                    },
                ),
            ),
    {
        let ghost f = dom@;
        let edit = &self.edits[i];
        let ghost e = self.edits()[i as int];
        assert(e == edit@);
        let dd = edit.dd;
        // Replace the trailing period with a separating colon.
        if edit.has_special_semantics {
            let n = dom.children(dd).len();
            if n > 0 {
                let last = dom.children(dd)[n - 1];
                assert(f[dd as int].children[n - 1] < f.len());
                let text: Option<String> = match dom.data(last) {
                    NodeData::Text { contents } => Some(replace_full_stop(&chars_of(contents.as_str()))),
                    _ => None,
                };
                match text {
                    Some(t) => {
                        dom.replace_text(last, t);
                    },
                    None => {},
                }
            }
        }
        let ghost f1 = dom@;
        assert(f1 == led_over(f, e));
        let mut kids: Vec<NodeId> = Vec::new();
        let ghost mut trees: Seq<Tree> = Seq::empty();
        proof {
            assert(shapes(f1, kids@) =~= trees);
            assert(kids_built(f1, dom@, kids@, trees));
        }
        if !edit.has_special_semantics {
            // Insert an em dash.
            let dash = build_text(dom, " \u{2014} ");
            proof {
                lemma_kids_grow(f1, f1, dom@, kids@, trees, dash, text_shape(" \u{2014} "@));
                trees = trees.push(text_shape(" \u{2014} "@));
            }
            kids.push(dash);
        }
        match fragment {
            Some((arena, nodes)) => {
                let ghost fa = dom@;
                let copies = adopt_fragment(dom, &arena, &nodes);
                let mut copies = copies;
                proof {
                    let goal = shapes(arena@, nodes@);
                    assert(shapes(dom@, copies@) =~= goal);
                    lemma_kids_join(f1, fa, dom@, kids@, trees, copies@, goal);
                    trees = trees + goal;
                }
                kids.append(&mut copies);
            },
            None => {
                let idx = match self.attributes.position(edit.key.as_str()) {
                    Some(idx) => idx,
                    None => 0,
                };
                proof {
                    crate::string_map::lemma_sorted_index(self.keys(), idx as int);
                    assert(self.descriptions()[idx as int] == self.attributes.values()[idx as int]@);
                }
                let descriptions = self.attributes.value(idx);
                let ghost stored = descriptions@.default;
                let ghost goal = shapes(f1, stored);
                let mut k: usize = 0;
                let ghost base_trees = trees;
                proof {
                    assert(trees =~= base_trees + goal.take(0));
                }
                while k < descriptions.default.len()
                    invariant
                        dom.wf(),
                        well_formed(f),
                        well_formed(f1),
                        k <= descriptions.default.len(),
                        stored == descriptions@.default,
                        stored == descriptions.default@,
                        goal == shapes(f1, stored),
                        forall|j: int| 0 <= j < stored.len() ==> stored[j] < f.len(),
                        f1.len() == f.len(),
                        forall|x: int| 0 <= x < f.len() ==> (#[trigger] f1[x]).children == f[x].children,
                        kids_built(f1, dom@, kids@, trees),
                        trees == base_trees + goal.take(k as int),
                        f1 == led_over(f, e),
                    decreases descriptions.default.len() - k,
                {
                    let ghost fa = dom@;
                    let n = descriptions.default[k];
                    assert(stored[k as int] < f.len());
                    let copy = dom.deep_clone(n);
                    proof {
                        assert forall|x: NodeId| x < f1.len() implies same_links(f1[x as int], #[trigger] fa[x as int]) by {}
                        lemma_prefix_subtree(f1, fa, n);
                        assert(built(fa, dom@, copy, goal[k as int]));
                        lemma_kids_grow(f1, fa, dom@, kids@, trees, copy, goal[k as int]);
                        trees = trees.push(goal[k as int]);
                        assert(trees =~= base_trees + goal.take(k + 1));
                    }
                    kids.push(copy);
                    k += 1;
                }
                proof {
                    assert(goal.take(k as int) =~= goal);
                }
            },
        }
        // Insert the description.
        let ghost g = dom@;
        proof {
            lemma_kids_free(f1, g, kids@, trees);
            assert(g[dd as int] == f1[dd as int]);
            assert forall|c: int| 0 <= c < kids@.len() implies !reaches(g, #[trigger] kids@[c], dd) by {}
            assert(adoptable(g, dd, kids@));
        }
        dom.append_children(dd, kids);
        proof {
            let e = self.edits()[i as int];
            assert(trees =~= appended(
                e,
                match fragment {
                    Some((arena, nodes)) => shapes(arena@, nodes@),
                    None => shapes(led_over(f, e), self.default_of(e.key)),
                },
            ));
            assert(kids_built(led_over(f, e), g, kids@, trees));
        }
    }
}

/// The first child of `node` that is the HTML element `name`.
fn first_child_named(dom: &Dom, node: NodeId, name: &str) -> (child: Option<NodeId>)
    requires
        dom.wf(),
        node < dom@.len(),
    ensures
        child == first_html_child(dom@, dom@[node as int].children, name@, 0),
        match child {
            Some(c) => c < dom@.len(),
            None => true,
        },
{
    let children = dom.children(node);
    let mut k: usize = 0;
    while k < children.len()
        invariant
            dom.wf(),
            node < dom@.len(),
            children@ == dom@[node as int].children,
            k <= children.len(),
            first_html_child(dom@, children@, name@, 0) == first_html_child(dom@, children@, name@, k as int),
        decreases children.len() - k,
    {
        assert(dom@[node as int].children[k as int] < dom@.len());
        if dom.is_html_element(children[k], name) {
            return Some(children[k]);
        }
        k += 1;
    }
    None
}

/// The first two `<td>` children of `row`, if it has two.
fn first_two_cells(dom: &Dom, row: NodeId) -> (cells: Option<(NodeId, NodeId)>)
    requires
        dom.wf(),
        row < dom@.len(),
    ensures
        cells == two_cells(dom@, row),
        match cells {
            Some((a, b)) => a < dom@.len() && b < dom@.len(),
            None => true,
        },
{
    let children = dom.children(row);
    let ghost f = dom@;
    let ghost ch = children@;
    let mut first: Option<NodeId> = None;
    let mut k: usize = 0;
    while k < children.len()
        invariant
            dom.wf(),
            f == dom@,
            row < f.len(),
            ch == children@,
            ch == f[row as int].children,
            k <= children.len(),
            match first {
                Some(a) => a < f.len() && cells_from(f, ch, 0) == seq![a] + cells_from(f, ch, k as int),
                None => cells_from(f, ch, 0) == cells_from(f, ch, k as int),
            },
        decreases children.len() - k,
    {
        let c = children[k];
        assert(f[row as int].children[k as int] < f.len());
        if dom.is_html_element(c, "td") {
            match first {
                Some(a) => {
                    proof {
                        let cells = cells_from(f, ch, 0);
                        let rest = cells_from(f, ch, k + 1);
                        assert(cells =~= seq![a] + (seq![c] + rest));
                        assert(cells[0] == a && cells[1] == c);
                    }
                    return Some((a, c));
                },
                None => {
                    first = Some(c);
                },
            }
        }
        k += 1;
    }
    proof {
        assert(cells_from(f, ch, k as int) =~= Seq::<NodeId>::empty());
        match first {
            Some(a) => {
                assert(cells_from(f, ch, 0) =~= seq![a]);
            },
            None => {},
        }
    }
    None
}

/// The descriptions that one row asks to join, appended to `out`.
fn plan_row(dom: &Dom, keys_td: NodeId, description_td: NodeId, out: &mut Vec<PlanItem>)
    requires
        dom.wf(),
        keys_td < dom@.len(),
        description_td < dom@.len(),
    ensures
        item_views(final(out)@) == item_views(old(out)@) + row_plan(
            dom@,
            dom@[keys_td as int].children,
            0,
            Set::empty(),
            description_td,
        ),
        forall|j: int|
            old(out)@.len() <= j < final(out)@.len() ==> (#[trigger] item_views(final(out)@)[j]).td
                == description_td,
{
    let ghost f = dom@;
    let ghost start = item_views(out@);
    let data_x = QualName::attribute("data-x");
    // Find the <!-- or: --> comment, if one exists, and extract its contents.
    let (skip, variant): (Option<NodeId>, Option<String>) = match find_variant(dom, description_td) {
        Some((node, text)) => (Some(node), Some(text)),
        None => (None, None),
    };
    // If a single row describes the same element multiple times, we don't need to repeat it.
    let mut seen_this_row = StringSet::new();
    // These will be strings like "attr-input-maxlength", which identify particular element-attribute pairs.
    let nodes = dom.children(keys_td);
    let mut k: usize = 0;
    let ghost n0 = out@.len();
    while k < nodes.len()
        invariant
            dom.wf(),
            f == dom@,
            keys_td < f.len(),
            description_td < f.len(),
            nodes@ == f[keys_td as int].children,
            k <= nodes.len(),
            data_x@ == attribute_name("data-x"@),
            skip == last_variant(f, f[description_td as int].children),
            match variant {
                Some(v) => variant_of_cell(f, description_td) == Some(v@),
                None => variant_of_cell(f, description_td) is None,
            },
            n0 <= out@.len(),
            n0 == start.len(),
            forall|j: int| n0 <= j < out@.len() ==> (#[trigger] item_views(out@)[j]).td == description_td,
            item_views(out@) + row_plan(f, nodes@, k as int, seen_this_row@, description_td) == start + row_plan(
                f,
                nodes@,
                0,
                Set::empty(),
                description_td,
            ),
        decreases nodes.len() - k,
    {
        let c = nodes[k];
        assert(f[keys_td as int].children[k as int] < f.len());
        let ghost before = item_views(out@);
        let ghost seen = seen_this_row@;
        match dom.get_attribute(c, &data_x) {
            Some(attr_key) => {
                // If this row describes the the same attribute, with the same
                // identifier, for multiple elements (like attr-fae-form and
                // attr-dim-width), these aren't actually distinct descriptions
                // and we need not join them.
                if attr_key.as_str().unicode_len() > 0 && !seen_this_row.contains(attr_key.as_str()) {
                    seen_this_row.insert(attr_key.clone());
                    let item = PlanItem {
                        key: attr_key,
                        td: description_td,
                        skip,
                        variant: match &variant {
                            Some(v) => Some(v.clone()),
                            None => None,
                        },
                    };
                    out.push(item);
                    proof {
                        assert(item@ == plan_item(f, attr_key@, description_td));
                        assert(item_views(out@) =~= before.push(item@));
                        assert(item_views(out@) + row_plan(
                            f,
                            nodes@,
                            k + 1,
                            seen.insert(attr_key@),
                            description_td,
                        ) =~= before + (seq![item@] + row_plan(
                            f,
                            nodes@,
                            k + 1,
                            seen.insert(attr_key@),
                            description_td,
                        )));
                    }
                }
            },
            None => {},
        }
        k += 1;
    }
    proof {
        assert(item_views(out@) + Seq::<PlanItemView>::empty() =~= item_views(out@));
    }
}

/// The descriptions that the table asks to join.
fn plan_table(dom: &Dom, table: NodeId) -> (plan: Vec<PlanItem>)
    requires
        dom.wf(),
        table < dom@.len(),
    ensures
        item_views(plan@) == table_plan(dom@, table),
        forall|j: int| 0 <= j < plan@.len() ==> (#[trigger] item_views(plan@)[j]).td < dom@.len(),
{
    let ghost f = dom@;
    let mut plan: Vec<PlanItem> = Vec::new();
    proof {
        assert(item_views(plan@) =~= Seq::<PlanItemView>::empty());
    }
    let tbody = match first_child_named(dom, table, "tbody") {
        Some(t) => t,
        None => {
            return plan;
        },
    };
    let rows = dom.children(tbody);
    let mut r: usize = 0;
    while r < rows.len()
        invariant
            dom.wf(),
            f == dom@,
            tbody < f.len(),
            rows@ == f[tbody as int].children,
            r <= rows.len(),
            forall|j: int| 0 <= j < plan@.len() ==> (#[trigger] item_views(plan@)[j]).td < f.len(),
            item_views(plan@) + rows_plan(f, rows@, r as int) == rows_plan(f, rows@, 0),
        decreases rows.len() - r,
    {
        let row = rows[r];
        assert(f[tbody as int].children[r as int] < f.len());
        let ghost before = item_views(plan@);
        if dom.is_html_element(row, "tr") {
            match first_two_cells(dom, row) {
                Some((keys_td, description_td)) => {
                    plan_row(dom, keys_td, description_td, &mut plan);
                    proof {
                        let added = row_plan(f, f[keys_td as int].children, 0, Set::empty(), description_td);
                        assert(item_views(plan@) + rows_plan(f, rows@, r + 1) =~= before + (added + rows_plan(
                            f,
                            rows@,
                            r + 1,
                        )));
                        assert forall|j: int| 0 <= j < plan@.len() implies (#[trigger] item_views(plan@)[j]).td
                            < f.len() by {
                            if j < before.len() {
                                assert(item_views(plan@)[j] == before[j]);
                            }
                        }
                    }
                },
                None => {},
            }
        }
        r += 1;
    }
    proof {
        assert(item_views(plan@) + Seq::<PlanItemView>::empty() =~= item_views(plan@));
    }
    plan
}

/// Kids that were built, followed by kids that were built after them.
pub proof fn lemma_kids_join(
    base: Forest,
    f: Forest,
    f2: Forest,
    kids: Seq<NodeId>,
    trees: Seq<Tree>,
    more: Seq<NodeId>,
    more_trees: Seq<Tree>,
)
    requires
        kids_built(base, f, kids, trees),
        kids_built(f, f2, more, more_trees),
    ensures
        kids_built(base, f2, kids + more, trees + more_trees),
{
    crate::construct::lemma_extends_keeps(f, f2, kids);
    let k2 = kids + more;
    let t2 = trees + more_trees;
    assert forall|i: int| 0 <= i < k2.len() implies shapes(f2, k2)[i] == t2[i] by {
        if i < kids.len() {
            assert(shapes(f2, kids)[i] == trees[i]);
        } else {
            assert(shapes(f2, more)[i - kids.len()] == more_trees[i - kids.len()]);
        }
    }
    assert(shapes(f2, k2) =~= t2);
    assert forall|x: int| 0 <= x < base.len() implies #[trigger] f2[x] == base[x] by {
        assert(f[x] == base[x]);
    }
    assert forall|x: NodeId| x < f.len() implies same_links(f[x as int], #[trigger] f2[x as int]) by {}
    assert forall|i: int, x: NodeId| 0 <= i < k2.len() && #[trigger] reaches(f2, k2[i], x) implies x
        >= base.len() by {
        if i < kids.len() {
            lemma_prefix_subtree(f, f2, kids[i]);
            assert(reaches(f, kids[i], x));
        } else {
            assert(reaches(f2, more[i - kids.len()], x));
        }
    }
    assert forall|i: int, j: int| 0 <= i < j < k2.len() implies k2[i] < k2[j] by {
        if i < kids.len() && j >= kids.len() {
            assert(kids[i] < f.len());
            assert(more[j - kids.len()] >= f.len());
        } else if i < kids.len() {
            assert(kids[i] < kids[j]);
        } else {
            assert(more[i - kids.len()] < more[j - kids.len()]);
        }
    }
}

} // verus!
