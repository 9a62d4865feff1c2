//! The block structure of a Markdown text.
//!
//! The text is parsed by `tree_sitter_md`; what the editor reads of the tree
//! is kept as a plain list of nodes in document order, each with its kind, its
//! byte range and the index of its parent.

use tree_sitter_md::{MarkdownParser, MarkdownTree};
use vstd::prelude::*;

use crate::text::{boundary, is_boundary, str_eq, NEWLINE};

verus! {

/// The tree that `tree_sitter_md` builds.
#[verifier::external_type_specification]
#[verifier::external_body]
pub struct ExMarkdownTree(tree_sitter_md::MarkdownTree);

/// What kind of block a node is, as far as the editor tells kinds apart.
#[derive(Clone, Copy, Debug, PartialEq, Eq, Structural)]
pub enum NodeKind {
    Document,
    Error,
    BlockQuote,
    BlockQuoteMarker,
    BlockContinuation,
    List,
    ListItem,
    ListMarkerMinus,
    ListMarkerPlus,
    ListMarkerStar,
    ListMarkerDot,
    ListMarkerParenthesis,
    TaskChecked,
    TaskUnchecked,
    FencedCodeBlock,
    FencedCodeBlockDelimiter,
    InfoString,
    HeadingMarker1,
    HeadingMarker2,
    HeadingMarker3,
    HeadingMarker4,
    HeadingMarker5,
    HeadingMarker6,
    Other,
}

/// A node of the block structure.
#[derive(Clone, Copy, Debug, PartialEq, Eq, Structural)]
pub struct SyntaxNode {
    pub kind: NodeKind,
    pub start: usize,
    pub end: usize,
    pub parent: Option<usize>,
}

/// A node as the parser reports it: kind, start, end and depth.
pub type RawNode = (Seq<char>, usize, usize, usize);

/// The nodes of the block tree of `text` in document order, parents before
/// children; `None` when the parser gives no tree.
pub uninterp spec fn markdown_nodes(text: Seq<u8>) -> Option<Seq<(Seq<char>, usize, usize, usize)>>;

/// The place in `markdown_nodes(text)` of the smallest node that spans the
/// bytes from `start` to `end`.
pub uninterp spec fn smallest_node(text: Seq<u8>, start: usize, end: usize) -> Option<usize>;

/// The text that a tree was parsed from.
pub uninterp spec fn tree_source(tree: MarkdownTree) -> Seq<u8>;

/// Parses a text.
///
/// Calls `MarkdownParser::parse` on a fresh parser. Claimed: whether a tree
/// comes out depends on the text alone (`markdown_nodes`), and the tree is
/// that text's.
#[verifier::external_body]
fn parse_markdown(text: &[u8]) -> (r: Option<MarkdownTree>)
    ensures
        r is Some <==> markdown_nodes(text@) is Some,
        r matches Some(tree) ==> tree_source(tree) == text@,
{
    MarkdownParser::default().parse(text, None)
}

/// How many nodes the block tree has.
///
/// Calls `Node::descendant_count` on the root of `MarkdownTree::block_tree`,
/// which counts the root too.
#[verifier::external_body]
fn node_count(tree: &MarkdownTree) -> (r: usize)
    requires
        markdown_nodes(tree_source(*tree)) is Some,
    ensures
        r == markdown_nodes(tree_source(*tree))->0.len(),
{
    tree.block_tree().root_node().descendant_count()
}

/// The kind, start, end and depth of the node at place `i` in document order.
///
/// Calls `TreeCursor::goto_descendant` on a cursor at the root, which moves to
/// the `i`-th node in document order, and reads the node there with
/// `Node::kind`, `Node::start_byte`, `Node::end_byte` and `TreeCursor::depth`.
#[verifier::external_body]
fn node_at(tree: &MarkdownTree, i: usize) -> (r: (String, usize, usize, usize))
    requires
        markdown_nodes(tree_source(*tree)) is Some,
        i < markdown_nodes(tree_source(*tree))->0.len(),
    ensures
        (r.0@, r.1, r.2, r.3) == markdown_nodes(tree_source(*tree))->0[i as int],
{
    let mut cursor = tree.block_tree().walk();
    cursor.goto_descendant(i);
    let node = cursor.node();
    (node.kind().to_string(), node.start_byte(), node.end_byte(), cursor.depth() as usize)
}

/// Whether the node at place `i` is the smallest one that spans a byte range.
///
/// Calls `Node::descendant_for_byte_range` on the root and compares the node
/// it returns with the one that `TreeCursor::goto_descendant` moves to.
#[verifier::external_body]
fn is_smallest_node(tree: &MarkdownTree, i: usize, start: usize, end: usize) -> (r: bool)
    requires
        markdown_nodes(tree_source(*tree)) is Some,
        i < markdown_nodes(tree_source(*tree))->0.len(),
    ensures
        r == (smallest_node(tree_source(*tree), start, end) == Some(i)),
{
    let root = tree.block_tree().root_node();
    let mut cursor = root.walk();
    cursor.goto_descendant(i);
    root.descendant_for_byte_range(start, end) == Some(cursor.node())
}

// ---------------------------------------------------------------------------
// From reported nodes to the library's own
// ---------------------------------------------------------------------------

/// The kind that goes by a name in the grammar.
pub open spec fn kind_named(name: Seq<char>) -> NodeKind {
    if name == "document"@ {
        NodeKind::Document
    } else if name == "ERROR"@ {
        NodeKind::Error
    } else if name == "block_quote"@ {
        NodeKind::BlockQuote
    } else if name == "block_quote_marker"@ {
        NodeKind::BlockQuoteMarker
    } else if name == "block_continuation"@ {
        NodeKind::BlockContinuation
    } else if name == "list"@ {
        NodeKind::List
    } else if name == "list_item"@ {
        NodeKind::ListItem
    } else if name == "list_marker_minus"@ {
        NodeKind::ListMarkerMinus
    } else if name == "list_marker_plus"@ {
        NodeKind::ListMarkerPlus
    } else if name == "list_marker_star"@ {
        NodeKind::ListMarkerStar
    } else if name == "list_marker_dot"@ {
        NodeKind::ListMarkerDot
    } else if name == "list_marker_parenthesis"@ {
        NodeKind::ListMarkerParenthesis
    } else if name == "task_list_marker_checked"@ {
        NodeKind::TaskChecked
    } else if name == "task_list_marker_unchecked"@ {
        NodeKind::TaskUnchecked
    } else if name == "fenced_code_block"@ {
        NodeKind::FencedCodeBlock
    } else if name == "fenced_code_block_delimiter"@ {
        NodeKind::FencedCodeBlockDelimiter
    } else if name == "info_string"@ {
        NodeKind::InfoString
    } else if name == "atx_h1_marker"@ {
        NodeKind::HeadingMarker1
    } else if name == "atx_h2_marker"@ {
        NodeKind::HeadingMarker2
    } else if name == "atx_h3_marker"@ {
        NodeKind::HeadingMarker3
    } else if name == "atx_h4_marker"@ {
        NodeKind::HeadingMarker4
    } else if name == "atx_h5_marker"@ {
        NodeKind::HeadingMarker5
    } else if name == "atx_h6_marker"@ {
        NodeKind::HeadingMarker6
    } else {
        NodeKind::Other
    }
}

/// The kind that goes by a name in the grammar.
fn kind_from_name(name: &str) -> (r: NodeKind)
    ensures
        r == kind_named(name@),
{
    if str_eq(name, "document") {
        NodeKind::Document
    } else if str_eq(name, "ERROR") {
        NodeKind::Error
    } else if str_eq(name, "block_quote") {
        NodeKind::BlockQuote
    } else if str_eq(name, "block_quote_marker") {
        NodeKind::BlockQuoteMarker
    } else if str_eq(name, "block_continuation") {
        NodeKind::BlockContinuation
    } else if str_eq(name, "list") {
        NodeKind::List
    } else if str_eq(name, "list_item") {
        NodeKind::ListItem
    } else if str_eq(name, "list_marker_minus") {
        NodeKind::ListMarkerMinus
    } else if str_eq(name, "list_marker_plus") {
        NodeKind::ListMarkerPlus
    } else if str_eq(name, "list_marker_star") {
        NodeKind::ListMarkerStar
    } else if str_eq(name, "list_marker_dot") {
        NodeKind::ListMarkerDot
    } else if str_eq(name, "list_marker_parenthesis") {
        NodeKind::ListMarkerParenthesis
    } else if str_eq(name, "task_list_marker_checked") {
        NodeKind::TaskChecked
    } else if str_eq(name, "task_list_marker_unchecked") {
        NodeKind::TaskUnchecked
    } else if str_eq(name, "fenced_code_block") {
        NodeKind::FencedCodeBlock
    } else if str_eq(name, "fenced_code_block_delimiter") {
        NodeKind::FencedCodeBlockDelimiter
    } else if str_eq(name, "info_string") {
        NodeKind::InfoString
    } else if str_eq(name, "atx_h1_marker") {
        NodeKind::HeadingMarker1
    } else if str_eq(name, "atx_h2_marker") {
        NodeKind::HeadingMarker2
    } else if str_eq(name, "atx_h3_marker") {
        NodeKind::HeadingMarker3
    } else if str_eq(name, "atx_h4_marker") {
        NodeKind::HeadingMarker4
    } else if str_eq(name, "atx_h5_marker") {
        NodeKind::HeadingMarker5
    } else if str_eq(name, "atx_h6_marker") {
        NodeKind::HeadingMarker6
    } else {
        NodeKind::Other
    }
}

/// Whether the kind is a task box.
pub open spec fn is_task(kind: NodeKind) -> bool {
    kind == NodeKind::TaskChecked || kind == NodeKind::TaskUnchecked
}

/// Whether the bytes at `i` can be a task box: brackets around one ASCII
/// character that does not end the line.
pub open spec fn box_fits(text: Seq<u8>, i: int) -> bool {
    &&& 0 <= i && i + 3 <= text.len()
    &&& text[i] == 91
    &&& text[i + 1] < 128 && text[i + 1] != NEWLINE
    &&& text[i + 2] == 93
}

/// Whether the kind is a list bullet or a quote marker.
pub open spec fn is_line_marker(kind: NodeKind) -> bool {
    match kind {
        NodeKind::BlockQuoteMarker => true,
        NodeKind::ListMarkerMinus => true,
        NodeKind::ListMarkerPlus => true,
        NodeKind::ListMarkerStar => true,
        NodeKind::ListMarkerDot => true,
        NodeKind::ListMarkerParenthesis => true,
        _ => false,
    }
}

/// Whether the bytes from `start` to `end` can be a list bullet or a quote marker:
/// no bracket opens among them and no line ends.
pub open spec fn marker_fits(text: Seq<u8>, start: int, end: int) -> bool {
    forall|i: int| start <= i < end ==> #[trigger] text[i] != 91 && text[i] != NEWLINE
}

/// Whether a node of this kind and range can stand in `text`: its ends are
/// character boundaries, and a task box, a list bullet and a quote marker look
/// like one.
pub open spec fn node_fits(text: Seq<u8>, kind: NodeKind, start: int, end: int) -> bool {
    &&& start <= end <= text.len()
    &&& boundary(text, start)
    &&& boundary(text, end)
    &&& is_task(kind) ==> end == start + 3 && box_fits(text, start)
    &&& is_line_marker(kind) ==> marker_fits(text, start, end)
}

/// Whether the depths of nodes are those of a tree in document order, and their
/// ranges fit the text.
pub open spec fn raw_fits(text: Seq<u8>, raw: Seq<RawNode>) -> bool {
    &&& raw.len() > 0
    &&& raw[0].3 == 0
    &&& forall|i: int|
        0 < i < raw.len() ==> 1 <= (#[trigger] raw[i]).3 <= raw[i - 1].3 + 1
    &&& forall|i: int|
        0 <= i < raw.len() ==> node_fits(
            text,
            kind_named((#[trigger] raw[i]).0),
            raw[i].1 as int,
            raw[i].2 as int,
        )
}

/// The last node before place `j` whose depth is less than `depth`.
pub open spec fn shallower_before(raw: Seq<RawNode>, depth: int, j: int) -> Option<usize>
    decreases j,
{
    if j <= 0 {
        None
    } else if raw[j - 1].3 < depth {
        Some((j - 1) as usize)
    } else {
        shallower_before(raw, depth, j - 1)
    }
}

/// The node at place `i`, with its parent.
pub open spec fn node_of(raw: Seq<RawNode>, i: int) -> SyntaxNode {
    SyntaxNode {
        kind: kind_named(raw[i].0),
        start: raw[i].1,
        end: raw[i].2,
        parent: shallower_before(raw, raw[i].3 as int, i),
    }
}

/// The block structure that reported nodes stand for; `None` when they do not fit
/// the text.
pub open spec fn structure_from(text: Seq<u8>, raw: Seq<RawNode>) -> Option<Seq<SyntaxNode>> {
    if raw_fits(text, raw) {
        Some(Seq::new(raw.len(), |i: int| node_of(raw, i)))
    } else {
        None
    }
}

/// The block structure of `text`. `None` when the parser gives no tree, or one
/// whose ranges do not fit the text.
pub open spec fn nodes_of(text: Seq<u8>) -> Option<Seq<SyntaxNode>> {
    match markdown_nodes(text) {
        Some(raw) => structure_from(text, raw),
        None => None,
    }
}

/// Whether the ranges of nodes fit the text.
pub open spec fn nodes_fit(text: Seq<u8>, nodes: Seq<SyntaxNode>) -> bool {
    forall|i: int|
        0 <= i < nodes.len() ==> node_fits(
            text,
            (#[trigger] nodes[i]).kind,
            nodes[i].start as int,
            nodes[i].end as int,
        )
}

/// What holds of every block structure: ranges fit the text, and parents stand
/// before their children.
pub open spec fn structure_ok(text: Seq<u8>, nodes: Seq<SyntaxNode>) -> bool {
    &&& nodes.len() > 0
    &&& nodes_fit(text, nodes)
    &&& forall|i: int|
        0 <= i < nodes.len() ==> ((#[trigger] nodes[i]).parent matches Some(p) ==> p < i)
}

proof fn lemma_shallower(raw: Seq<RawNode>, depth: int, j: int)
    requires
        0 <= j <= raw.len(),
        raw.len() <= usize::MAX,
    ensures
        shallower_before(raw, depth, j) matches Some(p) ==> p < j,
    decreases j,
{
    if j > 0 {
        lemma_shallower(raw, depth, j - 1);
    }
}

/// The nodes of a text fit it.
pub proof fn lemma_nodes_fit(text: Seq<u8>)
    requires
        nodes_of(text) is Some,
    ensures
        nodes_fit(text, nodes_of(text)->0),
{
    let raw = markdown_nodes(text)->0;
    let nodes = nodes_of(text)->0;
    assert forall|i: int| 0 <= i < nodes.len() implies node_fits(
        text,
        (#[trigger] nodes[i]).kind,
        nodes[i].start as int,
        nodes[i].end as int,
    ) by {
        assert(raw[i].1 == nodes[i].start);
    }
}

/// The block structure of a text satisfies `structure_ok`.
pub proof fn lemma_structure(text: Seq<u8>)
    requires
        nodes_of(text) is Some,
        nodes_of(text)->0.len() <= usize::MAX,
    ensures
        structure_ok(text, nodes_of(text)->0),
{
    let raw = markdown_nodes(text)->0;
    let nodes = nodes_of(text)->0;
    lemma_nodes_fit(text);
    assert forall|i: int| 0 <= i < nodes.len() implies ((#[trigger] nodes[i]).parent matches Some(p)
        ==> p < i) by {
        lemma_shallower(raw, raw[i].3 as int, i);
    }
}

fn is_marker_kind(kind: NodeKind) -> (r: bool)
    ensures
        r == is_line_marker(kind),
{
    match kind {
        NodeKind::BlockQuoteMarker => true,
        NodeKind::ListMarkerMinus => true,
        NodeKind::ListMarkerPlus => true,
        NodeKind::ListMarkerStar => true,
        NodeKind::ListMarkerDot => true,
        NodeKind::ListMarkerParenthesis => true,
        _ => false,
    }
}

fn does_marker_fit(text: &[u8], start: usize, end: usize) -> (r: bool)
    requires
        start <= end <= text@.len(),
    ensures
        r == marker_fits(text@, start as int, end as int),
{
    let mut i: usize = start;
    while i < end
        invariant
            start <= i <= end <= text@.len(),
            marker_fits(text@, start as int, i as int),
        decreases end - i,
    {
        if text[i] == 91 || text[i] == NEWLINE {
            return false;
        }
        i = i + 1;
    }
    true
}

fn does_node_fit(text: &[u8], kind: NodeKind, start: usize, end: usize) -> (r: bool)
    ensures
        r == node_fits(text@, kind, start as int, end as int),
{
    if !(start <= end && end <= text.len() && is_boundary(text, start) && is_boundary(text, end)) {
        return false;
    }
    if kind == NodeKind::TaskChecked || kind == NodeKind::TaskUnchecked {
        end - start == 3 && text[start] == 91 && text[start + 1] < 128 && text[start + 1] != NEWLINE
            && text[start + 2] == 93
    } else if is_marker_kind(kind) {
        does_marker_fit(text, start, end)
    } else {
        true
    }
}

/// Reported nodes, as contracts speak of them.
pub open spec fn raw_models(v: Seq<(String, usize, usize, usize)>) -> Seq<RawNode> {
    v.map_values(|n: (String, usize, usize, usize)| (n.0@, n.1, n.2, n.3))
}

/// The last node before place `i` whose depth is less than `depth`.
fn find_shallower(raw: &Vec<(String, usize, usize, usize)>, depth: usize, i: usize) -> (r: Option<
    usize,
>)
    requires
        i <= raw@.len(),
    ensures
        r == shallower_before(raw_models(raw@), depth as int, i as int),
{
    let ghost all = raw_models(raw@);
    let mut j: usize = i;
    while j > 0
        invariant
            j <= i <= raw@.len(),
            all == raw_models(raw@),
            shallower_before(all, depth as int, j as int) == shallower_before(
                all,
                depth as int,
                i as int,
            ),
        decreases j,
    {
        assert(all[j - 1].3 == raw@[j - 1].3);
        if raw[j - 1].3 < depth {
            return Some(j - 1);
        }
        j = j - 1;
    }
    None
}

/// The block structure that reported nodes stand for; `None` when they do not fit
/// the text.
#[verifier::spinoff_prover]
#[verifier::rlimit(30)]
pub fn build_structure(text: &[u8], raw: &Vec<(String, usize, usize, usize)>) -> (r: Option<
    Vec<SyntaxNode>,
>)
    ensures
        match r {
            Some(nodes) => structure_from(text@, raw_models(raw@)) == Some(nodes@),
            None => structure_from(text@, raw_models(raw@)) is None,
        },
{
    let ghost all = raw_models(raw@);
    if raw.len() == 0 {
        return None;
    }
    let mut nodes: Vec<SyntaxNode> = Vec::new();
    let mut i: usize = 0;
    while i < raw.len()
        invariant
            i <= raw@.len(),
            all == raw_models(raw@),
            nodes@.len() == i,
            forall|j: int| 0 <= j < i ==> #[trigger] nodes@[j] == node_of(all, j),
            i > 0 ==> all[0].3 == 0,
            forall|j: int| 0 < j < i ==> 1 <= (#[trigger] all[j]).3 <= all[j - 1].3 + 1,
            forall|j: int|
                0 <= j < i ==> node_fits(
                    text@,
                    kind_named((#[trigger] all[j]).0),
                    all[j].1 as int,
                    all[j].2 as int,
                ),
        decreases raw@.len() - i,
    {
        let start: usize = raw[i].1;
        let end: usize = raw[i].2;
        let depth: usize = raw[i].3;
        let kind = kind_from_name(raw[i].0.as_str());
        assert(all[i as int] == (raw@[i as int].0@, start, end, depth));
        if !does_node_fit(text, kind, start, end) {
            assert(!raw_fits(text@, all));
            return None;
        }
        if i == 0 {
            if depth != 0 {
                return None;
            }
        } else if depth == 0 || depth - 1 > raw[i - 1].3 {
            assert(all[i - 1].3 == raw@[i - 1].3);
            assert(!raw_fits(text@, all));
            return None;
        }
        if i > 0 {
            assert(all[i - 1].3 == raw@[i - 1].3);
        }
        let parent: Option<usize> = find_shallower(raw, depth, i);
        nodes.push(SyntaxNode { kind, start, end, parent });
        i = i + 1;
    }
    assert(raw_fits(text@, all));
    assert(nodes@ =~= Seq::new(all.len(), |k: int| node_of(all, k)));
    Some(nodes)
}

/// A parsed text.
pub struct SyntaxTree {
    raw: MarkdownTree,
    nodes: Vec<SyntaxNode>,
}

impl SyntaxTree {
    /// Whether this is the tree of `text`.
    pub closed spec fn of(&self, text: Seq<u8>) -> bool {
        &&& tree_source(self.raw) == text
        &&& markdown_nodes(text) is Some
        &&& nodes_of(text) == Some(self.nodes@)
    }

    /// The text that was parsed.
    pub closed spec fn source(&self) -> Seq<u8> {
        tree_source(self.raw)
    }

    /// The nodes in document order.
    pub closed spec fn list(&self) -> Seq<SyntaxNode> {
        self.nodes@
    }

    /// The tree of a text has the text's block structure.
    pub proof fn lemma_of(&self, text: Seq<u8>)
        requires
            self.of(text),
        ensures
            self.source() == text,
            nodes_of(text) == Some(self.list()),
            structure_ok(text, self.list()),
            self.list().len() <= usize::MAX,
    {
        assert(self.nodes@.len() == self.nodes.len());
        lemma_structure(text);
    }

    /// Parses a text; `None` when it has no block structure.
    pub fn parse(text: &[u8]) -> (r: Option<SyntaxTree>)
        ensures
            match r {
                Some(t) => t.of(text@),
                None => nodes_of(text@) is None,
            },
    {
        let raw = match parse_markdown(text) {
            Some(t) => t,
            None => {
                return None;
            },
        };
        let n: usize = node_count(&raw);
        let mut found: Vec<(String, usize, usize, usize)> = Vec::new();
        let ghost all = markdown_nodes(text@)->0;
        let mut i: usize = 0;
        while i < n
            invariant
                i <= n,
                n == all.len(),
                markdown_nodes(text@) == Some(all),
                tree_source(raw) == text@,
                found@.len() == i,
                forall|j: int|
                    0 <= j < i ==> #[trigger] raw_models(found@)[j] == all[j],
            decreases n - i,
        {
            let node = node_at(&raw, i);
            let ghost before = raw_models(found@);
            let ghost model = (node.0@, node.1, node.2, node.3);
            found.push(node);
            assert(raw_models(found@) =~= before.push(model));
            i = i + 1;
        }
        assert(raw_models(found@) =~= all);
        match build_structure(text, &found) {
            Some(nodes) => Some(SyntaxTree { raw, nodes }),
            None => None,
        }
    }

    /// The nodes in document order.
    pub fn nodes(&self) -> (r: &Vec<SyntaxNode>)
        ensures
            r@ == self.list(),
    {
        &self.nodes
    }

    /// The smallest node that spans the bytes from `start` to `end`.
    pub fn spanning(&self, start: usize, end: usize) -> (r: Option<usize>)
        requires
            self.of(self.source()),
        ensures
            r == node_spanning(self.source(), start, end),
    {
        let ghost text = self.source();
        let mut i: usize = 0;
        while i < self.nodes.len()
            invariant
                i <= self.nodes@.len(),
                text == tree_source(self.raw),
                self.of(text),
                forall|j: usize| 0 <= j < i ==> smallest_node(text, start, end) != Some(j),
            decreases self.nodes@.len() - i,
        {
            if is_smallest_node(&self.raw, i, start, end) {
                return Some(i);
            }
            i = i + 1;
        }
        None
    }
}

/// The place of the smallest node that spans the bytes from `start` to `end`;
/// `None` when the text has no block structure or no node spans them.
pub open spec fn node_spanning(text: Seq<u8>, start: usize, end: usize) -> Option<usize> {
    match (nodes_of(text), smallest_node(text, start, end)) {
        (Some(nodes), Some(i)) => if i < nodes.len() {
            Some(i)
        } else {
            None
        },
        _ => None,
    }
}

proof fn lemma_nearest_shallower(raw: Seq<RawNode>, depth: int, j: int)
    requires
        0 <= j <= raw.len() <= usize::MAX,
    ensures
        match shallower_before(raw, depth, j) {
            Some(p) => p < j && raw[p as int].3 < depth && forall|x: int|
                p < x < j ==> (#[trigger] raw[x]).3 >= depth,
            None => forall|x: int| 0 <= x < j ==> (#[trigger] raw[x]).3 >= depth,
        },
    decreases j,
{
    if j > 0 && raw[j - 1].3 >= depth {
        lemma_nearest_shallower(raw, depth, j - 1);
    }
}

/// The parent of a node is the nearest node before it that lies less deep. A node
/// keeps its name's kind and its range.
pub proof fn law_parent_is_the_nearest_shallower_node(
    text: Seq<u8>,
    raw: Seq<RawNode>,
    nodes: Seq<SyntaxNode>,
    i: int,
)
    requires
        raw.len() <= usize::MAX,
        structure_from(text, raw) == Some(nodes),
        0 <= i < nodes.len(),
    ensures
        nodes.len() == raw.len(),
        nodes[i].kind == kind_named(raw[i].0),
        nodes[i].start == raw[i].1,
        nodes[i].end == raw[i].2,
        match nodes[i].parent {
            Some(p) => p < i && raw[p as int].3 < raw[i].3 && forall|x: int|
                p < x < i ==> (#[trigger] raw[x]).3 >= raw[i].3,
            None => i == 0,
        },
{
    lemma_nearest_shallower(raw, raw[i].3 as int, i);
    assert(nodes[i] == node_of(raw, i));
    if i > 0 {
        assert(raw[0].3 == 0);
        assert(1 <= raw[i].3);
    }
}

} // verus!
