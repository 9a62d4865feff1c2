//! What surrounds a place in the text: the containers it stands in, and the
//! line prefixes that fit under the line above it.

use vstd::prelude::*;
use vstd::utf8::*;

use crate::buffer::Buffer;
use crate::line_scan::{
    block_language, child_of_kind, find_child, list_kind, list_marker_kind, node_text,
    read_language,
};
use crate::lines::{lemma_line_begin, line_begin, line_of, line_start};
use crate::marker::{
    increment_ordered_marker, incremented, reset_ordered_marker, restarted, KindModel, MarkerKind,
};
use crate::outline::{
    ancestor, box_of, find_ancestor, find_last_list_item, find_sibling_before, is_child,
    last_item, node_box, parents_first, sibling_before,
};
use crate::text::{
    lemma_ascii_valid, lemma_pieces_valid, push_bytes, slice_bytes, spaces, spaces_of, NEWLINE,
    SPACE,
};
use crate::tree::{node_fits, node_spanning, nodes_of, structure_ok, NodeKind, SyntaxNode};

verus! {

/// Node `i` and its ancestors, the outermost first.
pub open spec fn lineage(nodes: Seq<SyntaxNode>, i: int) -> Seq<int>
    decreases i,
{
    if !(0 <= i < nodes.len()) {
        Seq::<int>::empty()
    } else {
        match nodes[i].parent {
            Some(p) => if p < i {
                lineage(nodes, p as int).push(i)
            } else {
                seq![i]
            },
            None => seq![i],
        }
    }
}

/// The bullet of node `parent` among the first `n` nodes: its last child that
/// is one.
pub open spec fn bullet_of(
    text: Seq<u8>,
    nodes: Seq<SyntaxNode>,
    parent: int,
    n: int,
) -> Option<KindModel>
    decreases n,
{
    if n <= 0 {
        None
    } else if nodes[n - 1].parent == Some(parent as usize) && list_kind(
        text,
        nodes[n - 1],
    ) is Some {
        list_kind(text, nodes[n - 1])
    } else {
        bullet_of(text, nodes, parent, n - 1)
    }
}

/// The state of the task box of node `parent` among the first `n` nodes: its
/// last child that is one.
pub open spec fn task_of(nodes: Seq<SyntaxNode>, parent: int, n: int) -> Option<bool>
    decreases n,
{
    if n <= 0 {
        None
    } else if nodes[n - 1].parent == Some(parent as usize) && box_of(nodes[n - 1]) is Some {
        Some(box_of(nodes[n - 1])->0.checked)
    } else {
        task_of(nodes, parent, n - 1)
    }
}

/// What node `i` adds to the context of what stands in it: a quote, a bullet
/// and its task box, or a code fence with its language.
pub open spec fn own_context(text: Seq<u8>, nodes: Seq<SyntaxNode>, i: int) -> Seq<KindModel> {
    let all = nodes.len() as int;
    match nodes[i].kind {
        NodeKind::BlockQuote => seq![KindModel::BlockQuote],
        NodeKind::ListItem => (match bullet_of(text, nodes, i, all) {
            Some(k) => seq![k],
            None => Seq::<KindModel>::empty(),
        }) + (match task_of(nodes, i, all) {
            Some(checked) => seq![KindModel::Checkbox { checked }],
            None => Seq::<KindModel>::empty(),
        }),
        NodeKind::FencedCodeBlock => seq![
            KindModel::CodeBlockFence {
                language: block_language(text, nodes, i),
                is_opening: true,
            },
        ],
        _ => Seq::<KindModel>::empty(),
    }
}

/// What the first `n` nodes of a lineage add up to.
pub open spec fn context_along(
    text: Seq<u8>,
    nodes: Seq<SyntaxNode>,
    line: Seq<int>,
    n: int,
) -> Seq<KindModel>
    decreases n,
{
    if n <= 0 {
        Seq::<KindModel>::empty()
    } else {
        context_along(text, nodes, line, n - 1) + own_context(text, nodes, line[n - 1])
    }
}

/// The containers that node `i` stands in, the outermost first.
pub open spec fn containers_of(text: Seq<u8>, nodes: Seq<SyntaxNode>, i: int) -> Seq<KindModel> {
    let line = lineage(nodes, i);
    context_along(text, nodes, line, line.len() as int)
}

/// Where the context of an offset is looked up: one byte back when nothing but
/// the document spans the offset.
pub open spec fn context_offset(text: Seq<u8>, nodes: Seq<SyntaxNode>, off: usize) -> usize {
    let bare = match node_spanning(text, off, off) {
        Some(i) => nodes[i as int].kind == NodeKind::Document,
        None => true,
    };
    if off > 0 && bare {
        (off - 1) as usize
    } else {
        off
    }
}

/// The containers around an offset, the outermost first.
pub open spec fn nested_context(text: Seq<u8>, off: usize) -> Seq<KindModel> {
    match nodes_of(text) {
        Some(nodes) => {
            let at = context_offset(text, nodes, off);
            match node_spanning(text, at, at) {
                Some(i) => containers_of(text, nodes, i as int),
                None => Seq::<KindModel>::empty(),
            }
        },
        None => Seq::<KindModel>::empty(),
    }
}

/// Node `i` and its ancestors, the innermost first.
fn find_lineage(nodes: &Vec<SyntaxNode>, i: usize) -> (r: Vec<usize>)
    requires
        parents_first(nodes@),
        i < nodes@.len(),
    ensures
        r@.len() == lineage(nodes@, i as int).len(),
        forall|k: int|
            0 <= k < r@.len() ==> #[trigger] r@[k] == lineage(nodes@, i as int)[r@.len() - 1 - k]
                && r@[k] < nodes@.len(),
{
    let mut out: Vec<usize> = Vec::new();
    let mut k: usize = i;
    let ghost whole = lineage(nodes@, i as int);
    loop
        invariant_except_break
            parents_first(nodes@),
            k <= i < nodes@.len(),
            whole == lineage(nodes@, i as int),
            lineage(nodes@, k as int).len() + out@.len() == whole.len(),
            forall|j: int|
                0 <= j < lineage(nodes@, k as int).len() ==> #[trigger] whole[j] == lineage(
                    nodes@,
                    k as int,
                )[j],
            forall|j: int|
                0 <= j < out@.len() ==> #[trigger] out@[j] == whole[whole.len() - 1 - j] && out@[j]
                    < nodes@.len(),
        ensures
            out@.len() == whole.len(),
            forall|j: int|
                0 <= j < out@.len() ==> #[trigger] out@[j] == whole[whole.len() - 1 - j] && out@[j]
                    < nodes@.len(),
        decreases k,
    {
        let ghost here = lineage(nodes@, k as int);
        assert(here.last() == k);
        assert(whole[here.len() - 1] == here[here.len() - 1]);
        out.push(k);
        match nodes[k].parent {
            Some(p) => {
                assert(nodes@[k as int].parent == Some(p));
                assert(here.drop_last() =~= lineage(nodes@, p as int));
                assert forall|j: int| 0 <= j < lineage(nodes@, p as int).len() implies #[trigger]
                    whole[j] == lineage(nodes@, p as int)[j] by {
                    assert(whole[j] == here[j]);
                }
                k = p;
            },
            None => {
                break;
            },
        }
    }
    out
}

/// The bullet of a node.
fn find_bullet(text: &[u8], nodes: &Vec<SyntaxNode>, parent: usize) -> (r: Option<MarkerKind>)
    requires
        structure_ok(text@, nodes@),
    ensures
        match r {
            Some(k) => bullet_of(text@, nodes@, parent as int, nodes@.len() as int) == Some(k@),
            None => bullet_of(text@, nodes@, parent as int, nodes@.len() as int) is None,
        },
{
    let mut n: usize = nodes.len();
    while n > 0
        invariant
            n <= nodes@.len(),
            structure_ok(text@, nodes@),
            bullet_of(text@, nodes@, parent as int, n as int) == bullet_of(
                text@,
                nodes@,
                parent as int,
                nodes@.len() as int,
            ),
        decreases n,
    {
        let node: SyntaxNode = nodes[n - 1];
        assert(node_fits(text@, nodes@[n - 1].kind, node.start as int, node.end as int));
        if is_child(&node, parent) {
            if let Some(k) = list_marker_kind(text, &node) {
                return Some(k);
            }
        }
        n = n - 1;
    }
    None
}

/// The state of a node's task box.
fn find_task(nodes: &Vec<SyntaxNode>, parent: usize) -> (r: Option<bool>)
    ensures
        r == task_of(nodes@, parent as int, nodes@.len() as int),
{
    let mut n: usize = nodes.len();
    while n > 0
        invariant
            n <= nodes@.len(),
            task_of(nodes@, parent as int, n as int) == task_of(
                nodes@,
                parent as int,
                nodes@.len() as int,
            ),
        decreases n,
    {
        if is_child(&nodes[n - 1], parent) {
            if let Some(b) = node_box(&nodes[n - 1]) {
                return Some(b.checked);
            }
        }
        n = n - 1;
    }
    None
}

/// Appends what a node adds to the context of what stands in it.
fn push_own_context(out: &mut Vec<MarkerKind>, text: &[u8], nodes: &Vec<SyntaxNode>, i: usize)
    requires
        valid_utf8(text@),
        structure_ok(text@, nodes@),
        i < nodes@.len(),
    ensures
        final(out)@.map_values(|k: MarkerKind| k@) == old(out)@.map_values(|k: MarkerKind| k@)
            + own_context(text@, nodes@, i as int),
{
    let ghost before = out@.map_values(|k: MarkerKind| k@);
    match nodes[i].kind {
        NodeKind::BlockQuote => {
            out.push(MarkerKind::BlockQuote);
            assert(out@.map_values(|k: MarkerKind| k@) =~= before + seq![KindModel::BlockQuote]);
        },
        NodeKind::ListItem => {
            let bullet = find_bullet(text, nodes, i);
            let task = find_task(nodes, i);
            let ghost first = match bullet_of(text@, nodes@, i as int, nodes@.len() as int) {
                Some(k) => seq![k],
                None => Seq::<KindModel>::empty(),
            };
            if let Some(k) = bullet {
                out.push(k);
            }
            assert(out@.map_values(|k: MarkerKind| k@) =~= before + first);
            if let Some(checked) = task {
                out.push(MarkerKind::Checkbox { checked });
                assert(out@.map_values(|k: MarkerKind| k@) =~= before + (first + seq![
                    KindModel::Checkbox { checked },
                ]));
            } else {
                assert(before + first =~= before + (first + Seq::<KindModel>::empty()));
            }
        },
        NodeKind::FencedCodeBlock => {
            let language = read_language(text, nodes, i);
            out.push(MarkerKind::CodeBlockFence { language, is_opening: true });
            assert(out@.map_values(|k: MarkerKind| k@) =~= before + own_context(
                text@,
                nodes@,
                i as int,
            ));
        },
        _ => {
            assert(before + Seq::<KindModel>::empty() =~= before);
        },
    }
}

// ---------------------------------------------------------------------------
// Line prefixes
// ---------------------------------------------------------------------------

/// The quote marker that node `i` opens its first line with.
pub open spec fn own_quote(text: Seq<u8>, nodes: Seq<SyntaxNode>, i: int) -> Seq<u8> {
    if nodes[i].kind == NodeKind::BlockQuote {
        match child_of_kind(nodes, i, NodeKind::BlockQuoteMarker, 0) {
            Some(m) => node_text(text, nodes[m]),
            None => Seq::<u8>::empty(),
        }
    } else {
        Seq::<u8>::empty()
    }
}

/// The quote markers of the first `n` nodes of a lineage.
pub open spec fn quotes_along(
    text: Seq<u8>,
    nodes: Seq<SyntaxNode>,
    line: Seq<int>,
    n: int,
) -> Seq<u8>
    decreases n,
{
    if n <= 0 {
        Seq::<u8>::empty()
    } else {
        quotes_along(text, nodes, line, n - 1) + own_quote(text, nodes, line[n - 1])
    }
}

/// A level of list nesting: what opens an item there, where its bullet starts
/// in the text, how long the bullet is, and whether it is numbered.
#[verifier::ext_equal]
pub struct LevelModel {
    pub marker: Seq<u8>,
    pub start: usize,
    pub bullet_len: usize,
    pub ordered: bool,
}

/// A task box as it is written, with the space after it.
pub open spec fn written_box(checked: Option<bool>) -> Seq<u8> {
    if checked == Some(true) {
        seq![91u8, 120u8, 93u8, 32u8]
    } else {
        seq![91u8, 32u8, 93u8, 32u8]
    }
}

/// Whether a node is a numbered bullet.
pub open spec fn numbered(kind: NodeKind) -> bool {
    kind == NodeKind::ListMarkerDot || kind == NodeKind::ListMarkerParenthesis
}

/// Whether a node is a bullet without a number.
pub open spec fn plain_bullet(kind: NodeKind) -> bool {
    kind == NodeKind::ListMarkerMinus || kind == NodeKind::ListMarkerPlus || kind
        == NodeKind::ListMarkerStar
}

/// A level with what one more child of its item adds.
pub open spec fn level_step(
    text: Seq<u8>,
    level: LevelModel,
    child: SyntaxNode,
    checked: Option<bool>,
) -> LevelModel {
    if plain_bullet(child.kind) || numbered(child.kind) {
        LevelModel {
            marker: level.marker + node_text(text, child),
            start: child.start,
            bullet_len: (child.end - child.start) as usize,
            ordered: level.ordered || numbered(child.kind),
        }
    } else if box_of(child) is Some {
        LevelModel { marker: level.marker + written_box(checked), ..level }
    } else {
        level
    }
}

/// The level that list item `item` opens, from its children among the first `n`
/// nodes. A task box is written with the state `checked`.
pub open spec fn level_of(
    text: Seq<u8>,
    nodes: Seq<SyntaxNode>,
    item: int,
    checked: Option<bool>,
    n: int,
) -> LevelModel
    decreases n,
{
    if n <= 0 {
        LevelModel { marker: Seq::<u8>::empty(), start: 0, bullet_len: 0, ordered: false }
    } else {
        let before = level_of(text, nodes, item, checked, n - 1);
        if nodes[n - 1].parent == Some(item as usize) {
            level_step(text, before, nodes[n - 1], checked)
        } else {
            before
        }
    }
}

/// The levels that the first `n` nodes of a lineage open, the outermost first.
pub open spec fn levels_along(
    text: Seq<u8>,
    nodes: Seq<SyntaxNode>,
    line: Seq<int>,
    checked: Option<bool>,
    n: int,
) -> Seq<LevelModel>
    decreases n,
{
    if n <= 0 {
        Seq::<LevelModel>::empty()
    } else {
        let before = levels_along(text, nodes, line, checked, n - 1);
        let level = level_of(text, nodes, line[n - 1], checked, nodes.len() as int);
        if nodes[line[n - 1]].kind == NodeKind::ListItem && level.marker.len() > 0 {
            before.push(level)
        } else {
            before
        }
    }
}

/// How far a level is indented after a prefix of `prefix` bytes.
pub open spec fn indent_of(text: Seq<u8>, level: LevelModel, prefix: int) -> nat {
    let column = level.start - line_begin(text, level.start as int);
    if column < prefix {
        0
    } else {
        (column - prefix) as nat
    }
}

/// What opens the next item of a level.
pub open spec fn next_item(level: LevelModel) -> Seq<u8> {
    if level.ordered {
        incremented(level.marker)
    } else {
        level.marker
    }
}

/// What opens the first item of a level nested in this one.
pub open spec fn nested_item(level: LevelModel) -> Seq<u8> {
    if level.ordered {
        restarted(level.marker)
    } else {
        level.marker
    }
}

/// The prefixes of the first `n` levels: the next item, and a paragraph of the
/// item before it.
pub open spec fn level_prefixes(
    text: Seq<u8>,
    quotes: Seq<u8>,
    levels: Seq<LevelModel>,
    n: int,
) -> Seq<Seq<u8>>
    decreases n,
{
    if n <= 0 {
        Seq::<Seq<u8>>::empty()
    } else {
        let level = levels[n - 1];
        let indent = indent_of(text, level, quotes.len() as int);
        level_prefixes(text, quotes, levels, n - 1).push(
            quotes + spaces_of(indent) + next_item(level),
        ).push(quotes + spaces_of(indent + level.bullet_len as nat))
    }
}

/// The prefixes that fit under a line, in the order in which they are offered:
/// the quote alone; per level the next item and a paragraph; an item one level
/// deeper; nothing.
pub open spec fn prefixes(
    text: Seq<u8>,
    quotes: Seq<u8>,
    levels: Seq<LevelModel>,
) -> Seq<Seq<u8>> {
    if levels.len() == 0 && quotes.len() == 0 {
        seq![Seq::<u8>::empty()]
    } else {
        let first = if quotes.len() > 0 {
            seq![quotes]
        } else {
            Seq::<Seq<u8>>::empty()
        };
        let deeper = if levels.len() > 0 {
            let level = levels.last();
            let indent = indent_of(text, level, quotes.len() as int) + level.bullet_len as nat;
            seq![quotes + spaces_of(indent) + nested_item(level)]
        } else {
            Seq::<Seq<u8>>::empty()
        };
        first + level_prefixes(text, quotes, levels, levels.len() as int) + deeper + seq![
            Seq::<u8>::empty(),
        ]
    }
}

/// The node whose containers count: in an error, the last list item before it.
pub open spec fn context_node(nodes: Seq<SyntaxNode>, i: int) -> int {
    match ancestor(nodes, i, NodeKind::Error) {
        Some(e) => match sibling_before(nodes, e, e) {
            Some(s) => match last_item(nodes, s, nodes.len() as int) {
                Some(item) => item,
                None => i,
            },
            None => i,
        },
        None => i,
    }
}

/// The prefixes that fit under node `i`. A task box is written with the state
/// `checked`.
pub open spec fn prefixes_under(
    text: Seq<u8>,
    nodes: Seq<SyntaxNode>,
    i: int,
    checked: Option<bool>,
) -> Seq<Seq<u8>> {
    let line = lineage(nodes, context_node(nodes, i));
    let all = line.len() as int;
    prefixes(
        text,
        quotes_along(text, nodes, line, all),
        levels_along(text, nodes, line, checked, all),
    )
}

/// The prefixes that the line at an offset can have, by what stands above it.
pub open spec fn cycle_states(
    text: Seq<u8>,
    off: usize,
    checked: Option<bool>,
) -> Seq<Seq<u8>> {
    let start = line_start(text, line_of(text, off as int));
    let at = if start > 0 {
        (start - 1) as usize
    } else {
        0
    };
    match (nodes_of(text), node_spanning(text, at, at)) {
        (Some(nodes), Some(i)) => prefixes_under(text, nodes, i as int, checked),
        _ => seq![Seq::<u8>::empty()],
    }
}

/// Rows of bytes, as contracts speak of them.
pub open spec fn rows(v: Seq<Vec<u8>>) -> Seq<Seq<u8>> {
    v.map_values(|r: Vec<u8>| r@)
}

/// Whether a row is valid UTF-8 without a newline.
pub open spec fn tidy(p: Seq<u8>) -> bool {
    valid_utf8(p) && forall|i: int| 0 <= i < p.len() ==> #[trigger] p[i] != NEWLINE
}

/// Whether every row is valid UTF-8 without a newline.
pub open spec fn rows_tidy(v: Seq<Seq<u8>>) -> bool {
    forall|i: int| 0 <= i < v.len() ==> tidy(#[trigger] v[i])
}

/// Whether every row is valid UTF-8.
pub open spec fn rows_valid(v: Seq<Seq<u8>>) -> bool {
    forall|i: int| 0 <= i < v.len() ==> valid_utf8(#[trigger] v[i])
}

/// A level of list nesting.
struct Level {
    marker: Vec<u8>,
    start: usize,
    bullet_len: usize,
    ordered: bool,
}

impl View for Level {
    type V = LevelModel;

    closed spec fn view(&self) -> LevelModel {
        LevelModel {
            marker: self.marker@,
            start: self.start,
            bullet_len: self.bullet_len,
            ordered: self.ordered,
        }
    }
}

/// Whether a level's marker is valid UTF-8 and its bullet lies in the text.
spec fn level_fits(text: Seq<u8>, level: LevelModel) -> bool {
    valid_utf8(level.marker) && level.start + level.bullet_len <= text.len()
}

spec fn level_models(v: Seq<Level>) -> Seq<LevelModel> {
    v.map_values(|l: Level| l@)
}

fn box_text(checked: Option<bool>) -> (r: Vec<u8>)
    ensures
        r@ == written_box(checked),
        valid_utf8(r@),
{
    let mark: u8 = match checked {
        Some(c) => if c {
            120
        } else {
            SPACE
        },
        None => SPACE,
    };
    let mut v: Vec<u8> = Vec::new();
    v.push(91);
    v.push(mark);
    v.push(93);
    v.push(SPACE);
    proof {
        assert(v@ =~= written_box(checked));
        lemma_ascii_valid(v@);
    }
    v
}

/// The quote markers that a lineage opens a line with.
fn build_quotes(text: &[u8], nodes: &Vec<SyntaxNode>, line: &Vec<usize>) -> (r: Vec<u8>)
    requires
        valid_utf8(text@),
        structure_ok(text@, nodes@),
        forall|k: int| 0 <= k < line@.len() ==> #[trigger] line@[k] < nodes@.len(),
    ensures
        r@ == quotes_along(
            text@,
            nodes@,
            Seq::new(line@.len(), |k: int| line@[line@.len() - 1 - k] as int),
            line@.len() as int,
        ),
        valid_utf8(r@),
{
    let ghost order = Seq::new(line@.len(), |k: int| line@[line@.len() - 1 - k] as int);
    let mut out: Vec<u8> = Vec::new();
    let mut n: usize = 0;
    assert(out@ =~= Seq::<u8>::empty());
    while n < line.len()
        invariant
            n <= line@.len(),
            valid_utf8(text@),
            structure_ok(text@, nodes@),
            forall|k: int| 0 <= k < line@.len() ==> #[trigger] line@[k] < nodes@.len(),
            order == Seq::new(line@.len(), |k: int| line@[line@.len() - 1 - k] as int),
            out@ == quotes_along(text@, nodes@, order, n as int),
            valid_utf8(out@),
        decreases line@.len() - n,
    {
        let i: usize = line[line.len() - 1 - n];
        assert(order[n as int] == i);
        if nodes[i].kind == NodeKind::BlockQuote {
            if let Some(m) = find_child(nodes, i, NodeKind::BlockQuoteMarker) {
                let node: SyntaxNode = nodes[m];
                assert(node_fits(text@, nodes@[m as int].kind, node.start as int, node.end as int));
                proof {
                    lemma_pieces_valid(text@, node.start as int, node.end as int);
                    valid_utf8_concat(out@, node_text(text@, node));
                }
                push_bytes(&mut out, slice_bytes(text, node.start, node.end).as_slice());
            } else {
                assert(out@ + Seq::<u8>::empty() =~= out@);
            }
        } else {
            assert(out@ + Seq::<u8>::empty() =~= out@);
        }
        n = n + 1;
    }
    out
}

/// The level that a list item opens.
fn build_level(
    text: &[u8],
    nodes: &Vec<SyntaxNode>,
    item: usize,
    checked: Option<bool>,
) -> (r: Level)
    requires
        valid_utf8(text@),
        structure_ok(text@, nodes@),
    ensures
        r@ == level_of(text@, nodes@, item as int, checked, nodes@.len() as int),
        level_fits(text@, r@),
{
    let mut level = Level { marker: Vec::new(), start: 0, bullet_len: 0, ordered: false };
    let mut n: usize = 0;
    assert(level@ =~= level_of(text@, nodes@, item as int, checked, 0));
    while n < nodes.len()
        invariant
            n <= nodes@.len(),
            valid_utf8(text@),
            structure_ok(text@, nodes@),
            level@ == level_of(text@, nodes@, item as int, checked, n as int),
            level_fits(text@, level@),
        decreases nodes@.len() - n,
    {
        let child: SyntaxNode = nodes[n];
        assert(node_fits(text@, nodes@[n as int].kind, child.start as int, child.end as int));
        if is_child(&child, item) {
            let ghost before = level@;
            let plain: bool = child.kind == NodeKind::ListMarkerMinus || child.kind
                == NodeKind::ListMarkerPlus || child.kind == NodeKind::ListMarkerStar;
            let number: bool = child.kind == NodeKind::ListMarkerDot || child.kind
                == NodeKind::ListMarkerParenthesis;
            if plain || number {
                let own: Vec<u8> = slice_bytes(text, child.start, child.end);
                proof {
                    lemma_pieces_valid(text@, child.start as int, child.end as int);
                    valid_utf8_concat(level.marker@, own@);
                }
                push_bytes(&mut level.marker, own.as_slice());
                level.start = child.start;
                level.bullet_len = child.end - child.start;
                level.ordered = level.ordered || number;
            } else if node_box(&child).is_some() {
                let own: Vec<u8> = box_text(checked);
                proof {
                    valid_utf8_concat(level.marker@, own@);
                }
                push_bytes(&mut level.marker, own.as_slice());
            }
            assert(level@ =~= level_step(text@, before, child, checked));
        }
        n = n + 1;
    }
    level
}

/// The levels that a lineage opens, the outermost first.
fn build_levels(
    text: &[u8],
    nodes: &Vec<SyntaxNode>,
    line: &Vec<usize>,
    checked: Option<bool>,
) -> (r: Vec<Level>)
    requires
        valid_utf8(text@),
        structure_ok(text@, nodes@),
        forall|k: int| 0 <= k < line@.len() ==> #[trigger] line@[k] < nodes@.len(),
    ensures
        level_models(r@) == levels_along(
            text@,
            nodes@,
            Seq::new(line@.len(), |k: int| line@[line@.len() - 1 - k] as int),
            checked,
            line@.len() as int,
        ),
        forall|k: int| 0 <= k < r@.len() ==> level_fits(text@, #[trigger] r@[k]@),
{
    let ghost order = Seq::new(line@.len(), |k: int| line@[line@.len() - 1 - k] as int);
    let mut out: Vec<Level> = Vec::new();
    let mut n: usize = 0;
    assert(level_models(out@) =~= Seq::<LevelModel>::empty());
    while n < line.len()
        invariant
            n <= line@.len(),
            valid_utf8(text@),
            structure_ok(text@, nodes@),
            forall|k: int| 0 <= k < line@.len() ==> #[trigger] line@[k] < nodes@.len(),
            order == Seq::new(line@.len(), |k: int| line@[line@.len() - 1 - k] as int),
            level_models(out@) == levels_along(text@, nodes@, order, checked, n as int),
            forall|k: int| 0 <= k < out@.len() ==> level_fits(text@, #[trigger] out@[k]@),
        decreases line@.len() - n,
    {
        let i: usize = line[line.len() - 1 - n];
        assert(order[n as int] == i);
        if nodes[i].kind == NodeKind::ListItem {
            let level: Level = build_level(text, nodes, i, checked);
            if level.marker.len() > 0 {
                let ghost before = level_models(out@);
                let ghost lm = level@;
                out.push(level);
                assert(level_models(out@) =~= before.push(lm));
            }
        }
        n = n + 1;
    }
    out
}

/// Joins quotes, an indentation and a marker.
fn join_prefix(quotes: &[u8], indent: usize, marker: &[u8]) -> (r: Vec<u8>)
    requires
        valid_utf8(quotes@),
        valid_utf8(marker@),
    ensures
        r@ == quotes@ + spaces_of(indent as nat) + marker@,
        valid_utf8(r@),
{
    let mut v: Vec<u8> = vstd::slice::slice_to_vec(quotes);
    let gap: Vec<u8> = spaces(indent);
    proof {
        valid_utf8_concat(quotes@, gap@);
        valid_utf8_concat(quotes@ + gap@, marker@);
    }
    push_bytes(&mut v, gap.as_slice());
    push_bytes(&mut v, marker);
    v
}

/// How far a level is indented after the quotes.
fn indent_after(text: &[u8], level: &Level, prefix: usize) -> (r: usize)
    requires
        level_fits(text@, level@),
    ensures
        r == indent_of(text@, level@, prefix as int),
        r + level.bullet_len <= usize::MAX,
{
    proof {
        lemma_line_begin(text@, level.start as int);
        assert(text@.len() == text.len());
    }
    let line: usize = crate::lines::byte_to_line(text, level.start);
    let begin: usize = crate::lines::line_to_byte(text, line);
    let column: usize = level.start - begin;
    if column < prefix {
        0
    } else {
        column - prefix
    }
}

/// The prefixes that fit under a line.
fn build_prefixes(text: &[u8], quotes: &Vec<u8>, levels: &Vec<Level>) -> (r: Vec<Vec<u8>>)
    requires
        valid_utf8(quotes@),
        forall|k: int| 0 <= k < levels@.len() ==> level_fits(text@, #[trigger] levels@[k]@),
    ensures
        rows(r@) == prefixes(text@, quotes@, level_models(levels@)),
        rows_valid(rows(r@)),
{
    let ghost models = level_models(levels@);
    let mut out: Vec<Vec<u8>> = Vec::new();
    let none: Vec<u8> = Vec::new();
    assert(none@ =~= Seq::<u8>::empty());
    if quotes.len() > 0 {
        out.push(vstd::slice::slice_to_vec(quotes.as_slice()));
    }
    let ghost first = if quotes@.len() > 0 {
        seq![quotes@]
    } else {
        Seq::<Seq<u8>>::empty()
    };
    assert(rows(out@) =~= first);
    let mut n: usize = 0;
    assert(first + level_prefixes(text@, quotes@, models, 0) =~= first);
    while n < levels.len()
        invariant
            n <= levels@.len(),
            models == level_models(levels@),
            valid_utf8(quotes@),
            none@ == Seq::<u8>::empty(),
            forall|k: int| 0 <= k < levels@.len() ==> level_fits(text@, #[trigger] levels@[k]@),
            rows(out@) == first + level_prefixes(text@, quotes@, models, n as int),
            rows_valid(rows(out@)),
        decreases levels@.len() - n,
    {
        let level: &Level = &levels[n];
        assert(models[n as int] == level@);
        let indent: usize = indent_after(text, level, quotes.len());
        let marker: Vec<u8> = if level.ordered {
            increment_ordered_marker(level.marker.as_slice())
        } else {
            vstd::slice::slice_to_vec(level.marker.as_slice())
        };
        let item: Vec<u8> = join_prefix(quotes.as_slice(), indent, marker.as_slice());
        let paragraph: Vec<u8> = join_prefix(
            quotes.as_slice(),
            indent + level.bullet_len,
            none.as_slice(),
        );
        let ghost before = rows(out@);
        let ghost (ir, pr) = (item@, paragraph@);
        out.push(item);
        out.push(paragraph);
        proof {
            assert(rows(out@) =~= before.push(ir).push(pr));
            let gap = spaces_of(
                indent_of(text@, level@, quotes@.len() as int) + level.bullet_len as nat,
            );
            assert(pr =~= quotes@ + gap);
            assert(rows(out@) =~= first + level_prefixes(text@, quotes@, models, n + 1));
        }
        n = n + 1;
    }
    if levels.len() == 0 && quotes.len() == 0 {
        out.push(none);
        assert(rows(out@) =~= seq![Seq::<u8>::empty()]);
        return out;
    }
    let ghost deeper = if models.len() > 0 {
        let level = models.last();
        let indent = indent_of(text@, level, quotes@.len() as int) + level.bullet_len as nat;
        seq![quotes@ + spaces_of(indent) + nested_item(level)]
    } else {
        Seq::<Seq<u8>>::empty()
    };
    let ghost middle = rows(out@);
    if levels.len() > 0 {
        let level: &Level = &levels[levels.len() - 1];
        assert(models.last() == level@);
        let indent: usize = indent_after(text, level, quotes.len()) + level.bullet_len;
        let marker: Vec<u8> = if level.ordered {
            reset_ordered_marker(level.marker.as_slice())
        } else {
            vstd::slice::slice_to_vec(level.marker.as_slice())
        };
        out.push(join_prefix(quotes.as_slice(), indent, marker.as_slice()));
    }
    assert(rows(out@) =~= middle + deeper);
    out.push(none);
    assert(rows(out@) =~= middle + deeper + seq![Seq::<u8>::empty()]);
    out
}

/// The node whose containers count.
fn find_context_node(nodes: &Vec<SyntaxNode>, i: usize) -> (r: usize)
    requires
        parents_first(nodes@),
        i < nodes@.len(),
    ensures
        r == context_node(nodes@, i as int),
        r < nodes@.len(),
{
    match find_ancestor(nodes, i, NodeKind::Error) {
        Some(e) => match find_sibling_before(nodes, e) {
            Some(s) => match find_last_list_item(nodes, s) {
                Some(item) => item,
                None => i,
            },
            None => i,
        },
        None => i,
    }
}

/// The containers that node `i` stands in, the outermost first.
pub fn find_containers(text: &[u8], nodes: &Vec<SyntaxNode>, i: usize) -> (r: Vec<MarkerKind>)
    requires
        valid_utf8(text@),
        structure_ok(text@, nodes@),
        i < nodes@.len(),
    ensures
        r@.map_values(|k: MarkerKind| k@) == containers_of(text@, nodes@, i as int),
{
    let mut out: Vec<MarkerKind> = Vec::new();
    let line: Vec<usize> = find_lineage(nodes, i);
    let ghost order = lineage(nodes@, i as int);
    let mut n: usize = 0;
    assert(out@.map_values(|k: MarkerKind| k@) =~= Seq::<KindModel>::empty());
    while n < line.len()
        invariant
            n <= line@.len(),
            line@.len() == order.len(),
            valid_utf8(text@),
            structure_ok(text@, nodes@),
            forall|k: int|
                0 <= k < line@.len() ==> #[trigger] line@[k] == order[line@.len() - 1 - k]
                    && line@[k] < nodes@.len(),
            out@.map_values(|k: MarkerKind| k@) == context_along(
                text@,
                nodes@,
                order,
                n as int,
            ),
        decreases line@.len() - n,
    {
        let k: usize = line[line.len() - 1 - n];
        assert(order[n as int] == k);
        push_own_context(&mut out, text, nodes, k);
        n = n + 1;
    }
    out
}

/// The prefixes that fit under node `i`.
pub fn build_prefixes_under(
    text: &[u8],
    nodes: &Vec<SyntaxNode>,
    i: usize,
    checked: Option<bool>,
) -> (r: Vec<Vec<u8>>)
    requires
        valid_utf8(text@),
        structure_ok(text@, nodes@),
        i < nodes@.len(),
    ensures
        rows(r@) == prefixes_under(text@, nodes@, i as int, checked),
        rows_valid(rows(r@)),
{
    let line: Vec<usize> = find_lineage(nodes, find_context_node(nodes, i));
    let quotes: Vec<u8> = build_quotes(text, nodes, &line);
    let levels: Vec<Level> = build_levels(text, nodes, &line, checked);
    proof {
        let order = lineage(nodes@, context_node(nodes@, i as int));
        assert(Seq::new(line@.len(), |k: int| line@[line@.len() - 1 - k] as int) =~= order);
    }
    build_prefixes(text, &quotes, &levels)
}

impl Buffer {
    /// The containers around an offset, the outermost first.
    pub fn build_nested_context(&self, off: usize) -> (r: Vec<MarkerKind>)
        requires
            self.wf(),
        ensures
            r@.map_values(|k: MarkerKind| k@) == nested_context(self@.text, off),
    {
        proof {
            self.lemma_wf();
        }
        let out: Vec<MarkerKind> = Vec::new();
        assert(out@.map_values(|k: MarkerKind| k@) =~= Seq::<KindModel>::empty());
        let nodes = match self.nodes() {
            Some(nodes) => nodes,
            None => {
                return out;
            },
        };
        let bare: bool = match self.node_spanning(off, off) {
            Some(i) => nodes[i].kind == NodeKind::Document,
            None => true,
        };
        let at: usize = if off > 0 && bare {
            off - 1
        } else {
            off
        };
        let i: usize = match self.node_spanning(at, at) {
            Some(i) => i,
            None => {
                return out;
            },
        };
        find_containers(self.bytes(), nodes, i)
    }

    /// The prefixes that the line at an offset can have.
    pub fn cycle_states(&self, off: usize, checked: Option<bool>) -> (r: Vec<Vec<u8>>)
        requires
            self.wf(),
        ensures
            rows(r@) == cycle_states(self@.text, off, checked),
            rows_valid(rows(r@)),
    {
        proof {
            self.lemma_wf();
        }
        let start: usize = self.line_to_byte(self.byte_to_line(off));
        let at: usize = if start > 0 {
            start - 1
        } else {
            0
        };
        if let Some(nodes) = self.nodes() {
            if let Some(i) = self.node_spanning(at, at) {
                return build_prefixes_under(self.bytes(), nodes, i, checked);
            }
        }
        let mut out: Vec<Vec<u8>> = Vec::new();
        let none: Vec<u8> = Vec::new();
        assert(none@ =~= Seq::<u8>::empty());
        out.push(none);
        assert(rows(out@) =~= seq![Seq::<u8>::empty()]);
        out
    }
}

} // verus!
