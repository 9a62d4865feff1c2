//! Finding the markers of a line: the marker nodes of the block structure that
//! follow each other from the line's start.

use vstd::prelude::*;
use vstd::utf8::*;

use crate::buffer::Buffer;
use crate::lines::{
    lemma_line_finish_boundary, lemma_line_start_bound, lemma_line_start_boundary, line_finish,
    line_start,
};
use crate::marker::{
    first_checkbox, span_ok, KindModel, LineMarkers, LineModel, Marker, MarkerKind, MarkerModel, OrderedMarker,
    Span, UnorderedMarker,
};
use crate::number::{digits_end, digits_value, read_number, skip_digits};
use crate::outline::{box_of, without_boxes};
use crate::space::{trim_from, trim_start};
use crate::text::{
    boundary, find_byte_from, lemma_after_ascii, lemma_find_byte, lemma_pieces_valid, slice_bytes,
    string_from_utf8, NEWLINE, SPACE,
};
use crate::tree::{
    lemma_nodes_fit, node_fits, nodes_fit, nodes_of, structure_ok, NodeKind, SyntaxNode,
};

verus! {

pub const QUOTE: u8 = 62;

/// Whether a node of this kind is a marker that can open a line.
pub open spec fn opens_line(kind: NodeKind) -> bool {
    match kind {
        NodeKind::BlockQuoteMarker => true,
        NodeKind::BlockContinuation => true,
        NodeKind::ListMarkerMinus => true,
        NodeKind::ListMarkerPlus => true,
        NodeKind::ListMarkerStar => true,
        NodeKind::ListMarkerDot => true,
        NodeKind::ListMarkerParenthesis => true,
        NodeKind::TaskChecked => true,
        NodeKind::TaskUnchecked => true,
        NodeKind::FencedCodeBlockDelimiter => true,
        NodeKind::HeadingMarker1 => true,
        NodeKind::HeadingMarker2 => true,
        NodeKind::HeadingMarker3 => true,
        NodeKind::HeadingMarker4 => true,
        NodeKind::HeadingMarker5 => true,
        NodeKind::HeadingMarker6 => true,
        _ => false,
    }
}

/// Whether the space after a marker of this kind belongs to the marker.
pub open spec fn takes_space(kind: NodeKind) -> bool {
    match kind {
        NodeKind::TaskChecked => true,
        NodeKind::TaskUnchecked => true,
        NodeKind::HeadingMarker1 => true,
        NodeKind::HeadingMarker2 => true,
        NodeKind::HeadingMarker3 => true,
        NodeKind::HeadingMarker4 => true,
        NodeKind::HeadingMarker5 => true,
        NodeKind::HeadingMarker6 => true,
        _ => false,
    }
}

/// Whether a node is a marker that starts at `pos` and ends by `end`.
pub open spec fn marks(n: SyntaxNode, pos: int, end: int) -> bool {
    opens_line(n.kind) && n.start == pos && pos < n.end <= end
}

/// The first node from place `j` on that is a marker at `pos`.
pub open spec fn marker_node(nodes: Seq<SyntaxNode>, pos: int, end: int, j: int) -> Option<int>
    decreases nodes.len() - j,
{
    if j >= nodes.len() {
        None
    } else if marks(nodes[j], pos, end) {
        Some(j)
    } else {
        marker_node(nodes, pos, end, j + 1)
    }
}

/// Where a marker ends, with the space that belongs to it.
pub open spec fn marker_stop(text: Seq<u8>, n: SyntaxNode, end: int) -> int {
    if takes_space(n.kind) && n.end < end && text[n.end as int] == SPACE {
        n.end + 1
    } else {
        n.end as int
    }
}

/// The number that an ordered list marker shows.
pub open spec fn shown_number(text: Seq<u8>, start: int, end: int) -> Option<u32> {
    let a = trim_from(text, start, end);
    let b = digits_end(text, a, end);
    let v = digits_value(text.subrange(a, b));
    if a == b || v > u32::MAX {
        None
    } else {
        Some(v as u32)
    }
}

pub open spec fn unordered(m: UnorderedMarker) -> KindModel {
    KindModel::ListItem {
        ordered: false,
        unordered_marker: Some(m),
        ordered_marker: None,
        number: None,
    }
}

pub open spec fn ordered(m: OrderedMarker, number: Option<u32>) -> KindModel {
    KindModel::ListItem {
        ordered: true,
        unordered_marker: None,
        ordered_marker: Some(m),
        number,
    }
}

/// The list marker that a node stands for, if it is one.
pub open spec fn list_kind(text: Seq<u8>, n: SyntaxNode) -> Option<KindModel> {
    match n.kind {
        NodeKind::ListMarkerMinus => Some(unordered(UnorderedMarker::Minus)),
        NodeKind::ListMarkerPlus => Some(unordered(UnorderedMarker::Plus)),
        NodeKind::ListMarkerStar => Some(unordered(UnorderedMarker::Star)),
        NodeKind::ListMarkerDot => Some(
            ordered(OrderedMarker::Dot, shown_number(text, n.start as int, n.end as int)),
        ),
        NodeKind::ListMarkerParenthesis => Some(
            ordered(OrderedMarker::Parenthesis, shown_number(text, n.start as int, n.end as int)),
        ),
        _ => None,
    }
}

/// The first child of `parent` of a kind, from place `j` on.
pub open spec fn child_of_kind(
    nodes: Seq<SyntaxNode>,
    parent: int,
    kind: NodeKind,
    j: int,
) -> Option<int>
    decreases nodes.len() - j,
{
    if j >= nodes.len() {
        None
    } else if nodes[j].parent == Some(parent as usize) && nodes[j].kind == kind {
        Some(j)
    } else {
        child_of_kind(nodes, parent, kind, j + 1)
    }
}

/// The bytes that a node spans.
pub open spec fn node_text(text: Seq<u8>, n: SyntaxNode) -> Seq<u8> {
    text.subrange(n.start as int, n.end as int)
}

/// The language that a fenced code block names.
pub open spec fn block_language(
    text: Seq<u8>,
    nodes: Seq<SyntaxNode>,
    block: int,
) -> Option<Seq<u8>> {
    match child_of_kind(nodes, block, NodeKind::InfoString, 0) {
        Some(i) => Some(node_text(text, nodes[i])),
        None => None,
    }
}

/// The fence marker that node `i` stands for: the first fence of its block
/// opens it and shows its language.
pub open spec fn fence_kind(text: Seq<u8>, nodes: Seq<SyntaxNode>, i: int) -> KindModel {
    match nodes[i].parent {
        Some(p) => if child_of_kind(nodes, p as int, NodeKind::FencedCodeBlockDelimiter, 0) == Some(
            i,
        ) {
            KindModel::CodeBlockFence {
                language: block_language(text, nodes, p as int),
                is_opening: true,
            }
        } else {
            KindModel::CodeBlockFence { language: None, is_opening: false }
        },
        None => KindModel::CodeBlockFence { language: None, is_opening: true },
    }
}

/// The markers in the text of a continuation from `a` to `b`: each `>` with
/// the space after it is a quote, and what lies between is indentation.
pub open spec fn continuation_markers(text: Seq<u8>, a: int, b: int) -> Seq<MarkerModel>
    decreases b - a,
{
    if a >= b {
        Seq::<MarkerModel>::empty()
    } else {
        let stop = continuation_stop(text, a, b);
        let kind = if text[a] == QUOTE {
            KindModel::BlockQuote
        } else {
            KindModel::Indent
        };
        seq![
            MarkerModel { kind, range: Span { start: a as usize, end: stop as usize } },
        ] + (if stop > a {
            continuation_markers(text, stop, b)
        } else {
            Seq::<MarkerModel>::empty()
        })
    }
}

/// Where the first marker of a continuation ends.
pub open spec fn continuation_stop(text: Seq<u8>, a: int, b: int) -> int {
    if text[a] == QUOTE {
        if a + 1 < b && text[a + 1] == SPACE {
            a + 2
        } else {
            a + 1
        }
    } else {
        let q = crate::text::find_byte(text, QUOTE, a);
        if q < b {
            q
        } else {
            b
        }
    }
}

/// The markers that node `i` stands for, up to `stop`.
pub open spec fn node_markers(
    text: Seq<u8>,
    nodes: Seq<SyntaxNode>,
    i: int,
    stop: int,
) -> Seq<MarkerModel> {
    let n = nodes[i];
    let range = Span { start: n.start, end: stop as usize };
    match n.kind {
        NodeKind::BlockQuoteMarker => continuation_markers(text, n.start as int, stop),
        NodeKind::BlockContinuation => continuation_markers(text, n.start as int, stop),
        NodeKind::TaskChecked => seq![
            MarkerModel { kind: KindModel::Checkbox { checked: true }, range },
        ],
        NodeKind::TaskUnchecked => seq![
            MarkerModel { kind: KindModel::Checkbox { checked: false }, range },
        ],
        NodeKind::FencedCodeBlockDelimiter => seq![
            MarkerModel { kind: fence_kind(text, nodes, i), range },
        ],
        NodeKind::HeadingMarker1 => seq![MarkerModel { kind: KindModel::Heading(1), range }],
        NodeKind::HeadingMarker2 => seq![MarkerModel { kind: KindModel::Heading(2), range }],
        NodeKind::HeadingMarker3 => seq![MarkerModel { kind: KindModel::Heading(3), range }],
        NodeKind::HeadingMarker4 => seq![MarkerModel { kind: KindModel::Heading(4), range }],
        NodeKind::HeadingMarker5 => seq![MarkerModel { kind: KindModel::Heading(5), range }],
        NodeKind::HeadingMarker6 => seq![MarkerModel { kind: KindModel::Heading(6), range }],
        _ => match list_kind(text, n) {
            Some(kind) => seq![MarkerModel { kind, range }],
            None => Seq::<MarkerModel>::empty(),
        },
    }
}

/// The markers that follow each other from `pos` to `end`.
pub open spec fn markers_from(
    text: Seq<u8>,
    nodes: Seq<SyntaxNode>,
    pos: int,
    end: int,
) -> Seq<MarkerModel>
    decreases end - pos,
{
    match marker_node(nodes, pos, end, 0) {
        None => Seq::<MarkerModel>::empty(),
        Some(i) => {
            let stop = marker_stop(text, nodes[i], end);
            node_markers(text, nodes, i, stop) + (if pos < stop <= end {
                markers_from(text, nodes, stop, end)
            } else {
                Seq::<MarkerModel>::empty()
            })
        },
    }
}

/// A line of a text and its markers.
pub open spec fn line_model(text: Seq<u8>, line: int) -> LineModel {
    let start = line_start(text, line);
    let end = line_finish(text, start);
    LineModel {
        range: Span { start: start as usize, end: end as usize },
        markers: match nodes_of(text) {
            Some(nodes) => markers_from(text, nodes, start, end),
            None => Seq::<MarkerModel>::empty(),
        },
    }
}

pub proof fn lemma_marker_node(nodes: Seq<SyntaxNode>, pos: int, end: int, j: int)
    requires
        0 <= j,
    ensures
        marker_node(nodes, pos, end, j) matches Some(i) ==> j <= i < nodes.len() && marks(
            nodes[i],
            pos,
            end,
        ),
    decreases nodes.len() - j,
{
    if j < nodes.len() && !marks(nodes[j], pos, end) {
        lemma_marker_node(nodes, pos, end, j + 1);
    }
}

pub proof fn lemma_child_of_kind(nodes: Seq<SyntaxNode>, parent: int, kind: NodeKind, j: int)
    requires
        0 <= j,
    ensures
        child_of_kind(nodes, parent, kind, j) matches Some(i) ==> j <= i < nodes.len()
            && nodes[i].kind == kind && nodes[i].parent == Some(parent as usize),
    decreases nodes.len() - j,
{
    if j < nodes.len() && !(nodes[j].parent == Some(parent as usize) && nodes[j].kind == kind) {
        lemma_child_of_kind(nodes, parent, kind, j + 1);
    }
}

/// Whether markers lie between `lo` and `hi`, cut at character boundaries.
pub open spec fn markers_within(
    text: Seq<u8>,
    ms: Seq<MarkerModel>,
    lo: int,
    hi: int,
) -> bool {
    forall|i: int|
        0 <= i < ms.len() ==> span_ok(text, (#[trigger] ms[i]).range) && lo <= ms[i].range.start
            && ms[i].range.end <= hi
}

proof fn lemma_continuation_stop(text: Seq<u8>, a: int, b: int)
    requires
        valid_utf8(text),
        0 <= a < b <= text.len(),
        boundary(text, b),
    ensures
        a < continuation_stop(text, a, b) <= b,
        boundary(text, continuation_stop(text, a, b)),
{
    lemma_find_byte(text, QUOTE, a);
    if text[a] == QUOTE {
        lemma_after_ascii(text, a + 1);
        if a + 1 < b && text[a + 1] == SPACE {
            lemma_after_ascii(text, a + 2);
        }
    }
}

proof fn lemma_continuation_markers(text: Seq<u8>, a: int, b: int)
    requires
        valid_utf8(text),
        text.len() <= usize::MAX,
        0 <= a <= b <= text.len(),
        boundary(text, a),
        boundary(text, b),
    ensures
        markers_within(text, continuation_markers(text, a, b), a, b),
    decreases b - a,
{
    if a < b {
        lemma_continuation_stop(text, a, b);
        lemma_continuation_markers(text, continuation_stop(text, a, b), b);
    }
}

proof fn lemma_marker_stop(text: Seq<u8>, n: SyntaxNode, pos: int, end: int)
    requires
        valid_utf8(text),
        end <= text.len(),
        marks(n, pos, end),
        node_fits(text, n.kind, n.start as int, n.end as int),
    ensures
        pos < marker_stop(text, n, end) <= end,
        boundary(text, marker_stop(text, n, end)),
{
    if marker_stop(text, n, end) != n.end {
        lemma_after_ascii(text, n.end + 1);
    }
}

/// The markers of a line lie in it, cut at character boundaries.
pub proof fn lemma_markers_from(text: Seq<u8>, nodes: Seq<SyntaxNode>, pos: int, end: int)
    requires
        valid_utf8(text),
        text.len() <= usize::MAX,
        nodes_fit(text, nodes),
        0 <= pos <= end <= text.len(),
    ensures
        markers_within(text, markers_from(text, nodes, pos, end), pos, end),
    decreases end - pos,
{
    lemma_marker_node(nodes, pos, end, 0);
    if let Some(i) = marker_node(nodes, pos, end, 0) {
        let n = nodes[i];
        let stop = marker_stop(text, n, end);
        lemma_marker_stop(text, n, pos, end);
        lemma_continuation_markers(text, pos, stop);
        lemma_markers_from(text, nodes, stop, end);
        assert(markers_within(text, node_markers(text, nodes, i, stop), pos, stop));
    }
}

/// A line of a valid text lies in the text, and so do its markers.
pub proof fn lemma_line_model(text: Seq<u8>, line: int)
    requires
        valid_utf8(text),
        text.len() <= usize::MAX,
    ensures
        line_model(text, line).ok(text),
        line_model(text, line).range.start == line_start(text, line),
        line_model(text, line).range.end == line_finish(text, line_start(text, line)),
        line_model(text, line).range.start <= line_model(text, line).content()
            <= line_model(text, line).range.end,
        boundary(text, line_model(text, line).content() as int),
{
    let start = line_start(text, line);
    lemma_line_start_bound(text, line);
    lemma_line_start_boundary(text, line);
    lemma_find_byte(text, NEWLINE, start);
    lemma_line_finish_boundary(text, start);
    if let Some(nodes) = nodes_of(text) {
        lemma_nodes_fit(text);
        lemma_markers_from(text, nodes, start, line_finish(text, start));
    }
    let lm = line_model(text, line);
    if lm.markers.len() > 0 {
        assert(span_ok(text, lm.markers[lm.markers.len() - 1].range));
    }
}

fn does_open_line(kind: NodeKind) -> (r: bool)
    ensures
        r == opens_line(kind),
{
    match kind {
        NodeKind::BlockQuoteMarker => true,
        NodeKind::BlockContinuation => true,
        NodeKind::ListMarkerMinus => true,
        NodeKind::ListMarkerPlus => true,
        NodeKind::ListMarkerStar => true,
        NodeKind::ListMarkerDot => true,
        NodeKind::ListMarkerParenthesis => true,
        NodeKind::TaskChecked => true,
        NodeKind::TaskUnchecked => true,
        NodeKind::FencedCodeBlockDelimiter => true,
        NodeKind::HeadingMarker1 => true,
        NodeKind::HeadingMarker2 => true,
        NodeKind::HeadingMarker3 => true,
        NodeKind::HeadingMarker4 => true,
        NodeKind::HeadingMarker5 => true,
        NodeKind::HeadingMarker6 => true,
        _ => false,
    }
}

fn does_take_space(kind: NodeKind) -> (r: bool)
    ensures
        r == takes_space(kind),
{
    match kind {
        NodeKind::TaskChecked => true,
        NodeKind::TaskUnchecked => true,
        NodeKind::HeadingMarker1 => true,
        NodeKind::HeadingMarker2 => true,
        NodeKind::HeadingMarker3 => true,
        NodeKind::HeadingMarker4 => true,
        NodeKind::HeadingMarker5 => true,
        NodeKind::HeadingMarker6 => true,
        _ => false,
    }
}

/// The first marker node at `pos` that ends by `end`.
fn find_marker_node(nodes: &Vec<SyntaxNode>, pos: usize, end: usize) -> (r: Option<usize>)
    ensures
        match r {
            Some(i) => marker_node(nodes@, pos as int, end as int, 0) == Some(i as int) && i
                < nodes@.len() && marks(nodes@[i as int], pos as int, end as int),
            None => marker_node(nodes@, pos as int, end as int, 0) is None,
        },
{
    let mut j: usize = 0;
    while j < nodes.len()
        invariant
            j <= nodes@.len(),
            marker_node(nodes@, pos as int, end as int, j as int) == marker_node(
                nodes@,
                pos as int,
                end as int,
                0,
            ),
        decreases nodes@.len() - j,
    {
        let n: SyntaxNode = nodes[j];
        if does_open_line(n.kind) && n.start == pos && pos < n.end && n.end <= end {
            return Some(j);
        }
        j = j + 1;
    }
    None
}

/// The first child of `parent` of a kind, from place `from` on.
pub fn find_child_from(nodes: &Vec<SyntaxNode>, parent: usize, kind: NodeKind, from: usize) -> (r:
    Option<usize>)
    requires
        from <= nodes@.len(),
    ensures
        match r {
            Some(i) => child_of_kind(nodes@, parent as int, kind, from as int) == Some(i as int)
                && i < nodes@.len(),
            None => child_of_kind(nodes@, parent as int, kind, from as int) is None,
        },
{
    let mut j: usize = from;
    while j < nodes.len()
        invariant
            j <= nodes@.len(),
            child_of_kind(nodes@, parent as int, kind, j as int) == child_of_kind(
                nodes@,
                parent as int,
                kind,
                from as int,
            ),
        decreases nodes@.len() - j,
    {
        let n: SyntaxNode = nodes[j];
        if n.kind == kind {
            if let Some(p) = n.parent {
                if p == parent {
                    return Some(j);
                }
            }
        }
        j = j + 1;
    }
    None
}

/// The first child of `parent` of a kind.
pub fn find_child(nodes: &Vec<SyntaxNode>, parent: usize, kind: NodeKind) -> (r: Option<usize>)
    ensures
        match r {
            Some(i) => child_of_kind(nodes@, parent as int, kind, 0) == Some(i as int) && i
                < nodes@.len(),
            None => child_of_kind(nodes@, parent as int, kind, 0) is None,
        },
{
    find_child_from(nodes, parent, kind, 0)
}

/// The number that an ordered list marker shows.
fn read_shown_number(text: &[u8], start: usize, end: usize) -> (r: Option<u32>)
    requires
        start <= end <= text@.len(),
    ensures
        r == shown_number(text@, start as int, end as int),
{
    let a: usize = trim_start(text, start, end);
    let b: usize = skip_digits(text, a, end);
    match read_number(text, a, b, u32::MAX as u64) {
        Some(v) => Some(v as u32),
        None => None,
    }
}

/// The list marker that a node stands for, if it is one.
pub fn list_marker_kind(text: &[u8], n: &SyntaxNode) -> (r: Option<MarkerKind>)
    requires
        n.start <= n.end <= text@.len(),
    ensures
        match r {
            Some(k) => list_kind(text@, *n) == Some(k@),
            None => list_kind(text@, *n) is None,
        },
{
    match n.kind {
        NodeKind::ListMarkerMinus => Some(
            MarkerKind::ListItem {
                ordered: false,
                unordered_marker: Some(UnorderedMarker::Minus),
                ordered_marker: None,
                number: None,
            },
        ),
        NodeKind::ListMarkerPlus => Some(
            MarkerKind::ListItem {
                ordered: false,
                unordered_marker: Some(UnorderedMarker::Plus),
                ordered_marker: None,
                number: None,
            },
        ),
        NodeKind::ListMarkerStar => Some(
            MarkerKind::ListItem {
                ordered: false,
                unordered_marker: Some(UnorderedMarker::Star),
                ordered_marker: None,
                number: None,
            },
        ),
        NodeKind::ListMarkerDot => Some(
            MarkerKind::ListItem {
                ordered: true,
                unordered_marker: None,
                ordered_marker: Some(OrderedMarker::Dot),
                number: read_shown_number(text, n.start, n.end),
            },
        ),
        NodeKind::ListMarkerParenthesis => Some(
            MarkerKind::ListItem {
                ordered: true,
                unordered_marker: None,
                ordered_marker: Some(OrderedMarker::Parenthesis),
                number: read_shown_number(text, n.start, n.end),
            },
        ),
        _ => None,
    }
}

/// The language that a fenced code block names.
pub fn read_language(text: &[u8], nodes: &Vec<SyntaxNode>, block: usize) -> (r: Option<String>)
    requires
        valid_utf8(text@),
        structure_ok(text@, nodes@),
    ensures
        match r {
            Some(l) => block_language(text@, nodes@, block as int) == Some(encode_utf8(l@)),
            None => block_language(text@, nodes@, block as int) is None,
        },
{
    match find_child(nodes, block, NodeKind::InfoString) {
        Some(i) => {
            let n: SyntaxNode = nodes[i];
            assert(node_fits(text@, nodes@[i as int].kind, n.start as int, n.end as int));
            proof {
                lemma_pieces_valid(text@, n.start as int, n.end as int);
            }
            Some(string_from_utf8(slice_bytes(text, n.start, n.end)))
        },
        None => None,
    }
}

/// The fence marker that node `i` stands for.
fn read_fence(text: &[u8], nodes: &Vec<SyntaxNode>, i: usize) -> (r: MarkerKind)
    requires
        valid_utf8(text@),
        structure_ok(text@, nodes@),
        i < nodes@.len(),
    ensures
        r@ == fence_kind(text@, nodes@, i as int),
{
    match nodes[i].parent {
        Some(p) => {
            let opens: bool = match find_child(nodes, p, NodeKind::FencedCodeBlockDelimiter) {
                Some(f) => f == i,
                None => false,
            };
            if opens {
                MarkerKind::CodeBlockFence {
                    language: read_language(text, nodes, p),
                    is_opening: true,
                }
            } else {
                MarkerKind::CodeBlockFence { language: None, is_opening: false }
            }
        },
        None => MarkerKind::CodeBlockFence { language: None, is_opening: true },
    }
}

/// Appends the markers in the text of a continuation.
fn push_continuation(out: &mut Vec<Marker>, text: &[u8], start: usize, b: usize)
    requires
        valid_utf8(text@),
        start <= b <= text@.len(),
        boundary(text@, b as int),
    ensures
        final(out)@.map_values(|m: Marker| m@) == old(out)@.map_values(|m: Marker| m@)
            + continuation_markers(text@, start as int, b as int),
{
    let ghost before = out@.map_values(|m: Marker| m@);
    let mut a: usize = start;
    assert(out@.map_values(|m: Marker| m@) + continuation_markers(text@, a as int, b as int)
        =~= before + continuation_markers(text@, start as int, b as int));
    while a < b
        invariant
            start <= a <= b <= text@.len(),
            valid_utf8(text@),
            boundary(text@, b as int),
            out@.map_values(|m: Marker| m@) + continuation_markers(text@, a as int, b as int)
                == before + continuation_markers(text@, start as int, b as int),
        decreases b - a,
    {
        proof {
            lemma_continuation_stop(text@, a as int, b as int);
        }
        let (kind, stop): (MarkerKind, usize) = if text[a] == QUOTE {
            if b - a > 1 && text[a + 1] == SPACE {
                (MarkerKind::BlockQuote, a + 2)
            } else {
                (MarkerKind::BlockQuote, a + 1)
            }
        } else {
            let q: usize = find_byte_from(text, QUOTE, a);
            if q < b {
                (MarkerKind::Indent, q)
            } else {
                (MarkerKind::Indent, b)
            }
        };
        let ghost mid = out@.map_values(|m: Marker| m@);
        out.push(Marker { kind, range: Span { start: a, end: stop } });
        proof {
            let m = out@.last()@;
            assert(out@.map_values(|m: Marker| m@) =~= mid.push(m));
            let rest = continuation_markers(text@, stop as int, b as int);
            assert(continuation_markers(text@, a as int, b as int) =~= seq![m] + rest);
            assert(mid.push(m) + rest =~= mid + (seq![m] + rest));
        }
        a = stop;
    }
    assert(out@.map_values(|m: Marker| m@) =~= before + continuation_markers(
        text@,
        start as int,
        b as int,
    ));
}

/// Appends the markers that node `i` stands for, up to `stop`.
fn push_node_markers(
    out: &mut Vec<Marker>,
    text: &[u8],
    nodes: &Vec<SyntaxNode>,
    i: usize,
    stop: usize,
)
    requires
        valid_utf8(text@),
        structure_ok(text@, nodes@),
        i < nodes@.len(),
        nodes@[i as int].start <= stop <= text@.len(),
        boundary(text@, stop as int),
    ensures
        final(out)@.map_values(|m: Marker| m@) == old(out)@.map_values(|m: Marker| m@)
            + node_markers(text@, nodes@, i as int, stop as int),
{
    let n: SyntaxNode = nodes[i];
    assert(node_fits(text@, nodes@[i as int].kind, n.start as int, n.end as int));
    let ghost before = out@.map_values(|m: Marker| m@);
    let kind: Option<MarkerKind> = match n.kind {
        NodeKind::BlockQuoteMarker => {
            push_continuation(out, text, n.start, stop);
            return ;
        },
        NodeKind::BlockContinuation => {
            push_continuation(out, text, n.start, stop);
            return ;
        },
        NodeKind::TaskChecked => Some(MarkerKind::Checkbox { checked: true }),
        NodeKind::TaskUnchecked => Some(MarkerKind::Checkbox { checked: false }),
        NodeKind::FencedCodeBlockDelimiter => Some(read_fence(text, nodes, i)),
        NodeKind::HeadingMarker1 => Some(MarkerKind::Heading(1)),
        NodeKind::HeadingMarker2 => Some(MarkerKind::Heading(2)),
        NodeKind::HeadingMarker3 => Some(MarkerKind::Heading(3)),
        NodeKind::HeadingMarker4 => Some(MarkerKind::Heading(4)),
        NodeKind::HeadingMarker5 => Some(MarkerKind::Heading(5)),
        NodeKind::HeadingMarker6 => Some(MarkerKind::Heading(6)),
        _ => list_marker_kind(text, &n),
    };
    match kind {
        Some(kind) => {
            out.push(Marker { kind, range: Span { start: n.start, end: stop } });
            proof {
                let m = out@.last()@;
                assert(out@.map_values(|m: Marker| m@) =~= before.push(m));
                assert(node_markers(text@, nodes@, i as int, stop as int) =~= seq![m]);
                assert(before.push(m) =~= before + seq![m]);
            }
        },
        None => {
            assert(before + Seq::<MarkerModel>::empty() =~= before);
        },
    }
}

/// The markers that open the line from `start` to `end`, by the block structure
/// of the text.
pub fn scan_markers(text: &[u8], nodes: &Vec<SyntaxNode>, start: usize, end: usize) -> (r: Vec<
    Marker,
>)
    requires
        valid_utf8(text@),
        structure_ok(text@, nodes@),
        start <= end <= text@.len(),
    ensures
        r@.map_values(|m: Marker| m@) == markers_from(
            text@,
            nodes@,
            start as int,
            end as int,
        ),
{
    let mut markers: Vec<Marker> = Vec::new();
    let ghost all = markers_from(text@, nodes@, start as int, end as int);
    let mut pos: usize = start;
    assert(markers@.map_values(|m: Marker| m@) + all =~= all);
    assert(text@.len() == text.len());
    loop
        invariant
            start <= pos <= end <= text@.len(),
            text@.len() <= usize::MAX,
            valid_utf8(text@),
            structure_ok(text@, nodes@),
            markers@.map_values(|m: Marker| m@) + markers_from(
                text@,
                nodes@,
                pos as int,
                end as int,
            ) == all,
        ensures
            markers@.map_values(|m: Marker| m@) == all,
        decreases end - pos,
    {
        let i: usize = match find_marker_node(nodes, pos, end) {
            Some(i) => i,
            None => {
                assert(markers@.map_values(|m: Marker| m@) + Seq::<MarkerModel>::empty()
                    =~= markers@.map_values(|m: Marker| m@));
                break;
            },
        };
        let n: SyntaxNode = nodes[i];
        assert(node_fits(text@, nodes@[i as int].kind, n.start as int, n.end as int));
        proof {
            lemma_marker_stop(text@, n, pos as int, end as int);
        }
        let stop: usize = if does_take_space(n.kind) && n.end < end && text[n.end] == SPACE {
            n.end + 1
        } else {
            n.end
        };
        let ghost mid = markers@.map_values(|m: Marker| m@);
        push_node_markers(&mut markers, text, nodes, i, stop);
        proof {
            let own = node_markers(text@, nodes@, i as int, stop as int);
            let rest = markers_from(text@, nodes@, stop as int, end as int);
            assert((mid + own) + rest =~= mid + (own + rest));
        }
        pos = stop;
    }
    markers
}

impl Buffer {
    /// A line and the markers that open it.
    pub fn line_markers(&self, line: usize) -> (r: LineMarkers)
        requires
            self.wf(),
        ensures
            r@ == line_model(self@.text, line as int),
            r@.ok(self@.text),
    {
        proof {
            self.lemma_wf();
            lemma_line_model(self@.text, line as int);
        }
        let text: &[u8] = self.bytes();
        let start: usize = self.line_to_byte(line);
        let end: usize = find_byte_from(text, NEWLINE, start);
        let markers: Vec<Marker> = match self.nodes() {
            Some(nodes) => scan_markers(text, nodes, start, end),
            None => Vec::new(),
        };
        let r = LineMarkers { range: Span { start, end }, markers };
        assert(r@ =~= line_model(self@.text, line as int));
        r
    }
}

// ---------------------------------------------------------------------------
// Lines of texts without task boxes
// ---------------------------------------------------------------------------

spec fn no_checkbox(ms: Seq<MarkerModel>) -> bool {
    forall|i: int| 0 <= i < ms.len() ==> !((#[trigger] ms[i]).kind is Checkbox)
}

proof fn lemma_continuation_no_checkbox(text: Seq<u8>, a: int, b: int)
    ensures
        no_checkbox(continuation_markers(text, a, b)),
    decreases b - a,
{
    if a < b && continuation_stop(text, a, b) > a {
        lemma_continuation_no_checkbox(text, continuation_stop(text, a, b), b);
    }
}

proof fn lemma_markers_no_checkbox(text: Seq<u8>, nodes: Seq<SyntaxNode>, pos: int, end: int)
    requires
        forall|i: int| 0 <= i < nodes.len() ==> box_of(#[trigger] nodes[i]) is None,
    ensures
        no_checkbox(markers_from(text, nodes, pos, end)),
    decreases end - pos,
{
    lemma_marker_node(nodes, pos, end, 0);
    if let Some(i) = marker_node(nodes, pos, end, 0) {
        assert(box_of(nodes[i]) is None);
        let stop = marker_stop(text, nodes[i], end);
        lemma_continuation_no_checkbox(text, nodes[i].start as int, stop);
        assert(no_checkbox(node_markers(text, nodes, i, stop)));
        if pos < stop <= end {
            lemma_markers_no_checkbox(text, nodes, stop, end);
        }
    }
}

proof fn lemma_no_first_checkbox(ms: Seq<MarkerModel>, n: int)
    requires
        no_checkbox(ms),
        n <= ms.len(),
    ensures
        first_checkbox(ms, n) is None,
    decreases n,
{
    if n > 0 {
        lemma_no_first_checkbox(ms, n - 1);
    }
}

/// A line of a text without task boxes has none.
pub proof fn lemma_no_task(text: Seq<u8>, line: int)
    requires
        without_boxes(text),
    ensures
        line_model(text, line).task() is None,
{
    let start = line_start(text, line);
    if let Some(nodes) = nodes_of(text) {
        lemma_markers_no_checkbox(text, nodes, start, line_finish(text, start));
    }
    let ms = line_model(text, line).markers;
    lemma_no_first_checkbox(ms, ms.len() as int);
}

} // verus!
