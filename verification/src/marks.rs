//! Which markers open a line: they stand side by side from its start, each is what
//! the block structure has there, and they go on as long as it has one.

use vstd::prelude::*;
use vstd::utf8::*;

use crate::family::{child_of, lemma_child_of_kind_from};
use crate::line_scan::{
    continuation_markers, continuation_stop, fence_kind, lemma_marker_node, line_model, marker_node,
    marker_stop, markers_from, node_markers, shown_number,
};
use crate::lines::{line_finish, line_start};
use crate::marker::{KindModel, MarkerModel, OrderedMarker, Span, UnorderedMarker};
use crate::text::lemma_find_byte;
use crate::tree::{nodes_fit, nodes_of, NodeKind, SyntaxNode};

verus! {

/// The level of a heading whose marker this kind of node is.
pub open spec fn heading_of(kind: NodeKind) -> Option<u8> {
    match kind {
        NodeKind::HeadingMarker1 => Some(1),
        NodeKind::HeadingMarker2 => Some(2),
        NodeKind::HeadingMarker3 => Some(3),
        NodeKind::HeadingMarker4 => Some(4),
        NodeKind::HeadingMarker5 => Some(5),
        NodeKind::HeadingMarker6 => Some(6),
        _ => None,
    }
}

/// Whether this kind of node is a box or the marker of a heading. The space after one
/// belongs to it.
pub open spec fn is_spaced(kind: NodeKind) -> bool {
    kind == NodeKind::TaskChecked || kind == NodeKind::TaskUnchecked || heading_of(kind) is Some
}

/// Whether this kind of node is a quote marker or what goes on from the line before.
pub open spec fn is_carried(kind: NodeKind) -> bool {
    kind == NodeKind::BlockQuoteMarker || kind == NodeKind::BlockContinuation
}

/// Whether this kind of node is a bullet, numbered or not.
pub open spec fn is_any_bullet(kind: NodeKind) -> bool {
    ||| kind == NodeKind::ListMarkerMinus
    ||| kind == NodeKind::ListMarkerPlus
    ||| kind == NodeKind::ListMarkerStar
    ||| kind == NodeKind::ListMarkerDot
    ||| kind == NodeKind::ListMarkerParenthesis
}

/// Whether this kind of node can be a marker at the start of a line.
pub open spec fn can_open(kind: NodeKind) -> bool {
    is_spaced(kind) || is_carried(kind) || is_any_bullet(kind) || kind
        == NodeKind::FencedCodeBlockDelimiter
}

/// Whether a marker is of the kind that this kind of node is shown as.
pub open spec fn shows(kind: NodeKind, m: KindModel) -> bool {
    match m {
        KindModel::Checkbox { checked } => kind == (if checked {
            NodeKind::TaskChecked
        } else {
            NodeKind::TaskUnchecked
        }),
        KindModel::Heading(level) => heading_of(kind) == Some(level),
        KindModel::CodeBlockFence { .. } => kind == NodeKind::FencedCodeBlockDelimiter,
        KindModel::BlockQuote => is_carried(kind),
        KindModel::Indent => is_carried(kind),
        KindModel::ListItem { ordered, unordered_marker, ordered_marker, .. } => {
            &&& is_any_bullet(kind)
            &&& ordered == (kind == NodeKind::ListMarkerDot || kind
                == NodeKind::ListMarkerParenthesis)
            &&& ordered_marker == (if kind == NodeKind::ListMarkerDot {
                Some(OrderedMarker::Dot)
            } else if kind == NodeKind::ListMarkerParenthesis {
                Some(OrderedMarker::Parenthesis)
            } else {
                None
            })
            &&& unordered_marker == (if kind == NodeKind::ListMarkerMinus {
                Some(UnorderedMarker::Minus)
            } else if kind == NodeKind::ListMarkerPlus {
                Some(UnorderedMarker::Plus)
            } else if kind == NodeKind::ListMarkerStar {
                Some(UnorderedMarker::Star)
            } else {
                None
            })
        },
    }
}

/// Whether node `j` has its part of the line, up to `end`, shown as marker `m`. A
/// quote marker is a `>` with at most one space after it, an indentation has no `>`,
/// and any other marker is the whole node, with a space after it if it takes one.
pub open spec fn shown_as(
    text: Seq<u8>,
    nodes: Seq<SyntaxNode>,
    j: int,
    m: MarkerModel,
    end: int,
) -> bool {
    let n = nodes[j];
    let (a, z) = (m.range.start as int, m.range.end as int);
    &&& 0 <= j < nodes.len()
    &&& shows(n.kind, m.kind)
    &&& m.kind is BlockQuote ==> n.start <= a && z <= n.end && text[a] == 62 && (z == a + 1 || (z
        == a + 2 && text[a + 1] == 32))
    &&& m.kind is Indent ==> n.start <= a < z <= n.end && forall|i: int| a <= i < z ==> text[i] != 62
    &&& !(m.kind is BlockQuote) && !(m.kind is Indent) ==> a == n.start && z == (if is_spaced(
        n.kind,
    ) && n.end < end && text[n.end as int] == 32 {
        n.end + 1
    } else {
        n.end as int
    })
}

/// Whether markers stand side by side from `pos` to `stop`.
pub open spec fn side_by_side(ms: Seq<MarkerModel>, pos: int, stop: int) -> bool {
    &&& ms.len() == 0 ==> pos == stop
    &&& ms.len() > 0 ==> ms[0].range.start == pos && ms.last().range.end == stop
    &&& forall|i: int|
        0 < i < ms.len() ==> (#[trigger] ms[i]).range.start == ms[i - 1].range.end
    &&& forall|i: int| 0 <= i < ms.len() ==> (#[trigger] ms[i]).range.start < ms[i].range.end
}

proof fn lemma_joined(a: Seq<MarkerModel>, b: Seq<MarkerModel>, p: int, q: int, r: int)
    requires
        side_by_side(a, p, q),
        side_by_side(b, q, r),
    ensures
        side_by_side(a + b, p, r),
{
    let ms = a + b;
    assert forall|i: int| 0 < i < ms.len() implies (#[trigger] ms[i]).range.start == ms[i
        - 1].range.end by {
        if i < a.len() {
            assert(ms[i] == a[i]);
        } else if i == a.len() {
            assert(ms[i] == b[0]);
        } else {
            assert(ms[i] == b[i - a.len()]);
            assert(ms[i - 1] == b[i - a.len() - 1]);
        }
    }
    assert forall|i: int| 0 <= i < ms.len() implies (#[trigger] ms[i]).range.start
        < ms[i].range.end by {
        if i < a.len() {
            assert(ms[i] == a[i]);
        } else {
            assert(ms[i] == b[i - a.len()]);
        }
    }
}

/// Whether a marker is shown for some node.
pub open spec fn is_shown(text: Seq<u8>, nodes: Seq<SyntaxNode>, m: MarkerModel, end: int) -> bool {
    exists|j: int| #[trigger] shown_as(text, nodes, j, m, end)
}

/// Whether every marker is shown for some node.
pub open spec fn all_shown(
    text: Seq<u8>,
    nodes: Seq<SyntaxNode>,
    ms: Seq<MarkerModel>,
    end: int,
) -> bool {
    forall|i: int| 0 <= i < ms.len() ==> is_shown(text, nodes, #[trigger] ms[i], end)
}

proof fn lemma_shown_together(
    text: Seq<u8>,
    nodes: Seq<SyntaxNode>,
    a: Seq<MarkerModel>,
    b: Seq<MarkerModel>,
    end: int,
)
    requires
        all_shown(text, nodes, a, end),
        all_shown(text, nodes, b, end),
    ensures
        all_shown(text, nodes, a + b, end),
{
    let ms = a + b;
    assert forall|i: int| 0 <= i < ms.len() implies is_shown(text, nodes, #[trigger] ms[i], end) by {
        if i < a.len() {
            assert(ms[i] == a[i]);
        } else {
            assert(ms[i] == b[i - a.len()]);
        }
    }
}

proof fn lemma_carried_first(
    text: Seq<u8>,
    nodes: Seq<SyntaxNode>,
    j: int,
    a: int,
    b: int,
    end: int,
)
    requires
        0 <= j < nodes.len(),
        is_carried(nodes[j].kind),
        nodes[j].start <= a < b <= nodes[j].end,
        b <= text.len() <= usize::MAX,
    ensures
        a < continuation_stop(text, a, b) <= b,
        continuation_markers(text, a, b).len() > 0,
        continuation_markers(text, a, b)[0].range == (Span {
            start: a as usize,
            end: continuation_stop(text, a, b) as usize,
        }),
        continuation_markers(text, a, b) == seq![continuation_markers(text, a, b)[0]]
            + continuation_markers(text, continuation_stop(text, a, b), b),
        is_shown(text, nodes, continuation_markers(text, a, b)[0], end),
{
    lemma_find_byte(text, 62, a);
    let ms = continuation_markers(text, a, b);
    let stop = continuation_stop(text, a, b);
    assert(a < stop <= b);
    assert(ms =~= seq![ms[0]] + continuation_markers(text, stop, b));
    assert(shown_as(text, nodes, j, ms[0], end));
}

proof fn lemma_carried(
    text: Seq<u8>,
    nodes: Seq<SyntaxNode>,
    j: int,
    a: int,
    b: int,
    end: int,
)
    requires
        0 <= j < nodes.len(),
        is_carried(nodes[j].kind),
        nodes[j].start <= a <= b <= nodes[j].end,
        b <= text.len() <= usize::MAX,
    ensures
        side_by_side(continuation_markers(text, a, b), a, b),
        all_shown(text, nodes, continuation_markers(text, a, b), end),
    decreases b - a,
{
    if a < b {
        lemma_carried_first(text, nodes, j, a, b, end);
        let stop = continuation_stop(text, a, b);
        let first = seq![continuation_markers(text, a, b)[0]];
        let rest = continuation_markers(text, stop, b);
        lemma_carried(text, nodes, j, stop, b, end);
        assert(side_by_side(first, a, stop));
        assert(all_shown(text, nodes, first, end));
        lemma_joined(first, rest, a, stop, b);
        lemma_shown_together(text, nodes, first, rest, end);
    }
}

proof fn lemma_no_marker_node(nodes: Seq<SyntaxNode>, pos: int, end: int, j: int)
    requires
        0 <= j,
        marker_node(nodes, pos, end, j) is None,
    ensures
        forall|k: int|
            j <= k < nodes.len() && can_open((#[trigger] nodes[k]).kind) && nodes[k].start == pos
                ==> !(pos < nodes[k].end <= end),
    decreases nodes.len() - j,
{
    if j < nodes.len() {
        lemma_no_marker_node(nodes, pos, end, j + 1);
    }
}

proof fn lemma_line_markers(text: Seq<u8>, nodes: Seq<SyntaxNode>, pos: int, end: int)
    requires
        nodes_fit(text, nodes),
        0 <= pos <= end <= text.len() <= usize::MAX,
    ensures
        ({
            let ms = markers_from(text, nodes, pos, end);
            let stop = if ms.len() == 0 {
                pos
            } else {
                ms.last().range.end as int
            };
            &&& side_by_side(ms, pos, stop)
            &&& all_shown(text, nodes, ms, end)
            &&& pos <= stop <= end
            &&& forall|k: int|
                0 <= k < nodes.len() && can_open((#[trigger] nodes[k]).kind) && nodes[k].start
                    == stop ==> !(stop < nodes[k].end <= end)
        }),
    decreases end - pos,
{
    lemma_marker_node(nodes, pos, end, 0);
    match marker_node(nodes, pos, end, 0) {
        None => {
            lemma_no_marker_node(nodes, pos, end, 0);
        },
        Some(i) => {
            let n = nodes[i];
            let stop = marker_stop(text, n, end);
            let first = node_markers(text, nodes, i, stop);
            let rest = markers_from(text, nodes, stop, end);
            let ms = markers_from(text, nodes, pos, end);
            lemma_line_markers(text, nodes, stop, end);
            assert(ms =~= first + rest);
            if is_carried(n.kind) {
                lemma_carried(text, nodes, i, pos, stop, end);
            } else {
                assert(first.len() == 1);
                assert(first[0].range == (Span { start: n.start, end: stop as usize }));
                assert(shown_as(text, nodes, i, first[0], end));
                assert(side_by_side(first, pos, stop));
            }
            let last = if rest.len() == 0 {
                stop
            } else {
                rest.last().range.end as int
            };
            lemma_joined(first, rest, pos, stop, last);
            assert(all_shown(text, nodes, first, end));
            lemma_shown_together(text, nodes, first, rest, end);
        },
    }
}

/// The markers of a line stand side by side from its start, each shown for a node of
/// the block structure. Where they stop, no node that can open a line starts that
/// ends on it.
pub proof fn law_line_opens_with_its_markers(text: Seq<u8>, line: int, nodes: Seq<SyntaxNode>)
    requires
        valid_utf8(text),
        text.len() <= usize::MAX,
        nodes_of(text) == Some(nodes),
    ensures
        ({
            let lm = line_model(text, line);
            let (start, end) = (line_start(text, line), line_finish(text, line_start(text, line)));
            let stop = lm.content() as int;
            &&& side_by_side(lm.markers, start, stop)
            &&& all_shown(text, nodes, lm.markers, end)
            &&& forall|k: int|
                0 <= k < nodes.len() && can_open((#[trigger] nodes[k]).kind) && nodes[k].start
                    == stop ==> !(stop < nodes[k].end <= end)
        }),
{
    let start = line_start(text, line);
    crate::lines::lemma_line_start_bound(text, line);
    lemma_find_byte(text, 10, start);
    crate::tree::lemma_nodes_fit(text);
    crate::line_scan::lemma_line_model(text, line);
    lemma_line_markers(text, nodes, start, line_finish(text, start));
}

proof fn lemma_first_checkbox(ms: Seq<MarkerModel>, n: int)
    requires
        0 <= n <= ms.len(),
    ensures
        match crate::marker::first_checkbox(ms, n) {
            Some(c) => exists|i: int|
                0 <= i < n && (#[trigger] ms[i]).kind == (KindModel::Checkbox { checked: c })
                    && forall|k: int| 0 <= k < i ==> !((#[trigger] ms[k]).kind is Checkbox),
            None => forall|i: int| 0 <= i < n ==> !((#[trigger] ms[i]).kind is Checkbox),
        },
    decreases n,
{
    if n > 0 {
        lemma_first_checkbox(ms, n - 1);
        if let Some(c) = crate::marker::first_checkbox(ms, n - 1) {
            let i = choose|i: int|
                0 <= i < n - 1 && (#[trigger] ms[i]).kind == (KindModel::Checkbox { checked: c })
                    && forall|k: int| 0 <= k < i ==> !((#[trigger] ms[k]).kind is Checkbox);
            assert(ms[i].kind == (KindModel::Checkbox { checked: c }));
        } else if ms[n - 1].kind is Checkbox {
            assert(ms[n - 1].kind == (KindModel::Checkbox {
                checked: crate::marker::first_checkbox(ms, n)->0,
            }));
        }
    }
}

/// A line is a task exactly when one of its markers is a box, and shows the state of
/// the first.
pub proof fn law_line_is_a_task_by_its_box(text: Seq<u8>, line: int)
    ensures
        ({
            let ms = line_model(text, line).markers;
            match line_model(text, line).task() {
                Some(c) => exists|i: int|
                    0 <= i < ms.len() && (#[trigger] ms[i]).kind == (KindModel::Checkbox {
                        checked: c,
                    }) && forall|k: int| 0 <= k < i ==> !((#[trigger] ms[k]).kind is Checkbox),
                None => forall|i: int| 0 <= i < ms.len() ==> !((#[trigger] ms[i]).kind is Checkbox),
            }
        }),
{
    let ms = line_model(text, line).markers;
    lemma_first_checkbox(ms, ms.len() as int);
}

/// The first fence of a code block opens it and shows the language that the block
/// names, if it names one; any other fence closes it and shows none.
pub proof fn law_first_fence_opens(text: Seq<u8>, nodes: Seq<SyntaxNode>, i: int, p: usize)
    requires
        0 <= i < nodes.len() <= usize::MAX,
        nodes[i].kind == NodeKind::FencedCodeBlockDelimiter,
        nodes[i].parent == Some(p),
    ensures
        ({
            let first = forall|x: int|
                x < i ==> !(#[trigger] child_of(nodes, x, p as int) && nodes[x].kind
                    == NodeKind::FencedCodeBlockDelimiter);
            match fence_kind(text, nodes, i) {
                KindModel::CodeBlockFence { language, is_opening } => {
                    &&& is_opening == first
                    &&& !first ==> language is None
                    &&& first ==> match language {
                        Some(l) => exists|x: int|
                            #[trigger] child_of(nodes, x, p as int) && nodes[x].kind
                                == NodeKind::InfoString && l == text.subrange(
                                nodes[x].start as int,
                                nodes[x].end as int,
                            ),
                        None => forall|x: int|
                            !(#[trigger] child_of(nodes, x, p as int) && nodes[x].kind
                                == NodeKind::InfoString),
                    }
                },
                _ => false,
            }
        }),
{
    lemma_child_of_kind_from(nodes, p as int, NodeKind::FencedCodeBlockDelimiter, 0);
    lemma_child_of_kind_from(nodes, p as int, NodeKind::InfoString, 0);
    assert(child_of(nodes, i, p as int));
    assert forall|x: int| x < 0 implies !(#[trigger] child_of(nodes, x, p as int)) by {}
}

proof fn lemma_digits_stop(s: Seq<u8>, i: int, k: int, end: int)
    requires
        0 <= i <= k <= end <= s.len(),
        forall|x: int| i <= x < k ==> crate::number::digit(#[trigger] s[x]),
        k < end ==> !crate::number::digit(s[k]),
    ensures
        crate::number::digits_end(s, i, end) == k,
    decreases k - i,
{
    if i < k {
        lemma_digits_stop(s, i + 1, k, end);
    }
}

/// A numbered bullet shows the number that is written in it.
pub proof fn law_bullet_shows_its_number(text: Seq<u8>, start: int, end: int, n: u32, rest: Seq<u8>)
    requires
        0 <= start <= end <= text.len(),
        text.subrange(start, end) == crate::number::decimal(n as nat) + rest,
        rest.len() > 0 ==> !(48 <= rest[0] <= 57),
    ensures
        shown_number(text, start, end) == Some(n),
{
    let d = crate::number::decimal(n as nat);
    let own = text.subrange(start, end);
    crate::number::lemma_decimal_value(n as nat);
    assert(own.len() == end - start);
    assert(own.len() == d.len() + rest.len());
    assert forall|x: int| start <= x < start + d.len() implies crate::number::digit(
        #[trigger] text[x],
    ) by {
        assert(own[x - start] == text[x]);
        assert(own[x - start] == d[x - start]);
    }
    if start + d.len() < end {
        assert(own[d.len() as int] == rest[0]);
    }
    assert(crate::number::digit(text[start]));
    assert(crate::space::trim_from(text, start, end) == start);
    lemma_digits_stop(text, start, start + d.len(), end);
    assert(text.subrange(start, start + d.len()) =~= d) by {
        assert forall|x: int| 0 <= x < d.len() implies text[start + x] == d[x] by {
            assert(own[x] == text[start + x]);
        }
    }
}

/// The markers of a line span what stands before its text: from where the line starts
/// to where its text does. A line without markers has no such span.
pub proof fn law_markers_span_to_the_text(text: Seq<u8>, line: int, nodes: Seq<SyntaxNode>)
    requires
        valid_utf8(text),
        text.len() <= usize::MAX,
        nodes_of(text) == Some(nodes),
    ensures
        ({
            let lm = line_model(text, line);
            match lm.span() {
                Some(s) => lm.markers.len() > 0 && s.start == line_start(text, line) && s.end
                    == lm.content(),
                None => lm.markers.len() == 0 && lm.content() == line_start(text, line),
            }
        }),
{
    law_line_opens_with_its_markers(text, line, nodes);
    crate::line_scan::lemma_line_model(text, line);
}

} // verus!
