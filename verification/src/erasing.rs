//! What deleting takes out, what is put in by itself while typing, and where a space
//! may stand.

use vstd::prelude::*;
use vstd::utf8::*;

use crate::buffer::{lemma_boundary_after, spliced};
use crate::carry::{keeps_place, law_settling_keeps_the_line};
use crate::edit::{behind_opening_fence, empty_block, has_content};
use crate::family::{child_of, fence_of, lemma_child_of_kind_from};
use crate::grapheme::{grapheme_after, grapheme_before};
use crate::line_scan::{child_of_kind, lemma_line_model, line_model};
use crate::lines::{
    lemma_find_byte_is, lemma_place_on_line, line_begin, line_of, line_total,
};
use crate::marker::{span_ok, Span};
use crate::outline::{ancestor, in_code, lemma_ancestor};
use crate::space::{lemma_skip_space, skip_space, space_width, trimmed};
use crate::state::StateModel;
use crate::text::{boundary, lemma_ascii_valid, lemma_find_byte, lemma_floor};
use crate::tree::{lemma_nodes_fit, node_spanning, nodes_of, NodeKind, SyntaxNode};

verus! {

/// Whether `r` is `m` with the bytes of a range taken out and the cursor where they
/// were. Boxes on lines above may have followed.
pub open spec fn taken_out(m: StateModel, s: Span, r: StateModel) -> bool {
    keeps_place(
        spliced(m.text(), s.start as int, s.end as int, Seq::<u8>::empty()),
        s.start,
        r.text(),
        r.cursor(),
    )
}

/// The text has room for boxes that follow.
pub open spec fn roomy(m: StateModel) -> bool {
    m.text().len() + 4 * line_total(m.text()) + 4 <= usize::MAX
}

proof fn lemma_shorter(text: Seq<u8>, a: int, z: int)
    requires
        0 <= a <= z <= text.len(),
    ensures
        line_of(spliced(text, a, z, Seq::<u8>::empty()), a) < line_total(text),
        spliced(text, a, z, Seq::<u8>::empty()).len() == text.len() - (z - a),
{
    let t = spliced(text, a, z, Seq::<u8>::empty());
    assert(t.subrange(0, a) =~= text.subrange(0, a));
    crate::lines::lemma_line_of_prefix(t, text, a);
    lemma_place_on_line(text, a);
}

proof fn lemma_taken_out(m: StateModel, s: Span, cursor: usize)
    requires
        valid_utf8(m.text()),
        roomy(m),
        span_ok(m.text(), s),
    ensures
        taken_out(
            m,
            s,
            crate::checkbox::settled(
                m.uncached().holding(
                    m.buffer.delete(s.start as int, s.end as int, cursor),
                ).at(s.start),
            ),
        ),
{
    let text = m.text();
    let (a, z) = (s.start as int, s.end as int);
    lemma_floor(text, a);
    lemma_floor(text, z);
    lemma_ascii_valid(Seq::<u8>::empty());
    lemma_boundary_after(text, a, z, Seq::<u8>::empty(), a);
    lemma_shorter(text, a, z);
    let n = m.uncached().holding(m.buffer.delete(a, z, cursor)).at(s.start);
    assert(n.text() == spliced(text, a, z, Seq::<u8>::empty()));
    law_settling_keeps_the_line(n);
}

/// A backspace or a deletion forward with something selected takes out what is
/// selected and nothing else.
pub proof fn law_deleting_takes_the_selection(m: StateModel)
    requires
        m.anchored(),
        roomy(m),
        !m.collapsed(),
    ensures
        ({
            let s = Span { start: m.selection.low(), end: m.selection.high() };
            taken_out(m, s, m.backspaced()) && taken_out(m, s, m.deleted_forward())
        }),
{
    reveal(StateModel::backspaced);
    reveal(StateModel::deleted_forward);
    reveal(StateModel::unselected);
    let s = Span { start: m.selection.low(), end: m.selection.high() };
    lemma_taken_out(m, s, m.cursor());
    let n = m.uncached().holding(m.buffer.delete(s.start as int, s.end as int, m.cursor())).at(
        s.start,
    );
    assert(m.uncached().unselected() == n);
}

/// A backspace with nothing selected takes out the grapheme cluster before the
/// cursor when no marker ends there; else the whole marker, or the whole code block
/// that the marker opens if that is empty. At the start of the text it changes
/// nothing.
pub proof fn law_backspace_takes_one_unit(m: StateModel, k: int, s: Span)
    requires
        m.anchored(),
        roomy(m),
        m.collapsed(),
    ensures
        ({
            let ms = m.line().markers;
            let r = m.backspaced();
            &&& m.cursor() == 0 ==> r.text() == m.text() && r.selection == m.selection
            &&& m.cursor() > 0 && (forall|i: int|
                0 <= i < ms.len() ==> (#[trigger] ms[i]).range.end != m.cursor())
                && grapheme_before(m.text(), m.cursor() as int) == Some(s) && span_ok(m.text(), s)
                ==> taken_out(m, s, r)
            &&& m.cursor() > 0 && 0 <= k < ms.len() && ms[k].range.end == m.cursor() && (forall|
                i: int,
            |
                0 <= i < k ==> (#[trigger] ms[i]).range.end != m.cursor()) ==> {
                &&& empty_block(m.text(), m.cursor()) is None ==> taken_out(m, ms[k].range, r)
                &&& empty_block(m.text(), m.cursor()) == Some(s) && span_ok(m.text(), s)
                    ==> taken_out(m, s, r)
            }
        }),
{
    reveal(StateModel::backspaced);
    reveal(StateModel::before_cursor);
    reveal(StateModel::cut);
    let ms = m.line().markers;
    lemma_place_on_line(m.text(), m.cursor() as int);
    lemma_line_model(m.text(), line_of(m.text(), m.cursor() as int));
    crate::moves::lemma_marker_ending(ms, m.cursor() as int, 0);
    if span_ok(m.text(), s) {
        lemma_taken_out(m, s, m.cursor());
    }
    if 0 <= k < ms.len() {
        lemma_taken_out(m, ms[k].range, m.cursor());
        if ms[k].range.end == m.cursor() && (forall|i: int|
            0 <= i < k ==> (#[trigger] ms[i]).range.end != m.cursor()) {
            let j = crate::cursor::marker_ending(ms, m.cursor() as int, 0)->0;
            assert(ms[j].range.end == m.cursor());
            assert(j == k);
        }
    }
}

/// A deletion forward with nothing selected takes out the grapheme cluster after the
/// cursor and leaves the cursor where it is; at the end of the text nothing is taken.
pub proof fn law_delete_takes_one_unit(m: StateModel, s: Span)
    requires
        m.anchored(),
        roomy(m),
        m.collapsed(),
    ensures
        ({
            let r = m.deleted_forward();
            &&& grapheme_after(m.text(), m.cursor() as int) == Some(s) && span_ok(m.text(), s)
                && s.start == m.cursor() ==> taken_out(m, s, r)
            &&& grapheme_after(m.text(), m.cursor() as int) is None ==> taken_out(
                m,
                Span { start: m.cursor(), end: m.cursor() },
                r,
            )
        }),
{
    reveal(StateModel::deleted_forward);
    reveal(StateModel::cut_ahead);
    let c = m.cursor();
    if span_ok(m.text(), s) && s.start == c {
        lemma_taken_out(m, s, c);
        let n = m.uncached().holding(m.buffer.delete(s.start as int, s.end as int, c));
        assert(n.at(s.start) == n);
    }
    if grapheme_after(m.text(), c as int) is None {
        lemma_place_on_line(m.text(), c as int);
        law_settling_keeps_the_line(m.uncached());
        assert(spliced(m.text(), c as int, c as int, Seq::<u8>::empty()) =~= m.text());
    }
}

/// A space goes in everywhere in code. Elsewhere it is refused at the start of a line
/// and where the text of a line that is only quoted starts, and nowhere else.
pub proof fn law_space_is_refused_only_at_starts(m: StateModel)
    ensures
        ({
            let ms = m.line().markers;
            let c = m.cursor() as int;
            let only_quotes = ms.len() > 0 && forall|i: int|
                0 <= i < ms.len() ==> (#[trigger] ms[i]).kind is BlockQuote;
            m.takes_space() <==> in_code(m.text(), m.cursor()) || (c != line_begin(m.text(), c)
                && !(only_quotes && c == ms.last().range.end))
        }),
{
    reveal(StateModel::takes_space);
    let ms = m.line().markers;
    let only_quotes = ms.len() > 0 && forall|i: int|
        0 <= i < ms.len() ==> (#[trigger] ms[i]).kind is BlockQuote;
    if m.line().quote_only() {
        assert forall|i: int| 0 <= i < ms.len() implies (#[trigger] ms[i]).kind is BlockQuote by {
            assert(crate::marker::is_quote_kind(m.line().markers[i].kind));
        }
    }
    if only_quotes {
        assert forall|i: int| 0 <= i < ms.len() implies crate::marker::is_quote_kind(
            #[trigger] m.line().markers[i].kind,
        ) by {
            assert(ms[i].kind is BlockQuote);
        }
    }
}

/// A `>` lacks its space when it stands before the cursor, belongs to a quote marker
/// of the line and no space follows it.
pub proof fn law_quote_marker_lacks_its_space(m: StateModel)
    ensures
        ({
            let ms = m.line().markers;
            let c = m.cursor() as int;
            m.quote_lacks_space() <==> 0 < c <= m.text().len() && m.text()[c - 1] == 62 && (c
                == m.text().len() || m.text()[c] != 32) && exists|k: int|
                0 <= k < ms.len() && (#[trigger] ms[k]).kind is BlockQuote && ms[k].range.start < c
                    <= ms[k].range.end
        }),
{
    reveal(StateModel::quote_lacks_space);
    let ms = m.line().markers;
    let c = m.cursor() as int;
    if exists|k: int|
        0 <= k < ms.len() && (#[trigger] ms[k]).kind is BlockQuote && ms[k].range.start < c
            <= ms[k].range.end {
        let k = choose|k: int|
            0 <= k < ms.len() && (#[trigger] ms[k]).kind is BlockQuote && ms[k].range.start < c
                <= ms[k].range.end;
        assert(crate::marker::is_quote_kind(m.line().markers[k].kind));
        assert(m.line().quote_at(c - 1));
    }
}

/// Closing a fence puts a newline and three of the fence's character behind the
/// cursor, which stays before them, and changes nothing else. It is done after the
/// third backtick or tilde in a row, and only then.
pub proof fn law_closing_fence_goes_below(m: StateModel)
    requires
        m.anchored(),
    ensures
        ({
            let r = m.fence_closed();
            let c = m.cursor() as int;
            &&& m.fence_typed() matches Some(b) ==> {
                &&& b == 96 || b == 126
                &&& c >= 3 && m.text()[c - 1] == b && m.text()[c - 2] == b && m.text()[c - 3] == b
                &&& r.text() == spliced(m.text(), c, c, seq![10u8, b, b, b])
                &&& r.selection == m.selection
            }
            &&& m.fence_typed() is None ==> r == m
        }),
{
    reveal(StateModel::fence_closed);
    reveal(StateModel::fence_typed);
    let c = m.cursor() as int;
    lemma_floor(m.text(), c);
    if let Some(b) = m.fence_typed() {
        assert(seq![crate::text::NEWLINE] + crate::edit::fence(b) =~= seq![10u8, b, b, b]);
    }
}

/// A fence is closed when its three characters start the line, quote markers without
/// anything between them aside.
pub proof fn law_fence_is_seen_at_the_line_start(m: StateModel, b: u8)
    requires
        b == 96 || b == 126,
        3 <= m.cursor() <= m.text().len(),
        ({
            let c = m.cursor() as int;
            let a = line_begin(m.text(), c);
            &&& m.text()[c - 1] == b && m.text()[c - 2] == b && m.text()[c - 3] == b
            &&& forall|i: int| a <= i < c - 3 ==> m.text()[i] == 62
        }),
        line_begin(m.text(), m.cursor() as int) <= m.cursor() - 3,
    ensures
        m.fence_typed() == Some(b),
{
    reveal(StateModel::fence_typed);
    let c = m.cursor() as int;
    let a = line_begin(m.text(), c);
    crate::lines::lemma_line_begin(m.text(), c);
    crate::space::lemma_trim(m.text(), a, c - 3);
}

/// What is undone or redone leaves the cursor at the change: undoing where it stood
/// before the change, if that is a character boundary, redoing behind what the change
/// put in.
pub proof fn law_undo_puts_the_cursor_back(m: StateModel)
    requires
        valid_utf8(m.buffer.undone().text),
    ensures
        m.buffer.undo.len() > 0 && boundary(
            m.undone().text(),
            m.buffer.undo.last().cursor as int,
        ) && m.buffer.undo.last().cursor <= m.undone().text().len() ==> m.undone().cursor()
            == m.buffer.undo.last().cursor && m.undone().collapsed(),
        m.buffer.redo.len() > 0 && m.buffer.redo.last().at + m.buffer.redo.last().added.len()
            <= usize::MAX ==> m.redone().cursor() == m.buffer.redo.last().at
            + m.buffer.redo.last().added.len() && m.redone().collapsed(),
        m.buffer.undo.len() == 0 ==> m.undone() == m,
        m.buffer.redo.len() == 0 ==> m.redone() == m,
{
    reveal(StateModel::undone);
    reveal(StateModel::redone);
    if m.buffer.undo.len() > 0 {
        assert(m.undone().text() == m.buffer.undone().text);
        let c = m.buffer.undo.last().cursor as int;
        if boundary(m.undone().text(), c) && c <= m.undone().text().len() {
            lemma_floor(m.undone().text(), c);
        }
    }
}

/// Whether an offset is the end of the first fence of a code block.
pub open spec fn ends_opening_fence(nodes: Seq<SyntaxNode>, b: int, d: int, pos: usize) -> bool {
    &&& fence_of(nodes, d, b)
    &&& nodes[d].end == pos
    &&& forall|x: int| x < d ==> !(#[trigger] fence_of(nodes, x, b))
}

/// A code block goes with its opening fence exactly when the cursor stands at the end
/// of that fence and nothing but the closing one follows the block's first line. It
/// goes from its start to its end, without the newline after it.
pub proof fn law_empty_block_goes_with_its_fence(
    text: Seq<u8>,
    pos: usize,
    nodes: Seq<SyntaxNode>,
    i: usize,
    b: int,
    n: int,
)
    requires
        valid_utf8(text),
        nodes_of(text) == Some(nodes),
        nodes.len() <= usize::MAX,
        0 < pos,
        node_spanning(text, (pos - 1) as usize, pos) == Some(i),
        ancestor(nodes, i as int, NodeKind::FencedCodeBlock) == Some(b),
        nodes[b].start <= n < nodes[b].end,
        text[n] == 10,
        forall|k: int| nodes[b].start <= k < n ==> text[k] != 10,
    ensures
        ({
            let end = nodes[b].end as int;
            let rest = trimmed(text, n + 1, end);
            let bare = rest == seq![96u8, 96u8, 96u8] || rest == seq![126u8, 126u8, 126u8];
            let there = exists|d: int| #[trigger] ends_opening_fence(nodes, b, d, pos);
            &&& there && bare ==> (empty_block(text, pos) matches Some(s) && s.start
                == nodes[b].start && s.end == (if text[end - 1] == 10 {
                end - 1
            } else {
                end
            }))
            &&& !there || !bare ==> empty_block(text, pos) is None
        }),
{
    lemma_ancestor(nodes, i as int, NodeKind::FencedCodeBlock);
    lemma_nodes_fit(text);
    let (start, end) = (nodes[b].start as int, nodes[b].end as int);
    assert(crate::tree::node_fits(text, nodes[b].kind, start, end));
    lemma_find_byte(text, 10, start);
    lemma_find_byte_is(text, 10, start, n);
    let kind = NodeKind::FencedCodeBlockDelimiter;
    lemma_child_of_kind_from(nodes, b, kind, 0);
    let first = child_of_kind(nodes, b, kind, 0);
    let there = exists|d: int| #[trigger] ends_opening_fence(nodes, b, d, pos);
    assert(there == behind_opening_fence(nodes, b, pos)) by {
        if there {
            let d = choose|d: int| #[trigger] ends_opening_fence(nodes, b, d, pos);
            assert(fence_of(nodes, d, b));
            assert(child_of(nodes, d, b));
            let f = first->0;
            assert(fence_of(nodes, f, b));
            assert(f == d);
        }
        if let Some(f) = first {
            assert(fence_of(nodes, f, b));
            assert forall|x: int| x < f implies !(#[trigger] fence_of(nodes, x, b)) by {
                assert(x < 0 || !(child_of(nodes, x, b) && nodes[x].kind == kind));
            }
            if nodes[f].end == pos {
                assert(ends_opening_fence(nodes, b, f, pos));
            }
        }
    }
}

/// Outside code blocks, none goes.
pub proof fn law_no_block_goes_elsewhere(text: Seq<u8>, pos: usize, nodes: Seq<SyntaxNode>)
    requires
        nodes_of(text) == Some(nodes),
        0 < pos,
        node_spanning(text, (pos - 1) as usize, pos) matches Some(i) ==> ancestor(
            nodes,
            i as int,
            NodeKind::FencedCodeBlock,
        ) is None,
    ensures
        empty_block(text, pos) is None,
{
}

proof fn lemma_blank(s: Seq<u8>, i: int, end: int)
    requires
        0 <= i <= end <= s.len(),
        forall|k: int| i <= k < end ==> 9 <= #[trigger] s[k] <= 13 || s[k] == 32,
    ensures
        skip_space(s, i, end) == end,
    decreases end - i,
{
    if i < end {
        assert(9 <= s[i] <= 13 || s[i] == 32);
        lemma_blank(s, i + 1, end);
    }
}

proof fn lemma_stops_before(s: Seq<u8>, i: int, end: int, k: int)
    requires
        0 <= i <= k < end <= s.len(),
        32 < s[k] < 128,
    ensures
        skip_space(s, i, end) <= k,
    decreases end - i,
{
    if i < k && space_width(s, i, end) != 0 {
        lemma_stops_before(s, i + space_width(s, i, end), end, k);
    }
}

/// A line has content when it is a code fence or a visible ASCII character follows its
/// markers, and it has none when only blanks follow them.
pub proof fn law_visible_text_is_content(text: Seq<u8>, line: int, k: int)
    requires
        valid_utf8(text),
        text.len() <= usize::MAX,
    ensures
        ({
            let lm = line_model(text, line);
            let (a, z) = (lm.content() as int, lm.range.end as int);
            let fenced = exists|i: int|
                0 <= i < lm.markers.len() && (#[trigger] lm.markers[i]).kind is CodeBlockFence;
            &&& fenced ==> has_content(text, lm)
            &&& a <= k < z && 32 < text[k] < 127 ==> has_content(text, lm)
            &&& !fenced && (forall|j: int|
                a <= j < z ==> 9 <= #[trigger] text[j] <= 13 || text[j] == 32) ==> !has_content(
                text,
                lm,
            )
        }),
{
    let lm = line_model(text, line);
    let (a, z) = (lm.content() as int, lm.range.end as int);
    lemma_line_model(text, line);
    if a <= k < z && 32 < text[k] < 127 {
        lemma_stops_before(text, a, z, k);
        lemma_skip_space(text, a, z);
        crate::space::lemma_stops_behind(text, skip_space(text, a, z), z, k);
    }
    if forall|j: int| a <= j < z ==> 9 <= #[trigger] text[j] <= 13 || text[j] == 32 {
        lemma_blank(text, a, z);
        crate::space::lemma_trim(text, a, z);
    }
    if lm.fence() {
        let i = choose|i: int|
            0 <= i < lm.markers.len() && crate::marker::is_fence_kind(#[trigger] lm.markers[i].kind);
        assert(lm.markers[i].kind is CodeBlockFence);
    }
    if exists|i: int|
        0 <= i < lm.markers.len() && (#[trigger] lm.markers[i]).kind is CodeBlockFence {
        let i = choose|i: int|
            0 <= i < lm.markers.len() && (#[trigger] lm.markers[i]).kind is CodeBlockFence;
        assert(crate::marker::is_fence_kind(lm.markers[i].kind));
    }
}

/// Undoing puts what was selected and taken out back, and the cursor where it was.
pub proof fn law_taking_the_selection_out_is_undone(m: StateModel)
    requires
        m.buffer.ok(),
        m.anchored(),
    ensures
        m.unselected().undone().text() == m.text(),
        m.unselected().undone().cursor() == m.cursor(),
        m.unselected().undone().buffer.undo == m.buffer.undo,
{
    reveal(StateModel::unselected);
    reveal(StateModel::undone);
    let sel = m.selection;
    crate::buffer::law_undo_restores_text(
        m.buffer,
        sel.low() as int,
        sel.high() as int,
        Seq::<u8>::empty(),
        sel.head,
    );
    lemma_floor(m.text(), sel.head as int);
}

/// Typing over a selection is undone in two steps: first what was typed goes, then
/// what was selected comes back, with the cursor where it was. This as long as no task
/// box around the line followed.
pub proof fn law_typing_over_a_selection_is_undone(m: StateModel, t: Seq<u8>)
    requires
        m.buffer.ok(),
        m.anchored(),
        !m.collapsed(),
        valid_utf8(t),
        ({
            let n = m.uncached().holding(
                m.unselected().buffer.insert(
                    m.selection.low() as int,
                    t,
                    m.selection.low(),
                ),
            ).at((m.selection.low() + t.len()) as usize);
            crate::checkbox::settled(n) == n
        }),
    ensures
        m.inserted(t).undone().text() == m.unselected().text(),
        m.inserted(t).undone().undone().text() == m.text(),
        m.inserted(t).undone().undone().cursor() == m.cursor(),
{
    reveal(StateModel::inserted);
    reveal(StateModel::unselected);
    reveal(StateModel::undone);
    let sel = m.selection;
    let (a, z) = (sel.low() as int, sel.high() as int);
    let gone = m.unselected().buffer;
    lemma_floor(m.text(), a);
    lemma_floor(m.text(), z);
    lemma_ascii_valid(Seq::<u8>::empty());
    lemma_boundary_after(m.text(), a, z, Seq::<u8>::empty(), a);
    crate::buffer::law_undo_restores_text(m.buffer, a, z, Seq::<u8>::empty(), sel.head);
    let put = gone.insert(a, t, sel.low());
    assert(put.undone().text == gone.text && put.undone().undo == gone.undo) by {
        lemma_floor(gone.text, a);
        crate::buffer::lemma_spliced_back(gone.text, a, a, t);
        assert(gone.text.subrange(a, a) =~= Seq::<u8>::empty());
        assert(put.undo.drop_last() =~= gone.undo);
    }
    lemma_floor(m.text(), sel.head as int);
    let one = m.inserted(t).undone();
    assert(one.buffer.undo == gone.undo);
    assert(one.buffer.text == gone.text);
    assert(one.undone().text() == gone.undone().text);
}

/// Undoing puts what was deleted ahead of the cursor back and leaves the cursor where
/// it was, as long as no task box around the line followed.
pub proof fn law_deletion_ahead_is_undone(m: StateModel, s: Span)
    requires
        m.buffer.ok(),
        s.start <= s.end <= m.text().len(),
        m.cursor() <= m.text().len(),
        boundary(m.text(), m.cursor() as int),
        ({
            let n = m.uncached().holding(
                m.buffer.delete(s.start as int, s.end as int, m.cursor()),
            );
            crate::checkbox::settled(n) == n
        }),
    ensures
        m.cut_ahead(Some(s)).undone().text() == m.text(),
        m.cut_ahead(Some(s)).undone().cursor() == m.cursor(),
{
    reveal(StateModel::cut_ahead);
    reveal(StateModel::undone);
    crate::buffer::law_undo_restores_text(
        m.buffer,
        s.start as int,
        s.end as int,
        Seq::<u8>::empty(),
        m.cursor(),
    );
    lemma_floor(m.text(), m.cursor() as int);
}

} // verus!
