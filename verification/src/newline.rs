//! What typing leaves on the line of the cursor, and what a new line starts with.

use vstd::prelude::*;
use vstd::utf8::*;

use crate::buffer::{lemma_boundary_after, spliced};
use crate::carry::{keeps_place, law_settling_keeps_the_line};
use crate::context::tidy;
use crate::cycle::{lemma_ascii_tidy, lemma_items_tidy, lemma_tidy_joined};
use crate::line_scan::{lemma_line_model, line_model};
use crate::lines::{
    lemma_edit_in_line, lemma_find_byte_is, lemma_line_of_prefix, lemma_on_line,
    lemma_place_on_line, line_begin, line_finish, line_of, line_start, line_text, line_total,
};
use crate::marker::{
    continuation, incremented, is_list_kind, is_quote_kind, paragraph_indent, KindModel, MarkerModel,
};
use crate::outline::in_code;
use crate::space::skip_blanks;
use crate::state::StateModel;
use crate::text::{boundary, lemma_ascii_valid, lemma_find_byte, lemma_floor, NEWLINE, SPACE, TAB};

verus! {

impl StateModel {
    /// The text with `t` in place of the selection.
    pub open spec fn text_with(self, t: Seq<u8>) -> Seq<u8> {
        spliced(self.text(), self.selection.low() as int, self.selection.high() as int, t)
    }

    /// How far into its line the cursor stands.
    pub open spec fn column(self) -> int {
        self.cursor() - line_start(self.text(), line_of(self.text(), self.cursor() as int))
    }

    /// The text of the cursor's line.
    pub open spec fn row(self) -> Seq<u8> {
        line_text(self.text(), line_of(self.text(), self.cursor() as int))
    }

    /// The selection lies in the text at character boundaries.
    pub open spec fn anchored(self) -> bool {
        &&& valid_utf8(self.text())
        &&& self.selection.steady(self.text())
        &&& self.selection.head <= self.text().len()
        &&& self.selection.anchor <= self.text().len()
    }
}

/// What is typed takes the place of the selection. Whatever boxes follow, the line
/// of the cursor holds what it would without them, and the cursor stands behind what
/// was typed.
pub proof fn law_typed_text_stands_on_the_line(m: StateModel, t: Seq<u8>)
    requires
        m.anchored(),
        valid_utf8(t),
        m.text_with(t).len() + 4 * line_total(m.text_with(t)) + 4 <= usize::MAX,
    ensures
        m.inserted(t).collapsed(),
        valid_utf8(m.inserted(t).text()),
        boundary(m.inserted(t).text(), m.inserted(t).cursor() as int),
        m.inserted(t).text().len() <= m.text_with(t).len() + 4 * line_total(m.text_with(t)) + 4,
        keeps_place(
            m.text_with(t),
            (m.selection.low() + t.len()) as usize,
            m.inserted(t).text(),
            m.inserted(t).cursor(),
        ),
{
    reveal(StateModel::inserted);
    reveal(StateModel::unselected);
    let text = m.text();
    let (a, z) = (m.selection.low() as int, m.selection.high() as int);
    let to = m.text_with(t);
    let pos = a + t.len();
    lemma_floor(text, a);
    lemma_floor(text, z);
    lemma_ascii_valid(Seq::<u8>::empty());
    lemma_boundary_after(text, a, z, t, a);
    lemma_boundary_after(text, a, z, Seq::<u8>::empty(), a);
    let cleared = spliced(text, a, z, Seq::<u8>::empty());
    lemma_floor(cleared, a);
    assert(spliced(cleared, a, a, t) =~= to);
    let b = if m.selection.anchor == m.selection.head {
        m.buffer
    } else {
        m.unselected().buffer
    };
    let n = m.uncached().holding(b.insert(a, t, a as usize)).at(pos as usize);
    assert(n.text() == to);
    assert(m.inserted(t) == crate::checkbox::settled(n));
    lemma_place_on_line(to, pos);
    law_settling_keeps_the_line(n);
    lemma_settled_collapsed(n);
    let r = m.inserted(t);
    let l = line_of(to, pos);
    lemma_same_boundary(to, pos, r.text(), r.cursor() as int);
}

/// A place that a text shares with another is a boundary in both.
proof fn lemma_same_boundary(s: Seq<u8>, c: int, t: Seq<u8>, d: int)
    requires
        valid_utf8(s),
        valid_utf8(t),
        0 <= c <= s.len(),
        d <= t.len(),
        c <= usize::MAX,
        d <= usize::MAX,
        0 <= d,
        keeps_place(s, c as usize, t, d as usize),
        boundary(s, c),
    ensures
        boundary(t, d),
{
    let l = line_of(s, c);
    lemma_place_on_line(s, c);
    lemma_place_on_line(t, d);
    let (x, y) = (line_start(s, l), line_start(t, l));
    assert(line_text(t, l) == line_text(s, l));
    if d < y + line_text(t, l).len() {
        assert(line_text(t, l)[d - y] == t[d]);
        assert(line_text(s, l)[c - x] == s[c]);
    } else {
        lemma_find_byte(t, NEWLINE, d);
    }
}

proof fn lemma_settled_collapsed(m: StateModel)
    requires
        m.collapsed(),
    ensures
        crate::checkbox::settled(m).collapsed(),
{
    reveal(crate::checkbox::settled);
    reveal(crate::checkbox::settled_around);
}

/// A new line that starts with `t` stands below the line it was opened from, holds
/// `t` and what followed the selection there, and has the cursor behind `t`.
pub proof fn law_new_line_starts_with(m: StateModel, t: Seq<u8>)
    requires
        m.anchored(),
        valid_utf8(t),
        forall|i: int| 0 <= i < t.len() ==> t[i] != NEWLINE,
        m.text().len() + t.len() + 8 * line_total(m.text()) + 64 <= usize::MAX,
    ensures
        ({
            let r = m.new_line(t);
            let z = m.selection.high() as int;
            &&& line_of(r.text(), r.cursor() as int) == line_of(
                m.text(),
                m.selection.low() as int,
            ) + 1
            &&& r.row() == t + m.text().subrange(z, line_finish(m.text(), z))
            &&& r.column() == t.len()
        }),
{
    reveal(StateModel::new_line);
    let text = m.text();
    let nl = seq![NEWLINE];
    let (a, z) = (m.selection.low() as int, m.selection.high() as int);
    let one = m.text_with(nl);
    let first = m.inserted(nl);
    let l = line_of(text, a) + 1;
    let rest = text.subrange(z, line_finish(text, z));
    lemma_ascii_valid(nl);
    lemma_broken_line(text, a, z);
    law_typed_text_stands_on_the_line(m, nl);
    let c = first.cursor() as int;
    lemma_place_on_line(first.text(), c);
    assert(line_text(first.text(), l) == rest);
    assert(c == line_start(first.text(), l));
    if t.len() > 0 {
        let two = first.text_with(t);
        lemma_edit_in_line(first.text(), l, c, c, t);
        assert(two == spliced(first.text(), c, c, t));
        assert(line_text(two, l) =~= t + rest);
        law_typed_text_stands_on_the_line(first, t);
        lemma_on_line(two, l, c + t.len());
        let r = m.new_line(t);
        assert(r == first.inserted(t));
        assert(line_text(r.text(), l) == line_text(two, l));
    } else {
        assert(t + rest =~= rest);
    }
}

/// A newline in place of a piece of text parts its line in two.
proof fn lemma_broken_line(text: Seq<u8>, a: int, z: int)
    requires
        0 <= a <= z <= text.len(),
    ensures
        ({
            let t = spliced(text, a, z, seq![NEWLINE]);
            let l = line_of(text, a) + 1;
            &&& line_of(t, a + 1) == l
            &&& line_start(t, l) == a + 1
            &&& line_text(t, l) == text.subrange(z, line_finish(text, z))
            &&& 0 < l < line_total(t)
            &&& line_total(t) <= line_total(text) + 1
            &&& t.len() == text.len() - (z - a) + 1
        }),
{
    let t = spliced(text, a, z, seq![NEWLINE]);
    let d = 1 - (z - a);
    lemma_line_of_prefix(text, t, a);
    assert(t[a] == NEWLINE);
    assert(line_of(t, a + 1) == line_of(text, a) + 1);
    lemma_place_on_line(t, a + 1);
    crate::lines::lemma_line_begin(t, a + 1);
    lemma_find_byte(text, NEWLINE, z);
    let e = line_finish(text, z);
    assert forall|j: int| z <= j < text.len() implies t[j + d] == text[j] by {}
    assert forall|j: int| a + 1 <= j < e + d implies t[j] != NEWLINE by {
        assert(t[j - d + d] == text[j - d]);
    }
    if e < text.len() {
        assert(t[e + d] == text[e]);
    }
    lemma_find_byte_is(t, NEWLINE, a + 1, e + d);
    assert(line_text(t, line_of(text, a) + 1) =~= text.subrange(z, e));
    lemma_fewer_lines(text, t, z, d, text.len() as int);
    crate::lines::lemma_line_of_monotone(text, a, z);
}

proof fn lemma_fewer_lines(s: Seq<u8>, t: Seq<u8>, z: int, d: int, j: int)
    requires
        0 <= z <= j <= s.len(),
        0 <= z + d,
        t.len() == s.len() + d,
        forall|i: int| z <= i < s.len() ==> t[i + d] == s[i],
    ensures
        line_of(t, j + d) - line_of(t, z + d) == line_of(s, j) - line_of(s, z),
    decreases j,
{
    if j > z {
        lemma_fewer_lines(s, t, z, d, j - 1);
        assert(t[j - 1 + d] == s[j - 1]);
    }
}

proof fn lemma_skip_blanks(s: Seq<u8>, i: int, end: int)
    requires
        0 <= i <= end <= s.len(),
    ensures
        i <= skip_blanks(s, i, end) <= end,
        forall|j: int| i <= j < skip_blanks(s, i, end) ==> s[j] == SPACE || s[j] == TAB,
        skip_blanks(s, i, end) < end ==> s[skip_blanks(s, i, end)] != SPACE && s[skip_blanks(
            s,
            i,
            end,
        )] != TAB,
    decreases end - i,
{
    if i < end && (s[i] == SPACE || s[i] == TAB) {
        lemma_skip_blanks(s, i + 1, end);
    }
}

/// In code the new line that goes on with the current one starts with exactly the
/// spaces and tabs that the current one starts with, and the cursor stands behind
/// them.
pub proof fn law_new_line_in_code_is_indented(m: StateModel)
    requires
        m.anchored(),
        in_code(m.text(), m.cursor()),
        m.text().len() + m.row().len() + 8 * line_total(m.text()) + 64 <= usize::MAX,
    ensures
        ({
            let r = m.new_line(m.next_line_start());
            let n = r.column();
            let z = m.selection.high() as int;
            &&& 0 <= n <= m.row().len()
            &&& forall|i: int| 0 <= i < n ==> m.row()[i] == SPACE || m.row()[i] == TAB
            &&& n < m.row().len() ==> m.row()[n] != SPACE && m.row()[n] != TAB
            &&& r.row() == m.row().subrange(0, n) + m.text().subrange(z, line_finish(m.text(), z))
            &&& line_of(r.text(), r.cursor() as int) == line_of(
                m.text(),
                m.selection.low() as int,
            ) + 1
        }),
{
    reveal(StateModel::next_line_start);
    let text = m.text();
    let c = m.cursor() as int;
    let start = line_begin(text, c);
    let end = line_finish(text, c);
    lemma_place_on_line(text, c);
    lemma_skip_blanks(text, start, end);
    let stop = skip_blanks(text, start, end);
    let n = stop - start;
    let t = m.next_line_start();
    let row = m.row();
    assert(t == text.subrange(start, stop));
    assert forall|i: int| 0 <= i < row.len() implies row[i] == text[start + i] by {}
    assert(t =~= row.subrange(0, n));
    lemma_ascii_valid(t);
    law_new_line_starts_with(m, t);
}

// ---------------------------------------------------------------------------
// What goes on on the next line
// ---------------------------------------------------------------------------

proof fn lemma_own_tidy(text: Seq<u8>, line: int, i: int)
    requires
        valid_utf8(text),
        text.len() <= usize::MAX,
        0 <= i < line_model(text, line).markers.len(),
    ensures
        ({
            let x = line_model(text, line).markers[i];
            tidy(text.subrange(x.range.start as int, x.range.end as int))
        }),
{
    let lm = line_model(text, line);
    let x = lm.markers[i];
    lemma_line_model(text, line);
    crate::text::lemma_pieces_valid(text, x.range.start as int, x.range.end as int);
    lemma_find_byte(text, NEWLINE, line_start(text, line));
    let own = text.subrange(x.range.start as int, x.range.end as int);
    assert forall|k: int| 0 <= k < own.len() implies #[trigger] own[k] != NEWLINE by {
        assert(own[k] == text[x.range.start + k]);
    }
}

proof fn lemma_continuation_tidy(text: Seq<u8>, line: int, n: int)
    requires
        valid_utf8(text),
        text.len() <= usize::MAX,
        0 <= n <= line_model(text, line).markers.len(),
    ensures
        tidy(continuation(text, line_model(text, line).markers, n)),
        tidy(paragraph_indent(text, line_model(text, line).markers, n)),
    decreases n,
{
    let ms = line_model(text, line).markers;
    lemma_ascii_tidy(Seq::<u8>::empty());
    if n > 0 {
        let x = ms[n - 1];
        let own = text.subrange(x.range.start as int, x.range.end as int);
        lemma_continuation_tidy(text, line, n - 1);
        lemma_own_tidy(text, line, n - 1);
        lemma_items_tidy(own);
        lemma_ascii_tidy(crate::marker::empty_box());
        lemma_ascii_tidy(crate::text::spaces_of((x.range.end - x.range.start) as nat));
        lemma_tidy_joined(
            continuation(text, ms, n - 1),
            crate::marker::continued(text, x),
        );
        lemma_tidy_joined(
            paragraph_indent(text, ms, n - 1),
            crate::marker::indented(text, x),
        );
    }
}

/// Outside code the new line that goes on with the current one starts with what each
/// marker of the current one asks for, in their order.
pub proof fn law_new_line_goes_on_with_the_markers(m: StateModel)
    requires
        m.anchored(),
        !in_code(m.text(), m.cursor()),
        ({
            let t = continuation(m.text(), m.line().markers, m.line().markers.len() as int);
            m.text().len() + t.len() + 8 * line_total(m.text()) + 64 <= usize::MAX
        }),
    ensures
        ({
            let t = continuation(m.text(), m.line().markers, m.line().markers.len() as int);
            let r = m.new_line(m.next_line_start());
            let z = m.selection.high() as int;
            &&& r.row() == t + m.text().subrange(z, line_finish(m.text(), z))
            &&& r.column() == t.len()
        }),
{
    reveal(StateModel::next_line_start);
    lemma_place_on_line(m.text(), m.cursor() as int);
    lemma_continuation_tidy(
        m.text(),
        line_of(m.text(), m.cursor() as int),
        m.line().markers.len() as int,
    );
    law_new_line_starts_with(m, m.next_line_start());
}

/// What a marker asks of the next line: a quote marker and an indentation stand there
/// again, a bullet too, a number counted on; a task box is there empty; a heading and
/// a code fence ask for nothing.
pub proof fn law_marker_goes_on(text: Seq<u8>, ms: Seq<MarkerModel>, n: int)
    requires
        0 < n <= ms.len(),
    ensures
        ({
            let x = ms[n - 1];
            let own = text.subrange(x.range.start as int, x.range.end as int);
            let before = continuation(text, ms, n - 1);
            let now = continuation(text, ms, n);
            &&& continuation(text, ms, 0) == Seq::<u8>::empty()
            &&& x.kind is BlockQuote ==> now == before + own
            &&& x.kind is Indent ==> now == before + own
            &&& x.kind matches KindModel::ListItem { ordered, .. } ==> now == before + (if ordered {
                incremented(own)
            } else {
                own
            })
            &&& x.kind is Checkbox ==> now == before + seq![91u8, 32u8, 93u8, 32u8]
            &&& x.kind is Heading || x.kind is CodeBlockFence ==> now == before
        }),
{
    let before = continuation(text, ms, n - 1);
    assert(before + Seq::<u8>::empty() =~= before);
}

/// A paragraph nested under a quote outside lists starts with two spaces, and so the
/// new line leaves the quote. Under anything else it starts with the indentation under
/// the line's markers.
pub proof fn law_nested_line_is_indented(m: StateModel)
    requires
        m.anchored(),
        m.text().len() + m.nested_line_start().len() + 8 * line_total(m.text()) + 64 <= usize::MAX,
    ensures
        ({
            let ms = m.line().markers;
            let quoted = exists|i: int| 0 <= i < ms.len() && (#[trigger] ms[i]).kind is BlockQuote;
            let listed = exists|i: int| 0 <= i < ms.len() && (#[trigger] ms[i]).kind is ListItem;
            let t = if quoted && !listed {
                seq![32u8, 32u8]
            } else {
                paragraph_indent(m.text(), ms, ms.len() as int)
            };
            let r = m.new_line(m.nested_line_start());
            let z = m.selection.high() as int;
            &&& r.row() == t + m.text().subrange(z, line_finish(m.text(), z))
            &&& r.column() == t.len()
        }),
{
    let ms = m.line().markers;
    let lm = m.line();
    let t = m.nested_line_start();
    assert(t =~= if lm.quote() && !lm.list() {
        seq![32u8, 32u8]
    } else {
        paragraph_indent(m.text(), ms, ms.len() as int)
    }) by {
        reveal(StateModel::nested_line_start);
    }
    let quoted = exists|i: int| 0 <= i < ms.len() && (#[trigger] ms[i]).kind is BlockQuote;
    let listed = exists|i: int| 0 <= i < ms.len() && (#[trigger] ms[i]).kind is ListItem;
    assert(lm.quote() == quoted) by {
        if quoted {
            let i = choose|i: int| 0 <= i < ms.len() && (#[trigger] ms[i]).kind is BlockQuote;
            assert(is_quote_kind(lm.markers[i].kind));
        }
        if lm.quote() {
            let i = choose|i: int|
                0 <= i < lm.markers.len() && is_quote_kind(#[trigger] lm.markers[i].kind);
            assert(ms[i].kind is BlockQuote);
        }
    }
    assert(lm.list() == listed) by {
        if listed {
            let i = choose|i: int| 0 <= i < ms.len() && (#[trigger] ms[i]).kind is ListItem;
            assert(is_list_kind(lm.markers[i].kind));
        }
        if lm.list() {
            let i = choose|i: int|
                0 <= i < lm.markers.len() && is_list_kind(#[trigger] lm.markers[i].kind);
            assert(ms[i].kind is ListItem);
        }
    }
    lemma_place_on_line(m.text(), m.cursor() as int);
    lemma_continuation_tidy(m.text(), line_of(m.text(), m.cursor() as int), ms.len() as int);
    lemma_ascii_tidy(seq![32u8, 32u8]);
    law_new_line_starts_with(m, t);
}

/// What indents a paragraph under a marker: a quote marker and an indentation stand
/// there again, a bullet makes way for as many spaces, and other markers add nothing.
pub proof fn law_marker_indents(text: Seq<u8>, ms: Seq<MarkerModel>, n: int)
    requires
        0 < n <= ms.len(),
    ensures
        ({
            let x = ms[n - 1];
            let own = text.subrange(x.range.start as int, x.range.end as int);
            let before = paragraph_indent(text, ms, n - 1);
            let now = paragraph_indent(text, ms, n);
            &&& paragraph_indent(text, ms, 0) == Seq::<u8>::empty()
            &&& x.kind is BlockQuote || x.kind is Indent ==> now == before + own
            &&& x.kind is ListItem && x.range.start <= x.range.end ==> now.len() == before.len() + (
            x.range.end - x.range.start) && now.subrange(0, before.len() as int) == before
                && forall|i: int| before.len() <= i < now.len() ==> #[trigger] now[i] == 32
            &&& x.kind is Checkbox || x.kind is Heading || x.kind is CodeBlockFence ==> now
                == before
        }),
{
    let before = paragraph_indent(text, ms, n - 1);
    let now = paragraph_indent(text, ms, n);
    assert(before + Seq::<u8>::empty() =~= before);
    if ms[n - 1].kind is ListItem && ms[n - 1].range.start <= ms[n - 1].range.end {
        assert(now.subrange(0, before.len() as int) =~= before);
    }
}

} // verus!
