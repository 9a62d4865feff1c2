//! What tab does to a line: which prefix it takes off, which one it puts on, and that
//! the rest of the line and the cursor keep their places.

use vstd::prelude::*;
use vstd::utf8::*;

use crate::carry::law_settling_keeps_the_line;
use crate::context::{cycle_states, rows_tidy};
use crate::lines::{
    lemma_edit_in_line, lemma_line_begin, lemma_on_line, lemma_place_on_line, line_begin,
    line_finish, line_of, line_start, line_text, line_total,
};
use crate::state::StateModel;
use crate::tab::{best_match, law_prefix_replaced};
use crate::text::{boundary, has_at, NEWLINE};

verus! {

/// Whether the prefix at place `k` stands at the start of the cursor's line.
pub open spec fn stands_first(m: StateModel, k: int) -> bool {
    let states = m.tab_states();
    0 <= k < states.len() && states[k].is_prefix_of(m.row())
}

proof fn lemma_best(states: Seq<Seq<u8>>, text: Seq<u8>, start: int, end: int, n: int)
    requires
        0 <= n <= states.len(),
    ensures
        match best_match(states, text, start, end, n) {
            Some(k) => 0 <= k < n && has_at(text, start, states[k]) && start + states[k].len()
                <= end && forall|j: int|
                0 <= j < n && has_at(text, start, #[trigger] states[j]) && start + states[j].len()
                    <= end ==> states[j].len() <= states[k].len(),
            None => forall|j: int|
                0 <= j < n ==> !(has_at(text, start, #[trigger] states[j]) && start
                    + states[j].len() <= end),
        },
    decreases n,
{
    if n > 0 {
        lemma_best(states, text, start, end, n - 1);
    }
}

proof fn lemma_first_on_line(m: StateModel, k: int)
    requires
        m.anchored(),
        rows_tidy(m.tab_states()),
        0 <= k < m.tab_states().len(),
    ensures
        ({
            let s = m.tab_states()[k];
            let line = line_of(m.text(), m.cursor() as int);
            let start = line_start(m.text(), line);
            stands_first(m, k) <==> has_at(m.text(), start, s) && start + s.len() <= line_start(
                m.text(),
                line + 1,
            )
        }),
{
    let text = m.text();
    let line = line_of(text, m.cursor() as int);
    let start = line_start(text, line);
    let s = m.tab_states()[k];
    let row = m.row();
    lemma_place_on_line(text, m.cursor() as int);
    crate::lines::lemma_line_there(text, line);
    assert(crate::context::tidy(s));
    if has_at(text, start, s) && start + s.len() <= line_start(text, line + 1) {
        if s.len() > row.len() {
            assert(text.subrange(start, start + s.len())[row.len() as int] == text[start
                + row.len()]);
            assert(s[row.len() as int] != NEWLINE);
        }
        assert(s =~= row.subrange(0, s.len() as int)) by {
            assert forall|i: int| 0 <= i < s.len() implies s[i] == row[i] by {
                assert(text.subrange(start, start + s.len())[i] == text[start + i]);
            }
        }
    }
    if stands_first(m, k) {
        assert(text.subrange(start, start + s.len()) =~= s) by {
            assert forall|i: int| 0 <= i < s.len() implies text[start + i] == s[i] by {
                assert(row[i] == s[i]);
            }
        }
        crate::lines::lemma_line_start_bound(text, line + 1);
    }
}

/// The prefix that a line has is the longest of the cycle that the line starts with.
/// When it starts with none, it has none.
pub proof fn law_line_has_the_longest_prefix(m: StateModel)
    requires
        m.anchored(),
        m.cache_ok(),
    ensures
        match m.tab_match() {
            Some(k) => stands_first(m, k) && m.prefix_end() == line_begin(
                m.text(),
                m.cursor() as int,
            ) + m.tab_states()[k].len() && forall|j: int|
                #[trigger] stands_first(m, j) ==> m.tab_states()[j].len()
                    <= m.tab_states()[k].len(),
            None => m.prefix_end() == line_begin(m.text(), m.cursor() as int) && forall|j: int|
                !(#[trigger] stands_first(m, j)),
        },
{
    crate::tab::lemma_tab_states_tidy(m);
    let text = m.text();
    let line = line_of(text, m.cursor() as int);
    let states = m.tab_states();
    lemma_best(
        states,
        text,
        line_start(text, line),
        line_start(text, line + 1),
        states.len() as int,
    );
    if let Some(k) = m.tab_match() {
        lemma_first_on_line(m, k);
    }
    assert forall|j: int| #[trigger] stands_first(m, j) implies has_at(
        text,
        line_start(text, line),
        states[j],
    ) && line_start(text, line) + states[j].len() <= line_start(text, line + 1) by {
        lemma_first_on_line(m, j);
    }
}

proof fn lemma_prefix_end(m: StateModel)
    requires
        m.anchored(),
        m.cache_ok(),
    ensures
        line_begin(m.text(), m.cursor() as int) <= m.prefix_end() <= line_finish(
            m.text(),
            m.cursor() as int,
        ),
        boundary(m.text(), m.prefix_end()),
{
    crate::tab::lemma_tab_states_tidy(m);
    law_line_has_the_longest_prefix(m);
    let text = m.text();
    let line = line_of(text, m.cursor() as int);
    let start = line_start(text, line);
    lemma_place_on_line(text, m.cursor() as int);
    lemma_line_begin(text, m.cursor() as int);
    crate::lines::lemma_line_start_boundary(text, line);
    if let Some(k) = m.tab_match() {
        let s = m.tab_states()[k];
        lemma_first_on_line(m, k);
        assert(crate::context::tidy(s));
        assert(s.len() <= m.row().len());
        assert(text.subrange(start, start + s.len()) == s);
        crate::text::lemma_piece_end(text, start, start + s.len());
    }
}

/// How long the prefix is that a line has.
pub open spec fn prefix_len(m: StateModel) -> int {
    match m.tab_match() {
        Some(k) => m.tab_states()[k].len() as int,
        None => 0,
    }
}

/// The place in the cycle after the one of the prefix that a line has, round at the
/// ends, or the one before it. A line without a prefix counts as having the first.
pub open spec fn place_to_go(m: StateModel, back: bool) -> int {
    let n = m.tab_states().len() as int;
    let at = match m.tab_match() {
        Some(k) => k,
        None => 0,
    };
    if back {
        if at == 0 {
            n - 1
        } else {
            at - 1
        }
    } else {
        if at == n - 1 {
            0
        } else {
            at + 1
        }
    }
}

proof fn lemma_place_to_go(m: StateModel, back: bool)
    requires
        m.anchored(),
        m.cache_ok(),
        m.tab_states().len() > 1,
    ensures
        0 <= place_to_go(m, back) < m.tab_states().len(),
        (if back {
            m.shift_tabbed()
        } else {
            m.tabbed()
        }) == crate::checkbox::settled(m.given(place_to_go(m, back))),
{
    reveal(StateModel::tabbed);
    reveal(StateModel::shift_tabbed);
    reveal(StateModel::cycled);
    law_line_has_the_longest_prefix(m);
    let n = m.tab_states().len() as int;
    let at = m.tab_place();
    if at + 1 < n {
        vstd::arithmetic::div_mod::lemma_small_mod((at + 1) as nat, n as nat);
    } else {
        vstd::arithmetic::div_mod::lemma_mod_self_0(n);
    }
}

/// A line that is given a prefix of the cycle has it in place of the one it had.
#[verifier::rlimit(30)]
proof fn lemma_given(m: StateModel, place: int)
    requires
        m.anchored(),
        m.cache_ok(),
        0 <= place < m.tab_states().len(),
        m.text().len() + m.tab_states()[place].len() <= usize::MAX,
    ensures
        ({
            let g = m.given(place);
            let new = m.tab_states()[place];
            let old = prefix_len(m);
            let line = line_of(m.text(), m.cursor() as int);
            &&& valid_utf8(g.text())
            &&& g.text().len() <= m.text().len() + new.len()
            &&& g.cursor() <= g.text().len()
            &&& line_total(g.text()) == line_total(m.text())
            &&& line_of(g.text(), g.cursor() as int) == line
            &&& g.row() == new + m.row().skip(old)
            &&& g.column() == new.len() + (if m.column() >= old {
                m.column() - old
            } else {
                0
            })
            &&& forall|l: int|
                line < l < line_total(m.text()) ==> #[trigger] line_text(g.text(), l) == line_text(
                    m.text(),
                    l,
                )
        }),
{
    let text = m.text();
    let cursor = m.cursor() as int;
    let line = line_of(text, cursor);
    lemma_place_on_line(text, cursor);
    lemma_line_begin(text, cursor);
    crate::tab::lemma_tab_states_tidy(m);
    law_line_has_the_longest_prefix(m);
    lemma_prefix_end(m);
    crate::lines::lemma_line_there(text, line);
    crate::lines::lemma_line_start_boundary(text, line);
    let prefix = m.tab_states()[place];
    assert(crate::context::tidy(prefix));
    let (start, end) = (line_begin(text, cursor), m.prefix_end());
    let old = end - start;
    let g = m.given(place);
    law_prefix_replaced(m.tab_cached(), prefix, end);
    lemma_edit_in_line(text, line, start, end, prefix);
    crate::lines::lemma_line_there(g.text(), line);
    crate::buffer::lemma_spliced_back(text, start, end, prefix);
    crate::text::lemma_splice_valid(text, start, end, prefix);
    let gc = start + prefix.len() + (if cursor >= end {
        cursor - end
    } else {
        0
    });
    assert(line_text(g.text(), line) =~= prefix + m.row().skip(old));
    assert(gc <= start + line_text(g.text(), line).len());
    assert(g.cursor() == gc);
    lemma_on_line(g.text(), line, gc);
}

/// Tab takes the prefix that the line has off, puts the next of the cycle on, the
/// first after the last, and leaves the rest of the line. Shift and tab put the one
/// before on. The cursor keeps its place in the rest of the line; from within the
/// prefix it goes behind the new one. Lines below stay as they are.
pub proof fn law_tab_changes_the_prefix_alone(m: StateModel, back: bool)
    requires
        m.anchored(),
        m.cache_ok(),
        m.tab_states().len() > 1,
        forall|i: int|
            0 <= i < m.tab_states().len() ==> m.text().len() + (
            #[trigger] m.tab_states()[i]).len() + 4 * line_total(m.text()) + 4 <= usize::MAX,
    ensures
        ({
            let r = if back {
                m.shift_tabbed()
            } else {
                m.tabbed()
            };
            let new = m.tab_states()[place_to_go(m, back)];
            let old = prefix_len(m);
            &&& line_of(r.text(), r.cursor() as int) == line_of(m.text(), m.cursor() as int)
            &&& r.row() == new + m.row().skip(old)
            &&& r.column() == new.len() + (if m.column() >= old {
                m.column() - old
            } else {
                0
            })
            &&& line_total(r.text()) == line_total(m.text())
            &&& forall|l: int|
                line_of(m.text(), m.cursor() as int) < l < line_total(m.text()) ==> #[trigger]
                line_text(r.text(), l) == line_text(m.text(), l)
        }),
{
    let line = line_of(m.text(), m.cursor() as int);
    lemma_place_to_go(m, back);
    let place = place_to_go(m, back);
    let g = m.given(place);
    let r = crate::checkbox::settled(g);
    lemma_place_on_line(m.text(), m.cursor() as int);
    assert(m.text().len() + m.tab_states()[place].len() + 4 * line_total(m.text()) + 4
        <= usize::MAX);
    lemma_given(m, place);
    law_settling_keeps_the_line(g);
    assert(r.row() == g.row());
    assert forall|l: int| line < l < line_total(m.text()) implies #[trigger] line_text(r.text(), l)
        == line_text(m.text(), l) by {
        assert(line_text(g.text(), l) == line_text(m.text(), l));
    }
}

/// What tab cycles through is what fits under the line above, with the box of the
/// line as it is, unless it is cycling on this line already.
pub proof fn law_cycle_is_of_its_line(m: StateModel)
    ensures
        ({
            let line = line_of(m.text(), m.cursor() as int);
            let fresh = cycle_states(m.text(), m.cursor(), m.line().task());
            &&& m.cache is None ==> m.tab_states() == fresh
            &&& m.cache matches Some(c) ==> m.tab_states() == (if c.line_idx == line {
                c.states
            } else {
                fresh
            })
        }),
{
}

/// A change of prefix can be undone: the new prefix goes, then the old one comes back,
/// with the cursor where it was. A prefix that only came or only went is undone in one
/// step.
pub proof fn law_prefix_change_is_undone(m: StateModel, prefix: Seq<u8>, end: int)
    requires
        m.buffer.ok(),
        m.anchored(),
        valid_utf8(prefix),
        line_begin(m.text(), m.cursor() as int) <= end <= m.text().len(),
        boundary(m.text(), end),
    ensures
        ({
            let start = line_begin(m.text(), m.cursor() as int);
            let r = m.prefixed(prefix, end);
            &&& end > start && prefix.len() > 0 ==> r.undone().undone().text() == m.text()
                && r.undone().undone().cursor() == m.cursor()
            &&& end > start && prefix.len() == 0 ==> r.undone().text() == m.text()
                && r.undone().cursor() == m.cursor()
            &&& end == start && prefix.len() > 0 ==> r.undone().text() == m.text()
            &&& end == start && prefix.len() == 0 ==> r.text() == m.text()
        }),
{
    reveal(StateModel::undone);
    let text = m.text();
    let cursor = m.cursor();
    let start = line_begin(text, cursor as int);
    let none = Seq::<u8>::empty();
    lemma_line_begin(text, cursor as int);
    crate::lines::lemma_line_start_boundary(text, line_of(text, cursor as int));
    crate::text::lemma_floor(text, start);
    crate::text::lemma_floor(text, end);
    crate::text::lemma_floor(text, cursor as int);
    crate::text::lemma_ascii_valid(none);
    crate::buffer::lemma_boundary_after(text, start, end, none, start);
    crate::buffer::law_undo_restores_text(m.buffer, start, end, none, cursor);
    let gone = if end > start {
        m.buffer.delete(start, end, cursor)
    } else {
        m.buffer
    };
    crate::text::lemma_floor(gone.text, start);
    let put = gone.insert(start, prefix, start as usize);
    assert(put.undone().text == gone.text && put.undone().undo == gone.undo) by {
        crate::buffer::lemma_spliced_back(gone.text, start, start, prefix);
        assert(gone.text.subrange(start, start) =~= none);
        assert(put.undo.drop_last() =~= gone.undo);
    }
    let r = m.prefixed(prefix, end);
    if prefix.len() > 0 {
        assert(r.buffer == put);
        assert(r.undone().buffer.undo == gone.undo);
        assert(r.undone().buffer.text == gone.text);
        if end > start {
            assert(r.undone().undone().text() == gone.undone().text);
        }
    }
}

} // verus!
