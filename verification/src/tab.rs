//! Tab and shift-tab: cycling a line through the prefixes that fit under the
//! line above it.

use vstd::prelude::*;
use vstd::utf8::*;

use crate::buffer::{lemma_boundary_after, lemma_spliced_back, spliced};
use crate::checkbox::{law_no_boxes_to_settle, settled};
use crate::context::{
    cycle_states, nested_context, rows, rows_tidy, rows_valid, tidy,
};
use crate::cursor::{lemma_steps_stay, Selection};
use crate::cycle::law_prefixes_are_tidy;
use crate::line_scan::lemma_no_task;
use crate::lines::{lemma_line_begin, lemma_line_finish, line_begin, line_finish, line_of, line_start};
use crate::marker::MarkerKind;
use crate::outline::without_boxes;
use crate::state::{CacheModel, EditorState, StateModel, TabCycleCache};
use crate::text::{
    boundary, find_byte_from, has_at, has_bytes_at, lemma_ascii_valid, lemma_find_byte, lemma_floor,
    lemma_piece_end, string_from_utf8, NEWLINE,
};

verus! {

/// The longest of the first `n` states that stands at `start` and ends by
/// `end`; the first of them when several are as long.
pub open spec fn best_match(
    states: Seq<Seq<u8>>,
    text: Seq<u8>,
    start: int,
    end: int,
    n: int,
) -> Option<int>
    decreases n,
{
    if n <= 0 {
        None
    } else {
        let before = best_match(states, text, start, end, n - 1);
        let s = states[n - 1];
        let fits = has_at(text, start, s) && start + s.len() <= end;
        match before {
            None => if fits {
                Some(n - 1)
            } else {
                None
            },
            Some(k) => if fits && s.len() > states[k].len() {
                Some(n - 1)
            } else {
                Some(k)
            },
        }
    }
}

/// The state after the one at place `i` in a cycle of `n`.
pub open spec fn next_in_cycle(i: int, n: int) -> int {
    (i + 1) % n
}

proof fn lemma_next_in_cycle(i: int, n: int)
    requires
        0 <= i < n,
    ensures
        next_in_cycle(i, n) == (if i + 1 == n {
            0
        } else {
            i + 1
        }),
{
    if i + 1 == n {
        vstd::arithmetic::div_mod::lemma_mod_self_0(n);
    } else {
        vstd::arithmetic::div_mod::lemma_small_mod((i + 1) as nat, n as nat);
    }
}

/// The state before the one at place `i` in a cycle of `n`.
pub open spec fn previous_in_cycle(i: int, n: int) -> int {
    if i == 0 {
        n - 1
    } else {
        i - 1
    }
}

impl StateModel {
    /// The prefixes that tab cycles through: those it is cycling through
    /// already, if they are this line's.
    pub open spec fn tab_states(self) -> Seq<Seq<u8>> {
        let line = line_of(self.text(), self.cursor() as int);
        match self.cache {
            Some(c) => if c.line_idx == line {
                c.states
            } else {
                cycle_states(self.text(), self.cursor(), self.line().task())
            },
            None => cycle_states(self.text(), self.cursor(), self.line().task()),
        }
    }

    /// The state that remembers what tab cycles through.
    pub open spec fn tab_cached(self) -> StateModel {
        StateModel {
            cache: Some(
                CacheModel {
                    line_idx: line_of(self.text(), self.cursor() as int) as usize,
                    states: self.tab_states(),
                },
            ),
            ..self
        }
    }

    /// The place of the line's present prefix among the states.
    pub open spec fn tab_match(self) -> Option<int> {
        let line = line_of(self.text(), self.cursor() as int);
        best_match(
            self.tab_states(),
            self.text(),
            line_start(self.text(), line),
            line_start(self.text(), line + 1),
            self.tab_states().len() as int,
        )
    }

    /// The present place in the cycle.
    pub open spec fn tab_place(self) -> int {
        match self.tab_match() {
            Some(k) => k,
            None => 0,
        }
    }

    /// Where the line's present prefix ends.
    pub open spec fn prefix_end(self) -> int {
        let start = line_begin(self.text(), self.cursor() as int);
        match self.tab_match() {
            Some(k) => start + self.tab_states()[k].len(),
            None => start,
        }
    }

    /// The state after the line's prefix up to `end` was replaced by `prefix`.
    /// The cursor keeps its place in the text after the prefix.
    pub open spec fn prefixed(self, prefix: Seq<u8>, end: int) -> StateModel {
        let cursor = self.cursor();
        let start = line_begin(self.text(), cursor as int);
        let cleared = if end > start {
            self.buffer.delete(start, end, cursor)
        } else {
            self.buffer
        };
        let filled = if prefix.len() > 0 {
            cleared.insert(start, prefix, start as usize)
        } else {
            cleared
        };
        let to = if cursor >= end {
            cursor - (end - start) + prefix.len()
        } else {
            start + prefix.len()
        };
        self.holding(filled).at(to as usize)
    }

    /// The state after the line was given the state at place `place` of the
    /// cycle.
    #[verifier::opaque]
    pub open spec fn cycled(self, place: int) -> StateModel {
        if self.tab_states().len() <= 1 {
            self.tab_cached()
        } else {
            settled(
                self.tab_cached().prefixed(self.tab_states()[place], self.prefix_end()),
            )
        }
    }

    /// The state after tab.
    #[verifier::opaque]
    pub open spec fn tabbed(self) -> StateModel {
        self.cycled(next_in_cycle(self.tab_place(), self.tab_states().len() as int))
    }

    /// The state after shift and tab.
    #[verifier::opaque]
    pub open spec fn shift_tabbed(self) -> StateModel {
        self.cycled(previous_in_cycle(self.tab_place(), self.tab_states().len() as int))
    }
}

/// The prefixes that tab cycles through are valid text without newlines.
pub proof fn lemma_tab_states_tidy(m: StateModel)
    requires
        valid_utf8(m.text()),
        m.cache_ok(),
    ensures
        rows_tidy(m.tab_states()),
{
    law_prefixes_are_tidy(m.text(), m.cursor(), m.line().task());
}

pub proof fn lemma_best_match(
    states: Seq<Seq<u8>>,
    text: Seq<u8>,
    start: int,
    end: int,
    n: int,
)
    ensures
        best_match(states, text, start, end, n) matches Some(k) ==> 0 <= k < n && has_at(
            text,
            start,
            states[k],
        ) && start + states[k].len() <= end,
    decreases n,
{
    if n > 0 {
        lemma_best_match(states, text, start, end, n - 1);
    }
}

fn copy_rows(v: &Vec<Vec<u8>>) -> (r: Vec<Vec<u8>>)
    ensures
        rows(r@) == rows(v@),
{
    let mut out: Vec<Vec<u8>> = Vec::new();
    let mut i: usize = 0;
    while i < v.len()
        invariant
            i <= v@.len(),
            out@.len() == i,
            forall|j: int| 0 <= j < i ==> (#[trigger] out@[j])@ == v@[j]@,
        decreases v@.len() - i,
    {
        out.push(vstd::slice::slice_to_vec(v[i].as_slice()));
        i = i + 1;
    }
    assert(rows(out@) =~= rows(v@));
    out
}

/// The place and the end of the best match among states for a line.
fn find_best_match(states: &Vec<Vec<u8>>, text: &[u8], start: usize, end: usize) -> (r: Option<
    usize,
>)
    requires
        start <= end <= text@.len(),
    ensures
        match r {
            Some(k) => best_match(
                rows(states@),
                text@,
                start as int,
                end as int,
                states@.len() as int,
            ) == Some(k as int) && k < states@.len() && has_at(
                text@,
                start as int,
                states@[k as int]@,
            ) && start + states@[k as int]@.len() <= end,
            None => best_match(
                rows(states@),
                text@,
                start as int,
                end as int,
                states@.len() as int,
            ) is None,
        },
{
    let mut best: Option<usize> = None;
    let mut n: usize = 0;
    while n < states.len()
        invariant
            n <= states@.len(),
            start <= end <= text@.len(),
            match best {
                Some(k) => k < n && best_match(
                    rows(states@),
                    text@,
                    start as int,
                    end as int,
                    n as int,
                ) == Some(k as int) && has_at(text@, start as int, states@[k as int]@) && start
                    + states@[k as int]@.len() <= end,
                None => best_match(rows(states@), text@, start as int, end as int, n as int)
                    is None,
            },
        decreases states@.len() - n,
    {
        assert(rows(states@)[n as int] == states@[n as int]@);
        if states[n].len() <= end - start && has_bytes_at(text, start, states[n].as_slice()) {
            best = match best {
                Some(k) => {
                    assert(rows(states@)[k as int] == states@[k as int]@);
                    if states[n].len() > states[k].len() {
                        Some(n)
                    } else {
                        Some(k)
                    }
                },
                None => Some(n),
            };
        }
        n = n + 1;
    }
    best
}

impl EditorState {
    /// The containers around an offset, the outermost first: `> - [x] - [ ]`.
    pub fn build_nested_context(&self, cursor_offset: usize) -> (r: Vec<MarkerKind>)
        requires
            self.wf(),
        ensures
            r@.map_values(|k: MarkerKind| k@) == nested_context(self@.text(), cursor_offset),
    {
        self.buffer.build_nested_context(cursor_offset)
    }

    /// The prefixes that the line at an offset can have, by what stands above
    /// it. A task box is written in the given state.
    pub fn build_cycle_states_from_tree(
        &self,
        cursor_offset: usize,
        checkbox_state: Option<bool>,
    ) -> (r: Vec<String>)
        requires
            self.wf(),
        ensures
            r@.map_values(|s: String| encode_utf8(s@)) == cycle_states(
                self@.text(),
                cursor_offset,
                checkbox_state,
            ),
    {
        let states: Vec<Vec<u8>> = self.buffer.cycle_states(cursor_offset, checkbox_state);
        let mut out: Vec<String> = Vec::new();
        let mut i: usize = 0;
        while i < states.len()
            invariant
                i <= states@.len(),
                rows_valid(rows(states@)),
                out@.len() == i,
                forall|j: int| 0 <= j < i ==> encode_utf8((#[trigger] out@[j])@) == states@[j]@,
            decreases states@.len() - i,
        {
            assert(valid_utf8(rows(states@)[i as int]));
            out.push(string_from_utf8(vstd::slice::slice_to_vec(states[i].as_slice())));
            i = i + 1;
        }
        assert(out@.map_values(|s: String| encode_utf8(s@)) =~= rows(states@));
        out
    }

    /// What tab cycles through on the cursor's line, the present place in it
    /// and the end of the present prefix. `None` when there is no choice.
    fn get_tab_cycle_state(&mut self) -> (r: Option<(Vec<Vec<u8>>, usize, usize)>)
        requires
            old(self).ready(),
        ensures
            final(self).ready(),
            old(self).steady() ==> final(self).steady(),
            final(self)@ == old(self)@.tab_cached(),
            match r {
                Some((states, place, end)) => rows(states@) == old(self)@.tab_states()
                    && rows_tidy(rows(states@)) && states@.len() > 1 && place < states@.len()
                    && place == old(self)@.tab_place() && end == old(self)@.prefix_end()
                    && line_begin(old(self)@.text(), old(self)@.cursor() as int) <= end
                    <= old(self)@.text().len() && boundary(old(self)@.text(), end as int),
                None => old(self)@.tab_states().len() <= 1,
            },
    {
        let ghost m = self@;
        let ghost text = self@.text();
        proof {
            self.buffer.lemma_wf();
            lemma_line_begin(text, m.cursor() as int);
            lemma_line_finish(text, m.cursor() as int);
            lemma_steps_stay(text, m.cursor() as int);
        }
        let cursor: usize = self.cursor().offset;
        let line: usize = self.buffer.byte_to_line(cursor);
        let start: usize = self.buffer.line_to_byte(line);
        let current: Option<bool> = self.buffer.line_markers(line).checkbox();
        let kept: Option<Vec<Vec<u8>>> = match &self.tab_cycle_cache {
            Some(c) => if c.line_idx == line {
                Some(copy_rows(&c.states))
            } else {
                None
            },
            None => None,
        };
        let states: Vec<Vec<u8>> = match kept {
            Some(s) => s,
            None => self.buffer.cycle_states(cursor, current),
        };
        assert(rows(states@) == m.tab_states());
        proof {
            lemma_tab_states_tidy(m);
        }
        self.tab_cycle_cache = Some(TabCycleCache { line_idx: line, states: copy_rows(&states) });
        assert(self@ =~= m.tab_cached());
        if states.len() <= 1 {
            return None;
        }
        let bytes: &[u8] = self.buffer.bytes();
        let finish: usize = find_byte_from(bytes, NEWLINE, start);
        let end: usize = if finish < bytes.len() {
            finish + 1
        } else {
            bytes.len()
        };
        assert(end == line_start(text, line + 1));
        match find_best_match(&states, bytes, start, end) {
            Some(k) => {
                let stop: usize = start + states[k].len();
                proof {
                    assert(rows(states@)[k as int] == states@[k as int]@);
                    assert(tidy(rows(states@)[k as int]));
                    assert(text.subrange(start as int, stop as int) == states@[k as int]@);
                    lemma_piece_end(text, start as int, stop as int);
                }
                Some((states, k, stop))
            },
            None => Some((states, 0, start)),
        }
    }

    /// Replaces the line's prefix up to `prefix_end`. The cursor keeps its place
    /// in the text after the prefix.
    #[verifier::spinoff_prover]
    fn set_line_prefix(&mut self, new_prefix: &[u8], prefix_end: usize)
        requires
            old(self).ready(),
            valid_utf8(new_prefix@),
            line_begin(old(self)@.text(), old(self)@.cursor() as int) <= prefix_end
                <= old(self)@.text().len(),
            boundary(old(self)@.text(), prefix_end as int),
        ensures
            final(self).ready(),
            old(self).steady() ==> final(self).steady(),
            final(self)@ == old(self)@.prefixed(new_prefix@, prefix_end as int),
    {
        let ghost m = self@;
        let ghost text = self@.text();
        proof {
            self.buffer.lemma_wf();
            lemma_line_begin(text, m.cursor() as int);
            lemma_steps_stay(text, m.cursor() as int);
        }
        let cursor: usize = self.cursor().offset;
        let start: usize = self.buffer.line_to_byte(self.buffer.byte_to_line(cursor));
        if prefix_end > start {
            self.buffer.delete(start, prefix_end, cursor);
        }
        if new_prefix.len() > 0 {
            self.buffer.insert(start, new_prefix, start);
        }
        proof {
            law_prefix_replaced(m, new_prefix@, prefix_end as int);
            lemma_spliced_back(text, start as int, prefix_end as int, new_prefix@);
            lemma_boundary_after(
                text,
                start as int,
                prefix_end as int,
                new_prefix@,
                prefix_end as int,
            );
            if boundary(text, cursor as int) {
                lemma_boundary_after(
                    text,
                    start as int,
                    prefix_end as int,
                    new_prefix@,
                    cursor as int,
                );
            }
            self.buffer.lemma_wf();
        }
        let to: usize = if cursor >= prefix_end {
            cursor - (prefix_end - start) + new_prefix.len()
        } else {
            start + new_prefix.len()
        };
        self.selection = Selection::new(to, to);
    }

    /// Gives the line the next prefix that fits under the line above it.
    pub fn tab(&mut self)
        requires
            old(self).ready(),
        ensures
            final(self).ready(),
            old(self).steady() ==> final(self).steady(),
            final(self)@ == old(self)@.tabbed(),
    {
        reveal(StateModel::cycled);
        reveal(StateModel::tabbed);
        let ghost m = self@;
        if let Some((states, place, end)) = self.get_tab_cycle_state() {
            let next: usize = if place == states.len() - 1 {
                0
            } else {
                place + 1
            };
            proof {
                lemma_next_in_cycle(place as int, states@.len() as int);
                assert(rows(states@)[next as int] == states@[next as int]@);
                assert(tidy(rows(states@)[next as int]));
            }
            self.set_line_prefix(states[next].as_slice(), end);
            self.propagate_checkbox_after_edit();
        }
    }

    /// Gives the line the previous prefix that fits under the line above it.
    fn shift_tab_cycle(&mut self)
        requires
            old(self).ready(),
        ensures
            final(self).ready(),
            old(self).steady() ==> final(self).steady(),
            final(self)@ == old(self)@.shift_tabbed(),
    {
        reveal(StateModel::cycled);
        reveal(StateModel::shift_tabbed);
        let ghost m = self@;
        if let Some((states, place, end)) = self.get_tab_cycle_state() {
            let previous: usize = if place == 0 {
                states.len() - 1
            } else {
                place - 1
            };
            proof {
                assert(rows(states@)[previous as int] == states@[previous as int]@);
                assert(tidy(rows(states@)[previous as int]));
            }
            self.set_line_prefix(states[previous].as_slice(), end);
            self.propagate_checkbox_after_edit();
        }
    }

    /// Gives the line the previous prefix that fits under the line above it.
    pub fn shift_tab(&mut self)
        requires
            old(self).ready(),
        ensures
            final(self).ready(),
            old(self).steady() ==> final(self).steady(),
            final(self)@ == old(self)@.shift_tabbed(),
    {
        self.shift_tab_cycle();
    }
}

// ---------------------------------------------------------------------------
// What tab and shift-tab keep to
// ---------------------------------------------------------------------------

/// In a cycle, going back undoes going on, and going on undoes going back.
pub proof fn law_cycle_steps_are_inverse(i: int, n: int)
    requires
        0 <= i < n,
    ensures
        0 <= next_in_cycle(i, n) < n,
        0 <= previous_in_cycle(i, n) < n,
        previous_in_cycle(next_in_cycle(i, n), n) == i,
        next_in_cycle(previous_in_cycle(i, n), n) == i,
{
    lemma_next_in_cycle(i, n);
    lemma_next_in_cycle(previous_in_cycle(i, n), n);
}

/// `k` steps on in a cycle.
pub open spec fn steps_in_cycle(i: int, n: int, k: nat) -> int
    decreases k,
{
    if k == 0 {
        i
    } else {
        next_in_cycle(steps_in_cycle(i, n, (k - 1) as nat), n)
    }
}

proof fn lemma_steps_in_cycle(i: int, n: int, k: nat)
    requires
        0 <= i < n,
    ensures
        steps_in_cycle(i, n, k) == (i + k) % n,
    decreases k,
{
    if k == 0 {
        vstd::arithmetic::div_mod::lemma_small_mod(i as nat, n as nat);
    } else {
        lemma_steps_in_cycle(i, n, (k - 1) as nat);
        vstd::arithmetic::div_mod::lemma_add_mod_noop_right(1, i + k - 1, n);
        assert(((i + k - 1) % n + 1) % n == (1 + (i + k - 1) % n) % n);
    }
}

/// As many steps as the cycle is long lead back to where they began.
pub proof fn law_cycle_returns(i: int, n: int)
    requires
        0 <= i < n,
    ensures
        steps_in_cycle(i, n, n as nat) == i,
{
    lemma_steps_in_cycle(i, n, n as nat);
    vstd::arithmetic::div_mod::lemma_mod_add_multiples_vanish(i, n);
    vstd::arithmetic::div_mod::lemma_small_mod(i as nat, n as nat);
}

/// Giving a line a prefix changes the prefix and nothing else.
pub proof fn law_prefix_replaced(m: StateModel, prefix: Seq<u8>, end: int)
    requires
        valid_utf8(m.text()),
        valid_utf8(prefix),
        0 <= m.cursor() <= m.text().len(),
        line_begin(m.text(), m.cursor() as int) <= end <= m.text().len(),
        boundary(m.text(), end),
    ensures
        m.prefixed(prefix, end).text() == spliced(
            m.text(),
            line_begin(m.text(), m.cursor() as int),
            end,
            prefix,
        ),
{
    let text = m.text();
    let start = line_begin(text, m.cursor() as int);
    lemma_line_begin(text, m.cursor() as int);
    crate::lines::lemma_line_start_boundary(text, line_of(text, m.cursor() as int));
    lemma_floor(text, start);
    lemma_floor(text, end);
    lemma_ascii_valid(Seq::<u8>::empty());
    lemma_boundary_after(text, start, end, Seq::<u8>::empty(), start);
    let cleared = if end > start {
        spliced(text, start, end, Seq::<u8>::empty())
    } else {
        text
    };
    if start == end {
        assert(spliced(text, start, end, Seq::<u8>::empty()) =~= text);
    }
    lemma_floor(cleared, start);
    assert(spliced(cleared, start, start, prefix) =~= spliced(text, start, end, prefix));
    if prefix.len() == 0 {
        assert(spliced(text, start, end, prefix) =~= cleared);
    }
}

/// The text after a prefix was given up for another can be had back: the prefix
/// that was replaced, put in again, gives the text from before.
pub proof fn law_prefix_restored(text: Seq<u8>, start: int, end: int, prefix: Seq<u8>)
    requires
        0 <= start <= end <= text.len(),
    ensures
        spliced(
            spliced(text, start, end, prefix),
            start,
            start + prefix.len(),
            text.subrange(start, end),
        ) == text,
{
    lemma_spliced_back(text, start, end, prefix);
}

/// While tab goes through the prefixes of a line it keeps to the ones it began
/// with.
pub proof fn law_tab_keeps_its_states(m: StateModel, prefix: Seq<u8>, end: int)
    requires
        valid_utf8(m.text()),
        m.text().len() <= usize::MAX,
        valid_utf8(prefix),
        0 <= m.cursor() <= m.text().len(),
        line_begin(m.text(), m.cursor() as int) <= end <= line_finish(
            m.text(),
            m.cursor() as int,
        ),
        boundary(m.text(), end),
        m.text().len() + prefix.len() <= usize::MAX,
        forall|i: int| 0 <= i < prefix.len() ==> prefix[i] != NEWLINE,
    ensures
        m.tab_cached().prefixed(prefix, end).tab_states() == m.tab_states(),
{
    let text = m.text();
    let cursor = m.cursor() as int;
    let start = line_begin(text, cursor);
    lemma_line_begin(text, cursor);
    lemma_line_finish(text, cursor);
    lemma_find_byte(text, NEWLINE, cursor);
    let c = m.tab_cached();
    law_prefix_replaced(c, prefix, end);
    let n = c.prefixed(prefix, end);
    let after = spliced(text, start, end, prefix);
    lemma_spliced_back(text, start, end, prefix);
    let to = if cursor >= end {
        cursor - (end - start) + prefix.len()
    } else {
        start + prefix.len()
    };
    assert(n.cursor() == to);
    crate::lines::lemma_line_of_prefix(text, after, start);
    assert forall|j: int| start <= j < to implies after[j] != NEWLINE by {
        if j < start + prefix.len() {
            assert(after[j] == prefix[j - start]);
        } else {
            assert(after[j] == text[j - prefix.len() + (end - start)]);
        }
    }
    crate::lines::lemma_line_of_same(after, start, to);
    crate::lines::lemma_line_of_same(text, start, cursor);
    crate::lines::lemma_line_of_bound(text, cursor);
}

proof fn lemma_best_is(states: Seq<Seq<u8>>, text: Seq<u8>, start: int, end: int, n: int, p: int)
    requires
        0 <= p < states.len(),
        0 <= n <= states.len(),
        has_at(text, start, states[p]),
        start + states[p].len() <= end,
        forall|k: int|
            0 <= k < states.len() && k != p && has_at(text, start, #[trigger] states[k]) && start
                + states[k].len() <= end ==> states[k].len() < states[p].len(),
    ensures
        best_match(states, text, start, end, n) matches Some(k) ==> k == p || (k < n
            && states[k].len() < states[p].len()),
        n > p ==> best_match(states, text, start, end, n) == Some(p),
    decreases n,
{
    if n > 0 {
        lemma_best_is(states, text, start, end, n - 1, p);
        lemma_best_match(states, text, start, end, n - 1);
    }
}

impl StateModel {
    /// The prefixes that tab cycles through are worth cycling through: there are
    /// several, and no two are the same.
    pub open spec fn tab_states_differ(self) -> bool {
        let states = self.tab_states();
        &&& states.len() > 1
        &&& forall|i: int, j: int|
            0 <= i < j < states.len() ==> #[trigger] states[i] != #[trigger] states[j]
    }

    /// The line holds nothing but its present prefix, and the cursor stands
    /// behind it.
    pub open spec fn bare_prefix(self) -> bool {
        &&& self.tab_match() is Some
        &&& self.prefix_end() == line_finish(self.text(), self.cursor() as int)
        &&& self.cursor() == self.prefix_end()
    }

    /// The text has room for the prefixes that tab cycles through.
    pub open spec fn tab_states_fit(self) -> bool {
        forall|i: int, j: int|
            0 <= i < self.tab_states().len() && 0 <= j < self.tab_states().len()
                ==> self.text().len() + (#[trigger] self.tab_states()[i]).len() + (
            #[trigger] self.tab_states()[j]).len() <= usize::MAX
    }

    /// The place in the cycle that tab goes to.
    pub open spec fn next_place(self) -> int {
        next_in_cycle(self.tab_place(), self.tab_states().len() as int)
    }

    /// The place in the cycle that shift and tab go to.
    pub open spec fn previous_place(self) -> int {
        previous_in_cycle(self.tab_place(), self.tab_states().len() as int)
    }

    /// The state after the line was given a prefix of the cycle, before the boxes
    /// around it follow.
    pub open spec fn given(self, place: int) -> StateModel {
        self.tab_cached().prefixed(self.tab_states()[place], self.prefix_end())
    }
}

/// A line that is a prefix of the cycle from its start to its end, with the cursor
/// at the end, is found at the place of that prefix.
#[verifier::spinoff_prover]
pub proof fn law_line_of_one_prefix(m: StateModel, place: int)
    requires
        valid_utf8(m.text()),
        m.cursor() <= m.text().len(),
        m.cache_ok(),
        m.tab_states_differ(),
        m.is_prefix_at(place),
    ensures
        m.tab_match() == Some(place),
        m.bare_prefix(),
{
    lemma_tab_states_tidy(m);
    let states = m.tab_states();
    let text = m.text();
    let stop = m.cursor() as int;
    let start = line_begin(text, stop);
    let prefix = states[place];
    lemma_line_begin(text, stop);
    lemma_line_finish(text, stop);
    lemma_find_byte(text, NEWLINE, stop);
    let line = line_of(text, stop);
    let end = line_start(text, line + 1);
    assert(line_finish(text, start) == stop);
    assert(end == if stop < text.len() {
        stop + 1
    } else {
        text.len() as int
    });
    assert forall|k: int|
        0 <= k < states.len() && k != place && has_at(text, start, #[trigger] states[k]) && start
            + states[k].len() <= end implies states[k].len() < prefix.len() by {
        let s = states[k];
        assert(text.subrange(start, start + s.len()) == s);
        assert(tidy(s));
        if s.len() > prefix.len() {
            assert(s[stop - start] == text[stop]);
        } else if s.len() == prefix.len() {
            assert(s == prefix);
            assert(k < place ==> states[k] != states[place]);
            assert(place < k ==> states[place] != states[k]);
        }
    }
    lemma_best_is(states, text, start, end, states.len() as int, place);
}

/// A line that holds nothing but a prefix of the cycle and is given another one
/// holds nothing but that one, which is found at its place in the same cycle.
#[verifier::spinoff_prover]
#[verifier::rlimit(30)]
pub proof fn law_given_prefix_is_found(m: StateModel, place: int)
    requires
        valid_utf8(m.text()),
        m.cursor() <= m.text().len() <= usize::MAX,
        m.cache_ok(),
        m.tab_states_differ(),
        m.bare_prefix(),
        0 <= place < m.tab_states().len(),
        m.text().len() + m.tab_states()[place].len() <= usize::MAX,
    ensures
        m.given(place).tab_states() == m.tab_states(),
        m.given(place).tab_match() == Some(place),
        m.given(place).bare_prefix(),
        m.given(place).cache_ok(),
        m.given(place).tab_states_differ(),
        m.given(place).text() == spliced(
            m.text(),
            line_begin(m.text(), m.cursor() as int),
            m.cursor() as int,
            m.tab_states()[place],
        ),
        line_begin(m.given(place).text(), m.given(place).cursor() as int) == line_begin(
            m.text(),
            m.cursor() as int,
        ),
{
    lemma_tab_states_tidy(m);
    let states = m.tab_states();
    let text = m.text();
    let cursor = m.cursor() as int;
    let prefix = states[place];
    assert(tidy(prefix));
    let start = line_begin(text, cursor);
    lemma_line_begin(text, cursor);
    lemma_line_finish(text, cursor);
    crate::lines::lemma_line_finish_boundary(text, cursor);
    law_tab_keeps_its_states(m, prefix, cursor);
    law_prefix_replaced(m.tab_cached(), prefix, cursor);
    let g = m.given(place);
    let after = spliced(text, start, cursor, prefix);
    let stop = start + prefix.len();
    lemma_spliced_back(text, start, cursor, prefix);
    assert(g.text() == after);
    assert(g.cursor() == stop);
    assert forall|j: int| start <= j < stop implies after[j] != NEWLINE by {
        assert(after[j] == prefix[j - start]);
    }
    lemma_line_begin(after, start);
    lemma_line_begin(after, stop);
    assert(start > 0 ==> after[start - 1] == text[start - 1]);
    assert(line_begin(after, start) == start);
    crate::lines::lemma_line_of_same(after, start, stop);
    assert(line_begin(after, stop) == start);
    assert(stop < after.len() ==> after[stop] == text[cursor]);
    lemma_find_byte(text, NEWLINE, cursor);
    lemma_find_byte(after, NEWLINE, stop);
    assert(line_finish(after, stop) == stop);
    lemma_line_finish(after, stop);
    assert(after.subrange(start, stop) == prefix);
    crate::lines::lemma_line_start_boundary(text, line_of(text, cursor));
    lemma_boundary_after(text, start, cursor, prefix, cursor);
    law_line_of_one_prefix(g, place);
}

proof fn lemma_tab_place(m: StateModel)
    requires
        m.tab_match() is Some,
    ensures
        0 <= m.tab_place() < m.tab_states().len(),
{
    let line = line_of(m.text(), m.cursor() as int);
    lemma_best_match(
        m.tab_states(),
        m.text(),
        line_start(m.text(), line),
        line_start(m.text(), line + 1),
        m.tab_states().len() as int,
    );
}

/// On a line that holds nothing but a prefix, shift and tab take back what tab
/// did, as long as no task box around the line follows a change.
pub proof fn law_shift_tab_undoes_tab(m: StateModel)
    requires
        valid_utf8(m.text()),
        m.cursor() <= m.text().len() <= usize::MAX,
        m.cache_ok(),
        m.tab_states_differ(),
        m.bare_prefix(),
        m.text().len() + m.tab_states()[m.next_place()].len() <= usize::MAX,
        settled(m.given(m.next_place())) == m.given(m.next_place()),
        settled(m.given(m.next_place()).given(m.tab_place())) == m.given(
            m.next_place(),
        ).given(m.tab_place()),
    ensures
        m.tabbed().shift_tabbed().text() == m.text(),
        m.tabbed().shift_tabbed().cursor() == m.cursor(),
{
    let n = m.tab_states().len() as int;
    let place = m.tab_place();
    let p = m.next_place();
    let g = m.given(p);
    lemma_tab_place(m);
    law_cycle_steps_are_inverse(place, n);
    lemma_there_and_back(m, p);
    assert(m.tabbed() == g) by {
        reveal(StateModel::cycled);
        reveal(StateModel::tabbed);
    }
    assert(g.previous_place() == place);
    assert(g.shift_tabbed() == g.given(place)) by {
        reveal(StateModel::cycled);
        reveal(StateModel::shift_tabbed);
    }
}

/// On a line that holds nothing but a prefix, tab takes back what shift and tab
/// did, as long as no task box around the line follows a change.
pub proof fn law_tab_undoes_shift_tab(m: StateModel)
    requires
        valid_utf8(m.text()),
        m.cursor() <= m.text().len() <= usize::MAX,
        m.cache_ok(),
        m.tab_states_differ(),
        m.bare_prefix(),
        m.text().len() + m.tab_states()[m.previous_place()].len() <= usize::MAX,
        settled(m.given(m.previous_place())) == m.given(m.previous_place()),
        settled(m.given(m.previous_place()).given(m.tab_place())) == m.given(
            m.previous_place(),
        ).given(m.tab_place()),
    ensures
        m.shift_tabbed().tabbed().text() == m.text(),
        m.shift_tabbed().tabbed().cursor() == m.cursor(),
{
    let n = m.tab_states().len() as int;
    let place = m.tab_place();
    let p = m.previous_place();
    let g = m.given(p);
    lemma_tab_place(m);
    law_cycle_steps_are_inverse(place, n);
    lemma_there_and_back(m, p);
    assert(m.shift_tabbed() == g) by {
        reveal(StateModel::cycled);
        reveal(StateModel::shift_tabbed);
    }
    assert(g.next_place() == place);
    assert(g.tabbed() == g.given(place)) by {
        reveal(StateModel::cycled);
        reveal(StateModel::tabbed);
    }
}

/// A line that holds nothing but a prefix gets its text back when the prefix it
/// was given makes way for the old one.
proof fn lemma_there_and_back(m: StateModel, p: int)
    requires
        valid_utf8(m.text()),
        m.cursor() <= m.text().len() <= usize::MAX,
        m.cache_ok(),
        m.tab_states_differ(),
        m.bare_prefix(),
        0 <= p < m.tab_states().len(),
        m.text().len() + m.tab_states()[p].len() <= usize::MAX,
    ensures
        m.given(p).tab_states() == m.tab_states(),
        m.given(p).tab_place() == p,
        m.given(p).given(m.tab_place()).text() == m.text(),
        m.given(p).given(m.tab_place()).cursor() == m.cursor(),
{
    lemma_tab_states_tidy(m);
    let place = m.tab_place();
    let states = m.tab_states();
    let text = m.text();
    let line = line_of(text, m.cursor() as int);
    let start = line_begin(text, m.cursor() as int);
    assert(tidy(states[p]));
    lemma_line_begin(text, m.cursor() as int);
    lemma_best_match(
        states,
        text,
        line_start(text, line),
        line_start(text, line + 1),
        states.len() as int,
    );
    law_given_prefix_is_found(m, p);
    let g = m.given(p);
    lemma_spliced_back(text, start, m.cursor() as int, states[p]);
    crate::lines::lemma_line_start_boundary(text, line);
    crate::lines::lemma_line_finish_boundary(text, m.cursor() as int);
    lemma_boundary_after(text, start, m.cursor() as int, states[p], m.cursor() as int);
    law_prefix_replaced(g.tab_cached(), states[place], g.prefix_end());
    assert(text.subrange(start, m.cursor() as int) == states[place]);
}

/// The state after tab was pressed `k` times.
pub open spec fn tabbed_times(m: StateModel, k: nat) -> StateModel
    decreases k,
{
    if k == 0 {
        m
    } else {
        tabbed_times(m, (k - 1) as nat).tabbed()
    }
}

/// Pressing tab once more would not make a task box around the line follow.
pub open spec fn tab_stays_local(m: StateModel) -> bool {
    settled(m.given(m.next_place())) == m.given(m.next_place())
}

#[verifier::spinoff_prover]
#[verifier::rlimit(30)]
proof fn lemma_tabbed_times(m: StateModel, k: nat)
    requires
        valid_utf8(m.text()),
        m.cursor() <= m.text().len() <= usize::MAX,
        m.cache_ok(),
        m.tab_states_differ(),
        m.bare_prefix(),
        m.tab_states_fit(),
        forall|j: nat| j < k ==> tab_stays_local(#[trigger] tabbed_times(m, j)),
    ensures
        ({
            let t = tabbed_times(m, k);
            let start = line_begin(m.text(), m.cursor() as int);
            let place = steps_in_cycle(m.tab_place(), m.tab_states().len() as int, k);
            &&& 0 <= place < m.tab_states().len()
            &&& t.tab_states() == m.tab_states()
            &&& t.tab_place() == place
            &&& t.cache_ok()
            &&& t.tab_states_differ()
            &&& t.bare_prefix()
            &&& valid_utf8(t.text())
            &&& t.text() == spliced(m.text(), start, m.cursor() as int, m.tab_states()[place])
            &&& line_begin(t.text(), t.cursor() as int) == start
            &&& t.cursor() == start + m.tab_states()[place].len()
            &&& start <= m.cursor()
        }),
    decreases k,
{
    lemma_tab_states_tidy(m);
    let states = m.tab_states();
    let n = states.len() as int;
    let text = m.text();
    let cursor = m.cursor() as int;
    let start = line_begin(text, cursor);
    let line = line_of(text, cursor);
    lemma_line_begin(text, cursor);
    crate::lines::lemma_line_start_boundary(text, line);
    crate::lines::lemma_line_finish_boundary(text, cursor);
    lemma_best_match(states, text, line_start(text, line), line_start(text, line + 1), n);
    if k == 0 {
        assert(text.subrange(start, cursor) == states[m.tab_place()]);
        assert(spliced(text, start, cursor, states[m.tab_place()]) =~= text);
    } else {
        reveal(StateModel::cycled);
        reveal(StateModel::tabbed);
        let j = (k - 1) as nat;
        lemma_tabbed_times(m, j);
        let t = tabbed_times(m, j);
        let place = steps_in_cycle(m.tab_place(), n, j);
        let next = next_in_cycle(place, n);
        law_cycle_steps_are_inverse(place, n);
        assert(states[place].len() + states[next].len() + text.len() <= usize::MAX);
        lemma_spliced_back(text, start, cursor, states[place]);
        assert(tidy(states[next]));
        law_given_prefix_is_found(t, next);
        lemma_boundary_after(text, start, cursor, states[next], cursor);
        assert(tab_stays_local(tabbed_times(m, j)));
        assert(t.tabbed() == t.given(next));
        assert(spliced(
            spliced(text, start, cursor, states[place]),
            start,
            start + states[place].len(),
            states[next],
        ) =~= spliced(text, start, cursor, states[next]));
    }
}

/// On a line that holds nothing but a prefix, pressing tab as often as there are
/// prefixes leads back to the text it began with, as long as no task box around
/// the line follows a change.
pub proof fn law_tab_cycles(m: StateModel)
    requires
        valid_utf8(m.text()),
        m.cursor() <= m.text().len() <= usize::MAX,
        m.cache_ok(),
        m.tab_states_differ(),
        m.bare_prefix(),
        m.tab_states_fit(),
        forall|j: nat|
            j < m.tab_states().len() ==> tab_stays_local(#[trigger] tabbed_times(m, j)),
    ensures
        tabbed_times(m, m.tab_states().len()).text() == m.text(),
        tabbed_times(m, m.tab_states().len()).cursor() == m.cursor(),
{
    let states = m.tab_states();
    let text = m.text();
    let cursor = m.cursor() as int;
    let line = line_of(text, cursor);
    lemma_tabbed_times(m, 0);
    lemma_tabbed_times(m, states.len());
    law_cycle_returns(m.tab_place(), states.len() as int);
    lemma_line_begin(text, cursor);
}

/// On a line that holds nothing but a prefix, the `k`-th tab gives the line the
/// `k`-th prefix after its own, counted round the cycle, and puts the cursor behind
/// it, as long as no task box around the line follows a change. Nothing else of the
/// text changes.
pub proof fn law_tab_steps_through(m: StateModel, k: nat)
    requires
        valid_utf8(m.text()),
        m.cursor() <= m.text().len() <= usize::MAX,
        m.cache_ok(),
        m.tab_states_differ(),
        m.bare_prefix(),
        m.tab_states_fit(),
        forall|j: nat| j < k ==> tab_stays_local(#[trigger] tabbed_times(m, j)),
    ensures
        ({
            let start = line_begin(m.text(), m.cursor() as int);
            let states = m.tab_states();
            let prefix = states[(m.tab_place() + k) % (states.len() as int)];
            &&& tabbed_times(m, k).text() == spliced(m.text(), start, m.cursor() as int, prefix)
            &&& tabbed_times(m, k).cursor() == start + prefix.len()
        }),
{
    lemma_tab_place(m);
    lemma_steps_in_cycle(m.tab_place(), m.tab_states().len() as int, k);
    lemma_tabbed_times(m, k);
}

// ---------------------------------------------------------------------------
// Texts without task boxes
// ---------------------------------------------------------------------------

impl StateModel {
    /// The text with the prefix at `place`, counted round the cycle, before the
    /// cursor in place of what stands there on the line.
    pub open spec fn cycle_text(self, place: int) -> Seq<u8> {
        spliced(
            self.text(),
            line_begin(self.text(), self.cursor() as int),
            self.cursor() as int,
            self.tab_states()[place % (self.tab_states().len() as int)],
        )
    }

    /// The line is the prefix at `place` from its start to its end, and the cursor
    /// stands at the end.
    pub open spec fn is_prefix_at(self, place: int) -> bool {
        &&& 0 <= place < self.tab_states().len()
        &&& self.cursor() == line_finish(self.text(), self.cursor() as int)
        &&& self.text().subrange(
            line_begin(self.text(), self.cursor() as int),
            self.cursor() as int,
        ) == self.tab_states()[place]
    }
}

/// In a text without task boxes, tab goes through the prefixes that fit under the
/// line above, task boxes written empty.
pub proof fn law_tab_states_without_boxes(m: StateModel)
    requires
        without_boxes(m.text()),
        m.cache is None,
    ensures
        m.tab_states() == cycle_states(m.text(), m.cursor(), None),
{
    lemma_no_task(m.text(), line_of(m.text(), m.cursor() as int));
}

/// One more tab makes no box follow when it leads to a text without task boxes.
#[verifier::spinoff_prover]
#[verifier::rlimit(30)]
proof fn lemma_step_stays_local(m: StateModel, i: nat)
    requires
        valid_utf8(m.text()),
        m.cursor() <= m.text().len() <= usize::MAX,
        m.cache_ok(),
        m.tab_states_differ(),
        m.bare_prefix(),
        m.tab_states_fit(),
        forall|j: nat| j < i ==> tab_stays_local(#[trigger] tabbed_times(m, j)),
        without_boxes(m.cycle_text(m.tab_place() + (i + 1))),
    ensures
        tab_stays_local(tabbed_times(m, i)),
{
    let t = tabbed_times(m, i);
    let states = m.tab_states();
    let n = states.len() as int;
    let start = line_begin(m.text(), m.cursor() as int);
    lemma_tabbed_times(m, i);
    lemma_tab_place(m);
    let place = steps_in_cycle(m.tab_place(), n, i);
    let next = next_in_cycle(place, n);
    law_cycle_steps_are_inverse(place, n);
    assert(next == (m.tab_place() + (i + 1)) % n) by {
        lemma_steps_in_cycle(m.tab_place(), n, i + 1);
    }
    assert(states[place].len() + states[next].len() + m.text().len() <= usize::MAX);
    lemma_line_begin(m.text(), m.cursor() as int);
    lemma_spliced_back(m.text(), start, m.cursor() as int, states[place]);
    assert(t.given(next).text() == spliced(
        t.text(),
        start,
        start + states[place].len(),
        states[next],
    )) by {
        law_given_prefix_is_found(t, next);
    }
    assert(spliced(t.text(), start, start + states[place].len(), states[next]) =~= spliced(
        m.text(),
        start,
        m.cursor() as int,
        states[next],
    ));
    law_no_boxes_to_settle(t.given(next));
}

proof fn lemma_tab_stays_local(m: StateModel, k: nat)
    requires
        valid_utf8(m.text()),
        m.cursor() <= m.text().len() <= usize::MAX,
        m.cache_ok(),
        m.tab_states_differ(),
        m.bare_prefix(),
        m.tab_states_fit(),
        forall|j: nat| 0 < j <= k ==> without_boxes(#[trigger] m.cycle_text(m.tab_place() + j)),
    ensures
        forall|j: nat| j < k ==> tab_stays_local(#[trigger] tabbed_times(m, j)),
    decreases k,
{
    if k > 0 {
        let i = (k - 1) as nat;
        lemma_tab_stays_local(m, i);
        assert(without_boxes(m.cycle_text(m.tab_place() + k)));
        lemma_step_stays_local(m, i);
        assert forall|j: nat| j < k implies tab_stays_local(#[trigger] tabbed_times(m, j)) by {
            if j < i {
            }
        }
    }
}

/// On a line that is a prefix of the cycle from its start to its end, with the
/// cursor at the end, the `k`-th tab makes the line the `k`-th prefix after it,
/// counted round the cycle, with the cursor at the end, as long as no text on the way
/// has a task box. Nothing else of the text changes.
pub proof fn law_kth_tab_without_boxes(m: StateModel, place: int, k: nat)
    requires
        valid_utf8(m.text()),
        m.cursor() <= m.text().len() <= usize::MAX,
        m.cache_ok(),
        m.tab_states_differ(),
        m.is_prefix_at(place),
        m.tab_states_fit(),
        forall|j: nat| 0 < j <= k ==> without_boxes(#[trigger] m.cycle_text(place + j)),
    ensures
        ({
            let start = line_begin(m.text(), m.cursor() as int);
            let states = m.tab_states();
            let prefix = states[(place + k) % (states.len() as int)];
            &&& tabbed_times(m, k).text() == spliced(m.text(), start, m.cursor() as int, prefix)
            &&& tabbed_times(m, k).cursor() == start + prefix.len()
        }),
{
    law_line_of_one_prefix(m, place);
    lemma_tab_stays_local(m, k);
    law_tab_steps_through(m, k);
}

/// On such a line, as many tabs as there are prefixes give the text and the cursor
/// back.
pub proof fn law_tab_cycles_without_boxes(m: StateModel, place: int)
    requires
        valid_utf8(m.text()),
        m.cursor() <= m.text().len() <= usize::MAX,
        m.cache_ok(),
        m.tab_states_differ(),
        m.is_prefix_at(place),
        m.tab_states_fit(),
        forall|j: nat|
            0 < j <= m.tab_states().len() ==> without_boxes(#[trigger] m.cycle_text(place + j)),
    ensures
        tabbed_times(m, m.tab_states().len()).text() == m.text(),
        tabbed_times(m, m.tab_states().len()).cursor() == m.cursor(),
{
    law_line_of_one_prefix(m, place);
    lemma_tab_stays_local(m, m.tab_states().len());
    law_tab_cycles(m);
}

/// On such a line, shift and tab take back what tab did, and tab takes back what
/// shift and tab did, as long as neither the text nor the one in between has a task
/// box.
pub proof fn law_tabs_are_inverse_without_boxes(m: StateModel, place: int)
    requires
        valid_utf8(m.text()),
        m.cursor() <= m.text().len() <= usize::MAX,
        m.cache_ok(),
        m.tab_states_differ(),
        m.is_prefix_at(place),
        m.tab_states_fit(),
        without_boxes(m.text()),
    ensures
        without_boxes(m.cycle_text(place + 1)) ==> m.tabbed().shift_tabbed().text() == m.text()
            && m.tabbed().shift_tabbed().cursor() == m.cursor(),
        without_boxes(m.cycle_text(place - 1)) ==> m.shift_tabbed().tabbed().text() == m.text()
            && m.shift_tabbed().tabbed().cursor() == m.cursor(),
{
    law_line_of_one_prefix(m, place);
    let states = m.tab_states();
    let n = states.len() as int;
    law_cycle_steps_are_inverse(place, n);
    let (next, previous) = (m.next_place(), m.previous_place());
    assert(states[next].len() + states[place].len() + m.text().len() <= usize::MAX);
    assert(states[previous].len() + states[place].len() + m.text().len() <= usize::MAX);
    lemma_previous_in_cycle(place, n);
    if without_boxes(m.cycle_text(place + 1)) {
        lemma_given_without_boxes(m, next);
        law_shift_tab_undoes_tab(m);
    }
    if without_boxes(m.cycle_text(place - 1)) {
        lemma_given_without_boxes(m, previous);
        law_tab_undoes_shift_tab(m);
    }
}

proof fn lemma_previous_in_cycle(i: int, n: int)
    requires
        0 <= i < n,
    ensures
        previous_in_cycle(i, n) == (i - 1) % n,
{
    if i == 0 {
        vstd::arithmetic::div_mod::lemma_mod_add_multiples_vanish(-1, n);
        vstd::arithmetic::div_mod::lemma_small_mod((n - 1) as nat, n as nat);
    } else {
        vstd::arithmetic::div_mod::lemma_small_mod((i - 1) as nat, n as nat);
    }
}

/// No box follows when a line is given another prefix, nor when it gets its own
/// back.
#[verifier::spinoff_prover]
proof fn lemma_given_without_boxes(m: StateModel, p: int)
    requires
        valid_utf8(m.text()),
        m.cursor() <= m.text().len() <= usize::MAX,
        m.cache_ok(),
        m.tab_states_differ(),
        m.bare_prefix(),
        0 <= p < m.tab_states().len(),
        m.text().len() + m.tab_states()[p].len() <= usize::MAX,
        without_boxes(m.text()),
        without_boxes(
            spliced(
                m.text(),
                line_begin(m.text(), m.cursor() as int),
                m.cursor() as int,
                m.tab_states()[p],
            ),
        ),
    ensures
        settled(m.given(p)) == m.given(p),
        settled(m.given(p).given(m.tab_place())) == m.given(p).given(m.tab_place()),
{
    lemma_tab_place(m);
    assert(without_boxes(m.given(p).text())) by {
        law_given_prefix_is_found(m, p);
    }
    assert(m.given(p).given(m.tab_place()).text() == m.text()) by {
        lemma_there_and_back(m, p);
    }
    law_no_boxes_to_settle(m.given(p));
    law_no_boxes_to_settle(m.given(p).given(m.tab_place()));
}

/// Where at most one prefix fits, neither tab nor shift and tab change the text or
/// the selection.
pub proof fn law_lone_prefix_stays(m: StateModel)
    requires
        m.tab_states().len() <= 1,
    ensures
        m.tabbed().text() == m.text(),
        m.tabbed().selection == m.selection,
        m.shift_tabbed().text() == m.text(),
        m.shift_tabbed().selection == m.selection,
{
    reveal(StateModel::cycled);
    reveal(StateModel::tabbed);
    reveal(StateModel::shift_tabbed);
}

} // verus!
