//! How a task box that was set is followed by the boxes around it: all the way up,
//! and without touching the line of the cursor.

use vstd::prelude::*;
use vstd::utf8::*;

use crate::checkbox::{
    box_place, boxes_set, lemma_line_text, lines_struck, mark, marked, parent_box_near,
    parent_follows, risen, settled, settled_around, sibling_boxes_near, struck, toggled,
};
use crate::line_scan::{lemma_line_model, line_model};
use crate::lines::{
    lemma_line_there, lemma_on_line, lemma_place_on_line, lemma_starts_moved,
    line_of, line_start, line_text, line_total,
};
use crate::marker::Span;
use crate::outline::{all_checked, lemma_parent_box, TaskBox};
use crate::state::StateModel;
use crate::text::lemma_find_from;
use crate::toggle::{
    box_column, box_line, boxes_apart, can_toggle, content_column, lemma_box_there,
    lemma_boxes_set_lines, lemma_cursor_goes, lemma_lines_struck, lemma_struck_lines,
    lemma_struck_text, lemma_toggled_boxes_fit, lemma_toggled_column, lemma_toggled_part,
    marked_row, struck_row, toggled_box, toggled_boxes, toggled_column, toggled_part, without_box,
};
use crate::tree::box_fits;

verus! {

/// Whether a place is on the same line, as far into it, in two texts that have the
/// same lines from that one on.
pub open spec fn keeps_place(s: Seq<u8>, c: usize, t: Seq<u8>, d: usize) -> bool {
    let l = line_of(s, c as int);
    &&& line_total(t) == line_total(s)
    &&& d <= t.len()
    &&& line_of(t, d as int) == l
    &&& d - line_start(t, l) == c - line_start(s, l)
    &&& forall|k: int| l <= k < line_total(s) ==> #[trigger] line_text(t, k) == line_text(s, k)
}

/// What stands in a box: an `x`, or a space.
pub open spec fn sign_of(checked: bool) -> u8 {
    if checked {
        120
    } else {
        32
    }
}

/// Where a cursor on a later line goes when a line is struck through or not.
proof fn lemma_struck_place(m: StateModel, line: int, add: bool, cursor: usize)
    requires
        valid_utf8(m.text()),
        m.text().len() + 4 <= usize::MAX,
        0 <= line < line_of(m.text(), cursor as int),
        cursor <= m.text().len(),
    ensures
        keeps_place(
            m.text(),
            cursor,
            struck(m, line, add, cursor).0.text(),
            struck(m, line, add, cursor).1,
        ),
{
    let text = m.text();
    let (r, d) = struck(m, line, add, cursor);
    let t = r.text();
    let l = line_of(text, cursor as int);
    lemma_place_on_line(text, cursor as int);
    lemma_line_there(text, line);
    lemma_line_there(text, line + 1);
    crate::lines::lemma_line_start_monotone(text, line + 1, l);
    lemma_struck_text(m, line, add, cursor);
    lemma_struck_lines(m, line, add, cursor);
    lemma_line_text(text, line);
    lemma_starts_moved(text, t, line, l);
    lemma_line_there(t, line);
    assert(t.len() - text.len() == line_text(t, line).len() - line_text(text, line).len()) by {
        lemma_struck_growth(m, line, add, cursor);
    }
    assert(d == cursor + (t.len() - text.len())) by {
        reveal(struck);
    }
    lemma_on_line(t, l, d as int);
}

/// A text grows by as much as the one line that changed.
proof fn lemma_struck_growth(m: StateModel, line: int, add: bool, cursor: usize)
    requires
        valid_utf8(m.text()),
        m.text().len() + 4 <= usize::MAX,
        0 <= line < line_total(m.text()),
    ensures
        ({
            let t = struck(m, line, add, cursor).0.text();
            t.len() - m.text().len() == line_text(t, line).len() - line_text(m.text(), line).len()
        }),
{
    let text = m.text();
    let t = struck(m, line, add, cursor).0.text();
    lemma_struck_lines(m, line, add, cursor);
    let last = line_total(text) - 1;
    lemma_line_there(text, last);
    lemma_line_there(t, last);
    if last > line {
        lemma_starts_moved(text, t, line, last);
        assert(line_text(t, last) == line_text(text, last));
    }
}

/// What setting one box does: its line shows the mark and is struck through or not,
/// and no other line changes.
pub proof fn law_marking_changes_one_line(m: StateModel, off: usize, checked: bool, cursor: usize)
    requires
        valid_utf8(m.text()),
        m.text().len() + 4 <= usize::MAX,
        box_fits(m.text(), off as int),
    ensures
        ({
            let text = m.text();
            let t = marked(m, off, checked, cursor).0.text();
            let line = box_line(text, off);
            &&& valid_utf8(t)
            &&& t.len() <= text.len() + 4
            &&& line_total(t) == line_total(text)
            &&& line_start(t, line) == line_start(text, line)
            &&& exists|col: int|
                0 <= col <= line_text(text, line).len() && line_text(t, line)
                    == #[trigger] struck_row(
                    line_text(text, line).update(box_column(text, off) + 1, sign_of(checked)),
                    col,
                    checked,
                )
            &&& forall|k: int|
                0 <= k < line_total(text) && k != line ==> #[trigger] line_text(t, k)
                    == line_text(text, k)
            &&& cursor <= text.len() && line < line_of(text, cursor as int) ==> keeps_place(
                text,
                cursor,
                t,
                marked(m, off, checked, cursor).1,
            )
        }),
{
    let text = m.text();
    let line = box_line(text, off);
    let offs = seq![off];
    let set = m.holding(m.buffer.splice(off + 1, off + 2, mark(checked), cursor));
    assert(boxes_set(m, offs, checked, cursor, 0) == m);
    assert(boxes_set(m, offs, checked, cursor, 1) == set);
    lemma_boxes_set_lines(m, offs, checked, cursor);
    lemma_box_there(text, off);
    assert(box_line(text, offs[0]) == line);
    assert(line_of(set.text(), off as int) == line);
    lemma_struck_lines(set, line, checked, cursor);
    crate::toggle::lemma_row(set.text(), line);
    let col = content_column(set.text(), line);
    let t = struck(set, line, checked, cursor).0.text();
    assert(mark(checked)[0] == sign_of(checked));
    assert(line_text(t, line) == struck_row(
        line_text(text, line).update(box_column(text, off) + 1, sign_of(checked)),
        col,
        checked,
    ));
    assert forall|k: int| 0 <= k < line_total(text) && k != line implies #[trigger] line_text(t, k)
        == line_text(text, k) by {
        assert(without_box(text, offs, 1, k));
        assert(line_text(set.text(), k) == line_text(text, k));
    }
    if cursor <= text.len() && line < line_of(text, cursor as int) {
        let l = line_of(text, cursor as int);
        assert(line_of(set.text(), cursor as int) == l);
        lemma_struck_place(set, line, checked, cursor);
    }
}

/// A box that was set lies before a cursor on a later line.
proof fn lemma_marked_before(m: StateModel, off: usize, checked: bool, cursor: usize)
    requires
        valid_utf8(m.text()),
        m.text().len() + 4 <= usize::MAX,
        box_fits(m.text(), off as int),
        cursor <= m.text().len(),
        box_line(m.text(), off) < line_of(m.text(), cursor as int),
    ensures
        ({
            let (n, c) = marked(m, off, checked, cursor);
            &&& off <= c
            &&& line_of(n.text(), off as int) <= line_of(n.text(), c as int)
            &&& n.text().len() + 4 * line_of(n.text(), off as int) <= m.text().len() + 4 + 4
                * box_line(m.text(), off)
            &&& line_of(n.text(), off as int) <= box_line(m.text(), off) + 1
        }),
{
    let text = m.text();
    let (n, c) = marked(m, off, checked, cursor);
    let t = n.text();
    let line = box_line(text, off);
    let l = line_of(text, cursor as int);
    law_marking_changes_one_line(m, off, checked, cursor);
    lemma_box_there(text, off);
    lemma_place_on_line(text, cursor as int);
    lemma_marked_growth(m, off, checked, cursor);
    let grown = t.len() - text.len();
    lemma_line_there(t, line);
    lemma_line_there(t, line + 1);
    crate::lines::lemma_start_after_row(t, line + 1);
    crate::lines::lemma_line_start_monotone(t, line + 1, l);
    lemma_line_there(t, l);
    if grown >= 0 {
        lemma_on_line(t, line, off as int);
    } else {
        assert(off <= line_start(t, line + 1));
        if off < line_start(t, line + 1) {
            lemma_on_line(t, line, off as int);
        } else {
            lemma_on_line(t, line + 1, off as int);
        }
    }
    crate::lines::lemma_line_of_monotone(t, off as int, c as int);
}

/// Setting a box and striking its line through or not changes the length of the
/// text by the length of two pairs of tildes or not at all.
proof fn lemma_marked_growth(m: StateModel, off: usize, checked: bool, cursor: usize)
    requires
        valid_utf8(m.text()),
        m.text().len() + 4 <= usize::MAX,
        box_fits(m.text(), off as int),
    ensures
        ({
            let text = m.text();
            let t = marked(m, off, checked, cursor).0.text();
            let line = box_line(text, off);
            let grown = t.len() - text.len();
            &&& grown == 4 || grown == 0 || grown == -4
            &&& grown == line_text(t, line).len() - line_text(text, line).len()
        }),
{
    let text = m.text();
    let line = box_line(text, off);
    let offs = seq![off];
    let set = m.holding(m.buffer.splice(off + 1, off + 2, mark(checked), cursor));
    assert(boxes_set(m, offs, checked, cursor, 0) == m);
    assert(boxes_set(m, offs, checked, cursor, 1) == set);
    lemma_boxes_set_lines(m, offs, checked, cursor);
    lemma_box_there(text, off);
    assert(box_line(text, offs[0]) == line);
    assert(line_of(set.text(), off as int) == line);
    lemma_struck_growth(set, line, checked, cursor);
    lemma_struck_text(set, line, checked, cursor);
    lemma_line_text(set.text(), line);
    assert(line_text(set.text(), line).len() == line_text(text, line).len());
}

/// Whatever boxes around an item follow it, the lines from the item's own on stay
/// as they are, and a cursor on them keeps its place.
pub proof fn law_following_stays_above(m: StateModel, off: usize, checked: bool, cursor: usize)
    requires
        valid_utf8(m.text()),
        off <= m.text().len(),
        cursor <= m.text().len(),
        line_of(m.text(), off as int) <= line_of(m.text(), cursor as int),
        m.text().len() + 4 * line_of(m.text(), off as int) <= usize::MAX,
    ensures
        ({
            let (r, c) = risen(m, off, checked, cursor);
            &&& valid_utf8(r.text())
            &&& r.text().len() <= m.text().len() + 4 * line_of(m.text(), off as int)
            &&& line_total(r.text()) == line_total(m.text())
            &&& keeps_place(m.text(), cursor, r.text(), c)
            &&& forall|k: int|
                line_of(m.text(), off as int) <= k < line_total(m.text()) ==> #[trigger] line_text(
                    r.text(),
                    k,
                ) == line_text(m.text(), k)
        }),
    decreases off,
{
    let text = m.text();
    if let Some(p) = parent_follows(text, off, checked) {
        lemma_parent_box(text, off);
        crate::lines::lemma_line_of_bound(text, p.offset as int);
        let (n, c) = marked(m, p.offset, checked, cursor);
        law_marking_changes_one_line(m, p.offset, checked, cursor);
        lemma_marked_before(m, p.offset, checked, cursor);
        crate::lines::lemma_line_of_bound(n.text(), p.offset as int);
        law_following_stays_above(n, p.offset, checked, c);
    } else {
        lemma_place_on_line(text, cursor as int);
        crate::lines::lemma_line_of_bound(text, off as int);
    }
}

/// Carrying a change on from an item whose parent must follow is setting the
/// parent's box and carrying on from there; where no parent must follow nothing
/// changes.
pub proof fn law_following_goes_on(m: StateModel, off: usize, checked: bool, cursor: usize)
    ensures
        parent_follows(m.text(), off, checked) is None ==> risen(m, off, checked, cursor) == (
            m,
            cursor,
        ),
        parent_follows(m.text(), off, checked) matches Some(p) ==> ({
            let (n, c) = marked(m, p.offset, checked, cursor);
            risen(m, off, checked, cursor) == risen(n, p.offset, checked, c)
        }),
{
    lemma_parent_box(m.text(), off);
}

/// Striking a row through or not leaves a box on it within its length.
proof fn lemma_box_within(row: Seq<u8>, b: int, col: int, add: bool)
    requires
        0 <= b,
        b + 3 <= row.len(),
        row[b] == 91,
        row[b + 2] == 93,
        0 <= col <= row.len(),
    ensures
        b <= struck_row(row, col, add).len(),
{
    let all = row.len() as int;
    let (x, z) = (
        crate::space::trim_from(row, col, all),
        crate::space::trim_to(row, col, all),
    );
    crate::space::lemma_trim(row, col, all);
    if !add && x + 4 <= z && crate::checkbox::is_struck(row, x, z) {
        let t = row.subrange(z - 2, z);
        assert(t[0] == 126 && t[1] == 126);
        assert(row[z - 2] == t[0] && row[z - 1] == t[1]);
        if x <= b {
            crate::space::lemma_stops_behind(row, x, all, b);
        }
    }
}

/// A box that is set stays on its line.
proof fn lemma_marked_stays(m: StateModel, off: usize, checked: bool, cursor: usize)
    requires
        valid_utf8(m.text()),
        m.text().len() + 4 <= usize::MAX,
        box_fits(m.text(), off as int),
    ensures
        line_of(marked(m, off, checked, cursor).0.text(), off as int) == box_line(m.text(), off),
{
    let text = m.text();
    let t = marked(m, off, checked, cursor).0.text();
    let line = box_line(text, off);
    law_marking_changes_one_line(m, off, checked, cursor);
    lemma_box_there(text, off);
    lemma_place_on_line(text, off as int);
    lemma_line_there(text, line);
    let row = line_text(text, line);
    let b = box_column(text, off);
    assert(row[b] == text[off as int] && row[b + 2] == text[off + 2]);
    let set = row.update(b + 1, sign_of(checked));
    let col = choose|col: int|
        0 <= col <= row.len() && line_text(t, line) == #[trigger] struck_row(set, col, checked);
    lemma_box_within(set, b, col, checked);
    lemma_on_line(t, line, off as int);
}

/// A parent that follows shows the change in the end: however far the change is
/// carried on, its line has the mark in its box and is struck through or not.
pub proof fn law_parent_that_follows_shows_the_mark(
    m: StateModel,
    off: usize,
    checked: bool,
    cursor: usize,
    p: TaskBox,
)
    requires
        valid_utf8(m.text()),
        off <= m.text().len(),
        cursor <= m.text().len(),
        line_of(m.text(), off as int) <= line_of(m.text(), cursor as int),
        m.text().len() + 4 * line_of(m.text(), off as int) <= usize::MAX,
        parent_follows(m.text(), off, checked) == Some(p),
    ensures
        ({
            let text = m.text();
            let r = risen(m, off, checked, cursor).0.text();
            let line = box_line(text, p.offset);
            exists|col: int|
                0 <= col <= line_text(text, line).len() && line_text(r, line)
                    == #[trigger] struck_row(
                    line_text(text, line).update(box_column(text, p.offset) + 1, sign_of(checked)),
                    col,
                    checked,
                )
        }),
{
    let text = m.text();
    lemma_parent_box(text, off);
    crate::lines::lemma_line_of_bound(text, p.offset as int);
    let (n, c) = marked(m, p.offset, checked, cursor);
    law_marking_changes_one_line(m, p.offset, checked, cursor);
    lemma_marked_before(m, p.offset, checked, cursor);
    crate::lines::lemma_line_of_bound(n.text(), p.offset as int);
    law_following_stays_above(n, p.offset, checked, c);
    law_following_goes_on(m, off, checked, cursor);
    let line = box_line(text, p.offset);
    lemma_place_on_line(text, p.offset as int);
    lemma_marked_stays(m, p.offset, checked, cursor);
    assert(line_text(risen(n, p.offset, checked, c).0.text(), line) == line_text(n.text(), line));
}

/// Whether going up from the box at `off` leads to the box at `top` and the state
/// `r`: each time the parent that must follow is set, with nothing left out.
pub open spec fn leads_up(
    m: StateModel,
    off: usize,
    checked: bool,
    cursor: usize,
    r: StateModel,
    top: usize,
    steps: nat,
) -> bool
    decreases steps,
{
    if steps == 0 {
        r == m && top == off
    } else {
        parent_follows(m.text(), off, checked) matches Some(p) && leads_up(
            marked(m, p.offset, checked, cursor).0,
            p.offset,
            checked,
            marked(m, p.offset, checked, cursor).1,
            r,
            top,
            (steps - 1) as nat,
        )
    }
}

/// Carrying a change up ends only where nothing is left to follow: at the topmost
/// box that was set, no parent is still to be set.
pub proof fn law_nothing_is_left_to_follow(m: StateModel, off: usize, checked: bool, cursor: usize)
    ensures
        exists|top: usize, steps: nat|
            #[trigger] leads_up(
                m,
                off,
                checked,
                cursor,
                risen(m, off, checked, cursor).0,
                top,
                steps,
            ) && parent_follows(risen(m, off, checked, cursor).0.text(), top, checked) is None,
    decreases off,
{
    lemma_parent_box(m.text(), off);
    let r = risen(m, off, checked, cursor).0;
    match parent_follows(m.text(), off, checked) {
        Some(p) => {
            let (n, c) = marked(m, p.offset, checked, cursor);
            law_nothing_is_left_to_follow(n, p.offset, checked, c);
            let (top, steps) = choose|top: usize, steps: nat|
                #[trigger] leads_up(n, p.offset, checked, c, r, top, steps) && parent_follows(
                    r.text(),
                    top,
                    checked,
                ) is None;
            assert(leads_up(m, off, checked, cursor, r, top, steps + 1));
        },
        None => {
            assert(leads_up(m, off, checked, cursor, r, off, 0));
        },
    }
}

// ---------------------------------------------------------------------------
// After a toggle and after an edit
// ---------------------------------------------------------------------------

/// After a line was toggled nothing is left to follow: the change was carried up
/// from the line's box, once it and the boxes nested in its item were set, until no
/// parent is still to be set.
pub proof fn law_toggle_is_carried_up(m: StateModel, line: int, off: usize, to: bool)
    requires
        0 <= line < line_total(m.text()),
        toggled_box(m.text(), line) == Some((off, !to)),
    ensures
        exists|r: StateModel, top: usize, steps: nat, c: usize|
            #[trigger] leads_up(
                toggled_part(m, line, toggled_boxes(m.text(), line).len() as int),
                off,
                to,
                c,
                r,
                top,
                steps,
            ) && parent_follows(r.text(), top, to) is None && r.text() == toggled(m, line).text(),
{
    reveal(toggled);
    let cursor = m.selection.head;
    let offs = toggled_boxes(m.text(), line);
    let n = offs.len() as int;
    let set = boxes_set(m, offs, to, cursor, n);
    let (part, c) = lines_struck(set, offs, to, cursor, n);
    assert(part == toggled_part(m, line, n));
    law_nothing_is_left_to_follow(part, off, to, c);
    let r = risen(part, off, to, c).0;
    let (top, steps) = choose|top: usize, steps: nat|
        #[trigger] leads_up(part, off, to, c, r, top, steps) && parent_follows(
            r.text(),
            top,
            to,
        ) is None;
    assert(leads_up(part, off, to, c, r, top, steps));
}

/// After an edit on a line with a task box, nothing is left to follow that box.
pub proof fn law_edited_box_is_followed(m: StateModel, off: usize, checked: bool)
    requires
        m.cursor() <= m.text().len(),
        toggled_box(m.text(), line_of(m.text(), m.cursor() as int)) == Some((off, checked)),
    ensures
        exists|r: StateModel, top: usize, steps: nat|
            #[trigger] leads_up(m, off, checked, m.cursor(), r, top, steps) && parent_follows(
                r.text(),
                top,
                checked,
            ) is None && r.text() == settled(m).text(),
{
    reveal(settled);
    law_nothing_is_left_to_follow(m, off, checked, m.cursor());
    let r = risen(m, off, checked, m.cursor()).0;
    let (top, steps) = choose|top: usize, steps: nat|
        #[trigger] leads_up(m, off, checked, m.cursor(), r, top, steps) && parent_follows(
            r.text(),
            top,
            checked,
        ) is None;
    assert(leads_up(m, off, checked, m.cursor(), r, top, steps));
}

/// After an edit on a line without a task box, in an item whose parent has one, the
/// parent's box shows whether all the boxes of the item's list are checked, if there
/// are any, and what must follow the parent has followed.
pub proof fn law_parent_shows_its_list(m: StateModel, p: TaskBox)
    requires
        m.cursor() <= m.text().len(),
        toggled_box(m.text(), line_of(m.text(), m.cursor() as int)) is None,
        line_model(m.text(), line_of(m.text(), m.cursor() as int)).task() is None,
        parent_box_near(m.text(), m.cursor()) == Some(p),
        sibling_boxes_near(m.text(), m.cursor()).len() > 0,
    ensures
        ({
            let all = all_checked(sibling_boxes_near(m.text(), m.cursor()));
            let (n, c) = marked(m, p.offset, all, m.cursor());
            &&& p.checked == all ==> settled(m) == m
            &&& p.checked != all ==> exists|r: StateModel, top: usize, steps: nat|
                #[trigger] leads_up(n, p.offset, all, c, r, top, steps) && parent_follows(
                    r.text(),
                    top,
                    all,
                ) is None && r.text() == settled(m).text()
        }),
{
    reveal(settled);
    reveal(settled_around);
    let all = all_checked(sibling_boxes_near(m.text(), m.cursor()));
    if p.checked != all {
        let (n, c) = marked(m, p.offset, all, m.cursor());
        law_nothing_is_left_to_follow(n, p.offset, all, c);
        let r = risen(n, p.offset, all, c).0;
        let (top, steps) = choose|top: usize, steps: nat|
            #[trigger] leads_up(n, p.offset, all, c, r, top, steps) && parent_follows(
                r.text(),
                top,
                all,
            ) is None;
        assert(leads_up(n, p.offset, all, c, r, top, steps));
    }
}

/// Whatever boxes follow an edit, the cursor keeps its place on its line, and that
/// line and all lines after it stay as they are.
pub proof fn law_settling_keeps_the_line(m: StateModel)
    requires
        valid_utf8(m.text()),
        m.cursor() <= m.text().len(),
        m.text().len() + 4 * line_of(m.text(), m.cursor() as int) + 4 <= usize::MAX,
    ensures
        valid_utf8(settled(m).text()),
        keeps_place(m.text(), m.cursor(), settled(m).text(), settled(m).cursor()),
        settled(m).text().len() <= m.text().len() + 4 * line_of(m.text(), m.cursor() as int) + 4,
{
    reveal(settled);
    let text = m.text();
    let cursor = m.cursor();
    let line = line_of(text, cursor as int);
    let lm = line_model(text, line);
    lemma_place_on_line(text, cursor as int);
    lemma_line_model(text, line);
    match lm.task() {
        Some(checked) => match box_place(text, lm.range, checked) {
            Some(off) => {
                lemma_box_place(text, lm.range, checked);
                lemma_on_line(text, line, off);
                law_following_stays_above(m, off as usize, checked, cursor);
            },
            None => {},
        },
        None => {
            lemma_settling_around(m);
        },
    }
}

proof fn lemma_box_place(text: Seq<u8>, range: Span, checked: bool)
    requires
        range.start <= range.end <= text.len(),
    ensures
        box_place(text, range, checked) matches Some(k) ==> range.start <= k && k + 3 <= range.end,
{
    let (lo, hi) = (range.start as int, range.end as int);
    lemma_find_from(text, seq![91u8, 32u8, 93u8], lo, hi);
    lemma_find_from(text, seq![91u8, 120u8, 93u8], lo, hi);
    lemma_find_from(text, seq![91u8, 88u8, 93u8], lo, hi);
}

proof fn lemma_settling_around(m: StateModel)
    requires
        valid_utf8(m.text()),
        m.cursor() <= m.text().len(),
        m.text().len() + 4 * line_of(m.text(), m.cursor() as int) + 4 <= usize::MAX,
    ensures
        valid_utf8(settled_around(m).text()),
        keeps_place(m.text(), m.cursor(), settled_around(m).text(), settled_around(m).cursor()),
        settled_around(m).text().len() <= m.text().len() + 4 * line_of(
            m.text(),
            m.cursor() as int,
        ) + 4,
{
    reveal(settled_around);
    let text = m.text();
    let cursor = m.cursor();
    let boxes = sibling_boxes_near(text, cursor);
    lemma_place_on_line(text, cursor as int);
    if let Some(p) = parent_box_near(text, cursor) {
        if boxes.len() > 0 && all_checked(boxes) != p.checked {
            lemma_parent_box(text, cursor);
            if cursor > 0 {
                lemma_parent_box(text, (cursor - 1) as usize);
                crate::lines::lemma_line_of_monotone(text, cursor - 1, cursor as int);
            }
            crate::lines::lemma_line_of_bound(text, p.offset as int);
            let (n, c) = marked(m, p.offset, !p.checked, cursor);
            law_marking_changes_one_line(m, p.offset, !p.checked, cursor);
            lemma_marked_before(m, p.offset, !p.checked, cursor);
            crate::lines::lemma_line_of_bound(n.text(), p.offset as int);
            law_following_stays_above(n, p.offset, !p.checked, c);
        }
    }
}

proof fn lemma_risen_forgets(m: StateModel, off: usize, checked: bool, cursor: usize)
    requires
        m.cache is None,
    ensures
        risen(m, off, checked, cursor).0.cache is None,
    decreases off,
{
    if let Some(p) = parent_follows(m.text(), off, checked) {
        lemma_parent_box(m.text(), off);
        if off <= p.offset {
            crate::lines::lemma_line_of_monotone(m.text(), off as int, p.offset as int);
        }
        let (next, c) = marked(m, p.offset, checked, cursor);
        assert(next.cache is None) by {
            reveal(struck);
        }
        lemma_risen_forgets(next, p.offset, checked, c);
    }
}

proof fn lemma_settled_forgets(m: StateModel)
    requires
        m.cache is None,
    ensures
        settled(m).cache is None,
{
    reveal(settled);
    reveal(settled_around);
    let cursor = m.selection.head;
    let lm = line_model(m.text(), line_of(m.text(), cursor as int));
    if let Some(checked) = lm.task() {
        if let Some(off) = box_place(m.text(), lm.range, checked) {
            lemma_risen_forgets(m, off as usize, checked, cursor);
        }
    }
    if let Some(p) = parent_box_near(m.text(), cursor) {
        let (next, c) = marked(m, p.offset, !p.checked, cursor);
        assert(next.cache is None) by {
            reveal(struck);
        }
        lemma_risen_forgets(next, p.offset, !p.checked, c);
    }
}

/// Once something was typed or deleted, tab starts its cycle anew from what stands
/// above the line.
pub proof fn law_editing_forgets_the_cycle(m: StateModel, t: Seq<u8>)
    ensures
        m.inserted(t).cache is None,
        m.backspaced().cache is None,
        m.deleted_forward().cache is None,
{
    reveal(StateModel::inserted);
    reveal(StateModel::unselected);
    reveal(StateModel::backspaced);
    reveal(StateModel::cut);
    reveal(StateModel::deleted_forward);
    reveal(StateModel::cut_ahead);
    let sel = m.selection;
    let (b, pos) = if sel.anchor == sel.head {
        (m.buffer, sel.head)
    } else {
        (m.unselected().buffer, sel.low())
    };
    lemma_settled_forgets(
        m.uncached().holding(b.insert(pos as int, t, pos)).at((pos + t.len()) as usize),
    );
    lemma_settled_forgets(m.uncached().unselected());
    lemma_settled_forgets(m.uncached());
    if let Some(s) = m.before_cursor() {
        lemma_settled_forgets(
            m.uncached().holding(m.buffer.delete(s.start as int, s.end as int, m.cursor())).at(
                s.start,
            ),
        );
    }
    if let Some(s) = crate::grapheme::grapheme_after(m.text(), m.cursor() as int) {
        lemma_settled_forgets(
            m.uncached().holding(m.buffer.delete(s.start as int, s.end as int, m.cursor())),
        );
    }
}

/// A line without a box has none to toggle, nor has a line that is not there.
pub proof fn law_only_boxes_are_toggled(m: StateModel, line: int)
    ensures
        line >= line_total(m.text()) ==> toggled(m, line) == m,
        line_model(m.text(), line).task() is None ==> toggled(m, line) == m,
{
    reveal(toggled);
}

// ---------------------------------------------------------------------------
// Where the cursor rests while lines are struck through
// ---------------------------------------------------------------------------

/// Whether a place is on the same line of two texts, as far into it.
pub open spec fn same_place(s: Seq<u8>, c: usize, t: Seq<u8>, d: usize) -> bool {
    let l = line_of(s, c as int);
    &&& d <= t.len()
    &&& line_of(t, d as int) == l
    &&& d - line_start(t, l) == c - line_start(s, l)
}

proof fn lemma_struck_elsewhere(m: StateModel, line: int, add: bool, cursor: usize)
    requires
        valid_utf8(m.text()),
        m.text().len() + 4 <= usize::MAX,
        0 <= line < line_total(m.text()),
        cursor <= m.text().len(),
        line != line_of(m.text(), cursor as int),
    ensures
        same_place(
            m.text(),
            cursor,
            struck(m, line, add, cursor).0.text(),
            struck(m, line, add, cursor).1,
        ),
{
    let text = m.text();
    let l = line_of(text, cursor as int);
    lemma_place_on_line(text, cursor as int);
    if line < l {
        lemma_struck_place(m, line, add, cursor);
    } else {
        let (r, d) = struck(m, line, add, cursor);
        lemma_struck_lines(m, line, add, cursor);
        crate::lines::lemma_start_kept(text, r.text(), l);
        lemma_line_text(text, line);
        crate::lines::lemma_start_after_row(text, l + 1);
        crate::lines::lemma_line_start_monotone(text, l + 1, line);
        lemma_line_model(text, line);
        lemma_cursor_goes(m, line, add, cursor);
        assert(d == cursor);
        assert(line_text(r.text(), l) == line_text(text, l));
        lemma_on_line(r.text(), l, cursor as int);
    }
}

proof fn lemma_lines_struck_place(
    m: StateModel,
    offs: Seq<usize>,
    checked: bool,
    cursor: usize,
    n: int,
)
    requires
        valid_utf8(m.text()),
        m.text().len() + 4 * offs.len() + 4 <= usize::MAX,
        0 <= n <= offs.len(),
        cursor <= m.text().len(),
        forall|k: int| 0 <= k < offs.len() ==> #[trigger] offs[k] <= m.text().len(),
        boxes_apart(m.text(), offs),
        without_box(
            m.text(),
            offs,
            offs.len() as int,
            line_of(m.text(), cursor as int),
        ),
    ensures
        same_place(
            m.text(),
            cursor,
            lines_struck(m, offs, checked, cursor, n).0.text(),
            lines_struck(m, offs, checked, cursor, n).1,
        ),
    decreases n,
{
    if n > 0 {
        lemma_lines_struck_place(m, offs, checked, cursor, n - 1);
        let text = m.text();
        let cols = Seq::new(
            offs.len(),
            |k: int|
                content_column(
                    lines_struck(m, offs, checked, cursor, k).0.text(),
                    box_line(text, offs[k]),
                ),
        );
        lemma_lines_struck(m, offs, cols, checked, cursor, n - 1);
        let (mid, c) = lines_struck(m, offs, checked, cursor, n - 1);
        let before = mid.text();
        let off = offs[n - 1];
        let line = box_line(text, off);
        lemma_place_on_line(text, off as int);
        assert forall|l: int| 0 <= l <= line implies #[trigger] line_text(text, l) == line_text(
            before,
            l,
        ) by {
            assert forall|k: int| 0 <= k < n - 1 implies box_line(text, #[trigger] offs[k]) != l by {
                assert(box_line(text, offs[n - 1]) < box_line(text, offs[k]));
            }
            assert(without_box(text, offs, n - 1, l));
        }
        crate::lines::lemma_same_first_lines(text, before, line);
        lemma_line_there(before, line);
        crate::lines::lemma_line_of_prefix(text, before, off as int);
        assert(box_line(text, offs[n - 1]) != line_of(text, cursor as int));
        lemma_struck_elsewhere(mid, line, checked, c);
    }
}

/// The box of a toggled line stays on its line while the boxes are set and their lines
/// struck through or not.
proof fn lemma_toggled_stays(m: StateModel, line: int, off: usize, to: bool)
    requires
        valid_utf8(m.text()),
        can_toggle(m, line),
        toggled_box(m.text(), line) == Some((off, !to)),
        box_fits(m.text(), off as int),
        box_line(m.text(), off) == line,
        forall|k: int|
            0 <= k < toggled_boxes(m.text(), line).len() ==> line <= box_line(
                m.text(),
                #[trigger] toggled_boxes(m.text(), line)[k],
            ) && (box_line(m.text(), toggled_boxes(m.text(), line)[k]) == line
                ==> toggled_boxes(m.text(), line)[k] == off),
    ensures
        line_of(
            toggled_part(m, line, toggled_boxes(m.text(), line).len() as int).text(),
            off as int,
        ) == line,
        off <= toggled_part(m, line, toggled_boxes(m.text(), line).len() as int).text().len(),
{
    let text = m.text();
    let offs = toggled_boxes(text, line);
    let n = offs.len() as int;
    let part = toggled_part(m, line, n).text();
    lemma_toggled_part(m, line, n);
    lemma_box_there(text, off);
    lemma_place_on_line(text, off as int);
    lemma_line_there(text, line);
    assert forall|l: int| 0 <= l < line implies #[trigger] line_text(part, l) == line_text(
        text,
        l,
    ) by {
        assert forall|k: int| 0 <= k < n implies box_line(text, #[trigger] offs[k]) != l by {}
        assert(without_box(text, offs, n, l));
    }
    crate::lines::lemma_start_kept(text, part, line);
    let row = line_text(text, line);
    let b = box_column(text, off);
    assert(row[b] == text[off as int] && row[b + 2] == text[off + 2]);
    if without_box(text, offs, n, line) {
        assert(line_text(part, line) == row);
    } else {
        let k = choose|k: int| 0 <= k < n && box_line(text, #[trigger] offs[k]) == line;
        assert(offs[k] == off);
        let set = marked_row(row, b, to);
        let col = toggled_column(m, line, k);
        assert(line_text(part, line) == struck_row(set, col, to));
        lemma_toggled_column(m, line, k);
        lemma_box_within(set, b, col, to);
    }
    lemma_on_line(part, line, off as int);
}

/// Toggling a line leaves a cursor on a line below it whose box is not set along where
/// it is: on its line, as far into it.
pub proof fn law_toggle_keeps_the_cursor(m: StateModel, line: int, off: usize, to: bool)
    requires
        valid_utf8(m.text()),
        can_toggle(m, line),
        m.text().len() + 4 * toggled_boxes(m.text(), line).len() + 4 * line_total(m.text()) + 8
            <= usize::MAX,
        toggled_box(m.text(), line) == Some((off, !to)),
        m.cursor() <= m.text().len(),
        line < line_of(m.text(), m.cursor() as int),
        without_box(
            m.text(),
            toggled_boxes(m.text(), line),
            toggled_boxes(m.text(), line).len() as int,
            line_of(m.text(), m.cursor() as int),
        ),
        forall|k: int|
            0 <= k < toggled_boxes(m.text(), line).len() ==> line <= box_line(
                m.text(),
                #[trigger] toggled_boxes(m.text(), line)[k],
            ) && (box_line(m.text(), toggled_boxes(m.text(), line)[k]) == line
                ==> toggled_boxes(m.text(), line)[k] == off),
    ensures
        same_place(m.text(), m.cursor(), toggled(m, line).text(), toggled(m, line).cursor()),
        toggled(m, line).collapsed(),
{
    reveal(toggled);
    let text = m.text();
    let cursor = m.selection.head;
    let offs = toggled_boxes(text, line);
    let n = offs.len() as int;
    let lm = line_model(text, line);
    lemma_line_model(text, line);
    lemma_box_place(text, lm.range, !to);
    lemma_line_there(text, line);
    lemma_on_line(text, line, off as int);
    lemma_place_on_line(text, cursor as int);
    lemma_toggled_boxes_fit(text, line);
    let set = boxes_set(m, offs, to, cursor, n);
    lemma_boxes_set_lines(m, offs, to, cursor);
    assert forall|k: int| 0 <= k < n implies #[trigger] offs[k] <= set.text().len() by {
        assert(box_fits(text, offs[k] as int));
    }
    assert(boxes_apart(set.text(), offs)) by {
        assert forall|i: int, j: int| 0 <= i < j < n implies box_line(
            set.text(),
            #[trigger] offs[j],
        ) < box_line(set.text(), #[trigger] offs[i]) by {
            assert(line_of(set.text(), offs[i] as int) == line_of(text, offs[i] as int));
            assert(line_of(set.text(), offs[j] as int) == line_of(text, offs[j] as int));
            assert(box_line(text, offs[j]) < box_line(text, offs[i]));
        }
    }
    let l = line_of(text, cursor as int);
    assert(line_of(set.text(), cursor as int) == l);
    assert forall|k: int| 0 <= k < n implies box_line(set.text(), #[trigger] offs[k]) != l by {
        assert(line_of(set.text(), offs[k] as int) == line_of(text, offs[k] as int));
        assert(box_line(text, offs[k]) != l);
    }
    lemma_lines_struck_place(set, offs, to, cursor, n);
    let (part, c) = lines_struck(set, offs, to, cursor, n);
    assert(part == toggled_part(m, line, n));
    lemma_toggled_part(m, line, n);
    lemma_toggled_stays(m, line, off, to);
    let cols = Seq::new(
        offs.len(),
        |k: int|
            content_column(
                lines_struck(set, offs, to, cursor, k).0.text(),
                box_line(set.text(), offs[k]),
            ),
    );
    lemma_lines_struck(set, offs, cols, to, cursor, n);
    crate::lines::lemma_line_of_bound(text, off as int);
    law_following_stays_above(part, off, to, c);
}

/// A box that stands in no list item changes alone.
pub proof fn law_lone_box_changes_alone(text: Seq<u8>, off: usize, checked: bool)
    requires
        crate::outline::item_at(text, off) is None,
    ensures
        crate::checkbox::boxes_changing(text, off, checked).len() == 1,
        crate::checkbox::boxes_changing(text, off, checked)[0] == off,
{
}

} // verus!
