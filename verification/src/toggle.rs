//! What checking a task box and striking its line through do to the lines of a
//! text, and what undoes them.

use vstd::prelude::*;
use vstd::utf8::*;

use crate::buffer::{lemma_boundary_after, spliced};
use crate::checkbox::{
    ascii_box, box_place, boxes_changing, boxes_set, is_mark_of, is_struck, law_every_box_is_set,
    lemma_drop_tildes, lemma_line_text, lemma_same_lines, lemma_strike_places, lines_struck, mark,
    parent_follows, pulled, pushed, struck, tildes, toggled,
};
use crate::line_scan::{lemma_line_model, line_model};
use crate::lines::{
    lemma_edit_in_line, lemma_find_byte_is, lemma_line_begin, lemma_line_finish,
    lemma_line_of_monotone, lemma_line_of_prefix, lemma_line_of_same, lemma_line_start_bound,
    lemma_line_there, lemma_lines_tell, lemma_same_first_lines, line_finish, line_of, line_start,
    line_text, line_total,
};
use crate::marker::Span;
use crate::outline::{boxes_to_flip, item_at, lemma_boxes_to_flip};
use crate::sort::{descending, lemma_descending};
use crate::space::{lemma_trim, lemma_trim_moved, lemma_trim_wrapped, trim_from, trim_to};
use crate::state::StateModel;
use crate::text::{
    find_from, has_at, lemma_ascii_valid, lemma_find_byte, lemma_find_from, NEWLINE,
};
use crate::tree::{box_fits, lemma_nodes_fit, nodes_of};

verus! {

/// Where the text after a line's markers starts, counted from the line's start.
pub open spec fn content_column(text: Seq<u8>, line: int) -> int {
    line_model(text, line).content() - line_start(text, line)
}

/// Whether the text of a line from `col` on, trimmed, starts and ends with two
/// tildes.
pub open spec fn row_is_struck(row: Seq<u8>, col: int) -> bool {
    is_struck(row, trim_from(row, col, row.len() as int), trim_to(row, col, row.len() as int))
}

/// Whether a line has nothing but white space from `col` on.
pub open spec fn row_is_blank(row: Seq<u8>, col: int) -> bool {
    trim_from(row, col, row.len() as int) >= trim_to(row, col, row.len() as int)
}

/// A line with two tildes put on either side of its text from `col` on, or with
/// them taken away.
pub open spec fn struck_row(row: Seq<u8>, col: int, add: bool) -> Seq<u8> {
    let all = row.len() as int;
    let (a, z) = (trim_from(row, col, all), trim_to(row, col, all));
    if row_is_blank(row, col) {
        row
    } else if add {
        if row_is_struck(row, col) {
            row
        } else {
            row.subrange(0, a) + tildes() + row.subrange(a, z) + tildes() + row.subrange(z, all)
        }
    } else if row_is_struck(row, col) && z - a >= 4 {
        row.subrange(0, a) + row.subrange(a + 2, z - 2) + row.subrange(z, all)
    } else {
        row
    }
}

/// The trimmed text from `lo` to `hi` as seen from the text and from the piece
/// that starts at `start`.
proof fn lemma_piece(text: Seq<u8>, start: int, lo: int, hi: int)
    requires
        0 <= start <= lo <= hi <= text.len(),
    ensures
        ({
            let (a, z) = (trim_from(text, lo, hi), trim_to(text, lo, hi));
            let row = text.subrange(start, hi);
            &&& a == start + trim_from(row, lo - start, row.len() as int)
            &&& z == start + trim_to(row, lo - start, row.len() as int)
            &&& is_struck(text, a, z) == row_is_struck(row, lo - start)
        }),
{
    let row = text.subrange(start, hi);
    let (a, z) = (trim_from(text, lo, hi), trim_to(text, lo, hi));
    lemma_trim(text, lo, hi);
    assert forall|j: int| lo <= j < hi implies #[trigger] text[j] == row[j + (0 - start)] by {}
    lemma_trim_moved(text, row, lo, hi, 0 - start);
    if a + 2 <= z {
        assert(text.subrange(a, a + 2) =~= row.subrange(a - start, a - start + 2));
        assert(text.subrange(z - 2, z) =~= row.subrange(z - 2 - start, z - start));
    }
}

/// A line's ends, and its trimmed text as seen from the line and from the text.
pub proof fn lemma_row(text: Seq<u8>, line: int)
    requires
        valid_utf8(text),
        text.len() <= usize::MAX,
        0 <= line < line_total(text),
    ensures
        ({
            let lm = line_model(text, line);
            let (lo, hi) = (lm.content() as int, lm.range.end as int);
            let (a, z) = (trim_from(text, lo, hi), trim_to(text, lo, hi));
            let row = line_text(text, line);
            let col = content_column(text, line);
            let start = line_start(text, line);
            &&& 0 <= col <= row.len()
            &&& lo == start + col && hi == start + row.len()
            &&& hi == line_finish(text, start)
            &&& a == start + trim_from(row, col, row.len() as int)
            &&& z == start + trim_to(row, col, row.len() as int)
            &&& is_struck(text, a, z) == row_is_struck(row, col)
        }),
{
    lemma_line_model(text, line);
    lemma_line_there(text, line);
    let lm = line_model(text, line);
    lemma_piece(text, line_start(text, line), lm.content() as int, lm.range.end as int);
}

/// The text after a line was struck through, or no longer, as one change of it.
pub proof fn lemma_struck_text(m: StateModel, line: int, add: bool, cursor: usize)
    requires
        valid_utf8(m.text()),
        m.text().len() + 4 <= usize::MAX,
        0 <= line < line_total(m.text()),
    ensures
        ({
            let text = m.text();
            let lm = line_model(text, line);
            let (lo, hi) = (lm.content() as int, lm.range.end as int);
            let (a, z) = (trim_from(text, lo, hi), trim_to(text, lo, hi));
            let after = struck(m, line, add, cursor).0.text();
            &&& valid_utf8(after)
            &&& after == if a >= z {
                text
            } else if add && !is_struck(text, a, z) {
                spliced(text, a, z, tildes() + text.subrange(a, z) + tildes())
            } else if !add && is_struck(text, a, z) && z - a >= 4 {
                spliced(text, a, z, text.subrange(a + 2, z - 2))
            } else {
                text
            }
        }),
{
    reveal(struck);
    let text = m.text();
    lemma_line_text(text, line);
    let lm = line_model(text, line);
    let (lo, hi) = (lm.content() as int, lm.range.end as int);
    let (a, z) = (trim_from(text, lo, hi), trim_to(text, lo, hi));
    if a < z && add && !is_struck(text, a, z) {
        lemma_ascii_valid(tildes());
        lemma_strike_places(text, a, z, cursor);
        let one = spliced(text, z, z, tildes());
        lemma_boundary_after(text, z, z, tildes(), a);
        lemma_boundary_after(one, a, a, tildes(), a);
        assert(spliced(one, a, a, tildes()) =~= spliced(
            text,
            a,
            z,
            tildes() + text.subrange(a, z) + tildes(),
        ));
    }
    if a < z && !add && is_struck(text, a, z) && z - a >= 4 {
        let none = Seq::<u8>::empty();
        lemma_drop_tildes(text, z - 2);
        let one = spliced(text, z - 2, z, none);
        assert(one.subrange(a, a + 2) =~= text.subrange(a, a + 2));
        lemma_drop_tildes(one, a);
        assert(spliced(one, a, a + 2, none) =~= spliced(text, a, z, text.subrange(a + 2, z - 2)));
    }
}

/// Striking a line through, or no longer, changes that line and no other.
pub proof fn lemma_struck_lines(m: StateModel, line: int, add: bool, cursor: usize)
    requires
        valid_utf8(m.text()),
        m.text().len() + 4 <= usize::MAX,
        0 <= line < line_total(m.text()),
    ensures
        ({
            let text = m.text();
            let after = struck(m, line, add, cursor).0.text();
            &&& valid_utf8(after)
            &&& after.len() <= text.len() + 4
            &&& line_total(after) == line_total(text)
            &&& line_start(after, line) == line_start(text, line)
            &&& line_text(after, line) == struck_row(
                line_text(text, line),
                content_column(text, line),
                add,
            )
            &&& forall|k: int|
                0 <= k < line_total(text) && k != line ==> #[trigger] line_text(after, k)
                    == line_text(text, k)
        }),
{
    let text = m.text();
    let lm = line_model(text, line);
    let (lo, hi) = (lm.content() as int, lm.range.end as int);
    let (a, z) = (trim_from(text, lo, hi), trim_to(text, lo, hi));
    let row = line_text(text, line);
    let col = content_column(text, line);
    let start = line_start(text, line);
    let after = struck(m, line, add, cursor).0.text();
    lemma_struck_text(m, line, add, cursor);
    lemma_row(text, line);
    lemma_line_text(text, line);
    lemma_line_there(text, line);
    if a < z && add && !is_struck(text, a, z) {
        let ins = tildes() + text.subrange(a, z) + tildes();
        assert forall|j: int| 0 <= j < ins.len() implies ins[j] != NEWLINE by {
            if 2 <= j < 2 + (z - a) {
                assert(ins[j] == text[a + j - 2]);
            }
        }
        lemma_edit_in_line(text, line, a, z, ins);
        assert(spliced(row, a - start, z - start, ins) =~= struck_row(row, col, add)) by {
            assert(text.subrange(a, z) =~= row.subrange(a - start, z - start));
        }
    } else if a < z && !add && is_struck(text, a, z) && z - a >= 4 {
        let ins = text.subrange(a + 2, z - 2);
        lemma_edit_in_line(text, line, a, z, ins);
        assert(spliced(row, a - start, z - start, ins) =~= struck_row(row, col, add)) by {
            assert(ins =~= row.subrange(a + 2 - start, z - 2 - start));
        }
    }
}

/// A line that was struck through is known to be, and gets its text back.
proof fn lemma_row_back(row: Seq<u8>, col: int)
    requires
        0 <= col <= row.len(),
        !row_is_struck(row, col),
    ensures
        struck_row(struck_row(row, col, true), col, true) == struck_row(row, col, true),
        struck_row(struck_row(row, col, true), col, false) == row,
        !row_is_blank(row, col) ==> ({
            let on = struck_row(row, col, true);
            &&& row_is_struck(on, col)
            &&& trim_from(on, col, on.len() as int) == trim_from(row, col, row.len() as int)
            &&& trim_to(on, col, on.len() as int) == trim_to(row, col, row.len() as int) + 4
        }),
{
    let all = row.len() as int;
    let (a, z) = (trim_from(row, col, all), trim_to(row, col, all));
    lemma_trim(row, col, all);
    if a < z {
        let on = struck_row(row, col, true);
        assert forall|j: int| col <= j < a implies #[trigger] row[j] == on[j] by {}
        assert forall|j: int| z <= j < all implies #[trigger] row[j] == on[j + 4] by {}
        lemma_trim_wrapped(row, on, col, all, 4);
        assert(on.len() == all + 4);
        assert(on.subrange(a, a + 2) =~= tildes());
        assert(on.subrange(z + 2, z + 4) =~= tildes());
        assert(row_is_struck(on, col));
        assert(struck_row(on, col, false) =~= row);
    }
}

/// Striking a line through puts two tildes before its text and two behind it,
/// unless they are there already; taking the strikethrough away takes them out. The
/// rest of the line and every other line stay as they are.
pub proof fn law_strike_changes_one_line(m: StateModel, line: int, add: bool, cursor: usize)
    requires
        valid_utf8(m.text()),
        m.text().len() + 4 <= usize::MAX,
        0 <= line < line_total(m.text()),
    ensures
        ({
            let text = m.text();
            let after = struck(m, line, add, cursor).0.text();
            &&& line_total(after) == line_total(text)
            &&& line_text(after, line) == struck_row(
                line_text(text, line),
                content_column(text, line),
                add,
            )
            &&& forall|k: int|
                0 <= k < line_total(text) && k != line ==> #[trigger] line_text(after, k)
                    == line_text(text, k)
        }),
{
    lemma_struck_lines(m, line, add, cursor);
}

/// Striking a line through a second time changes nothing. Taking the strikethrough
/// away gives the text and the place of the cursor back. Both as long as the text
/// after the line's markers is found in the same place with the tildes and without.
pub proof fn law_struck_line_comes_back(m: StateModel, line: int, cursor: usize)
    requires
        valid_utf8(m.text()),
        m.text().len() + 8 <= usize::MAX,
        cursor <= m.text().len(),
        0 <= line < line_total(m.text()),
        !row_is_struck(line_text(m.text(), line), content_column(m.text(), line)),
        content_column(struck(m, line, true, cursor).0.text(), line) == content_column(
            m.text(),
            line,
        ),
    ensures
        ({
            let (on, c) = struck(m, line, true, cursor);
            &&& struck(on, line, true, c).0.text() == on.text()
            &&& struck(on, line, true, c).1 == c
            &&& struck(on, line, false, c).0.text() == m.text()
            &&& struck(on, line, false, c).1 == cursor
        }),
{
    let text = m.text();
    let (on, c) = struck(m, line, true, cursor);
    lemma_row(text, line);
    lemma_struck_lines(m, line, true, cursor);
    lemma_row_back(line_text(text, line), content_column(text, line));
    lemma_struck_lines(on, line, true, c);
    lemma_struck_lines(on, line, false, c);
    let again = struck(on, line, true, c).0.text();
    let off = struck(on, line, false, c).0.text();
    assert forall|k: int| 0 <= k < line_total(text) implies #[trigger] line_text(off, k)
        == line_text(text, k) by {
        if k != line {
            assert(line_text(on.text(), k) == line_text(text, k));
        }
    }
    lemma_lines_tell(off, text);
    lemma_lines_tell(again, on.text());
    lemma_struck_cursor(m, line, cursor);
}

/// Where the cursor goes when a line is struck through, and back from there.
proof fn lemma_struck_cursor(m: StateModel, line: int, cursor: usize)
    requires
        valid_utf8(m.text()),
        m.text().len() + 8 <= usize::MAX,
        cursor <= m.text().len(),
        0 <= line < line_total(m.text()),
        !row_is_struck(line_text(m.text(), line), content_column(m.text(), line)),
        content_column(struck(m, line, true, cursor).0.text(), line) == content_column(
            m.text(),
            line,
        ),
    ensures
        ({
            let (on, c) = struck(m, line, true, cursor);
            &&& struck(on, line, true, c).1 == c
            &&& struck(on, line, false, c).1 == cursor
        }),
{
    reveal(struck);
    let text = m.text();
    let (on, c) = struck(m, line, true, cursor);
    let row = line_text(text, line);
    let col = content_column(text, line);
    lemma_row(text, line);
    lemma_struck_lines(m, line, true, cursor);
    lemma_row_back(row, col);
    lemma_row(on.text(), line);
    lemma_trim(row, col, row.len() as int);
    if !row_is_blank(row, col) {
        let start = line_start(text, line);
        let a = start + trim_from(row, col, row.len() as int);
        let z = start + trim_to(row, col, row.len() as int);
        assert(c == pushed(cursor, a, z));
        assert(pulled(c, a + 2, z + 4) == cursor);
    }
}

/// A line with no text, and one that is not there, is not struck through, and
/// the cursor stays.
pub proof fn law_nothing_to_strike(m: StateModel, line: int, add: bool, cursor: usize)
    requires
        valid_utf8(m.text()),
        m.text().len() <= usize::MAX,
        0 <= line,
        line < line_total(m.text()) ==> row_is_blank(
            line_text(m.text(), line),
            content_column(m.text(), line),
        ),
    ensures
        struck(m, line, add, cursor).0.text() == m.text(),
        struck(m, line, add, cursor).1 == cursor,
{
    reveal(struck);
    if line < line_total(m.text()) {
        lemma_row(m.text(), line);
    }
}

// ---------------------------------------------------------------------------
// Toggling a box and the boxes nested in its item
// ---------------------------------------------------------------------------

/// The line that a box stands on.
pub open spec fn box_line(text: Seq<u8>, off: usize) -> int {
    line_of(text, off as int)
}

/// Where in its line a box stands.
pub open spec fn box_column(text: Seq<u8>, off: usize) -> int {
    off - line_start(text, box_line(text, off))
}

/// A line with the box at `p` set.
pub open spec fn marked_row(row: Seq<u8>, p: int, checked: bool) -> Seq<u8> {
    row.update(p + 1, mark(checked)[0])
}

/// Whether boxes stand on lines of their own, the last one first.
pub open spec fn boxes_apart(text: Seq<u8>, offs: Seq<usize>) -> bool {
    forall|i: int, j: int|
        0 <= i < j < offs.len() ==> box_line(text, #[trigger] offs[j]) < box_line(
            text,
            #[trigger] offs[i],
        )
}

/// Whether boxes look like boxes.
pub open spec fn boxes_fit(text: Seq<u8>, offs: Seq<usize>) -> bool {
    forall|k: int| 0 <= k < offs.len() ==> box_fits(text, #[trigger] offs[k] as int)
}

/// Whether none of the first `n` boxes stands on a line.
pub open spec fn without_box(text: Seq<u8>, offs: Seq<usize>, n: int, line: int) -> bool {
    forall|k: int| 0 <= k < n ==> box_line(text, #[trigger] offs[k]) != line
}

/// Texts with newlines in the same places have lines that start in the same
/// places.
proof fn lemma_same_starts(s: Seq<u8>, t: Seq<u8>, n: int)
    requires
        s.len() == t.len(),
        forall|i: int| 0 <= i < s.len() ==> (s[i] == NEWLINE <==> t[i] == NEWLINE),
    ensures
        line_start(s, n) == line_start(t, n),
        line_finish(s, line_start(s, n)) == line_finish(t, line_start(t, n)),
    decreases n,
{
    if n > 0 {
        lemma_same_starts(s, t, n - 1);
    }
    lemma_line_start_bound(s, n);
    let p = line_start(s, n);
    lemma_find_byte(s, NEWLINE, p);
    lemma_find_byte_is(t, NEWLINE, p, line_finish(s, p));
}

proof fn lemma_mark_of(offs: Seq<usize>, i: int, n: int)
    requires
        0 <= n <= offs.len(),
    ensures
        is_mark_of(offs, i, n) <==> exists|k: int| 0 <= k < n && i == #[trigger] offs[k] + 1,
    decreases n,
{
    if n > 0 {
        lemma_mark_of(offs, i, n - 1);
        if i == offs[n - 1] + 1 {
        } else if is_mark_of(offs, i, n - 1) {
            let k = choose|k: int| 0 <= k < n - 1 && i == #[trigger] offs[k] + 1;
            assert(i == offs[k] + 1);
        }
    }
}

/// Where a box stands.
pub proof fn lemma_box_there(text: Seq<u8>, off: usize)
    requires
        box_fits(text, off as int),
    ensures
        0 <= box_line(text, off) < line_total(text),
        0 <= box_column(text, off),
        off + 3 <= line_finish(text, line_start(text, box_line(text, off))),
        line_text(text, box_line(text, off)).len() >= box_column(text, off) + 3,
        line_of(text, off + 1) == box_line(text, off),
{
    lemma_line_begin(text, off as int);
    lemma_line_finish(text, off as int);
    lemma_find_byte(text, NEWLINE, off as int);
    lemma_line_of_monotone(text, off as int, text.len() as int);
    let e = line_finish(text, off as int);
    assert(e != off);
    assert(e != off + 1);
    assert(e != off + 2);
    lemma_line_there(text, box_line(text, off));
}

/// Setting boxes changes their lines in one byte each, and no other line.
#[verifier::spinoff_prover]
pub proof fn lemma_boxes_set_lines(m: StateModel, offs: Seq<usize>, checked: bool, cursor: usize)
    requires
        valid_utf8(m.text()),
        boxes_fit(m.text(), offs),
        boxes_apart(m.text(), offs),
    ensures
        ({
            let text = m.text();
            let set = boxes_set(m, offs, checked, cursor, offs.len() as int).text();
            &&& valid_utf8(set)
            &&& set.len() == text.len()
            &&& line_total(set) == line_total(text)
            &&& forall|o: int| #[trigger] line_of(set, o) == line_of(text, o)
            &&& forall|l: int| #[trigger] line_start(set, l) == line_start(text, l)
            &&& forall|k: int|
                0 <= k < offs.len() ==> line_text(set, box_line(text, #[trigger] offs[k]))
                    == marked_row(
                    line_text(text, box_line(text, offs[k])),
                    box_column(text, offs[k]),
                    checked,
                )
            &&& forall|l: int|
                0 <= l < line_total(text) && without_box(text, offs, offs.len() as int, l)
                    ==> #[trigger] line_text(set, l) == line_text(text, l)
        }),
{
    let text = m.text();
    let n = offs.len() as int;
    let set = boxes_set(m, offs, checked, cursor, n).text();
    assert forall|k: int| 0 <= k < offs.len() implies ascii_box(text, #[trigger] offs[k] as int) by {
        assert(box_fits(text, offs[k] as int));
    }
    law_every_box_is_set(m, offs, checked, cursor, n);
    assert forall|i: int| 0 <= i < text.len() implies (set[i] == NEWLINE <==> text[i] == NEWLINE) by {
        lemma_mark_of(offs, i, n);
        if is_mark_of(offs, i, n) {
            let k = choose|k: int| 0 <= k < n && i == #[trigger] offs[k] + 1;
            assert(box_fits(text, offs[k] as int));
            assert(set[offs[k] + 1] == mark(checked)[0]);
        } else {
            assert(set[i] == text[i]);
        }
    }
    assert forall|o: int| #[trigger] line_of(set, o) == line_of(text, o) by {
        lemma_same_lines(set, text, o);
    }
    assert forall|l: int| #[trigger] line_start(set, l) == line_start(text, l) by {
        lemma_same_starts(set, text, l);
    }
    assert forall|k: int| 0 <= k < offs.len() implies line_text(
        set,
        box_line(text, #[trigger] offs[k]),
    ) == marked_row(
        line_text(text, box_line(text, offs[k])),
        box_column(text, offs[k]),
        checked,
    ) by {
        assert(box_fits(text, offs[k] as int));
        lemma_box_there(text, offs[k]);
        let l = box_line(text, offs[k]);
        assert forall|j: int| 0 <= j < offs.len() && j != k implies box_line(
            text,
            #[trigger] offs[j],
        ) != l by {
            assert(j < k ==> box_line(text, offs[k]) < box_line(text, offs[j]));
            assert(k < j ==> box_line(text, offs[j]) < box_line(text, offs[k]));
        }
        lemma_same_starts(set, text, l);
        lemma_line_there(text, l);
        let start = line_start(text, l);
        let row = line_text(text, l);
        let want = marked_row(row, box_column(text, offs[k]), checked);
        assert forall|i: int| 0 <= i < row.len() implies #[trigger] line_text(set, l)[i]
            == want[i] by {
            if start + i == offs[k] + 1 {
                assert(set[offs[k] + 1] == mark(checked)[0]);
            } else {
                lemma_unmarked(text, offs, l, k, start + i);
                assert(set[start + i] == text[start + i]);
            }
        }
        assert(line_text(set, l) =~= want);
    }
    assert forall|l: int|
        0 <= l < line_total(text) && without_box(text, offs, n, l) implies #[trigger] line_text(
        set,
        l,
    ) == line_text(text, l) by {
        lemma_same_starts(set, text, l);
        lemma_line_there(text, l);
        let start = line_start(text, l);
        assert forall|i: int| 0 <= i < line_text(text, l).len() implies #[trigger] line_text(set, l)[i]
            == line_text(text, l)[i] by {
            lemma_unmarked(text, offs, l, -1, start + i);
            assert(set[start + i] == text[start + i]);
        }
        assert(line_text(set, l) =~= line_text(text, l));
    }
}

/// A byte of a line is the mark of a box only if the box stands on that line.
proof fn lemma_unmarked(text: Seq<u8>, offs: Seq<usize>, line: int, k: int, i: int)
    requires
        0 <= line < line_total(text),
        line_start(text, line) <= i < line_finish(text, line_start(text, line)),
        forall|j: int| 0 <= j < offs.len() ==> box_fits(text, #[trigger] offs[j] as int),
        forall|j: int| 0 <= j < offs.len() && j != k ==> box_line(text, #[trigger] offs[j]) != line,
        0 <= k < offs.len() ==> i != offs[k] + 1,
    ensures
        !is_mark_of(offs, i, offs.len() as int),
{
    let n = offs.len() as int;
    lemma_mark_of(offs, i, n);
    if is_mark_of(offs, i, n) {
        let j = choose|j: int| 0 <= j < n && i == #[trigger] offs[j] + 1;
        assert(box_fits(text, offs[j] as int));
        lemma_box_there(text, offs[j]);
        lemma_line_there(text, line);
        lemma_line_of_same(text, line_start(text, line), i);
        assert(box_line(text, offs[j]) == line);
    }
}

/// Striking the lines of boxes through, or no longer, changes those lines and no
/// others.
#[verifier::spinoff_prover]
pub proof fn lemma_lines_struck(
    m: StateModel,
    offs: Seq<usize>,
    cols: Seq<int>,
    checked: bool,
    cursor: usize,
    n: int,
)
    requires
        valid_utf8(m.text()),
        m.text().len() + 4 * offs.len() <= usize::MAX,
        0 <= n <= offs.len(),
        cols.len() == offs.len(),
        forall|k: int| 0 <= k < offs.len() ==> #[trigger] offs[k] <= m.text().len(),
        forall|i: int, j: int|
            0 <= i < j < offs.len() ==> box_line(m.text(), #[trigger] offs[j]) < box_line(
                m.text(),
                #[trigger] offs[i],
            ),
        forall|k: int|
            0 <= k < n ==> content_column(
                lines_struck(m, offs, checked, cursor, k).0.text(),
                box_line(m.text(), #[trigger] offs[k]),
            ) == cols[k],
    ensures
        ({
            let text = m.text();
            let after = lines_struck(m, offs, checked, cursor, n).0.text();
            &&& valid_utf8(after)
            &&& after.len() <= text.len() + 4 * n
            &&& line_total(after) == line_total(text)
            &&& forall|k: int|
                0 <= k < n ==> line_text(after, box_line(text, #[trigger] offs[k])) == struck_row(
                    line_text(text, box_line(text, offs[k])),
                    cols[k],
                    checked,
                )
            &&& forall|l: int|
                0 <= l < line_total(text) && without_box(text, offs, n, l) ==> #[trigger] line_text(
                    after,
                    l,
                ) == line_text(text, l)
        }),
    decreases n,
{
    if n > 0 {
        lemma_lines_struck(m, offs, cols, checked, cursor, n - 1);
        let text = m.text();
        let (mid, c) = lines_struck(m, offs, checked, cursor, n - 1);
        let before = mid.text();
        let off = offs[n - 1];
        let line = box_line(text, off);
        lemma_line_of_monotone(text, off as int, text.len() as int);
        lemma_line_begin(text, off as int);
        lemma_line_finish(text, off as int);
        assert forall|l: int| 0 <= l <= line implies #[trigger] line_text(text, l) == line_text(
            before,
            l,
        ) by {
            assert forall|k: int| 0 <= k < n - 1 implies box_line(text, #[trigger] offs[k]) != l by {
                assert(box_line(text, offs[n - 1]) < box_line(text, offs[k]));
            }
            assert(without_box(text, offs, n - 1, l));
        }
        lemma_same_first_lines(text, before, line);
        lemma_line_there(before, line);
        lemma_line_of_prefix(text, before, off as int);
        assert(content_column(before, box_line(text, offs[n - 1])) == cols[n - 1]);
        lemma_struck_lines(mid, line, checked, c);
        let after = lines_struck(m, offs, checked, cursor, n).0.text();
        assert(after == struck(mid, line, checked, c).0.text());
        assert forall|k: int| 0 <= k < n implies line_text(after, box_line(text, #[trigger] offs[k]))
            == struck_row(line_text(text, box_line(text, offs[k])), cols[k], checked) by {
            if k < n - 1 {
                assert(box_line(text, offs[n - 1]) < box_line(text, offs[k]));
                lemma_line_of_monotone(text, offs[k] as int, text.len() as int);
            }
        }
        assert forall|l: int|
            0 <= l < line_total(text) && without_box(text, offs, n, l) implies #[trigger] line_text(
            after,
            l,
        ) == line_text(text, l) by {
            assert(box_line(text, offs[n - 1]) != l);
            assert(without_box(text, offs, n - 1, l));
            assert(line_text(before, l) == line_text(text, l));
        }
    }
}

/// The box that toggling a line sets first, and whether it is checked.
pub open spec fn toggled_box(text: Seq<u8>, line: int) -> Option<(usize, bool)> {
    let lm = line_model(text, line);
    match lm.task() {
        Some(checked) => match box_place(text, lm.range, checked) {
            Some(off) => Some((off as usize, checked)),
            None => None,
        },
        None => None,
    }
}

/// The boxes that toggling a line sets.
pub open spec fn toggled_boxes(text: Seq<u8>, line: int) -> Seq<usize> {
    match toggled_box(text, line) {
        Some((off, checked)) => boxes_changing(text, off, !checked),
        None => Seq::<usize>::empty(),
    }
}

/// The state after the boxes that toggling a line sets were set and the lines of
/// the first `n` of them struck through or not.
pub open spec fn toggled_part(m: StateModel, line: int, n: int) -> StateModel {
    match toggled_box(m.text(), line) {
        Some((off, checked)) => {
            let offs = boxes_changing(m.text(), off, !checked);
            let cursor = m.selection.head;
            let set = boxes_set(m, offs, !checked, cursor, offs.len() as int);
            lines_struck(set, offs, !checked, cursor, n).0
        },
        None => m,
    }
}

/// Where the text of the line of the `k`-th of these boxes is found to start when
/// its turn comes to be struck through or not.
pub open spec fn toggled_column(m: StateModel, line: int, k: int) -> int {
    content_column(
        toggled_part(m, line, k).text(),
        box_line(m.text(), toggled_boxes(m.text(), line)[k]),
    )
}

/// Whether a line can be toggled: it has a box, the boxes to be set stand on lines
/// of their own, and the text has room for the tildes.
pub open spec fn can_toggle(m: StateModel, line: int) -> bool {
    let offs = toggled_boxes(m.text(), line);
    &&& 0 <= line < line_total(m.text())
    &&& toggled_box(m.text(), line) is Some
    &&& boxes_apart(m.text(), offs)
    &&& m.text().len() + 4 * offs.len() <= usize::MAX
}

/// Whether no box around the item of a line follows when the line is toggled.
pub open spec fn toggles_within(m: StateModel, line: int) -> bool {
    toggled_box(m.text(), line) matches Some((off, checked)) && parent_follows(
        toggled_part(m, line, toggled_boxes(m.text(), line).len() as int).text(),
        off,
        !checked,
    ) is None
}

/// What toggling a line sets looks like task boxes.
pub proof fn lemma_toggled_boxes_fit(text: Seq<u8>, line: int)
    requires
        valid_utf8(text),
        text.len() <= usize::MAX,
        toggled_box(text, line) is Some,
    ensures
        boxes_fit(text, toggled_boxes(text, line)),
        toggled_box(text, line) matches Some(b) ==> box_fits(text, b.0 as int),
{
    let lm = line_model(text, line);
    let (off, checked) = toggled_box(text, line)->0;
    lemma_line_model(text, line);
    let (lo, hi) = (lm.range.start as int, lm.range.end as int);
    let k = box_place(text, lm.range, checked)->0;
    assert(box_fits(text, off as int)) by {
        let empty = seq![91u8, 32u8, 93u8];
        let small = seq![91u8, 120u8, 93u8];
        let large = seq![91u8, 88u8, 93u8];
        lemma_find_from(text, empty, lo, hi);
        lemma_find_from(text, small, lo, hi);
        lemma_find_from(text, large, lo, hi);
        let found = text.subrange(k, k + 3);
        assert(found == empty || found == small || found == large);
        assert(found[0] == text[k] && found[1] == text[k + 1] && found[2] == text[k + 2]);
    }
    if let Some(item) = item_at(text, off) {
        let nodes = nodes_of(text)->0;
        let all = nodes.len() as int;
        let nested = boxes_to_flip(nodes, item, !checked, all);
        lemma_nodes_fit(text);
        lemma_boxes_to_flip(text, nodes, item, !checked, all);
        lemma_descending(nested);
        let sorted = descending(nested);
        assert forall|i: int| 0 <= i < sorted.len() implies box_fits(
            text,
            #[trigger] sorted[i] as int,
        ) by {
            assert(nested.contains(sorted[i]));
        }
    }
}

/// Toggling a line sets its box and every box nested in its item that is not yet
/// set so, and strikes the text of the lines of these boxes through, or no longer.
/// Every other line stays as it is. Then the boxes around the item follow, if they
/// must.
#[verifier::spinoff_prover]
pub proof fn law_toggle_marks_and_strikes(m: StateModel, line: int)
    requires
        valid_utf8(m.text()),
        can_toggle(m, line),
    ensures
        ({
            let text = m.text();
            let offs = toggled_boxes(text, line);
            let after = toggled_part(m, line, offs.len() as int).text();
            let (off, checked) = toggled_box(text, line)->0;
            &&& valid_utf8(after)
            &&& line_total(after) == line_total(text)
            &&& forall|k: int|
                0 <= k < offs.len() ==> line_text(after, box_line(text, #[trigger] offs[k]))
                    == struck_row(
                    marked_row(
                        line_text(text, box_line(text, offs[k])),
                        box_column(text, offs[k]),
                        !checked,
                    ),
                    toggled_column(m, line, k),
                    !checked,
                )
            &&& forall|l: int|
                0 <= l < line_total(text) && without_box(text, offs, offs.len() as int, l)
                    ==> #[trigger] line_text(after, l) == line_text(text, l)
            &&& toggles_within(m, line) ==> toggled(m, line).text() == after
        }),
{
    let n = toggled_boxes(m.text(), line).len() as int;
    lemma_toggled_part(m, line, n);
    if toggles_within(m, line) {
        reveal(toggled);
    }
}

/// The lines after the boxes were set and the lines of the first `n` struck through
/// or not.
#[verifier::spinoff_prover]
pub proof fn lemma_toggled_part(m: StateModel, line: int, n: int)
    requires
        valid_utf8(m.text()),
        can_toggle(m, line),
        0 <= n <= toggled_boxes(m.text(), line).len(),
    ensures
        ({
            let text = m.text();
            let offs = toggled_boxes(text, line);
            let after = toggled_part(m, line, n).text();
            let (off, checked) = toggled_box(text, line)->0;
            &&& valid_utf8(after)
            &&& after.len() <= usize::MAX
            &&& line_total(after) == line_total(text)
            &&& forall|k: int|
                0 <= k < n ==> line_text(after, box_line(text, #[trigger] offs[k])) == struck_row(
                    marked_row(
                        line_text(text, box_line(text, offs[k])),
                        box_column(text, offs[k]),
                        !checked,
                    ),
                    toggled_column(m, line, k),
                    !checked,
                )
            &&& forall|k: int|
                n <= k < offs.len() ==> line_text(after, box_line(text, #[trigger] offs[k]))
                    == marked_row(
                    line_text(text, box_line(text, offs[k])),
                    box_column(text, offs[k]),
                    !checked,
                )
            &&& forall|l: int|
                0 <= l < line_total(text) && without_box(text, offs, offs.len() as int, l)
                    ==> #[trigger] line_text(after, l) == line_text(text, l)
        }),
{
    let text = m.text();
    let offs = toggled_boxes(text, line);
    let (off, checked) = toggled_box(text, line)->0;
    let cursor = m.selection.head;
    let all = offs.len() as int;
    let set = boxes_set(m, offs, !checked, cursor, all);
    let after = toggled_part(m, line, n).text();
    lemma_toggled_boxes_fit(text, line);
    lemma_boxes_set_lines(m, offs, !checked, cursor);
    let cols = Seq::new(offs.len(), |k: int| toggled_column(m, line, k));
    assert forall|k: int| 0 <= k < all implies #[trigger] offs[k] <= set.text().len() by {
        assert(box_fits(text, offs[k] as int));
    }
    assert forall|k: int| 0 <= k < all implies box_line(set.text(), #[trigger] offs[k]) == box_line(
        text,
        offs[k],
    ) by {
        assert(line_of(set.text(), offs[k] as int) == line_of(text, offs[k] as int));
    }
    assert forall|i: int, j: int| 0 <= i < j < all implies box_line(set.text(), #[trigger] offs[j])
        < box_line(set.text(), #[trigger] offs[i]) by {
        assert(box_line(text, offs[j]) < box_line(text, offs[i]));
    }
    assert forall|k: int| 0 <= k < n implies content_column(
        lines_struck(set, offs, !checked, cursor, k).0.text(),
        box_line(set.text(), #[trigger] offs[k]),
    ) == cols[k] by {
        assert(toggled_part(m, line, k) == lines_struck(set, offs, !checked, cursor, k).0);
    }
    lemma_lines_struck(set, offs, cols, !checked, cursor, n);
    assert(toggled_part(m, line, n) == lines_struck(set, offs, !checked, cursor, n).0);
    assert forall|k: int| n <= k < all implies line_text(after, box_line(text, #[trigger] offs[k]))
        == line_text(set.text(), box_line(text, offs[k])) by {
        let l = box_line(text, offs[k]);
        assert(box_fits(text, offs[k] as int));
        lemma_box_there(text, offs[k]);
        assert forall|j: int| 0 <= j < n implies box_line(set.text(), #[trigger] offs[j]) != l by {
            assert(box_line(text, offs[k]) < box_line(text, offs[j]));
        }
        assert(without_box(set.text(), offs, n, l));
    }
    assert forall|l: int|
        0 <= l < line_total(text) && without_box(text, offs, all, l) implies #[trigger] line_text(
        after,
        l,
    ) == line_text(text, l) by {
        assert forall|j: int| 0 <= j < n implies box_line(set.text(), #[trigger] offs[j]) != l by {
            assert(box_line(text, offs[j]) != l);
        }
        assert(without_box(set.text(), offs, n, l));
        assert(line_text(set.text(), l) == line_text(text, l));
    }
}

/// A line whose empty box was checked and whose text was struck through is as it
/// was once the box is emptied and the strikethrough taken away.
proof fn lemma_row_untoggled(row: Seq<u8>, p: int, col: int)
    requires
        0 <= p,
        p + 3 <= col <= row.len(),
        row[p + 1] == mark(false)[0],
        !row_is_struck(row, col),
    ensures
        struck_row(
            marked_row(struck_row(marked_row(row, p, true), col, true), p, false),
            col,
            false,
        ) == row,
{
    let all = row.len() as int;
    let on = marked_row(row, p, true);
    let (a, z) = (trim_from(row, col, all), trim_to(row, col, all));
    lemma_trim(row, col, all);
    assert forall|j: int| col <= j < all implies #[trigger] row[j] == on[j + 0] by {}
    lemma_trim_moved(row, on, col, all, 0);
    if a + 2 <= z {
        assert(on.subrange(a, a + 2) =~= row.subrange(a, a + 2));
        assert(on.subrange(z - 2, z) =~= row.subrange(z - 2, z));
    }
    assert(!row_is_struck(on, col));
    assert(marked_row(struck_row(on, col, true), p, false) =~= struck_row(row, col, true));
    lemma_row_back(row, col);
}

/// The column where the text of a box's line is found lies in the line.
pub proof fn lemma_toggled_column(m: StateModel, line: int, k: int)
    requires
        valid_utf8(m.text()),
        can_toggle(m, line),
        0 <= k < toggled_boxes(m.text(), line).len(),
    ensures
        0 <= toggled_column(m, line, k) <= line_text(
            m.text(),
            box_line(m.text(), toggled_boxes(m.text(), line)[k]),
        ).len(),
{
    let text = m.text();
    let offs = toggled_boxes(text, line);
    let l = box_line(text, offs[k]);
    let part = toggled_part(m, line, k).text();
    lemma_toggled_boxes_fit(text, line);
    lemma_toggled_part(m, line, k);
    assert(box_fits(text, offs[k] as int));
    lemma_box_there(text, offs[k]);
    lemma_row(part, l);
}

/// Whether two texts have boxes on the same lines, in the same places of these
/// lines.
pub open spec fn boxes_alike(
    s: Seq<u8>,
    at_s: Seq<usize>,
    t: Seq<u8>,
    at_t: Seq<usize>,
) -> bool {
    &&& at_s.len() == at_t.len()
    &&& forall|k: int|
        0 <= k < at_s.len() ==> box_line(t, at_t[k]) == box_line(s, #[trigger] at_s[k])
            && box_column(t, at_t[k]) == box_column(s, at_s[k])
}

/// Whether the line of each box that toggling a line sets has an empty box before a
/// text that is not struck through.
pub open spec fn toggles_empty_boxes(m: StateModel, line: int) -> bool {
    forall|k: int|
        0 <= k < toggled_boxes(m.text(), line).len() ==> ({
            let off = #[trigger] toggled_boxes(m.text(), line)[k];
            let col = toggled_column(m, line, k);
            &&& m.text()[off + 1] == mark(false)[0]
            &&& box_column(m.text(), off) + 3 <= col
            &&& !row_is_struck(line_text(m.text(), box_line(m.text(), off)), col)
        })
}

/// Toggling a line twice, when its box and all the boxes nested in its item are
/// empty and the text of none of their lines is struck through, gives the text
/// back exactly. This as long as no box around the item follows, and the second
/// time the boxes and the texts of their lines are found where they were the first
/// time.
#[verifier::spinoff_prover]
pub proof fn law_toggling_twice_restores(m: StateModel, line: int)
    requires
        valid_utf8(m.text()),
        can_toggle(m, line),
        toggles_within(m, line),
        can_toggle(toggled(m, line), line),
        toggles_within(toggled(m, line), line),
        toggled_box(m.text(), line) matches Some((off, checked)) && !checked,
        toggled_box(toggled(m, line).text(), line) matches Some((off, checked)) && checked,
        toggles_empty_boxes(m, line),
        boxes_alike(
            m.text(),
            toggled_boxes(m.text(), line),
            toggled(m, line).text(),
            toggled_boxes(toggled(m, line).text(), line),
        ),
        forall|k: int|
            0 <= k < toggled_boxes(m.text(), line).len() ==> #[trigger] toggled_column(m, line, k)
                == toggled_column(toggled(m, line), line, k),
    ensures
        toggled(toggled(m, line), line).text() == m.text(),
{
    let text = m.text();
    let on = toggled(m, line).text();
    let back = toggled(toggled(m, line), line).text();
    let offs = toggled_boxes(text, line);
    let offs1 = toggled_boxes(on, line);
    let n = offs.len() as int;
    lemma_toggled_boxes_fit(text, line);
    law_toggle_marks_and_strikes(m, line);
    law_toggle_marks_and_strikes(toggled(m, line), line);
    assert forall|l: int| 0 <= l < line_total(text) implies #[trigger] line_text(back, l)
        == line_text(text, l) by {
        if without_box(text, offs, n, l) {
            assert forall|k: int| 0 <= k < n implies box_line(on, #[trigger] offs1[k]) != l by {
                assert(box_line(text, offs[k]) != l);
            }
            assert(without_box(on, offs1, n, l));
            assert(line_text(on, l) == line_text(text, l));
        } else {
            let k = choose|k: int| 0 <= k < n && box_line(text, #[trigger] offs[k]) == l;
            assert(box_fits(text, offs[k] as int));
            lemma_box_there(text, offs[k]);
            assert(box_line(on, offs1[k]) == l);
            let row = line_text(text, l);
            let p = box_column(text, offs[k]);
            let col = toggled_column(m, line, k);
            lemma_line_there(text, l);
            lemma_toggled_column(m, line, k);
            assert(row[p + 1] == text[offs[k] + 1]);
            lemma_row_untoggled(row, p, col);
        }
    }
    lemma_lines_tell(back, text);
}

/// Where the cursor goes when a line is struck through or not.
pub proof fn lemma_cursor_goes(m: StateModel, line: int, add: bool, cursor: usize)
    requires
        0 <= line < line_total(m.text()),
    ensures
        ({
            let text = m.text();
            let lm = line_model(text, line);
            let (lo, hi) = (lm.content() as int, lm.range.end as int);
            let (a, z) = (trim_from(text, lo, hi), trim_to(text, lo, hi));
            struck(m, line, add, cursor).1 == (if a >= z {
                cursor
            } else if add && !is_struck(text, a, z) {
                pushed(cursor, a, z) as usize
            } else if !add && is_struck(text, a, z) && z - a >= 4 {
                pulled(cursor, a + 2, z) as usize
            } else {
                cursor
            })
        }),
{
    reveal(struck);
}

proof fn lemma_byte_stays(text: Seq<u8>, a: int, z: int, ins: Seq<u8>, cursor: int, c: int)
    requires
        0 <= a <= z <= text.len(),
        0 < cursor <= text.len(),
        cursor <= a ==> c == cursor,
        cursor > z ==> c == cursor + ins.len() - (z - a),
        a < cursor <= z ==> a < c <= a + ins.len() && ins[c - a - 1] == text[cursor - 1],
    ensures
        0 < c <= spliced(text, a, z, ins).len(),
        spliced(text, a, z, ins)[c - 1] == text[cursor - 1],
{
}

/// Whichever way a line is struck through or not, the cursor stays behind the byte
/// that it stood behind, unless that byte is one of the tildes that go.
pub proof fn law_strike_keeps_the_cursor(m: StateModel, line: int, add: bool, cursor: usize)
    requires
        valid_utf8(m.text()),
        m.text().len() + 4 <= usize::MAX,
        0 <= line < line_total(m.text()),
        0 < cursor <= m.text().len(),
    ensures
        ({
            let text = m.text();
            let (r, c) = struck(m, line, add, cursor);
            let lm = line_model(text, line);
            let (lo, hi) = (lm.content() as int, lm.range.end as int);
            let (a, z) = (trim_from(text, lo, hi), trim_to(text, lo, hi));
            add || cursor <= a || a + 2 < cursor <= z - 2 || cursor > z ==> 0 < c <= r.text().len()
                && r.text()[c - 1] == text[cursor - 1]
        }),
{
    let text = m.text();
    let lm = line_model(text, line);
    let (lo, hi) = (lm.content() as int, lm.range.end as int);
    let (a, z) = (trim_from(text, lo, hi), trim_to(text, lo, hi));
    lemma_struck_text(m, line, add, cursor);
    lemma_cursor_goes(m, line, add, cursor);
    lemma_line_text(text, line);
    if a < z && add && !is_struck(text, a, z) {
        let ins = tildes() + text.subrange(a, z) + tildes();
        lemma_byte_stays(text, a, z, ins, cursor as int, pushed(cursor, a, z));
    } else if a < z && !add && is_struck(text, a, z) && z - a >= 4 {
        let ins = text.subrange(a + 2, z - 2);
        if cursor <= a || a + 2 < cursor <= z - 2 || cursor > z {
            lemma_byte_stays(text, a, z, ins, cursor as int, pulled(cursor, a + 2, z));
        }
    }
}

/// Whether brackets around a byte stand at a place.
pub open spec fn reads_box(text: Seq<u8>, j: int, b: u8) -> bool {
    0 <= j && j + 3 <= text.len() && text[j] == 91 && text[j + 1] == b && text[j + 2] == 93
}


/// Whether a place is the first in a range at which brackets around a byte stand.
pub open spec fn first_reads_box(text: Seq<u8>, range: Span, k: int, b: u8) -> bool {
    &&& range.start <= k && k + 3 <= range.end
    &&& reads_box(text, k, b)
    &&& forall|j: int| range.start <= j < k ==> !(#[trigger] reads_box(text, j, b))
}

/// Whether nowhere in a range brackets around a byte stand.
pub open spec fn nowhere_reads_box(text: Seq<u8>, range: Span, b: u8) -> bool {
    forall|j: int|
        range.start <= j && j + 3 <= range.end ==> !(#[trigger] reads_box(text, j, b))
}

proof fn lemma_reads_box(text: Seq<u8>, range: Span, b: u8)
    requires
        range.start <= range.end <= text.len(),
    ensures
        match find_from(text, seq![91u8, b, 93u8], range.start as int, range.end as int) {
            Some(k) => first_reads_box(text, range, k, b),
            None => nowhere_reads_box(text, range, b),
        },
{
    let p = seq![91u8, b, 93u8];
    lemma_find_from(text, p, range.start as int, range.end as int);
    assert forall|j: int| #[trigger] reads_box(text, j, b) == has_at(text, j, p) by {
        if reads_box(text, j, b) {
            assert(text.subrange(j, j + 3) =~= p);
        }
        if has_at(text, j, p) {
            let s = text.subrange(j, j + 3);
            assert(s[0] == 91 && s[1] == b && s[2] == 93);
            assert(text[j] == s[0] && text[j + 1] == s[1] && text[j + 2] == s[2]);
        }
    }
    assert forall|j: int| range.start <= j && j + 3 <= range.end && reads_box(
        text,
        j,
        b,
    ) implies has_at(text, j, p) by {
        assert(reads_box(text, j, b) == has_at(text, j, p));
    }
}

/// Where the box of a line is set: at the first place on the line that reads `[x]`
/// when it is checked, or `[X]` when none does, and at the first that reads `[ ]` when
/// it is not. It is set nowhere only when there is no such place.
pub proof fn law_box_is_the_first_on_its_line(text: Seq<u8>, range: Span)
    requires
        range.start <= range.end <= text.len(),
    ensures
        match box_place(text, range, false) {
            Some(k) => first_reads_box(text, range, k, 32),
            None => nowhere_reads_box(text, range, 32),
        },
        match box_place(text, range, true) {
            Some(k) => first_reads_box(text, range, k, 120) || (nowhere_reads_box(text, range, 120)
                && first_reads_box(text, range, k, 88)),
            None => nowhere_reads_box(text, range, 120) && nowhere_reads_box(text, range, 88),
        },
{
    lemma_reads_box(text, range, 32);
    lemma_reads_box(text, range, 120);
    lemma_reads_box(text, range, 88);
}

} // verus!
