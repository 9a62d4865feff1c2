//! Task boxes: checking and unchecking them, striking their lines through, and
//! carrying the change to the items around them.

use vstd::prelude::*;
use vstd::utf8::*;

use crate::buffer::{lemma_boundary_after, spliced, BufferModel};
use crate::cursor::Selection;
use crate::line_scan::{lemma_line_model, lemma_no_task, line_model};
use crate::lines::{
    lemma_earlier_line, lemma_line_begin, lemma_line_finish, lemma_line_of_monotone,
    lemma_line_of_same, line_begin, line_finish, line_of, line_start, line_total,
};
use crate::marker::{LineMarkers, Span};
use crate::outline::{
    all_checked, are_all_checked, box_of, boxes_to_flip, find_nested_checkboxes, item_at,
    lemma_boxes_to_flip, lemma_no_parent_box, lemma_parent_box, parent_box, sibling_boxes, within,
    without_boxes, TaskBox,
};
use crate::sort::{descending, lemma_descending, sort_descending};
use crate::space::{lemma_trim, lemma_trim_boundary, trim_end, trim_from, trim_start, trim_to};
use crate::state::{EditorState, StateModel};
use crate::text::{
    boundary, find_bytes, find_from, floor_boundary, has_at, has_bytes_at, lemma_after_ascii,
    lemma_ascii_valid, lemma_find_byte, lemma_floor, lemma_splice_valid, NEWLINE, SPACE,
};
use crate::tree::{box_fits, nodes_of, SyntaxNode};

verus! {

/// The two tildes that open and close a strikethrough.
pub open spec fn tildes() -> Seq<u8> {
    seq![126u8, 126u8]
}

/// What stands between the brackets of a task box.
pub open spec fn mark(checked: bool) -> Seq<u8> {
    if checked {
        seq![120u8]
    } else {
        seq![32u8]
    }
}

/// Whether the piece of text from `a` to `z` starts and ends with two tildes.
pub open spec fn is_struck(text: Seq<u8>, a: int, z: int) -> bool {
    a + 2 <= z && has_at(text, a, tildes()) && has_at(text, z - 2, tildes())
}

/// `cursor` moved by two bytes for each of two places that lie before it.
pub open spec fn pushed(cursor: usize, a: int, z: int) -> int {
    cursor + (if cursor > a {
        2int
    } else {
        0
    }) + (if cursor > z {
        2int
    } else {
        0
    })
}

/// `cursor` moved back by two bytes for each of two places that lie before it.
pub open spec fn pulled(cursor: usize, a: int, z: int) -> int {
    cursor - (if cursor > a {
        2int
    } else {
        0
    }) - (if cursor > z {
        2int
    } else {
        0
    })
}

/// The state after a line's text was struck through, or after its strikethrough
/// was taken away, and where the cursor then stands.
#[verifier::opaque]
pub open spec fn struck(m: StateModel, line: int, add: bool, cursor: usize) -> (StateModel, usize) {
    let text = m.text();
    let lm = line_model(text, line);
    let (lo, hi) = (lm.content() as int, lm.range.end as int);
    let (a, z) = (trim_from(text, lo, hi), trim_to(text, lo, hi));
    let bare = m.uncached();
    if line >= line_total(text) || a >= z {
        (bare, cursor)
    } else if add {
        if is_struck(text, a, z) {
            (bare, cursor)
        } else {
            let b = m.buffer.insert(z, tildes(), cursor).insert(a, tildes(), cursor);
            (bare.holding(b), pushed(cursor, a, z) as usize)
        }
    } else {
        if is_struck(text, a, z) && z - a >= 4 {
            let b = m.buffer.delete(z - 2, z, cursor).delete(a, a + 2, cursor);
            (bare.holding(b), pulled(cursor, a + 2, z) as usize)
        } else {
            (bare, cursor)
        }
    }
}

/// The state after the box at `off` was set and its line struck through or not,
/// and where the cursor then stands.
pub open spec fn marked(m: StateModel, off: usize, checked: bool, cursor: usize) -> (
    StateModel,
    usize,
) {
    let set = m.holding(m.buffer.splice(off + 1, off + 2, mark(checked), cursor));
    struck(set, line_of(set.text(), off as int), checked, cursor)
}

/// Whether the box of the parent of the item at `off` must follow: when the item
/// is checked, once all items of its list are; when it is unchecked, always.
pub open spec fn parent_follows(text: Seq<u8>, off: usize, checked: bool) -> Option<TaskBox> {
    match parent_box(text, off) {
        Some(p) => if p.checked != checked && (checked ==> all_checked(sibling_boxes(text, off))) {
            Some(p)
        } else {
            None
        },
        None => None,
    }
}

/// The state after the item at `off` was checked or unchecked and the boxes
/// around it followed, and where the cursor then stands.
pub open spec fn risen(m: StateModel, off: usize, checked: bool, cursor: usize) -> (
    StateModel,
    usize,
)
    decreases off,
{
    match parent_follows(m.text(), off, checked) {
        Some(p) => {
            proof {
                if off <= p.offset {
                    lemma_line_of_monotone(m.text(), off as int, p.offset as int);
                }
            }
            let (next, c) = marked(m, p.offset, checked, cursor);
            risen(next, p.offset, checked, c)
        },
        None => (m, cursor),
    }
}

/// Where the task box of a line stands in it: the first place that reads like a
/// box in the given state.
pub open spec fn box_place(text: Seq<u8>, range: Span, checked: bool) -> Option<int> {
    let (lo, hi) = (range.start as int, range.end as int);
    if checked {
        match find_from(text, seq![91u8, 120u8, 93u8], lo, hi) {
            Some(k) => Some(k),
            None => find_from(text, seq![91u8, 88u8, 93u8], lo, hi),
        }
    } else {
        find_from(text, seq![91u8, 32u8, 93u8], lo, hi)
    }
}

/// The parent's box as seen from `off`, or from the byte before it.
pub open spec fn parent_box_near(text: Seq<u8>, off: usize) -> Option<TaskBox> {
    match parent_box(text, off) {
        Some(p) => Some(p),
        None => if off > 0 {
            parent_box(text, (off - 1) as usize)
        } else {
            None
        },
    }
}

/// The boxes of the list as seen from `off`, or from the byte before it.
pub open spec fn sibling_boxes_near(text: Seq<u8>, off: usize) -> Seq<TaskBox> {
    if sibling_boxes(text, off).len() == 0 && off > 0 {
        sibling_boxes(text, (off - 1) as usize)
    } else {
        sibling_boxes(text, off)
    }
}

/// The state after the boxes around the cursor's line were brought in line with
/// the boxes of its list.
#[verifier::opaque]
pub open spec fn settled_around(m: StateModel) -> StateModel {
    let cursor = m.selection.head;
    let boxes = sibling_boxes_near(m.text(), cursor);
    match parent_box_near(m.text(), cursor) {
        Some(p) => if boxes.len() > 0 && all_checked(boxes) != p.checked {
            let (next, c) = marked(m, p.offset, !p.checked, cursor);
            let (last, d) = risen(next, p.offset, !p.checked, c);
            last.at(d)
        } else {
            m
        },
        None => m,
    }
}

/// The state after the boxes around the cursor's line were brought in line with
/// what an edit left there.
#[verifier::opaque]
pub open spec fn settled(m: StateModel) -> StateModel {
    let cursor = m.selection.head;
    let lm = line_model(m.text(), line_of(m.text(), cursor as int));
    match lm.task() {
        Some(checked) => match box_place(m.text(), lm.range, checked) {
            Some(off) => {
                let (next, c) = risen(m, off as usize, checked, cursor);
                next.at(c)
            },
            None => m,
        },
        None => settled_around(m),
    }
}

/// The state after the first `n` of the boxes at `offs` were set.
pub open spec fn boxes_set(
    m: StateModel,
    offs: Seq<usize>,
    checked: bool,
    cursor: usize,
    n: int,
) -> StateModel
    decreases n,
{
    if n <= 0 {
        m
    } else {
        let before = boxes_set(m, offs, checked, cursor, n - 1);
        let off = offs[n - 1];
        before.holding(before.buffer.splice(off + 1, off + 2, mark(checked), cursor))
    }
}

/// The state after the lines of the first `n` of the boxes at `offs` were struck
/// through or not, and where the cursor then stands.
pub open spec fn lines_struck(
    m: StateModel,
    offs: Seq<usize>,
    checked: bool,
    cursor: usize,
    n: int,
) -> (StateModel, usize)
    decreases n,
{
    if n <= 0 {
        (m, cursor)
    } else {
        let (before, c) = lines_struck(m, offs, checked, cursor, n - 1);
        struck(before, line_of(before.text(), offs[n - 1] as int), checked, c)
    }
}

/// The boxes that change when the box at `off` is set: those of its item and of
/// the items nested in it that are not yet set so, the last one first.
pub open spec fn boxes_changing(text: Seq<u8>, off: usize, checked: bool) -> Seq<usize> {
    match item_at(text, off) {
        Some(item) => {
            let nodes = nodes_of(text)->0;
            descending(boxes_to_flip(nodes, item, checked, nodes.len() as int))
        },
        None => seq![off],
    }
}

/// The state after the box of a line was toggled, with the boxes nested in its
/// item and the boxes around it.
#[verifier::opaque]
pub open spec fn toggled(m: StateModel, line: int) -> StateModel {
    let lm = line_model(m.text(), line);
    if line >= line_total(m.text()) {
        m
    } else {
        match lm.task() {
            Some(checked) => match box_place(m.text(), lm.range, checked) {
                Some(off) => {
                    let cursor = m.selection.head;
                    let offs = boxes_changing(m.text(), off as usize, !checked);
                    let n = offs.len() as int;
                    let set = boxes_set(m, offs, !checked, cursor, n);
                    let (next, c) = lines_struck(set, offs, !checked, cursor, n);
                    let (last, d) = risen(next, off as usize, !checked, c);
                    last.at(d)
                },
                None => m,
            },
            None => m,
        }
    }
}

// ---------------------------------------------------------------------------
// Setting one box
// ---------------------------------------------------------------------------

/// Whether the three bytes at `i` are ASCII.
pub open spec fn ascii_box(text: Seq<u8>, i: int) -> bool {
    0 <= i && i + 3 <= text.len() && text[i] < 128 && text[i + 1] < 128 && text[i + 2] < 128
}

/// Setting a box changes the one byte between its brackets.
pub proof fn lemma_mark(text: Seq<u8>, off: int, b: u8)
    requires
        valid_utf8(text),
        ascii_box(text, off),
        b < 128,
    ensures
        floor_boundary(text, off + 1) == off + 1,
        floor_boundary(text, off + 2) == off + 2,
        spliced(text, off + 1, off + 2, seq![b]) == text.update(off + 1, b),
{
    lemma_after_ascii(text, off + 1);
    lemma_after_ascii(text, off + 2);
    lemma_floor(text, off + 1);
    lemma_floor(text, off + 2);
    assert(spliced(text, off + 1, off + 2, seq![b]) =~= text.update(off + 1, b));
}

/// Texts with newlines in the same places have the same lines.
pub proof fn lemma_same_lines(s: Seq<u8>, t: Seq<u8>, off: int)
    requires
        s.len() == t.len(),
        forall|i: int| 0 <= i < s.len() ==> (s[i] == NEWLINE <==> t[i] == NEWLINE),
    ensures
        line_of(s, off) == line_of(t, off),
    decreases off,
{
    if off > 0 {
        lemma_same_lines(s, t, off - 1);
    }
}

/// What stands around the text of a line once it is trimmed.
pub proof fn lemma_line_text(text: Seq<u8>, line: int)
    requires
        valid_utf8(text),
        text.len() <= usize::MAX,
    ensures
        ({
            let lm = line_model(text, line);
            let (lo, hi) = (lm.content() as int, lm.range.end as int);
            0 <= lo <= trim_from(text, lo, hi) <= trim_to(text, lo, hi) <= hi <= text.len() && hi
                == line_finish(text, line_start(text, line)) && boundary(
                text,
                trim_from(text, lo, hi),
            ) && boundary(text, trim_to(text, lo, hi))
        }),
{
    lemma_line_model(text, line);
    let lm = line_model(text, line);
    lemma_trim(text, lm.content() as int, lm.range.end as int);
    lemma_trim_boundary(text, lm.content() as int, lm.range.end as int);
}

/// Taking two tildes out takes out exactly them.
pub proof fn lemma_drop_tildes(text: Seq<u8>, a: int)
    requires
        valid_utf8(text),
        has_at(text, a, tildes()),
    ensures
        boundary(text, a),
        boundary(text, a + 2),
        floor_boundary(text, a) == a,
        floor_boundary(text, a + 2) == a + 2,
        valid_utf8(Seq::<u8>::empty()),
        valid_utf8(spliced(text, a, a + 2, Seq::<u8>::empty())),
        spliced(text, a, a + 2, Seq::<u8>::empty()).len() == text.len() - 2,
{
    assert(text.subrange(a, a + 2)[0] == tildes()[0]);
    assert(text.subrange(a, a + 2)[1] == tildes()[1]);
    assert(text[a] == 126);
    assert(text[a + 1] == 126);
    lemma_after_ascii(text, a + 2);
    assert(boundary(text, a));
    lemma_floor(text, a);
    lemma_floor(text, a + 2);
    lemma_ascii_valid(Seq::<u8>::empty());
    lemma_splice_valid(text, a, a + 2, Seq::<u8>::empty());
}

/// Where the text and a cursor stand once two tildes were put on either side of
/// the text from `a` to `z`.
pub proof fn lemma_strike_places(text: Seq<u8>, a: int, z: int, cursor: usize)
    requires
        valid_utf8(text),
        0 <= a <= z <= text.len(),
        boundary(text, a),
        boundary(text, z),
    ensures
        ({
            let one = spliced(text, z, z, tildes());
            let on = spliced(one, a, a, tildes());
            &&& floor_boundary(text, z) == z
            &&& floor_boundary(one, a) == a
            &&& one.len() == text.len() + 2
            &&& on.len() == text.len() + 4
            &&& boundary(text, cursor as int) ==> boundary(on, pushed(cursor, a, z))
        }),
{
    let one = spliced(text, z, z, tildes());
    lemma_ascii_valid(tildes());
    lemma_boundary_after(text, z, z, tildes(), a);
    lemma_boundary_after(one, a, a, tildes(), a);
    if boundary(text, cursor as int) {
        lemma_boundary_after(text, z, z, tildes(), cursor as int);
        let c = if cursor > z {
            cursor + 2
        } else {
            cursor as int
        };
        lemma_boundary_after(one, a, a, tildes(), c);
    }
}

fn two_tildes() -> (r: Vec<u8>)
    ensures
        r@ == tildes(),
        valid_utf8(r@),
{
    let mut v: Vec<u8> = Vec::new();
    v.push(126);
    v.push(126);
    proof {
        assert(v@ =~= tildes());
        lemma_ascii_valid(v@);
    }
    v
}

fn mark_bytes(checked: bool) -> (r: Vec<u8>)
    ensures
        r@ == mark(checked),
        valid_utf8(r@),
{
    let b: u8 = if checked {
        120
    } else {
        SPACE
    };
    let mut v: Vec<u8> = Vec::new();
    v.push(b);
    proof {
        assert(v@ =~= mark(checked));
        lemma_ascii_valid(v@);
    }
    v
}

fn box_pattern(b: u8) -> (r: Vec<u8>)
    ensures
        r@ == seq![91u8, b, 93u8],
{
    let mut v: Vec<u8> = Vec::new();
    v.push(91);
    v.push(b);
    v.push(93);
    assert(v@ =~= seq![91u8, b, 93u8]);
    v
}

/// Where the task box of a line stands in it.
fn find_box_place(text: &[u8], range: Span, checked: bool) -> (r: Option<usize>)
    requires
        range.start <= range.end <= text@.len(),
    ensures
        match r {
            Some(k) => box_place(text@, range, checked) == Some(k as int) && range.start <= k && k
                + 3 <= range.end && box_fits(text@, k as int),
            None => box_place(text@, range, checked) is None,
        },
{
    let first: Vec<u8> = box_pattern(
        if checked {
            120
        } else {
            SPACE
        },
    );
    match find_bytes(text, first.as_slice(), range.start, range.end) {
        Some(k) => {
            assert(text@.subrange(k as int, k + 3)[0] == first@[0]);
            assert(text@.subrange(k as int, k + 3)[1] == first@[1]);
            assert(text@.subrange(k as int, k + 3)[2] == first@[2]);
            return Some(k);
        },
        None => {},
    }
    if checked {
        let other: Vec<u8> = box_pattern(88);
        match find_bytes(text, other.as_slice(), range.start, range.end) {
            Some(k) => {
                assert(text@.subrange(k as int, k + 3)[0] == other@[0]);
                assert(text@.subrange(k as int, k + 3)[1] == other@[1]);
                assert(text@.subrange(k as int, k + 3)[2] == other@[2]);
                Some(k)
            },
            None => None,
        }
    } else {
        None
    }
}

impl EditorState {
    /// Puts two tildes on either side of the text from `a` to `z`. Returns where
    /// the cursor then stands.
    fn strike(&mut self, a: usize, z: usize, cursor: usize) -> (r: usize)
        requires
            old(self).wf(),
            a <= z <= old(self)@.text().len(),
            boundary(old(self)@.text(), a as int),
            boundary(old(self)@.text(), z as int),
            cursor <= old(self)@.text().len(),
        ensures
            final(self).wf(),
            final(self)@ == old(self)@.holding(
                old(self)@.buffer.insert(z as int, tildes(), cursor).insert(
                    a as int,
                    tildes(),
                    cursor,
                ),
            ),
            r == pushed(cursor, a as int, z as int),
            final(self)@.text().len() == old(self)@.text().len() + 4,
            boundary(old(self)@.text(), cursor as int) ==> boundary(
                final(self)@.text(),
                r as int,
            ),
    {
        let ghost text = self@.text();
        let t: Vec<u8> = two_tildes();
        proof {
            self.buffer.lemma_wf();
        }
        proof {
            lemma_strike_places(text, a as int, z as int, cursor);
        }
        self.buffer.insert(z, t.as_slice(), cursor);
        self.buffer.insert(a, t.as_slice(), cursor);
        proof {
            self.buffer.lemma_wf();
        }
        let first: usize = if cursor > a {
            2
        } else {
            0
        };
        let second: usize = if cursor > z {
            2
        } else {
            0
        };
        cursor + first + second
    }

    /// Takes away the two tildes at either end of the text from `a` to `z`.
    /// Returns where the cursor then stands.
    fn unstrike(&mut self, a: usize, z: usize, cursor: usize) -> (r: usize)
        requires
            old(self).wf(),
            a + 4 <= z <= old(self)@.text().len(),
            is_struck(old(self)@.text(), a as int, z as int),
        ensures
            final(self).wf(),
            final(self)@ == old(self)@.holding(
                old(self)@.buffer.delete(z - 2, z as int, cursor).delete(
                    a as int,
                    a + 2,
                    cursor,
                ),
            ),
            r == pulled(cursor, a + 2, z as int),
            final(self)@.text().len() == old(self)@.text().len() - 4,
            boundary(old(self)@.text(), cursor as int) && cursor > z ==> boundary(
                final(self)@.text(),
                r as int,
            ),
    {
        let ghost text = self@.text();
        proof {
            self.buffer.lemma_wf();
            lemma_drop_tildes(text, z - 2);
        }
        self.buffer.delete(z - 2, z, cursor);
        let ghost middle = self@.text();
        proof {
            assert(text.subrange(a as int, a + 2) == tildes());
            assert(middle.subrange(a as int, a + 2) =~= text.subrange(a as int, a + 2));
            self.buffer.lemma_wf();
            lemma_drop_tildes(middle, a as int);
            if boundary(text, cursor as int) && cursor > z {
                let none = Seq::<u8>::empty();
                lemma_boundary_after(text, z - 2, z as int, none, cursor as int);
                lemma_boundary_after(middle, a as int, a + 2, none, cursor - 2);
            }
        }
        self.buffer.delete(a, a + 2, cursor);
        let first: usize = if cursor > a + 2 {
            2
        } else {
            0
        };
        let second: usize = if cursor > z {
            2
        } else {
            0
        };
        cursor - first - second
    }

    /// Strikes a line's text through, or takes its strikethrough away. Returns
    /// where the cursor then stands.
    pub fn toggle_line_strikethrough(&mut self, line: usize, add: bool, cursor: usize) -> (r: usize)
        requires
            old(self).wf(),
            add ==> cursor <= old(self)@.text().len(),
        ensures
            final(self).wf(),
            (final(self)@, r) == struck(old(self)@, line as int, add, cursor),
            add ==> cursor <= r <= final(self)@.text().len(),
            !add ==> r <= cursor,
            cursor <= old(self)@.text().len() && line_finish(
                old(self)@.text(),
                line_start(old(self)@.text(), line as int),
            ) < cursor ==> r <= final(self)@.text().len() && cursor <= r + 4,
            boundary(old(self)@.text(), cursor as int) && (add || line_finish(
                old(self)@.text(),
                line_start(old(self)@.text(), line as int),
            ) < cursor) ==> boundary(final(self)@.text(), r as int),
    {
        reveal(struck);
        let ghost m = self@;
        let ghost text = self@.text();
        proof {
            self.buffer.lemma_wf();
            lemma_line_text(text, line as int);
        }
        self.tab_cycle_cache = None;
        assert(self@ =~= m.uncached());
        if line > self.buffer.last_line() {
            return cursor;
        }
        let lm: LineMarkers = self.buffer.line_markers(line);
        let lo: usize = lm.content_start();
        let hi: usize = lm.range.end;
        let a: usize = trim_start(self.buffer.bytes(), lo, hi);
        let z: usize = trim_end(self.buffer.bytes(), a, hi);
        if a >= z {
            return cursor;
        }
        let t: Vec<u8> = two_tildes();
        let is_struck: bool = z - a >= 2 && has_bytes_at(self.buffer.bytes(), a, t.as_slice())
            && has_bytes_at(self.buffer.bytes(), z - 2, t.as_slice());
        if add {
            if is_struck {
                return cursor;
            }
            self.strike(a, z, cursor)
        } else {
            if !(is_struck && z - a >= 4) {
                return cursor;
            }
            self.unstrike(a, z, cursor)
        }
    }

    /// Sets the box at `off` and strikes its line through or not. Returns where
    /// the cursor then stands.
    fn set_box(&mut self, off: usize, checked: bool, cursor: usize) -> (r: usize)
        requires
            old(self).wf(),
            box_fits(old(self)@.text(), off as int),
            checked ==> cursor <= old(self)@.text().len(),
        ensures
            final(self).wf(),
            (final(self)@, r) == marked(old(self)@, off, checked, cursor),
            checked ==> r <= final(self)@.text().len(),
            cursor <= old(self)@.text().len() && line_of(old(self)@.text(), off as int) < line_of(
                old(self)@.text(),
                cursor as int,
            ) ==> off <= r <= final(self)@.text().len(),
            boundary(old(self)@.text(), cursor as int) && (checked || line_of(
                old(self)@.text(),
                off as int,
            ) < line_of(old(self)@.text(), cursor as int)) ==> boundary(
                final(self)@.text(),
                r as int,
            ),
    {
        let ghost m = self@;
        let ghost text = self@.text();
        let content: Vec<u8> = mark_bytes(checked);
        proof {
            self.buffer.lemma_wf();
            lemma_mark(text, off as int, mark(checked)[0]);
            assert(mark(checked) =~= seq![mark(checked)[0]]);
        }
        self.buffer.replace(off + 1, off + 2, content.as_slice(), cursor);
        let ghost set = self@.text();
        proof {
            assert(self@ =~= m.holding(
                m.buffer.splice(off + 1, off + 2, mark(checked), cursor),
            ));
            assert(set == text.update(off + 1, mark(checked)[0]));
            lemma_same_lines(text, set, off as int);
            lemma_same_lines(text, set, cursor as int);
            lemma_line_begin(set, off as int);
            lemma_line_finish(set, off as int);
            lemma_find_byte(set, NEWLINE, off as int);
            if cursor <= text.len() && line_of(text, off as int) < line_of(text, cursor as int) {
                lemma_earlier_line(set, off as int, cursor as int);
                lemma_line_begin(set, cursor as int);
                assert(set[off as int] == 91);
                assert(set[off + 1] != NEWLINE);
                assert(set[off + 2] == 93);
                assert(line_finish(set, off as int) >= off + 3);
            }
        }
        let line: usize = self.buffer.byte_to_line(off);
        self.toggle_line_strikethrough(line, checked, cursor)
    }

    /// Carries the state of the item at `off` to the items around it. Returns
    /// where the cursor then stands.
    pub fn propagate_checkbox_up(&mut self, off: usize, checked: bool, cursor: usize) -> (r: usize)
        requires
            old(self).wf(),
            checked ==> cursor <= old(self)@.text().len(),
        ensures
            final(self).wf(),
            (final(self)@, r) == risen(old(self)@, off, checked, cursor),
            checked ==> r <= final(self)@.text().len(),
            cursor <= old(self)@.text().len() && line_of(old(self)@.text(), off as int) <= line_of(
                old(self)@.text(),
                cursor as int,
            ) ==> r <= final(self)@.text().len(),
            boundary(old(self)@.text(), cursor as int) && (checked || line_of(
                old(self)@.text(),
                off as int,
            ) <= line_of(old(self)@.text(), cursor as int)) ==> boundary(
                final(self)@.text(),
                r as int,
            ),
        decreases off,
    {
        let ghost m = self@;
        proof {
            self.buffer.lemma_wf();
            lemma_parent_box(self@.text(), off);
        }
        let p: TaskBox = match self.buffer.find_parent_checkbox(off) {
            Some(p) => p,
            None => {
                return cursor;
            },
        };
        if p.checked == checked {
            return cursor;
        }
        if checked {
            let siblings: Vec<TaskBox> = self.buffer.find_sibling_checkboxes(off);
            if !are_all_checked(&siblings) {
                return cursor;
            }
        }
        assert(parent_follows(m.text(), off, checked) == Some(p));
        let c: usize = self.set_box(p.offset, checked, cursor);
        proof {
            if p.offset <= c {
                lemma_line_of_monotone(self@.text(), p.offset as int, c as int);
            }
        }
        self.propagate_checkbox_up(p.offset, checked, c)
    }

    /// Brings the boxes around the cursor's line in line with what an edit left
    /// there.
    pub fn propagate_checkbox_after_edit(&mut self)
        requires
            old(self).ready(),
        ensures
            final(self).ready(),
            final(self)@ == settled(old(self)@),
            old(self).steady() ==> final(self).steady(),
            old(self)@.collapsed() ==> final(self)@.collapsed(),
    {
        reveal(settled);
        let ghost text = self@.text();
        let cursor: usize = self.cursor().offset;
        proof {
            self.buffer.lemma_wf();
        }
        let line: usize = self.buffer.byte_to_line(cursor);
        let lm: LineMarkers = self.buffer.line_markers(line);
        match lm.checkbox() {
            Some(checked) => match find_box_place(self.buffer.bytes(), lm.range, checked) {
                Some(off) => {
                    proof {
                        lemma_line_begin(text, cursor as int);
                        lemma_line_finish(text, cursor as int);
                        lemma_line_model(text, line as int);
                        lemma_find_byte(text, NEWLINE, line_begin(text, cursor as int));
                        lemma_line_of_same(text, line_begin(text, cursor as int), cursor as int);
                        lemma_line_of_same(text, line_begin(text, cursor as int), off as int);
                    }
                    let c: usize = self.propagate_checkbox_up(off, checked, cursor);
                    self.selection = Selection::new(c, c);
                },
                None => {},
            },
            None => {
                self.propagate_from_parent_checkbox();
            },
        }
    }

    /// Brings the boxes around the cursor's line in line with the boxes of its
    /// list.
    fn propagate_from_parent_checkbox(&mut self)
        requires
            old(self).ready(),
        ensures
            final(self).ready(),
            final(self)@ == settled_around(old(self)@),
            old(self).steady() ==> final(self).steady(),
            old(self)@.collapsed() ==> final(self)@.collapsed(),
    {
        reveal(settled_around);
        let ghost text = self@.text();
        let cursor: usize = self.cursor().offset;
        proof {
            self.buffer.lemma_wf();
            lemma_parent_box(text, cursor);
            if cursor > 0 {
                lemma_parent_box(text, (cursor - 1) as usize);
                lemma_line_of_monotone(text, cursor - 1, cursor as int);
            }
        }
        let near: Option<TaskBox> = match self.buffer.find_parent_checkbox(cursor) {
            Some(p) => Some(p),
            None => if cursor > 0 {
                self.buffer.find_parent_checkbox(cursor - 1)
            } else {
                None
            },
        };
        let p: TaskBox = match near {
            Some(p) => p,
            None => {
                return;
            },
        };
        let here: Vec<TaskBox> = self.buffer.find_sibling_checkboxes(cursor);
        let siblings: Vec<TaskBox> = if here.len() == 0 && cursor > 0 {
            self.buffer.find_sibling_checkboxes(cursor - 1)
        } else {
            here
        };
        if siblings.len() == 0 {
            return;
        }
        if are_all_checked(&siblings) == p.checked {
            return;
        }
        let c: usize = self.set_box(p.offset, !p.checked, cursor);
        proof {
            lemma_line_of_monotone(self@.text(), p.offset as int, c as int);
        }
        let d: usize = self.propagate_checkbox_up(p.offset, !p.checked, c);
        self.selection = Selection::new(d, d);
    }

    /// Toggles the box of a line, the boxes nested in its item, and the boxes
    /// around it that must follow.
    pub fn toggle_checkbox_for_test(&mut self, line_number: usize)
        requires
            old(self).ready(),
        ensures
            final(self).wf(),
            final(self)@ == toggled(old(self)@, line_number as int),
            line_model(old(self)@.text(), line_number as int).task() != Some(true)
                ==> final(self).ready(),
            line_model(old(self)@.text(), line_number as int).task() != Some(true)
                && old(self).steady() ==> final(self).steady(),
    {
        reveal(toggled);
        proof {
            self.buffer.lemma_wf();
        }
        if line_number > self.buffer.last_line() {
            return;
        }
        let lm: LineMarkers = self.buffer.line_markers(line_number);
        let is_checked: bool = match lm.checkbox() {
            Some(c) => c,
            None => {
                return;
            },
        };
        let off: usize = match find_box_place(self.buffer.bytes(), lm.range, is_checked) {
            Some(k) => k,
            None => {
                return;
            },
        };
        let checked: bool = !is_checked;
        let cursor: usize = self.cursor().offset;
        let offs: Vec<usize> = self.find_boxes_changing(off, checked);
        self.set_boxes(&offs, checked, cursor);
        let c: usize = self.strike_lines(&offs, checked, cursor);
        let d: usize = self.propagate_checkbox_up(off, checked, c);
        self.selection = Selection::new(d, d);
    }

    /// Strikes the lines of the boxes at `offs` through, or no longer. Returns
    /// where the cursor then stands.
    fn strike_lines(&mut self, offs: &Vec<usize>, checked: bool, cursor: usize) -> (r: usize)
        requires
            old(self).wf(),
            checked ==> cursor <= old(self)@.text().len(),
        ensures
            final(self).wf(),
            (final(self)@, r) == lines_struck(
                old(self)@,
                offs@,
                checked,
                cursor,
                offs@.len() as int,
            ),
            checked ==> r <= final(self)@.text().len(),
            checked && boundary(old(self)@.text(), cursor as int) ==> boundary(
                final(self)@.text(),
                r as int,
            ),
    {
        let ghost m = self@;
        let mut c: usize = cursor;
        let mut n: usize = 0;
        while n < offs.len()
            invariant
                n <= offs@.len(),
                self.wf(),
                checked ==> c <= self@.text().len(),
                checked && boundary(m.text(), cursor as int) ==> boundary(self@.text(), c as int),
                (self@, c) == lines_struck(m, offs@, checked, cursor, n as int),
            decreases offs@.len() - n,
        {
            let line: usize = self.buffer.byte_to_line(offs[n]);
            c = self.toggle_line_strikethrough(line, checked, c);
            n = n + 1;
        }
        c
    }

    /// The boxes that change when the box at `off` is set, the last one first.
    fn find_boxes_changing(&self, off: usize, checked: bool) -> (r: Vec<usize>)
        requires
            self.wf(),
            box_fits(self@.text(), off as int),
        ensures
            r@ == boxes_changing(self@.text(), off, checked),
            forall|k: int| 0 <= k < r@.len() ==> box_fits(self@.text(), #[trigger] r@[k] as int),
    {
        if let Some(item) = self.buffer.find_list_item_node(off) {
            if let Some(nodes) = self.buffer.nodes() {
                let nested: Vec<usize> = find_nested_checkboxes(nodes, item, checked);
                proof {
                    let all = nodes@.len() as int;
                    lemma_boxes_to_flip(self@.text(), nodes@, item as int, checked, all);
                    lemma_descending(nested@);
                    let sorted = descending(nested@);
                    assert forall|k: int| 0 <= k < sorted.len() implies box_fits(
                        self@.text(),
                        #[trigger] sorted[k] as int,
                    ) by {
                        assert(nested@.contains(sorted[k]));
                    }
                }
                return sort_descending(&nested);
            }
        }
        let mut out: Vec<usize> = Vec::new();
        out.push(off);
        assert(out@ =~= seq![off]);
        out
    }

    /// Sets the boxes at `offs`.
    fn set_boxes(&mut self, offs: &Vec<usize>, checked: bool, cursor: usize)
        requires
            old(self).wf(),
            forall|k: int|
                0 <= k < offs@.len() ==> box_fits(old(self)@.text(), #[trigger] offs@[k] as int),
        ensures
            final(self).wf(),
            final(self)@ == boxes_set(
                old(self)@,
                offs@,
                checked,
                cursor,
                offs@.len() as int,
            ),
            final(self)@.text().len() == old(self)@.text().len(),
            boundary(old(self)@.text(), cursor as int) ==> boundary(
                final(self)@.text(),
                cursor as int,
            ),
    {
        let ghost m = self@;
        let content: Vec<u8> = mark_bytes(checked);
        let mut n: usize = 0;
        while n < offs.len()
            invariant
                n <= offs@.len(),
                self.wf(),
                content@ == mark(checked),
                valid_utf8(content@),
                self@.text().len() == m.text().len(),
                boundary(m.text(), cursor as int) ==> boundary(self@.text(), cursor as int),
                self@ == boxes_set(m, offs@, checked, cursor, n as int),
                forall|k: int|
                    0 <= k < offs@.len() ==> ascii_box(self@.text(), #[trigger] offs@[k] as int),
            decreases offs@.len() - n,
        {
            let ghost before = self@;
            let off: usize = offs[n];
            assert(ascii_box(before.text(), offs@[n as int] as int));
            proof {
                self.buffer.lemma_wf();
                lemma_mark(before.text(), off as int, mark(checked)[0]);
                assert(mark(checked) =~= seq![mark(checked)[0]]);
            }
            self.buffer.replace(off + 1, off + 2, content.as_slice(), cursor);
            proof {
                assert(self@ =~= before.holding(
                    before.buffer.splice(off + 1, off + 2, mark(checked), cursor),
                ));
                let after = self@.text();
                assert(after == before.text().update(off + 1, mark(checked)[0]));
                assert forall|k: int| 0 <= k < offs@.len() implies ascii_box(
                    after,
                    #[trigger] offs@[k] as int,
                ) by {
                    assert(ascii_box(before.text(), offs@[k] as int));
                }
            }
            n = n + 1;
        }
    }
}

// ---------------------------------------------------------------------------
// What setting boxes and striking lines through keep to
// ---------------------------------------------------------------------------

/// Striking a piece of text through puts two tildes on either side of it, and
/// taking the strikethrough away gives the text back.
#[verifier::spinoff_prover]
#[verifier::rlimit(30)]
pub proof fn law_strikethrough_is_undone(b: BufferModel, a: int, z: int, cursor: usize)
    requires
        valid_utf8(b.text),
        0 <= a <= z <= b.text.len(),
        boundary(b.text, a),
        boundary(b.text, z),
    ensures
        ({
            let on = b.insert(z, tildes(), cursor).insert(a, tildes(), cursor);
            let off = on.delete(z + 2, z + 4, cursor).delete(a, a + 2, cursor);
            on.text == b.text.subrange(0, a) + tildes() + b.text.subrange(a, z) + tildes()
                + b.text.subrange(z, b.text.len() as int) && is_struck(on.text, a, z + 4)
                && off.text == b.text
        }),
{
    let text = b.text;
    lemma_ascii_valid(tildes());
    lemma_boundary_after(text, z, z, tildes(), a);
    let one = spliced(text, z, z, tildes());
    lemma_boundary_after(one, a, a, tildes(), a);
    let on = spliced(one, a, a, tildes());
    assert(on =~= text.subrange(0, a) + tildes() + text.subrange(a, z) + tildes() + text.subrange(
        z,
        text.len() as int,
    ));
    assert(on.subrange(a, a + 2) =~= tildes());
    assert(on.subrange(z + 2, z + 4) =~= tildes());
    lemma_drop_tildes(on, z + 2);
    let less = spliced(on, z + 2, z + 4, Seq::<u8>::empty());
    assert(less.subrange(a, a + 2) =~= tildes());
    lemma_drop_tildes(less, a);
    assert(spliced(less, a, a + 2, Seq::<u8>::empty()) =~= text);
}

/// Whether byte `i` is the one between the brackets of one of the first `n`
/// boxes.
pub open spec fn is_mark_of(offs: Seq<usize>, i: int, n: int) -> bool
    decreases n,
{
    n > 0 && (i == offs[n - 1] + 1 || is_mark_of(offs, i, n - 1))
}

/// Setting boxes writes the mark into every one of them and changes no other
/// byte.
pub proof fn law_every_box_is_set(
    m: StateModel,
    offs: Seq<usize>,
    checked: bool,
    cursor: usize,
    n: int,
)
    requires
        valid_utf8(m.text()),
        0 <= n <= offs.len(),
        forall|k: int| 0 <= k < offs.len() ==> ascii_box(m.text(), #[trigger] offs[k] as int),
    ensures
        ({
            let after = boxes_set(m, offs, checked, cursor, n).text();
            &&& valid_utf8(after)
            &&& after.len() == m.text().len()
            &&& forall|k: int| 0 <= k < n ==> after[(#[trigger] offs[k]) + 1] == mark(checked)[0]
            &&& forall|i: int|
                0 <= i < after.len() && !is_mark_of(offs, i, n) ==> #[trigger] after[i]
                    == m.text()[i]
            &&& forall|k: int| 0 <= k < offs.len() ==> ascii_box(after, #[trigger] offs[k] as int)
        }),
    decreases n,
{
    if n > 0 {
        law_every_box_is_set(m, offs, checked, cursor, n - 1);
        let before = boxes_set(m, offs, checked, cursor, n - 1).text();
        let off = offs[n - 1] as int;
        lemma_mark(before, off, mark(checked)[0]);
        assert(mark(checked) =~= seq![mark(checked)[0]]);
        lemma_ascii_valid(mark(checked));
        lemma_after_ascii(before, off + 1);
        lemma_after_ascii(before, off + 2);
        lemma_splice_valid(before, off + 1, off + 2, mark(checked));
        let after = boxes_set(m, offs, checked, cursor, n).text();
        assert(after == before.update(off + 1, mark(checked)[0]));
        assert forall|k: int| 0 <= k < n implies after[(#[trigger] offs[k]) + 1] == mark(checked)[0] by {
            if k < n - 1 {
                assert(before[offs[k] + 1] == mark(checked)[0]);
            }
        }
        assert forall|k: int| 0 <= k < offs.len() implies ascii_box(
            after,
            #[trigger] offs[k] as int,
        ) by {
            assert(ascii_box(before, offs[k] as int));
        }
        assert forall|i: int| 0 <= i < after.len() && !is_mark_of(offs, i, n) implies #[trigger]
            after[i] == m.text()[i] by {
            assert(before[i] == m.text()[i]);
        }
    }
}

/// Toggling touches the boxes from the last one to the first, so that no change
/// moves a box that is still to be set.
pub proof fn law_later_boxes_come_first(text: Seq<u8>, off: usize, checked: bool)
    ensures
        forall|i: int, j: int|
            0 <= i < j < boxes_changing(text, off, checked).len() ==> #[trigger] boxes_changing(
                text,
                off,
                checked,
            )[i] >= #[trigger] boxes_changing(text, off, checked)[j],
{
    if let Some(item) = item_at(text, off) {
        let nodes = nodes_of(text)->0;
        lemma_descending(boxes_to_flip(nodes, item, checked, nodes.len() as int));
    }
}

proof fn lemma_flipped(nodes: Seq<SyntaxNode>, item: int, checked: bool, n: int, x: usize)
    requires
        0 <= n <= nodes.len(),
    ensures
        boxes_to_flip(nodes, item, checked, n).contains(x) <==> exists|j: int|
            0 <= j < n && #[trigger] flips(nodes, item, checked, j, x),
    decreases n,
{
    if n > 0 {
        lemma_flipped(nodes, item, checked, n - 1, x);
        let before = boxes_to_flip(nodes, item, checked, n - 1);
        let after = boxes_to_flip(nodes, item, checked, n);
        if before.contains(x) {
            let k = choose|k: int| 0 <= k < before.len() && before[k] == x;
            assert(after[k] == x);
        }
        if flips(nodes, item, checked, n - 1, x) {
            assert(after.last() == x);
        }
        if after.contains(x) && !before.contains(x) {
            let k = choose|k: int| 0 <= k < after.len() && after[k] == x;
            assert(k == before.len()) by {
                if k < before.len() {
                    assert(before[k] == x);
                }
            }
            assert(flips(nodes, item, checked, n - 1, x));
        }
    }
}

/// Whether node `j` is a task box at `x` under node `item` whose state is not
/// `checked`.
pub open spec fn flips(
    nodes: Seq<SyntaxNode>,
    item: int,
    checked: bool,
    j: int,
    x: usize,
) -> bool {
    within(nodes, j, item) && box_of(nodes[j]) == Some(TaskBox { offset: x, checked: !checked })
}

/// Toggling the box of an item reaches every box under it that is not yet set so,
/// and no other.
pub proof fn law_toggle_reaches_every_nested_box(text: Seq<u8>, off: usize, checked: bool, x: usize)
    requires
        item_at(text, off) is Some,
    ensures
        ({
            let nodes = nodes_of(text)->0;
            let item = item_at(text, off)->0;
            boxes_changing(text, off, checked).contains(x) <==> exists|j: int|
                0 <= j < nodes.len() && #[trigger] flips(nodes, item, checked, j, x)
        }),
{
    let nodes = nodes_of(text)->0;
    let item = item_at(text, off)->0;
    let found = boxes_to_flip(nodes, item, checked, nodes.len() as int);
    lemma_flipped(nodes, item, checked, nodes.len() as int, x);
    lemma_descending(found);
    found.to_multiset_ensures();
    descending(found).to_multiset_ensures();
    assert(found.contains(x) <==> found.to_multiset().count(x) > 0);
    assert(descending(found).contains(x) <==> descending(found).to_multiset().count(x) > 0);
}

/// In a text without task boxes an edit has no boxes to bring in line.
pub proof fn law_no_boxes_to_settle(m: StateModel)
    requires
        without_boxes(m.text()),
    ensures
        settled(m) == m,
{
    reveal(settled);
    reveal(settled_around);
    let cursor = m.selection.head;
    lemma_no_task(m.text(), line_of(m.text(), cursor as int));
    lemma_no_parent_box(m.text(), cursor);
    if cursor > 0 {
        lemma_no_parent_box(m.text(), (cursor - 1) as usize);
    }
}

} // verus!
