//! The cursor and the selection, and where they move in a text.

use vstd::prelude::*;
use vstd::utf8::*;

use crate::buffer::Buffer;
use crate::grapheme::{grapheme_after, grapheme_before, next_grapheme, previous_grapheme};
use crate::line_scan::{lemma_line_model, line_model};
use crate::lines::{
    lemma_line_begin, lemma_line_finish, lemma_line_finish_boundary, lemma_line_start_bound,
    lemma_line_start_boundary, line_begin, line_finish, line_of, line_start, line_total,
};
use crate::marker::{span_ok, LineMarkers, MarkerModel};
use crate::text::{
    boundary, find_byte_from, floor_boundary, floor_to_boundary, lemma_after_ascii, lemma_floor,
    NEWLINE,
};

verus! {

/// A place in the text, as a byte offset.
#[derive(Clone, Copy, Debug, PartialEq, Eq, Structural)]
pub struct Cursor {
    pub offset: usize,
}

/// A selection from a fixed end to the end that moves.
#[derive(Clone, Copy, Debug, PartialEq, Eq, Structural)]
pub struct Selection {
    pub anchor: usize,
    pub head: usize,
}

/// The first marker from place `j` on that ends at `off`.
pub open spec fn marker_ending(markers: Seq<MarkerModel>, off: int, j: int) -> Option<int>
    decreases markers.len() - j,
{
    if j >= markers.len() {
        None
    } else if markers[j].range.end == off {
        Some(j)
    } else {
        marker_ending(markers, off, j + 1)
    }
}

/// The first marker from place `j` on that starts at `off`.
pub open spec fn marker_starting(markers: Seq<MarkerModel>, off: int, j: int) -> Option<int>
    decreases markers.len() - j,
{
    if j >= markers.len() {
        None
    } else if markers[j].range.start == off {
        Some(j)
    } else {
        marker_starting(markers, off, j + 1)
    }
}

pub proof fn lemma_marker_ending(markers: Seq<MarkerModel>, off: int, j: int)
    requires
        0 <= j,
    ensures
        marker_ending(markers, off, j) matches Some(i) ==> j <= i < markers.len()
            && markers[i].range.end == off,
    decreases markers.len() - j,
{
    if j < markers.len() && markers[j].range.end != off {
        lemma_marker_ending(markers, off, j + 1);
    }
}

pub proof fn lemma_marker_starting(markers: Seq<MarkerModel>, off: int, j: int)
    requires
        0 <= j,
    ensures
        marker_starting(markers, off, j) matches Some(i) ==> j <= i < markers.len()
            && markers[i].range.start == off,
    decreases markers.len() - j,
{
    if j < markers.len() && markers[j].range.start != off {
        lemma_marker_starting(markers, off, j + 1);
    }
}

/// The first marker of a line that ends at an offset.
pub fn find_marker_ending(line: &LineMarkers, off: usize) -> (r: Option<usize>)
    ensures
        match r {
            Some(i) => i < line.markers@.len() && marker_ending(line@.markers, off as int, 0)
                == Some(i as int),
            None => marker_ending(line@.markers, off as int, 0) is None,
        },
{
    let mut j: usize = 0;
    while j < line.markers.len()
        invariant
            j <= line.markers@.len(),
            marker_ending(line@.markers, off as int, j as int) == marker_ending(
                line@.markers,
                off as int,
                0,
            ),
        decreases line.markers@.len() - j,
    {
        assert(line@.markers[j as int] == line.markers@[j as int]@);
        if line.markers[j].range.end == off {
            return Some(j);
        }
        j = j + 1;
    }
    None
}

/// The first marker of a line that starts at an offset.
pub fn find_marker_starting(line: &LineMarkers, off: usize) -> (r: Option<usize>)
    ensures
        match r {
            Some(i) => i < line.markers@.len() && marker_starting(line@.markers, off as int, 0)
                == Some(i as int),
            None => marker_starting(line@.markers, off as int, 0) is None,
        },
{
    let mut j: usize = 0;
    while j < line.markers.len()
        invariant
            j <= line.markers@.len(),
            marker_starting(line@.markers, off as int, j as int) == marker_starting(
                line@.markers,
                off as int,
                0,
            ),
        decreases line.markers@.len() - j,
    {
        assert(line@.markers[j as int] == line.markers@[j as int]@);
        if line.markers[j].range.start == off {
            return Some(j);
        }
        j = j + 1;
    }
    None
}

/// One step to the left of `off`: over a whole marker, or over one grapheme
/// cluster.
#[verifier::opaque]
pub open spec fn left_of(text: Seq<u8>, off: int) -> int {
    let markers = line_model(text, line_of(text, off)).markers;
    if off <= 0 {
        off
    } else {
        match marker_ending(markers, off, 0) {
            Some(i) => markers[i].range.start as int,
            None => match grapheme_before(text, off) {
                Some(s) => s.start as int,
                None => off,
            },
        }
    }
}

/// One step to the right of `off`: over a whole marker, or over one grapheme
/// cluster.
#[verifier::opaque]
pub open spec fn right_of(text: Seq<u8>, off: int) -> int {
    let markers = line_model(text, line_of(text, off)).markers;
    match marker_starting(markers, off, 0) {
        Some(i) => markers[i].range.end as int,
        None => match grapheme_after(text, off) {
            Some(s) => s.end as int,
            None => off,
        },
    }
}

/// The offset in line `line` at byte column `col`, or the line's end when the
/// line is shorter.
pub open spec fn at_column(text: Seq<u8>, line: int, col: int) -> int {
    let start = line_start(text, line);
    let end = line_finish(text, start);
    floor_boundary(
        text,
        if start + col < end {
            start + col
        } else {
            end
        },
    )
}

/// One line up from `off`, in the same column; the start of the text from the
/// first line.
#[verifier::opaque]
pub open spec fn above(text: Seq<u8>, off: int) -> int {
    let line = line_of(text, off);
    if line == 0 {
        0
    } else {
        at_column(text, line - 1, off - line_begin(text, off))
    }
}

/// One line down from `off`, in the same column; the end of the text from the
/// last line.
#[verifier::opaque]
pub open spec fn below(text: Seq<u8>, off: int) -> int {
    let line = line_of(text, off);
    if line + 1 >= line_total(text) {
        text.len() as int
    } else {
        at_column(text, line + 1, off - line_begin(text, off))
    }
}

/// Every step stays within the text.
pub proof fn lemma_steps_stay(text: Seq<u8>, off: int)
    requires
        valid_utf8(text),
        text.len() <= usize::MAX,
        0 <= off <= text.len(),
        crate::tree::nodes_of(text) matches Some(nodes) ==> crate::tree::structure_ok(text, nodes),
    ensures
        0 <= line_begin(text, off) <= off <= line_finish(text, off) <= text.len(),
        boundary(text, line_begin(text, off)),
        boundary(text, line_finish(text, off)),
        0 <= above(text, off) <= text.len(),
        0 <= below(text, off) <= text.len(),
        boundary(text, above(text, off)),
        boundary(text, below(text, off)),
{
    reveal(above);
    reveal(below);
    lemma_line_begin(text, off);
    lemma_line_finish(text, off);
    lemma_line_finish_boundary(text, off);
    lemma_line_start_boundary(text, line_of(text, off));
    lemma_at_column(text, line_of(text, off) - 1, off - line_begin(text, off));
    lemma_at_column(text, line_of(text, off) + 1, off - line_begin(text, off));
}

proof fn lemma_at_column(text: Seq<u8>, line: int, col: int)
    requires
        0 <= col,
    ensures
        0 <= at_column(text, line, col) <= text.len(),
        boundary(text, at_column(text, line, col)),
{
    let start = line_start(text, line);
    lemma_line_start_bound(text, line);
    crate::text::lemma_find_byte(text, NEWLINE, start);
    let end = line_finish(text, start);
    lemma_floor(
        text,
        if start + col < end {
            start + col
        } else {
            end
        },
    );
}

impl Cursor {
    /// One step to the left.
    pub fn move_left(&self, buffer: &Buffer) -> (r: Cursor)
        requires
            buffer.wf(),
            self.offset <= buffer@.text.len(),
        ensures
            r.offset == left_of(buffer@.text, self.offset as int),
            r.offset <= self.offset,
            boundary(buffer@.text, self.offset as int) ==> boundary(buffer@.text, r.offset as int),
    {
        reveal(left_of);
        if self.offset == 0 {
            return *self;
        }
        proof {
            buffer.lemma_wf();
        }
        let line: LineMarkers = buffer.line_markers(buffer.byte_to_line(self.offset));
        match find_marker_ending(&line, self.offset) {
            Some(i) => {
                assert(line@.markers[i as int] == line.markers@[i as int]@);
                proof {
                    lemma_marker_ending(line@.markers, self.offset as int, 0);
                }
                assert(span_ok(buffer@.text, line@.markers[i as int].range));
                Cursor { offset: line.markers[i].range.start }
            },
            None => match previous_grapheme(buffer.bytes(), self.offset) {
                Some(s) => Cursor { offset: s.start },
                None => *self,
            },
        }
    }

    /// One step to the right.
    pub fn move_right(&self, buffer: &Buffer) -> (r: Cursor)
        requires
            buffer.wf(),
            self.offset <= buffer@.text.len(),
        ensures
            r.offset == right_of(buffer@.text, self.offset as int),
            self.offset <= r.offset <= buffer@.text.len(),
            boundary(buffer@.text, self.offset as int) ==> boundary(buffer@.text, r.offset as int),
    {
        reveal(right_of);
        proof {
            buffer.lemma_wf();
        }
        let line: LineMarkers = buffer.line_markers(buffer.byte_to_line(self.offset));
        match find_marker_starting(&line, self.offset) {
            Some(i) => {
                assert(line@.markers[i as int] == line.markers@[i as int]@);
                proof {
                    lemma_marker_starting(line@.markers, self.offset as int, 0);
                }
                assert(span_ok(buffer@.text, line@.markers[i as int].range));
                Cursor { offset: line.markers[i].range.end }
            },
            None => match next_grapheme(buffer.bytes(), self.offset) {
                Some(s) => Cursor { offset: s.end },
                None => *self,
            },
        }
    }

    /// One line up.
    pub fn move_up(&self, buffer: &Buffer) -> (r: Cursor)
        requires
            buffer.wf(),
            self.offset <= buffer@.text.len(),
        ensures
            r.offset == above(buffer@.text, self.offset as int),
            r.offset <= buffer@.text.len(),
            boundary(buffer@.text, r.offset as int),
    {
        reveal(above);
        proof {
            buffer.lemma_wf();
            lemma_steps_stay(buffer@.text, self.offset as int);
            lemma_line_begin(buffer@.text, self.offset as int);
        }
        let line: usize = buffer.byte_to_line(self.offset);
        if line == 0 {
            return Cursor { offset: 0 };
        }
        let col: usize = self.offset - buffer.line_to_byte(line);
        Cursor { offset: offset_at_column(buffer, line - 1, col) }
    }

    /// One line down.
    pub fn move_down(&self, buffer: &Buffer) -> (r: Cursor)
        requires
            buffer.wf(),
            self.offset <= buffer@.text.len(),
        ensures
            r.offset == below(buffer@.text, self.offset as int),
            r.offset <= buffer@.text.len(),
            boundary(buffer@.text, r.offset as int),
    {
        reveal(below);
        proof {
            buffer.lemma_wf();
            lemma_steps_stay(buffer@.text, self.offset as int);
            lemma_line_begin(buffer@.text, self.offset as int);
        }
        let line: usize = buffer.byte_to_line(self.offset);
        if line >= buffer.last_line() {
            return Cursor { offset: buffer.len_bytes() };
        }
        let col: usize = self.offset - buffer.line_to_byte(line);
        Cursor { offset: offset_at_column(buffer, line + 1, col) }
    }

    /// The start of the line.
    pub fn move_to_line_start(&self, buffer: &Buffer) -> (r: Cursor)
        requires
            buffer.wf(),
            self.offset <= buffer@.text.len(),
        ensures
            r.offset == line_begin(buffer@.text, self.offset as int),
            r.offset <= self.offset,
            boundary(buffer@.text, r.offset as int),
    {
        proof {
            buffer.lemma_wf();
            lemma_steps_stay(buffer@.text, self.offset as int);
            lemma_line_begin(buffer@.text, self.offset as int);
        }
        Cursor { offset: buffer.line_to_byte(buffer.byte_to_line(self.offset)) }
    }

    /// The end of the line.
    pub fn move_to_line_end(&self, buffer: &Buffer) -> (r: Cursor)
        requires
            buffer.wf(),
            self.offset <= buffer@.text.len(),
        ensures
            r.offset == line_finish(buffer@.text, self.offset as int),
            self.offset <= r.offset <= buffer@.text.len(),
            boundary(buffer@.text, r.offset as int),
    {
        proof {
            buffer.lemma_wf();
            lemma_steps_stay(buffer@.text, self.offset as int);
        }
        Cursor { offset: find_byte_from(buffer.bytes(), NEWLINE, self.offset) }
    }

    /// The start of the text.
    pub fn move_to_start(&self) -> (r: Cursor)
        ensures
            r.offset == 0,
    {
        Cursor { offset: 0 }
    }

    /// The end of the text.
    pub fn move_to_end(&self, buffer: &Buffer) -> (r: Cursor)
        ensures
            r.offset == buffer@.text.len(),
    {
        Cursor { offset: buffer.len_bytes() }
    }
}

/// The offset in a line at a byte column.
fn offset_at_column(buffer: &Buffer, line: usize, col: usize) -> (r: usize)
    ensures
        r == at_column(buffer@.text, line as int, col as int),
        r <= buffer@.text.len(),
{
    let start: usize = buffer.line_to_byte(line);
    let end: usize = find_byte_from(buffer.bytes(), NEWLINE, start);
    let want: usize = if col < end - start {
        start + col
    } else {
        end
    };
    floor_to_boundary(buffer.bytes(), want)
}

// ---------------------------------------------------------------------------
// Selections
// ---------------------------------------------------------------------------

/// Whether a byte is part of a word: a letter, a digit, an underscore, or part
/// of a character outside ASCII.
pub open spec fn word_byte(b: u8) -> bool {
    48 <= b <= 57 || 65 <= b <= 90 || 97 <= b <= 122 || b == 95 || b >= 128
}

/// Where the word that reaches up to `off` starts.
pub open spec fn word_begin(text: Seq<u8>, off: int) -> int
    decreases off,
{
    if off > 0 && word_byte(text[off - 1]) {
        word_begin(text, off - 1)
    } else {
        off
    }
}

/// An offset, or the end of the text when it lies past it.
pub open spec fn within_text(text: Seq<u8>, offset: usize) -> usize {
    if offset < text.len() {
        offset
    } else {
        text.len() as usize
    }
}

/// Where the word that goes on at `off` ends.
pub open spec fn word_finish(text: Seq<u8>, off: int) -> int
    decreases text.len() - off,
{
    if off < text.len() && word_byte(text[off]) {
        word_finish(text, off + 1)
    } else {
        off
    }
}

impl Selection {
    /// Whether both ends lie in the text, at character boundaries unless they
    /// are one place.
    pub open spec fn fits(self, text: Seq<u8>) -> bool {
        &&& self.head <= text.len()
        &&& self.anchor <= text.len()
        &&& self.anchor != self.head ==> boundary(text, self.anchor as int) && boundary(
            text,
            self.head as int,
        )
    }

    /// Whether both ends lie in the text at character boundaries.
    pub open spec fn steady(self, text: Seq<u8>) -> bool {
        boundary(text, self.anchor as int) && boundary(text, self.head as int)
    }

    /// The smaller end.
    pub open spec fn low(self) -> usize {
        if self.anchor < self.head {
            self.anchor
        } else {
            self.head
        }
    }

    /// The larger end.
    pub open spec fn high(self) -> usize {
        if self.anchor < self.head {
            self.head
        } else {
            self.anchor
        }
    }

    /// A selection from `anchor` to `head`.
    pub fn new(anchor: usize, head: usize) -> (r: Selection)
        ensures
            r == (Selection { anchor, head }),
    {
        Selection { anchor, head }
    }

    /// The end that moves.
    pub fn cursor(&self) -> (r: Cursor)
        ensures
            r == (Cursor { offset: self.head }),
    {
        Cursor { offset: self.head }
    }

    /// Whether nothing is selected.
    pub fn is_collapsed(&self) -> (r: bool)
        ensures
            r == (self.anchor == self.head),
    {
        self.anchor == self.head
    }

    /// The selected range, its start before its end.
    pub fn range(&self) -> (r: crate::marker::Span)
        ensures
            r.start == self.low(),
            r.end == self.high(),
            r.start <= r.end,
    {
        if self.anchor < self.head {
            crate::marker::Span { start: self.anchor, end: self.head }
        } else {
            crate::marker::Span { start: self.head, end: self.anchor }
        }
    }

    /// The selection with its moving end at `offset`.
    pub fn extend_to(&self, offset: usize) -> (r: Selection)
        ensures
            r == (Selection { anchor: self.anchor, head: offset }),
    {
        Selection { anchor: self.anchor, head: offset }
    }

    /// The word around an offset, or around the end when the offset lies past it.
    pub fn select_word_at(offset: usize, buffer: &Buffer) -> (r: Selection)
        requires
            buffer.wf(),
        ensures
            r.anchor == word_begin(buffer@.text, within_text(buffer@.text, offset) as int),
            r.head == word_finish(buffer@.text, within_text(buffer@.text, offset) as int),
            r.anchor <= within_text(buffer@.text, offset) <= r.head,
            boundary(buffer@.text, offset as int) ==> r.fits(buffer@.text) && r.steady(
                buffer@.text,
            ),
            r.head <= buffer@.text.len(),
    {
        proof {
            buffer.lemma_wf();
        }
        let text: &[u8] = buffer.bytes();
        let offset: usize = if offset < text.len() {
            offset
        } else {
            text.len()
        };
        let mut s: usize = offset;
        while s > 0 && is_word_byte(text[s - 1])
            invariant
                s <= offset <= text@.len(),
                word_begin(text@, s as int) == word_begin(text@, offset as int),
            decreases s,
        {
            s = s - 1;
        }
        let mut e: usize = offset;
        while e < text.len() && is_word_byte(text[e])
            invariant
                offset <= e <= text@.len(),
                word_finish(text@, e as int) == word_finish(text@, offset as int),
            decreases text@.len() - e,
        {
            e = e + 1;
        }
        proof {
            if s > 0 {
                lemma_after_ascii(text@, s as int);
            }
        }
        Selection { anchor: s, head: e }
    }

    /// The line around an offset, without its newline; the last line when the
    /// offset lies past the end.
    pub fn select_line_at(offset: usize, buffer: &Buffer) -> (r: Selection)
        requires
            buffer.wf(),
        ensures
            r.anchor == line_begin(buffer@.text, within_text(buffer@.text, offset) as int),
            r.head == line_finish(buffer@.text, within_text(buffer@.text, offset) as int),
            r.fits(buffer@.text),
            r.steady(buffer@.text),
    {
        let all: usize = buffer.len_bytes();
        let c = Cursor {
            offset: if offset < all {
                offset
            } else {
                all
            },
        };
        Selection {
            anchor: c.move_to_line_start(buffer).offset,
            head: c.move_to_line_end(buffer).offset,
        }
    }

    /// The whole text.
    pub fn select_all(buffer: &Buffer) -> (r: Selection)
        ensures
            r.anchor == 0,
            r.head == buffer@.text.len(),
            r.fits(buffer@.text),
            r.steady(buffer@.text),
    {
        Selection { anchor: 0, head: buffer.len_bytes() }
    }
}

fn is_word_byte(b: u8) -> (r: bool)
    ensures
        r == word_byte(b),
{
    (48 <= b && b <= 57) || (65 <= b && b <= 90) || (97 <= b && b <= 122) || b == 95 || b >= 128
}

/// A step to the left over a marker and a step to the right lead back.
pub proof fn law_step_over_marker_leads_back(text: Seq<u8>, off: int)
    requires
        valid_utf8(text),
        text.len() <= usize::MAX,
        crate::tree::nodes_of(text) matches Some(nodes) ==> crate::tree::structure_ok(text, nodes),
        0 < off <= text.len(),
        ({
            let markers = line_model(text, line_of(text, off)).markers;
            marker_ending(markers, off, 0) matches Some(i) && marker_starting(
                markers,
                markers[i].range.start as int,
                0,
            ) == Some(i)
        }),
    ensures
        left_of(text, off) <= off,
        right_of(text, left_of(text, off)) == off,
{
    reveal(left_of);
    reveal(right_of);
    let line = line_of(text, off);
    let lm = line_model(text, line);
    let i = marker_ending(lm.markers, off, 0)->0;
    lemma_marker_ending(lm.markers, off, 0);
    lemma_line_model(text, line);
    assert(span_ok(text, lm.markers[i].range));
    let s = lm.markers[i].range.start as int;
    lemma_line_begin(text, off);
    crate::lines::lemma_line_of_same(text, s, off);
}

} // verus!
