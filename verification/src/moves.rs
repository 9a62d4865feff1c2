//! Where the cursor goes, and what a word is.

use vstd::prelude::*;
use vstd::utf8::*;

use crate::cursor::{
    above, at_column, below, left_of, marker_ending, marker_starting, right_of, word_begin,
    word_finish,
};
use crate::grapheme::{grapheme_after, grapheme_before};
use crate::line_scan::line_model;
use crate::lines::{
    lemma_line_there, lemma_on_line, lemma_place_on_line, line_begin, line_of, line_start,
    line_text, line_total,
};
use crate::marker::MarkerModel;
use crate::text::{boundary, lemma_floor};

verus! {

/// How far into its line an offset is.
pub open spec fn column_of(text: Seq<u8>, off: int) -> int {
    off - line_start(text, line_of(text, off))
}

proof fn lemma_at_column(text: Seq<u8>, line: int, col: int)
    requires
        valid_utf8(text),
        0 <= line < line_total(text),
        0 <= col,
    ensures
        ({
            let r = at_column(text, line, col);
            let all = line_text(text, line).len() as int;
            let want = if col < all {
                col
            } else {
                all
            };
            &&& 0 <= r <= text.len()
            &&& line_of(text, r) == line
            &&& boundary(text, r)
            &&& 0 <= column_of(text, r) <= want
            &&& boundary(text, line_start(text, line) + want) ==> column_of(text, r) == want
            &&& forall|b: int|
                column_of(text, r) < b <= want ==> !(#[trigger] boundary(
                    text,
                    line_start(text, line) + b,
                ))
        }),
{
    lemma_line_there(text, line);
    let start = line_start(text, line);
    let all = line_text(text, line).len() as int;
    let want = if col < all {
        col
    } else {
        all
    };
    let r = at_column(text, line, col);
    lemma_floor(text, start + want);
    crate::lines::lemma_line_start_boundary(text, line);
    lemma_floor_last(text, start + want, start);
    lemma_on_line(text, line, r);
}

/// Rounding down to a boundary goes to the last one.
proof fn lemma_floor_last(s: Seq<u8>, i: int, b: int)
    requires
        0 <= b <= i <= s.len(),
        boundary(s, b),
    ensures
        b <= crate::text::floor_boundary(s, i),
        forall|j: int| crate::text::floor_boundary(s, i) < j <= i ==> !(#[trigger] boundary(s, j)),
    decreases i,
{
    if 0 < i < s.len() && !boundary(s, i) {
        lemma_floor_last(s, i - 1, b);
    }
}

/// One line up is the line before, as far into it as the cursor was, at the last
/// character boundary up to there, or at its end if it is shorter. From the first
/// line it is the start of the text.
pub proof fn law_up_goes_to_the_line_before(text: Seq<u8>, off: int)
    requires
        valid_utf8(text),
        0 <= off <= text.len(),
    ensures
        line_of(text, off) == 0 ==> above(text, off) == 0,
        line_of(text, off) > 0 ==> ({
            let r = above(text, off);
            let l = line_of(text, off) - 1;
            let all = line_text(text, l).len() as int;
            let want = if column_of(text, off) < all {
                column_of(text, off)
            } else {
                all
            };
            &&& line_of(text, r) == l
            &&& 0 <= column_of(text, r) <= want
            &&& boundary(text, r)
            &&& boundary(text, line_start(text, l) + want) ==> column_of(text, r) == want
            &&& forall|b: int|
                column_of(text, r) < b <= want ==> !(#[trigger] boundary(
                    text,
                    line_start(text, l) + b,
                ))
        }),
{
    reveal(above);
    lemma_place_on_line(text, off);
    if line_of(text, off) > 0 {
        lemma_at_column(text, line_of(text, off) - 1, column_of(text, off));
    }
}

/// One line down is the line after, as far into it as the cursor was, at the last
/// character boundary up to there, or at its end if it is shorter. From the last
/// line it is the end of the text.
pub proof fn law_down_goes_to_the_line_after(text: Seq<u8>, off: int)
    requires
        valid_utf8(text),
        0 <= off <= text.len(),
    ensures
        line_of(text, off) + 1 == line_total(text) ==> below(text, off) == text.len(),
        line_of(text, off) + 1 < line_total(text) ==> ({
            let r = below(text, off);
            let l = line_of(text, off) + 1;
            let all = line_text(text, l).len() as int;
            let want = if column_of(text, off) < all {
                column_of(text, off)
            } else {
                all
            };
            &&& line_of(text, r) == l
            &&& 0 <= column_of(text, r) <= want
            &&& boundary(text, r)
            &&& boundary(text, line_start(text, l) + want) ==> column_of(text, r) == want
            &&& forall|b: int|
                column_of(text, r) < b <= want ==> !(#[trigger] boundary(
                    text,
                    line_start(text, l) + b,
                ))
        }),
{
    reveal(below);
    lemma_place_on_line(text, off);
    if line_of(text, off) + 1 < line_total(text) {
        lemma_at_column(text, line_of(text, off) + 1, column_of(text, off));
    }
}

/// Up and down take each other back where the lines are long enough.
pub proof fn law_up_and_down_are_inverse(text: Seq<u8>, off: int)
    requires
        valid_utf8(text),
        0 <= off <= text.len(),
        boundary(text, off),
        line_of(text, off) > 0,
        ({
            let l = line_of(text, off) - 1;
            column_of(text, off) <= line_text(text, l).len() && boundary(
                text,
                line_start(text, l) + column_of(text, off),
            )
        }),
    ensures
        below(text, above(text, off)) == off,
{
    let r = above(text, off);
    let l = line_of(text, off);
    law_up_goes_to_the_line_before(text, off);
    lemma_place_on_line(text, off);
    lemma_line_there(text, l - 1);
    lemma_line_there(text, l);
    assert(r == line_start(text, l - 1) + column_of(text, off));
    law_down_goes_to_the_line_after(text, r);
}

pub proof fn lemma_marker_ending(ms: Seq<MarkerModel>, off: int, j: int)
    requires
        0 <= j,
    ensures
        match marker_ending(ms, off, j) {
            Some(i) => j <= i < ms.len() && ms[i].range.end == off && forall|k: int|
                j <= k < i ==> (#[trigger] ms[k]).range.end != off,
            None => forall|k: int| j <= k < ms.len() ==> (#[trigger] ms[k]).range.end != off,
        },
    decreases ms.len() - j,
{
    if j < ms.len() && ms[j].range.end != off {
        lemma_marker_ending(ms, off, j + 1);
    }
}

proof fn lemma_marker_starting(ms: Seq<MarkerModel>, off: int, j: int)
    requires
        0 <= j,
    ensures
        match marker_starting(ms, off, j) {
            Some(i) => j <= i < ms.len() && ms[i].range.start == off && forall|k: int|
                j <= k < i ==> (#[trigger] ms[k]).range.start != off,
            None => forall|k: int| j <= k < ms.len() ==> (#[trigger] ms[k]).range.start != off,
        },
    decreases ms.len() - j,
{
    if j < ms.len() && ms[j].range.start != off {
        lemma_marker_starting(ms, off, j + 1);
    }
}

/// One step to the left goes over the whole marker that ends at the cursor, if one
/// does, and else over the grapheme cluster before it; at the start it stays.
pub proof fn law_left_goes_over_one_unit(text: Seq<u8>, off: int)
    ensures
        ({
            let ms = line_model(text, line_of(text, off)).markers;
            &&& off == 0 ==> left_of(text, off) == 0
            &&& off > 0 && (forall|k: int|
                0 <= k < ms.len() ==> (#[trigger] ms[k]).range.end != off) ==> left_of(text, off)
                == (match grapheme_before(text, off) {
                Some(s) => s.start as int,
                None => off,
            })
            &&& off > 0 && (exists|k: int|
                0 <= k < ms.len() && (#[trigger] ms[k]).range.end == off) ==> exists|k: int|
                0 <= k < ms.len() && (#[trigger] ms[k]).range.end == off && left_of(text, off)
                    == ms[k].range.start
        }),
{
    reveal(left_of);
    lemma_marker_ending(line_model(text, line_of(text, off)).markers, off, 0);
}

/// One step to the right goes over the whole marker that starts at the cursor, if one
/// does, and else over the grapheme cluster after it.
pub proof fn law_right_goes_over_one_unit(text: Seq<u8>, off: int)
    ensures
        ({
            let ms = line_model(text, line_of(text, off)).markers;
            &&& (forall|k: int| 0 <= k < ms.len() ==> (#[trigger] ms[k]).range.start != off)
                ==> right_of(text, off) == (match grapheme_after(text, off) {
                Some(s) => s.end as int,
                None => off,
            })
            &&& (exists|k: int| 0 <= k < ms.len() && (#[trigger] ms[k]).range.start == off)
                ==> exists|k: int|
                0 <= k < ms.len() && (#[trigger] ms[k]).range.start == off && right_of(text, off)
                    == ms[k].range.end
        }),
{
    reveal(right_of);
    lemma_marker_starting(line_model(text, line_of(text, off)).markers, off, 0);
}

/// Whether a byte belongs to a word: a letter, a digit, an underscore, or a byte of a
/// character outside ASCII.
pub open spec fn in_word(b: u8) -> bool {
    ||| b >= 128
    ||| b == 95
    ||| 48 <= b && b < 58
    ||| 65 <= b && b < 91
    ||| 97 <= b && b < 123
}

/// The word around an offset is made of word bytes and goes as far as they do on
/// either side.
pub proof fn law_word_goes_as_far_as_it_can(text: Seq<u8>, off: int)
    requires
        0 <= off <= text.len(),
    ensures
        0 <= word_begin(text, off) <= off <= word_finish(text, off) <= text.len(),
        forall|i: int|
            word_begin(text, off) <= i < word_finish(text, off) ==> in_word(#[trigger] text[i]),
        word_begin(text, off) > 0 ==> !in_word(text[word_begin(text, off) - 1]),
        word_finish(text, off) < text.len() ==> !in_word(text[word_finish(text, off)]),
{
    lemma_word_begin(text, off);
    lemma_word_finish(text, off);
}

proof fn lemma_word_begin(text: Seq<u8>, off: int)
    requires
        0 <= off <= text.len(),
    ensures
        0 <= word_begin(text, off) <= off,
        forall|i: int| word_begin(text, off) <= i < off ==> in_word(#[trigger] text[i]),
        word_begin(text, off) > 0 ==> !in_word(text[word_begin(text, off) - 1]),
    decreases off,
{
    if off > 0 && crate::cursor::word_byte(text[off - 1]) {
        lemma_word_begin(text, off - 1);
    }
}

proof fn lemma_word_finish(text: Seq<u8>, off: int)
    requires
        0 <= off <= text.len(),
    ensures
        off <= word_finish(text, off) <= text.len(),
        forall|i: int| off <= i < word_finish(text, off) ==> in_word(#[trigger] text[i]),
        word_finish(text, off) < text.len() ==> !in_word(text[word_finish(text, off)]),
    decreases text.len() - off,
{
    if off < text.len() && crate::cursor::word_byte(text[off]) {
        lemma_word_finish(text, off + 1);
    }
}

/// The ends of a line are next to newlines or the ends of the text, with no newline
/// in between.
pub proof fn law_line_ends_at_newlines(text: Seq<u8>, off: int)
    requires
        0 <= off <= text.len(),
    ensures
        ({
            let (b, e) = (line_begin(text, off), crate::lines::line_finish(text, off));
            &&& 0 <= b <= off <= e <= text.len()
            &&& b == 0 || text[b - 1] == 10
            &&& e == text.len() || text[e] == 10
            &&& forall|i: int| b <= i < e ==> #[trigger] text[i] != 10
        }),
{
    crate::lines::lemma_line_begin(text, off);
    crate::lines::lemma_line_finish(text, off);
    crate::text::lemma_find_byte(text, 10, off);
}

} // verus!
