//! Grapheme clusters: what a reader takes for one character.

use unicode_segmentation::UnicodeSegmentation;
use vstd::prelude::*;
use vstd::utf8::*;

use crate::marker::{span_ok, Span};
use crate::text::{boundary, is_boundary, lemma_pieces_valid, slice_bytes, string_from_utf8};

verus! {

/// The start and the length in bytes of the last grapheme cluster of `s`.
pub uninterp spec fn final_grapheme(s: Seq<char>) -> Option<(usize, usize)>;

/// The start and the length in bytes of the first grapheme cluster of `s`.
pub uninterp spec fn leading_grapheme(s: Seq<char>) -> Option<(usize, usize)>;

/// The last grapheme cluster of a string, as its start and its length.
///
/// Calls `UnicodeSegmentation::grapheme_indices` for extended clusters and
/// takes the last one from the back. Claimed: it depends on the string alone,
/// it is there unless the string is empty, it is not empty, it ends where the
/// string ends, and it starts at a character boundary.
#[verifier::external_body]
fn last_grapheme(s: &str) -> (r: Option<(usize, usize)>)
    ensures
        r == final_grapheme(s@),
        r is Some <==> s@.len() > 0,
        r matches Some(g) ==> g.1 > 0 && g.0 + g.1 == encode_utf8(s@).len() && boundary(
            encode_utf8(s@),
            g.0 as int,
        ),
{
    match s.grapheme_indices(true).next_back() {
        Some((start, grapheme)) => Some((start, grapheme.len())),
        None => None,
    }
}

/// The first grapheme cluster of a string, as its start and its length.
///
/// Calls `UnicodeSegmentation::grapheme_indices` for extended clusters and
/// takes the first one. Claimed: it depends on the string alone, it is there
/// unless the string is empty, it is not empty, it starts where the string
/// starts, and it ends at a character boundary.
#[verifier::external_body]
fn first_grapheme(s: &str) -> (r: Option<(usize, usize)>)
    ensures
        r == leading_grapheme(s@),
        r is Some <==> s@.len() > 0,
        r matches Some(g) ==> g.0 == 0 && 0 < g.1 <= encode_utf8(s@).len() && boundary(
            encode_utf8(s@),
            g.1 as int,
        ),
{
    match s.grapheme_indices(true).next() {
        Some((start, grapheme)) => Some((start, grapheme.len())),
        None => None,
    }
}

/// The range of the grapheme cluster that ends at `pos`; `None` at the start
/// of the text, past its end and inside a character.
pub open spec fn grapheme_before(text: Seq<u8>, pos: int) -> Option<Span> {
    if pos <= 0 || pos > text.len() || !boundary(text, pos) {
        None
    } else {
        match final_grapheme(decode_utf8(text.subrange(0, pos))) {
            Some(g) => Some(Span { start: g.0, end: (g.0 + g.1) as usize }),
            None => None,
        }
    }
}

/// The range of the grapheme cluster that starts at `pos`; `None` at the end of
/// the text, past it and inside a character.
pub open spec fn grapheme_after(text: Seq<u8>, pos: int) -> Option<Span> {
    if pos < 0 || pos >= text.len() || !boundary(text, pos) {
        None
    } else {
        match leading_grapheme(decode_utf8(text.subrange(pos, text.len() as int))) {
            Some(g) => Some(Span { start: (pos + g.0) as usize, end: (pos + g.0 + g.1) as usize }),
            None => None,
        }
    }
}

/// The range of the grapheme cluster that ends at `pos`.
pub fn previous_grapheme(text: &[u8], pos: usize) -> (r: Option<Span>)
    requires
        valid_utf8(text@),
    ensures
        r == grapheme_before(text@, pos as int),
        r is Some <==> 0 < pos <= text@.len() && boundary(text@, pos as int),
        r matches Some(s) ==> s.start < s.end && s.end == pos && span_ok(text@, s),
{
    if pos == 0 || pos > text.len() || !is_boundary(text, pos) {
        return None;
    }
    proof {
        lemma_pieces_valid(text@, 0, pos as int);
    }
    let before: String = string_from_utf8(slice_bytes(text, 0, pos));
    let ghost piece = text@.subrange(0, pos as int);
    proof {
        encode_utf8_decode_utf8(before@);
        assert(piece.len() > 0);
        assert(before@.len() > 0) by {
            if before@.len() == 0 {
                assert(encode_utf8(before@).len() == 0);
            }
        }
    }
    match last_grapheme(before.as_str()) {
        Some(g) => {
            let s = Span { start: g.0, end: g.0 + g.1 };
            assert(boundary(text@, g.0 as int)) by {
                if 0 < g.0 {
                    assert(piece[g.0 as int] == text@[g.0 as int]);
                }
            }
            Some(s)
        },
        None => None,
    }
}

/// The range of the grapheme cluster that starts at `pos`.
pub fn next_grapheme(text: &[u8], pos: usize) -> (r: Option<Span>)
    requires
        valid_utf8(text@),
    ensures
        r == grapheme_after(text@, pos as int),
        r is Some <==> pos < text@.len() && boundary(text@, pos as int),
        r matches Some(s) ==> s.start < s.end && s.start == pos && span_ok(text@, s),
{
    if pos >= text.len() || !is_boundary(text, pos) {
        return None;
    }
    proof {
        lemma_pieces_valid(text@, pos as int, text@.len() as int);
    }
    let after: String = string_from_utf8(slice_bytes(text, pos, text.len()));
    let ghost piece = text@.subrange(pos as int, text@.len() as int);
    proof {
        encode_utf8_decode_utf8(after@);
        assert(piece.len() > 0);
        assert(after@.len() > 0) by {
            if after@.len() == 0 {
                assert(encode_utf8(after@).len() == 0);
            }
        }
    }
    match first_grapheme(after.as_str()) {
        Some(g) => {
            let s = Span { start: pos + g.0, end: pos + g.0 + g.1 };
            assert(boundary(text@, s.end as int)) by {
                if s.end < text@.len() {
                    assert(piece[g.1 as int] == text@[s.end as int]);
                }
            }
            Some(s)
        },
        None => None,
    }
}

} // verus!
