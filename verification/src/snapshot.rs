//! A text as it was at one moment, to be drawn.

use vstd::prelude::*;
use vstd::utf8::*;

use crate::buffer::Buffer;
use crate::line_scan::{lemma_line_model, line_model};
use crate::lines::{
    lemma_line_finish_boundary, lemma_line_start_bound, lemma_line_start_boundary,
    lemma_line_start_monotone, line_start, line_text, line_total,
};
use crate::marker::{LineMarkers, Span};
use crate::text::{lemma_pieces_valid, string_from_utf8};

verus! {

/// A text as it was at one moment.
pub struct RenderSnapshot {
    buffer: Buffer,
}

impl View for RenderSnapshot {
    type V = Seq<u8>;

    closed spec fn view(&self) -> Seq<u8> {
        self.buffer@.text
    }
}

/// The lines of a text from `a` up to `b`, with their newlines.
pub open spec fn lines_between(text: Seq<u8>, a: int, b: int) -> Seq<u8> {
    text.subrange(line_start(text, a), line_start(text, b))
}

impl RenderSnapshot {
    pub closed spec fn wf(&self) -> bool {
        self.buffer.wf()
    }

    /// A snapshot of a given text.
    pub fn of_text(content: &str) -> (r: RenderSnapshot)
        ensures
            r.wf(),
            r@ == encode_utf8(content@),
    {
        RenderSnapshot { buffer: Buffer::from_text(content) }
    }

    /// The text.
    pub fn text(&self) -> (r: String)
        requires
            self.wf(),
        ensures
            encode_utf8(r@) == self@,
    {
        self.buffer.text()
    }

    /// How many lines there are.
    pub fn line_count(&self) -> (r: usize)
        requires
            self@.len() < usize::MAX,
        ensures
            r == line_total(self@),
    {
        self.buffer.line_count()
    }

    /// Whether there is a line of this number.
    pub fn has_line(&self, line: usize) -> (r: bool)
        ensures
            r == (line < line_total(self@)),
    {
        line <= self.buffer.last_line()
    }

    /// A line and its markers.
    pub fn line_markers(&self, line: usize) -> (r: LineMarkers)
        requires
            self.wf(),
        ensures
            r@ == line_model(self@, line as int),
            r@.ok(self@),
    {
        self.buffer.line_markers(line)
    }

    /// The text of a line, without its newline.
    pub fn line_text(&self, line: usize) -> (r: String)
        requires
            self.wf(),
        ensures
            encode_utf8(r@) == line_text(self@, line as int),
    {
        proof {
            self.buffer.lemma_wf();
            lemma_line_model(self@, line as int);
        }
        let range: Span = self.line_markers(line).range;
        proof {
            lemma_line_start_bound(self@, line as int);
            lemma_line_start_boundary(self@, line as int);
            lemma_line_finish_boundary(self@, range.start as int);
            lemma_pieces_valid(self@, range.start as int, range.end as int);
        }
        string_from_utf8(self.buffer.slice(range.start, range.end))
    }

    /// The lines from `a` up to `b`, with their newlines.
    pub fn lines(&self, a: usize, b: usize) -> (r: Vec<u8>)
        requires
            self.wf(),
            a <= b,
        ensures
            r@ == lines_between(self@, a as int, b as int),
            valid_utf8(r@),
    {
        proof {
            self.buffer.lemma_wf();
            lemma_line_start_monotone(self@, a as int, b as int);
            lemma_line_start_boundary(self@, a as int);
            lemma_line_start_boundary(self@, b as int);
            lemma_pieces_valid(self@, line_start(self@, a as int), line_start(self@, b as int));
        }
        self.buffer.slice(self.buffer.line_to_byte(a), self.buffer.line_to_byte(b))
    }
}

impl Buffer {
    /// The text as it is now.
    pub fn render_snapshot(&self) -> (r: RenderSnapshot)
        requires
            self.wf(),
        ensures
            r.wf(),
            r@ == self@.text,
    {
        let text: String = self.text();
        RenderSnapshot::of_text(text.as_str())
    }
}

/// The title of an issue as a text to be drawn.
pub fn render_snapshot_for_title(title: &str) -> (r: RenderSnapshot)
    ensures
        r.wf(),
        r@ == encode_utf8(title@),
{
    RenderSnapshot::of_text(title)
}

} // verus!
