//! Editing: typing, new lines, deleting, and what typing completes by itself.

use vstd::prelude::*;
use vstd::utf8::*;

use crate::buffer::{lemma_boundary_after, lemma_spliced_back, spliced};
use crate::checkbox::settled;
use crate::cursor::{find_marker_ending, lemma_steps_stay, marker_ending, Selection};
use crate::grapheme::{grapheme_after, grapheme_before, next_grapheme, previous_grapheme};
use crate::line_scan::{child_of_kind, find_child, lemma_line_model, line_model, QUOTE};
use crate::lines::{lemma_line_begin, line_begin, line_finish, line_of};
use crate::marker::{continuation, paragraph_indent, span_ok, LineMarkers, LineModel, Span};
use crate::outline::{ancestor, find_ancestor, in_code};
use crate::space::{
    skip_blanks, skip_spaces_and_tabs, trim_end, trim_from, trim_start, trim_to, trimmed,
};
use crate::state::{EditorState, StateModel};
use crate::text::{
    boundary, bytes_eq, find_byte, find_byte_from, floor_boundary, lemma_ascii_valid, lemma_floor,
    lemma_floor_monotone, lemma_pieces_valid, lemma_str_valid, slice_bytes, spaces, spaces_of,
    string_from_utf8, NEWLINE, SPACE,
};
use crate::tree::{node_fits, node_spanning, nodes_of, structure_ok, NodeKind, SyntaxNode};

verus! {

pub const BACKTICK: u8 = 96;

pub const TILDE: u8 = 126;

/// The line at the cursor, as editing looks at it.
pub struct LineContext {
    /// Where the cursor stands.
    pub cursor_offset: usize,
    /// The number of the line.
    pub line_idx: usize,
    /// The line and its markers.
    pub line: LineMarkers,
    /// Whether only white space follows the markers.
    pub is_empty: bool,
    /// Whether the line stands in a quote or a list.
    pub has_container: bool,
    /// The line before, if there is one.
    pub prev_line: Option<LineMarkers>,
}

/// Whether something other than white space follows the markers of a line. The
/// line of a code fence counts as having content.
pub open spec fn has_content(text: Seq<u8>, lm: LineModel) -> bool {
    lm.fence() || trim_from(text, lm.content() as int, lm.range.end as int) < trim_to(
        text,
        lm.content() as int,
        lm.range.end as int,
    )
}

/// Whether every byte from `a` to `z` is a quote marker's.
pub open spec fn all_quotes(text: Seq<u8>, a: int, z: int) -> bool {
    forall|i: int| a <= i < z ==> text[i] == QUOTE
}

/// Whether `pos` is the end of the opening fence of code block `b`.
pub open spec fn behind_opening_fence(nodes: Seq<SyntaxNode>, b: int, pos: usize) -> bool {
    child_of_kind(nodes, b, NodeKind::FencedCodeBlockDelimiter, 0) matches Some(d) && nodes[d].end
        == pos
}

/// The range of the code block that node `i` stands in, without the newline after
/// it, when `pos` is the end of its opening fence and it holds nothing but white
/// space.
pub open spec fn empty_block_around(
    text: Seq<u8>,
    nodes: Seq<SyntaxNode>,
    i: int,
    pos: usize,
) -> Option<Span> {
    match ancestor(nodes, i, NodeKind::FencedCodeBlock) {
        Some(b) => {
            let (start, end) = (nodes[b].start as int, nodes[b].end as int);
            let newline = find_byte(text, NEWLINE, start);
            if behind_opening_fence(nodes, b, pos) && newline < end && (trimmed(text, newline + 1, end) == fence(BACKTICK) || trimmed(
                text,
                newline + 1,
                end,
            ) == fence(TILDE)) {
                Some(
                    Span {
                        start: nodes[b].start,
                        end: if text[end - 1] == NEWLINE {
                            (end - 1) as usize
                        } else {
                            end as usize
                        },
                    },
                )
            } else {
                None
            }
        },
        None => None,
    }
}

/// The range of the code block whose opening fence ends at `pos`, without the
/// newline after it, when it holds nothing but white space.
pub open spec fn empty_block(text: Seq<u8>, pos: usize) -> Option<Span> {
    let from = if pos > 0 {
        (pos - 1) as usize
    } else {
        0
    };
    match (nodes_of(text), node_spanning(text, from, pos)) {
        (Some(nodes), Some(i)) => empty_block_around(text, nodes, i as int, pos),
        _ => None,
    }
}

/// A code fence of three of one character.
pub open spec fn fence(b: u8) -> Seq<u8> {
    seq![b, b, b]
}

impl StateModel {
    /// The cursor.
    pub open spec fn cursor(self) -> usize {
        self.selection.head
    }

    /// The cursor's line.
    pub open spec fn line(self) -> LineModel {
        line_model(self.text(), line_of(self.text(), self.cursor() as int))
    }

    /// The state after the selected text was taken out.
    #[verifier::opaque]
    pub open spec fn unselected(self) -> StateModel {
        let sel = self.selection;
        self.holding(
            self.buffer.delete(sel.low() as int, sel.high() as int, sel.head),
        ).at(sel.low())
    }

    /// The state after `t` was typed in place of the selection.
    #[verifier::opaque]
    pub open spec fn inserted(self, t: Seq<u8>) -> StateModel {
        let sel = self.selection;
        let (b, pos) = if sel.anchor == sel.head {
            (self.buffer, sel.head)
        } else {
            (self.unselected().buffer, sel.low())
        };
        settled(
            self.uncached().holding(b.insert(pos as int, t, pos)).at((pos + t.len()) as usize),
        )
    }

    /// The state after `t` was typed, if there is anything to type.
    pub open spec fn inserted_if_any(self, t: Seq<u8>) -> StateModel {
        if t.len() > 0 {
            self.inserted(t)
        } else {
            self
        }
    }

    /// Whether a `>` before the cursor has become a quote marker that lacks its
    /// space.
    #[verifier::opaque]
    pub open spec fn quote_lacks_space(self) -> bool {
        let c = self.cursor() as int;
        &&& 0 < c <= self.text().len()
        &&& self.text()[c - 1] == QUOTE
        &&& !(c < self.text().len() && self.text()[c] == SPACE)
        &&& self.line().quote_at(c - 1)
    }

    /// The fence character that was typed three times up to the cursor, with
    /// nothing before it on the line, white space around a run of `>` aside.
    #[verifier::opaque]
    pub open spec fn fence_typed(self) -> Option<u8> {
        let c = self.cursor() as int;
        let text = self.text();
        if !(3 <= c <= text.len()) {
            None
        } else {
            let b = text[c - 1];
            let start = line_begin(text, c);
            if (b == BACKTICK || b == TILDE) && text[c - 2] == b && text[c - 3] == b && all_quotes(
                text,
                trim_from(text, start, c - 3),
                trim_to(text, start, c - 3),
            ) {
                Some(b)
            } else {
                None
            }
        }
    }

    /// The state after the closing fence was put in below an opening one.
    #[verifier::opaque]
    pub open spec fn fence_closed(self) -> StateModel {
        match self.fence_typed() {
            Some(b) => self.holding(
                self.buffer.insert(
                    self.cursor() as int,
                    seq![NEWLINE] + fence(b),
                    self.cursor(),
                ),
            ),
            None => self,
        }
    }

    /// Whether the cursor stands where the text of a quoted line starts.
    pub open spec fn at_quote_start(self) -> bool {
        self.line().quote_only() && self.cursor() == self.line().content()
    }

    /// Whether a space can be typed: in code always, else neither at the start
    /// of a line nor where the text of a quoted line starts.
    #[verifier::opaque]
    pub open spec fn takes_space(self) -> bool {
        in_code(self.text(), self.cursor()) || !(self.cursor() == line_begin(
            self.text(),
            self.cursor() as int,
        ) || self.at_quote_start())
    }

    /// The spaces and tabs that the cursor's line starts with.
    pub open spec fn leading_blanks(self) -> Seq<u8> {
        let c = self.cursor() as int;
        let start = line_begin(self.text(), c);
        self.text().subrange(start, skip_blanks(self.text(), start, line_finish(self.text(), c)))
    }

    /// What the next line starts with when the containers of this one go on: in
    /// code the indentation of this line, else its markers continued.
    #[verifier::opaque]
    pub open spec fn next_line_start(self) -> Seq<u8> {
        if in_code(self.text(), self.cursor()) {
            self.leading_blanks()
        } else {
            let markers = self.line().markers;
            continuation(self.text(), markers, markers.len() as int)
        }
    }

    /// What a paragraph nested under this line starts with: two spaces under a
    /// quote outside lists, else the indentation under the line's markers.
    #[verifier::opaque]
    pub open spec fn nested_line_start(self) -> Seq<u8> {
        let lm = self.line();
        if lm.quote() && !lm.list() {
            spaces_of(2)
        } else {
            paragraph_indent(self.text(), lm.markers, lm.markers.len() as int)
        }
    }

    /// The state after a new line was opened that starts with `t`.
    #[verifier::opaque]
    pub open spec fn new_line(self, t: Seq<u8>) -> StateModel {
        self.inserted(seq![NEWLINE]).inserted_if_any(t)
    }

    /// The state after the text of a range was taken out, with the cursor put
    /// where it was.
    #[verifier::opaque]
    pub open spec fn cut(self, s: Span) -> StateModel {
        settled(
            self.uncached().holding(
                self.buffer.delete(s.start as int, s.end as int, self.cursor()),
            ).at(s.start),
        )
    }

    /// What is deleted before the cursor: a whole marker, with the code block
    /// that it opens if that is empty, or a grapheme cluster.
    #[verifier::opaque]
    pub open spec fn before_cursor(self) -> Option<Span> {
        match marker_ending(self.line().markers, self.cursor() as int, 0) {
            Some(i) => match empty_block(self.text(), self.cursor()) {
                Some(s) => Some(s),
                None => Some(self.line().markers[i].range),
            },
            None => grapheme_before(self.text(), self.cursor() as int),
        }
    }

    /// The state after a backspace.
    #[verifier::opaque]
    pub open spec fn backspaced(self) -> StateModel {
        if self.selection.anchor != self.selection.head {
            settled(self.uncached().unselected())
        } else if self.cursor() == 0 {
            self.uncached()
        } else {
            match self.before_cursor() {
                Some(s) => self.cut(s),
                None => self.uncached(),
            }
        }
    }

    /// The selected text.
    pub open spec fn selected(self) -> Seq<u8> {
        self.text().subrange(self.selection.low() as int, self.selection.high() as int)
    }

    /// The state after the last change was taken back, with the cursor where it
    /// stood before.
    #[verifier::opaque]
    pub open spec fn undone(self) -> StateModel {
        if self.buffer.undo.len() == 0 {
            self
        } else {
            let b = self.buffer.undone();
            self.holding(b).at(
                floor_boundary(b.text, self.buffer.undo.last().cursor as int) as usize,
            )
        }
    }

    /// The state after the last change that was taken back is made again, with
    /// the cursor after it.
    #[verifier::opaque]
    pub open spec fn redone(self) -> StateModel {
        if self.buffer.redo.len() == 0 {
            self
        } else {
            let e = self.buffer.redo.last();
            self.holding(self.buffer.redone()).at((e.at + e.added.len()) as usize)
        }
    }

    /// The state after the text of a range was taken out, if there is one, with the
    /// cursor left where it is.
    #[verifier::opaque]
    pub open spec fn cut_ahead(self, range: Option<Span>) -> StateModel {
        match range {
            Some(s) => settled(
                self.uncached().holding(
                    self.buffer.delete(s.start as int, s.end as int, self.cursor()),
                ),
            ),
            None => settled(self.uncached()),
        }
    }

    /// The state after a deletion forward.
    #[verifier::opaque]
    pub open spec fn deleted_forward(self) -> StateModel {
        if self.selection.anchor != self.selection.head {
            settled(self.uncached().unselected())
        } else {
            self.cut_ahead(grapheme_after(self.text(), self.cursor() as int))
        }
    }
}

/// Taking a range out leaves its start in the text, at a boundary.
proof fn lemma_cut(text: Seq<u8>, start: int, end: int)
    requires
        valid_utf8(text),
        0 <= start <= end <= text.len(),
        boundary(text, start),
    ensures
        floor_boundary(text, start) == start,
        start <= floor_boundary(text, end) <= end,
        boundary(spliced(text, start, floor_boundary(text, end), Seq::<u8>::empty()), start),
{
    lemma_floor(text, start);
    lemma_floor(text, end);
    lemma_floor_monotone(text, start, end);
    lemma_ascii_valid(Seq::<u8>::empty());
    lemma_boundary_after(
        text,
        start,
        floor_boundary(text, end),
        Seq::<u8>::empty(),
        start,
    );
}

fn one_byte(b: u8) -> (r: Vec<u8>)
    requires
        b < 128,
    ensures
        r@ == seq![b],
        valid_utf8(r@),
{
    let mut v: Vec<u8> = Vec::new();
    v.push(b);
    proof {
        assert(v@ =~= seq![b]);
        lemma_ascii_valid(v@);
    }
    v
}

fn fence_bytes(b: u8) -> (r: Vec<u8>)
    ensures
        r@ == fence(b),
{
    let mut v: Vec<u8> = Vec::new();
    v.push(b);
    v.push(b);
    v.push(b);
    assert(v@ =~= fence(b));
    v
}

/// Whether every byte from `a` to `z` is a quote marker's.
fn are_quotes(text: &[u8], a: usize, z: usize) -> (r: bool)
    requires
        a <= z <= text@.len(),
    ensures
        r == all_quotes(text@, a as int, z as int),
{
    let mut i: usize = a;
    while i < z
        invariant
            a <= i <= z <= text@.len(),
            forall|j: int| a <= j < i ==> text@[j] == QUOTE,
        decreases z - i,
    {
        if text[i] != QUOTE {
            return false;
        }
        i = i + 1;
    }
    true
}

/// The range of the code block that node `i` stands in when `pos` is the end of its
/// opening fence and it holds nothing but white space.
pub fn find_empty_block_around(
    text: &[u8],
    nodes: &Vec<SyntaxNode>,
    i: usize,
    pos: usize,
) -> (r: Option<Span>)
    requires
        valid_utf8(text@),
        structure_ok(text@, nodes@),
        i < nodes@.len(),
    ensures
        r == empty_block_around(text@, nodes@, i as int, pos),
        r matches Some(s) ==> s.start <= s.end <= text@.len() && boundary(
            text@,
            s.start as int,
        ),
{
    let block: SyntaxNode = match find_ancestor(nodes, i, NodeKind::FencedCodeBlock) {
        Some(b) => {
            assert(node_fits(
                text@,
                nodes@[b as int].kind,
                nodes@[b as int].start as int,
                nodes@[b as int].end as int,
            ));
            let opens: bool = match find_child(nodes, b, NodeKind::FencedCodeBlockDelimiter) {
                Some(d) => nodes[d].end == pos,
                None => false,
            };
            if !opens {
                return None;
            }
            nodes[b]
        },
        None => {
            return None;
        },
    };
    let newline: usize = find_byte_from(text, NEWLINE, block.start);
    if newline >= block.end {
        return None;
    }
    let a: usize = trim_start(text, newline + 1, block.end);
    let z: usize = trim_end(text, a, block.end);
    let body: Vec<u8> = slice_bytes(text, a, z);
    if bytes_eq(body.as_slice(), fence_bytes(BACKTICK).as_slice()) || bytes_eq(
        body.as_slice(),
        fence_bytes(TILDE).as_slice(),
    ) {
        let end: usize = if text[block.end - 1] == NEWLINE {
            block.end - 1
        } else {
            block.end
        };
        Some(Span { start: block.start, end })
    } else {
        None
    }
}

impl EditorState {
    /// The range of the grapheme cluster just before `cursor_pos`.
    fn previous_grapheme_range(&self, cursor_pos: usize) -> (r: Option<Span>)
        requires
            self.wf(),
        ensures
            r == grapheme_before(self@.text(), cursor_pos as int),
            r matches Some(s) ==> span_ok(self@.text(), s),
    {
        proof {
            self.buffer.lemma_wf();
        }
        previous_grapheme(self.buffer.bytes(), cursor_pos)
    }

    /// The range of the grapheme cluster just after `cursor_pos`.
    fn next_grapheme_range(&self, cursor_pos: usize) -> (r: Option<Span>)
        requires
            self.wf(),
        ensures
            r == grapheme_after(self@.text(), cursor_pos as int),
            r matches Some(s) ==> span_ok(self@.text(), s) && s.start == cursor_pos,
    {
        proof {
            self.buffer.lemma_wf();
        }
        next_grapheme(self.buffer.bytes(), cursor_pos)
    }

    /// The line that holds an offset.
    fn find_line_at(&self, byte_pos: usize) -> (r: (usize, LineMarkers))
        requires
            self.wf(),
        ensures
            r.0 == line_of(self@.text(), byte_pos as int),
            r.1@ == line_model(self@.text(), r.0 as int),
            r.1@.ok(self@.text()),
    {
        let line: usize = self.buffer.byte_to_line(byte_pos);
        (line, self.buffer.line_markers(line))
    }

    /// Whether the cursor stands in a code block.
    pub fn cursor_in_code_block(&self) -> (r: bool)
        requires
            self.wf(),
        ensures
            r == in_code(self@.text(), self@.cursor()),
    {
        self.buffer.in_code_block(self.cursor().offset)
    }

    /// Whether something other than white space follows a line's markers.
    fn line_has_content(&self, line: &LineMarkers) -> (r: bool)
        requires
            line@.range.start <= line@.content() <= line@.range.end <= self@.text().len(),
        ensures
            r == has_content(self@.text(), line@),
    {
        if line.is_fence() {
            return true;
        }
        let text: &[u8] = self.buffer.bytes();
        let a: usize = trim_start(text, line.content_start(), line.range.end);
        let z: usize = trim_end(text, a, line.range.end);
        a < z
    }

    /// The line at the cursor.
    pub fn line_context(&self) -> (r: LineContext)
        requires
            self.wf(),
        ensures
            r.cursor_offset == self@.cursor(),
            r.line_idx == line_of(self@.text(), self@.cursor() as int),
            r.line@ == self@.line(),
            r.line@.ok(self@.text()),
            r.is_empty == !has_content(self@.text(), self@.line()),
            r.has_container == (self@.line().quote() || self@.line().list()),
            match r.prev_line {
                Some(p) => r.line_idx > 0 && p@ == line_model(self@.text(), r.line_idx - 1),
                None => r.line_idx == 0,
            },
    {
        proof {
            self.buffer.lemma_wf();
        }
        let cursor_offset: usize = self.cursor().offset;
        let (line_idx, line) = self.find_line_at(cursor_offset);
        proof {
            lemma_line_model(self@.text(), line_idx as int);
        }
        let is_empty: bool = !self.line_has_content(&line);
        let has_container: bool = line.has_container();
        let prev_line: Option<LineMarkers> = if line_idx > 0 {
            Some(self.buffer.line_markers(line_idx - 1))
        } else {
            None
        };
        LineContext { cursor_offset, line_idx, line, is_empty, has_container, prev_line }
    }

    /// Takes the selected text out.
    pub fn delete_selection(&mut self)
        requires
            old(self).ready(),
        ensures
            final(self).ready(),
            old(self).steady() ==> final(self).steady(),
            final(self)@ == old(self)@.unselected(),
    {
        reveal(StateModel::unselected);
        let ghost m = self@;
        let s: Span = self.selection.range();
        let cursor: usize = self.cursor().offset;
        proof {
            self.buffer.lemma_wf();
            if boundary(m.text(), s.start as int) {
                lemma_cut(m.text(), s.start as int, s.end as int);
            } else {
                lemma_floor(m.text(), s.start as int);
                let at = floor_boundary(m.text(), s.start as int);
                lemma_spliced_back(m.text(), at, at, Seq::<u8>::empty());
            }
        }
        self.buffer.delete(s.start, s.end, cursor);
        self.selection = Selection::new(s.start, s.start);
    }

    /// Types bytes in place of the selection.
    fn insert_bytes(&mut self, t: &[u8])
        requires
            old(self).ready(),
            valid_utf8(t@),
        ensures
            final(self).ready(),
            old(self).steady() ==> final(self).steady(),
            final(self)@ == old(self)@.inserted(t@),
            final(self)@.collapsed(),
    {
        reveal(StateModel::inserted);
        reveal(StateModel::unselected);
        let ghost m = self@;
        self.tab_cycle_cache = None;
        if !self.selection.is_collapsed() {
            self.delete_selection();
        }
        let pos: usize = self.cursor().offset;
        let ghost before = self@.text();
        proof {
            self.buffer.lemma_wf();
        }
        self.buffer.insert(pos, t, pos);
        proof {
            let at = floor_boundary(before, pos as int);
            lemma_floor(before, pos as int);
            lemma_spliced_back(before, at, at, t@);
            if boundary(before, pos as int) {
                lemma_boundary_after(before, at, at, t@, at);
            }
            self.buffer.lemma_wf();
        }
        let to: usize = pos + t.len();
        self.selection = Selection::new(to, to);
        proof {
            let b = if m.selection.anchor == m.selection.head {
                m.buffer
            } else {
                m.unselected().buffer
            };
            assert(self@ =~= m.uncached().holding(b.insert(pos as int, t@, pos)).at(to));
        }
        self.propagate_checkbox_after_edit();
    }

    /// Types bytes in place of the selection, if there are any.
    fn insert_bytes_if_any(&mut self, t: &[u8])
        requires
            old(self).ready(),
            valid_utf8(t@),
        ensures
            final(self).ready(),
            old(self).steady() ==> final(self).steady(),
            final(self)@ == old(self)@.inserted_if_any(t@),
    {
        if t.len() > 0 {
            self.insert_bytes(t);
        }
    }

    /// Types a text in place of the selection.
    pub fn insert_text(&mut self, text: &str)
        requires
            old(self).ready(),
        ensures
            final(self).ready(),
            old(self).steady() ==> final(self).steady(),
            final(self)@ == old(self)@.inserted(encode_utf8(text@)),
            final(self)@.collapsed(),
    {
        proof {
            lemma_str_valid(text@);
        }
        self.insert_bytes(text.as_bytes());
    }

    /// Puts a space after a `>` that has just become a quote marker. Returns
    /// whether it did.
    pub fn maybe_complete_blockquote_marker(&mut self) -> (r: bool)
        requires
            old(self).ready(),
        ensures
            final(self).ready(),
            old(self).steady() ==> final(self).steady(),
            r == old(self)@.quote_lacks_space(),
            final(self)@ == (if r {
                old(self)@.inserted(seq![SPACE])
            } else {
                old(self)@
            }),
            old(self)@.collapsed() ==> final(self)@.collapsed(),
    {
        reveal(StateModel::quote_lacks_space);
        let cursor: usize = self.cursor().offset;
        if cursor == 0 {
            return false;
        }
        let is_quote: bool = match self.buffer.byte_at(cursor - 1) {
            Some(b) => b == QUOTE,
            None => false,
        };
        if !is_quote {
            return false;
        }
        let has_space: bool = match self.buffer.byte_at(cursor) {
            Some(b) => b == SPACE,
            None => false,
        };
        if has_space {
            return false;
        }
        let (_, line) = self.find_line_at(cursor);
        if !line.has_quote_at(cursor - 1) {
            return false;
        }
        self.insert_bytes(one_byte(SPACE).as_slice());
        true
    }

    /// Puts a closing fence below an opening one that has just been typed. The
    /// cursor stays.
    pub fn maybe_complete_code_fence(&mut self)
        requires
            old(self).ready(),
        ensures
            final(self).wf(),
            final(self)@ == old(self)@.fence_closed(),
            old(self)@.collapsed() ==> final(self).ready(),
            old(self)@.collapsed() && old(self).steady() ==> final(self).steady(),
    {
        reveal(StateModel::fence_typed);
        reveal(StateModel::fence_closed);
        let ghost m = self@;
        let cursor: usize = self.cursor().offset;
        if cursor < 3 {
            return;
        }
        let text: &[u8] = self.buffer.bytes();
        let b: u8 = text[cursor - 1];
        if b != BACKTICK && b != TILDE {
            return;
        }
        if text[cursor - 2] != b || text[cursor - 3] != b {
            return;
        }
        proof {
            lemma_line_begin(m.text(), cursor as int);
        }
        let start: usize = self.buffer.line_to_byte(self.buffer.byte_to_line(cursor));
        let a: usize = trim_start(text, start, cursor - 3);
        let z: usize = trim_end(text, a, cursor - 3);
        if !are_quotes(text, a, z) {
            return;
        }
        let mut closing: Vec<u8> = Vec::new();
        closing.push(NEWLINE);
        closing.push(b);
        closing.push(b);
        closing.push(b);
        proof {
            assert(closing@ =~= seq![NEWLINE] + fence(b));
            lemma_ascii_valid(closing@);
            lemma_floor(m.text(), cursor as int);
            let at = floor_boundary(m.text(), cursor as int);
            lemma_spliced_back(m.text(), at, at, closing@);
        }
        self.buffer.insert(cursor, closing.as_slice(), cursor);
    }

    /// Whether a space can be typed.
    pub fn can_take_space(&self) -> (r: bool)
        requires
            self.ready(),
        ensures
            r == self@.takes_space(),
    {
        reveal(StateModel::takes_space);
        if self.cursor_in_code_block() {
            return true;
        }
        let cursor = self.cursor();
        let start: usize = cursor.move_to_line_start(&self.buffer).offset;
        !(cursor.offset == start || self.cursor_at_blockquote_content_start())
    }

    /// Types a space, unless it would stand at the start of a line or of a
    /// quoted line's text. Returns whether it did.
    pub fn try_insert_space(&mut self) -> (r: bool)
        requires
            old(self).ready(),
        ensures
            final(self).ready(),
            old(self).steady() ==> final(self).steady(),
            r == old(self)@.takes_space(),
            final(self)@ == (if r {
                old(self)@.inserted(seq![SPACE])
            } else {
                old(self)@
            }),
            r ==> final(self)@.collapsed(),
    {
        if !self.can_take_space() {
            return false;
        }
        self.insert_bytes(one_byte(SPACE).as_slice());
        true
    }

    /// Whether the cursor stands where the text of a quoted line starts.
    fn cursor_at_blockquote_content_start(&self) -> (r: bool)
        requires
            self.wf(),
        ensures
            r == self@.at_quote_start(),
    {
        let cursor: usize = self.cursor().offset;
        let (_, line) = self.find_line_at(cursor);
        if !line.is_blockquote_only() {
            return false;
        }
        cursor == line.content_start()
    }

    /// Types a newline, nothing more.
    pub fn enter(&mut self)
        requires
            old(self).ready(),
        ensures
            final(self).ready(),
            old(self).steady() ==> final(self).steady(),
            final(self)@ == old(self)@.inserted(seq![NEWLINE]),
    {
        self.insert_bytes(one_byte(NEWLINE).as_slice());
    }

    /// The spaces and tabs that the cursor's line starts with.
    fn current_line_leading_whitespace(&self) -> (r: Vec<u8>)
        requires
            self.ready(),
        ensures
            r@ == self@.leading_blanks(),
            valid_utf8(r@),
    {
        proof {
            self.buffer.lemma_wf();
            lemma_steps_stay(self@.text(), self@.cursor() as int);
        }
        let cursor = self.cursor();
        let start: usize = cursor.move_to_line_start(&self.buffer).offset;
        let end: usize = cursor.move_to_line_end(&self.buffer).offset;
        let text: &[u8] = self.buffer.bytes();
        let stop: usize = skip_spaces_and_tabs(text, start, end);
        let r: Vec<u8> = slice_bytes(text, start, stop);
        proof {
            lemma_ascii_valid(r@);
        }
        r
    }

    /// Opens a new line in the same containers. In code it is indented like this
    /// one.
    pub fn shift_enter(&mut self)
        requires
            old(self).ready(),
        ensures
            final(self).ready(),
            old(self).steady() ==> final(self).steady(),
            final(self)@ == old(self)@.new_line(old(self)@.next_line_start()),
    {
        reveal(StateModel::new_line);
        reveal(StateModel::next_line_start);
        proof {
            self.buffer.lemma_wf();
        }
        let start: Vec<u8> = if self.cursor_in_code_block() {
            self.current_line_leading_whitespace()
        } else {
            let ctx = self.line_context();
            ctx.line.continuation(self.buffer.bytes())
        };
        self.enter();
        self.insert_bytes_if_any(start.as_slice());
    }

    /// Opens a new line for a paragraph nested under this one: below a bullet an
    /// indentation, below a quote alone two spaces.
    pub fn shift_alt_enter(&mut self)
        requires
            old(self).ready(),
        ensures
            final(self).ready(),
            old(self).steady() ==> final(self).steady(),
            final(self)@ == old(self)@.new_line(old(self)@.nested_line_start()),
    {
        reveal(StateModel::new_line);
        reveal(StateModel::nested_line_start);
        proof {
            self.buffer.lemma_wf();
        }
        let ctx = self.line_context();
        let start: Vec<u8> = if ctx.line.has_quote() && !ctx.line.has_list() {
            spaces(2)
        } else {
            ctx.line.nested_paragraph_indent(self.buffer.bytes())
        };
        self.enter();
        self.insert_bytes_if_any(start.as_slice());
    }

    /// The range of a marker that ends at an offset.
    fn backspace_range(&self, cursor_pos: usize) -> (r: Option<Span>)
        requires
            self.wf(),
        ensures
            ({
                let markers = line_model(
                    self@.text(),
                    line_of(self@.text(), cursor_pos as int),
                ).markers;
                match r {
                    Some(s) => span_ok(self@.text(), s) && (marker_ending(
                        markers,
                        cursor_pos as int,
                        0,
                    ) matches Some(i) && s == markers[i].range),
                    None => marker_ending(markers, cursor_pos as int, 0) is None,
                }
            }),
    {
        let (_, line) = self.find_line_at(cursor_pos);
        match find_marker_ending(&line, cursor_pos) {
            Some(i) => {
                assert(line@.markers[i as int] == line.markers@[i as int]@);
                assert(span_ok(self@.text(), line@.markers[i as int].range));
                Some(line.markers[i].range)
            },
            None => None,
        }
    }

    /// The range of the code block whose opening fence ends at an offset when it
    /// holds nothing but white space.
    fn find_empty_code_block_range(&self, cursor_pos: usize) -> (r: Option<Span>)
        requires
            self.wf(),
        ensures
            r == empty_block(self@.text(), cursor_pos),
            r matches Some(s) ==> s.start <= s.end <= self@.text().len() && boundary(
                self@.text(),
                s.start as int,
            ),
    {
        proof {
            self.buffer.lemma_wf();
        }
        let from: usize = if cursor_pos > 0 {
            cursor_pos - 1
        } else {
            0
        };
        let nodes = match self.buffer.nodes() {
            Some(nodes) => nodes,
            None => {
                return None;
            },
        };
        let i: usize = match self.buffer.node_spanning(from, cursor_pos) {
            Some(i) => i,
            None => {
                return None;
            },
        };
        find_empty_block_around(self.buffer.bytes(), nodes, i, cursor_pos)
    }

    /// Takes the text of a range out and puts the cursor there.
    pub fn cut(&mut self, s: Span)
        requires
            old(self).ready(),
            s.start <= s.end <= old(self)@.text().len(),
            boundary(old(self)@.text(), s.start as int),
        ensures
            final(self).ready(),
            final(self).steady(),
            final(self)@ == old(self)@.cut(s),
    {
        reveal(StateModel::cut);
        let cursor: usize = self.cursor().offset;
        proof {
            self.buffer.lemma_wf();
            lemma_cut(self@.text(), s.start as int, s.end as int);
        }
        self.tab_cycle_cache = None;
        self.buffer.delete(s.start, s.end, cursor);
        self.selection = Selection::new(s.start, s.start);
        self.propagate_checkbox_after_edit();
    }

    /// Deletes the selection, or what stands before the cursor: a marker as a
    /// whole, an empty code block with its opening fence, or one grapheme
    /// cluster.
    pub fn delete_backward(&mut self)
        requires
            old(self).ready(),
        ensures
            final(self).ready(),
            old(self).steady() ==> final(self).steady(),
            final(self)@ == old(self)@.backspaced(),
    {
        reveal(StateModel::backspaced);
        reveal(StateModel::before_cursor);
        reveal(StateModel::cut);
        self.tab_cycle_cache = None;
        if !self.selection.is_collapsed() {
            self.delete_selection();
            self.propagate_checkbox_after_edit();
            return;
        }
        let cursor: usize = self.cursor().offset;
        if cursor == 0 {
            return;
        }
        let range: Option<Span> = match self.backspace_range(cursor) {
            Some(s) => match self.find_empty_code_block_range(cursor) {
                Some(block) => Some(block),
                None => Some(s),
            },
            None => self.previous_grapheme_range(cursor),
        };
        if let Some(s) = range {
            self.cut(s);
        }
    }

    /// Takes the text of a range after the cursor out, if there is one.
    pub fn cut_ahead(&mut self, range: Option<Span>)
        requires
            old(self).ready(),
            range matches Some(s) ==> span_ok(old(self)@.text(), s) && s.start
                == old(self)@.cursor() && old(self)@.collapsed(),
        ensures
            final(self).ready(),
            old(self).steady() ==> final(self).steady(),
            final(self)@ == old(self)@.cut_ahead(range),
    {
        reveal(StateModel::cut_ahead);
        self.tab_cycle_cache = None;
        if let Some(s) = range {
            let cursor: usize = self.cursor().offset;
            proof {
                self.buffer.lemma_wf();
                lemma_cut(self@.text(), s.start as int, s.end as int);
            }
            self.buffer.delete(s.start, s.end, cursor);
        }
        self.propagate_checkbox_after_edit();
    }

    /// Deletes the selection, or the grapheme cluster after the cursor.
    pub fn delete_forward(&mut self)
        requires
            old(self).ready(),
        ensures
            final(self).ready(),
            old(self).steady() ==> final(self).steady(),
            final(self)@ == old(self)@.deleted_forward(),
    {
        reveal(StateModel::deleted_forward);
        if self.selection.is_collapsed() {
            let range: Option<Span> = self.next_grapheme_range(self.cursor().offset);
            self.cut_ahead(range);
        } else {
            self.tab_cycle_cache = None;
            self.delete_selection();
            self.propagate_checkbox_after_edit();
        }
    }

    /// The selected text.
    pub fn selected_text(&self) -> (r: String)
        requires
            self.ready(),
            !self@.collapsed(),
        ensures
            r@ == decode_utf8(self@.selected()),
            encode_utf8(r@) == self@.selected(),
    {
        let s: Span = self.selection.range();
        proof {
            self.buffer.lemma_wf();
            lemma_pieces_valid(self@.text(), s.start as int, s.end as int);
        }
        let r: String = string_from_utf8(self.buffer.slice(s.start, s.end));
        proof {
            encode_utf8_decode_utf8(r@);
        }
        r
    }

    /// Takes the last change back. Returns whether there was one.
    pub fn undo(&mut self) -> (r: bool)
        requires
            old(self).wf(),
        ensures
            final(self).wf(),
            final(self)@ == old(self)@.undone(),
            r == (old(self)@.buffer.undo.len() > 0),
            r ==> final(self).ready() && final(self).steady(),
            !r ==> final(self).selection == old(self).selection && final(self)@.text()
                == old(self)@.text(),
    {
        reveal(StateModel::undone);
        match self.buffer.undo() {
            Some(c) => {
                self.selection = Selection::new(c, c);
                true
            },
            None => false,
        }
    }

    /// Makes the last change again that was taken back. Returns whether there was
    /// one.
    pub fn redo(&mut self) -> (r: bool)
        requires
            old(self).wf(),
        ensures
            final(self).wf(),
            final(self)@ == old(self)@.redone(),
            r == (old(self)@.buffer.redo.len() > 0),
            r ==> final(self).ready() && final(self).steady(),
            !r ==> final(self).selection == old(self).selection && final(self)@.text()
                == old(self)@.text(),
    {
        reveal(StateModel::redone);
        match self.buffer.redo() {
            Some(c) => {
                self.selection = Selection::new(c, c);
                true
            },
            None => false,
        }
    }
}

// ---------------------------------------------------------------------------
// What editing keeps to
// ---------------------------------------------------------------------------

impl StateModel {
    /// The state after `t` was put in at the cursor, before the boxes around it
    /// follow.
    pub open spec fn put_in(self, t: Seq<u8>) -> StateModel {
        let pos = self.cursor();
        self.uncached().holding(self.buffer.insert(pos as int, t, pos)).at(
            (pos + t.len()) as usize,
        )
    }

    /// The state after the text of a range was taken out, before the boxes around
    /// it follow.
    pub open spec fn taken_out(self, s: Span) -> StateModel {
        self.uncached().holding(
            self.buffer.delete(s.start as int, s.end as int, self.cursor()),
        ).at(s.start)
    }
}

/// What is typed stands before the cursor then, and the rest of the text stays as
/// it is, as long as no task box around the line followed.
pub proof fn law_typed_text_stands_before_the_cursor(m: StateModel, t: Seq<u8>)
    requires
        m.collapsed(),
        m.cursor() <= m.text().len(),
        boundary(m.text(), m.cursor() as int),
        m.text().len() + t.len() <= usize::MAX,
        settled(m.put_in(t)) == m.put_in(t),
    ensures
        m.inserted(t).text() == m.text().subrange(0, m.cursor() as int) + t + m.text().subrange(
            m.cursor() as int,
            m.text().len() as int,
        ),
        m.inserted(t).cursor() == m.cursor() + t.len(),
{
    reveal(StateModel::inserted);
    lemma_floor(m.text(), m.cursor() as int);
}

/// Undoing takes typing back, and the cursor with it, as long as no task box
/// around the line followed.
pub proof fn law_typing_is_undone(m: StateModel, t: Seq<u8>)
    requires
        m.buffer.ok(),
        m.collapsed(),
        m.cursor() <= m.text().len(),
        boundary(m.text(), m.cursor() as int),
        settled(m.put_in(t)) == m.put_in(t),
    ensures
        m.inserted(t).undone().text() == m.text(),
        m.inserted(t).undone().cursor() == m.cursor(),
        m.inserted(t).undone().buffer.undo == m.buffer.undo,
{
    reveal(StateModel::inserted);
    reveal(StateModel::undone);
    let pos = m.cursor() as int;
    crate::buffer::law_undo_restores_text(m.buffer, pos, pos, t, m.cursor());
    lemma_floor(m.text(), pos);
}

/// Undoing puts deleted text back, and the cursor where it was, as long as no
/// task box around the line followed.
pub proof fn law_deletion_is_undone(m: StateModel, s: Span)
    requires
        m.buffer.ok(),
        s.start <= s.end <= m.text().len(),
        m.cursor() <= m.text().len(),
        boundary(m.text(), m.cursor() as int),
        settled(m.taken_out(s)) == m.taken_out(s),
    ensures
        m.cut(s).undone().text() == m.text(),
        m.cut(s).undone().cursor() == m.cursor(),
        m.cut(s).undone().buffer.undo == m.buffer.undo,
{
    reveal(StateModel::cut);
    reveal(StateModel::undone);
    crate::buffer::law_undo_restores_text(
        m.buffer,
        s.start as int,
        s.end as int,
        Seq::<u8>::empty(),
        m.cursor(),
    );
    lemma_floor(m.text(), m.cursor() as int);
}

} // verus!
