//! What a program does with an editor: reading and setting its text and cursor,
//! streaming text into it, and undoing.

use vstd::prelude::*;
use vstd::utf8::*;

use crate::buffer::BufferModel;
use crate::cursor::Selection;
use crate::diff::{in_lines, is_in_lines};
use crate::editor::{Editor, EditorFlags, EditorModel};
use crate::lines::{byte_to_line, lemma_line_of_bound, line_of, line_total};
use crate::marker::Span;
use crate::snapshot::RenderSnapshot;
use crate::space::{skip_space_back, trim_end};
use crate::state::{EditorState, StateModel};
use crate::text::{boundary, has_at, lemma_floor, lemma_str_valid};

verus! {

/// How many lines a text has once the white space at its end is left out.
pub open spec fn content_lines(t: Seq<u8>) -> int {
    let end = skip_space_back(t, 0, t.len() as int);
    if end == 0 {
        0
    } else {
        line_of(t, end) + 1
    }
}

/// Whether a line belongs to one of the user's messages.
pub open spec fn is_message_line(messages: Seq<Span>, line: int) -> bool {
    exists|i: int| 0 <= i < messages.len() && in_lines(#[trigger] messages[i], line)
}

impl StateModel {
    /// The state after a text was put in at the end, with the cursor after it.
    pub open spec fn appended(self, t: Seq<u8>) -> StateModel {
        let b = self.buffer.insert(
            self.text().len() as int,
            t,
            self.text().len() as usize,
        );
        self.holding(b).at(b.text.len() as usize)
    }
}

impl EditorModel {
    /// The lines of a message that is put in at the end: they begin with the last
    /// line there is, and the white space at the message's end is left out.
    pub open spec fn message_span(self, t: Seq<u8>) -> Span {
        let start = line_total(self.text()) - 1;
        Span { start: start as usize, end: (start + content_lines(t)) as usize }
    }

    /// The editor after a message of the user was put in at the end.
    pub open spec fn message_appended(self, t: Seq<u8>) -> EditorModel {
        let after = self.with_state(self.state.appended(t));
        if content_lines(t) > 0 {
            EditorModel { messages: self.messages.push(self.message_span(t)), ..after }
        } else {
            after
        }
    }

    /// The editor while text is streamed into it: input is blocked and the cursor
    /// stands at the end.
    pub open spec fn streaming(self) -> EditorModel {
        self.with_state(self.state.at(self.text().len() as usize)).with_flags(
            EditorFlags { streaming_mode: true, input_blocked: true, ..self.flags },
        )
    }

    /// The editor once no more text is streamed into it.
    pub open spec fn streamed(self) -> EditorModel {
        self.with_flags(EditorFlags { streaming_mode: false, input_blocked: false, ..self.flags })
    }
}

/// Text that is put in at the end stands there, and what was there stays.
pub proof fn law_appended_text_stands_at_the_end(m: StateModel, t: Seq<u8>)
    requires
        m.text().len() + t.len() <= usize::MAX,
    ensures
        m.appended(t).text() == m.text() + t,
        m.appended(t).cursor() == m.text().len() + t.len(),
{
    let n = m.text().len() as int;
    lemma_floor(m.text(), n);
    assert(m.appended(t).text() =~= m.text() + t);
}

/// After streaming has ended, input and streaming are as for an editor that was
/// never streamed into.
pub proof fn law_streaming_ends(m: EditorModel)
    ensures
        !m.streaming().streamed().flags.input_blocked,
        !m.streaming().streamed().flags.streaming_mode,
        m.streaming().streamed().text() == m.text(),
        m.streaming().streamed().state.buffer == m.state.buffer,
{
}

/// A message that is appended covers the line on which it starts.
pub proof fn law_message_covers_its_first_line(m: EditorModel, t: Seq<u8>)
    requires
        content_lines(t) > 0,
        line_total(m.text()) + content_lines(t) <= usize::MAX,
    ensures
        is_message_line(m.message_appended(t).messages, line_total(m.text()) - 1),
        forall|line: int|
            is_message_line(m.messages, line) ==> is_message_line(
                m.message_appended(t).messages,
                line,
            ),
{
    let after = m.message_appended(t).messages;
    lemma_line_of_bound(m.text(), m.text().len() as int);
    assert(after[m.messages.len() as int] == m.message_span(t));
    assert(in_lines(after[m.messages.len() as int], line_total(m.text()) - 1));
    assert forall|line: int| is_message_line(m.messages, line) implies is_message_line(
        after,
        line,
    ) by {
        let i = choose|i: int| 0 <= i < m.messages.len() && in_lines(#[trigger] m.messages[i], line);
        assert(after[i] == m.messages[i]);
    }
}

fn count_content_lines(t: &[u8]) -> (r: usize)
    requires
        t@.len() < usize::MAX,
    ensures
        r == content_lines(t@),
{
    let end: usize = trim_end(t, 0, t.len());
    if end == 0 {
        0
    } else {
        byte_to_line(t, end) + 1
    }
}

impl EditorState {
    /// Puts a text in at the end and the cursor after it.
    fn append(&mut self, t: &str)
        requires
            old(self).wf(),
        ensures
            final(self).ready(),
            final(self).steady(),
            final(self)@ == old(self)@.appended(encode_utf8(t@)),
    {
        let end: usize = self.buffer.len_bytes();
        proof {
            lemma_str_valid(t@);
        }
        self.buffer.insert(end, t.as_bytes(), end);
        let new_end: usize = self.buffer.len_bytes();
        self.selection = Selection::new(new_end, new_end);
    }
}

impl Editor {
    /// Says whether this editor's state is shown in the status bar and the title
    /// bar.
    pub fn set_primary(&mut self, is_primary: bool)
        requires
            old(self).wf(),
        ensures
            final(self).wf(),
            final(self).state == old(self).state,
            final(self)@ == old(self)@.with_flags(
                EditorFlags { is_primary, ..old(self)@.flags },
            ),
    {
        self.flags.is_primary = is_primary;
    }

    /// The text as it is now.
    pub fn render_snapshot(&self) -> (r: RenderSnapshot)
        requires
            self.wf(),
        ensures
            r.wf(),
            r@ == self@.text(),
    {
        self.state.buffer.render_snapshot()
    }

    /// The text.
    pub fn text(&self) -> (r: String)
        requires
            self.wf(),
        ensures
            encode_utf8(r@) == self@.text(),
    {
        self.state.text()
    }

    /// The length of the text in bytes.
    pub fn len(&self) -> (r: usize)
        ensures
            r == self@.text().len(),
    {
        self.state.buffer.len_bytes()
    }

    /// Whether there is no text.
    pub fn is_empty(&self) -> (r: bool)
        ensures
            r == (self@.text().len() == 0),
    {
        self.state.buffer.len_bytes() == 0
    }

    /// Whether the text ends with `suffix`.
    pub fn ends_with(&self, suffix: &str) -> (r: bool)
        ensures
            r == has_at(
                self@.text(),
                self@.text().len() - encode_utf8(suffix@).len(),
                encode_utf8(suffix@),
            ),
    {
        self.state.buffer.ends_with(suffix)
    }

    /// Types a text at the cursor.
    pub fn insert(&mut self, text: &str)
        requires
            old(self).ready(),
        ensures
            final(self).ready(),
            final(self)@ == old(self)@.with_state(
                old(self)@.state.inserted(encode_utf8(text@)),
            ),
            old(self).steady() ==> final(self).steady(),
    {
        self.state.insert_text(text);
    }

    /// Puts a text in at the end and the cursor after it.
    pub fn append(&mut self, text: &str)
        requires
            old(self).wf(),
        ensures
            final(self).ready(),
            final(self).steady(),
            final(self)@ == old(self)@.with_state(old(self)@.state.appended(encode_utf8(text@))),
    {
        self.state.append(text);
    }

    /// Puts a message of the user in at the end and remembers its lines.
    pub fn append_user_message(&mut self, text: &str)
        requires
            old(self).wf(),
            old(self)@.text().len() + encode_utf8(text@).len() < usize::MAX,
        ensures
            final(self).ready(),
            final(self).steady(),
            final(self)@ == old(self)@.message_appended(encode_utf8(text@)),
    {
        let start: usize = self.state.buffer.last_line();
        proof {
            lemma_line_of_bound(self@.text(), self@.text().len() as int);
            let t = encode_utf8(text@);
            crate::space::lemma_skip_space_back(t, 0, t.len() as int);
            lemma_line_of_bound(t, skip_space_back(t, 0, t.len() as int));
        }
        self.append(text);
        let lines: usize = count_content_lines(text.as_bytes());
        if lines > 0 {
            self.user_message_lines.push(Span { start, end: start + lines });
        }
    }

    /// Whether a line belongs to one of the user's messages.
    pub fn is_user_message_line(&self, line: usize) -> (r: bool)
        ensures
            r == is_message_line(self@.messages, line as int),
    {
        let mut i: usize = 0;
        while i < self.user_message_lines.len()
            invariant
                i <= self.user_message_lines@.len(),
                forall|k: int|
                    0 <= k < i ==> !in_lines(#[trigger] self.user_message_lines@[k], line as int),
            decreases self.user_message_lines@.len() - i,
        {
            if is_in_lines(self.user_message_lines[i], line) {
                assert(in_lines(self@.messages[i as int], line as int));
                return true;
            }
            i = i + 1;
        }
        false
    }

    /// Puts a text in at the end and brings the cursor into sight.
    pub fn append_and_scroll(&mut self, text: &str)
        requires
            old(self).wf(),
        ensures
            final(self).ready(),
            final(self).steady(),
            final(self)@ == old(self)@.with_state(
                old(self)@.state.appended(encode_utf8(text@)),
            ).scrolling(),
    {
        self.append(text);
        self.request_scroll_to_cursor();
    }

    /// Asks to bring the cursor into sight.
    pub fn request_scroll_to_cursor(&mut self)
        requires
            old(self).wf(),
        ensures
            final(self).wf(),
            final(self).state == old(self).state,
            final(self)@ == old(self)@.scrolling(),
    {
        self.flags.scroll_to_cursor_pending = true;
    }

    /// Blocks or unblocks the user's input.
    pub fn set_input_blocked(&mut self, blocked: bool)
        requires
            old(self).wf(),
        ensures
            final(self).wf(),
            final(self).state == old(self).state,
            final(self)@ == old(self)@.with_flags(
                EditorFlags { input_blocked: blocked, ..old(self)@.flags },
            ),
    {
        self.flags.input_blocked = blocked;
    }

    /// Whether the user's input is blocked.
    pub fn is_input_blocked(&self) -> (r: bool)
        ensures
            r == self@.flags.input_blocked,
    {
        self.flags.input_blocked
    }

    /// Begins to stream text in: blocks input and puts the cursor at the end.
    pub fn begin_streaming(&mut self)
        requires
            old(self).wf(),
        ensures
            final(self).ready(),
            final(self).steady(),
            final(self)@ == old(self)@.streaming(),
    {
        self.flags.streaming_mode = true;
        self.flags.input_blocked = true;
        let end: usize = self.state.buffer.len_bytes();
        self.state.selection = Selection::new(end, end);
    }

    /// Ends streaming and unblocks input.
    pub fn end_streaming(&mut self)
        requires
            old(self).wf(),
        ensures
            final(self).wf(),
            final(self).state == old(self).state,
            final(self)@ == old(self)@.streamed(),
    {
        self.flags.streaming_mode = false;
        self.flags.input_blocked = false;
    }

    /// Whether text is being streamed in.
    pub fn is_streaming(&self) -> (r: bool)
        ensures
            r == self@.flags.streaming_mode,
    {
        self.flags.streaming_mode
    }

    /// Says whether a character is being composed.
    pub fn set_composing(&mut self, composing: bool)
        requires
            old(self).wf(),
        ensures
            final(self).wf(),
            final(self).state == old(self).state,
            final(self)@ == old(self)@.with_flags(EditorFlags { composing, ..old(self)@.flags }),
    {
        self.flags.composing = composing;
    }

    /// Whether a character is being composed.
    pub fn is_composing(&self) -> (r: bool)
        ensures
            r == self@.flags.composing,
    {
        self.flags.composing
    }

    /// The cursor, as a byte offset.
    pub fn cursor_position(&self) -> (r: usize)
        ensures
            r == self@.cursor(),
    {
        self.state.selection.head
    }

    /// The selected range; `None` when nothing is selected.
    pub fn selection_range(&self) -> (r: Option<std::ops::Range<usize>>)
        ensures
            match r {
                Some(s) => !self@.state.collapsed() && s.start == self@.state.selection.low()
                    && s.end == self@.state.selection.high(),
                None => self@.state.collapsed(),
            },
    {
        if self.state.selection.is_collapsed() {
            None
        } else {
            let s: Span = self.state.selection.range();
            Some(s.start..s.end)
        }
    }

    /// Puts the cursor at an offset, or at the end when the offset lies past it.
    pub fn set_cursor(&mut self, offset: usize)
        requires
            old(self).wf(),
        ensures
            final(self).ready(),
            final(self)@ == old(self)@.with_state(
                old(self)@.state.at(
                    if offset < old(self)@.text().len() {
                        offset
                    } else {
                        old(self)@.text().len() as usize
                    },
                ),
            ),
            boundary(old(self)@.text(), offset as int) || offset >= old(self)@.text().len()
                ==> final(self).steady(),
    {
        self.state.set_cursor(offset);
    }

    /// Puts the cursor at the end.
    pub fn move_to_end(&mut self)
        requires
            old(self).wf(),
        ensures
            final(self).ready(),
            final(self).steady(),
            final(self)@ == old(self)@.with_state(
                old(self)@.state.at(old(self)@.text().len() as usize),
            ),
    {
        let end: usize = self.state.buffer.len_bytes();
        self.state.selection = Selection::new(end, end);
    }

    /// Puts the cursor at the start.
    pub fn move_to_start(&mut self)
        requires
            old(self).wf(),
        ensures
            final(self).ready(),
            final(self).steady(),
            final(self)@ == old(self)@.with_state(old(self)@.state.at(0)),
    {
        self.state.selection = Selection::new(0, 0);
    }

    /// Whether there are unsaved changes.
    pub fn is_dirty(&self) -> (r: bool)
        ensures
            r == self@.state.buffer.dirty,
    {
        self.state.buffer.is_dirty()
    }

    /// Notes that the text was saved.
    pub fn mark_clean(&mut self)
        requires
            old(self).wf(),
        ensures
            final(self).wf(),
            final(self)@ == old(self)@.with_state(
                old(self)@.state.holding(
                    (BufferModel { dirty: false, ..old(self)@.state.buffer }),
                ),
            ),
            old(self).ready() ==> final(self).ready(),
            old(self).steady() ==> final(self).steady(),
    {
        self.state.buffer.mark_clean();
    }

    /// Whether a change can be taken back.
    pub fn can_undo(&self) -> (r: bool)
        ensures
            r == (self@.state.buffer.undo.len() > 0),
    {
        self.state.buffer.can_undo()
    }

    /// Whether a change can be made again.
    pub fn can_redo(&self) -> (r: bool)
        ensures
            r == (self@.state.buffer.redo.len() > 0),
    {
        self.state.buffer.can_redo()
    }

    /// Takes the last change back. Returns whether there was one.
    pub fn undo(&mut self) -> (r: bool)
        requires
            old(self).wf(),
        ensures
            final(self).wf(),
            final(self)@ == old(self)@.with_state(old(self)@.state.undone()),
            r == (old(self)@.state.buffer.undo.len() > 0),
            r ==> final(self).steady(),
    {
        self.state.undo()
    }

    /// Makes the last change again that was taken back. Returns whether there was
    /// one.
    pub fn redo(&mut self) -> (r: bool)
        requires
            old(self).wf(),
        ensures
            final(self).wf(),
            final(self)@ == old(self)@.with_state(old(self)@.state.redone()),
            r == (old(self)@.state.buffer.redo.len() > 0),
            r ==> final(self).steady(),
    {
        self.state.redo()
    }
}

} // verus!
