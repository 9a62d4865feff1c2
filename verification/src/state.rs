//! The state of an editor without its view: a text, a selection in it, and the
//! prefixes that tab is cycling through.

use vstd::prelude::*;
use vstd::utf8::*;

use crate::buffer::{Buffer, BufferModel};
use crate::context::{rows, rows_tidy};
use crate::cursor::{above, below, left_of, right_of, within_text, word_begin, word_finish, Cursor, Selection};
use crate::lines::{line_begin, line_finish};
use crate::text::boundary;

verus! {

/// The prefixes that tab is cycling through on one line.
pub struct TabCycleCache {
    pub line_idx: usize,
    pub states: Vec<Vec<u8>>,
}

/// The prefixes that tab is cycling through, as contracts speak of them.
#[verifier::ext_equal]
pub struct CacheModel {
    pub line_idx: usize,
    pub states: Seq<Seq<u8>>,
}

impl View for TabCycleCache {
    type V = CacheModel;

    open spec fn view(&self) -> CacheModel {
        CacheModel { line_idx: self.line_idx, states: rows(self.states@) }
    }
}

/// A text being edited and a selection in it.
pub struct EditorState {
    pub buffer: Buffer,
    pub selection: Selection,
    /// The prefixes found when tab was first pressed on a line. They are kept
    /// while tab goes through them, since they change what they were found by.
    pub tab_cycle_cache: Option<TabCycleCache>,
}

/// An editor's state, as contracts speak of it.
#[verifier::ext_equal]
pub struct StateModel {
    pub buffer: BufferModel,
    pub selection: Selection,
    pub cache: Option<CacheModel>,
}

impl View for EditorState {
    type V = StateModel;

    open spec fn view(&self) -> StateModel {
        StateModel {
            buffer: self.buffer@,
            selection: self.selection,
            cache: match self.tab_cycle_cache {
                Some(c) => Some(c@),
                None => None,
            },
        }
    }
}

impl StateModel {
    /// The text.
    pub open spec fn text(self) -> Seq<u8> {
        self.buffer.text
    }

    /// Whether the prefixes that tab is cycling through are valid text without
    /// newlines.
    pub open spec fn cache_ok(self) -> bool {
        self.cache matches Some(c) ==> rows_tidy(c.states)
    }

    /// Whether nothing is selected.
    pub open spec fn collapsed(self) -> bool {
        self.selection.anchor == self.selection.head
    }

    /// The state with the cursor at `offset` and nothing selected.
    pub open spec fn at(self, offset: usize) -> StateModel {
        StateModel { selection: Selection { anchor: offset, head: offset }, ..self }
    }

    /// The state with another buffer.
    pub open spec fn holding(self, buffer: BufferModel) -> StateModel {
        StateModel { buffer, ..self }
    }

    /// The state without the prefixes that tab was cycling through.
    pub open spec fn uncached(self) -> StateModel {
        StateModel { cache: None, ..self }
    }

    /// The state after a click at `offset`: the `count`-th in a row selects a
    /// word or a line, and with shift held the selection is extended.
    pub open spec fn clicked(self, offset: usize, shift_held: bool, count: usize) -> StateModel {
        let at = within_text(self.text(), offset) as int;
        if shift_held {
            self.dragged(offset)
        } else if count == 2 {
            StateModel {
                selection: Selection {
                    anchor: word_begin(self.text(), at) as usize,
                    head: word_finish(self.text(), at) as usize,
                },
                ..self
            }
        } else if count == 3 {
            StateModel {
                selection: Selection {
                    anchor: line_begin(self.text(), at) as usize,
                    head: line_finish(self.text(), at) as usize,
                },
                ..self
            }
        } else {
            self.at(offset)
        }
    }

    /// The state after the selection was dragged to `offset`.
    pub open spec fn dragged(self, offset: usize) -> StateModel {
        StateModel {
            selection: Selection { anchor: self.selection.anchor, head: offset },
            ..self
        }
    }
}

impl EditorState {
    /// The buffer is well formed, and so is what tab cycles through.
    pub open spec fn wf(&self) -> bool {
        &&& self.buffer.wf()
        &&& self@.cache_ok()
    }

    /// The state is well formed and its selection fits the text.
    pub open spec fn ready(&self) -> bool {
        self.wf() && self.selection.fits(self@.text())
    }

    /// The state is well formed and both ends of its selection stand at
    /// character boundaries.
    pub open spec fn steady(&self) -> bool {
        self.wf() && self.selection.steady(self@.text())
    }

    /// A state that holds `content`, with the cursor at its start.
    pub fn new(content: &str) -> (r: EditorState)
        ensures
            r.ready(),
            r.steady(),
            r@ == (StateModel {
                buffer: BufferModel::fresh(encode_utf8(content@)),
                selection: Selection { anchor: 0, head: 0 },
                cache: None,
            }),
    {
        EditorState {
            buffer: Buffer::from_text(content),
            selection: Selection::new(0, 0),
            tab_cycle_cache: None,
        }
    }

    /// The cursor.
    pub fn cursor(&self) -> (r: Cursor)
        ensures
            r.offset == self@.selection.head,
    {
        self.selection.cursor()
    }

    /// The text.
    pub fn text(&self) -> (r: String)
        requires
            self.wf(),
        ensures
            encode_utf8(r@) == self@.text(),
    {
        self.buffer.text()
    }

    /// Puts the cursor at an offset, or at the end of the text when the offset
    /// lies past it.
    pub fn set_cursor(&mut self, offset: usize)
        requires
            old(self).wf(),
        ensures
            final(self).ready(),
            final(self)@ == old(self)@.at(
                if offset < old(self)@.text().len() {
                    offset
                } else {
                    old(self)@.text().len() as usize
                },
            ),
            boundary(old(self)@.text(), offset as int) || offset >= old(self)@.text().len()
                ==> final(self).steady(),
    {
        let len: usize = self.buffer.len_bytes();
        let to: usize = if offset < len {
            offset
        } else {
            len
        };
        self.selection = Selection::new(to, to);
    }

    /// Moves the cursor one step to the left.
    pub fn move_left(&mut self)
        requires
            old(self).ready(),
        ensures
            final(self).ready(),
            final(self)@ == old(self)@.at(
                left_of(old(self)@.text(), old(self)@.selection.head as int) as usize,
            ),
            old(self).steady() ==> final(self).steady(),
    {
        let c = self.cursor().move_left(&self.buffer);
        self.selection = Selection::new(c.offset, c.offset);
    }

    /// Moves the cursor one step to the right.
    pub fn move_right(&mut self)
        requires
            old(self).ready(),
        ensures
            final(self).ready(),
            final(self)@ == old(self)@.at(
                right_of(old(self)@.text(), old(self)@.selection.head as int) as usize,
            ),
            old(self).steady() ==> final(self).steady(),
    {
        let c = self.cursor().move_right(&self.buffer);
        self.selection = Selection::new(c.offset, c.offset);
    }

    /// Moves the cursor one line up.
    pub fn move_up(&mut self)
        requires
            old(self).ready(),
        ensures
            final(self).ready(),
            final(self)@ == old(self)@.at(
                above(old(self)@.text(), old(self)@.selection.head as int) as usize,
            ),
            final(self).steady(),
    {
        let c = self.cursor().move_up(&self.buffer);
        self.selection = Selection::new(c.offset, c.offset);
    }

    /// Moves the cursor one line down.
    pub fn move_down(&mut self)
        requires
            old(self).ready(),
        ensures
            final(self).ready(),
            final(self)@ == old(self)@.at(
                below(old(self)@.text(), old(self)@.selection.head as int) as usize,
            ),
            final(self).steady(),
    {
        let c = self.cursor().move_down(&self.buffer);
        self.selection = Selection::new(c.offset, c.offset);
    }

    /// Moves the cursor to the start of its line.
    pub fn move_to_line_start(&mut self)
        requires
            old(self).ready(),
        ensures
            final(self).ready(),
            final(self)@ == old(self)@.at(
                line_begin(old(self)@.text(), old(self)@.selection.head as int) as usize,
            ),
            final(self).steady(),
    {
        let c = self.cursor().move_to_line_start(&self.buffer);
        self.selection = Selection::new(c.offset, c.offset);
    }

    /// Moves the cursor to the end of its line.
    pub fn move_to_line_end(&mut self)
        requires
            old(self).ready(),
        ensures
            final(self).ready(),
            final(self)@ == old(self)@.at(
                line_finish(old(self)@.text(), old(self)@.selection.head as int) as usize,
            ),
            final(self).steady(),
    {
        let c = self.cursor().move_to_line_end(&self.buffer);
        self.selection = Selection::new(c.offset, c.offset);
    }

    /// A click of the mouse: the second in a row selects a word, the third a
    /// line, and with shift held the selection is extended.
    pub fn handle_click(&mut self, buffer_offset: usize, shift_held: bool, click_count: usize)
        requires
            old(self).wf(),
        ensures
            final(self).wf(),
            final(self)@ == old(self)@.clicked(buffer_offset, shift_held, click_count),
            buffer_offset <= old(self)@.text().len() ==> final(self)@.selection.head
                <= old(self)@.text().len(),
            boundary(old(self)@.text(), buffer_offset as int) && boundary(
                old(self)@.text(),
                old(self)@.selection.anchor as int,
            ) ==> final(self).ready() && final(self).steady(),
    {
        if shift_held {
            self.selection = self.selection.extend_to(buffer_offset);
        } else if click_count == 2 {
            self.selection = Selection::select_word_at(buffer_offset, &self.buffer);
        } else if click_count == 3 {
            self.selection = Selection::select_line_at(buffer_offset, &self.buffer);
        } else {
            self.selection = Selection::new(buffer_offset, buffer_offset);
        }
    }

    /// Drags the moving end of the selection to an offset.
    pub fn handle_drag(&mut self, buffer_offset: usize)
        requires
            old(self).wf(),
        ensures
            final(self).wf(),
            final(self)@ == old(self)@.dragged(buffer_offset),
            boundary(old(self)@.text(), buffer_offset as int) && boundary(
                old(self)@.text(),
                old(self)@.selection.anchor as int,
            ) ==> final(self).ready() && final(self).steady(),
    {
        self.selection = self.selection.extend_to(buffer_offset);
    }
}

} // verus!
