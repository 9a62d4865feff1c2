//! Keys: what each of them does to an editor.

use vstd::prelude::*;
use vstd::utf8::*;

use crate::action::{
    key_from_name, Direction, EffectModel, Key, KeyEffect, KeyModel, KeyOutcome, KeyOutcomeModel,
    Keystroke,
};
use crate::autocomplete::{AutocompleteState, AutocompleteSuggestion, SuggestionModel};
use crate::buffer::{lemma_boundary_after, lemma_spliced_back, spliced};
use crate::cursor::{above, below, left_of, right_of, Cursor, Selection};
use crate::editor::{Editor, EditorModel};
use crate::lines::{line_begin, line_finish};
use crate::number::{decimal, digit, digits_value, lemma_decimal_value, write_number};
use crate::outline::in_code;
use crate::state::{EditorState, StateModel};
use crate::text::{
    boundary, floor_boundary, is_boundary, lemma_ascii_valid, lemma_floor, lemma_floor_monotone,
    lemma_str_valid, push_bytes, str_eq, NEWLINE, SPACE,
};

verus! {

/// What a key stands for.
#[derive(Clone, Copy, Debug, PartialEq, Eq, Structural)]
pub enum Command {
    AcceptAllHunks,
    AcceptHunk,
    RejectAllHunks,
    RejectHunk,
    DeleteBackward,
    DeleteForward,
    Move(Direction),
    LineStart,
    TextStart,
    LineEnd,
    TextEnd,
    Enter,
    ShiftEnter,
    ShiftAltEnter,
    Tab,
    ShiftTab,
    SelectAll,
    Copy,
    Cut,
    Paste,
    Undo,
    Redo,
    Save,
    RefreshRefs,
    Type,
}

/// What a key stands for, by what is held with it and whether changes are under
/// review.
pub open spec fn command_of(k: KeyModel, reviewing: bool) -> Command {
    match k.key {
        Key::Y => if k.command() && reviewing {
            if k.shift {
                Command::AcceptAllHunks
            } else {
                Command::AcceptHunk
            }
        } else if k.control {
            Command::Redo
        } else {
            Command::Type
        },
        Key::N => if k.command() && reviewing {
            if k.shift {
                Command::RejectAllHunks
            } else {
                Command::RejectHunk
            }
        } else {
            Command::Type
        },
        Key::Backspace => Command::DeleteBackward,
        Key::Delete => Command::DeleteForward,
        Key::Left => Command::Move(Direction::Left),
        Key::Right => Command::Move(Direction::Right),
        Key::Up => Command::Move(Direction::Up),
        Key::Down => Command::Move(Direction::Down),
        Key::Home => if k.command() {
            Command::TextStart
        } else {
            Command::LineStart
        },
        Key::End => if k.command() {
            Command::TextEnd
        } else {
            Command::LineEnd
        },
        Key::Enter => if k.shift && k.alt {
            Command::ShiftAltEnter
        } else if k.shift {
            Command::ShiftEnter
        } else {
            Command::Enter
        },
        Key::Tab => if k.shift {
            Command::ShiftTab
        } else {
            Command::Tab
        },
        Key::A => if k.command() {
            Command::SelectAll
        } else {
            Command::Type
        },
        Key::C => if k.command() {
            Command::Copy
        } else {
            Command::Type
        },
        Key::X => if k.command() {
            Command::Cut
        } else {
            Command::Type
        },
        Key::V => if k.command() {
            Command::Paste
        } else {
            Command::Type
        },
        Key::Z => if k.command() {
            if k.shift {
                Command::Redo
            } else {
                Command::Undo
            }
        } else {
            Command::Type
        },
        Key::S => if k.command() {
            Command::Save
        } else {
            Command::Type
        },
        Key::R => if k.command() {
            Command::RefreshRefs
        } else {
            Command::Type
        },
        Key::Escape => Command::Type,
        Key::Other => Command::Type,
    }
}

/// One step from `off`.
pub open spec fn step(text: Seq<u8>, off: int, d: Direction) -> int {
    match d {
        Direction::Left => left_of(text, off),
        Direction::Right => right_of(text, off),
        Direction::Up => above(text, off),
        Direction::Down => below(text, off),
    }
}

/// What a suggestion writes: `#123` or `@login`.
pub open spec fn replacement(s: SuggestionModel) -> Seq<u8> {
    match s {
        SuggestionModel::IssueOrPr { number, .. } => seq![35u8] + decimal(number as nat),
        SuggestionModel::User { login, .. } => seq![64u8] + encode_utf8(login),
    }
}

impl StateModel {
    /// The state with the cursor at `offset`, the selection extended to it or
    /// not.
    pub open spec fn moved_to(self, offset: usize, extend: bool) -> StateModel {
        if extend {
            self.dragged(offset)
        } else {
            self.at(offset)
        }
    }

    /// The state with everything selected.
    pub open spec fn all_selected(self) -> StateModel {
        StateModel {
            selection: Selection { anchor: 0, head: self.text().len() as usize },
            ..self
        }
    }

    /// The state after tab: four spaces in code, else the next prefix of the
    /// line.
    #[verifier::opaque]
    pub open spec fn tab_pressed(self, shift: bool) -> StateModel {
        if in_code(self.text(), self.cursor()) {
            self.inserted(encode_utf8("    "@))
        } else if shift {
            self.shift_tabbed()
        } else {
            self.tabbed()
        }
    }

    /// The state after a command that changes the text or the selection in
    /// place; `None` when it is no such command.
    #[verifier::opaque]
    pub open spec fn edited(self, c: Command) -> Option<StateModel> {
        match c {
            Command::DeleteBackward => Some(self.backspaced()),
            Command::DeleteForward => Some(self.deleted_forward()),
            Command::Tab => Some(self.tab_pressed(false)),
            Command::ShiftTab => Some(self.tab_pressed(true)),
            Command::SelectAll => Some(self.all_selected()),
            Command::Undo => Some(self.undone()),
            Command::Redo => Some(self.redone()),
            _ => None,
        }
    }

    /// The state after a text from `offset` to the cursor made way for `t`.
    #[verifier::opaque]
    pub open spec fn completed(self, offset: usize, t: Seq<u8>) -> StateModel {
        let cleared = self.buffer.delete(offset as int, self.cursor() as int, self.cursor());
        self.holding(cleared.insert(offset as int, t, offset)).at((offset + t.len()) as usize)
    }

    /// The state after a character was typed, with what it completes: the space
    /// after a quote marker, the closing fence of a code block. While a character
    /// is being composed nothing is completed.
    #[verifier::opaque]
    pub open spec fn typed(self, c: Seq<char>, composing: bool) -> StateModel {
        let first = if c == " "@ {
            self.inserted(seq![SPACE])
        } else {
            self.inserted(encode_utf8(c))
        };
        let second = if !composing && c == ">"@ && first.quote_lacks_space() {
            first.inserted(seq![SPACE])
        } else {
            first
        };
        if !composing && (c == "`"@ || c == "~"@) {
            second.fence_closed()
        } else {
            second
        }
    }
}

impl EditorModel {
    /// The editor after the cursor was moved, to be brought into sight.
    pub open spec fn moved_to(self, offset: int, extend: bool) -> EditorModel {
        self.with_state(self.state.moved_to(offset as usize, extend)).scrolling()
    }

    /// The editor after a character was typed, and whether it was: a space is
    /// refused where it may not stand.
    pub open spec fn typed(self, c: Seq<char>) -> (EditorModel, bool) {
        if c == " "@ && !self.state.takes_space() {
            (self, false)
        } else {
            (self.with_state(self.state.typed(c, self.flags.composing)).scrolling(), true)
        }
    }

    /// Whether a key means nothing now: while input is blocked, and while a
    /// character is being composed what would interfere.
    pub open spec fn ignores(self, k: KeyModel) -> bool {
        self.flags.input_blocked || (self.flags.composing && (k.control || k.platform || k.alt || k.key
            == Key::Backspace || k.key == Key::Delete || k.key == Key::Enter || k.key == Key::Tab))
    }

    /// The editor after the selected suggestion was accepted.
    pub open spec fn accepted(self) -> EditorModel {
        let ac = self.completion->0;
        let t = replacement(ac.suggestions[ac.selected_index as int]);
        EditorModel {
            completion: None,
            ..self.with_state(self.state.completed(ac.trigger_offset, t))
        }
    }

    /// Whether a key accepts the selected suggestion.
    pub open spec fn accepts(self, k: KeyModel) -> bool {
        !self.ignores(k) && (k.key == Key::Enter || k.key == Key::Tab) && self.offers()
    }

    /// Whether there are suggestions.
    pub open spec fn offers(self) -> bool {
        self.completion matches Some(ac) && ac.suggestions.len() > 0
    }

    /// Whether the place where the completion began lies before the cursor, at a
    /// character boundary.
    pub open spec fn trigger_fits(self) -> bool {
        self.completion matches Some(ac) && ac.trigger_offset <= self.cursor() && boundary(
            self.text(),
            ac.trigger_offset as int,
        )
    }

    /// The editor after a key that the completion takes; `None` when it takes
    /// none.
    pub open spec fn completion_key(self, key: Key) -> Option<EditorModel> {
        match self.completion {
            Some(ac) => match key {
                Key::Escape => Some(EditorModel { completion: None, ..self }),
                Key::Up => if self.offers() {
                    Some(EditorModel { completion: Some(ac.selecting_previous()), ..self })
                } else {
                    None
                },
                Key::Down => if self.offers() {
                    Some(EditorModel { completion: Some(ac.selecting_next()), ..self })
                } else {
                    None
                },
                Key::Enter => if self.offers() {
                    Some(self.accepted())
                } else {
                    None
                },
                Key::Tab => if self.offers() {
                    Some(self.accepted())
                } else {
                    None
                },
                _ => None,
            },
            None => None,
        }
    }

    /// Where a command moves the cursor; `None` when it moves it nowhere.
    #[verifier::opaque]
    pub open spec fn target(self, c: Command) -> Option<int> {
        let (text, at) = (self.text(), self.cursor() as int);
        match c {
            Command::Move(d) => Some(step(text, at, d)),
            Command::LineStart => Some(line_begin(text, at)),
            Command::TextStart => Some(0),
            Command::LineEnd => Some(line_finish(text, at)),
            Command::TextEnd => Some(text.len() as int),
            _ => None,
        }
    }

    /// The editor after a command that decides on changes under review; `None`
    /// when it is no such command.
    #[verifier::opaque]
    pub open spec fn decided(self, c: Command) -> Option<EditorModel> {
        match c {
            Command::AcceptAllHunks => Some(self.all_accepted()),
            Command::AcceptHunk => Some(self.hunk_accepted()),
            Command::RejectAllHunks => Some(self.all_rejected()),
            Command::RejectHunk => Some(self.hunk_rejected()),
            _ => None,
        }
    }

    /// The editor after a command that opens a line; `None` when it is no such
    /// command.
    #[verifier::opaque]
    pub open spec fn opened(self, c: Command) -> Option<EditorModel> {
        let s = self.state;
        match c {
            Command::Enter => Some(self.with_state(s.inserted(seq![NEWLINE])).scrolling()),
            Command::ShiftEnter => Some(
                self.with_state(s.new_line(s.next_line_start())).scrolling(),
            ),
            Command::ShiftAltEnter => Some(
                self.with_state(s.new_line(s.nested_line_start())).scrolling(),
            ),
            _ => None,
        }
    }

    /// What a command asks to be done outside the editor. Copying and cutting put
    /// the selected text on the clipboard.
    #[verifier::opaque]
    pub open spec fn effect_of(self, c: Command) -> EffectModel {
        match c {
            Command::Copy => self.clipped(),
            Command::Cut => self.clipped(),
            Command::Paste => EffectModel::ReadClipboard,
            Command::Save => EffectModel::Save,
            Command::RefreshRefs => EffectModel::RefreshRefs,
            _ => EffectModel::Nothing,
        }
    }

    /// The selected text on its way to the clipboard.
    pub open spec fn clipped(self) -> EffectModel {
        if self.state.collapsed() {
            EffectModel::Nothing
        } else {
            EffectModel::WriteClipboard(decode_utf8(self.state.selected()))
        }
    }

    /// The editor after a command, and what it asks for.
    pub open spec fn commanded(self, c: Command, k: KeyModel) -> (EditorModel, KeyOutcomeModel) {
        let outcome = KeyOutcomeModel { redraw: true, effect: self.effect_of(c) };
        if let Some(offset) = self.target(c) {
            (self.moved_to(offset, k.shift), outcome)
        } else if let Some(m) = self.decided(c) {
            (m, outcome)
        } else if let Some(m) = self.opened(c) {
            (m, outcome)
        } else if let Some(s) = self.state.edited(c) {
            (self.with_state(s), outcome)
        } else if c == Command::Cut && !self.state.collapsed() {
            (self.with_state(self.state.unselected()), outcome)
        } else if c == Command::Type && k.key_char is Some {
            let (m, typed) = self.typed(k.key_char->0);
            (m, KeyOutcomeModel { redraw: typed, effect: self.effect_of(c) })
        } else {
            (self, outcome)
        }
    }

    /// The editor after a key, and what it asks for.
    pub open spec fn pressed(self, k: KeyModel) -> (EditorModel, KeyOutcomeModel) {
        if self.ignores(k) {
            (self, KeyOutcomeModel { redraw: false, effect: EffectModel::Nothing })
        } else {
            match self.completion_key(k.key) {
                Some(m) => (m, KeyOutcomeModel { redraw: true, effect: EffectModel::Nothing }),
                None => self.commanded(command_of(k, self.diff is Some), k),
            }
        }
    }
}

/// What a key stands for.
fn find_command(k: &Keystroke, reviewing: bool) -> (r: Command)
    ensures
        r == command_of(k@, reviewing),
{
    let command: bool = k.control || k.platform;
    match key_from_name(k.key.as_str()) {
        Key::Y => if command && reviewing {
            if k.shift {
                Command::AcceptAllHunks
            } else {
                Command::AcceptHunk
            }
        } else if k.control {
            Command::Redo
        } else {
            Command::Type
        },
        Key::N => if command && reviewing {
            if k.shift {
                Command::RejectAllHunks
            } else {
                Command::RejectHunk
            }
        } else {
            Command::Type
        },
        Key::Backspace => Command::DeleteBackward,
        Key::Delete => Command::DeleteForward,
        Key::Left => Command::Move(Direction::Left),
        Key::Right => Command::Move(Direction::Right),
        Key::Up => Command::Move(Direction::Up),
        Key::Down => Command::Move(Direction::Down),
        Key::Home => if command {
            Command::TextStart
        } else {
            Command::LineStart
        },
        Key::End => if command {
            Command::TextEnd
        } else {
            Command::LineEnd
        },
        Key::Enter => if k.shift && k.alt {
            Command::ShiftAltEnter
        } else if k.shift {
            Command::ShiftEnter
        } else {
            Command::Enter
        },
        Key::Tab => if k.shift {
            Command::ShiftTab
        } else {
            Command::Tab
        },
        Key::A => if command {
            Command::SelectAll
        } else {
            Command::Type
        },
        Key::C => if command {
            Command::Copy
        } else {
            Command::Type
        },
        Key::X => if command {
            Command::Cut
        } else {
            Command::Type
        },
        Key::V => if command {
            Command::Paste
        } else {
            Command::Type
        },
        Key::Z => if command {
            if k.shift {
                Command::Redo
            } else {
                Command::Undo
            }
        } else {
            Command::Type
        },
        Key::S => if command {
            Command::Save
        } else {
            Command::Type
        },
        Key::R => if command {
            Command::RefreshRefs
        } else {
            Command::Type
        },
        Key::Escape => Command::Type,
        Key::Other => Command::Type,
    }
}

/// What a suggestion writes.
fn replacement_bytes(s: &AutocompleteSuggestion) -> (r: Vec<u8>)
    ensures
        r@ == replacement(s@),
        valid_utf8(r@),
{
    let mut v: Vec<u8> = Vec::new();
    match s {
        AutocompleteSuggestion::IssueOrPr { number, .. } => {
            v.push(35);
            let digits: Vec<u8> = write_number(*number);
            proof {
                assert(v@ =~= seq![35u8]);
                lemma_ascii_valid(v@);
                valid_utf8_concat(v@, digits@);
            }
            push_bytes(&mut v, digits.as_slice());
        },
        AutocompleteSuggestion::User { login, .. } => {
            v.push(64);
            proof {
                assert(v@ =~= seq![64u8]);
                lemma_ascii_valid(v@);
                lemma_str_valid(login@);
                valid_utf8_concat(v@, encode_utf8(login@));
            }
            push_bytes(&mut v, login.as_str().as_bytes());
        },
    }
    v
}

impl EditorState {
    /// Puts the cursor at an offset, with the selection extended to it or not.
    pub fn move_cursor(&mut self, to: Cursor, extend: bool)
        requires
            old(self).wf(),
        ensures
            final(self).wf(),
            final(self)@ == old(self)@.moved_to(to.offset, extend),
            final(self).buffer == old(self).buffer,
            boundary(old(self)@.text(), to.offset as int) && (extend ==> boundary(
                old(self)@.text(),
                old(self)@.selection.anchor as int,
            )) ==> final(self).steady(),
    {
        if extend {
            self.selection = self.selection.extend_to(to.offset);
        } else {
            self.selection = Selection::new(to.offset, to.offset);
        }
    }

    /// Replaces the text from an offset to the cursor.
    fn complete_with(&mut self, offset: usize, t: &[u8])
        requires
            old(self).wf(),
            offset <= old(self)@.cursor() <= old(self)@.text().len(),
            boundary(old(self)@.text(), offset as int),
            valid_utf8(t@),
        ensures
            final(self).steady(),
            final(self)@ == old(self)@.completed(offset, t@),
    {
        reveal(StateModel::completed);
        let ghost text = self@.text();
        let cursor: usize = self.cursor().offset;
        proof {
            self.buffer.lemma_wf();
            lemma_floor(text, cursor as int);
            lemma_floor_monotone(text, offset as int, cursor as int);
            lemma_floor(text, offset as int);
            lemma_ascii_valid(Seq::<u8>::empty());
            let end = floor_boundary(text, cursor as int);
            lemma_boundary_after(text, offset as int, end, Seq::<u8>::empty(), offset as int);
        }
        self.buffer.delete(offset, cursor, cursor);
        let ghost cleared = self@.text();
        proof {
            lemma_boundary_after(cleared, offset as int, offset as int, t@, offset as int);
            lemma_spliced_back(cleared, offset as int, offset as int, t@);
        }
        self.buffer.insert(offset, t, offset);
        proof {
            self.buffer.lemma_wf();
        }
        let to: usize = offset + t.len();
        self.selection = Selection::new(to, to);
    }

    /// Tab: four spaces in code, else the next or the previous prefix of the
    /// line.
    fn press_tab(&mut self, shift: bool)
        requires
            old(self).ready(),
        ensures
            final(self).ready(),
            final(self)@ == old(self)@.tab_pressed(shift),
            old(self).steady() ==> final(self).steady(),
    {
        reveal(StateModel::tab_pressed);
        if self.cursor_in_code_block() {
            self.insert_text("    ");
        } else if shift {
            self.shift_tab();
        } else {
            self.tab();
        }
    }

    /// Changes the text or the selection in place, if the command says so.
    /// Returns whether it did.
    fn run_edit(&mut self, c: Command) -> (r: bool)
        requires
            old(self).ready(),
        ensures
            final(self).wf(),
            r == old(self)@.edited(c) is Some,
            r ==> final(self)@ == old(self)@.edited(c)->0,
            !r ==> final(self)@ == old(self)@ && final(self).ready(),
            old(self).steady() ==> final(self).steady(),
    {
        reveal(StateModel::edited);
        match c {
            Command::DeleteBackward => {
                self.delete_backward();
                true
            },
            Command::DeleteForward => {
                self.delete_forward();
                true
            },
            Command::Tab => {
                self.press_tab(false);
                true
            },
            Command::ShiftTab => {
                self.press_tab(true);
                true
            },
            Command::SelectAll => {
                self.selection = Selection::select_all(&self.buffer);
                true
            },
            Command::Undo => {
                let any: bool = self.undo();
                true
            },
            Command::Redo => {
                let any: bool = self.redo();
                true
            },
            _ => false,
        }
    }

    /// Types a character, with what it completes.
    fn type_char(&mut self, c: &str, composing: bool)
        requires
            old(self).ready(),
            c@ == " "@ ==> old(self)@.takes_space(),
        ensures
            final(self).ready(),
            final(self)@ == old(self)@.typed(c@, composing),
            old(self).steady() ==> final(self).steady(),
    {
        reveal(StateModel::typed);
        if str_eq(c, " ") {
            let taken: bool = self.try_insert_space();
        } else {
            self.insert_text(c);
        }
        if !composing && str_eq(c, ">") {
            let completed: bool = self.maybe_complete_blockquote_marker();
        }
        if !composing && (str_eq(c, "`") || str_eq(c, "~")) {
            self.maybe_complete_code_fence();
        }
    }
}

impl Editor {
    /// Whether a key means nothing now.
    fn is_key_ignored(&self, k: &Keystroke) -> (r: bool)
        ensures
            r == self@.ignores(k@),
    {
        if self.flags.input_blocked {
            return true;
        }
        if !self.flags.composing {
            return false;
        }
        if k.control || k.platform || k.alt {
            return true;
        }
        match key_from_name(k.key.as_str()) {
            Key::Backspace => true,
            Key::Delete => true,
            Key::Enter => true,
            Key::Tab => true,
            _ => false,
        }
    }

    /// Whether the place where the completion began lies before the cursor, at a
    /// character boundary.
    pub fn is_trigger_fitting(&self) -> (r: bool)
        ensures
            r == self@.trigger_fits(),
    {
        match &self.autocomplete {
            Some(ac) => ac.trigger_offset <= self.state.selection.head && is_boundary(
                self.state.buffer.bytes(),
                ac.trigger_offset,
            ),
            None => false,
        }
    }

    /// Whether the selection fits the text.
    pub fn is_ready(&self) -> (r: bool)
        ensures
            r == self.state.selection.fits(self@.text()),
    {
        let s: Selection = self.state.selection;
        let text: &[u8] = self.state.buffer.bytes();
        s.head <= text.len() && s.anchor <= text.len() && (s.anchor == s.head || (is_boundary(
            text,
            s.anchor,
        ) && is_boundary(text, s.head)))
    }

    /// Writes the selected suggestion in place of what was typed. Returns whether
    /// there was one.
    pub fn accept_autocomplete_suggestion(&mut self) -> (r: bool)
        requires
            old(self).wf(),
            old(self)@.offers() ==> old(self).ready() && old(self)@.trigger_fits(),
        ensures
            final(self).wf(),
            r == old(self)@.offers(),
            r ==> final(self)@ == old(self)@.accepted(),
            !r ==> final(self)@ == (EditorModel { completion: None, ..old(self)@ }),
            r ==> final(self).steady(),
            !r ==> final(self).state == old(self).state,
    {
        let ghost m = self@;
        let taken: Option<AutocompleteState> = self.autocomplete.take();
        match taken {
            Some(ac) => {
                if ac.suggestions.len() == 0 {
                    return false;
                }
                assert(ac@.suggestions[ac.selected_index as int]
                    == ac.suggestions@[ac.selected_index as int]@);
                let t: Vec<u8> = replacement_bytes(&ac.suggestions[ac.selected_index]);
                self.state.complete_with(ac.trigger_offset, t.as_slice());
                true
            },
            None => false,
        }
    }

    /// Lets the completion take a key. Returns whether it did.
    fn navigate_completion(&mut self, key: Key) -> (r: bool)
        requires
            old(self).ready(),
            (key == Key::Enter || key == Key::Tab) && old(self)@.offers()
                ==> old(self)@.trigger_fits(),
        ensures
            final(self).wf(),
            r == old(self)@.completion_key(key) is Some,
            r ==> final(self)@ == old(self)@.completion_key(key)->0,
            !r ==> *final(self) == *old(self),
            old(self).steady() ==> final(self).steady(),
    {
        let has: bool = match &self.autocomplete {
            Some(ac) => ac.suggestions.len() > 0,
            None => {
                return false;
            },
        };
        match key {
            Key::Escape => {
                self.autocomplete = None;
                true
            },
            Key::Up => {
                if has {
                    self.step_completion(false);
                }
                has
            },
            Key::Down => {
                if has {
                    self.step_completion(true);
                }
                has
            },
            Key::Enter => {
                if has {
                    let accepted: bool = self.accept_autocomplete_suggestion();
                }
                has
            },
            Key::Tab => {
                if has {
                    let accepted: bool = self.accept_autocomplete_suggestion();
                }
                has
            },
            _ => false,
        }
    }

    /// Selects the next or the previous suggestion.
    fn step_completion(&mut self, on: bool)
        requires
            old(self).wf(),
            old(self)@.offers(),
        ensures
            final(self).wf(),
            final(self).state == old(self).state,
            final(self)@ == (EditorModel {
                completion: Some(
                    if on {
                        old(self)@.completion->0.selecting_next()
                    } else {
                        old(self)@.completion->0.selecting_previous()
                    },
                ),
                ..old(self)@
            }),
    {
        let taken: Option<AutocompleteState> = self.autocomplete.take();
        if let Some(ac) = taken {
            let mut next: AutocompleteState = ac;
            if on {
                next.select_next();
            } else {
                next.select_previous();
            }
            self.autocomplete = Some(next);
        }
    }

    /// Moves the cursor and asks to bring it into sight.
    #[verifier::spinoff_prover]
    #[verifier::rlimit(30)]
    fn move_cursor(&mut self, to: Cursor, extend: bool)
        requires
            old(self).wf(),
        ensures
            final(self).wf(),
            final(self)@ == old(self)@.moved_to(to.offset as int, extend),
            old(self).steady() && boundary(old(self)@.text(), to.offset as int)
                ==> final(self).steady(),
    {
        self.state.move_cursor(to, extend);
        self.flags.scroll_to_cursor_pending = true;
    }

    /// Moves the cursor one step.
    pub fn move_in_direction(&mut self, direction: Direction, extend: bool)
        requires
            old(self).ready(),
        ensures
            final(self).wf(),
            final(self)@ == old(self)@.moved_to(
                step(old(self)@.text(), old(self)@.cursor() as int, direction),
                extend,
            ),
            old(self).steady() ==> final(self).steady(),
    {
        let c: Cursor = self.state.cursor();
        let to: Cursor = match direction {
            Direction::Left => c.move_left(&self.state.buffer),
            Direction::Right => c.move_right(&self.state.buffer),
            Direction::Up => c.move_up(&self.state.buffer),
            Direction::Down => c.move_down(&self.state.buffer),
        };
        self.move_cursor(to, extend);
    }

    /// Types a character. Returns whether it was typed.
    fn type_key(&mut self, c: &str) -> (r: bool)
        requires
            old(self).ready(),
        ensures
            final(self).wf(),
            (final(self)@, r) == old(self)@.typed(c@),
            old(self).steady() ==> final(self).steady(),
    {
        if str_eq(c, " ") && !self.state.can_take_space() {
            return false;
        }
        self.state.type_char(c, self.flags.composing);
        self.flags.scroll_to_cursor_pending = true;
        true
    }

    /// Where a command moves the cursor.
    fn find_target(&self, c: Command) -> (r: Option<Cursor>)
        requires
            self.ready(),
        ensures
            match r {
                Some(to) => self@.target(c) == Some(to.offset as int) && (self.steady()
                    ==> boundary(self@.text(), to.offset as int)),
                None => self@.target(c) is None,
            },
    {
        reveal(EditorModel::target);
        let at: Cursor = self.state.cursor();
        match c {
            Command::Move(d) => Some(
                match d {
                    Direction::Left => at.move_left(&self.state.buffer),
                    Direction::Right => at.move_right(&self.state.buffer),
                    Direction::Up => at.move_up(&self.state.buffer),
                    Direction::Down => at.move_down(&self.state.buffer),
                },
            ),
            Command::LineStart => Some(at.move_to_line_start(&self.state.buffer)),
            Command::TextStart => Some(at.move_to_start()),
            Command::LineEnd => Some(at.move_to_line_end(&self.state.buffer)),
            Command::TextEnd => Some(at.move_to_end(&self.state.buffer)),
            _ => None,
        }
    }

    /// Decides on changes under review, if the command says so. Returns whether
    /// it did.
    fn run_review(&mut self, c: Command) -> (r: bool)
        requires
            old(self).wf(),
        ensures
            final(self).wf(),
            r == old(self)@.decided(c) is Some,
            r ==> final(self)@ == old(self)@.decided(c)->0,
            !r ==> *final(self) == *old(self),
            old(self).steady() ==> final(self).steady(),
    {
        reveal(EditorModel::decided);
        match c {
            Command::AcceptAllHunks => {
                let any: bool = self.accept_all_hunks();
                true
            },
            Command::AcceptHunk => {
                let any: bool = self.accept_current_hunk();
                true
            },
            Command::RejectAllHunks => {
                let any: bool = self.reject_all_hunks();
                true
            },
            Command::RejectHunk => {
                let any: bool = self.reject_current_hunk();
                true
            },
            _ => false,
        }
    }

    /// Types a newline.
    pub fn enter(&mut self)
        requires
            old(self).ready(),
        ensures
            final(self).ready(),
            final(self)@ == old(self)@.with_state(
                old(self)@.state.inserted(seq![NEWLINE]),
            ).scrolling(),
            old(self).steady() ==> final(self).steady(),
    {
        self.state.enter();
        self.flags.scroll_to_cursor_pending = true;
    }

    /// Opens a new line in the same containers.
    pub fn shift_enter(&mut self)
        requires
            old(self).ready(),
        ensures
            final(self).ready(),
            final(self)@ == old(self)@.with_state(
                old(self)@.state.new_line(old(self)@.state.next_line_start()),
            ).scrolling(),
            old(self).steady() ==> final(self).steady(),
    {
        self.state.shift_enter();
        self.flags.scroll_to_cursor_pending = true;
    }

    /// Opens a new line for a paragraph nested under this one.
    pub fn shift_alt_enter(&mut self)
        requires
            old(self).ready(),
        ensures
            final(self).ready(),
            final(self)@ == old(self)@.with_state(
                old(self)@.state.new_line(old(self)@.state.nested_line_start()),
            ).scrolling(),
            old(self).steady() ==> final(self).steady(),
    {
        self.state.shift_alt_enter();
        self.flags.scroll_to_cursor_pending = true;
    }

    /// Opens a line, if the command says so. Returns whether it did.
    fn run_enter(&mut self, c: Command) -> (r: bool)
        requires
            old(self).ready(),
        ensures
            final(self).wf(),
            r == old(self)@.opened(c) is Some,
            r ==> final(self)@ == old(self)@.opened(c)->0,
            !r ==> *final(self) == *old(self),
            old(self).steady() ==> final(self).steady(),
    {
        reveal(EditorModel::opened);
        match c {
            Command::Enter => {
                self.enter();
                true
            },
            Command::ShiftEnter => {
                self.shift_enter();
                true
            },
            Command::ShiftAltEnter => {
                self.shift_alt_enter();
                true
            },
            _ => false,
        }
    }

    /// Changes the text or the selection in place, if the command says so.
    /// Returns whether it did.
    fn run_edit(&mut self, c: Command) -> (r: bool)
        requires
            old(self).ready(),
        ensures
            final(self).wf(),
            r == old(self)@.state.edited(c) is Some,
            r ==> final(self)@ == old(self)@.with_state(old(self)@.state.edited(c)->0),
            !r ==> final(self)@ == old(self)@ && final(self).ready(),
            old(self).steady() ==> final(self).steady(),
    {
        self.state.run_edit(c)
    }

    /// What a command asks to be done outside the editor.
    fn find_effect(&self, c: Command) -> (r: KeyEffect)
        requires
            self.ready(),
        ensures
            r@ == self@.effect_of(c),
    {
        reveal(EditorModel::effect_of);
        match c {
            Command::Copy => self.clip(),
            Command::Cut => self.clip(),
            Command::Paste => KeyEffect::ReadClipboard,
            Command::Save => KeyEffect::Save,
            Command::RefreshRefs => KeyEffect::RefreshRefs,
            _ => KeyEffect::Nothing,
        }
    }

    fn clip(&self) -> (r: KeyEffect)
        requires
            self.ready(),
        ensures
            r@ == self@.clipped(),
    {
        if self.state.selection.is_collapsed() {
            KeyEffect::Nothing
        } else {
            KeyEffect::WriteClipboard(self.state.selected_text())
        }
    }

    /// Runs a command.
    fn run_command(&mut self, c: Command, k: &Keystroke) -> (r: KeyOutcome)
        requires
            old(self).ready(),
        ensures
            final(self).wf(),
            (final(self)@, r@) == old(self)@.commanded(c, k@),
            old(self).steady() ==> final(self).steady(),
    {
        let effect: KeyEffect = self.find_effect(c);
        if let Some(to) = self.find_target(c) {
            self.move_cursor(to, k.shift);
        } else if self.run_review(c) {
        } else if self.run_enter(c) {
        } else if self.run_edit(c) {
        } else if c == Command::Cut && !self.state.selection.is_collapsed() {
            self.state.delete_selection();
        } else if c == Command::Type {
            if let Some(t) = &k.key_char {
                let typed: bool = self.type_key(t.as_str());
                return KeyOutcome { redraw: typed, effect };
            }
        }
        KeyOutcome { redraw: true, effect }
    }

    /// A key was pressed.
    pub fn on_key_down(&mut self, k: &Keystroke) -> (r: KeyOutcome)
        requires
            old(self).wf(),
            !old(self)@.ignores(k@) ==> old(self).ready(),
            old(self)@.accepts(k@) ==> old(self)@.trigger_fits(),
        ensures
            final(self).wf(),
            (final(self)@, r@) == old(self)@.pressed(k@),
            old(self).steady() ==> final(self).steady(),
            old(self)@.completion is None ==> final(self)@.completion is None,
    {
        proof {
            if self@.completion is None {
                law_keys_start_no_completion(self@, k@);
            }
        }
        if self.is_key_ignored(k) {
            return KeyOutcome { redraw: false, effect: KeyEffect::Nothing };
        }
        let key: Key = key_from_name(k.key.as_str());
        if self.navigate_completion(key) {
            return KeyOutcome { redraw: true, effect: KeyEffect::Nothing };
        }
        let c: Command = find_command(k, self.diff_state.is_some());
        self.run_command(c, k)
    }
}

// ---------------------------------------------------------------------------
// What keys keep to
// ---------------------------------------------------------------------------

/// While input is blocked a key changes nothing and asks for nothing.
pub proof fn law_blocked_input_takes_no_key(m: EditorModel, k: KeyModel)
    requires
        m.flags.input_blocked,
    ensures
        m.pressed(k).0 == m,
        m.pressed(k).1 == (KeyOutcomeModel { redraw: false, effect: EffectModel::Nothing }),
{
}

/// A key starts no completion: without one under way there is none after it.
pub proof fn law_keys_start_no_completion(m: EditorModel, k: KeyModel)
    requires
        m.completion is None,
    ensures
        m.pressed(k).0.completion is None,
{
    reveal(EditorModel::target);
    reveal(EditorModel::decided);
    reveal(EditorModel::opened);
    reveal(EditorModel::effect_of);
}

/// Accepting a suggestion replaces what was typed, from where the completion
/// began to the cursor, and nothing else; the cursor stands behind it then.
pub proof fn law_suggestion_replaces_what_was_typed(m: EditorModel)
    requires
        m.state.buffer.ok(),
        m.offers(),
        m.trigger_fits(),
        m.completion->0.selected_index < m.completion->0.suggestions.len(),
        m.cursor() <= m.text().len(),
        boundary(m.text(), m.cursor() as int),
        ({
            let ac = m.completion->0;
            m.text().len() + replacement(ac.suggestions[ac.selected_index as int]).len()
                <= usize::MAX
        }),
    ensures
        ({
            let ac = m.completion->0;
            let t = replacement(ac.suggestions[ac.selected_index as int]);
            m.accepted().text() == spliced(
                m.text(),
                ac.trigger_offset as int,
                m.cursor() as int,
                t,
            ) && m.accepted().cursor() == ac.trigger_offset + t.len() && m.accepted().completion
                is None
        }),
{
    reveal(StateModel::completed);
    let ac = m.completion->0;
    let t = replacement(ac.suggestions[ac.selected_index as int]);
    let (a, b) = (ac.trigger_offset as int, m.cursor() as int);
    let text = m.text();
    lemma_ascii_valid(Seq::<u8>::empty());
    lemma_boundary_after(text, a, b, Seq::<u8>::empty(), a);
    let cleared = spliced(text, a, b, Seq::<u8>::empty());
    lemma_floor(cleared, a);
    assert(spliced(cleared, a, a, t) =~= spliced(text, a, b, t));
}

/// The sign that a suggestion's reference starts with: a number sign for an issue,
/// an at sign for a user.
pub open spec fn sign_of_suggestion(s: SuggestionModel) -> u8 {
    match s {
        SuggestionModel::IssueOrPr { .. } => 35,
        SuggestionModel::User { .. } => 64,
    }
}

/// What an accepted suggestion writes starts with its sign, where the completion
/// began. For an issue the digits of its number follow, without a leading zero, for a
/// user the login. The cursor stands behind that. What stood before and after what
/// was typed stays.
pub proof fn law_accepted_suggestion_is_a_reference(m: EditorModel)
    requires
        m.state.buffer.ok(),
        m.offers(),
        m.trigger_fits(),
        m.completion->0.selected_index < m.completion->0.suggestions.len(),
        m.cursor() <= m.text().len(),
        boundary(m.text(), m.cursor() as int),
        ({
            let ac = m.completion->0;
            m.text().len() + replacement(ac.suggestions[ac.selected_index as int]).len()
                <= usize::MAX
        }),
    ensures
        ({
            let ac = m.completion->0;
            let s = ac.suggestions[ac.selected_index as int];
            let o = ac.trigger_offset as int;
            let after = m.accepted().text();
            let c = m.accepted().cursor() as int;
            &&& o < c <= after.len()
            &&& after[o] == sign_of_suggestion(s)
            &&& s matches SuggestionModel::User { login, .. } ==> after.subrange(o + 1, c)
                == encode_utf8(login)
            &&& s matches SuggestionModel::IssueOrPr { number, .. } ==> digits_value(
                after.subrange(o + 1, c),
            ) == number && o + 1 < c && (after[o + 1] != 48 || c == o + 2) && forall|i: int|
                o < i < c ==> digit(#[trigger] after[i])
            &&& after.subrange(0, o) == m.text().subrange(0, o)
            &&& after.subrange(c, after.len() as int) == m.text().subrange(
                m.cursor() as int,
                m.text().len() as int,
            )
        }),
{
    law_suggestion_replaces_what_was_typed(m);
    let ac = m.completion->0;
    let s = ac.suggestions[ac.selected_index as int];
    let t = replacement(s);
    let o = ac.trigger_offset as int;
    let after = m.accepted().text();
    let c = o + t.len();
    assert(after =~= spliced(m.text(), o, m.cursor() as int, t));
    assert(after.subrange(0, o) =~= m.text().subrange(0, o));
    assert(after.subrange(c, after.len() as int) =~= m.text().subrange(
        m.cursor() as int,
        m.text().len() as int,
    ));
    assert(after[o] == t[0]);
    match s {
        SuggestionModel::User { login, .. } => {
            assert(after.subrange(o + 1, c) =~= encode_utf8(login));
        },
        SuggestionModel::IssueOrPr { number, .. } => {
            let d = decimal(number as nat);
            lemma_decimal_value(number as nat);
            lemma_no_leading_zero(number as nat);
            assert(after.subrange(o + 1, c) =~= d);
            assert forall|i: int| o < i < c implies digit(#[trigger] after[i]) by {
                assert(after[i] == d[i - o - 1]);
            }
            assert(after[o + 1] == d[0]);
        },
    }
}

proof fn lemma_no_leading_zero(n: nat)
    ensures
        decimal(n).len() >= 1,
        decimal(n)[0] != 48 || decimal(n).len() == 1,
        n > 0 ==> decimal(n)[0] != 48,
    decreases n,
{
    if n >= 10 {
        lemma_no_leading_zero(n / 10);
    }
}

} // verus!
