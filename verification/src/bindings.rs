//! What keys, clicks and actions do, told from the outside.

use vstd::prelude::*;
use vstd::utf8::*;

use crate::action::{Direction, EditorAction, EffectModel, Key, KeyModel};
use crate::buffer::spliced;
use crate::cursor::{above, below, left_of, right_of};
use crate::editor::EditorModel;
use crate::keys::{command_of, Command};
use crate::moves::in_word;
use crate::outline::in_code;
use crate::state::StateModel;
use crate::text::lemma_floor;

verus! {

/// Each command comes from its own key, with what must be held for it, and every
/// other key types.
pub proof fn law_commands_have_their_keys(k: KeyModel, reviewing: bool)
    ensures
        ({
            let c = command_of(k, reviewing);
            let held = k.control || k.platform;
            let decides = held && reviewing;
            &&& c == Command::AcceptAllHunks <==> k.key == Key::Y && decides && k.shift
            &&& c == Command::AcceptHunk <==> k.key == Key::Y && decides && !k.shift
            &&& c == Command::RejectAllHunks <==> k.key == Key::N && decides && k.shift
            &&& c == Command::RejectHunk <==> k.key == Key::N && decides && !k.shift
            &&& c == Command::Redo <==> (k.key == Key::Z && held && k.shift) || (k.key == Key::Y
                && k.control && !decides)
            &&& c == Command::Undo <==> k.key == Key::Z && held && !k.shift
            &&& c == Command::Copy <==> k.key == Key::C && held
            &&& c == Command::Cut <==> k.key == Key::X && held
            &&& c == Command::Paste <==> k.key == Key::V && held
            &&& c == Command::Save <==> k.key == Key::S && held
            &&& c == Command::SelectAll <==> k.key == Key::A && held
            &&& c == Command::RefreshRefs <==> k.key == Key::R && held
            &&& c == Command::DeleteBackward <==> k.key == Key::Backspace
            &&& c == Command::DeleteForward <==> k.key == Key::Delete
            &&& c == Command::ShiftAltEnter <==> k.key == Key::Enter && k.shift && k.alt
            &&& c == Command::ShiftEnter <==> k.key == Key::Enter && k.shift && !k.alt
            &&& c == Command::Enter <==> k.key == Key::Enter && !k.shift
            &&& c == Command::ShiftTab <==> k.key == Key::Tab && k.shift
            &&& c == Command::Tab <==> k.key == Key::Tab && !k.shift
            &&& c == Command::TextStart <==> k.key == Key::Home && held
            &&& c == Command::LineStart <==> k.key == Key::Home && !held
            &&& c == Command::TextEnd <==> k.key == Key::End && held
            &&& c == Command::LineEnd <==> k.key == Key::End && !held
            &&& c == Command::Move(Direction::Left) <==> k.key == Key::Left
            &&& c == Command::Move(Direction::Right) <==> k.key == Key::Right
            &&& c == Command::Move(Direction::Up) <==> k.key == Key::Up
            &&& c == Command::Move(Direction::Down) <==> k.key == Key::Down
        }),
{
}

/// Whether a key is left to its command: it counts, and no completion takes it.
pub open spec fn commands(m: EditorModel, k: KeyModel) -> bool {
    !m.ignores(k) && m.completion_key(k.key) is None
}

/// A key that moves the cursor changes no text. With shift the selection goes on from
/// where it began, without it nothing is selected.
pub proof fn law_moving_keeps_the_text(m: EditorModel, k: KeyModel)
    requires
        commands(m, k),
        k.key == Key::Left || k.key == Key::Right || k.key == Key::Up || k.key == Key::Down || k.key
            == Key::Home || k.key == Key::End,
    ensures
        ({
            let (r, out) = m.pressed(k);
            &&& r.state.buffer == m.state.buffer
            &&& k.shift ==> r.state.selection.anchor == m.state.selection.anchor
            &&& !k.shift ==> r.state.collapsed()
            &&& r.flags.scroll_to_cursor_pending
            &&& out.redraw
            &&& out.effect == EffectModel::Nothing
        }),
{
    reveal(EditorModel::target);
    reveal(EditorModel::effect_of);
}

/// Home and End go to the ends of the line, and with control or the platform's key to
/// the ends of the text.
pub proof fn law_home_and_end(m: EditorModel, k: KeyModel)
    requires
        commands(m, k),
        m.cursor() <= m.text().len() <= usize::MAX,
    ensures
        ({
            let c = m.pressed(k).0.cursor() as int;
            let held = k.control || k.platform;
            &&& k.key == Key::Home && held ==> c == 0
            &&& k.key == Key::End && held ==> c == m.text().len()
            &&& k.key == Key::Home && !held ==> c <= m.cursor() && (c == 0 || m.text()[c - 1] == 10)
                && forall|i: int| c <= i < m.cursor() ==> m.text()[i] != 10
            &&& k.key == Key::End && !held ==> c >= m.cursor() && (c == m.text().len()
                || m.text()[c] == 10) && forall|i: int| m.cursor() <= i < c ==> m.text()[i] != 10
        }),
{
    reveal(EditorModel::target);
    crate::moves::law_line_ends_at_newlines(m.text(), m.cursor() as int);
}

/// Copying leaves the editor as it is and cutting takes the selected text out; both
/// put it on the clipboard, if anything is selected.
pub proof fn law_copy_and_cut_clip_the_selection(m: EditorModel, k: KeyModel)
    requires
        commands(m, k),
        k.control || k.platform,
        k.key == Key::C || k.key == Key::X,
        m.state.anchored(),
    ensures
        ({
            let (r, out) = m.pressed(k);
            let (a, z) = (m.state.selection.low() as int, m.state.selection.high() as int);
            &&& m.state.collapsed() ==> r == m && out.effect == EffectModel::Nothing
            &&& !m.state.collapsed() ==> out.effect == EffectModel::WriteClipboard(
                decode_utf8(m.text().subrange(a, z)),
            )
            &&& k.key == Key::C ==> r == m
            &&& k.key == Key::X && !m.state.collapsed() ==> r.text() == spliced(
                m.text(),
                a,
                z,
                Seq::<u8>::empty(),
            ) && r.cursor() == a && r.state.collapsed()
        }),
{
    reveal(EditorModel::target);
    reveal(EditorModel::decided);
    reveal(EditorModel::opened);
    reveal(StateModel::edited);
    reveal(EditorModel::effect_of);
    reveal(StateModel::unselected);
    lemma_floor(m.text(), m.state.selection.low() as int);
    lemma_floor(m.text(), m.state.selection.high() as int);
}

/// Keys that ask for something outside leave the editor as it is: pasting reads the
/// clipboard, saving saves and refreshing looks the references up again.
pub proof fn law_outside_keys_change_nothing(m: EditorModel, k: KeyModel)
    requires
        commands(m, k),
        k.control || k.platform,
        k.key == Key::V || k.key == Key::S || k.key == Key::R,
    ensures
        m.pressed(k).0 == m,
        k.key == Key::V ==> m.pressed(k).1.effect == EffectModel::ReadClipboard,
        k.key == Key::S ==> m.pressed(k).1.effect == EffectModel::Save,
        k.key == Key::R ==> m.pressed(k).1.effect == EffectModel::RefreshRefs,
{
    reveal(EditorModel::target);
    reveal(EditorModel::decided);
    reveal(EditorModel::opened);
    reveal(StateModel::edited);
    reveal(EditorModel::effect_of);
}

/// Selecting all selects from the start of the text to its end and changes nothing
/// else.
pub proof fn law_select_all_selects_the_text(m: EditorModel, k: KeyModel)
    requires
        commands(m, k),
        k.control || k.platform,
        k.key == Key::A,
        m.text().len() <= usize::MAX,
    ensures
        ({
            let r = m.pressed(k).0;
            &&& r.state.selection.low() == 0
            &&& r.state.selection.high() == m.text().len()
            &&& r.state.buffer == m.state.buffer
        }),
{
    reveal(EditorModel::target);
    reveal(EditorModel::decided);
    reveal(EditorModel::opened);
    reveal(StateModel::edited);
}

/// In code, tab types four spaces, with shift or without.
pub proof fn law_tab_types_spaces_in_code(m: StateModel, shift: bool)
    requires
        in_code(m.text(), m.cursor()),
    ensures
        m.tab_pressed(shift) == m.inserted(seq![32u8, 32u8, 32u8, 32u8]),
{
    reveal(StateModel::tab_pressed);
    reveal_strlit("    ");
    assert(encode_utf8("    "@) =~= seq![32u8, 32u8, 32u8, 32u8]) by {
        lemma_four_spaces();
    }
}

proof fn lemma_four_spaces()
    ensures
        encode_utf8("    "@) == seq![32u8, 32u8, 32u8, 32u8],
{
    reveal_strlit("    ");
    let s = "    "@;
    assert(is_ascii_chars(s));
    is_ascii_chars_encode_utf8(s);
    assert(encode_utf8(s) =~= seq![32u8, 32u8, 32u8, 32u8]);
}

/// A character that completes nothing is typed and nothing else; so is every
/// character while one is being composed.
pub proof fn law_plain_characters_are_typed(m: StateModel, c: Seq<char>, composing: bool)
    requires
        c.len() != 1 || !(c[0] == ' ' || c[0] == '>' || c[0] == '`' || c[0] == '~') || (composing
            && c[0] != ' '),
    ensures
        m.typed(c, composing) == m.inserted(encode_utf8(c)),
{
    reveal(StateModel::typed);
    reveal_strlit(" ");
    reveal_strlit(">");
    reveal_strlit("`");
    reveal_strlit("~");
}

/// A quote marker gets its space when it is typed, unless one follows, and a code
/// fence its closing fence.
pub proof fn law_typing_completes_quotes_and_fences(m: StateModel, c: char)
    ensures
        ({
            let typed = m.inserted(encode_utf8(seq![c]));
            let r = m.typed(seq![c], false);
            &&& c == '>' ==> r == (if typed.quote_lacks_space() {
                typed.inserted(seq![32u8])
            } else {
                typed
            })
            &&& c == '`' || c == '~' ==> r == typed.fence_closed()
            &&& c == ' ' ==> r == m.inserted(seq![32u8])
        }),
{
    reveal(StateModel::typed);
    reveal_strlit(" ");
    reveal_strlit(">");
    reveal_strlit("`");
    reveal_strlit("~");
    assert(c == ' ' ==> seq![c] =~= " "@);
    assert(c == '>' ==> seq![c] =~= ">"@);
    assert(c == '`' ==> seq![c] =~= "`"@);
    assert(c == '~' ==> seq![c] =~= "~"@);
    assert(seq![c][0] == c);
    assert(" "@[0] == ' ');
    assert(">"@[0] == '>');
    assert("`"@[0] == '`');
    assert("~"@[0] == '~');
}

/// While input is blocked no key counts; while a character is being composed the keys
/// that would edit or command do not.
pub proof fn law_keys_that_do_not_count(m: EditorModel, k: KeyModel)
    ensures
        m.flags.input_blocked ==> m.ignores(k),
        !m.flags.input_blocked && !m.flags.composing ==> !m.ignores(k),
        !m.flags.input_blocked && m.flags.composing ==> (m.ignores(k) <==> k.control || k.platform
            || k.alt || k.key == Key::Backspace || k.key == Key::Delete || k.key == Key::Enter
            || k.key == Key::Tab),
        m.ignores(k) ==> m.pressed(k).0 == m && m.pressed(k).1.effect == EffectModel::Nothing
            && !m.pressed(k).1.redraw,
{
}

/// With a completion open, Escape closes it; while it has suggestions, the arrows go
/// through them and Enter and Tab accept one. All other keys are left to the editor.
pub proof fn law_completion_takes_its_keys(m: EditorModel, key: Key)
    ensures
        ({
            let offers = m.completion matches Some(ac) && ac.suggestions.len() > 0;
            let takes = m.completion is Some && (key == Key::Escape || (offers && (key == Key::Up
                || key == Key::Down || key == Key::Enter || key == Key::Tab)));
            &&& m.completion_key(key) is Some <==> takes
            &&& takes && key == Key::Escape ==> m.completion_key(key) == Some(
                m.with_completion(None),
            )
            &&& takes && key == Key::Up ==> m.completion_key(key) == Some(
                m.with_completion(Some(m.completion->0.selecting_previous())),
            )
            &&& takes && key == Key::Down ==> m.completion_key(key) == Some(
                m.with_completion(Some(m.completion->0.selecting_next())),
            )
            &&& takes && (key == Key::Enter || key == Key::Tab) ==> m.completion_key(key) == Some(
                m.accepted(),
            ) && m.accepted().completion is None
        }),
{
}

/// A click puts the cursor where it is; a second one in a row selects the word there,
/// a third the line, both as far as they go, at the end of the text for a click past
/// it. With shift a click drags the end of the selection. None of it changes the text.
pub proof fn law_clicks_select(m: StateModel, offset: usize, shift: bool, count: usize)
    requires
        m.text().len() <= usize::MAX,
    ensures
        ({
            let r = m.clicked(offset, shift, count);
            let (a, z) = (r.selection.anchor as int, r.selection.head as int);
            let at = if offset < m.text().len() {
                offset as int
            } else {
                m.text().len() as int
            };
            &&& r.buffer == m.buffer
            &&& shift ==> a == m.selection.anchor && z == offset
            &&& !shift && count != 2 && count != 3 ==> a == offset && z == offset
            &&& !shift && (count == 2 || count == 3) ==> a <= at <= z <= m.text().len()
            &&& !shift && count == 2 ==> {
                &&& forall|i: int| a <= i < z ==> in_word(#[trigger] m.text()[i])
                &&& a > 0 ==> !in_word(m.text()[a - 1])
                &&& z < m.text().len() ==> !in_word(m.text()[z])
            }
            &&& !shift && count == 3 ==> {
                &&& forall|i: int| a <= i < z ==> m.text()[i] != 10
                &&& a > 0 ==> m.text()[a - 1] == 10
                &&& z < m.text().len() ==> m.text()[z] == 10
            }
        }),
{
    let at = if offset < m.text().len() {
        offset as int
    } else {
        m.text().len() as int
    };
    crate::moves::law_word_goes_as_far_as_it_can(m.text(), at);
    crate::moves::law_line_ends_at_newlines(m.text(), at);
}

/// An action does what the key for it does.
pub proof fn law_actions_do_what_keys_do(m: EditorModel, k: KeyModel)
    requires
        commands(m, k),
        !k.control && !k.platform && !k.alt,
    ensures
        k.key == Key::Backspace ==> m.executed(EditorAction::Backspace).state == m.pressed(
            k,
        ).0.state,
        k.key == Key::Enter && !k.shift ==> m.executed(EditorAction::Enter) == m.pressed(k).0,
        k.key == Key::Enter && k.shift ==> m.executed(EditorAction::ShiftEnter) == m.pressed(k).0,
        k.key == Key::Left && !k.shift ==> m.executed(EditorAction::Move(Direction::Left))
            == m.pressed(k).0,
        k.key == Key::Right && !k.shift ==> m.executed(EditorAction::Move(Direction::Right))
            == m.pressed(k).0,
        k.key == Key::Up && !k.shift ==> m.executed(EditorAction::Move(Direction::Up)) == m.pressed(
            k,
        ).0,
        k.key == Key::Down && !k.shift ==> m.executed(EditorAction::Move(Direction::Down))
            == m.pressed(k).0,
        k.key == Key::Tab && !k.shift && !in_code(m.text(), m.cursor()) ==> m.executed(
            EditorAction::Tab,
        ).state == m.pressed(k).0.state,
        k.key == Key::Tab && k.shift && !in_code(m.text(), m.cursor()) ==> m.executed(
            EditorAction::ShiftTab,
        ).state == m.pressed(k).0.state,
{
    reveal(EditorModel::target);
    reveal(EditorModel::decided);
    reveal(EditorModel::opened);
    reveal(StateModel::edited);
    reveal(StateModel::tab_pressed);
    reveal(StateModel::acted);
    reveal(StateModel::advanced);
    reveal(EditorModel::performed);
}

/// The arrows take one step in their direction.
pub proof fn law_arrows_take_one_step(m: EditorModel, k: KeyModel)
    requires
        commands(m, k),
    ensures
        ({
            let c = m.pressed(k).0.cursor();
            let at = m.cursor() as int;
            &&& k.key == Key::Left ==> c == left_of(m.text(), at) as usize
            &&& k.key == Key::Right ==> c == right_of(m.text(), at) as usize
            &&& k.key == Key::Up ==> c == above(m.text(), at) as usize
            &&& k.key == Key::Down ==> c == below(m.text(), at) as usize
        }),
{
    reveal(EditorModel::target);
}

/// Each key that edits does what it is for to the text and the selection.
pub proof fn law_editing_keys(m: EditorModel, k: KeyModel)
    requires
        commands(m, k),
    ensures
        ({
            let r = m.pressed(k).0.state;
            let held = k.control || k.platform;
            let s = m.state;
            &&& k.key == Key::Backspace ==> r == s.backspaced()
            &&& k.key == Key::Delete ==> r == s.deleted_forward()
            &&& k.key == Key::Tab ==> r == s.tab_pressed(k.shift)
            &&& k.key == Key::Enter && !k.shift ==> r == s.inserted(seq![10u8])
            &&& k.key == Key::Enter && k.shift && !k.alt ==> r == s.new_line(s.next_line_start())
            &&& k.key == Key::Enter && k.shift && k.alt ==> r == s.new_line(s.nested_line_start())
            &&& k.key == Key::Z && held && !k.shift ==> r == s.undone()
            &&& k.key == Key::Z && held && k.shift ==> r == s.redone()
            &&& k.key == Key::Y && k.control && m.diff is None ==> r == s.redone()
        }),
{
    reveal(EditorModel::target);
    reveal(EditorModel::decided);
    reveal(EditorModel::opened);
    reveal(StateModel::edited);
}

/// During a review the keys for it decide: on the hunk at the cursor, or with shift on
/// all.
pub proof fn law_review_keys(m: EditorModel, k: KeyModel)
    requires
        commands(m, k),
        m.diff is Some,
        k.control || k.platform,
    ensures
        ({
            let r = m.pressed(k).0;
            &&& k.key == Key::Y && !k.shift ==> r == m.hunk_accepted()
            &&& k.key == Key::Y && k.shift ==> r == m.all_accepted()
            &&& k.key == Key::N && !k.shift ==> r == m.hunk_rejected()
            &&& k.key == Key::N && k.shift ==> r == m.all_rejected()
        }),
{
    reveal(EditorModel::target);
    reveal(EditorModel::decided);
}

/// A key that stands for no command types its character, if it has one. Where a space
/// may not stand, a space is not typed.
pub proof fn law_other_keys_type(m: EditorModel, k: KeyModel)
    requires
        commands(m, k),
        command_of(k, m.diff is Some) == Command::Type,
    ensures
        k.key_char is None ==> m.pressed(k).0 == m,
        k.key_char matches Some(c) ==> {
            let refused = c.len() == 1 && c[0] == ' ' && !m.state.takes_space();
            &&& refused ==> m.pressed(k).0 == m && !m.pressed(k).1.redraw
            &&& !refused ==> m.pressed(k).0.state == m.state.typed(c, m.flags.composing)
        },
{
    reveal(EditorModel::target);
    reveal(EditorModel::decided);
    reveal(EditorModel::opened);
    reveal(StateModel::edited);
    reveal_strlit(" ");
    if let Some(c) = k.key_char {
        if c.len() == 1 && c[0] == ' ' {
            assert(c =~= " "@);
        }
    }
}

/// What an action does: a character is typed, a click selects, a box is toggled, a
/// drag moves the end of the selection unless the text scrolls under it, and an
/// address is opened and changes nothing.
pub proof fn law_actions_do_what_they_say(m: EditorModel, a: EditorAction)
    ensures
        ({
            let r = m.executed(a);
            match a {
                EditorAction::Type(c) => r.state == m.state.inserted(encode_utf8(seq![c])),
                EditorAction::Click { offset, shift, click_count } => r.state == m.state.clicked(
                    offset,
                    shift,
                    click_count,
                ),
                EditorAction::ToggleCheckbox { line_number } => r.state
                    == crate::checkbox::toggled(m.state, line_number as int),
                EditorAction::Drag { offset } => {
                    &&& m.flags.in_drag_scroll_zone ==> r == m
                    &&& !m.flags.in_drag_scroll_zone ==> r.state.selection.head == offset
                        && r.state.selection.anchor == m.state.selection.anchor
                        && r.state.buffer == m.state.buffer && r.flags.is_selecting
                },
                EditorAction::OpenLink { url } => r == m && m.action_outcome(a).open == Some(url@)
                    && !m.action_outcome(a).redraw,
                EditorAction::UpdateHover {
                    over_checkbox,
                    over_link,
                    hovered_github_ref_range,
                    hovered_ref_position,
                } => {
                    &&& r.state == m.state
                    &&& r.flags.hovering_checkbox == over_checkbox
                    &&& r.flags.hovering_link_region == over_link
                    &&& r.flags.hovered_github_ref_range == hovered_github_ref_range
                    &&& m.flags.hovered_github_ref_range != hovered_github_ref_range
                        ==> r.flags.hovered_ref_position == hovered_ref_position
                },
                EditorAction::ShiftAltEnter => r.state == m.state.new_line(
                    m.state.nested_line_start(),
                ),
                _ => m.action_outcome(a).redraw,
            }
        }),
{
    reveal(StateModel::acted);
    reveal(StateModel::advanced);
    reveal(EditorModel::performed);
}

/// While text is streamed in, no input counts and the cursor stands at the end; the
/// text stays as it is.
pub proof fn law_streaming_blocks_input(m: EditorModel)
    requires
        m.text().len() <= usize::MAX,
    ensures
        m.streaming().flags.input_blocked,
        m.streaming().flags.streaming_mode,
        m.streaming().cursor() == m.text().len(),
        m.streaming().state.collapsed(),
        m.streaming().text() == m.text(),
{
}

/// The editor is drawn again after a report on the mouse exactly when the report says
/// something new.
pub proof fn law_only_news_of_the_mouse_redraw(m: EditorModel, a: EditorAction)
    ensures
        a matches EditorAction::UpdateHover {
            over_checkbox,
            over_link,
            hovered_github_ref_range,
            ..
        } ==> (m.action_outcome(a).redraw <==> m.flags.hovering_checkbox != over_checkbox
            || m.flags.hovering_link_region != over_link || m.flags.hovered_github_ref_range
            != hovered_github_ref_range),
        m.action_outcome(a).open is Some <==> a is OpenLink,
{
}

} // verus!
