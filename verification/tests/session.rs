use writ::action::{Direction, EditorAction, KeyEffect, Keystroke, ScreenPoint};
use writ::editor::Editor;
use writ::marker::Span;

fn key(name: &str) -> Keystroke {
    Keystroke {
        key: name.to_string(),
        key_char: None,
        control: false,
        platform: false,
        alt: false,
        shift: false,
    }
}

fn control(name: &str) -> Keystroke {
    Keystroke { control: true, ..key(name) }
}

fn shift(name: &str) -> Keystroke {
    Keystroke { shift: true, ..key(name) }
}

fn types(c: &str) -> Keystroke {
    Keystroke { key_char: Some(c.to_string()), ..key(c) }
}

fn editor(content: &str) -> Editor {
    let pos = content.find('|').expect("a cursor");
    let mut e = Editor::new(&content.replace('|', ""));
    e.set_cursor(pos);
    e
}

fn shown(e: &Editor) -> String {
    let mut text = e.text();
    text.insert(e.cursor_position(), '|');
    text
}

// ---------------------------------------------------------------------------
// From the outside
// ---------------------------------------------------------------------------

#[test]
fn a_new_editor_holds_its_text() {
    let e = Editor::new("héllo\n");
    assert_eq!(e.text(), "héllo\n");
    assert_eq!(e.len(), 7);
    assert!(!e.is_empty());
    assert!(e.ends_with("lo\n"));
    assert_eq!(e.cursor_position(), 0);
    assert_eq!(e.selection_range(), None);
    assert!(!e.is_dirty());
    assert!(!e.can_undo());
    assert!(!e.can_redo());
    assert!(Editor::new("").is_empty());
}

#[test]
fn set_text_starts_anew() {
    let mut e = editor("one|");
    e.insert("!");
    e.set_text("two");
    assert_eq!(shown(&e), "|two");
    assert!(!e.can_undo());
}

#[test]
fn text_is_inserted_and_taken_back() {
    let mut e = editor("a|c");
    e.insert("b");
    assert_eq!(shown(&e), "ab|c");
    assert!(e.is_dirty());
    assert!(e.can_undo());
    assert!(e.undo());
    assert_eq!(e.text(), "ac");
    assert!(e.can_redo());
    assert!(e.redo());
    assert_eq!(e.text(), "abc");
    e.mark_clean();
    assert!(!e.is_dirty());
}

#[test]
fn appended_text_stands_at_the_end() {
    let mut e = editor("|one");
    e.append(" two");
    assert!(e.ends_with(" two"));
    assert_eq!(e.text(), "one two");
    e.append_and_scroll("!");
    assert_eq!(e.text(), "one two!");
}

#[test]
fn a_message_covers_its_lines() {
    let mut e = Editor::new("intro\n");
    e.append_user_message("hello\nthere\n");
    assert_eq!(e.text(), "intro\nhello\nthere\n");
    assert!(!e.is_user_message_line(0));
    assert!(e.is_user_message_line(1));
    assert!(e.is_user_message_line(2));
    assert!(!e.is_user_message_line(3));
}

#[test]
fn the_cursor_goes_to_either_end() {
    let mut e = editor("o|ne");
    e.move_to_end();
    assert_eq!(shown(&e), "one|");
    e.move_to_start();
    assert_eq!(shown(&e), "|one");
}

#[test]
fn streaming_blocks_input_until_it_ends() {
    let mut e = editor("|one");
    e.begin_streaming();
    assert!(e.is_streaming());
    assert!(e.is_input_blocked());
    assert_eq!(e.cursor_position(), 3);
    e.end_streaming();
    assert!(!e.is_streaming());
    assert!(!e.is_input_blocked());
}

// ---------------------------------------------------------------------------
// Keys
// ---------------------------------------------------------------------------

#[test]
fn a_key_types_what_it_stands_for() {
    let mut e = editor("|");
    for c in ["ß", "漢", "a"] {
        assert!(e.on_key_down(&types(c)).redraw);
    }
    assert_eq!(shown(&e), "ß漢a|");
    assert!(e.flags.scroll_to_cursor_pending);
}

#[test]
fn a_key_without_a_character_types_nothing() {
    let mut e = editor("a|");
    let r = e.on_key_down(&key("f5"));
    assert!(r.redraw);
    assert!(matches!(r.effect, KeyEffect::Nothing));
    assert_eq!(shown(&e), "a|");
}

#[test]
fn typing_a_quote_marker_completes_it() {
    let mut e = editor("|");
    e.on_key_down(&types(">"));
    assert_eq!(shown(&e), "> |");
    let refused = e.on_key_down(&types(" "));
    assert!(!refused.redraw);
    assert_eq!(shown(&e), "> |");
}

#[test]
fn typing_a_fence_closes_it() {
    let mut e = editor("|");
    for _ in 0..3 {
        e.on_key_down(&types("`"));
    }
    assert_eq!(shown(&e), "```|\n```");
}

#[test]
fn composing_completes_nothing_and_keeps_keys_away() {
    let mut e = editor("|");
    e.set_composing(true);
    assert!(e.is_composing());
    e.on_key_down(&types(">"));
    assert_eq!(shown(&e), ">|");
    for k in ["backspace", "delete", "enter", "tab"] {
        assert!(!e.on_key_down(&key(k)).redraw);
    }
    assert!(!e.on_key_down(&control("a")).redraw);
    assert_eq!(shown(&e), ">|");
    e.set_composing(false);
    e.on_key_down(&key("backspace"));
    assert_eq!(shown(&e), "|");
}

#[test]
fn blocked_input_takes_no_key() {
    let mut e = editor("a|");
    e.set_input_blocked(true);
    assert!(!e.on_key_down(&types("b")).redraw);
    assert_eq!(shown(&e), "a|");
}

#[test]
fn keys_move_the_cursor() {
    let mut e = editor("one\nt|wo");
    e.on_key_down(&key("left"));
    assert_eq!(shown(&e), "one\n|two");
    e.on_key_down(&key("up"));
    assert_eq!(shown(&e), "|one\ntwo");
    e.on_key_down(&key("right"));
    assert_eq!(shown(&e), "o|ne\ntwo");
    e.on_key_down(&key("end"));
    assert_eq!(shown(&e), "one|\ntwo");
    e.on_key_down(&key("down"));
    assert_eq!(shown(&e), "one\ntwo|");
    e.on_key_down(&key("home"));
    assert_eq!(shown(&e), "one\n|two");
    e.on_key_down(&control("home"));
    assert_eq!(shown(&e), "|one\ntwo");
    e.on_key_down(&control("end"));
    assert_eq!(shown(&e), "one\ntwo|");
}

#[test]
fn shift_extends_the_selection() {
    let mut e = editor("o|ne");
    e.on_key_down(&shift("right"));
    e.on_key_down(&shift("right"));
    assert_eq!(e.selection_range(), Some(1..3));
    e.on_key_down(&key("delete"));
    assert_eq!(shown(&e), "o|");
}

#[test]
fn enter_opens_a_line_as_it_is_held() {
    let mut e = editor("- one|");
    e.on_key_down(&shift("enter"));
    assert_eq!(shown(&e), "- one\n- |");
    let mut e = editor("- one|");
    e.on_key_down(&Keystroke { alt: true, ..shift("enter") });
    assert_eq!(shown(&e), "- one\n  |");
    let mut e = editor("- one|");
    e.on_key_down(&key("enter"));
    assert_eq!(shown(&e), "- one\n|");
}

#[test]
fn tab_indents_in_code() {
    let mut e = editor("```\n|x\n```\n");
    e.on_key_down(&key("tab"));
    assert_eq!(shown(&e), "```\n    |x\n```\n");
    let mut e = editor("- one\n|");
    e.on_key_down(&key("tab"));
    assert_eq!(shown(&e), "- one\n- |");
    e.on_key_down(&shift("tab"));
    assert_eq!(shown(&e), "- one\n|");
}

#[test]
fn the_clipboard_gets_the_selection() {
    let mut e = editor("|one two");
    assert!(matches!(e.on_key_down(&control("c")).effect, KeyEffect::Nothing));
    e.on_key_down(&control("a"));
    let copied = e.on_key_down(&control("c"));
    assert!(matches!(copied.effect, KeyEffect::WriteClipboard(t) if t == "one two"));
    assert_eq!(e.text(), "one two");
    let cut = e.on_key_down(&control("x"));
    assert!(matches!(cut.effect, KeyEffect::WriteClipboard(t) if t == "one two"));
    assert_eq!(e.text(), "");
    assert!(matches!(e.on_key_down(&control("v")).effect, KeyEffect::ReadClipboard));
}

#[test]
fn keys_take_back_and_make_again() {
    let mut e = editor("|");
    e.on_key_down(&types("a"));
    e.on_key_down(&control("z"));
    assert_eq!(e.text(), "");
    e.on_key_down(&Keystroke { shift: true, ..control("z") });
    assert_eq!(e.text(), "a");
    e.on_key_down(&control("z"));
    e.on_key_down(&control("y"));
    assert_eq!(e.text(), "a");
}

#[test]
fn keys_ask_for_what_happens_outside() {
    let mut e = editor("|");
    assert!(matches!(e.on_key_down(&control("s")).effect, KeyEffect::Save));
    assert!(matches!(e.on_key_down(&control("r")).effect, KeyEffect::RefreshRefs));
    let held = Keystroke { platform: true, ..key("s") };
    assert!(matches!(e.on_key_down(&held).effect, KeyEffect::Save));
    assert!(matches!(e.on_key_down(&types("s")).effect, KeyEffect::Nothing));
    assert_eq!(e.text(), "s");
}

#[test]
fn held_modifiers_are_noted_once() {
    let mut e = editor("|");
    assert!(e.on_modifiers_changed(true, false));
    assert!(!e.on_modifiers_changed(false, true));
    assert!(e.on_modifiers_changed(false, false));
}

// ---------------------------------------------------------------------------
// Actions
// ---------------------------------------------------------------------------

#[test]
fn actions_do_what_they_say() {
    let mut e = editor("|");
    assert!(e.execute(&EditorAction::Type('-')).redraw);
    e.execute(&EditorAction::Type(' '));
    e.execute(&EditorAction::Type('é'));
    assert_eq!(shown(&e), "- é|");
    e.execute(&EditorAction::ShiftEnter);
    assert_eq!(shown(&e), "- é\n- |");
    e.execute(&EditorAction::Backspace);
    assert_eq!(shown(&e), "- é\n|");
    e.execute(&EditorAction::Tab);
    assert_eq!(shown(&e), "- é\n- |");
    e.execute(&EditorAction::ShiftTab);
    assert_eq!(shown(&e), "- é\n|");
    e.execute(&EditorAction::Move(Direction::Left));
    assert_eq!(shown(&e), "- é|\n");
    e.execute(&EditorAction::Enter);
    assert_eq!(shown(&e), "- é\n|\n");
    e.execute(&EditorAction::Click { offset: 0, shift: false, click_count: 1 });
    assert_eq!(e.cursor_position(), 0);
}

#[test]
fn dragging_extends_unless_at_the_edge() {
    let mut e = editor("|one two");
    e.execute(&EditorAction::Drag { offset: 3 });
    assert_eq!(e.selection_range(), Some(0..3));
    assert!(e.flags.is_selecting);
    e.set_drag_scroll_zone(true);
    e.execute(&EditorAction::Drag { offset: 7 });
    assert_eq!(e.selection_range(), Some(0..3));
    assert!(e.on_mouse_up());
    assert!(!e.on_mouse_up());
}

#[test]
fn blocked_actions_change_no_text() {
    let mut e = editor("a|");
    e.set_input_blocked(true);
    let r = e.handle_action(&EditorAction::Type('b'));
    assert!(!r.redraw);
    assert_eq!(e.text(), "a");
    let over = EditorAction::UpdateHover {
        over_checkbox: true,
        over_link: false,
        hovered_github_ref_range: None,
        hovered_ref_position: None,
    };
    assert!(e.handle_action(&over).redraw);
    assert!(e.flags.hovering_checkbox);
    assert!(!e.handle_action(&over).redraw);
    e.execute(&EditorAction::Type('b'));
    assert_eq!(e.text(), "ab");
}

#[test]
fn hovering_is_noted_when_it_changes() {
    let mut e = editor("|");
    let range = Span { start: 1, end: 4 };
    let over = EditorAction::UpdateHover {
        over_checkbox: false,
        over_link: true,
        hovered_github_ref_range: Some(range),
        hovered_ref_position: Some(ScreenPoint { x_bits: 1, y_bits: 2 }),
    };
    assert!(e.handle_action(&over).redraw);
    assert_eq!(e.flags.hovered_github_ref_range, Some(range));
    assert_eq!(e.flags.hovered_ref_position, Some(ScreenPoint { x_bits: 1, y_bits: 2 }));
    assert!(!e.handle_action(&over).redraw);
}

#[test]
fn a_link_is_handed_out_to_be_opened() {
    let mut e = editor("|");
    let r = e.handle_action(&EditorAction::OpenLink { url: "https://a.b".to_string() });
    assert!(!r.redraw);
    assert_eq!(r.open, Some("https://a.b".to_string()));
    e.set_input_blocked(true);
    let r = e.handle_action(&EditorAction::OpenLink { url: "https://a.b".to_string() });
    assert_eq!(r.open, None);
}

#[test]
fn a_box_is_toggled_by_an_action() {
    let mut e = editor("- [ ] |a\n");
    assert!(e.handle_action(&EditorAction::ToggleCheckbox { line_number: 0 }).redraw);
    assert_eq!(e.text(), "- [x] ~~a~~\n");
}

#[test]
fn typing_and_deleting_are_taken_back() {
    let mut e = editor("añ|b");
    e.insert("x");
    assert!(e.undo());
    assert_eq!(shown(&e), "añ|b");
    e.on_key_down(&key("backspace"));
    assert_eq!(shown(&e), "a|b");
    assert!(e.undo());
    assert_eq!(shown(&e), "añ|b");
    assert!(!e.undo());
}

#[test]
fn executing_does_the_same_blocked_or_not() {
    let actions = [
        EditorAction::Type('x'),
        EditorAction::Enter,
        EditorAction::Backspace,
        EditorAction::Move(Direction::Left),
        EditorAction::Click { offset: 99, shift: false, click_count: 2 },
        EditorAction::Drag { offset: 1 },
    ];
    for action in actions {
        let mut free = editor("- one tw|o");
        let mut handled = editor("- one tw|o");
        let mut blocked = editor("- one tw|o");
        blocked.set_input_blocked(true);
        free.execute(&action);
        handled.handle_action(&action);
        assert_eq!(handled.text(), free.text());
        assert_eq!(handled.selection_range(), free.selection_range());
        assert_eq!(handled.cursor_position(), free.cursor_position());
        blocked.handle_action(&action);
        assert_eq!(shown(&blocked), "- one tw|o");
        blocked.execute(&action);
        assert_eq!(blocked.text(), free.text());
        assert_eq!(blocked.selection_range(), free.selection_range());
        assert_eq!(blocked.cursor_position(), free.cursor_position());
        assert!(blocked.is_input_blocked());
    }
}
