use writ::buffer::Buffer;
use writ::cursor::{Cursor, Selection};
use writ::grapheme::{next_grapheme, previous_grapheme};
use writ::marker::{increment_ordered_marker, reset_ordered_marker, MarkerKind, Span};
use writ::number::{parse_u64, write_number};
use writ::sort::sort_descending;
use writ::state::EditorState;

fn at(content: &str) -> EditorState {
    let pos = content.find('|').expect("a cursor");
    let mut state = EditorState::new(&content.replace('|', ""));
    state.set_cursor(pos);
    state
}

fn shown(state: &EditorState) -> String {
    let mut text = state.text();
    text.insert(state.cursor().offset, '|');
    text
}

// ---------------------------------------------------------------------------
// The text and its history
// ---------------------------------------------------------------------------

#[test]
fn undo_gives_back_what_was_there() {
    let mut state = at("one| two");
    state.insert_text("!");
    assert_eq!(shown(&state), "one!| two");
    assert!(state.undo());
    assert_eq!(shown(&state), "one| two");
    assert!(!state.undo());
}

#[test]
fn redo_makes_the_change_again() {
    let mut state = at("one| two");
    state.insert_text("é");
    state.delete_forward();
    assert_eq!(state.text(), "oneétwo");
    assert!(state.undo());
    assert!(state.undo());
    assert_eq!(state.text(), "one two");
    assert!(state.redo());
    assert_eq!(shown(&state), "oneé| two");
    assert!(state.redo());
    assert_eq!(state.text(), "oneétwo");
    assert!(!state.redo());
}

#[test]
fn undo_and_redo_take_turns() {
    let mut buffer = Buffer::from_text("abc");
    buffer.replace(1, 2, "XYZ".as_bytes(), 1);
    assert_eq!(buffer.text(), "aXYZc");
    assert_eq!(buffer.undo(), Some(1));
    assert_eq!(buffer.text(), "abc");
    assert_eq!(buffer.redo(), Some(4));
    assert_eq!(buffer.text(), "aXYZc");
    assert_eq!(buffer.undo(), Some(1));
    assert_eq!(buffer.undo(), None);
    assert_eq!(buffer.text(), "abc");
}

#[test]
fn a_new_change_drops_what_could_be_redone() {
    let mut buffer = Buffer::from_text("abc");
    buffer.insert(3, "d".as_bytes(), 3);
    assert!(buffer.can_undo());
    buffer.undo();
    assert!(buffer.can_redo());
    buffer.delete(0, 1, 0);
    assert!(!buffer.can_redo());
    assert_eq!(buffer.redo(), None);
    assert_eq!(buffer.text(), "bc");
}

#[test]
fn a_change_moves_the_version_and_dirties() {
    let mut buffer = Buffer::from_text("abc");
    let before = buffer.version();
    assert!(!buffer.is_dirty());
    buffer.insert(0, "x".as_bytes(), 0);
    assert!(buffer.is_dirty());
    assert_ne!(buffer.version(), before);
    buffer.mark_clean();
    assert!(!buffer.is_dirty());
}

#[test]
fn lines_are_counted_by_newlines() {
    let buffer = Buffer::from_text("a\nbb\n");
    assert_eq!(buffer.line_count(), 3);
    assert_eq!(buffer.last_line(), 2);
    assert_eq!(buffer.byte_to_line(0), 0);
    assert_eq!(buffer.byte_to_line(1), 0);
    assert_eq!(buffer.byte_to_line(2), 1);
    assert_eq!(buffer.byte_to_line(5), 2);
    assert_eq!(buffer.line_to_byte(1), 2);
    assert_eq!(buffer.line_to_byte(2), 5);
    assert_eq!(buffer.line_to_byte(9), 5);
    assert_eq!(Buffer::from_text("").line_count(), 1);
}

#[test]
fn bytes_and_ends_are_looked_up() {
    let buffer = Buffer::from_text("héllo");
    assert_eq!(buffer.byte_at(0), Some(b'h'));
    assert_eq!(buffer.byte_at(6), None);
    assert_eq!(buffer.len_bytes(), 6);
    assert!(buffer.ends_with("llo"));
    assert!(!buffer.ends_with("lo "));
    assert!(buffer.ends_with(""));
    assert_eq!(buffer.slice(1, 3), "é".as_bytes().to_vec());
}

// ---------------------------------------------------------------------------
// Graphemes and the cursor
// ---------------------------------------------------------------------------

#[test]
fn graphemes_are_found_on_either_side() {
    let text = "a\u{1F468}\u{200D}\u{1F469}b";
    let end = text.len() - 1;
    assert_eq!(previous_grapheme(text.as_bytes(), end), Some(Span { start: 1, end }));
    assert_eq!(next_grapheme(text.as_bytes(), 1), Some(Span { start: 1, end }));
    assert_eq!(previous_grapheme(text.as_bytes(), 0), None);
    assert_eq!(next_grapheme(text.as_bytes(), text.len()), None);
}

#[test]
fn step_over_a_marker_leads_back() {
    let buffer = Buffer::from_text("- item");
    let behind = Cursor { offset: 0 }.move_right(&buffer);
    assert_eq!(behind.offset, 2);
    assert_eq!(behind.move_left(&buffer).offset, 0);
}

#[test]
fn home_and_end_stay_where_they_are() {
    let buffer = Buffer::from_text("one\ntwo\n");
    let c = Cursor { offset: 5 };
    let start = c.move_to_line_start(&buffer);
    let end = c.move_to_line_end(&buffer);
    assert_eq!((start.offset, end.offset), (4, 7));
    assert_eq!(start.move_to_line_start(&buffer).offset, 4);
    assert_eq!(end.move_to_line_end(&buffer).offset, 7);
    assert_eq!(c.move_to_start().offset, 0);
    assert_eq!(c.move_to_end(&buffer).offset, 8);
}

#[test]
fn a_selection_reads_the_same_both_ways() {
    let forward = Selection::new(2, 5);
    let backward = Selection::new(5, 2);
    assert_eq!(forward.range(), Span { start: 2, end: 5 });
    assert_eq!(backward.range(), forward.range());
    assert!(!forward.is_collapsed());
    assert!(Selection::new(3, 3).is_collapsed());
    assert_eq!(forward.extend_to(9).range(), Span { start: 2, end: 9 });
    let buffer = Buffer::from_text("one two");
    assert_eq!(Selection::select_all(&buffer).range(), Span { start: 0, end: 7 });
}

#[test]
fn typing_replaces_the_selection() {
    let mut state = EditorState::new("one two");
    state.selection = Selection::new(0, 3);
    assert_eq!(state.selected_text(), "one");
    state.insert_text("1");
    assert_eq!(shown(&state), "1| two");
}

#[test]
fn deleting_takes_the_selection() {
    let mut state = EditorState::new("one two");
    state.selection = Selection::new(7, 3);
    state.delete_backward();
    assert_eq!(shown(&state), "one|");
    state.selection = Selection::new(0, 1);
    state.delete_forward();
    assert_eq!(shown(&state), "|ne");
}

#[test]
fn deleting_at_the_ends_changes_nothing() {
    let mut state = at("|a");
    state.delete_backward();
    assert_eq!(shown(&state), "|a");
    let mut state = at("a|");
    state.delete_forward();
    assert_eq!(shown(&state), "a|");
}

// ---------------------------------------------------------------------------
// Markers
// ---------------------------------------------------------------------------

#[test]
fn the_next_item_is_numbered_on() {
    assert_eq!(increment_ordered_marker(b"1. "), b"2. ".to_vec());
    assert_eq!(increment_ordered_marker(b"99) "), b"100) ".to_vec());
    assert_eq!(reset_ordered_marker(b"7. "), b"1. ".to_vec());
    assert_eq!(increment_ordered_marker(b"- "), b"- ".to_vec());
}

#[test]
fn numbers_are_read_and_written() {
    assert_eq!(write_number(0), b"0".to_vec());
    assert_eq!(write_number(18446744073709551615), b"18446744073709551615".to_vec());
    assert_eq!(parse_u64(b"18446744073709551615"), Some(18446744073709551615));
    assert_eq!(parse_u64(b"18446744073709551616"), None);
    assert_eq!(parse_u64(b"+7"), Some(7));
    assert_eq!(parse_u64(b""), None);
    assert_eq!(parse_u64(b"+"), None);
    assert_eq!(parse_u64(b"1x"), None);
}

#[test]
fn line_markers_are_read_off_the_tree() {
    let buffer = Buffer::from_text("> - [x] task\n## head\n```rust\nlet a;\n```\n3. three\n");
    let quote = buffer.line_markers(0);
    assert_eq!(quote.markers.len(), 3);
    assert!(matches!(quote.markers[0].kind, MarkerKind::BlockQuote));
    assert!(matches!(quote.markers[1].kind, MarkerKind::ListItem { ordered: false, .. }));
    assert!(matches!(quote.markers[2].kind, MarkerKind::Checkbox { checked: true }));
    assert_eq!(quote.checkbox(), Some(true));
    assert_eq!(quote.content_start(), 8);
    assert!(quote.has_container());
    assert!(!quote.is_blockquote_only());
    let head = buffer.line_markers(1);
    assert!(matches!(head.markers[0].kind, MarkerKind::Heading(2)));
    assert_eq!(head.checkbox(), None);
    let open = buffer.line_markers(2);
    assert!(open.is_fence());
    assert!(matches!(
        &open.markers[0].kind,
        MarkerKind::CodeBlockFence { language: Some(l), is_opening: true } if l == "rust"
    ));
    let close = buffer.line_markers(4);
    assert!(matches!(
        &close.markers[0].kind,
        MarkerKind::CodeBlockFence { is_opening: false, .. }
    ));
    let three = buffer.line_markers(5);
    assert!(matches!(
        three.markers[0].kind,
        MarkerKind::ListItem { ordered: true, number: Some(3), .. }
    ));
}

#[test]
fn code_blocks_are_known_by_their_tree() {
    let state = at("```\nlet |a;\n```\n");
    assert!(state.cursor_in_code_block());
    let state = at("let |a;\n");
    assert!(!state.cursor_in_code_block());
    let state = at("```\nlet a;|");
    assert!(state.cursor_in_code_block());
}

#[test]
fn in_front_of_and_behind_the_fences_is_no_code() {
    let mut state = at("|```\nx\n```\n");
    assert!(!state.cursor_in_code_block());
    assert!(!state.try_insert_space());
    assert_eq!(shown(&state), "|```\nx\n```\n");
    let state = at("```\nx\n```|\n");
    assert!(!state.cursor_in_code_block());
    let state = at("```|\nx\n```\n");
    assert!(state.cursor_in_code_block());
}

#[test]
fn backspace_behind_the_opening_fence_takes_an_empty_block() {
    let mut state = at("```|\n\n```\n");
    state.delete_backward();
    assert_eq!(shown(&state), "|\n");
}

#[test]
fn backspace_behind_the_closing_fence_takes_only_the_fence() {
    let mut state = at("```\n\n```|\n");
    state.delete_backward();
    assert_eq!(shown(&state), "```\n\n|\n");
}

// ---------------------------------------------------------------------------
// Typing
// ---------------------------------------------------------------------------

#[test]
fn a_quote_marker_gets_its_space() {
    let mut state = at(">|");
    assert!(state.maybe_complete_blockquote_marker());
    assert_eq!(shown(&state), "> |");
    assert!(!state.maybe_complete_blockquote_marker());
}

#[test]
fn a_greater_sign_in_quoted_text_gets_no_space() {
    let mut state = at("> a>|");
    assert!(!state.maybe_complete_blockquote_marker());
    assert_eq!(shown(&state), "> a>|");
    let mut state = at("> >|");
    assert!(state.maybe_complete_blockquote_marker());
    assert_eq!(shown(&state), "> > |");
}

#[test]
fn a_fence_is_closed() {
    let mut state = at("```|");
    state.maybe_complete_code_fence();
    assert_eq!(shown(&state), "```|\n```");
    let mut state = at("``|");
    state.maybe_complete_code_fence();
    assert_eq!(shown(&state), "``|");
}

#[test]
fn a_second_space_behind_a_quote_marker_is_refused() {
    let mut state = at("> |");
    assert!(!state.try_insert_space());
    assert_eq!(shown(&state), "> |");
    let mut state = at("a|");
    assert!(state.try_insert_space());
    assert_eq!(shown(&state), "a |");
}

// ---------------------------------------------------------------------------
// Tab
// ---------------------------------------------------------------------------

#[test]
fn shift_tab_takes_back_tab() {
    let mut state = at("- item\n|");
    for _ in 0..3 {
        let before = shown(&state);
        state.tab();
        let after = shown(&state);
        assert_ne!(before, after);
        state.shift_tab();
        assert_eq!(shown(&state), before);
        state.tab();
        assert_eq!(shown(&state), after);
    }
}

#[test]
fn tab_takes_back_shift_tab() {
    let mut state = at("> quote\n|");
    let before = shown(&state);
    state.shift_tab();
    assert_ne!(shown(&state), before);
    state.tab();
    assert_eq!(shown(&state), before);
}

#[test]
fn tab_leads_back_after_a_round() {
    let mut state = at("1. item\n|");
    let states = state.build_cycle_states_from_tree(state.cursor().offset, None);
    let before = shown(&state);
    assert_eq!(states, vec!["2. ", "   ", "   1. ", ""]);
    for prefix in &states {
        state.tab();
        assert_eq!(state.text(), format!("1. item\n{}", prefix));
    }
    assert_eq!(shown(&state), before);
}

#[test]
fn tab_without_a_choice_changes_nothing() {
    let mut state = at("plain\n|");
    state.tab();
    assert_eq!(shown(&state), "plain\n|");
    state.shift_tab();
    assert_eq!(shown(&state), "plain\n|");
}

// ---------------------------------------------------------------------------
// Task boxes
// ---------------------------------------------------------------------------

#[test]
fn toggling_twice_gives_the_line_back() {
    let mut state = at("- [ ] |task\n");
    state.toggle_checkbox_for_test(0);
    assert_eq!(state.text(), "- [x] ~~task~~\n");
    state.toggle_checkbox_for_test(0);
    assert_eq!(state.text(), "- [ ] task\n");
}

#[test]
fn toggling_a_line_without_a_box_changes_nothing() {
    let mut state = at("- |task\n");
    state.toggle_checkbox_for_test(0);
    assert_eq!(shown(&state), "- |task\n");
}

#[test]
fn offsets_come_later_first() {
    assert_eq!(sort_descending(&vec![3, 9, 1, 9]), vec![9, 9, 3, 1]);
    let none: Vec<usize> = Vec::new();
    assert_eq!(sort_descending(&none), none);
}

#[test]
fn a_line_is_struck_once_and_comes_back() {
    let mut state = at("- [ ]  a b \nnext|\n");
    let cursor = state.cursor().offset;
    let struck = state.toggle_line_strikethrough(0, true, cursor);
    assert_eq!(state.text(), "- [ ]  ~~a b~~ \nnext\n");
    assert_eq!(struck, cursor + 4);
    assert_eq!(state.toggle_line_strikethrough(0, true, struck), struck);
    assert_eq!(state.text(), "- [ ]  ~~a b~~ \nnext\n");
    assert_eq!(state.toggle_line_strikethrough(0, false, struck), cursor);
    assert_eq!(state.text(), "- [ ]  a b \nnext\n");
    assert_eq!(state.toggle_line_strikethrough(0, false, cursor), cursor);
    assert_eq!(state.text(), "- [ ]  a b \nnext\n");
}

#[test]
fn a_line_without_text_is_not_struck() {
    for line in [1usize, 2, 3, 9] {
        for add in [true, false] {
            let mut state = at("one\n\n>  \n  \n|");
            let cursor = state.cursor().offset;
            assert_eq!(state.toggle_line_strikethrough(line, add, cursor), cursor);
            assert_eq!(state.text(), "one\n\n>  \n  \n");
        }
    }
}

#[test]
fn toggling_an_item_twice_gives_its_nested_items_back() {
    let text = "|- [ ] a\n  - [ ] b c\n    - [ ] d\n  - plain\n- [ ] e\n";
    let mut state = at(text);
    state.toggle_checkbox_for_test(0);
    assert_eq!(
        state.text(),
        "- [x] ~~a~~\n  - [x] ~~b c~~\n    - [x] ~~d~~\n  - plain\n- [ ] e\n"
    );
    state.toggle_checkbox_for_test(0);
    assert_eq!(shown(&state), text);
}

#[test]
fn the_box_state_shows_only_in_the_boxes() {
    let state = at("> 1. [ ] one\n>    - [x] two\n|\n");
    let cursor = state.cursor().offset;
    let empty = state.build_cycle_states_from_tree(cursor, Some(false));
    let unstated = state.build_cycle_states_from_tree(cursor, None);
    let checked = state.build_cycle_states_from_tree(cursor, Some(true));
    assert_eq!(unstated, empty);
    let replaced: Vec<String> = empty.iter().map(|p| p.replace("[ ] ", "[x] ")).collect();
    assert_eq!(checked, replaced);
    assert!(empty.iter().any(|p| p.contains("[ ] ")));
    assert_ne!(checked, empty);
}

#[test]
fn each_tab_gives_the_next_prefix() {
    let mut state = at("> - one\n> - |\nnext\n");
    let states = state.build_cycle_states_from_tree(state.cursor().offset, None);
    let n = states.len();
    let place = states.iter().position(|p| p == "> - ").expect("the line's prefix");
    assert!(n > 1);
    for k in 1..=2 * n {
        state.tab();
        let expected = format!("> - one\n{}|\nnext\n", states[(place + k) % n]);
        assert_eq!(shown(&state), expected);
    }
}

#[test]
fn a_click_past_the_end_selects_what_stands_there() {
    let mut state = at("one\ntwo three|");
    state.handle_click(99, false, 2);
    assert_eq!(state.selection, Selection::new(8, 13));
    state.handle_click(99, false, 3);
    assert_eq!(state.selection, Selection::new(4, 13));
    state.handle_click(5, false, 2);
    assert_eq!(state.selection, Selection::new(4, 7));
}
