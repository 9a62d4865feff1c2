use writ::marker::MarkerKind;
use writ::state::EditorState;

fn trim_raw(s: &str) -> &str {
    s.strip_prefix('\n').unwrap_or(s)
}

/// A state whose cursor stands where `|` stands in the input.
fn editor_with_cursor(input: &str) -> EditorState {
    let input = trim_raw(input);
    let cursor_pos = input
        .find('|')
        .expect("Input must contain | for cursor position");
    let content = input.replace('|', "");
    let mut state = EditorState::new(&content);
    state.set_cursor(cursor_pos);
    state
}

/// Compares the text, with `|` put in at the cursor.
fn assert_editor_eq(state: &EditorState, expected: &str) {
    let expected = trim_raw(expected);
    let text = state.text();
    let cursor = state.cursor().offset;
    let mut actual = String::new();
    actual.push_str(&text[..cursor]);
    actual.push('|');
    actual.push_str(&text[cursor..]);
    assert_eq!(actual, expected);
}

/// Compares the text, with `<` and `>` put in around the selection and `|` at
/// its head: `<hello|>` is "hello" selected with the cursor at its end.
fn assert_selection_eq(state: &EditorState, expected: &str) {
    let expected = trim_raw(expected);
    let text = state.text();
    let selection = &state.selection;

    let anchor = selection.anchor;
    let head = selection.head;
    let start = anchor.min(head);
    let end = anchor.max(head);
    let is_collapsed = anchor == head;

    let mut actual = String::new();
    let mut byte_pos = 0;

    for c in text.chars() {
        if !is_collapsed && byte_pos == start {
            actual.push('<');
        }
        if byte_pos == head {
            actual.push('|');
        }
        if !is_collapsed && byte_pos == end {
            actual.push('>');
        }
        actual.push(c);
        byte_pos += c.len_utf8();
    }

    if !is_collapsed && byte_pos == start {
        actual.push('<');
    }
    if byte_pos == head {
        actual.push('|');
    }
    if !is_collapsed && byte_pos == end {
        actual.push('>');
    }

    assert_eq!(actual, expected, "Selection mismatch");
}

#[test]
fn click_sets_cursor() {
    let mut state = editor_with_cursor("hello| world");
    state.handle_click(0, false, 1);
    assert_editor_eq(&state, "|hello world");
}



#[test]
fn click_middle() {
    let mut state = editor_with_cursor("|hello world");
    state.handle_click(6, false, 1);
    assert_editor_eq(&state, "hello |world");
}



#[test]
fn shift_click_extends_selection() {
    let mut state = editor_with_cursor("hello| world");
    state.handle_click(11, true, 1);
    assert_selection_eq(&state, "hello< world|>");
}



#[test]
fn shift_click_backward() {
    let mut state = editor_with_cursor("hello| world");
    state.handle_click(0, true, 1);
    assert_selection_eq(&state, "<|hello> world");
}



#[test]
fn double_click_selects_word() {
    let mut state = editor_with_cursor("|hello world");
    state.handle_click(2, false, 2);
    assert_selection_eq(&state, "<hello|> world");
}



#[test]
fn double_click_second_word() {
    let mut state = editor_with_cursor("|hello world");
    state.handle_click(8, false, 2);
    assert_selection_eq(&state, "hello <world|>");
}



#[test]
fn triple_click_selects_line() {
    let mut state = editor_with_cursor("|hello world");
    state.handle_click(2, false, 3);
    assert_selection_eq(&state, "<hello world|>");
}



#[test]
fn drag_extends_selection() {
    let mut state = editor_with_cursor("|hello world");
    state.handle_click(0, false, 1);
    state.handle_drag(5);
    assert_selection_eq(&state, "<hello|> world");
}



#[test]
fn drag_backward() {
    let mut state = editor_with_cursor("hello world|");
    state.handle_click(11, false, 1);
    state.handle_drag(6);
    assert_selection_eq(&state, "hello <|world>");
}





#[test]
fn move_left() {
    let mut state = editor_with_cursor("hel|lo");
    state.move_left();
    assert_editor_eq(&state, "he|llo");
}



#[test]
fn move_left_at_start() {
    let mut state = editor_with_cursor("|hello");
    state.move_left();
    assert_editor_eq(&state, "|hello");
}



#[test]
fn move_right() {
    let mut state = editor_with_cursor("he|llo");
    state.move_right();
    assert_editor_eq(&state, "hel|lo");
}



#[test]
fn move_right_at_end() {
    let mut state = editor_with_cursor("hello|");
    state.move_right();
    assert_editor_eq(&state, "hello|");
}



#[test]
fn move_up() {
    let mut state = editor_with_cursor("line one\nline |two\nline three");
    state.move_up();
    assert_editor_eq(&state, "line |one\nline two\nline three");
}



#[test]
fn move_up_from_first_line() {
    let mut state = editor_with_cursor("hel|lo\nworld");
    state.move_up();
    assert_editor_eq(&state, "|hello\nworld");
}



#[test]
fn move_down() {
    let mut state = editor_with_cursor("line |one\nline two\nline three");
    state.move_down();
    assert_editor_eq(&state, "line one\nline |two\nline three");
}



#[test]
fn move_down_from_last_line() {
    let mut state = editor_with_cursor("hello\nwor|ld");
    state.move_down();
    assert_editor_eq(&state, "hello\nworld|");
}



#[test]
fn move_up_preserves_column() {
    let mut state = editor_with_cursor("short\nlonger line|");
    state.move_up();
    assert_editor_eq(&state, "short|\nlonger line");
}



#[test]
fn move_to_line_start() {
    let mut state = editor_with_cursor("hello\nwor|ld");
    state.move_to_line_start();
    assert_editor_eq(&state, "hello\n|world");
}



#[test]
fn move_to_line_end() {
    let mut state = editor_with_cursor("hello\nwor|ld");
    state.move_to_line_end();
    assert_editor_eq(&state, "hello\nworld|");
}









#[test]
fn enter_on_paragraph_inserts_newline() {
    let mut state = editor_with_cursor("Hello world|");
    state.enter();
    assert_editor_eq(&state, "Hello world\n|");
}



#[test]
fn enter_on_heading_inserts_newline() {
    let mut state = editor_with_cursor("# Hello|");
    state.enter();
    assert_editor_eq(&state, "# Hello\n|");
}



#[test]
fn enter_on_list_item_inserts_newline_no_marker() {
    let mut state = editor_with_cursor("- item one|");
    state.enter();
    assert_editor_eq(&state, "- item one\n|");
}



#[test]
fn enter_on_blockquote_inserts_newline_no_marker() {
    let mut state = editor_with_cursor("> quote|");
    state.enter();
    assert_editor_eq(&state, "> quote\n|");
}



#[test]
fn enter_on_nested_container_inserts_newline_no_markers() {
    let mut state = editor_with_cursor("> - item|");
    state.enter();
    assert_editor_eq(&state, "> - item\n|");
}



#[test]
fn enter_on_empty_list_item_inserts_newline_keeps_marker() {
    let mut state = editor_with_cursor("- item one\n- |");
    state.enter();
    assert_editor_eq(&state, "- item one\n- \n|");
}



#[test]
fn enter_on_empty_blockquote_inserts_newline_keeps_marker() {
    let mut state = editor_with_cursor("> quote one\n> |");
    state.enter();
    assert_editor_eq(&state, "> quote one\n> \n|");
}



#[test]
fn enter_in_code_block_inserts_newline() {
    let mut state = editor_with_cursor("```rust\nlet x = 1;|");
    state.enter();
    assert_editor_eq(&state, "```rust\nlet x = 1;\n|");
}



#[test]
fn enter_on_code_fence_inserts_newline() {
    let mut state = editor_with_cursor("```rust|");
    state.enter();
    assert_editor_eq(&state, "```rust\n|");
}



#[test]
fn enter_preserves_soft_wrap_style() {
    let mut state = editor_with_cursor("First sentence.\nSecond sentence.|");
    state.enter();
    assert_editor_eq(&state, "First sentence.\nSecond sentence.\n|");
}





#[test]
fn shift_enter_on_list_item_continues_list() {
    let mut state = editor_with_cursor("- item one|");
    state.shift_enter();
    assert_editor_eq(&state, "- item one\n- |");
}



#[test]
fn shift_enter_on_blockquote_continues_blockquote() {
    let mut state = editor_with_cursor("> quote|");
    state.shift_enter();
    assert_editor_eq(&state, "> quote\n> |");
}



#[test]
fn shift_enter_on_nested_container_continues_all() {
    let mut state = editor_with_cursor("> - item|");
    state.shift_enter();
    assert_editor_eq(&state, "> - item\n> - |");
}



#[test]
fn shift_enter_on_paragraph_just_inserts_newline() {
    let mut state = editor_with_cursor("Hello world|");
    state.shift_enter();
    assert_editor_eq(&state, "Hello world\n|");
}



#[test]
fn shift_enter_on_heading_just_inserts_newline() {
    let mut state = editor_with_cursor("# Hello|");
    state.shift_enter();
    assert_editor_eq(&state, "# Hello\n|");
}





#[test]
fn shift_alt_enter_on_list_item_creates_indent() {
    let mut state = editor_with_cursor("- item one|");
    state.shift_alt_enter();
    assert_editor_eq(&state, "- item one\n  |");
}



#[test]
fn shift_alt_enter_on_blockquote_creates_indent_outside() {
    let mut state = editor_with_cursor("> quote|");
    state.shift_alt_enter();
    assert_editor_eq(&state, "> quote\n  |");
}



#[test]
fn shift_alt_enter_on_nested_container_creates_indent_inside() {
    let mut state = editor_with_cursor("> - item|");
    state.shift_alt_enter();
    assert_editor_eq(&state, "> - item\n>   |");
}



#[test]
fn shift_alt_enter_on_paragraph_just_inserts_newline() {
    let mut state = editor_with_cursor("Hello world|");
    state.shift_alt_enter();
    assert_editor_eq(&state, "Hello world\n|");
}





#[test]
fn backspace_deletes_char() {
    let mut state = editor_with_cursor("hello|");
    state.delete_backward();
    assert_editor_eq(&state, "hell|");
}



#[test]
fn backspace_at_line_start_joins_lines() {
    let mut state = editor_with_cursor("line one\n|line two");
    state.delete_backward();
    assert_editor_eq(&state, "line one|line two");
}



#[test]
fn backspace_deletes_entire_list_marker() {
    let mut state = editor_with_cursor("- |");
    state.delete_backward();
    assert_editor_eq(&state, "|");
}



#[test]
fn backspace_deletes_innermost_marker_first() {
    let mut state = editor_with_cursor("> - |");
    state.delete_backward();
    assert_editor_eq(&state, "> |");
}



#[test]
fn backspace_then_deletes_outer_marker() {
    let mut state = editor_with_cursor("> |");
    state.delete_backward();
    assert_editor_eq(&state, "|");
}



#[test]
fn backspace_deletes_entire_indent() {
    let mut state = editor_with_cursor("- item\n  |text");
    state.delete_backward();
    assert_editor_eq(&state, "- item\n|text");
}



#[test]
fn backspace_in_middle_of_text_deletes_char() {
    let mut state = editor_with_cursor("- item o|ne");
    state.delete_backward();
    assert_editor_eq(&state, "- item |ne");
}



#[test]
fn backspace_deletes_single_chinese_grapheme() {
    let mut state = editor_with_cursor("中文|");
    state.delete_backward();
    assert_editor_eq(&state, "中|");
}



#[test]
fn backspace_at_chinese_line_end_does_not_swallow_newline() {
    let mut state = editor_with_cursor("你|\n好");
    state.delete_backward();
    assert_editor_eq(&state, "|\n好");
}



#[test]
fn backspace_deletes_emoji_zwj_as_single_grapheme() {
    let mut state = editor_with_cursor("a👨‍👩‍👧‍👦|b");
    state.delete_backward();
    assert_editor_eq(&state, "a|b");
}



#[test]
fn backspace_on_empty_line_after_list_joins() {
    let mut state = editor_with_cursor("- item one\n|");
    state.delete_backward();
    assert_editor_eq(&state, "- item one|");
}



#[test]
fn backspace_sequence_through_markers_and_join() {
    let mut state = editor_with_cursor("- item one\n- |");
    state.delete_backward();
    assert_editor_eq(&state, "- item one\n|");
    state.delete_backward();
    assert_editor_eq(&state, "- item one|");
}



#[test]
fn backspace_with_content_after_cursor_deletes_marker() {
    let mut state = editor_with_cursor("- |two");
    state.delete_backward();
    assert_editor_eq(&state, "|two");
}



#[test]
fn backspace_deletes_entire_task_list_marker() {
    let mut state = editor_with_cursor("- [ ] |");
    state.delete_backward();
    assert_editor_eq(&state, "- |");
    state.delete_backward();
    assert_editor_eq(&state, "|");
}



#[test]
fn backspace_deletes_checked_task_list_marker() {
    let mut state = editor_with_cursor("- [x] |");
    state.delete_backward();
    assert_editor_eq(&state, "- |");
    state.delete_backward();
    assert_editor_eq(&state, "|");
}







#[test]
fn tab_on_empty_line_after_list_adds_marker() {
    let mut state = editor_with_cursor("- item\n|");
    state.tab();
    assert_editor_eq(&state, "- item\n- |");
}



#[test]
fn tab_twice_after_list_adds_nested_marker() {
    let mut state = editor_with_cursor("- item\n|");
    state.tab();
    state.tab();
    assert_editor_eq(&state, "- item\n  |"); // para indent
    state.tab();
    assert_editor_eq(&state, "- item\n  - |"); // nested marker
}



#[test]
fn tab_three_times_cycles_back() {
    let mut state = editor_with_cursor("- item\n|");
    state.tab();
    state.tab();
    state.tab();
    state.tab();
    assert_editor_eq(&state, "- item\n|");
}



#[test]
fn tab_cycles_ordered_list_after_checkbox() {
    let mut state = editor_with_cursor("## Writ\n- [ ] item\n\n1. hey\n|");

    state.tab();
    assert_editor_eq(&state, "## Writ\n- [ ] item\n\n1. hey\n2. |");

    state.tab();
    assert_editor_eq(&state, "## Writ\n- [ ] item\n\n1. hey\n   |"); // para indent

    state.tab();
    assert_editor_eq(&state, "## Writ\n- [ ] item\n\n1. hey\n   1. |");

    state.tab();
    assert_editor_eq(&state, "## Writ\n- [ ] item\n\n1. hey\n|");
}



#[test]
fn tab_indents_line_with_content() {
    let mut state = editor_with_cursor("1. hey\n2. asdf|");
    state.tab();
    assert_editor_eq(&state, "1. hey\n   asdf|"); // para indent, content preserved
    state.tab();
    assert_editor_eq(&state, "1. hey\n   1. asdf|"); // nested, content preserved
}



#[test]
fn tab_preserves_unchecked_checkbox_state() {
    let mut state = editor_with_cursor("- [x] hey\n- [ ] |");
    state.tab();
    assert_editor_eq(&state, "- [x] hey\n  |"); // para indent
    state.tab();
    assert_editor_eq(&state, "- [x] hey\n  - [ ] |"); // nested
    state.tab();
    assert_editor_eq(&state, "- [x] hey\n|");
    state.tab();
    assert_editor_eq(&state, "- [x] hey\n- [ ] |");
}



#[test]
fn tab_preserves_checked_checkbox_state() {
    let mut state = editor_with_cursor("- [ ] hey\n- [x] |");
    state.tab();
    assert_editor_eq(&state, "- [ ] hey\n  |"); // para indent
    state.tab();
    assert_editor_eq(&state, "- [ ] hey\n  - [x] |"); // nested
    state.tab();
    assert_editor_eq(&state, "- [ ] hey\n|");
    state.tab();
    assert_editor_eq(&state, "- [ ] hey\n- [x] |");
}



#[test]
fn tab_new_checkbox_defaults_unchecked() {
    let mut state = editor_with_cursor("- [x] ~~hey~~\n|");
    state.tab();
    assert_editor_eq(&state, "- [x] ~~hey~~\n- [ ] |");
    state.tab();
    assert_editor_eq(&state, "- [x] ~~hey~~\n  |");
    state.tab();
    assert_editor_eq(&state, "- [x] ~~hey~~\n  - [ ] |");
}



#[test]
fn typing_after_tab_propagates_checkbox() {
    let mut state = editor_with_cursor("- [x] hey\n|");
    state.tab();
    assert_editor_eq(&state, "- [x] hey\n- [ ] |");
    state.tab();
    assert_editor_eq(&state, "- [x] hey\n  |");
    state.tab();
    assert_editor_eq(&state, "- [x] hey\n  - [ ] |");
    state.insert_text("a");
    assert_editor_eq(&state, "- [ ] hey\n  - [ ] a|");
}



#[test]
fn delete_backward_propagates_checkbox() {
    let mut state = editor_with_cursor("- [x] hey\n  - [ ] ab|");
    state.delete_backward();
    assert_editor_eq(&state, "- [ ] hey\n  - [ ] a|");
}



#[test]
fn delete_forward_propagates_checkbox() {
    let mut state = editor_with_cursor("- [x] hey\n  - [ ] |ab");
    state.delete_forward();
    assert_editor_eq(&state, "- [ ] hey\n  - [ ] |b");
}



#[test]
fn delete_forward_deletes_emoji_zwj_as_single_grapheme() {
    let mut state = editor_with_cursor("|👨‍👩‍👧‍👦x");
    state.delete_forward();
    assert_editor_eq(&state, "|x");
}



#[test]
fn delete_checkbox_marker_rechecks_parent() {
    let mut state = editor_with_cursor("- [x] ~~parent~~\n  - [x] ~~nested~~\n|");
    state.tab();
    state.tab();
    state.tab();
    assert_editor_eq(&state, "- [x] ~~parent~~\n  - [x] ~~nested~~\n  - [ ] |");
    state.insert_text("new");
    assert_editor_eq(&state, "- [ ] parent\n  - [x] ~~nested~~\n  - [ ] new|");
    state.delete_backward();
    state.delete_backward();
    state.delete_backward();
    assert_editor_eq(&state, "- [ ] parent\n  - [x] ~~nested~~\n  - [ ] |");
    state.delete_backward();
    assert_editor_eq(&state, "- [ ] parent\n  - [x] ~~nested~~\n  - |");
    state.delete_backward();
    assert_editor_eq(&state, "- [x] ~~parent~~\n  - [x] ~~nested~~\n  |");
}



#[test]
fn tab_with_blank_line_between_still_works() {
    let mut state = editor_with_cursor("- item\n\n|");
    state.tab();
    assert_editor_eq(&state, "- item\n\n- |");
}



#[test]
fn tab_with_two_blank_lines_still_works() {
    let mut state = editor_with_cursor("- item\n\n\n|");
    state.tab();
    assert_editor_eq(&state, "- item\n\n\n- |");
}



#[test]
fn tab_on_blockquote_context_adds_marker() {
    let mut state = editor_with_cursor("> quote\n|");
    state.tab();
    assert_editor_eq(&state, "> quote\n> |");
}



#[test]
fn tab_twice_on_blockquote_context_cycles_back() {
    let mut state = editor_with_cursor("> quote\n|");
    state.tab();
    state.tab();
    assert_editor_eq(&state, "> quote\n|");
}



#[test]
fn tab_on_nested_context_cycles() {
    let mut state = editor_with_cursor("> - item\n|");

    state.tab();
    assert_editor_eq(&state, "> - item\n> |");

    state.tab();
    assert_editor_eq(&state, "> - item\n> - |");

    state.tab();
    assert_editor_eq(&state, "> - item\n>   |"); // para indent

    state.tab();
    assert_editor_eq(&state, "> - item\n>   - |");

    state.tab();
    assert_editor_eq(&state, "> - item\n|");
}





#[test]
fn shift_tab_cycles_backwards() {
    let mut state = editor_with_cursor("- item\n|");
    state.shift_tab();
    assert_editor_eq(&state, "- item\n  - |");
}



#[test]
fn shift_tab_from_marker_goes_to_empty() {
    let mut state = editor_with_cursor("- item\n- |");
    state.shift_tab();
    assert_editor_eq(&state, "- item\n|");
}



#[test]
fn shift_tab_from_nested_marker_goes_to_marker() {
    let mut state = editor_with_cursor("- item\n  - |");
    state.shift_tab();
    assert_editor_eq(&state, "- item\n  |"); // para indent
    state.shift_tab();
    assert_editor_eq(&state, "- item\n- |");
}



#[test]
fn tab_after_blank_line_includes_para_indent() {
    let mut state = editor_with_cursor("- parent\n  - nested\n\n|");

    state.tab();
    assert_editor_eq(&state, "- parent\n  - nested\n\n- |");

    state.tab();
    assert_editor_eq(&state, "- parent\n  - nested\n\n  |"); // para indent

    state.tab();
    assert_editor_eq(&state, "- parent\n  - nested\n\n  - |");

    state.tab();
    assert_editor_eq(&state, "- parent\n  - nested\n\n    |"); // nested para indent

    state.tab();
    assert_editor_eq(&state, "- parent\n  - nested\n\n    - |");

    state.tab();
    assert_editor_eq(&state, "- parent\n  - nested\n\n|"); // back to empty
}



#[test]
fn tab_no_blank_line_includes_para_indent() {
    let mut state = editor_with_cursor("- parent item\n  - nested with tab\n|");

    state.tab();
    assert_editor_eq(&state, "- parent item\n  - nested with tab\n- |");

    state.tab();
    assert_editor_eq(&state, "- parent item\n  - nested with tab\n  |"); // para indent

    state.tab();
    assert_editor_eq(&state, "- parent item\n  - nested with tab\n  - |");

    state.tab();
    assert_editor_eq(&state, "- parent item\n  - nested with tab\n    |"); // nested para indent

    state.tab();
    assert_editor_eq(&state, "- parent item\n  - nested with tab\n    - |");

    state.tab();
    assert_editor_eq(&state, "- parent item\n  - nested with tab\n|");
}



#[test]
fn tab_with_trailing_newline() {
    let mut state = editor_with_cursor("- parent item\n  - nested with tab\n|\n");

    state.tab();
    assert_editor_eq(&state, "- parent item\n  - nested with tab\n- |\n");

    state.tab();
    assert_editor_eq(&state, "- parent item\n  - nested with tab\n  |\n"); // para indent

    state.tab();
    assert_editor_eq(&state, "- parent item\n  - nested with tab\n  - |\n");

    state.tab();
    assert_editor_eq(&state, "- parent item\n  - nested with tab\n    |\n"); // nested para indent

    state.tab();
    assert_editor_eq(&state, "- parent item\n  - nested with tab\n    - |\n");

    state.tab();
    assert_editor_eq(&state, "- parent item\n  - nested with tab\n|\n");
}



#[test]
fn tab_task_list_uses_list_marker_width_not_full_marker() {
    let mut state = editor_with_cursor("- [ ] hey\n\n|");

    state.tab();
    assert_editor_eq(&state, "- [ ] hey\n\n- [ ] |");

    state.tab();
    assert_editor_eq(&state, "- [ ] hey\n\n  |"); // 2 spaces, not 6

    state.tab();
    assert_editor_eq(&state, "- [ ] hey\n\n  - [ ] |"); // nested at 2 spaces

    state.tab();
    assert_editor_eq(&state, "- [ ] hey\n\n|");
}





#[test]
fn move_left_through_marker_is_atomic() {
    let mut state = editor_with_cursor("- |item");
    state.move_left();
    assert_editor_eq(&state, "|- item");
}



#[test]
fn move_right_through_marker_is_atomic() {
    let mut state = editor_with_cursor("|- item");
    state.move_right();
    assert_editor_eq(&state, "- |item");
}



#[test]
fn move_left_through_nested_markers_one_at_a_time() {
    let mut state = editor_with_cursor("> - |item");
    state.move_left();
    assert_editor_eq(&state, "> |- item");
    state.move_left();
    assert_editor_eq(&state, "|> - item");
}



#[test]
fn move_left_does_not_skip_blank_lines() {
    let mut state = editor_with_cursor("line one\n\n|line three");
    state.move_left();
    assert_editor_eq(&state, "line one\n|\nline three");
}



#[test]
fn move_left_from_blank_line_goes_to_previous() {
    let mut state = editor_with_cursor("line one\n|\nline three");
    state.move_left();
    assert_editor_eq(&state, "line one|\n\nline three");
}



#[test]
fn move_up_maintains_column_in_content_area() {
    let mut state = editor_with_cursor("- item one\n- item |two");
    state.move_up();
    assert_editor_eq(&state, "- item |one\n- item two");
}



#[test]
fn move_left_through_blockquote_ordered_list() {
    let mut state = editor_with_cursor("> 1. |");
    state.move_left();
    assert_editor_eq(&state, "> |1. ");
    state.move_left();
    assert_editor_eq(&state, "|> 1. ");
}





#[test]
fn check_parent_checks_all_children() {
    let mut state = editor_with_cursor("- [ ] |parent\n  - [ ] child1\n  - [ ] child2\n");
    state.toggle_checkbox_for_test(0);
    let text = state.text();
    assert!(text.contains("[x] ~~parent~~"), "parent should be checked");
    assert!(text.contains("[x] ~~child1~~"), "child1 should be checked");
    assert!(text.contains("[x] ~~child2~~"), "child2 should be checked");
}



#[test]
fn uncheck_parent_unchecks_all_children() {
    let mut state =
        editor_with_cursor("- [x] ~~|parent~~\n  - [x] ~~child1~~\n  - [x] ~~child2~~\n");
    state.toggle_checkbox_for_test(0);
    let text = state.text();
    assert!(text.contains("[ ] parent"), "parent should be unchecked");
    assert!(text.contains("[ ] child1"), "child1 should be unchecked");
    assert!(text.contains("[ ] child2"), "child2 should be unchecked");
    assert!(!text.contains("~~"), "no strikethrough should remain");
}



#[test]
fn check_all_siblings_checks_parent() {
    let mut state =
        editor_with_cursor("- [ ] parent\n  - [x] ~~child1~~\n  - [ ] |child2\n");
    state.toggle_checkbox_for_test(2);
    let text = state.text();
    assert!(
        text.contains("[x] ~~parent~~"),
        "parent should be auto-checked"
    );
    assert!(
        text.contains("[x] ~~child1~~"),
        "child1 should remain checked"
    );
    assert!(text.contains("[x] ~~child2~~"), "child2 should be checked");
}



#[test]
fn uncheck_child_unchecks_parent() {
    let mut state =
        editor_with_cursor("- [x] ~~parent~~\n  - [x] ~~|child1~~\n  - [x] ~~child2~~\n");
    state.toggle_checkbox_for_test(1);
    let text = state.text();
    assert!(text.contains("[ ] parent"), "parent should be unchecked");
    assert!(text.contains("[ ] child1"), "child1 should be unchecked");
    assert!(
        text.contains("[x] ~~child2~~"),
        "child2 should remain checked"
    );
}



#[test]
fn deeply_nested_propagation_down() {
    let mut state = editor_with_cursor("- [ ] |level1\n  - [ ] level2\n    - [ ] level3\n");
    state.toggle_checkbox_for_test(0);
    let text = state.text();
    assert!(text.contains("[x] ~~level1~~"), "level1 should be checked");
    assert!(text.contains("[x] ~~level2~~"), "level2 should be checked");
    assert!(text.contains("[x] ~~level3~~"), "level3 should be checked");
}



#[test]
fn deeply_nested_propagation_up() {
    let mut state = editor_with_cursor("- [ ] level1\n  - [ ] level2\n    - [ ] |level3\n");
    state.toggle_checkbox_for_test(2);
    let text = state.text();
    assert!(
        text.contains("[x] ~~level1~~"),
        "level1 should be auto-checked"
    );
    assert!(
        text.contains("[x] ~~level2~~"),
        "level2 should be auto-checked"
    );
    assert!(text.contains("[x] ~~level3~~"), "level3 should be checked");
}



#[test]
fn mixed_siblings_parent_stays_unchecked() {
    let mut state = editor_with_cursor("- [ ] parent\n  - [ ] |child1\n  - [ ] child2\n");
    state.toggle_checkbox_for_test(1);
    let text = state.text();
    assert!(text.contains("[ ] parent"), "parent should stay unchecked");
    assert!(text.contains("[x] ~~child1~~"), "child1 should be checked");
    assert!(text.contains("[ ] child2"), "child2 should stay unchecked");
}





#[test]
fn nested_context_simple_list() {
    let state = EditorState::new("- item\n");
    let cursor_offset = 2;
    let markers = state.build_nested_context(cursor_offset);
    assert_eq!(markers.len(), 1);
    assert!(matches!(
        markers[0],
        MarkerKind::ListItem { ordered: false, .. }
    ));
}



#[test]
fn nested_context_nested_list() {
    let state = EditorState::new("- parent\n  - child\n");
    let cursor_offset = 14;
    let markers = state.build_nested_context(cursor_offset);
    assert_eq!(markers.len(), 2);
    assert!(matches!(
        markers[0],
        MarkerKind::ListItem { ordered: false, .. }
    ));
    assert!(matches!(
        markers[1],
        MarkerKind::ListItem { ordered: false, .. }
    ));
}



#[test]
fn nested_context_checkbox_nested() {
    let state = EditorState::new("- [x] parent\n  - [ ] child\n");
    let cursor_offset = 20;
    let markers = state.build_nested_context(cursor_offset);
    assert_eq!(markers.len(), 4);
    assert!(matches!(
        markers[0],
        MarkerKind::ListItem { ordered: false, .. }
    ));
    assert!(matches!(markers[1], MarkerKind::Checkbox { checked: true }));
    assert!(matches!(
        markers[2],
        MarkerKind::ListItem { ordered: false, .. }
    ));
    assert!(matches!(
        markers[3],
        MarkerKind::Checkbox { checked: false }
    ));
}



#[test]
fn nested_context_blockquote_list() {
    let state = EditorState::new("> - item\n");
    let cursor_offset = 4;
    let markers = state.build_nested_context(cursor_offset);
    assert_eq!(markers.len(), 2);
    assert!(matches!(markers[0], MarkerKind::BlockQuote));
    assert!(matches!(
        markers[1],
        MarkerKind::ListItem { ordered: false, .. }
    ));
}



#[test]
fn nested_context_ordered_list() {
    let state = EditorState::new("1. first\n2. second\n");
    let cursor_offset = 12;
    let markers = state.build_nested_context(cursor_offset);
    assert_eq!(markers.len(), 1);
    assert!(matches!(
        markers[0],
        MarkerKind::ListItem { ordered: true, .. }
    ));
}



#[test]
fn nested_context_empty_line() {
    let state = EditorState::new("hello\n");
    let cursor_offset = 2;
    let markers = state.build_nested_context(cursor_offset);
    assert_eq!(markers.len(), 0);
}

/// Prints the nodes of the block structure with their depths and ranges.
fn print_nodes(state: &EditorState) {
    if let Some(nodes) = state.buffer.nodes() {
        let mut depths: Vec<usize> = Vec::new();
        for node in nodes {
            let depth = match node.parent {
                Some(p) => depths[p] + 1,
                None => 0,
            };
            depths.push(depth);
            println!(
                "{}{:?} [{}-{}]",
                "  ".repeat(depth),
                node.kind,
                node.start,
                node.end
            );
        }
    }
}

#[test]
fn check_blockquote_list_paragraph() {
    let state = EditorState::new("> - hey\n>   paragraph\n");
    print_nodes(&state);
}

#[test]
fn check_simple_list_paragraph() {
    let state = EditorState::new("- hey\n  paragraph\n");
    print_nodes(&state);
}

#[test]
fn show_tree_detail() {
    let content = "> - hey\n>   paragraph\n";
    println!("Content: {:?}", content);
    println!("Bytes:");
    for (i, b) in content.bytes().enumerate() {
        println!("  {}: {:?} ({})", i, b as char, b);
    }
    let state = EditorState::new(content);
    print_nodes(&state);
}
