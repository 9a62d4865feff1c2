use writ::diff::{DiffState, Hunk, InlineChanges};
use writ::editor::{Editor, LineRefs, LineUrls};
use writ::github::{GitHubRef, NakedUrl, RawGitHubMatch};
use writ::marker::{MarkerKind, Span};
use writ::snapshot::{render_snapshot_for_title, RenderSnapshot};
use writ::view::{list_splice, CursorView, LineBackground, ListSplice, ScrollRequest};

fn span(start: usize, end: usize) -> Span {
    Span { start, end }
}

#[test]
fn a_list_grows_and_shrinks_at_its_end() {
    assert_eq!(list_splice(5, 3), Some(ListSplice { start: 3, end: 3, count: 2 }));
    assert_eq!(list_splice(2, 6), Some(ListSplice { start: 2, end: 6, count: 0 }));
    assert_eq!(list_splice(4, 4), None);
}

#[test]
fn a_changed_text_is_drawn_anew() {
    let mut e = Editor::new("a");
    e.begin_draw();
    assert!(!e.begin_draw());
    e.insert("b");
    assert!(e.begin_draw());
    assert!(!e.begin_draw());
}

#[test]
fn the_title_follows_the_primary_editor() {
    let mut e = Editor::new("a");
    assert_eq!(e.title_update(false), None);
    assert_eq!(e.title_update(true), Some(false));
    e.insert("b");
    assert_eq!(e.title_update(false), Some(true));
    e.set_primary(false);
    assert_eq!(e.title_update(false), None);
    assert!(e.status_info(0, 0).is_none());
}

#[test]
fn the_status_tells_where_the_cursor_is() {
    let mut e = Editor::new("# One\n\n## Two\n- [x] ab\n");
    e.set_cursor(22);
    let info = e.status_info(1, 3).expect("the primary editor's");
    assert_eq!(info.cursor_line, 4);
    assert_eq!(info.cursor_col, 9);
    assert_eq!(info.total_lines, 5);
    assert_eq!(info.heading_level, Some(2));
    assert_eq!((info.first_visible_line, info.last_visible_line), (1, 3));
    assert_eq!(info.context_markers.len(), 2);
    assert!(matches!(info.context_markers[1], MarkerKind::Checkbox { checked: true }));
    assert_eq!(e.find_current_heading(1), Some(1));
    assert_eq!(Editor::new("plain").find_current_heading(0), None);
}

#[test]
fn the_cursor_is_drawn_in_the_focus_only() {
    let mut e = Editor::new("abc");
    e.set_cursor(1);
    assert_eq!(e.cursor_view(true), CursorView { offset: 1, selection: None });
    assert_eq!(e.cursor_view(false), CursorView { offset: usize::MAX, selection: None });
    e.state.handle_drag(3);
    assert_eq!(e.cursor_view(true), CursorView { offset: 3, selection: Some(span(1, 3)) });
    e.set_input_blocked(true);
    assert_eq!(e.cursor_view(true), CursorView { offset: usize::MAX, selection: None });
}

#[test]
fn a_second_frame_scrolls_nothing() {
    let mut e = Editor::new("a\nb");
    assert_eq!(e.take_scroll_request(), (ScrollRequest::Reveal, 0));
    assert_eq!(e.take_scroll_request(), (ScrollRequest::Stay, 0));
    e.set_cursor(2);
    assert_eq!(e.take_scroll_request(), (ScrollRequest::Reveal, 1));
    e.request_scroll_to_cursor();
    assert_eq!(e.take_scroll_request(), (ScrollRequest::Follow, 1));
    assert_eq!(e.take_scroll_request(), (ScrollRequest::Stay, 1));
    e.begin_streaming();
    assert_eq!(e.take_scroll_request(), (ScrollRequest::Follow, 1));
    assert_eq!(e.take_scroll_request(), (ScrollRequest::Follow, 1));
}

#[test]
fn a_line_is_drawn_with_what_belongs_to_it() {
    let mut e = Editor::new("a\nB #1\n");
    e.append_user_message("hi");
    e.set_diff_state(Some(DiffState {
        old_snapshot: RenderSnapshot::of_text("a\nb\n"),
        hunks: vec![Hunk { old_lines: span(1, 2), new_lines: span(1, 2) }],
        new_changes: vec![InlineChanges { line: 1, ranges: vec![span(2, 3)] }],
        old_changes: vec![InlineChanges { line: 1, ranges: vec![span(2, 3)] }],
    }));
    let reference = GitHubRef::User { login: "jo".to_string() };
    let refs = vec![LineRefs {
        line: 1,
        refs: vec![RawGitHubMatch { byte_range: span(4, 6), reference: reference.copy() }],
    }];
    let urls = vec![LineUrls {
        line: 1,
        urls: vec![
            NakedUrl { byte_range: span(2, 3), url: "u".to_string(), github_ref: None },
            NakedUrl { byte_range: span(2, 4), url: "v".to_string(), github_ref: Some(reference) },
        ],
    }];
    e.set_links(refs, urls);
    e.flags.hovered_github_ref_range = Some(span(4, 6));

    let first = e.line_view(0).expect("a line");
    assert!(first.is_first && !first.is_last);
    assert!(first.takes_input);
    assert_eq!(first.background, None);
    assert!(first.ghosts.is_empty() && first.highlights.is_empty() && first.ref_ranges.is_empty());
    assert_eq!(first.hovered_ref, None);

    let second = e.line_view(1).expect("a line");
    assert_eq!(second.background, Some(LineBackground::Addition));
    assert_eq!(second.highlights, vec![span(2, 3)]);
    assert_eq!(second.ghosts.len(), 1);
    assert_eq!(second.ghosts[0].line, 1);
    assert_eq!(second.ghosts[0].highlights, vec![span(2, 3)]);
    assert_eq!(second.ref_ranges, vec![span(4, 6), span(2, 4)]);
    assert_eq!(second.hovered_ref, Some(span(4, 6)));

    let message = e.line_view(2).expect("a line");
    assert_eq!(message.background, Some(LineBackground::UserMessage));
    assert!(e.line_view(9).is_none());
}

#[test]
fn old_lines_that_are_not_there_are_not_drawn() {
    let mut e = Editor::new("a\n");
    e.set_diff_state(Some(DiffState {
        old_snapshot: RenderSnapshot::of_text("x"),
        hunks: vec![Hunk { old_lines: span(0, 3), new_lines: span(1, 1) }],
        new_changes: vec![],
        old_changes: vec![],
    }));
    let v = e.line_view(1).expect("a line");
    assert_eq!(v.ghosts.iter().map(|g| g.line).collect::<Vec<usize>>(), vec![0]);
    assert!(v.is_last);
}

#[test]
fn the_mouse_points_at_what_can_be_clicked() {
    let mut e = Editor::new("");
    assert!(!e.shows_pointer());
    e.flags.hovering_link_region = true;
    assert!(!e.shows_pointer());
    e.on_modifiers_changed(true, false);
    assert!(e.shows_pointer());
    e.on_modifiers_changed(false, false);
    e.flags.hovering_checkbox = true;
    assert!(e.shows_pointer());
}

#[test]
fn a_click_below_the_text_goes_to_its_end() {
    let mut e = Editor::new("abc");
    assert!(!e.on_mouse_down(true, true));
    assert!(!e.on_mouse_down(false, false));
    assert_eq!(e.cursor_position(), 0);
    assert!(e.on_mouse_down(false, true));
    assert_eq!(e.cursor_position(), 3);
    e.set_cursor(0);
    e.set_input_blocked(true);
    assert!(!e.on_mouse_down(false, true));
    assert_eq!(e.cursor_position(), 0);
}

#[test]
fn dragging_at_the_edge_extends_line_by_line() {
    let mut e = Editor::new("one\ntwo\nthree");
    e.set_cursor(5);
    e.drag_scroll(false);
    assert_eq!(e.selection_range(), Some(5..9));
    e.drag_scroll(true);
    e.drag_scroll(true);
    assert_eq!(e.selection_range(), Some(1..5));
}

#[test]
fn a_snapshot_keeps_its_text() {
    let mut e = Editor::new("# a\nbé");
    let s = e.render_snapshot();
    e.insert("x");
    assert_eq!(s.text(), "# a\nbé");
    assert_eq!(s.line_count(), 2);
    assert_eq!(s.line_text(0), "# a");
    assert_eq!(s.line_text(1), "bé");
    assert_eq!(s.line_text(7), "");
    assert!(s.has_line(1));
    assert!(!s.has_line(2));
    assert!(matches!(s.line_markers(0).markers[0].kind, MarkerKind::Heading(1)));
    assert_eq!(render_snapshot_for_title("fix `a`").text(), "fix `a`");
}
