use writ::diff::{is_in_lines, DiffState, Hunk, InlineChanges};
use writ::editor::Editor;
use writ::marker::Span;
use writ::review::{concerns_file, watch_target, WatchTarget, WatchedChange};
use writ::snapshot::RenderSnapshot;

fn span(start: usize, end: usize) -> Span {
    Span { start, end }
}

fn hunk(old: (usize, usize), new: (usize, usize)) -> Hunk {
    Hunk { old_lines: span(old.0, old.1), new_lines: span(new.0, new.1) }
}

fn diff(old: &str, hunks: Vec<Hunk>) -> DiffState {
    DiffState {
        old_snapshot: RenderSnapshot::of_text(old),
        hunks,
        new_changes: Vec::new(),
        old_changes: Vec::new(),
    }
}

/// The old text `a b c d`, line by line, of which `b` became `B1 B2` and `d` was
/// taken out.
fn under_review() -> Editor {
    let mut e = Editor::new("a\nB1\nB2\nc\n");
    e.set_diff_state(Some(diff(
        "a\nb\nc\nd\n",
        vec![hunk((1, 2), (1, 3)), hunk((3, 4), (4, 4))],
    )));
    e
}

#[test]
fn a_hunk_is_found_by_its_new_lines() {
    let d = diff("", vec![hunk((1, 2), (1, 3)), hunk((3, 4), (4, 4))]);
    assert_eq!(d.hunk_at_line(0), None);
    assert_eq!(d.hunk_at_line(1), Some(0));
    assert_eq!(d.hunk_at_line(2), Some(0));
    assert_eq!(d.hunk_at_line(3), None);
    assert_eq!(d.hunk_at_line(4), Some(1));
    assert!(d.is_addition(2));
    assert!(!d.is_addition(3));
    assert_eq!(d.ghost_lines_before(1), Some(span(1, 2)));
    assert_eq!(d.ghost_lines_before(4), Some(span(3, 4)));
    assert_eq!(d.ghost_lines_before(2), None);
    assert!(is_in_lines(span(1, 3), 2));
    assert!(!is_in_lines(span(1, 3), 3));
}

#[test]
fn changed_words_are_kept_by_line() {
    let mut d = diff("a", vec![]);
    d.new_changes = vec![InlineChanges { line: 2, ranges: vec![span(4, 6)] }];
    d.old_changes = vec![InlineChanges { line: 0, ranges: vec![span(0, 1)] }];
    assert_eq!(d.new_inline_changes(2), vec![span(4, 6)]);
    assert!(d.new_inline_changes(0).is_empty());
    assert_eq!(d.old_inline_changes(0), vec![span(0, 1)]);
}

#[test]
fn removing_a_hunk_moves_the_later_ones() {
    let mut d = diff("", vec![hunk((0, 1), (0, 2)), hunk((5, 6), (6, 7))]);
    d.remove_hunk(0, 1, 2);
    assert_eq!(d.hunks, vec![hunk((5, 6), (5, 6))]);
}

#[test]
fn accepting_moves_no_other_hunk() {
    let mut e = under_review();
    e.set_cursor(2);
    assert!(e.accept_current_hunk());
    assert_eq!(e.text(), "a\nB1\nB2\nc\n");
    let left = e.diff_state().expect("a hunk is left");
    assert_eq!(left.hunks, vec![hunk((3, 4), (4, 4))]);
}

#[test]
fn nothing_is_decided_away_from_a_hunk() {
    let mut e = under_review();
    e.set_cursor(0);
    e.accept_current_hunk();
    e.reject_current_hunk();
    assert_eq!(e.text(), "a\nB1\nB2\nc\n");
    assert_eq!(e.diff_state().expect("still under review").hunks.len(), 2);
}

#[test]
fn rejecting_puts_the_old_lines_back() {
    let mut e = under_review();
    e.set_cursor(2);
    assert!(e.reject_current_hunk());
    assert_eq!(e.text(), "a\nb\nc\n");
    assert_eq!(e.diff_state().expect("a hunk is left").hunks, vec![hunk((3, 4), (3, 3))]);
    e.move_to_end();
    assert!(e.reject_current_hunk());
    assert_eq!(e.text(), "a\nb\nc\nd\n");
    assert!(e.diff_state().is_none());
}

#[test]
fn deciding_on_the_last_hunk_ends_the_review() {
    let mut e = under_review();
    e.set_cursor(2);
    e.accept_current_hunk();
    e.move_to_end();
    e.accept_current_hunk();
    assert!(e.diff_state().is_none());
    assert_eq!(e.text(), "a\nB1\nB2\nc\n");
}

#[test]
fn accepting_all_keeps_the_text() {
    let mut e = under_review();
    assert!(e.accept_all_hunks());
    assert!(e.diff_state().is_none());
    assert_eq!(e.text(), "a\nB1\nB2\nc\n");
}

#[test]
fn rejecting_all_restores_the_old_text() {
    let mut e = under_review();
    assert!(e.reject_all_hunks());
    assert!(e.diff_state().is_none());
    assert_eq!(e.text(), "a\nb\nc\nd\n");
    assert!(!e.reject_all_hunks());
}

#[test]
fn a_file_is_not_reloaded_while_it_matters() {
    let mut e = Editor::new("a");
    assert!(e.should_reload(true, false));
    assert!(!e.should_reload(false, false));
    assert!(!e.should_reload(true, true));
    e.set_pending_agent_write(true);
    assert!(!e.should_reload(true, false));
    e.set_pending_agent_write(false);
    e.set_diff_state(Some(diff("", vec![])));
    assert!(!e.should_reload(true, false));
}

#[test]
fn reloading_the_same_text_changes_nothing() {
    let mut e = Editor::new("a");
    e.insert("x");
    assert!(!e.reload("xa"));
    assert_eq!(e.cursor_position(), 1);
    assert!(e.reload("b"));
    assert_eq!(e.text(), "b");
    assert_eq!(e.cursor_position(), 0);
}

#[test]
fn only_changes_of_the_file_concern_it() {
    assert!(concerns_file(WatchedChange::Modified, false));
    assert!(concerns_file(WatchedChange::Created, true));
    assert!(!concerns_file(WatchedChange::Created, false));
    assert!(!concerns_file(WatchedChange::Other, true));
    assert!(matches!(watch_target(true, false), WatchTarget::File));
    assert!(matches!(watch_target(false, true), WatchTarget::Directory));
    assert!(matches!(watch_target(false, false), WatchTarget::Nothing));
}
