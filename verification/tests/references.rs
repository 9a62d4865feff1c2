use writ::action::Keystroke;
use writ::autocomplete::{
    detect_autocomplete_trigger, set_autocomplete_state, suggest_issues, suggest_users,
    AutocompleteState, AutocompleteSuggestion, AutocompleteTrigger,
};
use writ::editor::{Editor, LineRefs, LineUrls};
use writ::github::{
    GitHubContext, GitHubRef, GitHubUser, GitHubValidationCache, IssueOrPr, IssueStatus, NakedUrl,
    RawGitHubMatch, ValidatedRefData, ValidationResult, ValidationState,
};
use writ::links::{code_ranges, draw_order, keep_refs, keep_urls, link_ranges, list_refs, StyledSpan};
use writ::marker::Span;
use writ::popup::{issue_label, status_color, user_label, HoverBody, StatusColor};

fn issue(number: u64) -> GitHubRef {
    GitHubRef::Issue { owner: "o".to_string(), repo: "r".to_string(), number }
}

fn user(login: &str) -> GitHubRef {
    GitHubRef::User { login: login.to_string() }
}

fn found(number: u64, title: &str) -> IssueOrPr {
    IssueOrPr { number, title: title.to_string(), is_pull_request: false, status: IssueStatus::Open }
}

fn connected(text: &str) -> Editor {
    let mut e = Editor::new(text);
    e.move_to_end();
    e.set_github_context(GitHubContext { owner: "o".to_string(), repo: "r".to_string() });
    e.set_github_client();
    e
}

fn press(e: &mut Editor, name: &str) {
    e.on_key_down(&Keystroke {
        key: name.to_string(),
        key_char: None,
        control: false,
        platform: false,
        alt: false,
        shift: false,
    });
}

// ---------------------------------------------------------------------------
// Detecting
// ---------------------------------------------------------------------------

fn detected(line: &str) -> Option<(AutocompleteTrigger, usize, String)> {
    detect_autocomplete_trigger(line, 10)
}

#[test]
fn issues_and_users_are_detected_while_typed() {
    let issue = AutocompleteTrigger::Issue;
    let user = AutocompleteTrigger::User;
    assert_eq!(detected("see #12"), Some((issue, 14, "12".to_string())));
    assert_eq!(detected("#"), Some((issue, 10, "".to_string())));
    assert_eq!(detected("#fix me"), Some((issue, 10, "fix me".to_string())));
    assert_eq!(detected("hi @jo-é"), Some((user, 13, "jo-é".to_string())));
    assert_eq!(detected("#1 @jo"), Some((user, 13, "jo".to_string())));
    assert_eq!(detected("@jo #1"), Some((issue, 14, "1".to_string())));
}

#[test]
fn what_is_no_reference_is_not_detected() {
    assert_eq!(detected("# heading"), None);
    assert_eq!(detected("a#1"), None);
    assert_eq!(detected("me@example"), None);
    assert_eq!(detected("@jo done"), None);
    assert_eq!(detected("@-jo"), None);
    assert_eq!(detected("plain"), None);
}

// ---------------------------------------------------------------------------
// The completion under way
// ---------------------------------------------------------------------------

#[test]
fn the_same_prefix_is_not_fetched_again() {
    let (mut ac, fetch) =
        set_autocomplete_state(None, AutocompleteTrigger::Issue, 0, "1".to_string());
    assert!(fetch);
    ac.begin_fetch();
    let (ac, fetch) =
        set_autocomplete_state(Some(ac), AutocompleteTrigger::Issue, 0, "12".to_string());
    assert!(fetch);
    let (ac, fetch) =
        set_autocomplete_state(Some(ac), AutocompleteTrigger::Issue, 0, "1".to_string());
    assert!(!fetch);
    let (_, fetch) =
        set_autocomplete_state(Some(ac), AutocompleteTrigger::User, 0, "1".to_string());
    assert!(fetch);
}

#[test]
fn selecting_on_and_back_leads_nowhere() {
    let mut ac = AutocompleteState {
        trigger: AutocompleteTrigger::User,
        trigger_offset: 0,
        prefix: String::new(),
        suggestions: vec![
            AutocompleteSuggestion::User { login: "a".to_string(), name: None },
            AutocompleteSuggestion::User { login: "b".to_string(), name: None },
            AutocompleteSuggestion::User { login: "c".to_string(), name: None },
        ],
        selected_index: 0,
        loading: false,
        fetched_prefix: None,
    };
    for want in [1, 2, 0] {
        let before = ac.selected_index;
        ac.select_next();
        assert_eq!(ac.selected_index, want);
        ac.select_previous();
        assert_eq!(ac.selected_index, before);
        ac.select_next();
    }
    ac.select_previous();
    assert_eq!(ac.selected_index, 2);
}

#[test]
fn a_typed_number_is_suggested_first() {
    let mut cache = GitHubValidationCache::new();
    cache.set_valid(issue(12), Some(ValidatedRefData::Issue(found(12, "twelve"))));
    let listed = vec![found(120, "one hundred and twenty")];
    let (o, r) = ("o".to_string(), "r".to_string());
    let s = suggest_issues(&cache, &o, &r, &"12".to_string(), &listed);
    let numbers: Vec<u64> = s
        .iter()
        .map(|s| match s {
            AutocompleteSuggestion::IssueOrPr { number, .. } => *number,
            AutocompleteSuggestion::User { .. } => 0,
        })
        .collect();
    assert_eq!(numbers, vec![12, 120]);
    assert_eq!(suggest_issues(&cache, &o, &r, &"x".to_string(), &listed).len(), 1);
    let listed = vec![found(12, "twelve")];
    assert_eq!(suggest_issues(&cache, &o, &r, &"12".to_string(), &listed).len(), 1);
}

#[test]
fn users_are_suggested_as_they_are() {
    let users = vec![GitHubUser { login: "jo".to_string(), name: Some("Jo".to_string()) }];
    let s = suggest_users(&users);
    assert!(matches!(
        &s[0],
        AutocompleteSuggestion::User { login, name: Some(n) } if login == "jo" && n == "Jo"
    ));
}

#[test]
fn a_completion_runs_from_typing_to_accepting() {
    let mut e = connected("see #1");
    assert!(e.note_cursor());
    assert!(!e.note_cursor());
    let q = e.begin_fetch().expect("something to fetch");
    assert_eq!((q.owner.as_str(), q.repo.as_str(), q.prefix.as_str()), ("o", "r", "1"));
    assert_eq!(e.popup_len(), 0);
    assert!(e.finish_issue_fetch(&q.owner, &q.repo, &q.prefix, &vec![
        found(10, "ten"),
        found(11, "eleven"),
    ]));
    assert_eq!(e.popup_len(), 2);
    assert!(e.popup_is_wide());
    let first = e.popup_item(0).expect("shown");
    assert!(first.is_selected && first.is_first && !first.is_last);
    press(&mut e, "down");
    let second = e.popup_item(1).expect("shown");
    assert!(second.is_selected && !second.is_first && second.is_last);
    assert_eq!(e.popup_item(2), None);
    press(&mut e, "enter");
    assert_eq!(e.text(), "see #11");
    assert_eq!(e.cursor_position(), 7);
    assert!(e.autocomplete.is_none());
}

#[test]
fn late_suggestions_are_dropped() {
    let mut e = connected("@jo");
    assert!(e.update_autocomplete_from_cursor());
    let q = e.begin_fetch().expect("something to fetch");
    e.insert("e");
    e.update_autocomplete_from_cursor();
    let users = vec![GitHubUser { login: "jo".to_string(), name: None }];
    assert!(!e.finish_user_fetch(&q.prefix, &users));
    assert_eq!(e.popup_len(), 0);
    assert!(e.finish_user_fetch(&"joe".to_string(), &users));
    assert_eq!(e.popup_len(), 1);
    assert!(!e.popup_is_wide());
    assert!(!e.select_suggestion(0));
    press(&mut e, "escape");
    assert!(e.autocomplete.is_none());
}

#[test]
fn fetched_issues_are_known_to_exist() {
    let mut e = connected("plain");
    assert!(!e.finish_issue_fetch(
        &"o".to_string(),
        &"r".to_string(),
        &"1".to_string(),
        &vec![found(1, "one")],
    ));
    assert!(matches!(e.links.cache.get(&issue(1)), Some(ValidationState::Valid(Some(_)))));
}

#[test]
fn nothing_is_completed_without_a_repository() {
    let mut e = Editor::new("#1");
    e.move_to_end();
    assert!(!e.update_autocomplete_from_cursor());
    assert!(e.autocomplete.is_none());
    assert!(e.begin_fetch().is_none());
    assert!(!e.accept_autocomplete_suggestion());
}

#[test]
fn a_known_reference_around_the_cursor_is_completed() {
    let mut e = connected("#12 x");
    e.set_cursor(1);
    let line = LineRefs {
        line: 0,
        refs: vec![RawGitHubMatch { byte_range: Span { start: 0, end: 3 }, reference: issue(12) }],
    };
    e.set_links(vec![line], vec![]);
    assert!(e.update_autocomplete_from_cursor());
    let ac = e.autocomplete.as_ref().expect("a completion");
    assert_eq!((ac.trigger_offset, ac.prefix.as_str()), (0, "12"));
}

// ---------------------------------------------------------------------------
// What is known of references
// ---------------------------------------------------------------------------

#[test]
fn what_was_noted_is_known() {
    let mut cache = GitHubValidationCache::new();
    assert!(cache.get(&issue(1)).is_none());
    cache.mark_pending(issue(1));
    cache.set_invalid(issue(2));
    cache.set_result(user("jo"), ValidationResult::ValidNoData);
    assert!(matches!(cache.get(&issue(1)), Some(ValidationState::Pending)));
    assert!(matches!(cache.get(&issue(2)), Some(ValidationState::Invalid)));
    assert!(matches!(cache.get(&user("jo")), Some(ValidationState::Valid(None))));
    assert!(cache.get(&user("Jo")).is_none());
    cache.set_result(issue(1), ValidationResult::Invalid);
    assert!(matches!(cache.get(&issue(1)), Some(ValidationState::Invalid)));
    cache.clear();
    assert!(cache.get(&issue(2)).is_none());
}

#[test]
fn nothing_is_asked_twice() {
    let mut e = connected("");
    let refs = vec![issue(1), user("jo"), issue(1)];
    assert_eq!(e.queue_validation(&refs).len(), 2);
    assert_eq!(e.queue_validation(&refs).len(), 0);
    e.finish_validation(issue(1), ValidationResult::Invalid);
    assert!(matches!(e.links.cache.get(&issue(1)), Some(ValidationState::Invalid)));
    assert_eq!(e.queue_validation(&refs).len(), 0);
}

#[test]
fn nobody_to_ask_means_nothing_to_ask() {
    let mut e = Editor::new("");
    assert_eq!(e.queue_validation(&vec![issue(1)]).len(), 0);
    assert!(e.links.cache.get(&issue(1)).is_none());
}

#[test]
fn refreshing_asks_for_everything_anew() {
    let mut e = connected("");
    e.queue_validation(&vec![issue(1), issue(2)]);
    let mut lines: Vec<LineRefs> = Vec::new();
    keep_refs(&mut lines, 0, Vec::new());
    assert!(lines.is_empty());
    keep_refs(&mut lines, 4, vec![RawGitHubMatch {
        byte_range: Span { start: 0, end: 2 },
        reference: issue(1),
    }]);
    assert_eq!(lines[0].line, 4);
    let asked = e.refresh_github_refs(&lines);
    assert_eq!(asked.len(), 1);
    assert!(asked[0].same_as(&issue(1)));
    assert!(e.links.cache.get(&issue(2)).is_none());
}

#[test]
fn references_are_listed_short_ones_first() {
    let lines = vec![LineRefs {
        line: 1,
        refs: vec![RawGitHubMatch { byte_range: Span { start: 0, end: 2 }, reference: issue(1) }],
    }];
    let mut urls: Vec<LineUrls> = Vec::new();
    keep_urls(&mut urls, 0, Vec::new());
    keep_urls(&mut urls, 0, vec![
        NakedUrl {
            byte_range: Span { start: 0, end: 5 },
            url: "https://a.b".to_string(),
            github_ref: None,
        },
        NakedUrl {
            byte_range: Span { start: 6, end: 9 },
            url: "https://c.d".to_string(),
            github_ref: Some(user("jo")),
        },
    ]);
    assert_eq!(urls.len(), 1);
    let all = list_refs(&lines, &urls);
    assert_eq!(all.len(), 2);
    assert!(all[0].same_as(&issue(1)));
    assert!(all[1].same_as(&user("jo")));
}

#[test]
fn links_are_not_looked_for_in_code() {
    let span = |start, end| Span { start, end };
    let styles = vec![
        StyledSpan { full_range: span(0, 3), is_code: true, is_link: false },
        StyledSpan { full_range: span(4, 9), is_code: false, is_link: true },
        StyledSpan { full_range: span(9, 10), is_code: false, is_link: false },
    ];
    assert_eq!(code_ranges(&styles), vec![span(0, 3)]);
    assert_eq!(link_ranges(&styles), vec![span(4, 9)]);
    let e = Editor::new("a\nb\n");
    assert_eq!(e.lines_to_scan(1, 9), span(1, 3));
    assert_eq!(e.lines_to_scan(0, 2), span(0, 2));
}

#[test]
fn parts_are_drawn_from_left_to_right() {
    assert_eq!(draw_order(&vec![5, 2, 5, 0, 2]), vec![3, 1, 4, 0, 2]);
    let none: Vec<usize> = Vec::new();
    assert_eq!(draw_order(&none), none);
}

// ---------------------------------------------------------------------------
// What pops up
// ---------------------------------------------------------------------------

#[test]
fn a_label_is_covered_by_its_parts() {
    let l = issue_label("●", 123, IssueStatus::Draft);
    assert_eq!(l.text, "● #123 ");
    assert_eq!((l.symbol_len, l.space_len, l.number_len), (3, 1, 5));
    assert_eq!(l.symbol_len + l.space_len + l.number_len, l.text.len());
    assert_eq!(l.color, StatusColor::Dimmed);
    assert_eq!(user_label("jo"), "@jo");
}

#[test]
fn every_state_has_its_colour() {
    assert_eq!(status_color(IssueStatus::Open), StatusColor::Green);
    assert_eq!(status_color(IssueStatus::Draft), StatusColor::Dimmed);
    assert_eq!(status_color(IssueStatus::Merged), StatusColor::Purple);
    assert_eq!(status_color(IssueStatus::Closed), StatusColor::Purple);
    assert_eq!(status_color(IssueStatus::ClosedNotPlanned), StatusColor::Red);
    assert_eq!(found(1, "a").symbol(), "●");
    let pull = IssueOrPr { is_pull_request: true, ..found(1, "a") };
    assert_eq!(pull.symbol(), "⎇");
}

#[test]
fn hovering_shows_what_is_known() {
    let mut e = connected("#1 @jo");
    let line = LineRefs {
        line: 0,
        refs: vec![
            RawGitHubMatch { byte_range: Span { start: 0, end: 2 }, reference: issue(1) },
            RawGitHubMatch { byte_range: Span { start: 3, end: 6 }, reference: user("jo") },
        ],
    };
    assert_eq!(e.set_links(vec![line], vec![]).len(), 2);
    assert!(e.hover_popup().is_none());
    e.flags.hovered_github_ref_range = Some(Span { start: 3, end: 6 });
    assert!(e.hovered_ref().expect("a reference").same_as(&user("jo")));
    assert!(e.hover_popup().is_none());
    e.flags.hovered_ref_position = Some(writ::action::ScreenPoint { x_bits: 7, y_bits: 8 });
    let p = e.hover_popup().expect("a popup");
    assert_eq!(p.position.x_bits, 7);
    assert!(matches!(p.body, HoverBody::Waiting));
    assert!(!p.is_wide);
    e.finish_validation(user("jo"), ValidationResult::Invalid);
    assert!(matches!(e.hover_popup().expect("a popup").body, HoverBody::Missing));
    e.finish_validation(user("jo"), ValidationResult::ValidNoData);
    assert!(matches!(e.hover_popup().expect("a popup").body, HoverBody::Exists));
    e.flags.hovered_github_ref_range = Some(Span { start: 0, end: 2 });
    let data = ValidatedRefData::Issue(found(1, "one"));
    e.finish_validation(issue(1), ValidationResult::ValidWithData(data));
    let p = e.hover_popup().expect("a popup");
    assert!(p.is_wide);
    assert!(matches!(p.body, HoverBody::Issue(i) if i.number == 1));
    e.update_autocomplete_from_cursor();
    e.finish_user_fetch(&"jo".to_string(), &vec![GitHubUser {
        login: "jo".to_string(),
        name: None,
    }]);
    assert!(e.hover_popup().is_none());
}
