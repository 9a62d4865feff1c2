//! References at the cursor: which one is being typed, what is offered for it, and
//! what is known once an answer has come.

use vstd::prelude::*;
use vstd::utf8::*;

use crate::autocomplete::{
    has_number, issue_start, issue_suggestions, issues_noted, last_byte, letter_or_number,
    retargeted, typed_issue, typed_reference, user_start, user_suggestions, AutocompleteTrigger,
    CompletionModel, SuggestionModel,
};
use crate::complete::{asked_for, found_at, issue_around, marked_pending, refs_on, typed_at};
use crate::editor::{EditorModel, LineRefsModel};
use crate::github::{
    known, law_noted_is_known, DataModel, IssueModel, KnownModel, MatchModel, RefModel,
    UserModel,
};
use crate::lines::line_of;
use crate::number::parsed_u64;

verus! {

/// Whether the byte at `p` is the last one of its kind and starts a word: nothing or
/// a blank stands before it.
pub open spec fn last_at_word_start(s: Seq<u8>, p: int, b: u8) -> bool {
    &&& 0 <= p < s.len()
    &&& s[p] == b
    &&& forall|i: int| p < i < s.len() ==> #[trigger] s[i] != b
    &&& p > 0 ==> (s[p - 1] == 9 || s[p - 1] == 10 || s[p - 1] == 32)
}

/// Whether an issue is being typed from `p` on: a number sign that no blank follows.
pub open spec fn issue_typed_at(s: Seq<u8>, p: int) -> bool {
    &&& last_at_word_start(s, p, 35)
    &&& p + 1 < s.len() ==> s[p + 1] != 9 && s[p + 1] != 32
}

/// Whether a login is being typed from `p` on: an at sign, then letters, numbers and
/// hyphens, but no hyphen first.
pub open spec fn user_typed_at(s: Seq<u8>, p: int) -> bool {
    let name = decode_utf8(s.subrange(p + 1, s.len() as int));
    &&& last_at_word_start(s, p, 64)
    &&& p + 1 < s.len() ==> s[p + 1] != 45
    &&& p + 1 < s.len() ==> forall|i: int|
        0 <= i < name.len() ==> #[trigger] letter_or_number(name[i]) || name[i] == '-'
}

proof fn lemma_last_byte_is(s: Seq<u8>, b: u8, n: int)
    requires
        0 <= n <= s.len(),
    ensures
        match last_byte(s, b, n) {
            Some(k) => 0 <= k < n && s[k] == b && forall|i: int| k < i < n ==> #[trigger] s[i] != b,
            None => forall|i: int| 0 <= i < n ==> #[trigger] s[i] != b,
        },
    decreases n,
{
    if n > 0 {
        lemma_last_byte_is(s, b, n - 1);
    }
}

proof fn lemma_issue_start(s: Seq<u8>)
    ensures
        match issue_start(s) {
            Some(p) => issue_typed_at(s, p),
            None => forall|p: int| !(#[trigger] issue_typed_at(s, p)),
        },
{
    let n = s.len() as int;
    lemma_last_byte_is(s, 35, n);
    match last_byte(s, 35, n) {
        Some(k) => {
            assert forall|p: int| #[trigger] issue_typed_at(s, p) implies p == k by {
                if p < k {
                    assert(s[k] == 35);
                }
            }
            let rest = crate::autocomplete::after(s, k);
            if k + 1 < n {
                assert(rest[0] == s[k + 1]);
            }
        },
        None => {
            assert forall|p: int| !(#[trigger] issue_typed_at(s, p)) by {}
        },
    }
}

proof fn lemma_user_start(s: Seq<u8>)
    ensures
        match user_start(s) {
            Some(p) => user_typed_at(s, p),
            None => forall|p: int| !(#[trigger] user_typed_at(s, p)),
        },
{
    let n = s.len() as int;
    lemma_last_byte_is(s, 64, n);
    match last_byte(s, 64, n) {
        Some(k) => {
            assert forall|p: int| #[trigger] user_typed_at(s, p) implies p == k by {
                if p < k {
                    assert(s[k] == 64);
                }
            }
            let rest = crate::autocomplete::after(s, k);
            if k + 1 < n {
                assert(rest[0] == s[k + 1]);
                let name = decode_utf8(rest);
                assert(crate::autocomplete::login_chars(name) == (forall|i: int|
                    0 <= i < name.len() ==> #[trigger] letter_or_number(name[i]) || name[i]
                        == '-')) by {
                    if crate::autocomplete::login_chars(name) {
                        assert forall|i: int| 0 <= i < name.len() implies #[trigger]
                        letter_or_number(name[i]) || name[i] == '-' by {
                            assert(letter_or_number(name[i]) || name[i] == '-');
                        }
                    }
                }
            }
        },
        None => {
            assert forall|p: int| !(#[trigger] user_typed_at(s, p)) by {}
        },
    }
}

/// What is being typed at the end of a line: an issue from the last number sign that
/// can start one, or a login from the last at sign that can, whichever starts
/// further right; nothing when neither can.
pub proof fn law_typed_reference_is_the_last_one(s: Seq<u8>, p: int)
    ensures
        typed_reference(s) == Some((AutocompleteTrigger::Issue, p)) <==> issue_typed_at(s, p) && (
        forall|u: int| #[trigger] user_typed_at(s, u) ==> u < p),
        typed_reference(s) == Some((AutocompleteTrigger::User, p)) <==> user_typed_at(s, p) && (
        forall|i: int| #[trigger] issue_typed_at(s, i) ==> i < p),
        typed_reference(s) is None <==> (forall|i: int| !(#[trigger] issue_typed_at(s, i))) && (
        forall|u: int| !(#[trigger] user_typed_at(s, u))),
{
    lemma_issue_start(s);
    lemma_user_start(s);
    let (a, b) = (issue_start(s), user_start(s));
    assert forall|x: int, y: int| #[trigger] issue_typed_at(s, x) && #[trigger] issue_typed_at(
        s,
        y,
    ) implies x == y by {
        if x < y {
            assert(s[y] == 35);
        } else if y < x {
            assert(s[x] == 35);
        }
    }
    assert forall|x: int, y: int| #[trigger] user_typed_at(s, x) && #[trigger] user_typed_at(
        s,
        y,
    ) implies x == y by {
        if x < y {
            assert(s[y] == 64);
        } else if y < x {
            assert(s[x] == 64);
        }
    }
    assert forall|x: int, y: int| #[trigger] issue_typed_at(s, x) && #[trigger] user_typed_at(
        s,
        y,
    ) implies x != y by {
        assert(s[x] == 35);
        assert(s[y] == 64);
    }
}

proof fn lemma_issue_around(refs: Seq<MatchModel>, cursor: int, j: int)
    requires
        0 <= j,
    ensures
        match issue_around(refs, cursor, j) {
            Some((start, number)) => exists|k: int|
                j <= k < refs.len() && (#[trigger] refs[k]).range.start == start && start <= cursor
                    <= refs[k].range.end && (refs[k].reference matches RefModel::Issue {
                    number: n,
                    ..
                } && n == number),
            None => forall|k: int|
                j <= k < refs.len() && (#[trigger] refs[k]).range.start <= cursor
                    <= refs[k].range.end ==> !(refs[k].reference is Issue),
        },
    decreases refs.len() - j,
{
    if j < refs.len() {
        if !(refs[j].range.start <= cursor <= refs[j].range.end && refs[j].reference is Issue) {
            lemma_issue_around(refs, cursor, j + 1);
        }
    }
}

/// An issue reference that is known to stand around the cursor is what is completed,
/// from its start and with its number; only without one does what is being typed
/// count.
pub proof fn law_reference_around_the_cursor_counts_first(
    text: Seq<u8>,
    cursor: int,
    refs: Seq<LineRefsModel>,
    k: int,
)
    ensures
        ({
            let here = refs_on(refs, line_of(text, cursor), 0);
            let found = found_at(text, cursor, refs);
            &&& 0 <= k < here.len() && here[k].range.start <= cursor <= here[k].range.end
                && here[k].reference is Issue ==> (found matches Some(f) && f.0
                == AutocompleteTrigger::Issue && exists|j: int|
                0 <= j < here.len() && (#[trigger] here[j]).range.start == f.1 && f.1 <= cursor
                    <= here[j].range.end && (here[j].reference matches RefModel::Issue {
                    number,
                    ..
                } && f.2 == decode_utf8(crate::number::decimal(number as nat))))
            &&& (forall|j: int|
                0 <= j < here.len() && (#[trigger] here[j]).range.start <= cursor
                    <= here[j].range.end ==> !(here[j].reference is Issue)) ==> found == typed_at(
                text,
                cursor,
            )
        }),
{
    let here = refs_on(refs, line_of(text, cursor), 0);
    lemma_issue_around(here, cursor, 0);
    if let Some((start, number)) = issue_around(here, cursor, 0) {
        let j = choose|j: int|
            0 <= j < here.len() && (#[trigger] here[j]).range.start == start && start <= cursor
                <= here[j].range.end && (here[j].reference matches RefModel::Issue {
                number: n,
                ..
            } && n == number);
        assert(here[j].range.start == start);
    }
}

/// A completion that goes on with the same reference stays as it is and asks for
/// nothing. Another prefix of the same kind keeps the suggestions until others come,
/// and a reference of the other kind starts anew. Either way the completion is of the
/// reference that was found.
pub proof fn law_completion_follows_the_reference(
    old: Option<CompletionModel>,
    trigger: AutocompleteTrigger,
    offset: usize,
    prefix: Seq<char>,
)
    ensures
        ({
            let (new, fetch) = retargeted(old, trigger, offset, prefix);
            let same = old matches Some(ac) && ac.trigger == trigger;
            let unchanged = same && old->0.prefix == prefix;
            &&& new.trigger == trigger
            &&& new.prefix == prefix
            &&& unchanged ==> new == old->0 && !fetch
            &&& !unchanged ==> new.trigger_offset == offset && !new.loading
            &&& same ==> new.suggestions == old->0.suggestions && new.selected_index
                == old->0.selected_index && new.fetched_prefix == old->0.fetched_prefix
            &&& !same ==> new.suggestions.len() == 0 && new.selected_index == 0
                && new.fetched_prefix is None && fetch
            &&& same && !unchanged ==> fetch == (trigger == AutocompleteTrigger::User
                || old->0.fetched_prefix != Some(prefix))
        }),
{
}

/// Selecting goes one suggestion on or back, round at the ends, and changes nothing
/// else.
pub proof fn law_selection_goes_one_on_or_back(ac: CompletionModel)
    requires
        ac.selected_index < ac.suggestions.len() <= usize::MAX,
    ensures
        ({
            let (next, back) = (ac.selecting_next(), ac.selecting_previous());
            let n = ac.suggestions.len();
            &&& ac.selected_index + 1 < n ==> next.selected_index == ac.selected_index + 1
            &&& ac.selected_index + 1 == n ==> next.selected_index == 0
            &&& ac.selected_index > 0 ==> back.selected_index == ac.selected_index - 1
            &&& ac.selected_index == 0 ==> back.selected_index == n - 1
            &&& next == (CompletionModel { selected_index: next.selected_index, ..ac })
            &&& back == (CompletionModel { selected_index: back.selected_index, ..ac })
        }),
{
    let n = ac.suggestions.len() as int;
    if ac.selected_index + 1 < n {
        vstd::arithmetic::div_mod::lemma_small_mod((ac.selected_index + 1) as nat, n as nat);
    } else {
        vstd::arithmetic::div_mod::lemma_mod_self_0(n);
    }
}

/// Every fetched issue and every fetched user is suggested, in the order in which
/// they came, with what is known of it.
pub proof fn law_all_that_came_is_suggested(issues: Seq<IssueModel>, users: Seq<UserModel>, i: int)
    ensures
        issue_suggestions(issues).len() == issues.len(),
        user_suggestions(users).len() == users.len(),
        0 <= i < issues.len() ==> (issue_suggestions(issues)[i] matches SuggestionModel::IssueOrPr {
            number,
            symbol,
            status,
            title,
        } && number == issues[i].number && status == issues[i].status && title == encode_utf8(
            issues[i].title,
        ) && symbol == (if issues[i].is_pull_request {
            "⎇"@
        } else {
            "●"@
        })),
        0 <= i < users.len() ==> (user_suggestions(users)[i] matches SuggestionModel::User {
            login,
            name,
        } && login == users[i].login && name == users[i].name),
{
}

/// Whether as much is known.
pub open spec fn same_known(a: Option<KnownModel>, b: Option<KnownModel>) -> bool {
    a == b
}

/// That an issue exists, and what was told of it.
pub open spec fn found_issue(issue: IssueModel) -> KnownModel {
    KnownModel::Valid(Some(DataModel::Issue(issue)))
}

/// What is known of a reference that no fetched issue is of stays.
pub proof fn law_other_references_stay_known(
    entries: Seq<(RefModel, KnownModel)>,
    owner: Seq<char>,
    repo: Seq<char>,
    issues: Seq<IssueModel>,
    n: int,
    other: RefModel,
)
    requires
        0 <= n <= issues.len(),
        forall|i: int|
            0 <= i < n ==> other != (RefModel::Issue {
                owner,
                repo,
                number: (#[trigger] issues[i]).number,
            }),
    ensures
        same_known(known(issues_noted(entries, owner, repo, issues, n), other), known(entries, other)),
    decreases n,
{
    if n > 0 {
        law_other_references_stay_known(entries, owner, repo, issues, n - 1, other);
        let last = issues[n - 1];
        law_noted_is_known(
            issues_noted(entries, owner, repo, issues, n - 1),
            RefModel::Issue { owner, repo, number: last.number },
            found_issue(last),
            other,
        );
    }
}

/// After issues were fetched, each is known to exist, with what came of it last.
pub proof fn law_fetched_issues_are_known(
    entries: Seq<(RefModel, KnownModel)>,
    owner: Seq<char>,
    repo: Seq<char>,
    issues: Seq<IssueModel>,
    n: int,
    i: int,
)
    requires
        0 <= i < n <= issues.len(),
        forall|j: int| i < j < n ==> (#[trigger] issues[j]).number != issues[i].number,
    ensures
        same_known(
            known(
                issues_noted(entries, owner, repo, issues, n),
                RefModel::Issue { owner, repo, number: issues[i].number },
            ),
            Some(found_issue(issues[i])),
        ),
    decreases n,
{
    let last = issues[n - 1];
    let r = RefModel::Issue { owner, repo, number: issues[i].number };
    law_noted_is_known(
        issues_noted(entries, owner, repo, issues, n - 1),
        RefModel::Issue { owner, repo, number: last.number },
        found_issue(last),
        r,
    );
    if i < n - 1 {
        law_fetched_issues_are_known(entries, owner, repo, issues, n - 1, i);
        assert(last.number != issues[i].number);
    }
}

/// An issue whose number was typed in full is suggested too, once, if it is known and
/// did not come among those that were fetched.
pub proof fn law_typed_issue_is_suggested_once(
    entries: Seq<(RefModel, KnownModel)>,
    owner: Seq<char>,
    repo: Seq<char>,
    prefix: Seq<char>,
    issues: Seq<IssueModel>,
    number: u64,
    issue: IssueModel,
)
    requires
        parsed_u64(encode_utf8(prefix)) == Some(number),
        known(entries, RefModel::Issue { owner, repo, number }) == Some(
            KnownModel::Valid(Some(DataModel::Issue(issue))),
        ),
    ensures
        ({
            let extra = typed_issue(entries, owner, repo, prefix, issues);
            &&& (exists|i: int| 0 <= i < issues.len() && (#[trigger] issues[i]).number == number)
                ==> extra.len() == 0
            &&& (forall|i: int| 0 <= i < issues.len() ==> (#[trigger] issues[i]).number != number)
                ==> extra.len() == 1 && (extra[0] matches SuggestionModel::IssueOrPr {
                number: n,
                status,
                title,
                ..
            } && n == number && status == issue.status && title == encode_utf8(issue.title))
        }),
{
    if exists|i: int| 0 <= i < issues.len() && (#[trigger] issues[i]).number == number {
        assert(has_number(issues, number));
    }
}

proof fn lemma_marked_pending(
    entries: Seq<(RefModel, KnownModel)>,
    refs: Seq<RefModel>,
    n: int,
    r: RefModel,
)
    requires
        0 <= n <= refs.len(),
    ensures
        (exists|k: int| 0 <= k < n && #[trigger] refs[k] == r) && known(entries, r) is None
            ==> same_known(known(marked_pending(entries, refs, n), r), Some(KnownModel::Pending)),
        (forall|k: int| 0 <= k < n ==> #[trigger] refs[k] != r) || known(entries, r) is Some
            ==> same_known(known(marked_pending(entries, refs, n), r), known(entries, r)),
    decreases n,
{
    if n > 0 {
        lemma_marked_pending(entries, refs, n - 1, r);
        let before = marked_pending(entries, refs, n - 1);
        law_noted_is_known(before, refs[n - 1], KnownModel::Pending, r);
        if refs[n - 1] == r {
            assert(exists|k: int| 0 <= k < n && #[trigger] refs[k] == r);
        } else if exists|k: int| 0 <= k < n && #[trigger] refs[k] == r {
            let k = choose|k: int| 0 <= k < n && #[trigger] refs[k] == r;
            assert(refs[k] == r && k < n - 1);
        }
    }
}

/// Once references were looked at, those of which nothing was known are awaited, and
/// what was known of any stays.
pub proof fn law_unknown_references_are_awaited(
    entries: Seq<(RefModel, KnownModel)>,
    refs: Seq<RefModel>,
    r: RefModel,
)
    ensures
        ({
            let after = marked_pending(entries, refs, refs.len() as int);
            &&& refs.contains(r) && known(entries, r) is None ==> same_known(
                known(after, r),
                Some(KnownModel::Pending),
            )
            &&& !refs.contains(r) || known(entries, r) is Some ==> same_known(
                known(after, r),
                known(entries, r),
            )
        }),
{
    lemma_marked_pending(entries, refs, refs.len() as int, r);
    if refs.contains(r) {
        let k = choose|k: int| 0 <= k < refs.len() && refs[k] == r;
        assert(refs[k] == r);
    }
}

proof fn lemma_asked_for(
    entries: Seq<(RefModel, KnownModel)>,
    refs: Seq<RefModel>,
    n: int,
    r: RefModel,
)
    requires
        0 <= n <= refs.len(),
    ensures
        asked_for(entries, refs, n).contains(r) <==> known(entries, r) is None && exists|k: int|
            0 <= k < n && #[trigger] refs[k] == r,
    decreases n,
{
    if n > 0 {
        lemma_asked_for(entries, refs, n - 1, r);
        lemma_marked_pending(entries, refs, n - 1, refs[n - 1]);
        let before = asked_for(entries, refs, n - 1);
        let now = asked_for(entries, refs, n);
        let adds = known(marked_pending(entries, refs, n - 1), refs[n - 1]) is None;
        if before.contains(r) {
            let x = choose|x: int| 0 <= x < before.len() && before[x] == r;
            assert(now[x] == r);
        }
        if refs[n - 1] == r && known(entries, r) is None {
            if adds {
                assert(now[now.len() - 1] == r);
            } else {
                assert(before.contains(r));
            }
        }
        if now.contains(r) && !before.contains(r) {
            let x = choose|x: int| 0 <= x < now.len() && now[x] == r;
            if x < before.len() {
                assert(before[x] == r);
            }
            assert(refs[n - 1] == r);
        }
    }
}

/// What is asked for is every reference on the lines of which nothing is known, and
/// nothing else.
pub proof fn law_every_unknown_reference_is_asked_for(
    entries: Seq<(RefModel, KnownModel)>,
    refs: Seq<RefModel>,
    r: RefModel,
)
    ensures
        asked_for(entries, refs, refs.len() as int).contains(r) <==> refs.contains(r) && known(
            entries,
            r,
        ) is None,
{
    lemma_asked_for(entries, refs, refs.len() as int, r);
    if refs.contains(r) {
        let k = choose|k: int| 0 <= k < refs.len() && refs[k] == r;
        assert(refs[k] == r);
    }
}

proof fn lemma_refs_on(refs: Seq<LineRefsModel>, line: int, j: int)
    requires
        0 <= j,
    ensures
        (forall|k: int| j <= k < refs.len() ==> (#[trigger] refs[k]).line != line) ==> refs_on(
            refs,
            line,
            j,
        ).len() == 0,
        forall|k: int|
            j <= k < refs.len() && (#[trigger] refs[k]).line == line && (forall|x: int|
                j <= x < k ==> (#[trigger] refs[x]).line != line) ==> refs_on(refs, line, j)
                == refs[k].refs,
    decreases refs.len() - j,
{
    if j < refs.len() && refs[j].line != line {
        lemma_refs_on(refs, line, j + 1);
    }
}

/// The references of a line are those that were found on it.
pub proof fn law_references_are_found_on_their_line(refs: Seq<LineRefsModel>, line: int, k: int)
    ensures
        (forall|x: int| 0 <= x < refs.len() ==> (#[trigger] refs[x]).line != line) ==> refs_on(
            refs,
            line,
            0,
        ).len() == 0,
        0 <= k < refs.len() && refs[k].line == line && (forall|x: int|
            0 <= x < k ==> (#[trigger] refs[x]).line != line) ==> refs_on(refs, line, 0)
            == refs[k].refs,
{
    lemma_refs_on(refs, line, 0);
}

/// Nothing is completed without a repository and someone to ask, nor where no
/// reference is found at the cursor. Where one is, the completion is of it. Bringing
/// the completion in line changes nothing else.
pub proof fn law_completion_is_of_the_reference_at_the_cursor(m: EditorModel)
    ensures
        ({
            let (r, fetch) = m.completion_updated();
            let found = found_at(m.text(), m.cursor() as int, m.links.refs);
            let able = m.links.context is Some && m.flags.has_github_client;
            &&& !able || found is None ==> r.completion is None && !fetch
            &&& able ==> (found matches Some(f) ==> (r.completion matches Some(ac) && ac.trigger
                == f.0 && ac.prefix == f.2))
            &&& r.state == m.state && r.links == m.links && r.flags == m.flags && r.diff == m.diff
        }),
{
}

/// A completion waits for an answer exactly when it is of the same kind and has the
/// same prefix still. The answer replaces what was suggested, with the first
/// suggestion selected; the rest of the completion stays.
pub proof fn law_answer_must_fit_the_completion(
    m: EditorModel,
    trigger: AutocompleteTrigger,
    prefix: Seq<char>,
    suggestions: Seq<SuggestionModel>,
)
    ensures
        m.awaits(trigger, prefix) <==> m.completion is Some && m.completion->0.trigger == trigger
            && m.completion->0.prefix == prefix,
        m.completion matches Some(ac) ==> {
            let r = ac.offering(suggestions);
            &&& r.suggestions == suggestions
            &&& r.selected_index == 0
            &&& !r.loading
            &&& r.trigger == ac.trigger && r.trigger_offset == ac.trigger_offset && r.prefix
                == ac.prefix && r.fetched_prefix == ac.fetched_prefix
            &&& ac.fetching().loading && ac.fetching().fetched_prefix == Some(ac.prefix)
            &&& ac.fetching().suggestions == ac.suggestions
        },
{
}

/// Suggestions are fetched only with someone to ask, a repository and something to
/// complete, and references are asked for only with someone to ask.
pub proof fn law_asking_needs_someone_to_ask(m: EditorModel, refs: Seq<RefModel>)
    ensures
        m.can_fetch() <==> m.flags.has_github_client && m.links.context is Some && m.completion
            is Some,
        !m.flags.has_github_client ==> m.asking(refs).0 == m && m.asking(refs).1.len() == 0,
        m.flags.has_github_client ==> m.asking(refs).1 == asked_for(
            m.links.known,
            refs,
            refs.len() as int,
        ) && m.asking(refs).0.links.known == marked_pending(
            m.links.known,
            refs,
            refs.len() as int,
        ) && m.asking(refs).0.state == m.state,
{
}

/// What was typed is suggested as an issue only when it is a number and an issue of
/// that number is known.
pub proof fn law_only_known_issues_are_suggested(
    entries: Seq<(RefModel, KnownModel)>,
    owner: Seq<char>,
    repo: Seq<char>,
    prefix: Seq<char>,
    issues: Seq<IssueModel>,
)
    ensures
        typed_issue(entries, owner, repo, prefix, issues).len() > 0 ==> (parsed_u64(
            encode_utf8(prefix),
        ) matches Some(number) && (known(entries, RefModel::Issue { owner, repo, number }) matches Some(
            KnownModel::Valid(Some(DataModel::Issue(_))),
        ))),
{
}

} // verus!
