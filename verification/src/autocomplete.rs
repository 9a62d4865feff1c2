//! Completing references while they are typed: `#` for issues, `@` for users.

use vstd::prelude::*;
use vstd::utf8::*;

use crate::github::{
    issue_symbol, known, noted, DataModel, GitHubRef, GitHubUser, GitHubValidationCache,
    IssueModel, IssueOrPr, IssueStatus, KnownModel, RefModel, UserModel, ValidatedRefData,
    ValidationState,
};
use crate::number::{parse_u64, parsed_u64};
use crate::snapshot::{render_snapshot_for_title, RenderSnapshot};
use crate::text::{
    lemma_after_ascii, lemma_pieces_valid, lemma_str_valid, slice_bytes, str_eq, string_from_utf8,
};

verus! {

/// What a completion completes.
#[derive(Clone, Copy, Debug, PartialEq, Eq, Structural)]
pub enum AutocompleteTrigger {
    /// An issue or pull request, after `#`.
    Issue,
    /// A user, after `@`.
    User,
}

/// Something to complete with.
pub enum AutocompleteSuggestion {
    IssueOrPr {
        number: u64,
        /// The sign before the number.
        symbol: String,
        status: IssueStatus,
        /// The title, to be drawn.
        display_snapshot: RenderSnapshot,
    },
    User { login: String, name: Option<String> },
}

/// Something to complete with, as contracts speak of it.
pub enum SuggestionModel {
    IssueOrPr { number: u64, symbol: Seq<char>, status: IssueStatus, title: Seq<u8> },
    User { login: Seq<char>, name: Option<Seq<char>> },
}

impl View for AutocompleteSuggestion {
    type V = SuggestionModel;

    open spec fn view(&self) -> SuggestionModel {
        match self {
            AutocompleteSuggestion::IssueOrPr { number, symbol, status, display_snapshot } =>
                SuggestionModel::IssueOrPr {
                number: *number,
                symbol: symbol@,
                status: *status,
                title: display_snapshot@,
            },
            AutocompleteSuggestion::User { login, name } => SuggestionModel::User {
                login: login@,
                name: match name {
                    Some(n) => Some(n@),
                    None => None,
                },
            },
        }
    }
}

impl AutocompleteSuggestion {
    /// The title is well formed.
    pub open spec fn wf(&self) -> bool {
        match self {
            AutocompleteSuggestion::IssueOrPr { display_snapshot, .. } => display_snapshot.wf(),
            AutocompleteSuggestion::User { .. } => true,
        }
    }
}

/// A completion under way.
pub struct AutocompleteState {
    pub trigger: AutocompleteTrigger,
    /// Where the `#` or `@` stands.
    pub trigger_offset: usize,
    /// What was typed after it.
    pub prefix: String,
    pub suggestions: Vec<AutocompleteSuggestion>,
    pub selected_index: usize,
    /// Whether suggestions are being fetched.
    pub loading: bool,
    /// What suggestions were last fetched for.
    pub fetched_prefix: Option<String>,
}

/// A completion under way, as contracts speak of it.
#[verifier::ext_equal]
pub struct CompletionModel {
    pub trigger: AutocompleteTrigger,
    pub trigger_offset: usize,
    pub prefix: Seq<char>,
    pub suggestions: Seq<SuggestionModel>,
    pub selected_index: usize,
    pub loading: bool,
    pub fetched_prefix: Option<Seq<char>>,
}

/// Suggestions, as contracts speak of them.
pub open spec fn suggestion_models(v: Seq<AutocompleteSuggestion>) -> Seq<SuggestionModel> {
    v.map_values(|s: AutocompleteSuggestion| s@)
}

/// A string that may be missing, as contracts speak of it.
pub open spec fn string_model(s: Option<String>) -> Option<Seq<char>> {
    match s {
        Some(s) => Some(s@),
        None => None,
    }
}

impl View for AutocompleteState {
    type V = CompletionModel;

    open spec fn view(&self) -> CompletionModel {
        CompletionModel {
            trigger: self.trigger,
            trigger_offset: self.trigger_offset,
            prefix: self.prefix@,
            suggestions: suggestion_models(self.suggestions@),
            selected_index: self.selected_index,
            loading: self.loading,
            fetched_prefix: string_model(self.fetched_prefix),
        }
    }
}

impl AutocompleteState {
    /// One of the suggestions is selected, if there are any.
    pub open spec fn wf(&self) -> bool {
        &&& self.suggestions@.len() > 0 ==> self.selected_index < self.suggestions@.len()
        &&& forall|i: int| 0 <= i < self.suggestions@.len() ==> (#[trigger] self.suggestions@[i]).wf()
    }
}

// ---------------------------------------------------------------------------
// Detecting what is being typed
// ---------------------------------------------------------------------------

/// Whether a character is a letter or a number, of any script.
pub uninterp spec fn letter_or_number(c: char) -> bool;

/// Whether a character is a letter or a number, of any script.
///
/// Calls `char::is_alphanumeric`. Claimed: it depends on the character alone,
/// and of the ASCII characters it holds of the letters and the digits.
#[verifier::external_body]
fn is_letter_or_number(c: char) -> (r: bool)
    ensures
        r == letter_or_number(c),
        (c as u32) < 128 ==> r == (48 <= c as u32 <= 57 || 65 <= c as u32 <= 90 || 97 <= c as u32
            <= 122),
{
    c.is_alphanumeric()
}

/// The last place before `n` at which the byte `b` stands.
pub open spec fn last_byte(s: Seq<u8>, b: u8, n: int) -> Option<int>
    decreases n,
{
    if n <= 0 {
        None
    } else if s[n - 1] == b {
        Some(n - 1)
    } else {
        last_byte(s, b, n - 1)
    }
}

/// Whether a word can start at `pos`: at the start of the line, or after a
/// space, a tab or a newline.
pub open spec fn word_starts(s: Seq<u8>, pos: int) -> bool {
    pos == 0 || s[pos - 1] == 32 || s[pos - 1] == 9 || s[pos - 1] == 10
}

/// Whether what follows a `#` can be an issue: a blank would make it a heading.
pub open spec fn issue_prefix(p: Seq<u8>) -> bool {
    p.len() == 0 || (p[0] != 32 && p[0] != 9)
}

/// Whether every character can stand in a login: letters, numbers and hyphens.
pub open spec fn login_chars(p: Seq<char>) -> bool {
    forall|i: int| 0 <= i < p.len() ==> letter_or_number(#[trigger] p[i]) || p[i] == '-'
}

/// Whether what follows an `@` can be a login: it does not start with a hyphen.
pub open spec fn user_prefix(p: Seq<u8>) -> bool {
    p.len() == 0 || (login_chars(decode_utf8(p)) && p[0] != 45)
}

/// What follows the place `pos`.
pub open spec fn after(s: Seq<u8>, pos: int) -> Seq<u8> {
    s.subrange(pos + 1, s.len() as int)
}

/// Where an issue reference that reaches to the end of `s` starts.
pub open spec fn issue_start(s: Seq<u8>) -> Option<int> {
    match last_byte(s, 35, s.len() as int) {
        Some(pos) => if word_starts(s, pos) && issue_prefix(after(s, pos)) {
            Some(pos)
        } else {
            None
        },
        None => None,
    }
}

/// Where a user reference that reaches to the end of `s` starts.
pub open spec fn user_start(s: Seq<u8>) -> Option<int> {
    match last_byte(s, 64, s.len() as int) {
        Some(pos) => if word_starts(s, pos) && user_prefix(after(s, pos)) {
            Some(pos)
        } else {
            None
        },
        None => None,
    }
}

/// The reference that is being typed at the end of `s`: the one that starts
/// further right.
pub open spec fn typed_reference(s: Seq<u8>) -> Option<(AutocompleteTrigger, int)> {
    match (issue_start(s), user_start(s)) {
        (Some(i), Some(u)) => if u > i {
            Some((AutocompleteTrigger::User, u))
        } else {
            Some((AutocompleteTrigger::Issue, i))
        },
        (Some(i), None) => Some((AutocompleteTrigger::Issue, i)),
        (None, Some(u)) => Some((AutocompleteTrigger::User, u)),
        (None, None) => None,
    }
}

pub proof fn lemma_last_byte(s: Seq<u8>, b: u8, n: int)
    requires
        n <= s.len(),
    ensures
        last_byte(s, b, n) matches Some(k) ==> 0 <= k < n && s[k] == b,
    decreases n,
{
    if n > 0 {
        lemma_last_byte(s, b, n - 1);
    }
}

fn find_last_byte(s: &[u8], b: u8) -> (r: Option<usize>)
    ensures
        match r {
            Some(k) => last_byte(s@, b, s@.len() as int) == Some(k as int) && k < s@.len()
                && s@[k as int] == b,
            None => last_byte(s@, b, s@.len() as int) is None,
        },
{
    let mut n: usize = s.len();
    while n > 0
        invariant
            n <= s@.len(),
            last_byte(s@, b, n as int) == last_byte(s@, b, s@.len() as int),
        decreases n,
    {
        if s[n - 1] == b {
            return Some(n - 1);
        }
        n = n - 1;
    }
    None
}

fn does_word_start(s: &[u8], pos: usize) -> (r: bool)
    requires
        pos < s@.len(),
    ensures
        r == word_starts(s@, pos as int),
{
    pos == 0 || s[pos - 1] == 32 || s[pos - 1] == 9 || s[pos - 1] == 10
}

fn are_login_chars(p: &str) -> (r: bool)
    ensures
        r == login_chars(p@),
{
    for c in it: p.chars()
        invariant
            it.seq() == p@,
            forall|i: int|
                0 <= i < it.index() ==> letter_or_number(#[trigger] p@[i]) || p@[i] == '-',
    {
        if !(is_letter_or_number(c) || c == '-') {
            assert(p@[it.index()] == c);
            return false;
        }
    }
    true
}

/// The text after an ASCII byte, as a string.
fn string_after(s: &[u8], pos: usize) -> (r: String)
    requires
        valid_utf8(s@),
        pos < s@.len(),
        s@[pos as int] < 128,
    ensures
        r@ == decode_utf8(after(s@, pos as int)),
        encode_utf8(r@) == after(s@, pos as int),
{
    proof {
        assert(s@.len() == s.len());
        lemma_after_ascii(s@, pos + 1);
        lemma_pieces_valid(s@, pos + 1, s@.len() as int);
    }
    let r: String = string_from_utf8(slice_bytes(s, pos + 1, s.len()));
    proof {
        encode_utf8_decode_utf8(r@);
    }
    r
}

/// The reference that is being typed at the end of a line's text: what it is,
/// where its `#` or `@` stands, and what follows it.
pub fn detect_autocomplete_trigger(line_text: &str, line_start: usize) -> (r: Option<
    (AutocompleteTrigger, usize, String),
>)
    requires
        line_start + encode_utf8(line_text@).len() <= usize::MAX,
    ensures
        match r {
            Some((trigger, offset, prefix)) => typed_reference(encode_utf8(line_text@)) == Some(
                (trigger, offset - line_start),
            ) && prefix@ == decode_utf8(after(encode_utf8(line_text@), offset - line_start))
                && line_start <= offset < line_start + encode_utf8(line_text@).len(),
            None => typed_reference(encode_utf8(line_text@)) is None,
        },
{
    let s: &[u8] = line_text.as_bytes();
    proof {
        lemma_str_valid(line_text@);
    }
    let issue: Option<usize> = match find_last_byte(s, 35) {
        Some(pos) => {
            assert(pos + 1 < s@.len() ==> after(s@, pos as int)[0] == s@[pos + 1]);
            if does_word_start(s, pos) && (pos + 1 == s.len() || (s[pos + 1] != 32 && s[pos + 1]
                != 9)) {
                Some(pos)
            } else {
                None
            }
        },
        None => None,
    };
    let user: Option<usize> = match find_last_byte(s, 64) {
        Some(pos) => {
            assert(pos + 1 < s@.len() ==> after(s@, pos as int)[0] == s@[pos + 1]);
            if does_word_start(s, pos) && (pos + 1 == s.len() || (are_login_chars(
                string_after(s, pos).as_str(),
            ) && s[pos + 1] != 45)) {
                Some(pos)
            } else {
                None
            }
        },
        None => None,
    };
    let (trigger, pos): (AutocompleteTrigger, usize) = match (issue, user) {
        (Some(i), Some(u)) => if u > i {
            (AutocompleteTrigger::User, u)
        } else {
            (AutocompleteTrigger::Issue, i)
        },
        (Some(i), None) => (AutocompleteTrigger::Issue, i),
        (None, Some(u)) => (AutocompleteTrigger::User, u),
        (None, None) => {
            return None;
        },
    };
    Some((trigger, line_start + pos, string_after(s, pos)))
}

// ---------------------------------------------------------------------------
// The completion under way
// ---------------------------------------------------------------------------

/// The completion after a reference was detected, and whether suggestions are
/// to be fetched for it. What was there is kept while the same kind of thing is
/// completed.
pub open spec fn retargeted(
    old: Option<CompletionModel>,
    trigger: AutocompleteTrigger,
    trigger_offset: usize,
    prefix: Seq<char>,
) -> (CompletionModel, bool) {
    let fresh = CompletionModel {
        trigger,
        trigger_offset,
        prefix,
        suggestions: Seq::<SuggestionModel>::empty(),
        selected_index: 0,
        loading: false,
        fetched_prefix: None,
    };
    match old {
        Some(ac) => if ac.trigger == trigger && ac.prefix == prefix {
            (ac, false)
        } else if ac.trigger == trigger {
            (
                CompletionModel { trigger_offset, prefix, loading: false, ..ac },
                trigger == AutocompleteTrigger::User || ac.fetched_prefix != Some(prefix),
            )
        } else {
            (fresh, true)
        },
        None => (fresh, true),
    }
}

/// The completion after a reference was detected, and whether suggestions are to
/// be fetched for it.
pub fn set_autocomplete_state(
    old: Option<AutocompleteState>,
    trigger: AutocompleteTrigger,
    trigger_offset: usize,
    prefix: String,
) -> (r: (AutocompleteState, bool))
    requires
        old matches Some(ac) ==> ac.wf(),
    ensures
        r.0.wf(),
        (r.0@, r.1) == retargeted(
            match old {
                Some(ac) => Some(ac@),
                None => None,
            },
            trigger,
            trigger_offset,
            prefix@,
        ),
{
    match old {
        Some(ac) => {
            let same: bool = ac.trigger == trigger;
            if same && str_eq(ac.prefix.as_str(), prefix.as_str()) {
                return (ac, false);
            }
            if same {
                let fetched: bool = match &ac.fetched_prefix {
                    Some(p) => str_eq(p.as_str(), prefix.as_str()),
                    None => false,
                };
                let fetch: bool = match trigger {
                    AutocompleteTrigger::Issue => !fetched,
                    AutocompleteTrigger::User => true,
                };
                let next = AutocompleteState {
                    trigger,
                    trigger_offset,
                    prefix,
                    suggestions: ac.suggestions,
                    selected_index: ac.selected_index,
                    loading: false,
                    fetched_prefix: ac.fetched_prefix,
                };
                return (next, fetch);
            }
        },
        None => {},
    }
    let next = AutocompleteState {
        trigger,
        trigger_offset,
        prefix,
        suggestions: Vec::new(),
        selected_index: 0,
        loading: false,
        fetched_prefix: None,
    };
    assert(suggestion_models(next.suggestions@) =~= Seq::<SuggestionModel>::empty());
    (next, true)
}

impl CompletionModel {
    /// The completion with the suggestion before the selected one selected, the
    /// last one after the first.
    pub open spec fn selecting_previous(self) -> CompletionModel {
        CompletionModel {
            selected_index: if self.selected_index == 0 {
                (self.suggestions.len() - 1) as usize
            } else {
                (self.selected_index - 1) as usize
            },
            ..self
        }
    }

    /// The completion with the suggestion after the selected one selected, the
    /// first one after the last.
    pub open spec fn selecting_next(self) -> CompletionModel {
        CompletionModel {
            selected_index: ((self.selected_index + 1) % (self.suggestions.len() as int)) as usize,
            ..self
        }
    }

    /// The completion while suggestions for its prefix are fetched.
    pub open spec fn fetching(self) -> CompletionModel {
        CompletionModel { loading: true, fetched_prefix: Some(self.prefix), ..self }
    }

    /// The completion once suggestions have come.
    pub open spec fn offering(self, suggestions: Seq<SuggestionModel>) -> CompletionModel {
        CompletionModel { suggestions, loading: false, selected_index: 0, ..self }
    }
}

/// Selecting the next suggestion and then the previous one changes nothing, nor
/// does it the other way round.
pub proof fn law_selection_steps_are_inverse(ac: CompletionModel)
    requires
        ac.selected_index < ac.suggestions.len(),
        ac.suggestions.len() <= usize::MAX,
    ensures
        ac.selecting_next().selecting_previous() == ac,
        ac.selecting_previous().selecting_next() == ac,
        ac.selecting_next().selected_index < ac.suggestions.len(),
        ac.selecting_previous().selected_index < ac.suggestions.len(),
{
    crate::tab::law_cycle_steps_are_inverse(
        ac.selected_index as int,
        ac.suggestions.len() as int,
    );
}

impl AutocompleteState {
    /// Selects the suggestion before the selected one.
    pub fn select_previous(&mut self)
        requires
            old(self).wf(),
            old(self).suggestions@.len() > 0,
        ensures
            final(self).wf(),
            final(self)@ == old(self)@.selecting_previous(),
    {
        if self.selected_index == 0 {
            self.selected_index = self.suggestions.len() - 1;
        } else {
            self.selected_index = self.selected_index - 1;
        }
    }

    /// Selects the suggestion after the selected one.
    pub fn select_next(&mut self)
        requires
            old(self).wf(),
            old(self).suggestions@.len() > 0,
        ensures
            final(self).wf(),
            final(self)@ == old(self)@.selecting_next(),
    {
        let n: usize = self.suggestions.len();
        proof {
            if self.selected_index + 1 == n {
                vstd::arithmetic::div_mod::lemma_mod_self_0(n as int);
            } else {
                vstd::arithmetic::div_mod::lemma_small_mod(
                    (self.selected_index + 1) as nat,
                    n as nat,
                );
            }
        }
        if self.selected_index + 1 == n {
            self.selected_index = 0;
        } else {
            self.selected_index = self.selected_index + 1;
        }
    }

    /// Notes that suggestions for the prefix are being fetched.
    pub fn begin_fetch(&mut self)
        requires
            old(self).wf(),
        ensures
            final(self).wf(),
            final(self)@ == old(self)@.fetching(),
    {
        self.loading = true;
        self.fetched_prefix = Some(self.prefix.clone());
    }

    /// Takes the suggestions that have come.
    pub fn offer(&mut self, suggestions: Vec<AutocompleteSuggestion>)
        requires
            old(self).wf(),
            forall|i: int| 0 <= i < suggestions@.len() ==> (#[trigger] suggestions@[i]).wf(),
        ensures
            final(self).wf(),
            final(self)@ == old(self)@.offering(suggestion_models(suggestions@)),
    {
        self.suggestions = suggestions;
        self.loading = false;
        self.selected_index = 0;
    }
}

// ---------------------------------------------------------------------------
// Suggestions from what was fetched
// ---------------------------------------------------------------------------

/// The suggestion of an issue under a number.
pub open spec fn issue_suggestion(number: u64, issue: IssueModel) -> SuggestionModel {
    SuggestionModel::IssueOrPr {
        number,
        symbol: issue_symbol(issue.is_pull_request),
        status: issue.status,
        title: encode_utf8(issue.title),
    }
}

/// The suggestions of issues.
pub open spec fn issue_suggestions(issues: Seq<IssueModel>) -> Seq<SuggestionModel> {
    issues.map_values(|i: IssueModel| issue_suggestion(i.number, i))
}

/// The suggestions of users.
pub open spec fn user_suggestions(users: Seq<UserModel>) -> Seq<SuggestionModel> {
    users.map_values(|u: UserModel| SuggestionModel::User { login: u.login, name: u.name })
}

/// What is known after the first `n` fetched issues of a repository were noted.
pub open spec fn issues_noted(
    entries: Seq<(RefModel, KnownModel)>,
    owner: Seq<char>,
    repo: Seq<char>,
    issues: Seq<IssueModel>,
    n: int,
) -> Seq<(RefModel, KnownModel)>
    decreases n,
{
    if n <= 0 {
        entries
    } else {
        noted(
            issues_noted(entries, owner, repo, issues, n - 1),
            RefModel::Issue { owner, repo, number: issues[n - 1].number },
            KnownModel::Valid(Some(DataModel::Issue(issues[n - 1]))),
        )
    }
}

/// Whether one of the issues has a number.
pub open spec fn has_number(issues: Seq<IssueModel>, number: u64) -> bool {
    exists|i: int| 0 <= i < issues.len() && (#[trigger] issues[i]).number == number
}

/// The issue that was typed in full, if it is known to exist and was not fetched.
pub open spec fn typed_issue(
    entries: Seq<(RefModel, KnownModel)>,
    owner: Seq<char>,
    repo: Seq<char>,
    prefix: Seq<char>,
    issues: Seq<IssueModel>,
) -> Seq<SuggestionModel> {
    match parsed_u64(encode_utf8(prefix)) {
        Some(number) => match known(entries, RefModel::Issue { owner, repo, number }) {
            Some(KnownModel::Valid(Some(DataModel::Issue(issue)))) => if has_number(
                issues,
                number,
            ) {
                Seq::<SuggestionModel>::empty()
            } else {
                seq![issue_suggestion(number, issue)]
            },
            _ => Seq::<SuggestionModel>::empty(),
        },
        None => Seq::<SuggestionModel>::empty(),
    }
}

/// Builds the suggestion of an issue under a number.
fn suggest_issue(number: u64, issue: &IssueOrPr) -> (r: AutocompleteSuggestion)
    ensures
        r.wf(),
        r@ == issue_suggestion(number, issue@),
{
    AutocompleteSuggestion::IssueOrPr {
        number,
        symbol: issue.symbol().to_owned(),
        status: issue.status(),
        display_snapshot: render_snapshot_for_title(issue.title.as_str()),
    }
}

/// Issues, as contracts speak of them.
pub open spec fn issue_models(v: Seq<IssueOrPr>) -> Seq<IssueModel> {
    v.map_values(|i: IssueOrPr| i@)
}

/// Notes the fetched issues of a repository as existing.
pub fn note_issues(
    cache: &mut GitHubValidationCache,
    owner: &String,
    repo: &String,
    issues: &Vec<IssueOrPr>,
)
    ensures
        final(cache)@ == issues_noted(
            old(cache)@,
            owner@,
            repo@,
            issue_models(issues@),
            issues@.len() as int,
        ),
{
    let ghost before = cache@;
    let ghost models = issue_models(issues@);
    let mut n: usize = 0;
    while n < issues.len()
        invariant
            n <= issues@.len(),
            models == issue_models(issues@),
            cache@ == issues_noted(before, owner@, repo@, models, n as int),
        decreases issues@.len() - n,
    {
        let issue: &IssueOrPr = &issues[n];
        assert(models[n as int] == issue@);
        let reference = GitHubRef::Issue {
            owner: owner.clone(),
            repo: repo.clone(),
            number: issue.number,
        };
        cache.set_valid(reference, Some(ValidatedRefData::Issue(issue.copy())));
        n = n + 1;
    }
}

/// The suggestions for a prefix: the issue that was typed in full, if it is known
/// and not among the fetched ones, and then the fetched ones.
pub fn suggest_issues(
    cache: &GitHubValidationCache,
    owner: &String,
    repo: &String,
    prefix: &String,
    issues: &Vec<IssueOrPr>,
) -> (r: Vec<AutocompleteSuggestion>)
    ensures
        suggestion_models(r@) == typed_issue(
            cache@,
            owner@,
            repo@,
            prefix@,
            issue_models(issues@),
        ) + issue_suggestions(issue_models(issues@)),
        forall|i: int| 0 <= i < r@.len() ==> (#[trigger] r@[i]).wf(),
{
    let ghost models = issue_models(issues@);
    let mut out: Vec<AutocompleteSuggestion> = Vec::new();
    if let Some(number) = parse_u64(prefix.as_str().as_bytes()) {
        let reference = GitHubRef::Issue { owner: owner.clone(), repo: repo.clone(), number };
        if let Some(state) = cache.get(&reference) {
            if let ValidationState::Valid(Some(ValidatedRefData::Issue(issue))) = state {
                if !is_number_among(issues, number) {
                    out.push(suggest_issue(number, issue));
                }
            }
        }
    }
    let ghost first = typed_issue(cache@, owner@, repo@, prefix@, models);
    assert(suggestion_models(out@) =~= first);
    let mut n: usize = 0;
    assert(first =~= first + issue_suggestions(models).subrange(0, 0));
    while n < issues.len()
        invariant
            n <= issues@.len(),
            models == issue_models(issues@),
            suggestion_models(out@) == first + issue_suggestions(models).subrange(0, n as int),
            forall|i: int| 0 <= i < out@.len() ==> (#[trigger] out@[i]).wf(),
        decreases issues@.len() - n,
    {
        assert(models[n as int] == issues@[n as int]@);
        let ghost before = suggestion_models(out@);
        let s = suggest_issue(issues[n].number, &issues[n]);
        let ghost sm = s@;
        out.push(s);
        proof {
            let all = issue_suggestions(models);
            assert(all[n as int] == sm);
            assert(all.subrange(0, n + 1) =~= all.subrange(0, n as int).push(sm));
            assert(suggestion_models(out@) =~= before.push(sm));
            assert(first + all.subrange(0, n + 1) =~= before.push(sm));
        }
        n = n + 1;
    }
    proof {
        let all = issue_suggestions(models);
        assert(all.subrange(0, n as int) =~= all);
    }
    out
}

fn is_number_among(issues: &Vec<IssueOrPr>, number: u64) -> (r: bool)
    ensures
        r == has_number(issue_models(issues@), number),
{
    let ghost models = issue_models(issues@);
    let mut i: usize = 0;
    while i < issues.len()
        invariant
            i <= issues@.len(),
            models == issue_models(issues@),
            forall|k: int| 0 <= k < i ==> (#[trigger] models[k]).number != number,
        decreases issues@.len() - i,
    {
        assert(models[i as int] == issues@[i as int]@);
        if issues[i].number == number {
            return true;
        }
        i = i + 1;
    }
    false
}

/// Users, as contracts speak of them.
pub open spec fn user_models(v: Seq<GitHubUser>) -> Seq<UserModel> {
    v.map_values(|u: GitHubUser| u@)
}

/// The suggestions of users.
pub fn suggest_users(users: &Vec<GitHubUser>) -> (r: Vec<AutocompleteSuggestion>)
    ensures
        suggestion_models(r@) == user_suggestions(user_models(users@)),
        forall|i: int| 0 <= i < r@.len() ==> (#[trigger] r@[i]).wf(),
{
    let ghost models = user_models(users@);
    let mut out: Vec<AutocompleteSuggestion> = Vec::new();
    let mut n: usize = 0;
    while n < users.len()
        invariant
            n <= users@.len(),
            models == user_models(users@),
            out@.len() == n,
            forall|i: int| 0 <= i < n ==> (#[trigger] out@[i])@ == user_suggestions(models)[i],
            forall|i: int| 0 <= i < out@.len() ==> (#[trigger] out@[i]).wf(),
        decreases users@.len() - n,
    {
        assert(models[n as int] == users@[n as int]@);
        let name: Option<String> = match &users[n].name {
            Some(s) => Some(s.clone()),
            None => None,
        };
        out.push(AutocompleteSuggestion::User { login: users[n].login.clone(), name });
        n = n + 1;
    }
    assert(suggestion_models(out@) =~= user_suggestions(models));
    out
}

} // verus!
