//! The references of an editor: completing the one at the cursor, and asking
//! GitHub for those in sight.

use vstd::prelude::*;
use vstd::utf8::*;

use crate::autocomplete::{
    detect_autocomplete_trigger, issue_models, issue_suggestions, issues_noted, note_issues,
    retargeted, set_autocomplete_state, suggest_issues, suggest_users, suggestion_models,
    typed_issue, typed_reference, user_models, user_suggestions, AutocompleteState,
    AutocompleteSuggestion, AutocompleteTrigger, CompletionModel,
};
use crate::editor::{
    refs_models, Editor, EditorFlags, EditorModel, LineRefs, LineRefsModel, LinksModel,
};
use crate::github::{
    answered, known, noted, GitHubContext, GitHubRef, GitHubUser, GitHubValidationCache, IssueOrPr,
    KnownModel, MatchModel, RawGitHubMatch, RefModel, ValidationResult,
};
use crate::lines::{lemma_line_begin, lemma_line_start_boundary, line_begin, line_of};
use crate::number::{decimal, write_number};
use crate::text::{
    boundary, floor_boundary, floor_to_boundary, lemma_after_ascii, lemma_floor,
    lemma_floor_monotone, lemma_pieces_valid, slice_bytes, str_eq, string_from_utf8,
};

verus! {

/// What is to be completed: what it is, where it starts, and what was typed.
pub type Found = (AutocompleteTrigger, usize, Seq<char>);

/// The references on a line: those of the first entry for it from place `j` on.
pub open spec fn refs_on(refs: Seq<LineRefsModel>, line: int, j: int) -> Seq<MatchModel>
    decreases refs.len() - j,
{
    if j >= refs.len() {
        Seq::<MatchModel>::empty()
    } else if refs[j].line == line {
        refs[j].refs
    } else {
        refs_on(refs, line, j + 1)
    }
}

/// The start and the number of the first issue reference from place `j` on that
/// the cursor is in or at the end of.
pub open spec fn issue_around(refs: Seq<MatchModel>, cursor: int, j: int) -> Option<(usize, u64)>
    decreases refs.len() - j,
{
    if j >= refs.len() {
        None
    } else if refs[j].range.start <= cursor <= refs[j].range.end && refs[j].reference is Issue {
        Some((refs[j].range.start, refs[j].reference->Issue_number))
    } else {
        issue_around(refs, cursor, j + 1)
    }
}

/// What stands before the cursor on its line.
pub open spec fn before_cursor_on_line(text: Seq<u8>, cursor: int) -> Seq<u8> {
    text.subrange(line_begin(text, cursor), floor_boundary(text, cursor))
}

/// What is being typed at the cursor.
pub open spec fn typed_at(text: Seq<u8>, cursor: int) -> Option<Found> {
    let s = before_cursor_on_line(text, cursor);
    if cursor == 0 {
        None
    } else {
        match typed_reference(s) {
            Some((trigger, pos)) => Some(
                (
                    trigger,
                    (line_begin(text, cursor) + pos) as usize,
                    decode_utf8(crate::autocomplete::after(s, pos)),
                ),
            ),
            None => None,
        }
    }
}

/// What is to be completed at the cursor: a known issue reference around it, else
/// what is being typed before it.
pub open spec fn found_at(text: Seq<u8>, cursor: int, refs: Seq<LineRefsModel>) -> Option<Found> {
    match issue_around(refs_on(refs, line_of(text, cursor), 0), cursor, 0) {
        Some((start, number)) => Some(
            (AutocompleteTrigger::Issue, start, decode_utf8(decimal(number as nat))),
        ),
        None => typed_at(text, cursor),
    }
}

/// What is known after the first `n` references were looked at: those of which
/// nothing was known are being asked for.
pub open spec fn marked_pending(
    entries: Seq<(RefModel, KnownModel)>,
    refs: Seq<RefModel>,
    n: int,
) -> Seq<(RefModel, KnownModel)>
    decreases n,
{
    if n <= 0 {
        entries
    } else {
        let before = marked_pending(entries, refs, n - 1);
        if known(before, refs[n - 1]) is None {
            noted(before, refs[n - 1], KnownModel::Pending)
        } else {
            before
        }
    }
}

/// Those of the first `n` references that are to be asked for: each of which
/// nothing was known, once.
pub open spec fn asked_for(
    entries: Seq<(RefModel, KnownModel)>,
    refs: Seq<RefModel>,
    n: int,
) -> Seq<RefModel>
    decreases n,
{
    if n <= 0 {
        Seq::<RefModel>::empty()
    } else if known(marked_pending(entries, refs, n - 1), refs[n - 1]) is None {
        asked_for(entries, refs, n - 1).push(refs[n - 1])
    } else {
        asked_for(entries, refs, n - 1)
    }
}

/// References, as contracts speak of them.
pub open spec fn ref_models(v: Seq<GitHubRef>) -> Seq<RefModel> {
    v.map_values(|r: GitHubRef| r@)
}

impl EditorModel {
    /// The editor with another completion.
    pub open spec fn with_completion(self, completion: Option<CompletionModel>) -> EditorModel {
        EditorModel { completion, ..self }
    }

    /// The editor with other links.
    pub open spec fn with_links(self, links: LinksModel) -> EditorModel {
        EditorModel { links, ..self }
    }

    /// The editor that knows something else of references.
    pub open spec fn knowing(self, entries: Seq<(RefModel, KnownModel)>) -> EditorModel {
        self.with_links(LinksModel { known: entries, ..self.links })
    }

    /// The editor after the completion was brought in line with the cursor, and
    /// whether suggestions are to be fetched. Without a repository and someone to
    /// ask nothing is completed.
    pub open spec fn completion_updated(self) -> (EditorModel, bool) {
        if self.links.context is None || !self.flags.has_github_client {
            (self.with_completion(None), false)
        } else {
            match found_at(self.text(), self.cursor() as int, self.links.refs) {
                Some((trigger, offset, prefix)) => {
                    let (ac, fetch) = retargeted(self.completion, trigger, offset, prefix);
                    (self.with_completion(Some(ac)), fetch)
                },
                None => (self.with_completion(None), false),
            }
        }
    }

    /// Whether suggestions can be fetched.
    pub open spec fn can_fetch(self) -> bool {
        self.flags.has_github_client && self.links.context is Some && self.completion is Some
    }

    /// Whether the completion still waits for suggestions for a prefix.
    pub open spec fn awaits(self, trigger: AutocompleteTrigger, prefix: Seq<char>) -> bool {
        self.completion matches Some(ac) && ac.trigger == trigger && ac.prefix == prefix
    }
}

/// What suggestions to fetch.
pub struct FetchRequest {
    pub trigger: AutocompleteTrigger,
    pub owner: String,
    pub repo: String,
    pub prefix: String,
}

/// The first issue reference that the cursor is in or at the end of.
fn find_issue_around(refs: &Vec<RawGitHubMatch>, cursor: usize) -> (r: Option<(usize, u64)>)
    ensures
        r == issue_around(refs@.map_values(|m: RawGitHubMatch| m@), cursor as int, 0),
{
    let ghost models = refs@.map_values(|m: RawGitHubMatch| m@);
    let mut j: usize = 0;
    while j < refs.len()
        invariant
            j <= refs@.len(),
            models == refs@.map_values(|m: RawGitHubMatch| m@),
            issue_around(models, cursor as int, j as int) == issue_around(
                models,
                cursor as int,
                0,
            ),
        decreases refs@.len() - j,
    {
        let m: &RawGitHubMatch = &refs[j];
        assert(models[j as int] == m@);
        if m.byte_range.start <= cursor && cursor <= m.byte_range.end {
            if let GitHubRef::Issue { number, .. } = &m.reference {
                return Some((m.byte_range.start, *number));
            }
        }
        j = j + 1;
    }
    None
}

/// The first issue reference on a line that the cursor is in or at the end of.
fn find_issue_on_line(refs: &Vec<LineRefs>, line: usize, cursor: usize) -> (r: Option<
    (usize, u64),
>)
    ensures
        r == issue_around(refs_on(refs_models(refs@), line as int, 0), cursor as int, 0),
{
    reveal(refs_models);
    let ghost models = refs_models(refs@);
    let mut j: usize = 0;
    while j < refs.len()
        invariant
            j <= refs@.len(),
            models == refs_models(refs@),
            models == refs@.map_values(|r: LineRefs| r@),
            refs_on(models, line as int, j as int) == refs_on(models, line as int, 0),
        decreases refs@.len() - j,
    {
        assert(models[j as int] == refs@[j as int]@);
        if refs[j].line == line {
            return find_issue_around(&refs[j].refs, cursor);
        }
        j = j + 1;
    }
    None
}

/// The decimal digits of a number, as a string.
fn number_string(n: u64) -> (r: String)
    ensures
        r@ == decode_utf8(decimal(n as nat)),
        encode_utf8(r@) == decimal(n as nat),
{
    let r: String = string_from_utf8(write_number(n));
    proof {
        encode_utf8_decode_utf8(r@);
    }
    r
}

impl Editor {
    /// Names the repository that short references belong to.
    pub fn set_github_context(&mut self, context: GitHubContext)
        requires
            old(self).wf(),
        ensures
            final(self).wf(),
            final(self).state == old(self).state,
            final(self)@ == old(self)@.with_links(
                LinksModel {
                    context: Some((context.owner@, context.repo@)),
                    ..old(self)@.links
                },
            ),
    {
        self.links.context = Some(context);
    }

    /// Notes that GitHub can be asked.
    pub fn set_github_client(&mut self)
        requires
            old(self).wf(),
        ensures
            final(self).wf(),
            final(self).state == old(self).state,
            final(self)@ == old(self)@.with_flags(
                EditorFlags { has_github_client: true, ..old(self)@.flags },
            ),
    {
        self.flags.has_github_client = true;
    }

    /// What is being typed at the cursor.
    fn find_typed(&self) -> (r: Option<(AutocompleteTrigger, usize, String)>)
        requires
            self.ready(),
        ensures
            match r {
                Some((trigger, offset, prefix)) => typed_at(self@.text(), self@.cursor() as int)
                    == Some((trigger, offset, prefix@)),
                None => typed_at(self@.text(), self@.cursor() as int) is None,
            },
    {
        let ghost text = self@.text();
        let cursor: usize = self.state.cursor().offset;
        if cursor == 0 {
            return None;
        }
        let bytes: &[u8] = self.state.buffer.bytes();
        let start: usize = self.state.buffer.line_to_byte(self.state.buffer.byte_to_line(cursor));
        let end: usize = floor_to_boundary(bytes, cursor);
        proof {
            self.state.buffer.lemma_wf();
            lemma_line_begin(text, cursor as int);
            lemma_line_start_boundary(text, line_of(text, cursor as int));
            lemma_floor(text, start as int);
            lemma_floor(text, cursor as int);
            lemma_floor_monotone(text, start as int, cursor as int);
            lemma_pieces_valid(text, start as int, end as int);
        }
        let line: String = string_from_utf8(slice_bytes(bytes, start, end));
        detect_autocomplete_trigger(line.as_str(), start)
    }

    /// What is to be completed at the cursor.
    fn find_reference(&self) -> (r: Option<(AutocompleteTrigger, usize, String)>)
        requires
            self.ready(),
        ensures
            match r {
                Some((trigger, offset, prefix)) => found_at(
                    self@.text(),
                    self@.cursor() as int,
                    self@.links.refs,
                ) == Some((trigger, offset, prefix@)),
                None => found_at(self@.text(), self@.cursor() as int, self@.links.refs) is None,
            },
    {
        let cursor: usize = self.state.cursor().offset;
        let line: usize = self.state.buffer.byte_to_line(cursor);
        match find_issue_on_line(&self.links.refs, line, cursor) {
            Some((start, number)) => Some(
                (AutocompleteTrigger::Issue, start, number_string(number)),
            ),
            None => self.find_typed(),
        }
    }

    /// Brings the completion in line with the cursor. Returns whether suggestions
    /// are to be fetched.
    pub fn update_autocomplete_from_cursor(&mut self) -> (r: bool)
        requires
            old(self).ready(),
        ensures
            final(self).wf(),
            final(self).state == old(self).state,
            (final(self)@, r) == old(self)@.completion_updated(),
    {
        if self.links.context.is_none() || !self.flags.has_github_client {
            self.autocomplete = None;
            return false;
        }
        match self.find_reference() {
            Some((trigger, offset, prefix)) => {
                let taken: Option<AutocompleteState> = self.autocomplete.take();
                let (ac, fetch) = set_autocomplete_state(taken, trigger, offset, prefix);
                self.autocomplete = Some(ac);
                fetch
            },
            None => {
                self.autocomplete = None;
                false
            },
        }
    }

    /// Notes that suggestions for the completion are being fetched. Returns what
    /// to fetch; `None` when there is nothing to fetch or no one to ask.
    pub fn begin_fetch(&mut self) -> (r: Option<FetchRequest>)
        requires
            old(self).wf(),
        ensures
            final(self).wf(),
            final(self).state == old(self).state,
            match r {
                Some(q) => old(self)@.can_fetch() && q.trigger == old(self)@.completion->0.trigger
                    && old(self)@.links.context == Some((q.owner@, q.repo@)) && q.prefix@
                    == old(self)@.completion->0.prefix && final(self)@
                    == old(self)@.with_completion(Some(old(self)@.completion->0.fetching())),
                None => !old(self)@.can_fetch() && final(self)@ == old(self)@,
            },
    {
        if !self.flags.has_github_client {
            return None;
        }
        let (owner, repo): (String, String) = match &self.links.context {
            Some(c) => (c.owner.clone(), c.repo.clone()),
            None => {
                return None;
            },
        };
        let taken: Option<AutocompleteState> = self.autocomplete.take();
        match taken {
            Some(ac) => {
                let mut next: AutocompleteState = ac;
                let trigger: AutocompleteTrigger = next.trigger;
                let prefix: String = next.prefix.clone();
                next.begin_fetch();
                self.autocomplete = Some(next);
                Some(FetchRequest { trigger, owner, repo, prefix })
            },
            None => None,
        }
    }

    /// Whether the completion still waits for suggestions for a prefix.
    fn is_awaiting(&self, trigger: AutocompleteTrigger, prefix: &String) -> (r: bool)
        ensures
            r == self@.awaits(trigger, prefix@),
    {
        match &self.autocomplete {
            Some(ac) => ac.trigger == trigger && str_eq(ac.prefix.as_str(), prefix.as_str()),
            None => false,
        }
    }

    fn offer(&mut self, suggestions: Vec<AutocompleteSuggestion>)
        requires
            old(self).wf(),
            old(self)@.completion is Some,
            forall|i: int| 0 <= i < suggestions@.len() ==> (#[trigger] suggestions@[i]).wf(),
        ensures
            final(self).wf(),
            final(self).state == old(self).state,
            final(self)@ == old(self)@.with_completion(
                Some(old(self)@.completion->0.offering(suggestion_models(suggestions@))),
            ),
    {
        let taken: Option<AutocompleteState> = self.autocomplete.take();
        if let Some(ac) = taken {
            let mut next: AutocompleteState = ac;
            next.offer(suggestions);
            self.autocomplete = Some(next);
        }
    }

    /// Takes the issues that were fetched for a prefix: they are known to exist
    /// now, and they are suggested if they are still waited for. Returns whether
    /// they are.
    pub fn finish_issue_fetch(
        &mut self,
        owner: &String,
        repo: &String,
        prefix: &String,
        issues: &Vec<IssueOrPr>,
    ) -> (r: bool)
        requires
            old(self).wf(),
        ensures
            final(self).wf(),
            final(self).state == old(self).state,
            r == old(self)@.awaits(AutocompleteTrigger::Issue, prefix@),
            ({
                let models = issue_models(issues@);
                let entries = issues_noted(
                    old(self)@.links.known,
                    owner@,
                    repo@,
                    models,
                    models.len() as int,
                );
                let noted = old(self)@.knowing(entries);
                final(self)@ == (if r {
                    noted.with_completion(
                        Some(
                            old(self)@.completion->0.offering(
                                typed_issue(entries, owner@, repo@, prefix@, models)
                                    + issue_suggestions(models),
                            ),
                        ),
                    )
                } else {
                    noted
                })
            }),
    {
        note_issues(&mut self.links.cache, owner, repo, issues);
        if !self.is_awaiting(AutocompleteTrigger::Issue, prefix) {
            return false;
        }
        let suggestions = suggest_issues(&self.links.cache, owner, repo, prefix, issues);
        self.offer(suggestions);
        true
    }

    /// Takes the users that were fetched for a prefix: they are suggested if they
    /// are still waited for. Returns whether they are.
    pub fn finish_user_fetch(&mut self, prefix: &String, users: &Vec<GitHubUser>) -> (r: bool)
        requires
            old(self).wf(),
        ensures
            final(self).wf(),
            final(self).state == old(self).state,
            r == old(self)@.awaits(AutocompleteTrigger::User, prefix@),
            final(self)@ == (if r {
                old(self)@.with_completion(
                    Some(
                        old(self)@.completion->0.offering(user_suggestions(user_models(users@))),
                    ),
                )
            } else {
                old(self)@
            }),
    {
        if !self.is_awaiting(AutocompleteTrigger::User, prefix) {
            return false;
        }
        self.offer(suggest_users(users));
        true
    }

    /// Selects a suggestion.
    pub fn select_suggestion(&mut self, index: usize) -> (r: bool)
        requires
            old(self).wf(),
            old(self)@.completion matches Some(ac) ==> index < ac.suggestions.len(),
        ensures
            final(self).wf(),
            final(self).state == old(self).state,
            match old(self)@.completion {
                Some(ac) => final(self)@ == old(self)@.with_completion(
                    Some(CompletionModel { selected_index: index, ..ac }),
                ) && r == (ac.selected_index != index),
                None => final(self)@ == old(self)@ && !r,
            },
    {
        let taken: Option<AutocompleteState> = self.autocomplete.take();
        match taken {
            Some(ac) => {
                let mut next: AutocompleteState = ac;
                let changed: bool = next.selected_index != index;
                next.selected_index = index;
                self.autocomplete = Some(next);
                changed
            },
            None => false,
        }
    }

    /// Picks out the references that are to be asked for and notes that they are.
    /// Without anyone to ask there are none.
    pub fn queue_validation(&mut self, refs: &Vec<GitHubRef>) -> (r: Vec<GitHubRef>)
        requires
            old(self).wf(),
        ensures
            final(self).wf(),
            final(self).state == old(self).state,
            old(self)@.flags.has_github_client ==> ref_models(r@) == asked_for(
                old(self)@.links.known,
                ref_models(refs@),
                refs@.len() as int,
            ) && final(self)@ == old(self)@.knowing(
                marked_pending(old(self)@.links.known, ref_models(refs@), refs@.len() as int),
            ),
            !old(self)@.flags.has_github_client ==> r@.len() == 0 && *final(self) == *old(self),
    {
        if !self.flags.has_github_client {
            return Vec::new();
        }
        queue_refs(&mut self.links.cache, refs)
    }

    /// Takes what GitHub answered of a reference.
    pub fn finish_validation(&mut self, reference: GitHubRef, result: ValidationResult)
        requires
            old(self).wf(),
        ensures
            final(self).wf(),
            final(self).state == old(self).state,
            final(self)@ == old(self)@.knowing(
                noted(old(self)@.links.known, reference@, answered(result)),
            ),
    {
        self.links.cache.set_result(reference, result);
    }
}

/// Picks out the references of which nothing is known, and notes that they are
/// being asked for.
fn queue_refs(cache: &mut GitHubValidationCache, refs: &Vec<GitHubRef>) -> (r: Vec<GitHubRef>)
    ensures
        ref_models(r@) == asked_for(old(cache)@, ref_models(refs@), refs@.len() as int),
        final(cache)@ == marked_pending(old(cache)@, ref_models(refs@), refs@.len() as int),
{
    let ghost entries = cache@;
    let ghost models = ref_models(refs@);
    let mut out: Vec<GitHubRef> = Vec::new();
    let mut n: usize = 0;
    assert(ref_models(out@) =~= Seq::<RefModel>::empty());
    while n < refs.len()
        invariant
            n <= refs@.len(),
            models == ref_models(refs@),
            cache@ == marked_pending(entries, models, n as int),
            ref_models(out@) == asked_for(entries, models, n as int),
        decreases refs@.len() - n,
    {
        assert(models[n as int] == refs@[n as int]@);
        if cache.get(&refs[n]).is_none() {
            let ghost before = ref_models(out@);
            cache.mark_pending(refs[n].copy());
            out.push(refs[n].copy());
            assert(ref_models(out@) =~= before.push(models[n as int]));
        }
        n = n + 1;
    }
    out
}

proof fn lemma_marked_pending(
    entries: Seq<(RefModel, KnownModel)>,
    refs: Seq<RefModel>,
    n: int,
    k: int,
)
    requires
        0 <= k < n <= refs.len(),
    ensures
        known(marked_pending(entries, refs, n), refs[k]) is Some,
    decreases n,
{
    let before = marked_pending(entries, refs, n - 1);
    if k < n - 1 {
        lemma_marked_pending(entries, refs, n - 1, k);
    }
    if known(before, refs[n - 1]) is None {
        crate::github::law_noted_is_known(before, refs[n - 1], KnownModel::Pending, refs[k]);
    }
}

/// Once references were asked for, none of them is asked for again.
pub proof fn law_nothing_is_asked_twice(
    entries: Seq<(RefModel, KnownModel)>,
    refs: Seq<RefModel>,
    n: int,
)
    requires
        0 <= n <= refs.len(),
    ensures
        asked_for(marked_pending(entries, refs, refs.len() as int), refs, n)
            == Seq::<RefModel>::empty(),
        marked_pending(marked_pending(entries, refs, refs.len() as int), refs, n)
            == marked_pending(entries, refs, refs.len() as int),
    decreases n,
{
    if n > 0 {
        law_nothing_is_asked_twice(entries, refs, n - 1);
        lemma_marked_pending(entries, refs, refs.len() as int, n - 1);
    }
}

/// A reference that is being typed starts with its sign on the cursor's line,
/// before the cursor, and what counts as typed is what stands between the two.
pub proof fn law_typed_reference_stands_before_the_cursor(text: Seq<u8>, cursor: int)
    requires
        valid_utf8(text),
        text.len() <= usize::MAX,
        0 <= cursor <= text.len(),
        boundary(text, cursor),
    ensures
        typed_at(text, cursor) matches Some((trigger, offset, prefix)) ==> line_begin(text, cursor)
            <= offset < cursor && boundary(text, offset as int) && text[offset as int] == (
        if trigger == AutocompleteTrigger::Issue {
            35u8
        } else {
            64u8
        }) && encode_utf8(prefix) == text.subrange(offset + 1, cursor),
{
    lemma_line_begin(text, cursor);
    lemma_floor(text, cursor);
    if let Some((trigger, offset, prefix)) = typed_at(text, cursor) {
        let start = line_begin(text, cursor);
        let s = before_cursor_on_line(text, cursor);
        let (_, pos) = typed_reference(s)->0;
        crate::autocomplete::lemma_last_byte(s, 35, s.len() as int);
        crate::autocomplete::lemma_last_byte(s, 64, s.len() as int);
        assert(s[pos] == text[start + pos]);
        assert(offset == start + pos);
        let rest = crate::autocomplete::after(s, pos);
        assert(rest =~= text.subrange(offset + 1, cursor));
        lemma_after_ascii(text, offset + 1);
        lemma_pieces_valid(text, offset + 1, cursor);
        decode_utf8_encode_utf8(rest);
    }
}

} // verus!
