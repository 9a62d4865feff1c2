//! References to GitHub issues, users and commits, and what is known of them.

use vstd::prelude::*;

use crate::marker::Span;
use crate::text::str_eq;

verus! {

/// The repository that short references belong to.
pub struct GitHubContext {
    pub owner: String,
    pub repo: String,
}

/// What a reference points to.
pub enum GitHubRef {
    Issue { owner: String, repo: String, number: u64 },
    User { login: String },
    Commit { owner: String, repo: String, sha: String },
}

/// What a reference points to, as contracts speak of it.
pub enum RefModel {
    Issue { owner: Seq<char>, repo: Seq<char>, number: u64 },
    User { login: Seq<char> },
    Commit { owner: Seq<char>, repo: Seq<char>, sha: Seq<char> },
}

impl View for GitHubRef {
    type V = RefModel;

    open spec fn view(&self) -> RefModel {
        match self {
            GitHubRef::Issue { owner, repo, number } => RefModel::Issue {
                owner: owner@,
                repo: repo@,
                number: *number,
            },
            GitHubRef::User { login } => RefModel::User { login: login@ },
            GitHubRef::Commit { owner, repo, sha } => RefModel::Commit {
                owner: owner@,
                repo: repo@,
                sha: sha@,
            },
        }
    }
}

/// The state of an issue or a pull request.
#[derive(Clone, Copy, Debug, PartialEq, Eq, Structural)]
pub enum IssueStatus {
    Open,
    Draft,
    Merged,
    Closed,
    ClosedNotPlanned,
}

/// An issue or a pull request.
pub struct IssueOrPr {
    pub number: u64,
    pub title: String,
    pub is_pull_request: bool,
    pub status: IssueStatus,
}

/// An issue or a pull request, as contracts speak of it.
pub struct IssueModel {
    pub number: u64,
    pub title: Seq<char>,
    pub is_pull_request: bool,
    pub status: IssueStatus,
}

impl View for IssueOrPr {
    type V = IssueModel;

    open spec fn view(&self) -> IssueModel {
        IssueModel {
            number: self.number,
            title: self.title@,
            is_pull_request: self.is_pull_request,
            status: self.status,
        }
    }
}

/// A user.
pub struct GitHubUser {
    pub login: String,
    pub name: Option<String>,
}

/// A user, as contracts speak of one.
pub struct UserModel {
    pub login: Seq<char>,
    pub name: Option<Seq<char>>,
}

impl View for GitHubUser {
    type V = UserModel;

    open spec fn view(&self) -> UserModel {
        UserModel {
            login: self.login@,
            name: match self.name {
                Some(n) => Some(n@),
                None => None,
            },
        }
    }
}

/// What is known of a reference that exists.
pub enum ValidatedRefData {
    Issue(IssueOrPr),
    User(GitHubUser),
}

/// What is known of a reference that exists, as contracts speak of it.
pub enum DataModel {
    Issue(IssueModel),
    User(UserModel),
}

impl View for ValidatedRefData {
    type V = DataModel;

    open spec fn view(&self) -> DataModel {
        match self {
            ValidatedRefData::Issue(i) => DataModel::Issue(i@),
            ValidatedRefData::User(u) => DataModel::User(u@),
        }
    }
}

/// Whether a reference is known to exist.
pub enum ValidationState {
    Pending,
    Valid(Option<ValidatedRefData>),
    Invalid,
}

/// Whether a reference is known to exist, as contracts speak of it.
pub enum KnownModel {
    Pending,
    Valid(Option<DataModel>),
    Invalid,
}

impl View for ValidationState {
    type V = KnownModel;

    open spec fn view(&self) -> KnownModel {
        match self {
            ValidationState::Pending => KnownModel::Pending,
            ValidationState::Valid(d) => KnownModel::Valid(
                match d {
                    Some(d) => Some(d@),
                    None => None,
                },
            ),
            ValidationState::Invalid => KnownModel::Invalid,
        }
    }
}

/// What GitHub answered when asked for a reference.
pub enum ValidationResult {
    ValidWithData(ValidatedRefData),
    ValidNoData,
    Invalid,
}

/// A reference in the text.
pub struct RawGitHubMatch {
    pub byte_range: Span,
    pub reference: GitHubRef,
}

/// A reference in the text, as contracts speak of it.
pub struct MatchModel {
    pub range: Span,
    pub reference: RefModel,
}

impl View for RawGitHubMatch {
    type V = MatchModel;

    open spec fn view(&self) -> MatchModel {
        MatchModel { range: self.byte_range, reference: self.reference@ }
    }
}

/// An address that stands in the text by itself, and the reference it leads to.
pub struct NakedUrl {
    pub byte_range: Span,
    pub url: String,
    pub github_ref: Option<GitHubRef>,
}

/// An address in the text, as contracts speak of it.
pub struct UrlModel {
    pub range: Span,
    pub url: Seq<char>,
    pub reference: Option<RefModel>,
}

impl View for NakedUrl {
    type V = UrlModel;

    open spec fn view(&self) -> UrlModel {
        UrlModel {
            range: self.byte_range,
            url: self.url@,
            reference: match self.github_ref {
                Some(r) => Some(r@),
                None => None,
            },
        }
    }
}

/// The sign before the number of an issue (`●`) or of a pull request (`⎇`).
pub open spec fn issue_symbol(is_pull_request: bool) -> Seq<char> {
    if is_pull_request {
        "⎇"@
    } else {
        "●"@
    }
}

impl IssueOrPr {
    /// The sign before the number.
    pub fn symbol(&self) -> (r: &'static str)
        ensures
            r@ == issue_symbol(self@.is_pull_request),
    {
        if self.is_pull_request {
            "⎇"
        } else {
            "●"
        }
    }

    /// The state of the issue or pull request.
    pub fn status(&self) -> (r: IssueStatus)
        ensures
            r == self@.status,
    {
        self.status
    }

    /// The same issue or pull request once more.
    pub fn copy(&self) -> (r: IssueOrPr)
        ensures
            r@ == self@,
    {
        IssueOrPr {
            number: self.number,
            title: self.title.clone(),
            is_pull_request: self.is_pull_request,
            status: self.status,
        }
    }
}

impl GitHubRef {
    /// Whether two references point to the same thing.
    pub fn same_as(&self, other: &GitHubRef) -> (r: bool)
        ensures
            r == (self@ == other@),
    {
        match (self, other) {
            (
                GitHubRef::Issue { owner, repo, number },
                GitHubRef::Issue { owner: owner2, repo: repo2, number: number2 },
            ) => *number == *number2 && str_eq(owner.as_str(), owner2.as_str()) && str_eq(
                repo.as_str(),
                repo2.as_str(),
            ),
            (GitHubRef::User { login }, GitHubRef::User { login: login2 }) => str_eq(
                login.as_str(),
                login2.as_str(),
            ),
            (
                GitHubRef::Commit { owner, repo, sha },
                GitHubRef::Commit { owner: owner2, repo: repo2, sha: sha2 },
            ) => str_eq(owner.as_str(), owner2.as_str()) && str_eq(repo.as_str(), repo2.as_str())
                && str_eq(sha.as_str(), sha2.as_str()),
            _ => false,
        }
    }

    /// The same reference once more.
    pub fn copy(&self) -> (r: GitHubRef)
        ensures
            r@ == self@,
    {
        match self {
            GitHubRef::Issue { owner, repo, number } => GitHubRef::Issue {
                owner: owner.clone(),
                repo: repo.clone(),
                number: *number,
            },
            GitHubRef::User { login } => GitHubRef::User { login: login.clone() },
            GitHubRef::Commit { owner, repo, sha } => GitHubRef::Commit {
                owner: owner.clone(),
                repo: repo.clone(),
                sha: sha.clone(),
            },
        }
    }
}

// ---------------------------------------------------------------------------
// What is known of references
// ---------------------------------------------------------------------------

/// What is known of references.
pub struct GitHubValidationCache {
    entries: Vec<(GitHubRef, ValidationState)>,
}

/// The place of a reference among the entries, from place `j` on.
pub open spec fn place_of(
    entries: Seq<(RefModel, KnownModel)>,
    reference: RefModel,
    j: int,
) -> Option<int>
    decreases entries.len() - j,
{
    if j >= entries.len() {
        None
    } else if entries[j].0 == reference {
        Some(j)
    } else {
        place_of(entries, reference, j + 1)
    }
}

/// What is known of a reference.
pub open spec fn known(entries: Seq<(RefModel, KnownModel)>, reference: RefModel) -> Option<
    KnownModel,
> {
    match place_of(entries, reference, 0) {
        Some(i) => Some(entries[i].1),
        None => None,
    }
}

/// The entries after a reference was noted.
pub open spec fn noted(
    entries: Seq<(RefModel, KnownModel)>,
    reference: RefModel,
    state: KnownModel,
) -> Seq<(RefModel, KnownModel)> {
    match place_of(entries, reference, 0) {
        Some(i) => entries.update(i, (reference, state)),
        None => entries.push((reference, state)),
    }
}

/// What an answer says of a reference.
pub open spec fn answered(result: ValidationResult) -> KnownModel {
    match result {
        ValidationResult::ValidWithData(d) => KnownModel::Valid(Some(d@)),
        ValidationResult::ValidNoData => KnownModel::Valid(None),
        ValidationResult::Invalid => KnownModel::Invalid,
    }
}

proof fn lemma_place_of(entries: Seq<(RefModel, KnownModel)>, reference: RefModel, j: int)
    requires
        0 <= j,
    ensures
        match place_of(entries, reference, j) {
            Some(i) => j <= i < entries.len() && entries[i].0 == reference && forall|k: int|
                j <= k < i ==> (#[trigger] entries[k]).0 != reference,
            None => forall|k: int| j <= k < entries.len() ==> (#[trigger] entries[k]).0
                != reference,
        },
    decreases entries.len() - j,
{
    if j < entries.len() && entries[j].0 != reference {
        lemma_place_of(entries, reference, j + 1);
    }
}

proof fn lemma_place_is(entries: Seq<(RefModel, KnownModel)>, reference: RefModel, j: int, i: int)
    requires
        0 <= j <= i < entries.len(),
        entries[i].0 == reference,
        forall|k: int| j <= k < i ==> (#[trigger] entries[k]).0 != reference,
    ensures
        place_of(entries, reference, j) == Some(i),
    decreases i - j,
{
    if j < i {
        lemma_place_is(entries, reference, j + 1, i);
    }
}

/// What was noted of a reference is what is known of it, and nothing else that
/// is known changes.
pub proof fn law_noted_is_known(
    entries: Seq<(RefModel, KnownModel)>,
    reference: RefModel,
    state: KnownModel,
    other: RefModel,
)
    ensures
        known(noted(entries, reference, state), reference) == Some(state),
        other != reference ==> known(noted(entries, reference, state), other) == known(
            entries,
            other,
        ),
{
    let after = noted(entries, reference, state);
    lemma_place_of(entries, reference, 0);
    let i = match place_of(entries, reference, 0) {
        Some(i) => i,
        None => entries.len() as int,
    };
    lemma_place_is(after, reference, 0, i);
    lemma_place_of(entries, other, 0);
    lemma_place_of(after, other, 0);
    if other != reference {
        match place_of(entries, other, 0) {
            Some(k) => {
                assert(after[k] == entries[k]);
                lemma_place_is(after, other, 0, k);
            },
            None => {
                if let Some(k) = place_of(after, other, 0) {
                    assert(after[k].0 == other);
                    assert(k != i);
                    assert(after[k] == entries[k]);
                }
            },
        }
    }
}

impl View for GitHubValidationCache {
    type V = Seq<(RefModel, KnownModel)>;

    closed spec fn view(&self) -> Seq<(RefModel, KnownModel)> {
        self.entries@.map_values(|e: (GitHubRef, ValidationState)| (e.0@, e.1@))
    }
}

impl GitHubValidationCache {
    /// Nothing is known.
    pub fn new() -> (r: GitHubValidationCache)
        ensures
            r@ == Seq::<(RefModel, KnownModel)>::empty(),
    {
        let r = GitHubValidationCache { entries: Vec::new() };
        assert(r@ =~= Seq::<(RefModel, KnownModel)>::empty());
        r
    }

    fn place(&self, reference: &GitHubRef) -> (r: Option<usize>)
        ensures
            match r {
                Some(i) => i < self.entries@.len() && place_of(self@, reference@, 0) == Some(
                    i as int,
                ),
                None => place_of(self@, reference@, 0) is None,
            },
    {
        let mut j: usize = 0;
        while j < self.entries.len()
            invariant
                j <= self.entries@.len(),
                place_of(self@, reference@, j as int) == place_of(self@, reference@, 0),
            decreases self.entries@.len() - j,
        {
            assert(self@[j as int].0 == self.entries@[j as int].0@);
            if self.entries[j].0.same_as(reference) {
                return Some(j);
            }
            j = j + 1;
        }
        None
    }

    /// What is known of a reference.
    pub fn get(&self, reference: &GitHubRef) -> (r: Option<&ValidationState>)
        ensures
            match r {
                Some(s) => known(self@, reference@) == Some(s@),
                None => known(self@, reference@) is None,
            },
    {
        match self.place(reference) {
            Some(i) => {
                assert(self@[i as int].1 == self.entries@[i as int].1@);
                Some(&self.entries[i].1)
            },
            None => None,
        }
    }

    fn note(&mut self, reference: GitHubRef, state: ValidationState)
        ensures
            final(self)@ == noted(old(self)@, reference@, state@),
    {
        let ghost before = self@;
        let ghost entry = (reference@, state@);
        match self.place(&reference) {
            Some(i) => {
                self.entries.set(i, (reference, state));
                assert(self@ =~= before.update(i as int, entry));
            },
            None => {
                self.entries.push((reference, state));
                assert(self@ =~= before.push(entry));
            },
        }
    }

    /// Notes that a reference is being asked for.
    pub fn mark_pending(&mut self, reference: GitHubRef)
        ensures
            final(self)@ == noted(old(self)@, reference@, KnownModel::Pending),
    {
        self.note(reference, ValidationState::Pending);
    }

    /// Notes that a reference exists.
    pub fn set_valid(&mut self, reference: GitHubRef, data: Option<ValidatedRefData>)
        ensures
            final(self)@ == noted(
                old(self)@,
                reference@,
                KnownModel::Valid(
                    match data {
                        Some(d) => Some(d@),
                        None => None,
                    },
                ),
            ),
    {
        self.note(reference, ValidationState::Valid(data));
    }

    /// Notes that a reference does not exist.
    pub fn set_invalid(&mut self, reference: GitHubRef)
        ensures
            final(self)@ == noted(old(self)@, reference@, KnownModel::Invalid),
    {
        self.note(reference, ValidationState::Invalid);
    }

    /// Notes what GitHub answered.
    pub fn set_result(&mut self, reference: GitHubRef, result: ValidationResult)
        ensures
            final(self)@ == noted(old(self)@, reference@, answered(result)),
    {
        match result {
            ValidationResult::ValidWithData(d) => self.set_valid(reference, Some(d)),
            ValidationResult::ValidNoData => self.set_valid(reference, None),
            ValidationResult::Invalid => self.set_invalid(reference),
        }
    }

    /// Forgets everything.
    pub fn clear(&mut self)
        ensures
            final(self)@ == Seq::<(RefModel, KnownModel)>::empty(),
    {
        self.entries = Vec::new();
        assert(self@ =~= Seq::<(RefModel, KnownModel)>::empty());
    }
}

} // verus!
