//! What pops up over the text: suggestions to complete with, and what is known
//! of the reference under the mouse.

use vstd::prelude::*;
use vstd::utf8::*;

use crate::action::ScreenPoint;
use crate::autocomplete::AutocompleteTrigger;
use crate::editor::{
    refs_models, urls_models, Editor, EditorModel, LineRefs, LineRefsModel, LineUrls,
    LineUrlsModel,
};
use crate::github::{
    known, DataModel, GitHubRef, GitHubUser, IssueModel, IssueOrPr, IssueStatus, KnownModel,
    MatchModel, NakedUrl, RawGitHubMatch, RefModel, UrlModel, UserModel, ValidatedRefData,
    ValidationState,
};
use crate::marker::Span;
use crate::number::{decimal, write_number};
use crate::text::{lemma_ascii_valid, lemma_str_valid, push_bytes, string_from_utf8};

verus! {

// ---------------------------------------------------------------------------
// Labels
// ---------------------------------------------------------------------------

/// The colour that stands for the state of an issue or a pull request.
#[derive(Clone, Copy, Debug, PartialEq, Eq, Structural)]
pub enum StatusColor {
    Green,
    /// The colour of comments.
    Dimmed,
    Purple,
    Red,
}

/// The colour that stands for a state.
pub open spec fn color_of(status: IssueStatus) -> StatusColor {
    match status {
        IssueStatus::Open => StatusColor::Green,
        IssueStatus::Draft => StatusColor::Dimmed,
        IssueStatus::Merged => StatusColor::Purple,
        IssueStatus::Closed => StatusColor::Purple,
        IssueStatus::ClosedNotPlanned => StatusColor::Red,
    }
}

/// The colour that stands for a state.
pub fn status_color(status: IssueStatus) -> (r: StatusColor)
    ensures
        r == color_of(status),
{
    match status {
        IssueStatus::Open => StatusColor::Green,
        IssueStatus::Draft => StatusColor::Dimmed,
        IssueStatus::Merged | IssueStatus::Closed => StatusColor::Purple,
        IssueStatus::ClosedNotPlanned => StatusColor::Red,
    }
}

/// What stands before the title of an issue or a pull request: its sign, a space,
/// and its number.
pub struct IssueLabel {
    pub text: String,
    /// The bytes of the sign, in the state's colour.
    pub symbol_len: usize,
    /// The bytes of the space behind the sign.
    pub space_len: usize,
    /// The bytes of the number with its `#` and the space behind it.
    pub number_len: usize,
    pub color: StatusColor,
}

/// The number of an issue as a label shows it, with a space behind it.
pub open spec fn number_label(number: u64) -> Seq<u8> {
    seq![35u8] + decimal(number as nat) + seq![32u8]
}

/// What stands before the title of an issue or a pull request.
pub open spec fn issue_label_text(symbol: Seq<char>, number: u64) -> Seq<u8> {
    encode_utf8(symbol) + seq![32u8] + number_label(number)
}

impl IssueLabel {
    /// The label is the one of an issue, and its parts cover it without a gap.
    pub open spec fn labels(&self, symbol: Seq<char>, number: u64, status: IssueStatus) -> bool {
        &&& encode_utf8(self.text@) == issue_label_text(symbol, number)
        &&& self.symbol_len == encode_utf8(symbol).len()
        &&& self.space_len == 1
        &&& self.number_len == number_label(number).len()
        &&& self.symbol_len + self.space_len + self.number_len == encode_utf8(self.text@).len()
        &&& self.color == color_of(status)
    }
}

/// The number of an issue as a label shows it.
fn write_number_label(number: u64) -> (r: Vec<u8>)
    ensures
        r@ == number_label(number),
        valid_utf8(r@),
{
    let mut v: Vec<u8> = Vec::new();
    v.push(35);
    let digits: Vec<u8> = write_number(number);
    proof {
        assert(v@ =~= seq![35u8]);
        lemma_ascii_valid(v@);
        valid_utf8_concat(v@, digits@);
        lemma_ascii_valid(seq![32u8]);
        valid_utf8_concat(v@ + digits@, seq![32u8]);
    }
    push_bytes(&mut v, digits.as_slice());
    v.push(32);
    assert(v@ =~= number_label(number));
    v
}

/// What stands before the title of an issue or a pull request.
pub fn issue_label(symbol: &str, number: u64, status: IssueStatus) -> (r: IssueLabel)
    ensures
        r.labels(symbol@, number, status),
{
    let mut v: Vec<u8> = Vec::new();
    push_bytes(&mut v, symbol.as_bytes());
    assert(v@ =~= encode_utf8(symbol@));
    let symbol_len: usize = v.len();
    v.push(32);
    let num: Vec<u8> = write_number_label(number);
    proof {
        lemma_str_valid(symbol@);
        lemma_ascii_valid(seq![32u8]);
        valid_utf8_concat(encode_utf8(symbol@), seq![32u8]);
        assert(v@ =~= encode_utf8(symbol@) + seq![32u8]);
        valid_utf8_concat(v@, num@);
    }
    push_bytes(&mut v, num.as_slice());
    IssueLabel {
        text: string_from_utf8(v),
        symbol_len,
        space_len: 1,
        number_len: num.len(),
        color: status_color(status),
    }
}

/// How a user is shown: `@login`.
pub fn user_label(login: &str) -> (r: String)
    ensures
        encode_utf8(r@) == seq![64u8] + encode_utf8(login@),
{
    let mut v: Vec<u8> = Vec::new();
    v.push(64);
    proof {
        assert(v@ =~= seq![64u8]);
        lemma_ascii_valid(v@);
        lemma_str_valid(login@);
        valid_utf8_concat(v@, encode_utf8(login@));
    }
    push_bytes(&mut v, login.as_bytes());
    string_from_utf8(v)
}

// ---------------------------------------------------------------------------
// Suggestions
// ---------------------------------------------------------------------------

/// How a suggestion is set off from the others.
#[derive(Clone, Copy, Debug, PartialEq, Eq, Structural)]
pub struct PopupItem {
    pub is_selected: bool,
    pub is_first: bool,
    pub is_last: bool,
}

impl EditorModel {
    /// How many suggestions are shown: none while they are being fetched.
    pub open spec fn popup_len(self) -> int {
        match self.completion {
            Some(ac) => if ac.loading {
                0
            } else {
                ac.suggestions.len() as int
            },
            None => 0,
        }
    }
}

impl Editor {
    /// How many suggestions are shown.
    pub fn popup_len(&self) -> (r: usize)
        ensures
            r == self@.popup_len(),
    {
        match &self.autocomplete {
            Some(ac) => if ac.loading {
                0
            } else {
                ac.suggestions.len()
            },
            None => 0,
        }
    }

    /// Whether the suggestions are shown at a fixed width: issues are, so that
    /// long titles are cut off.
    pub fn popup_is_wide(&self) -> (r: bool)
        ensures
            r == (self@.completion matches Some(ac) && ac.trigger == AutocompleteTrigger::Issue),
    {
        match &self.autocomplete {
            Some(ac) => ac.trigger == AutocompleteTrigger::Issue,
            None => false,
        }
    }

    /// How a suggestion is set off from the others; `None` when it is not shown.
    pub fn popup_item(&self, index: usize) -> (r: Option<PopupItem>)
        ensures
            r == (if index < self@.popup_len() {
                Some(
                    PopupItem {
                        is_selected: index == self@.completion->0.selected_index,
                        is_first: index == 0,
                        is_last: index == self@.popup_len() - 1,
                    },
                )
            } else {
                None
            }),
    {
        match &self.autocomplete {
            Some(ac) => if !ac.loading && index < ac.suggestions.len() {
                Some(
                    PopupItem {
                        is_selected: index == ac.selected_index,
                        is_first: index == 0,
                        is_last: index == ac.suggestions.len() - 1,
                    },
                )
            } else {
                None
            },
            None => None,
        }
    }
}

// ---------------------------------------------------------------------------
// The reference under the mouse
// ---------------------------------------------------------------------------

/// The reference among matches from place `j` on that stands in a range.
pub open spec fn match_in(refs: Seq<MatchModel>, range: Span, j: int) -> Option<RefModel>
    decreases refs.len() - j,
{
    if j >= refs.len() {
        None
    } else if refs[j].range == range {
        Some(refs[j].reference)
    } else {
        match_in(refs, range, j + 1)
    }
}

/// The reference on the lines from place `j` on that stands in a range.
pub open spec fn ref_in(lines: Seq<LineRefsModel>, range: Span, j: int) -> Option<RefModel>
    decreases lines.len() - j,
{
    if j >= lines.len() {
        None
    } else {
        match match_in(lines[j].refs, range, 0) {
            Some(r) => Some(r),
            None => ref_in(lines, range, j + 1),
        }
    }
}

/// The reference that one of the addresses from place `j` on leads to, for one
/// that stands in a range.
pub open spec fn url_target_in(urls: Seq<UrlModel>, range: Span, j: int) -> Option<RefModel>
    decreases urls.len() - j,
{
    if j >= urls.len() {
        None
    } else if urls[j].range == range && urls[j].reference is Some {
        urls[j].reference
    } else {
        url_target_in(urls, range, j + 1)
    }
}

/// The reference that an address on the lines from place `j` on leads to, for one
/// that stands in a range.
pub open spec fn url_in(lines: Seq<LineUrlsModel>, range: Span, j: int) -> Option<RefModel>
    decreases lines.len() - j,
{
    if j >= lines.len() {
        None
    } else {
        match url_target_in(lines[j].urls, range, 0) {
            Some(r) => Some(r),
            None => url_in(lines, range, j + 1),
        }
    }
}

/// What is shown of a reference.
pub enum HoverBody<'a> {
    /// The issue or pull request, like a suggestion.
    Issue(&'a IssueOrPr),
    /// The user, like a suggestion.
    User(&'a GitHubUser),
    /// That it exists.
    Exists,
    /// That there is no such thing.
    Missing,
    /// That nothing is known yet.
    Waiting,
}

/// What is shown of a reference, as contracts speak of it.
pub enum HoverModel {
    Issue(IssueModel),
    User(UserModel),
    Exists,
    Missing,
    Waiting,
}

impl<'a> View for HoverBody<'a> {
    type V = HoverModel;

    open spec fn view(&self) -> HoverModel {
        match self {
            HoverBody::Issue(i) => HoverModel::Issue(i@),
            HoverBody::User(u) => HoverModel::User(u@),
            HoverBody::Exists => HoverModel::Exists,
            HoverBody::Missing => HoverModel::Missing,
            HoverBody::Waiting => HoverModel::Waiting,
        }
    }
}

/// What is shown of a reference of which this much is known.
pub open spec fn hover_of(state: Option<KnownModel>) -> HoverModel {
    match state {
        Some(KnownModel::Valid(Some(DataModel::Issue(i)))) => HoverModel::Issue(i),
        Some(KnownModel::Valid(Some(DataModel::User(u)))) => HoverModel::User(u),
        Some(KnownModel::Valid(None)) => HoverModel::Exists,
        Some(KnownModel::Invalid) => HoverModel::Missing,
        Some(KnownModel::Pending) => HoverModel::Waiting,
        None => HoverModel::Waiting,
    }
}

/// What pops up at the reference under the mouse.
pub struct HoverPopup<'a> {
    pub reference: &'a GitHubRef,
    pub position: ScreenPoint,
    pub body: HoverBody<'a>,
    /// Whether it is shown at a fixed width, so that a long title is cut off.
    pub is_wide: bool,
}

impl EditorModel {
    /// The reference under the mouse: a short one, or else an address.
    pub open spec fn hovered_ref(self) -> Option<RefModel> {
        match self.flags.hovered_github_ref_range {
            Some(range) => match ref_in(self.links.refs, range, 0) {
                Some(r) => Some(r),
                None => url_in(self.links.urls, range, 0),
            },
            None => None,
        }
    }

    /// Whether something pops up at the reference under the mouse: not while
    /// there are suggestions.
    pub open spec fn shows_hover(self) -> bool {
        &&& !(self.completion matches Some(ac) && ac.suggestions.len() > 0)
        &&& self.hovered_ref() is Some
        &&& self.flags.hovered_ref_position is Some
    }
}

fn find_match_in<'a>(refs: &'a Vec<RawGitHubMatch>, range: Span) -> (r: Option<&'a GitHubRef>)
    ensures
        match r {
            Some(x) => match_in(refs@.map_values(|m: RawGitHubMatch| m@), range, 0) == Some(x@),
            None => match_in(refs@.map_values(|m: RawGitHubMatch| m@), range, 0) is None,
        },
{
    let ghost ms = refs@.map_values(|m: RawGitHubMatch| m@);
    let mut j: usize = 0;
    while j < refs.len()
        invariant
            j <= refs@.len(),
            ms == refs@.map_values(|m: RawGitHubMatch| m@),
            match_in(ms, range, j as int) == match_in(ms, range, 0),
        decreases refs@.len() - j,
    {
        assert(ms[j as int] == refs@[j as int]@);
        if refs[j].byte_range == range {
            return Some(&refs[j].reference);
        }
        j = j + 1;
    }
    None
}

fn find_ref_in<'a>(lines: &'a Vec<LineRefs>, range: Span) -> (r: Option<&'a GitHubRef>)
    ensures
        match r {
            Some(x) => ref_in(refs_models(lines@), range, 0) == Some(x@),
            None => ref_in(refs_models(lines@), range, 0) is None,
        },
{
    reveal(refs_models);
    let ghost ms = refs_models(lines@);
    let mut j: usize = 0;
    while j < lines.len()
        invariant
            j <= lines@.len(),
            ms == refs_models(lines@),
            ms == lines@.map_values(|r: LineRefs| r@),
            ref_in(ms, range, j as int) == ref_in(ms, range, 0),
        decreases lines@.len() - j,
    {
        assert(ms[j as int] == lines@[j as int]@);
        if let Some(x) = find_match_in(&lines[j].refs, range) {
            return Some(x);
        }
        j = j + 1;
    }
    None
}

fn find_url_target_in<'a>(urls: &'a Vec<NakedUrl>, range: Span) -> (r: Option<&'a GitHubRef>)
    ensures
        match r {
            Some(x) => url_target_in(urls@.map_values(|u: NakedUrl| u@), range, 0) == Some(x@),
            None => url_target_in(urls@.map_values(|u: NakedUrl| u@), range, 0) is None,
        },
{
    let ghost ms = urls@.map_values(|u: NakedUrl| u@);
    let mut j: usize = 0;
    while j < urls.len()
        invariant
            j <= urls@.len(),
            ms == urls@.map_values(|u: NakedUrl| u@),
            url_target_in(ms, range, j as int) == url_target_in(ms, range, 0),
        decreases urls@.len() - j,
    {
        assert(ms[j as int] == urls@[j as int]@);
        if urls[j].byte_range == range {
            if let Some(x) = &urls[j].github_ref {
                return Some(x);
            }
        }
        j = j + 1;
    }
    None
}

fn find_url_in<'a>(lines: &'a Vec<LineUrls>, range: Span) -> (r: Option<&'a GitHubRef>)
    ensures
        match r {
            Some(x) => url_in(urls_models(lines@), range, 0) == Some(x@),
            None => url_in(urls_models(lines@), range, 0) is None,
        },
{
    reveal(urls_models);
    let ghost ms = urls_models(lines@);
    let mut j: usize = 0;
    while j < lines.len()
        invariant
            j <= lines@.len(),
            ms == urls_models(lines@),
            ms == lines@.map_values(|u: LineUrls| u@),
            url_in(ms, range, j as int) == url_in(ms, range, 0),
        decreases lines@.len() - j,
    {
        assert(ms[j as int] == lines@[j as int]@);
        if let Some(x) = find_url_target_in(&lines[j].urls, range) {
            return Some(x);
        }
        j = j + 1;
    }
    None
}

/// What is shown of a reference of which this much is known.
pub fn hover_body<'a>(state: Option<&'a ValidationState>) -> (r: HoverBody<'a>)
    ensures
        r@ == hover_of(
            match state {
                Some(s) => Some(s@),
                None => None,
            },
        ),
{
    match state {
        Some(ValidationState::Valid(Some(ValidatedRefData::Issue(i)))) => HoverBody::Issue(i),
        Some(ValidationState::Valid(Some(ValidatedRefData::User(u)))) => HoverBody::User(u),
        Some(ValidationState::Valid(None)) => HoverBody::Exists,
        Some(ValidationState::Invalid) => HoverBody::Missing,
        Some(ValidationState::Pending) => HoverBody::Waiting,
        None => HoverBody::Waiting,
    }
}

impl Editor {
    /// The reference under the mouse.
    pub fn hovered_ref<'a>(&'a self) -> (r: Option<&'a GitHubRef>)
        ensures
            match r {
                Some(x) => self@.hovered_ref() == Some(x@),
                None => self@.hovered_ref() is None,
            },
    {
        match self.flags.hovered_github_ref_range {
            Some(range) => match find_ref_in(&self.links.refs, range) {
                Some(x) => Some(x),
                None => find_url_in(&self.links.urls, range),
            },
            None => None,
        }
    }

    /// What pops up at the reference under the mouse.
    pub fn hover_popup<'a>(&'a self) -> (r: Option<HoverPopup<'a>>)
        ensures
            r is Some == self@.shows_hover(),
            match r {
                Some(p) => self@.hovered_ref() == Some(p.reference@)
                    && self@.flags.hovered_ref_position == Some(p.position) && p.body@ == hover_of(
                    known(self@.links.known, p.reference@),
                ) && p.is_wide == (p.body@ is Issue),
                None => true,
            },
    {
        let has_suggestions: bool = match &self.autocomplete {
            Some(ac) => ac.suggestions.len() > 0,
            None => false,
        };
        if has_suggestions {
            return None;
        }
        match (self.hovered_ref(), self.flags.hovered_ref_position) {
            (Some(reference), Some(position)) => {
                let body = hover_body(self.links.cache.get(reference));
                let is_wide: bool = match &body {
                    HoverBody::Issue(_) => true,
                    _ => false,
                };
                Some(HoverPopup { reference, position, body, is_wide })
            },
            _ => None,
        }
    }
}

} // verus!
