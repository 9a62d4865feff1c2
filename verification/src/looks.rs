//! What is shown: the status bar, what sets lines off, old lines, references under
//! the mouse, suggestions and messages.

use vstd::prelude::*;

use crate::diff::{changes_of, ghost_hunk, ChangesModel, DiffModel, Hunk};
use crate::editor::{EditorModel, LineRefsModel, LineUrlsModel};
use crate::github::{
    DataModel, IssueStatus, KnownModel, MatchModel, RefModel, UrlModel,
};
use crate::line_scan::line_model;
use crate::lines::{lemma_line_begin, lemma_place_on_line, line_of, line_start, line_total};
use crate::marker::{KindModel, MarkerModel, Span};
use crate::popup::{
    color_of, hover_of, match_in, ref_in, url_in, url_target_in, HoverModel, StatusColor,
};
use crate::session::content_lines;
use crate::view::{
    current_heading, ghosts, ghosts_before, heading_among, match_ranges, url_ranges, urls_on,
    LineBackground, ScrollRequest, StatusBarInfo,
};

verus! {

/// Whether a line is a heading of a level, by the first of its heading markers.
pub open spec fn is_heading(text: Seq<u8>, line: int, level: u8) -> bool {
    let ms = line_model(text, line).markers;
    exists|i: int|
        0 <= i < ms.len() && (#[trigger] ms[i]).kind == KindModel::Heading(level) && forall|k: int|
            0 <= k < i ==> !((#[trigger] ms[k]).kind is Heading)
}

/// Whether a line has a heading marker.
pub open spec fn has_heading(text: Seq<u8>, line: int) -> bool {
    let ms = line_model(text, line).markers;
    exists|i: int| 0 <= i < ms.len() && (#[trigger] ms[i]).kind is Heading
}

proof fn lemma_heading_among(ms: Seq<MarkerModel>, j: int)
    requires
        0 <= j,
    ensures
        match heading_among(ms, j) {
            Some(level) => exists|i: int|
                j <= i < ms.len() && (#[trigger] ms[i]).kind == KindModel::Heading(level) && forall|
                    k: int,
                |
                    j <= k < i ==> !((#[trigger] ms[k]).kind is Heading),
            None => forall|i: int| j <= i < ms.len() ==> !((#[trigger] ms[i]).kind is Heading),
        },
    decreases ms.len() - j,
{
    if j < ms.len() {
        if ms[j].kind is Heading {
            assert(ms[j].kind == KindModel::Heading(ms[j].kind->Heading_0));
        } else {
            lemma_heading_among(ms, j + 1);
            if let Some(level) = heading_among(ms, j + 1) {
                let i = choose|i: int|
                    j + 1 <= i < ms.len() && (#[trigger] ms[i]).kind == KindModel::Heading(level)
                        && forall|k: int| j + 1 <= k < i ==> !((#[trigger] ms[k]).kind is Heading);
                assert(ms[i].kind == KindModel::Heading(level));
            }
        }
    }
}

/// The heading that a line is under is the nearest one, at the line or above it.
pub proof fn law_nearest_heading_counts(text: Seq<u8>, line: int)
    requires
        0 <= line,
    ensures
        match current_heading(text, line) {
            Some(level) => exists|l: int|
                0 <= l <= line && #[trigger] is_heading(text, l, level) && forall|k: int|
                    l < k <= line ==> !(#[trigger] has_heading(text, k)),
            None => forall|k: int| 0 <= k <= line ==> !(#[trigger] has_heading(text, k)),
        },
    decreases line,
{
    let ms = line_model(text, line).markers;
    lemma_heading_among(ms, 0);
    match heading_among(ms, 0) {
        Some(level) => {
            assert(is_heading(text, line, level));
        },
        None => {
            assert(!has_heading(text, line));
            if line > 0 {
                law_nearest_heading_counts(text, line - 1);
                if let Some(level) = current_heading(text, line - 1) {
                    let l = choose|l: int|
                        0 <= l <= line - 1 && #[trigger] is_heading(text, l, level) && forall|k: int|
                            l < k <= line - 1 ==> !(#[trigger] has_heading(text, k));
                    assert(is_heading(text, l, level));
                }
            }
        },
    }
}

/// The status bar counts lines and columns from one: as many bytes before its column
/// from the start of its line lead to the cursor, and no line ends between.
pub proof fn law_status_leads_to_the_cursor(s: StatusBarInfo, m: EditorModel)
    requires
        s.tells(m),
        m.cursor() <= m.text().len(),
    ensures
        1 <= s.cursor_line <= s.total_lines,
        1 <= s.cursor_col,
        line_start(m.text(), s.cursor_line - 1) + (s.cursor_col - 1) == m.cursor(),
        forall|i: int|
            line_start(m.text(), s.cursor_line - 1) <= i < m.cursor() ==> m.text()[i] != 10,
        s.total_lines == line_total(m.text()),
{
    lemma_place_on_line(m.text(), m.cursor() as int);
    lemma_line_begin(m.text(), m.cursor() as int);
}

/// A line that a change under review added is set off as added, whatever else holds
/// of it; another line is set off when it belongs to a message of the user.
pub proof fn law_added_lines_are_set_off_first(m: EditorModel, line: int)
    ensures
        ({
            let added = m.diff matches Some(d) && exists|i: int|
                0 <= i < d.hunks.len() && (#[trigger] d.hunks[i]).new_lines.start <= line
                    < d.hunks[i].new_lines.end;
            let said = exists|i: int|
                0 <= i < m.messages.len() && (#[trigger] m.messages[i]).start <= line
                    < m.messages[i].end;
            &&& added ==> m.background(line) == Some(LineBackground::Addition)
            &&& !added && said ==> m.background(line) == Some(LineBackground::UserMessage)
            &&& !added && !said ==> m.background(line) is None
        }),
{
    if let Some(d) = m.diff {
        if crate::diff::adds_line(d.hunks, line) {
            let i = choose|i: int|
                0 <= i < d.hunks.len() && crate::diff::in_lines(
                    (#[trigger] d.hunks[i]).new_lines,
                    line,
                );
            assert(d.hunks[i].new_lines.start <= line < d.hunks[i].new_lines.end);
        }
        if exists|i: int|
            0 <= i < d.hunks.len() && (#[trigger] d.hunks[i]).new_lines.start <= line
                < d.hunks[i].new_lines.end {
            let i = choose|i: int|
                0 <= i < d.hunks.len() && (#[trigger] d.hunks[i]).new_lines.start <= line
                    < d.hunks[i].new_lines.end;
            assert(crate::diff::in_lines(d.hunks[i].new_lines, line));
        }
    }
    if crate::session::is_message_line(m.messages, line) {
        let i = choose|i: int|
            0 <= i < m.messages.len() && crate::diff::in_lines(#[trigger] m.messages[i], line);
        assert(m.messages[i].start <= line < m.messages[i].end);
    }
    if exists|i: int|
        0 <= i < m.messages.len() && (#[trigger] m.messages[i]).start <= line < m.messages[i].end {
        let i = choose|i: int|
            0 <= i < m.messages.len() && (#[trigger] m.messages[i]).start <= line
                < m.messages[i].end;
        assert(crate::diff::in_lines(m.messages[i], line));
    }
}

proof fn lemma_changes_of(changes: Seq<ChangesModel>, line: int, j: int)
    requires
        0 <= j,
    ensures
        (forall|k: int| j <= k < changes.len() ==> (#[trigger] changes[k]).line != line)
            ==> changes_of(changes, line, j).len() == 0,
        forall|k: int|
            j <= k < changes.len() && (#[trigger] changes[k]).line == line && (forall|x: int|
                j <= x < k ==> (#[trigger] changes[x]).line != line) ==> changes_of(changes, line, j)
                == changes[k].ranges,
    decreases changes.len() - j,
{
    if j < changes.len() && changes[j].line != line {
        lemma_changes_of(changes, line, j + 1);
    }
}

/// The changed words of a line are those noted for it first; a line for which nothing
/// is noted has none.
pub proof fn law_changed_words_are_of_the_line(m: EditorModel, line: int, k: int)
    ensures
        m.diff is None ==> m.highlights(line).len() == 0,
        m.diff matches Some(d) ==> {
            &&& (forall|x: int|
                0 <= x < d.new_changes.len() ==> (#[trigger] d.new_changes[x]).line != line)
                ==> m.highlights(line).len() == 0
            &&& 0 <= k < d.new_changes.len() && d.new_changes[k].line == line && (forall|x: int|
                0 <= x < k ==> (#[trigger] d.new_changes[x]).line != line) ==> m.highlights(line)
                == d.new_changes[k].ranges
        },
{
    if let Some(d) = m.diff {
        lemma_changes_of(d.new_changes, line, 0);
    }
}

proof fn lemma_ghosts(d: DiffModel, a: int, n: int)
    requires
        0 <= n,
        a + n <= line_total(d.old_text),
    ensures
        ghosts(d, a, n).len() == n,
        forall|k: int|
            0 <= k < n ==> (#[trigger] ghosts(d, a, n)[k]).line == a + k && ghosts(d, a, n)[k].highlights
                == changes_of(d.old_changes, a + k, 0),
    decreases n,
{
    if n > 0 {
        lemma_ghosts(d, a, n - 1);
    }
}

proof fn lemma_ghost_hunk(hunks: Seq<Hunk>, line: int, j: int)
    requires
        0 <= j,
    ensures
        match ghost_hunk(hunks, line, j) {
            Some(i) => j <= i < hunks.len() && hunks[i].new_lines.start == line
                && hunks[i].old_lines.start < hunks[i].old_lines.end && forall|k: int|
                j <= k < i ==> !((#[trigger] hunks[k]).new_lines.start == line
                    && hunks[k].old_lines.start < hunks[k].old_lines.end),
            None => forall|k: int|
                j <= k < hunks.len() ==> !((#[trigger] hunks[k]).new_lines.start == line
                    && hunks[k].old_lines.start < hunks[k].old_lines.end),
        },
    decreases hunks.len() - j,
{
    if j < hunks.len() && !(hunks[j].new_lines.start == line && hunks[j].old_lines.start
        < hunks[j].old_lines.end) {
        lemma_ghost_hunk(hunks, line, j + 1);
    }
}

/// Before the line where the new lines of a hunk start, all old lines of the hunk are
/// shown, in order and none else; before a line where no hunk with old lines starts,
/// none are.
pub proof fn law_old_lines_are_shown_where_they_stood(d: DiffModel, line: int, i: int)
    ensures
        ({
            let shown = ghosts_before(Some(d), line);
            &&& 0 <= i < d.hunks.len() && d.hunks[i].new_lines.start == line
                && d.hunks[i].old_lines.start < d.hunks[i].old_lines.end <= line_total(d.old_text)
                && (forall|k: int|
                0 <= k < i ==> !((#[trigger] d.hunks[k]).new_lines.start == line
                    && d.hunks[k].old_lines.start < d.hunks[k].old_lines.end)) ==> {
                &&& shown.len() == d.hunks[i].old_lines.end - d.hunks[i].old_lines.start
                &&& forall|k: int|
                    0 <= k < shown.len() ==> (#[trigger] shown[k]).line
                        == d.hunks[i].old_lines.start + k
            }
            &&& (forall|k: int|
                0 <= k < d.hunks.len() ==> !((#[trigger] d.hunks[k]).new_lines.start == line
                    && d.hunks[k].old_lines.start < d.hunks[k].old_lines.end)) ==> shown.len() == 0
            &&& ghosts_before(None, line).len() == 0
        }),
{
    lemma_ghost_hunk(d.hunks, line, 0);
    if let Some(g) = ghost_hunk(d.hunks, line, 0) {
        let h = d.hunks[g];
        if h.old_lines.end <= line_total(d.old_text) {
            lemma_ghosts(d, h.old_lines.start as int, h.old_lines.end - h.old_lines.start);
        }
    }
}

/// The cursor is drawn where it is, with what is selected, when the editor has the
/// focus and takes input, and else nowhere in the text.
pub proof fn law_cursor_is_drawn_with_the_focus(m: EditorModel, focused: bool)
    requires
        m.text().len() < usize::MAX,
    ensures
        focused && !m.flags.input_blocked ==> m.cursor_view(focused).offset == m.cursor(),
        !focused || m.flags.input_blocked ==> m.cursor_view(focused).offset > m.text().len()
            && m.cursor_view(focused).selection is None,
        m.state.selection.anchor == m.state.selection.head ==> m.cursor_view(
            focused,
        ).selection is None,
        focused && !m.flags.input_blocked && m.state.selection.anchor != m.state.selection.head ==> (
        m.cursor_view(focused).selection matches Some(s) && s.start < s.end && ((s.start
            == m.state.selection.anchor && s.end == m.state.selection.head) || (s.start
            == m.state.selection.head && s.end == m.state.selection.anchor))),
{
}

/// The text in sight follows the cursor while text is streamed in and when that was
/// asked for; it shows the cursor's line when the cursor went to another line, and
/// else stays. Afterwards it stays until the cursor leaves the line.
pub proof fn law_sight_follows_the_cursor(m: EditorModel)
    ensures
        ({
            let line = line_of(m.text(), m.cursor() as int) as usize;
            let asked = m.flags.scroll_to_cursor_pending || m.flags.streaming_mode;
            &&& asked ==> m.scroll() == ScrollRequest::Follow
            &&& !asked && m.flags.last_cursor_line == Some(line) ==> m.scroll()
                == ScrollRequest::Stay
            &&& !asked && m.flags.last_cursor_line != Some(line) ==> m.scroll()
                == ScrollRequest::Reveal
            &&& !m.flags.streaming_mode ==> m.scrolled().scroll() == ScrollRequest::Stay
            &&& m.scrolled().state == m.state
        }),
{
}

proof fn lemma_url_ranges(urls: Seq<UrlModel>, n: int, s: Span)
    requires
        0 <= n <= urls.len(),
    ensures
        url_ranges(urls, n).contains(s) <==> exists|k: int|
            0 <= k < n && (#[trigger] urls[k]).range == s && urls[k].reference is Some,
    decreases n,
{
    if n > 0 {
        lemma_url_ranges(urls, n - 1, s);
        let before = url_ranges(urls, n - 1);
        let now = url_ranges(urls, n);
        if before.contains(s) {
            let x = choose|x: int| 0 <= x < before.len() && before[x] == s;
            assert(now[x] == s);
        }
        if urls[n - 1].range == s && urls[n - 1].reference is Some {
            assert(now[now.len() - 1] == s);
        }
        if now.contains(s) {
            let x = choose|x: int| 0 <= x < now.len() && now[x] == s;
            if x < before.len() {
                assert(before[x] == s);
            } else {
                assert(urls[n - 1].range == s);
            }
        }
    }
}

/// A line shows the ranges of its short references and of its addresses that lead to
/// a reference, and no others.
pub proof fn law_line_shows_its_references(m: EditorModel, line: int, s: Span)
    ensures
        ({
            let refs = crate::complete::refs_on(m.links.refs, line, 0);
            let urls = urls_on(m.links.urls, line, 0);
            m.ref_ranges(line).contains(s) <==> (exists|k: int|
                0 <= k < refs.len() && (#[trigger] refs[k]).range == s) || (exists|k: int|
                0 <= k < urls.len() && (#[trigger] urls[k]).range == s && urls[k].reference is Some)
        }),
{
    let refs = crate::complete::refs_on(m.links.refs, line, 0);
    let urls = urls_on(m.links.urls, line, 0);
    let n = urls.len() as int;
    lemma_url_ranges(urls, n, s);
    let (a, b) = (match_ranges(refs), url_ranges(urls, n));
    let all = m.ref_ranges(line);
    assert(all == a + b);
    if all.contains(s) {
        let x = choose|x: int| 0 <= x < all.len() && all[x] == s;
        if x < a.len() {
            assert(refs[x].range == s);
        } else {
            assert(b[x - a.len()] == s);
            assert(b.contains(s));
        }
    }
    if exists|k: int| 0 <= k < refs.len() && (#[trigger] refs[k]).range == s {
        let k = choose|k: int| 0 <= k < refs.len() && (#[trigger] refs[k]).range == s;
        assert(all[k] == s);
    }
    if b.contains(s) {
        let x = choose|x: int| 0 <= x < b.len() && b[x] == s;
        assert(all[x + a.len()] == s);
    }
}

/// Whether a short reference on some line stands in a range and points to `r`.
pub open spec fn short_at(
    lines: Seq<LineRefsModel>,
    l: int,
    k: int,
    range: Span,
    r: RefModel,
) -> bool {
    &&& 0 <= l < lines.len()
    &&& 0 <= k < lines[l].refs.len()
    &&& lines[l].refs[k].range == range
    &&& lines[l].refs[k].reference == r
}

/// Whether an address on some line stands in a range and leads to `r`.
pub open spec fn address_at(
    lines: Seq<LineUrlsModel>,
    l: int,
    k: int,
    range: Span,
    r: RefModel,
) -> bool {
    &&& 0 <= l < lines.len()
    &&& 0 <= k < lines[l].urls.len()
    &&& lines[l].urls[k].range == range
    &&& lines[l].urls[k].reference == Some(r)
}

proof fn lemma_match_in(refs: Seq<MatchModel>, range: Span, j: int)
    requires
        0 <= j,
    ensures
        match match_in(refs, range, j) {
            Some(r) => exists|k: int|
                j <= k < refs.len() && (#[trigger] refs[k]).range == range && refs[k].reference == r,
            None => forall|k: int| j <= k < refs.len() ==> (#[trigger] refs[k]).range != range,
        },
    decreases refs.len() - j,
{
    if j < refs.len() && refs[j].range != range {
        lemma_match_in(refs, range, j + 1);
    }
}

proof fn lemma_ref_in(lines: Seq<LineRefsModel>, range: Span, j: int)
    requires
        0 <= j,
    ensures
        match ref_in(lines, range, j) {
            Some(r) => exists|l: int, k: int| j <= l && #[trigger] short_at(lines, l, k, range, r),
            None => forall|l: int, k: int, r: RefModel|
                j <= l ==> !(#[trigger] short_at(lines, l, k, range, r)),
        },
    decreases lines.len() - j,
{
    if j < lines.len() {
        lemma_match_in(lines[j].refs, range, 0);
        match match_in(lines[j].refs, range, 0) {
            Some(r) => {
                let k = choose|k: int|
                    0 <= k < lines[j].refs.len() && (#[trigger] lines[j].refs[k]).range == range
                        && lines[j].refs[k].reference == r;
                assert(short_at(lines, j, k, range, r));
            },
            None => {
                lemma_ref_in(lines, range, j + 1);
                if let Some(r) = ref_in(lines, range, j + 1) {
                    let (l, k) = choose|l: int, k: int|
                        j + 1 <= l && #[trigger] short_at(lines, l, k, range, r);
                    assert(short_at(lines, l, k, range, r));
                }
            },
        }
    }
}

proof fn lemma_url_target_in(urls: Seq<UrlModel>, range: Span, j: int)
    requires
        0 <= j,
    ensures
        match url_target_in(urls, range, j) {
            Some(r) => exists|k: int|
                j <= k < urls.len() && (#[trigger] urls[k]).range == range && urls[k].reference
                    == Some(r),
            None => forall|k: int|
                j <= k < urls.len() && (#[trigger] urls[k]).range == range
                    ==> urls[k].reference is None,
        },
    decreases urls.len() - j,
{
    if j < urls.len() && !(urls[j].range == range && urls[j].reference is Some) {
        lemma_url_target_in(urls, range, j + 1);
    }
}

proof fn lemma_url_in(lines: Seq<LineUrlsModel>, range: Span, j: int)
    requires
        0 <= j,
    ensures
        match url_in(lines, range, j) {
            Some(r) => exists|l: int, k: int|
                j <= l && #[trigger] address_at(lines, l, k, range, r),
            None => forall|l: int, k: int, r: RefModel|
                j <= l ==> !(#[trigger] address_at(lines, l, k, range, r)),
        },
    decreases lines.len() - j,
{
    if j < lines.len() {
        lemma_url_target_in(lines[j].urls, range, 0);
        match url_target_in(lines[j].urls, range, 0) {
            Some(r) => {
                let k = choose|k: int|
                    0 <= k < lines[j].urls.len() && (#[trigger] lines[j].urls[k]).range == range
                        && lines[j].urls[k].reference == Some(r);
                assert(address_at(lines, j, k, range, r));
            },
            None => {
                lemma_url_in(lines, range, j + 1);
                if let Some(r) = url_in(lines, range, j + 1) {
                    let (l, k) = choose|l: int, k: int|
                        j + 1 <= l && #[trigger] address_at(lines, l, k, range, r);
                    assert(address_at(lines, l, k, range, r));
                }
            },
        }
    }
}

/// The reference under the mouse is a short one that stands in the range that the
/// mouse is over, or, when none does, one that an address there leads to. Without
/// either there is none.
pub proof fn law_mouse_is_over_what_stands_there(m: EditorModel, range: Span)
    requires
        m.flags.hovered_github_ref_range == Some(range),
    ensures
        ({
            let short = exists|l: int, k: int, r: RefModel|
                #[trigger] short_at(m.links.refs, l, k, range, r);
            let address = exists|l: int, k: int, r: RefModel|
                #[trigger] address_at(m.links.urls, l, k, range, r);
            &&& short ==> (m.hovered_ref() matches Some(r) && exists|l: int, k: int|
                #[trigger] short_at(m.links.refs, l, k, range, r))
            &&& !short && address ==> (m.hovered_ref() matches Some(r) && exists|l: int, k: int|
                #[trigger] address_at(m.links.urls, l, k, range, r))
            &&& !short && !address ==> m.hovered_ref() is None
        }),
{
    lemma_ref_in(m.links.refs, range, 0);
    lemma_url_in(m.links.urls, range, 0);
}

/// What pops up at a reference is what is known of it: an issue, a user, that it
/// exists, that it does not, or that the answer is awaited.
pub proof fn law_hover_shows_what_is_known(state: Option<KnownModel>)
    ensures
        match hover_of(state) {
            HoverModel::Issue(i) => state == Some(KnownModel::Valid(Some(DataModel::Issue(i)))),
            HoverModel::User(u) => state == Some(KnownModel::Valid(Some(DataModel::User(u)))),
            HoverModel::Exists => state == Some(KnownModel::Valid(None)),
            HoverModel::Missing => state == Some(KnownModel::Invalid),
            HoverModel::Waiting => state is None || state == Some(KnownModel::Pending),
        },
{
}

/// Open issues are green, drafts dimmed, what was not planned red, and all else that
/// is closed or merged purple.
pub proof fn law_color_tells_the_state(status: IssueStatus)
    ensures
        color_of(status) == StatusColor::Green <==> status == IssueStatus::Open,
        color_of(status) == StatusColor::Dimmed <==> status == IssueStatus::Draft,
        color_of(status) == StatusColor::Red <==> status == IssueStatus::ClosedNotPlanned,
        color_of(status) == StatusColor::Purple <==> status == IssueStatus::Merged || status
            == IssueStatus::Closed,
{
}

/// All suggestions are shown once they have come, and none before.
pub proof fn law_suggestions_are_shown_once_they_came(m: EditorModel)
    ensures
        m.completion is None ==> m.popup_len() == 0,
        m.completion matches Some(ac) ==> m.popup_len() == (if ac.loading {
            0
        } else {
            ac.suggestions.len() as int
        }),
{
}

/// The lines of a message go from the last line that there was, on which it starts,
/// to the line of its last character that is not white space, and no further.
pub proof fn law_message_covers_its_lines(m: EditorModel, t: Seq<u8>, end: int)
    requires
        0 < end <= t.len(),
        end == crate::space::skip_space_back(t, 0, t.len() as int),
        m.text().len() + t.len() < usize::MAX,
    ensures
        ({
            let after = m.message_appended(t);
            let span = after.messages.last();
            let n = m.text().len() as int;
            &&& after.messages.len() == m.messages.len() + 1
            &&& after.text() == m.text() + t
            &&& span.start == line_of(after.text(), n)
            &&& span.end == line_of(after.text(), n + end) + 1
        }),
{
    let n = m.text().len() as int;
    let text = m.text();
    crate::session::law_appended_text_stands_at_the_end(m.state, t);
    let all = text + t;
    crate::lines::lemma_line_of_prefix(text, all, n);
    crate::lines::lemma_line_of_piece(all, n, t, end);
    lemma_place_on_line(text, n);
    crate::lines::lemma_line_of_bound(all, n + end);
    assert(content_lines(t) == line_of(t, end) + 1);
    lemma_place_on_line(t, end);
}

/// The label of an issue reads its sign, a space, a number sign, its number and a
/// space.
pub proof fn law_label_reads_sign_and_number(
    l: crate::popup::IssueLabel,
    symbol: Seq<char>,
    number: u64,
    status: IssueStatus,
)
    requires
        l.labels(symbol, number, status),
    ensures
        vstd::utf8::encode_utf8(l.text@) == vstd::utf8::encode_utf8(symbol) + seq![32u8, 35u8]
            + crate::number::decimal(number as nat) + seq![32u8],
        l.symbol_len == vstd::utf8::encode_utf8(symbol).len(),
        l.space_len == 1,
        l.number_len == crate::number::decimal(number as nat).len() + 2,
{
    assert(vstd::utf8::encode_utf8(l.text@) =~= vstd::utf8::encode_utf8(symbol) + seq![32u8, 35u8]
        + crate::number::decimal(number as nat) + seq![32u8]);
}

/// A message of nothing but white space is put in but covers no line.
pub proof fn law_blank_message_covers_nothing(m: EditorModel, t: Seq<u8>)
    requires
        crate::space::skip_space_back(t, 0, t.len() as int) == 0,
        m.text().len() + t.len() <= usize::MAX,
    ensures
        m.message_appended(t).messages == m.messages,
        m.message_appended(t).text() == m.text() + t,
{
    crate::session::law_appended_text_stands_at_the_end(m.state, t);
}

/// Something pops up at a reference exactly when the mouse is over one, it is known
/// where, and no suggestions are there.
pub proof fn law_hover_gives_way_to_suggestions(m: EditorModel)
    ensures
        m.shows_hover() <==> m.hovered_ref() is Some && m.flags.hovered_ref_position is Some && (
        m.completion is None || m.completion->0.suggestions.len() == 0),
{
}

/// The reference of a line that the mouse is over is the one whose range it is over,
/// if the line shows it.
pub proof fn law_line_shows_where_the_mouse_is(m: EditorModel, line: int, s: Span)
    ensures
        m.hovered_on(line) == Some(s) <==> m.flags.hovered_github_ref_range == Some(s)
            && m.ref_ranges(line).contains(s),
{
}

/// An answer says what it says: that a reference exists, with what was told of it or
/// without, or that it does not.
pub proof fn law_answers_are_taken_at_their_word(result: crate::github::ValidationResult)
    ensures
        match crate::github::answered(result) {
            KnownModel::Valid(Some(d)) => result matches crate::github::ValidationResult::ValidWithData(
                e,
            ) && e@ == d,
            KnownModel::Valid(None) => result is ValidNoData,
            KnownModel::Invalid => result is Invalid,
            KnownModel::Pending => false,
        },
{
}

} // verus!
