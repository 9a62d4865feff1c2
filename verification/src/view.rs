//! What of an editor is drawn, and how: everything about a frame that does not
//! depend on measures.

use vstd::prelude::*;

use crate::context::nested_context;
use crate::cursor::{above, below, Cursor, Selection};
use crate::diff::{adds_line, changes_of, ghost_hunk, span_len, DiffModel, DiffState};
use crate::editor::{
    refs_models, urls_models, Editor, EditorFlags, EditorModel, LineRefs, LineUrls, LineUrlsModel,
};
use crate::github::{MatchModel, NakedUrl, RawGitHubMatch, UrlModel};
use crate::line_scan::line_model;
use crate::lines::{lemma_line_begin, line_begin, line_of, line_total};
use crate::marker::{KindModel, LineMarkers, MarkerKind, MarkerModel, Span};
use crate::session::is_message_line;

verus! {

// ---------------------------------------------------------------------------
// The list of lines
// ---------------------------------------------------------------------------

/// A change of a list: the items from `start` to `end` make way for `count` new
/// ones.
#[derive(Clone, Copy, Debug, PartialEq, Eq, Structural)]
pub struct ListSplice {
    pub start: usize,
    pub end: usize,
    pub count: usize,
}

/// The change that makes a list of `item_count` items as long as a text of
/// `line_count` lines: items come or go at its end.
pub fn list_splice(line_count: usize, item_count: usize) -> (r: Option<ListSplice>)
    ensures
        match r {
            Some(s) => line_count != item_count && s.start <= s.end <= item_count && item_count - (
            s.end - s.start) + s.count == line_count && s.start == (if line_count < item_count {
                line_count
            } else {
                item_count
            }) && s.end == item_count,
            None => line_count == item_count,
        },
{
    if line_count > item_count {
        Some(ListSplice { start: item_count, end: item_count, count: line_count - item_count })
    } else if line_count < item_count {
        Some(ListSplice { start: line_count, end: item_count, count: 0 })
    } else {
        None
    }
}

// ---------------------------------------------------------------------------
// Status
// ---------------------------------------------------------------------------

/// The level of the first heading among the markers from place `j` on.
pub open spec fn heading_among(markers: Seq<MarkerModel>, j: int) -> Option<u8>
    decreases markers.len() - j,
{
    if j >= markers.len() {
        None
    } else {
        match markers[j].kind {
            KindModel::Heading(level) => Some(level),
            _ => heading_among(markers, j + 1),
        }
    }
}

/// The level of the nearest heading at or above a line.
pub open spec fn current_heading(text: Seq<u8>, line: int) -> Option<u8>
    decreases line,
{
    if line < 0 {
        None
    } else {
        match heading_among(line_model(text, line).markers, 0) {
            Some(level) => Some(level),
            None => if line == 0 {
                None
            } else {
                current_heading(text, line - 1)
            },
        }
    }
}

/// What the status bar shows.
pub struct StatusBarInfo {
    pub context_markers: Vec<MarkerKind>,
    pub heading_level: Option<u8>,
    /// The cursor's line, counted from one.
    pub cursor_line: usize,
    /// The cursor's column, counted from one.
    pub cursor_col: usize,
    pub total_lines: usize,
    pub first_visible_line: usize,
    pub last_visible_line: usize,
}

impl StatusBarInfo {
    /// It tells where the cursor of an editor is: its line, its column, the blocks
    /// and the heading it is under.
    pub open spec fn tells(&self, m: EditorModel) -> bool {
        let cursor = m.cursor() as int;
        &&& self.context_markers@.map_values(|k: MarkerKind| k@) == nested_context(
            m.text(),
            m.cursor(),
        )
        &&& self.heading_level == current_heading(m.text(), line_of(m.text(), cursor))
        &&& self.cursor_line == line_of(m.text(), cursor) + 1
        &&& self.cursor_col == cursor - line_begin(m.text(), cursor) + 1
        &&& self.total_lines == line_total(m.text())
    }
}

// ---------------------------------------------------------------------------
// Lines
// ---------------------------------------------------------------------------

/// What sets a line off from the others.
#[derive(Clone, Copy, Debug, PartialEq, Eq, Structural)]
pub enum LineBackground {
    /// It was added by a change under review.
    Addition,
    /// It belongs to a message of the user.
    UserMessage,
}

/// The cursor and the selection as they are drawn.
#[derive(Clone, Copy, Debug, PartialEq, Eq, Structural)]
pub struct CursorView {
    /// Where the cursor is drawn; the largest offset when it is not.
    pub offset: usize,
    pub selection: Option<Span>,
}

/// An old line that is shown among the new ones.
pub struct GhostLine {
    pub line: usize,
    /// The ranges whose words changed.
    pub highlights: Vec<Span>,
}

/// An old line that is shown among the new ones, as contracts speak of it.
#[verifier::ext_equal]
pub struct GhostModel {
    pub line: int,
    pub highlights: Seq<Span>,
}

impl View for GhostLine {
    type V = GhostModel;

    open spec fn view(&self) -> GhostModel {
        GhostModel { line: self.line as int, highlights: self.highlights@ }
    }
}

/// The old lines from `a` on, `n` of them, that there are.
pub open spec fn ghosts(d: DiffModel, a: int, n: int) -> Seq<GhostModel>
    decreases n,
{
    if n <= 0 {
        Seq::<GhostModel>::empty()
    } else {
        let before = ghosts(d, a, n - 1);
        let line = a + n - 1;
        if line < line_total(d.old_text) {
            before.push(GhostModel { line, highlights: changes_of(d.old_changes, line, 0) })
        } else {
            before
        }
    }
}

/// The old lines that are shown before a line.
pub open spec fn ghosts_before(d: Option<DiffModel>, line: int) -> Seq<GhostModel> {
    match d {
        Some(d) => match ghost_hunk(d.hunks, line, 0) {
            Some(i) => ghosts(
                d,
                d.hunks[i].old_lines.start as int,
                span_len(d.hunks[i].old_lines),
            ),
            None => Seq::<GhostModel>::empty(),
        },
        None => Seq::<GhostModel>::empty(),
    }
}

/// The addresses on a line: those of the first entry for it from place `j` on.
pub open spec fn urls_on(urls: Seq<LineUrlsModel>, line: int, j: int) -> Seq<UrlModel>
    decreases urls.len() - j,
{
    if j >= urls.len() {
        Seq::<UrlModel>::empty()
    } else if urls[j].line == line {
        urls[j].urls
    } else {
        urls_on(urls, line, j + 1)
    }
}

/// The ranges of references.
pub open spec fn match_ranges(refs: Seq<MatchModel>) -> Seq<Span> {
    refs.map_values(|m: MatchModel| m.range)
}

/// The ranges of the first `n` addresses that lead to a reference.
pub open spec fn url_ranges(urls: Seq<UrlModel>, n: int) -> Seq<Span>
    decreases n,
{
    if n <= 0 {
        Seq::<Span>::empty()
    } else if urls[n - 1].reference is Some {
        url_ranges(urls, n - 1).push(urls[n - 1].range)
    } else {
        url_ranges(urls, n - 1)
    }
}

impl EditorModel {
    /// The ranges of the references on a line: short ones first, then addresses.
    pub open spec fn ref_ranges(self, line: int) -> Seq<Span> {
        let urls = urls_on(self.links.urls, line, 0);
        match_ranges(crate::complete::refs_on(self.links.refs, line, 0)) + url_ranges(
            urls,
            urls.len() as int,
        )
    }

    /// The reference on a line that the mouse is over.
    pub open spec fn hovered_on(self, line: int) -> Option<Span> {
        match self.flags.hovered_github_ref_range {
            Some(s) => if self.ref_ranges(line).contains(s) {
                Some(s)
            } else {
                None
            },
            None => None,
        }
    }

    /// What sets a line off: that it was added counts before that it is a
    /// message's.
    pub open spec fn background(self, line: int) -> Option<LineBackground> {
        if self.diff is Some && adds_line(self.diff->0.hunks, line) {
            Some(LineBackground::Addition)
        } else if is_message_line(self.messages, line) {
            Some(LineBackground::UserMessage)
        } else {
            None
        }
    }

    /// The ranges of a line whose words changed.
    pub open spec fn highlights(self, line: int) -> Seq<Span> {
        match self.diff {
            Some(d) => changes_of(d.new_changes, line, 0),
            None => Seq::<Span>::empty(),
        }
    }

    /// The cursor and the selection as they are drawn: not unless the editor has
    /// the focus and takes input.
    pub open spec fn cursor_view(self, focused: bool) -> CursorView {
        if focused && !self.flags.input_blocked {
            CursorView {
                offset: self.cursor(),
                selection: if self.state.collapsed() {
                    None
                } else {
                    Some(
                        Span {
                            start: self.state.selection.low(),
                            end: self.state.selection.high(),
                        },
                    )
                },
            }
        } else {
            CursorView { offset: usize::MAX, selection: None }
        }
    }

    /// What to do about the part of the text in sight: follow the cursor when
    /// that was asked for or text is streamed in, else show its line when it went
    /// to another one.
    pub open spec fn scroll(self) -> ScrollRequest {
        let line = line_of(self.text(), self.cursor() as int) as usize;
        if self.flags.scroll_to_cursor_pending || self.flags.streaming_mode {
            ScrollRequest::Follow
        } else if self.flags.last_cursor_line != Some(line) {
            ScrollRequest::Reveal
        } else {
            ScrollRequest::Stay
        }
    }

    /// The editor once the part of the text in sight was set.
    pub open spec fn scrolled(self) -> EditorModel {
        self.with_flags(
            EditorFlags {
                last_cursor_line: Some(line_of(self.text(), self.cursor() as int) as usize),
                scroll_to_cursor_pending: false,
                ..self.flags
            },
        )
    }
}

/// What to do about the part of the text in sight.
#[derive(Clone, Copy, Debug, PartialEq, Eq, Structural)]
pub enum ScrollRequest {
    /// Keep the cursor's line away from the lower edge.
    Follow,
    /// Show the cursor's line.
    Reveal,
    Stay,
}

/// What is drawn of a line.
pub struct LineView {
    pub background: Option<LineBackground>,
    /// The ranges whose words changed.
    pub highlights: Vec<Span>,
    /// The old lines that are shown before it.
    pub ghosts: Vec<GhostLine>,
    /// The ranges of the references on it.
    pub ref_ranges: Vec<Span>,
    /// The reference that the mouse is over.
    pub hovered_ref: Option<Span>,
    pub is_first: bool,
    pub is_last: bool,
    /// Whether clicks on it count. On the old lines before it they never do.
    pub takes_input: bool,
}

/// Whether a value is not the one that was noted.
fn is_other(noted: Option<usize>, value: usize) -> (r: bool)
    ensures
        r == (noted != Some(value)),
{
    match noted {
        Some(n) => n != value,
        None => true,
    }
}

/// What to do about the part of the text in sight while the cursor is on a line.
fn scroll_request(flags: &EditorFlags, line: usize) -> (r: ScrollRequest)
    ensures
        r == (if flags.scroll_to_cursor_pending || flags.streaming_mode {
            ScrollRequest::Follow
        } else if flags.last_cursor_line != Some(line) {
            ScrollRequest::Reveal
        } else {
            ScrollRequest::Stay
        }),
{
    if flags.scroll_to_cursor_pending || flags.streaming_mode {
        ScrollRequest::Follow
    } else if is_other(flags.last_cursor_line, line) {
        ScrollRequest::Reveal
    } else {
        ScrollRequest::Stay
    }
}

/// Drawing an editor twice without a change in between scrolls nothing the second
/// time.
pub proof fn law_second_frame_stays(m: EditorModel)
    requires
        !m.flags.streaming_mode,
    ensures
        m.scrolled().scroll() == ScrollRequest::Stay,
{
}

fn copy_spans(v: &Vec<Span>, out: &mut Vec<Span>)
    ensures
        final(out)@ == old(out)@ + v@,
{
    let ghost before = out@;
    let mut i: usize = 0;
    while i < v.len()
        invariant
            i <= v@.len(),
            out@ == before + v@.subrange(0, i as int),
        decreases v@.len() - i,
    {
        out.push(v[i]);
        assert(v@.subrange(0, i + 1) =~= v@.subrange(0, i as int).push(v@[i as int]));
        i = i + 1;
    }
    assert(v@.subrange(0, i as int) =~= v@);
    assert(before + v@.subrange(0, 0) =~= before);
}

/// The ranges of the references on a line.
fn find_match_ranges(refs: &Vec<LineRefs>, line: usize) -> (r: Vec<Span>)
    ensures
        r@ == match_ranges(crate::complete::refs_on(refs_models(refs@), line as int, 0)),
{
    reveal(refs_models);
    let ghost models = refs_models(refs@);
    let mut out: Vec<Span> = Vec::new();
    let mut j: usize = 0;
    while j < refs.len()
        invariant
            j <= refs@.len(),
            out@.len() == 0,
            models == refs_models(refs@),
            models == refs@.map_values(|r: LineRefs| r@),
            crate::complete::refs_on(models, line as int, j as int) == crate::complete::refs_on(
                models,
                line as int,
                0,
            ),
        decreases refs@.len() - j,
    {
        assert(models[j as int] == refs@[j as int]@);
        if refs[j].line == line {
            let v: &Vec<RawGitHubMatch> = &refs[j].refs;
            let ghost ms = refs@[j as int]@.refs;
            let mut i: usize = 0;
            while i < v.len()
                invariant
                    i <= v@.len(),
                    ms == v@.map_values(|m: RawGitHubMatch| m@),
                    out@ == match_ranges(ms).subrange(0, i as int),
                decreases v@.len() - i,
            {
                assert(ms[i as int] == v@[i as int]@);
                out.push(v[i].byte_range);
                assert(match_ranges(ms).subrange(0, i + 1) =~= match_ranges(ms).subrange(
                    0,
                    i as int,
                ).push(match_ranges(ms)[i as int]));
                i = i + 1;
            }
            assert(match_ranges(ms).subrange(0, i as int) =~= match_ranges(ms));
            return out;
        }
        j = j + 1;
    }
    assert(out@ =~= match_ranges(Seq::<MatchModel>::empty()));
    out
}

/// The ranges of the addresses on a line that lead to a reference.
fn find_url_ranges(urls: &Vec<LineUrls>, line: usize) -> (r: Vec<Span>)
    ensures
        ({
            let on = urls_on(urls_models(urls@), line as int, 0);
            r@ == url_ranges(on, on.len() as int)
        }),
{
    reveal(urls_models);
    let ghost models = urls_models(urls@);
    let mut out: Vec<Span> = Vec::new();
    let mut j: usize = 0;
    while j < urls.len()
        invariant
            j <= urls@.len(),
            out@.len() == 0,
            models == urls_models(urls@),
            models == urls@.map_values(|u: LineUrls| u@),
            urls_on(models, line as int, j as int) == urls_on(models, line as int, 0),
        decreases urls@.len() - j,
    {
        assert(models[j as int] == urls@[j as int]@);
        if urls[j].line == line {
            let v: &Vec<NakedUrl> = &urls[j].urls;
            let ghost us = urls@[j as int]@.urls;
            let mut i: usize = 0;
            assert(out@ =~= url_ranges(us, 0));
            while i < v.len()
                invariant
                    i <= v@.len(),
                    us == v@.map_values(|u: NakedUrl| u@),
                    out@ == url_ranges(us, i as int),
                decreases v@.len() - i,
            {
                assert(us[i as int] == v@[i as int]@);
                if v[i].github_ref.is_some() {
                    out.push(v[i].byte_range);
                }
                i = i + 1;
            }
            return out;
        }
        j = j + 1;
    }
    assert(out@ =~= url_ranges(Seq::<UrlModel>::empty(), 0));
    out
}

fn contains_span(v: &Vec<Span>, s: Span) -> (r: bool)
    ensures
        r == v@.contains(s),
{
    let mut i: usize = 0;
    while i < v.len()
        invariant
            i <= v@.len(),
            forall|k: int| 0 <= k < i ==> v@[k] != s,
        decreases v@.len() - i,
    {
        if v[i] == s {
            assert(v@[i as int] == s);
            return true;
        }
        i = i + 1;
    }
    false
}

/// The old lines that are shown before a line.
fn find_ghosts(d: &DiffState, line: usize) -> (r: Vec<GhostLine>)
    requires
        d.wf(),
    ensures
        r@.map_values(|g: GhostLine| g@) == ghosts_before(Some(d@), line as int),
{
    let mut out: Vec<GhostLine> = Vec::new();
    assert(out@.map_values(|g: GhostLine| g@) =~= Seq::<GhostModel>::empty());
    if let Some(lines) = d.ghost_lines_before(line) {
        let mut k: usize = lines.start;
        while k < lines.end
            invariant
                lines.start <= k,
                k <= lines.end || k == lines.start,
                out@.map_values(|g: GhostLine| g@) == ghosts(
                    d@,
                    lines.start as int,
                    k - lines.start,
                ),
            decreases lines.end - k,
        {
            if d.old_snapshot.has_line(k) {
                let ghost before = out@.map_values(|g: GhostLine| g@);
                let g = GhostLine { line: k, highlights: d.old_inline_changes(k) };
                let ghost gm = g@;
                out.push(g);
                assert(out@.map_values(|g: GhostLine| g@) =~= before.push(gm));
            }
            k = k + 1;
        }
    }
    out
}

impl Editor {
    /// Begins to draw the editor. Returns whether the text changed since it was
    /// last drawn, so that the list of lines is to be made anew.
    #[verifier::spinoff_prover]
    #[verifier::rlimit(30)]
    pub fn begin_draw(&mut self) -> (r: bool)
        requires
            old(self).wf(),
        ensures
            final(self).wf(),
            final(self).state == old(self).state,
            final(self)@ == old(self)@.with_flags(
                EditorFlags {
                    last_synced_version: old(self)@.state.buffer.version,
                    ..old(self)@.flags
                },
            ),
            r == (old(self)@.flags.last_synced_version != old(self)@.state.buffer.version),
    {
        let mut flags: EditorFlags = self.flags;
        let version: u64 = self.state.buffer.version();
        let changed: bool = version != flags.last_synced_version;
        flags.last_synced_version = version;
        self.set_flags(flags);
        changed
    }

    /// What the title bar is to show of unsaved changes, when that is not what it
    /// shows. Only the primary editor has a say in it.
    pub fn title_update(&self, shown_dirty: bool) -> (r: Option<bool>)
        ensures
            r == (if self@.flags.is_primary && shown_dirty != self@.state.buffer.dirty {
                Some(self@.state.buffer.dirty)
            } else {
                None
            }),
    {
        let dirty: bool = self.state.buffer.is_dirty();
        if self.flags.is_primary && shown_dirty != dirty {
            Some(dirty)
        } else {
            None
        }
    }

    /// The level of the nearest heading at or above a line.
    pub fn find_current_heading(&self, from_line: usize) -> (r: Option<u8>)
        requires
            self.wf(),
        ensures
            r == current_heading(self@.text(), from_line as int),
    {
        let mut line: usize = from_line;
        loop
            invariant
                self.wf(),
                line <= from_line,
                current_heading(self@.text(), line as int) == current_heading(
                    self@.text(),
                    from_line as int,
                ),
            decreases line,
        {
            let lm: LineMarkers = self.state.buffer.line_markers(line);
            if let Some(level) = find_heading(&lm) {
                return Some(level);
            }
            if line == 0 {
                return None;
            }
            line = line - 1;
        }
    }

    /// What the status bar shows; only the primary editor has a say in it.
    pub fn status_info(&self, first_visible_line: usize, last_visible_line: usize) -> (r: Option<
        StatusBarInfo,
    >)
        requires
            self.ready(),
            self@.text().len() < usize::MAX,
        ensures
            match r {
                Some(info) => self@.flags.is_primary && info.tells(self@) && info.first_visible_line
                    == first_visible_line && info.last_visible_line == last_visible_line,
                None => !self@.flags.is_primary,
            },
    {
        if !self.flags.is_primary {
            return None;
        }
        let cursor: usize = self.state.cursor().offset;
        proof {
            lemma_line_begin(self@.text(), cursor as int);
        }
        let line: usize = self.state.buffer.byte_to_line(cursor);
        let start: usize = self.state.buffer.line_to_byte(line);
        Some(
            StatusBarInfo {
                context_markers: self.state.build_nested_context(cursor),
                heading_level: self.find_current_heading(line),
                cursor_line: line + 1,
                cursor_col: cursor - start + 1,
                total_lines: self.state.buffer.line_count(),
                first_visible_line,
                last_visible_line,
            },
        )
    }

    /// Notes where the cursor is drawn. Returns whether it moved.
    #[verifier::spinoff_prover]
    #[verifier::rlimit(30)]
    fn note_offset(&mut self) -> (r: bool)
        requires
            old(self).wf(),
        ensures
            final(self).wf(),
            final(self).state == old(self).state,
            final(self)@ == old(self)@.with_flags(
                EditorFlags {
                    last_cursor_offset: Some(old(self)@.cursor()),
                    ..old(self)@.flags
                },
            ),
            r == (old(self)@.flags.last_cursor_offset != Some(old(self)@.cursor())),
    {
        let mut flags: EditorFlags = self.flags;
        let cursor: usize = self.state.selection.head;
        let moved: bool = is_other(flags.last_cursor_offset, cursor);
        flags.last_cursor_offset = Some(cursor);
        self.set_flags(flags);
        moved
    }

    /// Notes where the cursor is drawn. When it moved, the completion is brought
    /// in line with it. Returns whether suggestions are to be fetched.
    pub fn note_cursor(&mut self) -> (r: bool)
        requires
            old(self).ready(),
        ensures
            final(self).wf(),
            final(self).state == old(self).state,
            ({
                let noted = old(self)@.with_flags(
                    EditorFlags {
                        last_cursor_offset: Some(old(self)@.cursor()),
                        ..old(self)@.flags
                    },
                );
                if old(self)@.flags.last_cursor_offset == Some(old(self)@.cursor()) {
                    final(self)@ == noted && !r
                } else {
                    (final(self)@, r) == noted.completion_updated()
                }
            }),
    {
        let moved: bool = self.note_offset();
        moved && self.update_autocomplete_from_cursor()
    }

    /// The cursor and the selection as they are drawn.
    pub fn cursor_view(&self, focused: bool) -> (r: CursorView)
        ensures
            r == self@.cursor_view(focused),
    {
        if focused && !self.flags.input_blocked {
            let s: Selection = self.state.selection;
            CursorView {
                offset: s.head,
                selection: if s.is_collapsed() {
                    None
                } else {
                    Some(s.range())
                },
            }
        } else {
            CursorView { offset: usize::MAX, selection: None }
        }
    }

    /// Decides on the part of the text in sight. Returns what to do about it, and
    /// the cursor's line.
    pub fn take_scroll_request(&mut self) -> (r: (ScrollRequest, usize))
        requires
            old(self).wf(),
        ensures
            final(self).wf(),
            final(self).state == old(self).state,
            final(self)@ == old(self)@.scrolled(),
            r.0 == old(self)@.scroll(),
            r.1 == line_of(old(self)@.text(), old(self)@.cursor() as int),
    {
        let line: usize = self.state.buffer.byte_to_line(self.state.selection.head);
        let mut flags: EditorFlags = self.flags;
        let request: ScrollRequest = scroll_request(&flags, line);
        flags.last_cursor_line = Some(line);
        flags.scroll_to_cursor_pending = false;
        self.set_flags(flags);
        (request, line)
    }

    /// The ranges of the references on a line.
    fn find_ref_ranges(&self, line: usize) -> (r: Vec<Span>)
        ensures
            r@ == self@.ref_ranges(line as int),
    {
        let mut out: Vec<Span> = find_match_ranges(&self.links.refs, line);
        let more: Vec<Span> = find_url_ranges(&self.links.urls, line);
        copy_spans(&more, &mut out);
        out
    }

    /// What is drawn of a line; `None` when there is no such line.
    pub fn line_view(&self, line: usize) -> (r: Option<LineView>)
        requires
            self.wf(),
        ensures
            match r {
                Some(v) => line < line_total(self@.text()) && v.background == self@.background(
                    line as int,
                ) && v.highlights@ == self@.highlights(line as int) && v.ghosts@.map_values(
                    |g: GhostLine| g@,
                ) == ghosts_before(self@.diff, line as int) && v.ref_ranges@ == self@.ref_ranges(
                    line as int,
                ) && v.hovered_ref == self@.hovered_on(line as int) && v.is_first == (line == 0)
                    && v.is_last == (line == line_total(self@.text()) - 1) && v.takes_input
                    == !self@.flags.input_blocked,
                None => line >= line_total(self@.text()),
            },
    {
        let last: usize = self.state.buffer.last_line();
        if line > last {
            return None;
        }
        let ref_ranges: Vec<Span> = self.find_ref_ranges(line);
        let hovered_ref: Option<Span> = match self.flags.hovered_github_ref_range {
            Some(s) => if contains_span(&ref_ranges, s) {
                Some(s)
            } else {
                None
            },
            None => None,
        };
        let is_addition: bool = match &self.diff_state {
            Some(d) => d.is_addition(line),
            None => false,
        };
        let background: Option<LineBackground> = if is_addition {
            Some(LineBackground::Addition)
        } else if self.is_user_message_line(line) {
            Some(LineBackground::UserMessage)
        } else {
            None
        };
        let highlights: Vec<Span> = match &self.diff_state {
            Some(d) => d.new_inline_changes(line),
            None => Vec::new(),
        };
        assert(highlights@ =~= self@.highlights(line as int));
        let ghosts: Vec<GhostLine> = match &self.diff_state {
            Some(d) => find_ghosts(d, line),
            None => Vec::new(),
        };
        assert(ghosts@.map_values(|g: GhostLine| g@) =~= ghosts_before(self@.diff, line as int));
        Some(
            LineView {
                background,
                highlights,
                ghosts,
                ref_ranges,
                hovered_ref,
                is_first: line == 0,
                is_last: line == last,
                takes_input: !self.flags.input_blocked,
            },
        )
    }

    /// Whether the mouse is shown as a pointing hand: over a task box, and over a
    /// link while control is held.
    pub fn shows_pointer(&self) -> (r: bool)
        ensures
            r == (self@.flags.hovering_checkbox || (self@.flags.hovering_link_region
                && self@.flags.ctrl_held)),
    {
        self.flags.hovering_checkbox || (self.flags.hovering_link_region && self.flags.ctrl_held)
    }

    // -----------------------------------------------------------------------
    // The mouse outside the lines
    // -----------------------------------------------------------------------

    /// A click that no line took: below the text it puts the cursor at the end.
    /// Returns whether it did.
    pub fn on_mouse_down(&mut self, taken: bool, below_text: bool) -> (r: bool)
        requires
            old(self).wf(),
        ensures
            final(self).wf(),
            r == (!old(self)@.flags.input_blocked && !taken && below_text),
            r ==> final(self)@ == old(self)@.with_state(
                old(self)@.state.at(old(self)@.text().len() as usize),
            ).scrolling() && final(self).steady(),
            !r ==> *final(self) == *old(self),
    {
        if self.flags.input_blocked || taken || !below_text {
            return false;
        }
        self.move_to_end();
        self.request_scroll_to_cursor();
        true
    }

    /// The mouse button was released. Returns whether a selection was being
    /// dragged.
    #[verifier::spinoff_prover]
    #[verifier::rlimit(30)]
    pub fn on_mouse_up(&mut self) -> (r: bool)
        requires
            old(self).wf(),
        ensures
            final(self).wf(),
            final(self).state == old(self).state,
            final(self)@ == old(self)@.with_flags(
                EditorFlags { is_selecting: false, ..old(self)@.flags },
            ),
            r == old(self)@.flags.is_selecting,
    {
        let was: bool = self.flags.is_selecting;
        self.flags.is_selecting = false;
        was
    }

    /// Notes whether a selection is being dragged at the edge of the window.
    pub fn set_drag_scroll_zone(&mut self, inside: bool)
        requires
            old(self).wf(),
        ensures
            final(self).wf(),
            final(self).state == old(self).state,
            final(self)@ == old(self)@.with_flags(
                EditorFlags { in_drag_scroll_zone: inside, ..old(self)@.flags },
            ),
    {
        self.flags.in_drag_scroll_zone = inside;
    }

    /// Extends the selection by one line while it is dragged at the edge of the
    /// window.
    pub fn drag_scroll(&mut self, up: bool)
        requires
            old(self).ready(),
        ensures
            final(self).wf(),
            final(self)@ == old(self)@.with_state(
                old(self)@.state.dragged(
                    (if up {
                        above(old(self)@.text(), old(self)@.cursor() as int)
                    } else {
                        below(old(self)@.text(), old(self)@.cursor() as int)
                    }) as usize,
                ),
            ),
            old(self).steady() ==> final(self).steady(),
    {
        let c: Cursor = self.state.cursor();
        let to: Cursor = if up {
            c.move_up(&self.state.buffer)
        } else {
            c.move_down(&self.state.buffer)
        };
        self.state.handle_drag(to.offset);
    }
}

/// The level of the first heading among a line's markers.
fn find_heading(lm: &LineMarkers) -> (r: Option<u8>)
    ensures
        r == heading_among(lm@.markers, 0),
{
    let mut j: usize = 0;
    while j < lm.markers.len()
        invariant
            j <= lm.markers@.len(),
            heading_among(lm@.markers, j as int) == heading_among(lm@.markers, 0),
        decreases lm.markers@.len() - j,
    {
        assert(lm@.markers[j as int] == lm.markers@[j as int]@);
        if let MarkerKind::Heading(level) = &lm.markers[j].kind {
            return Some(*level);
        }
        j = j + 1;
    }
    None
}

} // verus!
