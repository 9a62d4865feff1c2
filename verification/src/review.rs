//! Accepting and rejecting changes, and reloading the text from its file.

use vstd::prelude::*;
use vstd::utf8::*;

use crate::buffer::{lemma_boundary_after, spliced};
use crate::cursor::Selection;
use crate::diff::{hunk_at, old_lines_of, span_len, without_hunk, DiffModel, DiffState};
use crate::editor::{Editor, EditorFlags, EditorModel};
use crate::lines::{
    byte_to_line, lemma_line_of_bound, lemma_line_start_boundary, lemma_line_start_monotone,
    lemma_lines_replaced, lemma_whole_lines_end, line_of, line_start, line_text, line_total,
};
use crate::marker::Span;
use crate::state::{EditorState, StateModel};
use crate::text::{bytes_eq, lemma_floor};

verus! {

/// Where line `n` starts in a text; its end when there is no such line.
pub open spec fn line_or_end(text: Seq<u8>, n: int) -> int {
    if n >= line_total(text) {
        text.len() as int
    } else {
        line_start(text, n)
    }
}

/// The changes that are left once one was decided on; `None` when none is.
pub open spec fn left_over(d: DiffModel, i: int, come: int, gone: int) -> Option<DiffModel> {
    let hunks = without_hunk(d.hunks, i, come, gone);
    if hunks.len() == 0 {
        None
    } else {
        Some(DiffModel { hunks, ..d })
    }
}

impl StateModel {
    /// The state after a range of lines made way for a text, with the cursor at
    /// its start.
    pub open spec fn lines_restored(self, lines: Span, t: Seq<u8>) -> StateModel {
        let start = line_start(self.text(), lines.start as int);
        let end = line_or_end(self.text(), lines.end as int);
        self.holding(self.buffer.splice(start, end, t, self.cursor())).at(start as usize)
    }
}

impl EditorState {
    /// Replaces a range of lines and puts the cursor at its start.
    fn restore_lines(&mut self, lines: Span, t: &[u8])
        requires
            old(self).wf(),
            lines.start <= lines.end,
            valid_utf8(t@),
        ensures
            final(self).ready(),
            final(self).steady(),
            final(self)@ == old(self)@.lines_restored(lines, t@),
    {
        let ghost text = self@.text();
        let start: usize = self.buffer.line_to_byte(lines.start);
        let end: usize = if lines.end > self.buffer.last_line() {
            self.buffer.len_bytes()
        } else {
            self.buffer.line_to_byte(lines.end)
        };
        proof {
            self.buffer.lemma_wf();
            lemma_line_start_monotone(text, lines.start as int, lines.end as int);
            lemma_line_start_boundary(text, lines.start as int);
            lemma_line_start_boundary(text, lines.end as int);
            lemma_boundary_after(text, start as int, end as int, t@, start as int);
        }
        let cursor: usize = self.selection.head;
        self.buffer.replace(start, end, t, cursor);
        self.selection = Selection::new(start, start);
    }
}

impl EditorModel {
    /// The hunk at the cursor.
    pub open spec fn current_hunk(self) -> Option<int> {
        match self.diff {
            Some(d) => hunk_at(d.hunks, line_of(self.text(), self.cursor() as int), 0),
            None => None,
        }
    }

    /// The editor after the hunk at the cursor was accepted: its change stays and
    /// is no longer under review.
    pub open spec fn hunk_accepted(self) -> EditorModel {
        match self.current_hunk() {
            Some(i) => EditorModel { diff: left_over(self.diff->0, i, 0, 0), ..self },
            None => self,
        }
    }

    /// The editor after all hunks were accepted.
    pub open spec fn all_accepted(self) -> EditorModel {
        EditorModel { diff: None, ..self }
    }

    /// The editor after the hunk at the cursor was rejected: its old lines stand
    /// where its new ones did, with the cursor at their start.
    pub open spec fn hunk_rejected(self) -> EditorModel {
        match self.current_hunk() {
            Some(i) => {
                let d = self.diff->0;
                let h = d.hunks[i];
                let old_text = old_lines_of(d, h);
                let come = line_of(old_text, old_text.len() as int);
                EditorModel {
                    state: self.state.lines_restored(h.new_lines, old_text),
                    diff: left_over(d, i, come, span_len(h.new_lines)),
                    ..self
                }
            },
            None => self,
        }
    }

    /// The editor after all hunks were rejected: the old text is back.
    pub open spec fn all_rejected(self) -> EditorModel {
        match self.diff {
            Some(d) => EditorModel { diff: None, ..self.with_text(d.old_text) },
            None => self,
        }
    }
}

/// The changes that are left once one was decided on.
fn without(d: DiffState, i: usize, come: usize, gone: usize) -> (r: Option<DiffState>)
    requires
        d.wf(),
        i < d@.hunks.len(),
    ensures
        match r {
            Some(e) => left_over(d@, i as int, come as int, gone as int) == Some(e@) && e.wf(),
            None => left_over(d@, i as int, come as int, gone as int) is None,
        },
{
    let mut e: DiffState = d;
    e.remove_hunk(i, come, gone);
    if e.hunks.len() == 0 {
        None
    } else {
        Some(e)
    }
}

impl Editor {
    /// Shows changes for review, or ends the review.
    pub fn set_diff_state(&mut self, diff_state: Option<DiffState>)
        requires
            old(self).wf(),
            diff_state matches Some(d) ==> d.wf(),
        ensures
            final(self).wf(),
            final(self)@ == (EditorModel {
                diff: match diff_state {
                    Some(d) => Some(d@),
                    None => None,
                },
                ..old(self)@
            }),
    {
        self.diff_state = diff_state;
    }

    /// The changes under review.
    pub fn diff_state(&self) -> (r: Option<&DiffState>)
        ensures
            match r {
                Some(d) => self@.diff == Some(d@),
                None => self@.diff is None,
            },
    {
        match &self.diff_state {
            Some(d) => Some(d),
            None => None,
        }
    }

    fn find_current_hunk(&self) -> (r: Option<usize>)
        ensures
            match r {
                Some(i) => self@.current_hunk() == Some(i as int) && self@.diff is Some && i
                    < self@.diff->0.hunks.len(),
                None => self@.current_hunk() is None,
            },
    {
        let line: usize = self.state.buffer.byte_to_line(self.state.selection.head);
        match &self.diff_state {
            Some(d) => d.hunk_at_line(line),
            None => None,
        }
    }

    /// Drops a hunk from the review, and the review when no hunk is left.
    fn drop_hunk(&mut self, i: usize, come: usize, gone: usize)
        requires
            old(self).wf(),
            old(self)@.diff is Some,
            i < old(self)@.diff->0.hunks.len(),
        ensures
            final(self).wf(),
            final(self).state == old(self).state,
            final(self)@ == (EditorModel {
                diff: left_over(old(self)@.diff->0, i as int, come as int, gone as int),
                ..old(self)@
            }),
    {
        let taken: Option<DiffState> = self.diff_state.take();
        if let Some(d) = taken {
            self.diff_state = without(d, i, come, gone);
        }
    }

    /// Accepts the hunk at the cursor. Returns whether there was one.
    pub fn accept_current_hunk(&mut self) -> (r: bool)
        requires
            old(self).wf(),
        ensures
            final(self).wf(),
            final(self).state == old(self).state,
            final(self)@ == old(self)@.hunk_accepted(),
            r == old(self)@.current_hunk() is Some,
    {
        match self.find_current_hunk() {
            Some(i) => {
                self.drop_hunk(i, 0, 0);
                true
            },
            None => false,
        }
    }

    /// Accepts all hunks. Returns whether there was a review.
    pub fn accept_all_hunks(&mut self) -> (r: bool)
        requires
            old(self).wf(),
        ensures
            final(self).wf(),
            final(self).state == old(self).state,
            final(self)@ == old(self)@.all_accepted(),
            r == old(self)@.diff is Some,
    {
        let was: bool = self.diff_state.is_some();
        self.diff_state = None;
        was
    }

    /// Rejects the hunk at the cursor. Returns whether there was one.
    pub fn reject_current_hunk(&mut self) -> (r: bool)
        requires
            old(self).wf(),
        ensures
            final(self).wf(),
            final(self)@ == old(self)@.hunk_rejected(),
            r == old(self)@.current_hunk() is Some,
            r ==> final(self).ready() && final(self).steady(),
            !r ==> final(self).state == old(self).state,
    {
        let ghost m = self@;
        let i: usize = match self.find_current_hunk() {
            Some(i) => i,
            None => {
                return false;
            },
        };
        let info: Option<(Vec<u8>, Span)> = match &self.diff_state {
            Some(d) => d.reject_hunk_info(i),
            None => None,
        };
        if let Some((old_text, lines)) = info {
            self.state.restore_lines(lines, old_text.as_slice());
            let come: usize = byte_to_line(old_text.as_slice(), old_text.len());
            let gone: usize = if lines.start < lines.end {
                lines.end - lines.start
            } else {
                0
            };
            self.drop_hunk(i, come, gone);
        }
        true
    }

    /// Rejects all hunks: the old text is back. Returns whether there was a
    /// review.
    pub fn reject_all_hunks(&mut self) -> (r: bool)
        requires
            old(self).wf(),
        ensures
            final(self).wf(),
            final(self)@ == old(self)@.all_rejected(),
            r == old(self)@.diff is Some,
            r ==> final(self).ready() && final(self).steady(),
            !r ==> final(self).state == old(self).state,
    {
        let ghost m = self@;
        let old_text: String = match &self.diff_state {
            Some(d) => d.reject_all_text(),
            None => {
                return false;
            },
        };
        self.set_text(old_text.as_str());
        self.diff_state = None;
        true
    }

    /// Notes whether an agent is about to write the file. Until it has, the file
    /// is not reloaded.
    pub fn set_pending_agent_write(&mut self, pending: bool)
        requires
            old(self).wf(),
        ensures
            final(self).wf(),
            final(self).state == old(self).state,
            final(self)@ == old(self)@.with_flags(
                EditorFlags { pending_agent_write: pending, ..old(self)@.flags },
            ),
    {
        self.flags.pending_agent_write = pending;
    }

    /// Whether a change of the file is to be read: not while changes are under
    /// review or an agent is about to write, not without a file, and not when the
    /// file is as it was last saved.
    pub fn should_reload(&self, has_path: bool, as_last_saved: bool) -> (r: bool)
        ensures
            r == (self@.diff is None && !self@.flags.pending_agent_write && has_path && !as_last_saved),
    {
        self.diff_state.is_none() && !self.flags.pending_agent_write && has_path && !as_last_saved
    }

    /// Takes over what was read from the file. Returns whether it was anything
    /// new.
    pub fn reload(&mut self, content: &str) -> (r: bool)
        requires
            old(self).wf(),
        ensures
            final(self).wf(),
            r == (encode_utf8(content@) != old(self)@.text()),
            r ==> final(self)@ == old(self)@.with_text(encode_utf8(content@)),
            r ==> final(self).ready() && final(self).steady(),
            !r ==> *final(self) == *old(self),
    {
        if bytes_eq(content.as_bytes(), self.state.buffer.bytes()) {
            return false;
        }
        self.set_text(content);
        true
    }
}

/// What a report on the watched directory is of.
#[derive(Clone, Copy, Debug, PartialEq, Eq, Structural)]
pub enum WatchedChange {
    Modified,
    Created,
    Other,
}

/// Whether a report says that the file may have changed: something was modified,
/// or the file itself was created.
pub fn concerns_file(change: WatchedChange, names_file: bool) -> (r: bool)
    ensures
        r == (change == WatchedChange::Modified || (change == WatchedChange::Created
            && names_file)),
{
    match change {
        WatchedChange::Modified => true,
        WatchedChange::Created => names_file,
        WatchedChange::Other => false,
    }
}

/// What is watched for changes of a file.
#[derive(Clone, Copy, Debug, PartialEq, Eq, Structural)]
pub enum WatchTarget {
    File,
    Directory,
    Nothing,
}

/// What to watch for changes of a file: the file, or the directory in which it is
/// to be created.
pub fn watch_target(file_exists: bool, has_directory: bool) -> (r: WatchTarget)
    ensures
        file_exists ==> r == WatchTarget::File,
        !file_exists && has_directory ==> r == WatchTarget::Directory,
        !file_exists && !has_directory ==> r == WatchTarget::Nothing,
{
    if file_exists {
        WatchTarget::File
    } else if has_directory {
        WatchTarget::Directory
    } else {
        WatchTarget::Nothing
    }
}

/// Rejecting all changes brings the old text back and ends the review.
pub proof fn law_rejecting_all_restores_the_old_text(m: EditorModel)
    requires
        m.diff is Some,
    ensures
        m.all_rejected().text() == m.diff->0.old_text,
        m.all_rejected().diff is None,
{
}

/// Accepting changes leaves the text as it is.
pub proof fn law_accepting_keeps_the_text(m: EditorModel)
    ensures
        m.hunk_accepted().state == m.state,
        m.all_accepted().state == m.state,
        m.all_accepted().diff is None,
{
}

/// Every hunk decided on is one less to decide on, and the last one ends the
/// review.
pub proof fn law_deciding_ends_the_review(m: EditorModel)
    requires
        m.current_hunk() is Some,
    ensures
        m.diff->0.hunks.len() <= 1 ==> m.hunk_accepted().diff is None && m.hunk_rejected().diff
            is None,
        m.diff->0.hunks.len() > 1 ==> (m.hunk_accepted().diff matches Some(d) && d.hunks.len()
            == m.diff->0.hunks.len() - 1) && (m.hunk_rejected().diff matches Some(d)
            && d.hunks.len() == m.diff->0.hunks.len() - 1),
{
    let d = m.diff->0;
    lemma_hunk_at(d.hunks, line_of(m.text(), m.cursor() as int), 0);
}

/// Rejecting a hunk puts its old lines where its new ones were, leaves the rest of
/// the text as it is, and puts the cursor at their start.
pub proof fn law_rejected_hunk_gives_its_lines_back(m: EditorModel)
    requires
        valid_utf8(m.text()),
        m.text().len() <= usize::MAX,
        m.current_hunk() matches Some(i) && m.diff->0.hunks[i].new_lines.start
            <= m.diff->0.hunks[i].new_lines.end,
    ensures
        ({
            let h = m.diff->0.hunks[m.current_hunk()->0];
            let start = line_start(m.text(), h.new_lines.start as int);
            let end = line_or_end(m.text(), h.new_lines.end as int);
            0 <= start <= end <= m.text().len() && m.hunk_rejected().text() == spliced(
                m.text(),
                start,
                end,
                old_lines_of(m.diff->0, h),
            ) && m.hunk_rejected().cursor() == start
        }),
{
    let h = m.diff->0.hunks[m.current_hunk()->0];
    let text = m.text();
    lemma_line_start_monotone(text, h.new_lines.start as int, h.new_lines.end as int);
    lemma_line_start_boundary(text, h.new_lines.start as int);
    lemma_line_start_boundary(text, h.new_lines.end as int);
    lemma_floor(text, line_start(text, h.new_lines.start as int));
    lemma_floor(text, line_or_end(text, h.new_lines.end as int));
}

proof fn lemma_hunk_at(hunks: Seq<crate::diff::Hunk>, line: int, j: int)
    requires
        0 <= j,
    ensures
        hunk_at(hunks, line, j) matches Some(i) ==> j <= i < hunks.len(),
    decreases hunks.len() - j,
{
    if j < hunks.len() && !crate::diff::at_line(hunks[j], line) {
        lemma_hunk_at(hunks, line, j + 1);
    }
}

/// Whether a range of lines of one text and a range of another are as long and hold
/// the same lines.
pub open spec fn same_lines(s: Seq<u8>, a: Span, t: Seq<u8>, b: Span) -> bool {
    &&& a.end - a.start == b.end - b.start
    &&& forall|k: int|
        0 <= k < a.end - a.start ==> #[trigger] line_text(s, a.start + k) == line_text(
            t,
            b.start + k,
        )
}

/// After a hunk was rejected every other hunk that lies apart from it covers the
/// same lines of text as before, whether it comes before or after, and stands for
/// the same old lines.
pub proof fn law_rejecting_leaves_other_hunks_on_their_lines(m: EditorModel, k: int)
    requires
        valid_utf8(m.text()),
        m.text().len() <= usize::MAX,
        m.hunk_rejected().text().len() < usize::MAX,
        m.current_hunk() is Some,
        0 <= k < m.diff->0.hunks.len(),
        k != m.current_hunk()->0,
        ({
            let d = m.diff->0;
            let i = m.current_hunk()->0;
            let (h, other) = (d.hunks[i], d.hunks[k]);
            &&& h.old_lines.start <= h.old_lines.end < line_total(d.old_text)
            &&& h.new_lines.start <= h.new_lines.end < line_total(m.text())
            &&& other.new_lines.start <= other.new_lines.end <= line_total(m.text())
            &&& k < i ==> other.new_lines.end <= h.new_lines.start
            &&& i < k ==> h.new_lines.end <= other.new_lines.start
        }),
    ensures
        ({
            let i = m.current_hunk()->0;
            let place = if k < i {
                k
            } else {
                k - 1
            };
            m.hunk_rejected().diff matches Some(e) && e.hunks.len() == m.diff->0.hunks.len() - 1
                && e.hunks[place].old_lines == m.diff->0.hunks[k].old_lines && same_lines(
                m.text(),
                m.diff->0.hunks[k].new_lines,
                m.hunk_rejected().text(),
                e.hunks[place].new_lines,
            )
        }),
{
    let d = m.diff->0;
    let i = m.current_hunk()->0;
    let (h, other) = (d.hunks[i], d.hunks[k]);
    let text = m.text();
    let after = m.hunk_rejected().text();
    let ins = old_lines_of(d, h);
    let come = line_of(ins, ins.len() as int);
    let gone = span_len(h.new_lines);
    lemma_hunk_at(d.hunks, line_of(text, m.cursor() as int), 0);
    law_rejected_hunk_gives_its_lines_back(m);
    lemma_whole_lines_end(d.old_text, h.old_lines.start as int, h.old_lines.end as int);
    lemma_lines_replaced(text, h.new_lines.start as int, h.new_lines.end as int, ins);
    lemma_line_of_bound(after, after.len() as int);
    lemma_line_of_bound(ins, ins.len() as int);
    let e = m.hunk_rejected().diff->0;
    assert(e.hunks == without_hunk(d.hunks, i, come, gone));
    if i < k {
        let now = e.hunks[k - 1].new_lines;
        assert(now.start == other.new_lines.start - gone + come);
        assert(now.end == other.new_lines.end - gone + come);
        assert forall|j: int|
            0 <= j < other.new_lines.end - other.new_lines.start implies #[trigger] line_text(
            text,
            other.new_lines.start + j,
        ) == line_text(after, now.start + j) by {}
    } else {
        assert forall|j: int|
            0 <= j < other.new_lines.end - other.new_lines.start implies #[trigger] line_text(
            text,
            other.new_lines.start + j,
        ) == line_text(after, other.new_lines.start + j) by {}
    }
}

/// The hunk at the cursor is one whose new lines hold the cursor's line, or one
/// without new lines that would stand there; there is none only if no hunk does.
pub proof fn law_current_hunk_is_at_the_cursor(m: EditorModel, k: int)
    requires
        m.diff is Some,
        0 <= k < m.diff->0.hunks.len(),
    ensures
        ({
            let line = line_of(m.text(), m.cursor() as int);
            let n = m.diff->0.hunks[k].new_lines;
            let here = n.start <= line < n.end || (n.start == n.end && n.start == line);
            &&& m.current_hunk() == Some(k) ==> here
            &&& here ==> (m.current_hunk() matches Some(i) && i <= k)
        }),
{
    lemma_first_hunk(m.diff->0.hunks, line_of(m.text(), m.cursor() as int), 0, k);
}

proof fn lemma_first_hunk(hunks: Seq<crate::diff::Hunk>, line: int, j: int, k: int)
    requires
        0 <= j <= k < hunks.len(),
    ensures
        ({
            let n = hunks[k].new_lines;
            let here = n.start <= line < n.end || (n.start == n.end && n.start == line);
            &&& hunk_at(hunks, line, j) == Some(k) ==> here
            &&& here ==> (hunk_at(hunks, line, j) matches Some(i) && i <= k)
        }),
    decreases hunks.len() - j,
{
    if !crate::diff::at_line(hunks[j], line) && j < k {
        lemma_first_hunk(hunks, line, j + 1, k);
    }
    if !crate::diff::at_line(hunks[j], line) && j == k {
        lemma_hunk_at(hunks, line, j + 1);
    }
}

} // verus!
