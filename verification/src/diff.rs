//! Changes that wait for the user to accept or reject them, hunk by hunk.

use vstd::prelude::*;
use vstd::utf8::*;

use crate::marker::Span;
use crate::snapshot::{lines_between, RenderSnapshot};

verus! {

/// A run of lines that replaced another: old lines by new ones.
#[derive(Clone, Copy, Debug, PartialEq, Eq, Structural)]
pub struct Hunk {
    pub old_lines: Span,
    pub new_lines: Span,
}

/// The ranges of a line whose words changed.
pub struct InlineChanges {
    pub line: usize,
    pub ranges: Vec<Span>,
}

/// The ranges of a line whose words changed, as contracts speak of them.
#[verifier::ext_equal]
pub struct ChangesModel {
    pub line: usize,
    pub ranges: Seq<Span>,
}

impl View for InlineChanges {
    type V = ChangesModel;

    open spec fn view(&self) -> ChangesModel {
        ChangesModel { line: self.line, ranges: self.ranges@ }
    }
}

/// Changed ranges of lines, as contracts speak of them.
#[verifier::opaque]
pub open spec fn changes_models(v: Seq<InlineChanges>) -> Seq<ChangesModel> {
    v.map_values(|c: InlineChanges| c@)
}

/// Changes under review: the text from before, and the hunks that are not yet
/// decided on.
pub struct DiffState {
    pub old_snapshot: RenderSnapshot,
    pub hunks: Vec<Hunk>,
    pub new_changes: Vec<InlineChanges>,
    pub old_changes: Vec<InlineChanges>,
}

/// Changes under review, as contracts speak of them.
pub struct DiffModel {
    pub old_text: Seq<u8>,
    pub hunks: Seq<Hunk>,
    pub new_changes: Seq<ChangesModel>,
    pub old_changes: Seq<ChangesModel>,
}

impl View for DiffState {
    type V = DiffModel;

    open spec fn view(&self) -> DiffModel {
        DiffModel {
            old_text: self.old_snapshot@,
            hunks: self.hunks@,
            new_changes: changes_models(self.new_changes@),
            old_changes: changes_models(self.old_changes@),
        }
    }
}

/// Whether a line lies in a range of lines.
pub open spec fn in_lines(lines: Span, line: int) -> bool {
    lines.start <= line < lines.end
}

/// How many lines a range spans.
pub open spec fn span_len(s: Span) -> int {
    if s.start < s.end {
        s.end - s.start
    } else {
        0
    }
}

/// Whether a hunk is the one at a line: its new lines hold the line, or it has
/// none and would stand there.
pub open spec fn at_line(h: Hunk, line: int) -> bool {
    in_lines(h.new_lines, line) || (h.new_lines.start == h.new_lines.end && h.new_lines.start
        == line)
}

/// The first hunk from place `j` on that is at a line.
pub open spec fn hunk_at(hunks: Seq<Hunk>, line: int, j: int) -> Option<int>
    decreases hunks.len() - j,
{
    if j >= hunks.len() {
        None
    } else if at_line(hunks[j], line) {
        Some(j)
    } else {
        hunk_at(hunks, line, j + 1)
    }
}

/// A line number once `gone` lines before it made way for `come`.
pub open spec fn moved_line(line: usize, come: int, gone: int) -> usize {
    let left = if line < gone {
        0
    } else {
        line - gone
    };
    if left + come > usize::MAX {
        usize::MAX
    } else {
        (left + come) as usize
    }
}

/// A hunk once `gone` lines before its new lines made way for `come`.
pub open spec fn moved_hunk(h: Hunk, come: int, gone: int) -> Hunk {
    Hunk {
        old_lines: h.old_lines,
        new_lines: Span {
            start: moved_line(h.new_lines.start, come, gone),
            end: moved_line(h.new_lines.end, come, gone),
        },
    }
}

/// The hunks without the one at place `i`, those after it moved.
pub open spec fn without_hunk(hunks: Seq<Hunk>, i: int, come: int, gone: int) -> Seq<Hunk> {
    Seq::new(
        (hunks.len() - 1) as nat,
        |k: int|
            if k < i {
                hunks[k]
            } else {
                moved_hunk(hunks[k + 1], come, gone)
            },
    )
}

/// Whether one of the hunks holds a line among its new lines.
pub open spec fn adds_line(hunks: Seq<Hunk>, line: int) -> bool {
    exists|i: int| 0 <= i < hunks.len() && in_lines((#[trigger] hunks[i]).new_lines, line)
}

/// The first hunk from place `j` on whose old lines are shown before a line.
pub open spec fn ghost_hunk(hunks: Seq<Hunk>, line: int, j: int) -> Option<int>
    decreases hunks.len() - j,
{
    if j >= hunks.len() {
        None
    } else if hunks[j].new_lines.start == line && span_len(hunks[j].old_lines) > 0 {
        Some(j)
    } else {
        ghost_hunk(hunks, line, j + 1)
    }
}

/// The changed ranges of a line: those of the first entry for it from place `j`
/// on.
pub open spec fn changes_of(changes: Seq<ChangesModel>, line: int, j: int) -> Seq<Span>
    decreases changes.len() - j,
{
    if j >= changes.len() {
        Seq::<Span>::empty()
    } else if changes[j].line == line {
        changes[j].ranges
    } else {
        changes_of(changes, line, j + 1)
    }
}

pub fn is_in_lines(lines: Span, line: usize) -> (r: bool)
    ensures
        r == in_lines(lines, line as int),
{
    lines.start <= line && line < lines.end
}

/// Copies the changed ranges of a line.
fn find_changes(changes: &Vec<InlineChanges>, line: usize) -> (r: Vec<Span>)
    ensures
        r@ == changes_of(changes_models(changes@), line as int, 0),
{
    proof {
        reveal(changes_models);
    }
    let ghost models = changes_models(changes@);
    let mut j: usize = 0;
    while j < changes.len()
        invariant
            j <= changes@.len(),
            models == changes_models(changes@),
            models == changes@.map_values(|c: InlineChanges| c@),
            changes_of(models, line as int, j as int) == changes_of(models, line as int, 0),
        decreases changes@.len() - j,
    {
        assert(models[j as int] == changes@[j as int]@);
        if changes[j].line == line {
            let mut out: Vec<Span> = Vec::new();
            let from: &Vec<Span> = &changes[j].ranges;
            let mut i: usize = 0;
            while i < from.len()
                invariant
                    i <= from@.len(),
                    out@ == from@.subrange(0, i as int),
                decreases from@.len() - i,
            {
                out.push(from[i]);
                assert(from@.subrange(0, i + 1) =~= from@.subrange(0, i as int).push(
                    from@[i as int],
                ));
                i = i + 1;
            }
            assert(from@.subrange(0, i as int) =~= from@);
            return out;
        }
        j = j + 1;
    }
    let out: Vec<Span> = Vec::new();
    assert(out@ =~= Seq::<Span>::empty());
    out
}

impl DiffState {
    /// The old text is well formed, and no range of lines ends before it starts.
    pub open spec fn wf(&self) -> bool {
        &&& self.old_snapshot.wf()
        &&& forall|i: int|
            0 <= i < self.hunks@.len() ==> (#[trigger] self.hunks@[i]).new_lines.start
                <= self.hunks@[i].new_lines.end
    }

    /// The hunk at a line.
    pub fn hunk_at_line(&self, line: usize) -> (r: Option<usize>)
        ensures
            match r {
                Some(i) => hunk_at(self@.hunks, line as int, 0) == Some(i as int) && i
                    < self@.hunks.len(),
                None => hunk_at(self@.hunks, line as int, 0) is None,
            },
    {
        let mut j: usize = 0;
        while j < self.hunks.len()
            invariant
                j <= self.hunks@.len(),
                hunk_at(self.hunks@, line as int, j as int) == hunk_at(
                    self.hunks@,
                    line as int,
                    0,
                ),
            decreases self.hunks@.len() - j,
        {
            let h: Hunk = self.hunks[j];
            if is_in_lines(h.new_lines, line) || (h.new_lines.start == h.new_lines.end
                && h.new_lines.start == line) {
                return Some(j);
            }
            j = j + 1;
        }
        None
    }

    /// Drops a hunk whose new lines became `come` lines where they were `gone`,
    /// and moves the hunks after it.
    pub fn remove_hunk(&mut self, idx: usize, come: usize, gone: usize)
        requires
            old(self).wf(),
            idx < old(self)@.hunks.len(),
        ensures
            final(self).wf(),
            final(self)@ == (DiffModel {
                hunks: without_hunk(old(self)@.hunks, idx as int, come as int, gone as int),
                ..old(self)@
            }),
    {
        let ghost all = self.hunks@;
        let mut out: Vec<Hunk> = Vec::new();
        let mut k: usize = 0;
        while k < self.hunks.len()
            invariant
                k <= self.hunks@.len(),
                self.hunks@ == all,
                idx < all.len(),
                k <= idx ==> out@.len() == k,
                k > idx ==> out@.len() == k - 1,
                forall|i: int|
                    0 <= i < out@.len() ==> #[trigger] out@[i] == without_hunk(
                        all,
                        idx as int,
                        come as int,
                        gone as int,
                    )[i],
            decreases self.hunks@.len() - k,
        {
            let h: Hunk = self.hunks[k];
            if k < idx {
                out.push(h);
            } else if k > idx {
                let start: usize = h.new_lines.start.saturating_sub(gone).saturating_add(come);
                let end: usize = h.new_lines.end.saturating_sub(gone).saturating_add(come);
                out.push(Hunk { old_lines: h.old_lines, new_lines: Span { start, end } });
            }
            k = k + 1;
        }
        assert(out@ =~= without_hunk(all, idx as int, come as int, gone as int));
        proof {
            assert forall|i: int| 0 <= i < out@.len() implies (#[trigger] out@[i]).new_lines.start
                <= out@[i].new_lines.end by {
                if i < idx {
                    assert(out@[i] == all[i]);
                } else {
                    assert(out@[i] == moved_hunk(all[i + 1], come as int, gone as int));
                }
            }
        }
        self.hunks = out;
    }

    /// What takes a hunk back: the old lines, and the new lines they replace.
    pub fn reject_hunk_info(&self, idx: usize) -> (r: Option<(Vec<u8>, Span)>)
        requires
            self.wf(),
        ensures
            match r {
                Some(info) => idx < self@.hunks.len() && info.1
                    == self@.hunks[idx as int].new_lines && info.0@ == old_lines_of(
                    self@,
                    self@.hunks[idx as int],
                ) && valid_utf8(info.0@),
                None => idx >= self@.hunks.len(),
            },
    {
        if idx >= self.hunks.len() {
            return None;
        }
        let h: Hunk = self.hunks[idx];
        let end: usize = if h.old_lines.start < h.old_lines.end {
            h.old_lines.end
        } else {
            h.old_lines.start
        };
        Some((self.old_snapshot.lines(h.old_lines.start, end), h.new_lines))
    }

    /// The text from before all hunks.
    pub fn reject_all_text(&self) -> (r: String)
        requires
            self.wf(),
        ensures
            encode_utf8(r@) == self@.old_text,
    {
        self.old_snapshot.text()
    }

    /// Whether a line is new in one of the hunks.
    pub fn is_addition(&self, line: usize) -> (r: bool)
        ensures
            r == adds_line(self@.hunks, line as int),
    {
        let mut i: usize = 0;
        while i < self.hunks.len()
            invariant
                i <= self.hunks@.len(),
                forall|k: int|
                    0 <= k < i ==> !in_lines((#[trigger] self.hunks@[k]).new_lines, line as int),
            decreases self.hunks@.len() - i,
        {
            if is_in_lines(self.hunks[i].new_lines, line) {
                assert(in_lines(self@.hunks[i as int].new_lines, line as int));
                return true;
            }
            i = i + 1;
        }
        false
    }

    /// The old lines that are shown before a line, as they went away there.
    pub fn ghost_lines_before(&self, line: usize) -> (r: Option<Span>)
        ensures
            match r {
                Some(s) => ghost_hunk(self@.hunks, line as int, 0) matches Some(i) && s
                    == self@.hunks[i].old_lines,
                None => ghost_hunk(self@.hunks, line as int, 0) is None,
            },
    {
        let mut j: usize = 0;
        while j < self.hunks.len()
            invariant
                j <= self.hunks@.len(),
                ghost_hunk(self.hunks@, line as int, j as int) == ghost_hunk(
                    self.hunks@,
                    line as int,
                    0,
                ),
            decreases self.hunks@.len() - j,
        {
            let h: Hunk = self.hunks[j];
            if h.new_lines.start == line && h.old_lines.start < h.old_lines.end {
                return Some(h.old_lines);
            }
            j = j + 1;
        }
        None
    }

    /// The ranges of a new line whose words changed.
    pub fn new_inline_changes(&self, line: usize) -> (r: Vec<Span>)
        ensures
            r@ == changes_of(self@.new_changes, line as int, 0),
    {
        find_changes(&self.new_changes, line)
    }

    /// The ranges of an old line whose words changed.
    pub fn old_inline_changes(&self, line: usize) -> (r: Vec<Span>)
        ensures
            r@ == changes_of(self@.old_changes, line as int, 0),
    {
        find_changes(&self.old_changes, line)
    }
}

/// The old lines of a hunk, with their newlines.
pub open spec fn old_lines_of(d: DiffModel, h: Hunk) -> Seq<u8> {
    lines_between(d.old_text, h.old_lines.start as int, h.old_lines.start + span_len(h.old_lines))
}

/// Dropping a hunk that was kept as it is leaves the others where they are.
pub proof fn law_accepted_hunk_moves_no_other(hunks: Seq<Hunk>, i: int)
    requires
        0 <= i < hunks.len(),
    ensures
        without_hunk(hunks, i, 0, 0) == hunks.remove(i),
{
    let rest = without_hunk(hunks, i, 0, 0);
    assert forall|k: int| 0 <= k < rest.len() implies rest[k] == hunks.remove(i)[k] by {
        if k >= i {
            assert(rest[k] == moved_hunk(hunks[k + 1], 0, 0));
            assert(hunks.remove(i)[k] == hunks[k + 1]);
        }
    }
    assert(rest =~= hunks.remove(i));
}

} // verus!
