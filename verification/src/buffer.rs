//! The text being edited, with its block structure and its history.

use vstd::prelude::*;
use vstd::utf8::*;

use crate::lines::{byte_to_line, line_of, line_start, line_to_byte, line_total};
use crate::text::{
    boundary, floor_boundary, floor_to_boundary, has_at, has_bytes_at, lemma_floor,
    lemma_floor_monotone, lemma_piece_end, lemma_pieces_valid, lemma_splice_valid, lemma_str_valid,
    push_bytes, slice_bytes, string_from_utf8,
};
use crate::tree::{node_spanning, nodes_of, structure_ok, SyntaxNode, SyntaxTree};

verus! {

/// One change of the text: at `at`, `removed` made way for `added`.
pub struct Edit {
    pub at: usize,
    pub removed: Vec<u8>,
    pub added: Vec<u8>,
    /// Where the cursor stood before the change.
    pub cursor: usize,
}

/// One change of the text, as contracts speak of it.
pub struct EditRecord {
    pub at: usize,
    pub removed: Seq<u8>,
    pub added: Seq<u8>,
    pub cursor: usize,
}

impl View for Edit {
    type V = EditRecord;

    open spec fn view(&self) -> EditRecord {
        EditRecord {
            at: self.at,
            removed: self.removed@,
            added: self.added@,
            cursor: self.cursor,
        }
    }
}

/// A buffer, as contracts speak of it.
#[verifier::ext_equal]
pub struct BufferModel {
    pub text: Seq<u8>,
    pub undo: Seq<EditRecord>,
    pub redo: Seq<EditRecord>,
    pub version: u64,
    pub dirty: bool,
}

/// `text` with the bytes from `a` to `b` replaced by `ins`.
pub open spec fn spliced(text: Seq<u8>, a: int, b: int, ins: Seq<u8>) -> Seq<u8> {
    text.subrange(0, a) + ins + text.subrange(b, text.len() as int)
}

/// The text before the change `e`.
pub open spec fn reverted(text: Seq<u8>, e: EditRecord) -> Seq<u8> {
    spliced(text, e.at as int, e.at + e.added.len(), e.removed)
}

/// The text after the change `e`.
pub open spec fn applied(text: Seq<u8>, e: EditRecord) -> Seq<u8> {
    spliced(text, e.at as int, e.at + e.removed.len(), e.added)
}

/// Whether a piece of valid UTF-8 stands in the text at a character boundary.
pub open spec fn stands(text: Seq<u8>, at: int, piece: Seq<u8>) -> bool {
    has_at(text, at, piece) && boundary(text, at) && valid_utf8(piece)
}

/// Whether each recorded change can be taken back, the last one first.
pub open spec fn undo_ok(text: Seq<u8>, undo: Seq<EditRecord>) -> bool
    decreases undo.len(),
{
    &&& valid_utf8(text)
    &&& undo.len() > 0 ==> stands(text, undo.last().at as int, undo.last().added) && valid_utf8(
        undo.last().removed,
    ) && undo_ok(reverted(text, undo.last()), undo.drop_last())
}

/// Whether each change that was taken back can be made again, the last one
/// first.
pub open spec fn redo_ok(text: Seq<u8>, redo: Seq<EditRecord>) -> bool
    decreases redo.len(),
{
    &&& valid_utf8(text)
    &&& redo.len() > 0 ==> stands(text, redo.last().at as int, redo.last().removed) && valid_utf8(
        redo.last().added,
    ) && redo_ok(applied(text, redo.last()), redo.drop_last())
}

impl BufferModel {
    /// Whether the text is valid UTF-8 and the history fits it.
    pub open spec fn ok(self) -> bool {
        &&& self.text.len() <= usize::MAX
        &&& undo_ok(self.text, self.undo)
        &&& redo_ok(self.text, self.redo)
    }

    /// The buffer of a fresh text.
    pub open spec fn fresh(text: Seq<u8>) -> BufferModel {
        BufferModel { text, undo: seq![], redo: seq![], version: 0, dirty: false }
    }

    /// The buffer after the text from `start` to `end` made way for `ins`.
    /// Offsets inside a character count as the character's start.
    pub open spec fn splice(self, start: int, end: int, ins: Seq<u8>, cursor: usize) -> BufferModel {
        let a = floor_boundary(self.text, start);
        let b = floor_boundary(self.text, end);
        BufferModel {
            text: spliced(self.text, a, b, ins),
            undo: self.undo.push(
                EditRecord {
                    at: a as usize,
                    removed: self.text.subrange(a, b),
                    added: ins,
                    cursor,
                },
            ),
            redo: seq![],
            version: next_version(self.version),
            dirty: true,
        }
    }

    /// The buffer after `ins` was put in at `pos`.
    pub open spec fn insert(self, pos: int, ins: Seq<u8>, cursor: usize) -> BufferModel {
        self.splice(pos, pos, ins, cursor)
    }

    /// The buffer after the text from `start` to `end` was taken out.
    pub open spec fn delete(self, start: int, end: int, cursor: usize) -> BufferModel {
        self.splice(start, end, Seq::<u8>::empty(), cursor)
    }

    /// The buffer after the last change was taken back.
    pub open spec fn undone(self) -> BufferModel {
        if self.undo.len() == 0 {
            self
        } else {
            BufferModel {
                text: reverted(self.text, self.undo.last()),
                undo: self.undo.drop_last(),
                redo: self.redo.push(self.undo.last()),
                version: next_version(self.version),
                dirty: true,
            }
        }
    }

    /// The buffer after the last change that was taken back is made again.
    pub open spec fn redone(self) -> BufferModel {
        if self.redo.len() == 0 {
            self
        } else {
            BufferModel {
                text: applied(self.text, self.redo.last()),
                undo: self.undo.push(self.redo.last()),
                redo: self.redo.drop_last(),
                version: next_version(self.version),
                dirty: true,
            }
        }
    }
}

/// The version number that follows `v`; it wraps at the end.
pub open spec fn next_version(v: u64) -> u64 {
    if v == u64::MAX {
        0
    } else {
        (v + 1) as u64
    }
}

/// A piece that was put in stands there, and taking it back out gives the text
/// it was put in.
pub proof fn lemma_spliced_back(text: Seq<u8>, a: int, b: int, ins: Seq<u8>)
    requires
        0 <= a <= b <= text.len(),
    ensures
        has_at(spliced(text, a, b, ins), a, ins),
        spliced(spliced(text, a, b, ins), a, a + ins.len(), text.subrange(a, b)) == text,
        spliced(text, a, b, ins).len() == text.len() - (b - a) + ins.len(),
{
    let t = spliced(text, a, b, ins);
    assert(t.subrange(a, a + ins.len()) =~= ins);
    assert(spliced(t, a, a + ins.len(), text.subrange(a, b)) =~= text);
}

/// Where a boundary `c` of a text lies once the text from `a` to `b` made way for
/// `ins`: before the change where it was, after it as much further as the text
/// grew.
pub proof fn lemma_boundary_after(text: Seq<u8>, a: int, b: int, ins: Seq<u8>, c: int)
    requires
        valid_utf8(text),
        valid_utf8(ins),
        0 <= a <= b <= text.len(),
        boundary(text, a),
        boundary(text, b),
        boundary(text, c),
    ensures
        floor_boundary(text, a) == a,
        floor_boundary(text, b) == b,
        valid_utf8(spliced(text, a, b, ins)),
        boundary(spliced(text, a, b, ins), a),
        boundary(spliced(text, a, b, ins), a + ins.len()),
        c <= a ==> boundary(spliced(text, a, b, ins), c),
        c >= b ==> boundary(spliced(text, a, b, ins), c - (b - a) + ins.len()),
{
    let t = spliced(text, a, b, ins);
    lemma_floor(text, a);
    lemma_floor(text, b);
    lemma_splice_valid(text, a, b, ins);
    if ins.len() > 0 {
        assert(valid_first_scalar(ins));
        assert(t[a] == ins[0]);
    } else if b < text.len() {
        assert(t[a] == text[b]);
    }
    if b < text.len() {
        assert(t[a + ins.len()] == text[b]);
    }
    if 0 <= c < a {
        assert(t[c] == text[c]);
    }
    if b <= c < text.len() {
        assert(t[c - (b - a) + ins.len()] == text[c]);
    }
}

/// A piece that stands in the text can be replaced, and what replaces it stands
/// there then.
proof fn lemma_stands(text: Seq<u8>, at: int, piece: Seq<u8>, ins: Seq<u8>)
    requires
        valid_utf8(text),
        stands(text, at, piece),
        valid_utf8(ins),
    ensures
        0 <= at <= at + piece.len() <= text.len(),
        stands(spliced(text, at, at + piece.len(), ins), at, ins),
        boundary(spliced(text, at, at + piece.len(), ins), at + ins.len()),
        valid_utf8(spliced(text, at, at + piece.len(), ins)),
        spliced(spliced(text, at, at + piece.len(), ins), at, at + ins.len(), piece) == text,
        spliced(text, at, at + piece.len(), ins).len() == text.len() - piece.len() + ins.len(),
{
    lemma_piece_end(text, at, at + piece.len());
    lemma_boundary_after(text, at, at + piece.len(), ins, at);
    lemma_spliced_back(text, at, at + piece.len(), ins);
}

/// A change keeps the history consistent.
pub proof fn lemma_splice_ok(m: BufferModel, start: int, end: int, ins: Seq<u8>, cursor: usize)
    requires
        m.ok(),
        0 <= start <= end <= m.text.len(),
        valid_utf8(ins),
        m.splice(start, end, ins, cursor).text.len() <= usize::MAX,
    ensures
        m.splice(start, end, ins, cursor).ok(),
        undo_ok(m.splice(start, end, ins, cursor).text, m.splice(start, end, ins, cursor).undo),
{
    let a = floor_boundary(m.text, start);
    let b = floor_boundary(m.text, end);
    lemma_floor(m.text, start);
    lemma_floor(m.text, end);
    lemma_floor_monotone(m.text, start, end);
    lemma_pieces_valid(m.text, a, b);
    lemma_boundary_after(m.text, a, b, ins, a);
    lemma_spliced_back(m.text, a, b, ins);
    let n = m.splice(start, end, ins, cursor);
    assert(n.undo.drop_last() =~= m.undo);
    assert(reverted(n.text, n.undo.last()) == m.text);
}

/// Taking back the change just made gives the text that it changed.
pub proof fn law_undo_restores_text(
    m: BufferModel,
    start: int,
    end: int,
    ins: Seq<u8>,
    cursor: usize,
)
    requires
        m.ok(),
        0 <= start <= end <= m.text.len(),
    ensures
        m.splice(start, end, ins, cursor).undone().text == m.text,
        m.splice(start, end, ins, cursor).undone().undo == m.undo,
{
    let a = floor_boundary(m.text, start);
    let b = floor_boundary(m.text, end);
    lemma_floor(m.text, start);
    lemma_floor(m.text, end);
    lemma_floor_monotone(m.text, start, end);
    lemma_spliced_back(m.text, a, b, ins);
    let n = m.splice(start, end, ins, cursor);
    assert(n.undo.drop_last() =~= m.undo);
}

/// Making a change again that was taken back gives the text from before it was
/// taken back, and the same history.
pub proof fn law_redo_reverses_undo(m: BufferModel)
    requires
        m.ok(),
        m.undo.len() > 0,
    ensures
        m.undone().redone().text == m.text,
        m.undone().redone().undo == m.undo,
        m.undone().redone().redo == m.redo,
{
    let e = m.undo.last();
    lemma_stands(m.text, e.at as int, e.added, e.removed);
    assert(m.undone().redo.drop_last() =~= m.redo);
    assert(m.undone().redone().undo =~= m.undo);
}

/// Taking back a change that was made again gives the text from before it was
/// made again, and the same history.
pub proof fn law_undo_reverses_redo(m: BufferModel)
    requires
        m.ok(),
        m.redo.len() > 0,
    ensures
        m.redone().undone().text == m.text,
        m.redone().undone().undo == m.undo,
        m.redone().undone().redo == m.redo,
{
    let e = m.redo.last();
    lemma_stands(m.text, e.at as int, e.removed, e.added);
    assert(m.redone().undo.drop_last() =~= m.undo);
    assert(m.redone().undone().redo =~= m.redo);
}

/// The text being edited.
pub struct Buffer {
    text: Vec<u8>,
    tree: Option<SyntaxTree>,
    undo_stack: Vec<Edit>,
    redo_stack: Vec<Edit>,
    version: u64,
    dirty: bool,
}

impl View for Buffer {
    type V = BufferModel;

    closed spec fn view(&self) -> BufferModel {
        BufferModel {
            text: self.text@,
            undo: self.undo_stack@.map_values(|e: Edit| e@),
            redo: self.redo_stack@.map_values(|e: Edit| e@),
            version: self.version,
            dirty: self.dirty,
        }
    }
}

/// Builds `text` with the bytes from `a` to `b` replaced by `ins`.
fn splice_bytes(text: &[u8], a: usize, b: usize, ins: &[u8]) -> (r: Vec<u8>)
    requires
        a <= b <= text@.len(),
    ensures
        r@ == spliced(text@, a as int, b as int, ins@),
{
    let mut v: Vec<u8> = slice_bytes(text, 0, a);
    push_bytes(&mut v, ins);
    push_bytes(&mut v, vstd::slice::slice_subrange(text, b, text.len()));
    v
}

impl Buffer {
    /// The text is valid UTF-8, the block structure is that of the text, and
    /// the history fits the text.
    pub closed spec fn wf(&self) -> bool {
        &&& self@.ok()
        &&& match self.tree {
            Some(t) => t.of(self.text@),
            None => nodes_of(self.text@) is None,
        }
    }

    /// What a well-formed buffer's text satisfies.
    pub proof fn lemma_wf(&self)
        requires
            self.wf(),
        ensures
            valid_utf8(self@.text),
            self@.text.len() <= usize::MAX,
            nodes_of(self@.text) matches Some(nodes) ==> structure_ok(self@.text, nodes)
                && nodes.len() <= usize::MAX,
    {
        if let Some(t) = self.tree {
            t.lemma_of(self.text@);
        }
    }

    /// A buffer that holds `content`, with no history.
    pub fn from_text(content: &str) -> (r: Buffer)
        ensures
            r.wf(),
            r@ == BufferModel::fresh(encode_utf8(content@)),
    {
        let text: Vec<u8> = vstd::slice::slice_to_vec(content.as_bytes());
        proof {
            lemma_str_valid(content@);
        }
        let tree = SyntaxTree::parse(text.as_slice());
        let r = Buffer {
            text,
            tree,
            undo_stack: Vec::new(),
            redo_stack: Vec::new(),
            version: 0,
            dirty: false,
        };
        assert(r@ =~= BufferModel::fresh(encode_utf8(content@)));
        assert(r.text@.len() == r.text.len());
        assert(undo_ok(r@.text, r@.undo));
        assert(redo_ok(r@.text, r@.redo));
        r
    }

    /// The text.
    pub fn text(&self) -> (r: String)
        requires
            self.wf(),
        ensures
            encode_utf8(r@) == self@.text,
    {
        proof {
            self.lemma_wf();
        }
        string_from_utf8(vstd::slice::slice_to_vec(self.text.as_slice()))
    }

    /// The bytes of the text.
    pub fn bytes(&self) -> (r: &[u8])
        ensures
            r@ == self@.text,
    {
        self.text.as_slice()
    }

    /// The length of the text in bytes.
    pub fn len_bytes(&self) -> (r: usize)
        ensures
            r == self@.text.len(),
    {
        self.text.len()
    }

    /// The byte at `offset`, if there is one.
    pub fn byte_at(&self, offset: usize) -> (r: Option<u8>)
        ensures
            r == (if offset < self@.text.len() {
                Some(self@.text[offset as int])
            } else {
                None
            }),
    {
        if offset < self.text.len() {
            Some(self.text[offset])
        } else {
            None
        }
    }

    /// How many lines the text has.
    pub fn line_count(&self) -> (r: usize)
        requires
            self@.text.len() < usize::MAX,
        ensures
            r == line_total(self@.text),
    {
        crate::lines::line_count(self.text.as_slice())
    }

    /// The number of the last line.
    pub fn last_line(&self) -> (r: usize)
        ensures
            r == line_total(self@.text) - 1,
    {
        byte_to_line(self.text.as_slice(), self.text.len())
    }

    /// The number of the line that holds `offset`.
    pub fn byte_to_line(&self, offset: usize) -> (r: usize)
        ensures
            r == line_of(self@.text, offset as int),
            r <= offset,
    {
        byte_to_line(self.text.as_slice(), offset)
    }

    /// Where a line starts.
    pub fn line_to_byte(&self, line: usize) -> (r: usize)
        ensures
            r == line_start(self@.text, line as int),
            r <= self@.text.len(),
    {
        line_to_byte(self.text.as_slice(), line)
    }

    /// The text from `start` to `end`.
    pub fn slice(&self, start: usize, end: usize) -> (r: Vec<u8>)
        requires
            start <= end <= self@.text.len(),
        ensures
            r@ == self@.text.subrange(start as int, end as int),
    {
        slice_bytes(self.text.as_slice(), start, end)
    }

    /// Whether the text ends with `suffix`.
    pub fn ends_with(&self, suffix: &str) -> (r: bool)
        ensures
            r == has_at(
                self@.text,
                self@.text.len() - encode_utf8(suffix@).len(),
                encode_utf8(suffix@),
            ),
    {
        let p = suffix.as_bytes();
        if p.len() > self.text.len() {
            return false;
        }
        has_bytes_at(self.text.as_slice(), self.text.len() - p.len(), p)
    }

    /// The block structure of the text.
    pub fn nodes(&self) -> (r: Option<&Vec<SyntaxNode>>)
        requires
            self.wf(),
        ensures
            match r {
                Some(v) => nodes_of(self@.text) == Some(v@) && structure_ok(self@.text, v@),
                None => nodes_of(self@.text) is None,
            },
    {
        match &self.tree {
            Some(t) => {
                proof {
                    t.lemma_of(self.text@);
                }
                Some(t.nodes())
            },
            None => None,
        }
    }

    /// The smallest node of the block structure that spans the bytes from
    /// `start` to `end`.
    pub fn node_spanning(&self, start: usize, end: usize) -> (r: Option<usize>)
        requires
            self.wf(),
        ensures
            r == node_spanning(self@.text, start, end),
    {
        match &self.tree {
            Some(t) => {
                proof {
                    t.lemma_of(self.text@);
                }
                t.spanning(start, end)
            },
            None => None,
        }
    }

    /// Replaces the text from `start` to `end` by `ins`.
    pub fn replace(&mut self, start: usize, end: usize, ins: &[u8], cursor: usize)
        requires
            old(self).wf(),
            start <= end <= old(self)@.text.len(),
            valid_utf8(ins@),
        ensures
            final(self).wf(),
            final(self)@ == old(self)@.splice(start as int, end as int, ins@, cursor),
    {
        let ghost m = self@;
        let a: usize = floor_to_boundary(self.text.as_slice(), start);
        let b: usize = floor_to_boundary(self.text.as_slice(), end);
        proof {
            lemma_floor_monotone(self.text@, start as int, end as int);
        }
        let removed: Vec<u8> = slice_bytes(self.text.as_slice(), a, b);
        let added: Vec<u8> = vstd::slice::slice_to_vec(ins);
        let text: Vec<u8> = splice_bytes(self.text.as_slice(), a, b, ins);
        self.tree = SyntaxTree::parse(text.as_slice());
        self.text = text;
        self.undo_stack.push(Edit { at: a, removed, added, cursor });
        self.redo_stack = Vec::new();
        self.version = self.version.wrapping_add(1);
        self.dirty = true;
        proof {
            let n = m.splice(start as int, end as int, ins@, cursor);
            assert(self@.undo =~= n.undo);
            assert(self@ =~= n);
            assert(self.text@.len() == self.text.len());
            lemma_splice_ok(m, start as int, end as int, ins@, cursor);
        }
    }

    /// Puts `ins` in at `pos`.
    pub fn insert(&mut self, pos: usize, ins: &[u8], cursor: usize)
        requires
            old(self).wf(),
            pos <= old(self)@.text.len(),
            valid_utf8(ins@),
        ensures
            final(self).wf(),
            final(self)@ == old(self)@.insert(pos as int, ins@, cursor),
    {
        self.replace(pos, pos, ins, cursor);
    }

    /// Takes the text from `start` to `end` out.
    pub fn delete(&mut self, start: usize, end: usize, cursor: usize)
        requires
            old(self).wf(),
            start <= end <= old(self)@.text.len(),
        ensures
            final(self).wf(),
            final(self)@ == old(self)@.delete(start as int, end as int, cursor),
    {
        let none: Vec<u8> = Vec::new();
        assert(none@ =~= Seq::<u8>::empty());
        self.replace(start, end, none.as_slice(), cursor);
    }

    /// Takes the last change back. Returns where the cursor stood before it, or
    /// the nearest place before that at which a cursor can stand.
    pub fn undo(&mut self) -> (r: Option<usize>)
        requires
            old(self).wf(),
        ensures
            final(self).wf(),
            final(self)@ == old(self)@.undone(),
            match r {
                Some(c) => old(self)@.undo.len() > 0 && c == floor_boundary(
                    final(self)@.text,
                    old(self)@.undo.last().cursor as int,
                ) && boundary(final(self)@.text, c as int),
                None => old(self)@.undo.len() == 0,
            },
    {
        let ghost m = self@;
        match self.undo_stack.pop() {
            Some(e) => {
                let ghost er = e@;
                assert(m.undo.last() == er);
                let text: Vec<u8> = splice_bytes(
                    self.text.as_slice(),
                    e.at,
                    e.at + e.added.len(),
                    e.removed.as_slice(),
                );
                let cursor: usize = if e.cursor < text.len() {
                    floor_to_boundary(text.as_slice(), e.cursor)
                } else {
                    text.len()
                };
                self.tree = SyntaxTree::parse(text.as_slice());
                self.text = text;
                self.redo_stack.push(e);
                self.version = self.version.wrapping_add(1);
                self.dirty = true;
                proof {
                    let n = m.undone();
                    assert(self@.undo =~= n.undo);
                    assert(self@.redo =~= n.redo);
                    assert(self@ =~= n);
                    assert(self.text@.len() == self.text.len());
                    lemma_stands(m.text, er.at as int, er.added, er.removed);
                    assert(applied(n.text, er) == m.text);
                    assert(n.redo.last() == er);
                    assert(n.redo.drop_last() =~= m.redo);
                    assert(undo_ok(n.text, n.undo));
                    assert(redo_ok(n.text, n.redo));
                }
                Some(cursor)
            },
            None => {
                assert(m.undo =~= seq![]);
                assert(self@ =~= m);
                None
            },
        }
    }

    /// Makes the last change again that was taken back. Returns the offset
    /// just after it.
    pub fn redo(&mut self) -> (r: Option<usize>)
        requires
            old(self).wf(),
        ensures
            final(self).wf(),
            final(self)@ == old(self)@.redone(),
            match r {
                Some(c) => old(self)@.redo.len() > 0 && c == old(self)@.redo.last().at
                    + old(self)@.redo.last().added.len() && boundary(
                    final(self)@.text,
                    c as int,
                ),
                None => old(self)@.redo.len() == 0,
            },
    {
        let ghost m = self@;
        match self.redo_stack.pop() {
            Some(e) => {
                let ghost er = e@;
                assert(m.redo.last() == er);
                let text: Vec<u8> = splice_bytes(
                    self.text.as_slice(),
                    e.at,
                    e.at + e.removed.len(),
                    e.added.as_slice(),
                );
                proof {
                    lemma_stands(m.text, er.at as int, er.removed, er.added);
                    assert(text@.len() == text.len());
                }
                let cursor: usize = e.at + e.added.len();
                self.tree = SyntaxTree::parse(text.as_slice());
                self.text = text;
                self.undo_stack.push(e);
                self.version = self.version.wrapping_add(1);
                self.dirty = true;
                proof {
                    let n = m.redone();
                    assert(self@.undo =~= n.undo);
                    assert(self@.redo =~= n.redo);
                    assert(self@ =~= n);
                    assert(self.text@.len() == self.text.len());
                    assert(reverted(n.text, er) == m.text);
                    assert(n.undo.last() == er);
                    assert(n.undo.drop_last() =~= m.undo);
                    assert(redo_ok(n.text, n.redo));
                    assert(undo_ok(n.text, n.undo));
                }
                Some(cursor)
            },
            None => {
                assert(m.redo =~= seq![]);
                assert(self@ =~= m);
                None
            },
        }
    }

    /// Whether a change can be taken back.
    pub fn can_undo(&self) -> (r: bool)
        ensures
            r == (self@.undo.len() > 0),
    {
        self.undo_stack.len() > 0
    }

    /// Whether a change can be made again.
    pub fn can_redo(&self) -> (r: bool)
        ensures
            r == (self@.redo.len() > 0),
    {
        self.redo_stack.len() > 0
    }

    /// Whether the text has changed since it was last marked clean.
    pub fn is_dirty(&self) -> (r: bool)
        ensures
            r == self@.dirty,
    {
        self.dirty
    }

    /// Marks the text as saved.
    pub fn mark_clean(&mut self)
        requires
            old(self).wf(),
        ensures
            final(self).wf(),
            final(self)@ == (BufferModel { dirty: false, ..old(self)@ }),
    {
        self.dirty = false;
    }

    /// A number that changes with every change of the text.
    pub fn version(&self) -> (r: u64)
        ensures
            r == self@.version,
    {
        self.version
    }
}

/// Every change of the text, taken back or made again too, is noted: the buffer has
/// what was not saved, and another version.
pub proof fn law_changes_are_noted(b: BufferModel, start: int, end: int, ins: Seq<u8>, cursor: usize)
    ensures
        b.splice(start, end, ins, cursor).dirty,
        b.splice(start, end, ins, cursor).version != b.version,
        b.splice(start, end, ins, cursor).redo.len() == 0,
        b.splice(start, end, ins, cursor).undo.len() == b.undo.len() + 1,
        b.undo.len() > 0 ==> b.undone().dirty && b.undone().version != b.version,
        b.redo.len() > 0 ==> b.redone().dirty && b.redone().version != b.version,
{
}

} // verus!
