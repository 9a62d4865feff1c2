//! The markers that open a line of Markdown: quotes, list bullets, task boxes,
//! headings, code fences and indentation.

use vstd::prelude::*;
use vstd::utf8::*;

use crate::number::{decimal, digit, digits_end, digits_value, read_number, skip_digits, write_number};
use crate::text::{
    boundary, lemma_ascii_valid, lemma_piece_end, lemma_pieces_valid, push_bytes, slice_bytes,
    spaces, spaces_of, SPACE,
};

verus! {

/// A range of bytes.
#[derive(Clone, Copy, Debug, PartialEq, Eq, Structural)]
pub struct Span {
    pub start: usize,
    pub end: usize,
}

#[derive(Clone, Copy, Debug, PartialEq, Eq, Structural)]
pub enum UnorderedMarker {
    Minus,
    Star,
    Plus,
}

#[derive(Clone, Copy, Debug, PartialEq, Eq, Structural)]
pub enum OrderedMarker {
    Dot,
    Parenthesis,
}

/// What a marker is.
#[derive(Clone, Debug)]
pub enum MarkerKind {
    BlockQuote,
    ListItem {
        ordered: bool,
        unordered_marker: Option<UnorderedMarker>,
        ordered_marker: Option<OrderedMarker>,
        number: Option<u32>,
    },
    Checkbox { checked: bool },
    CodeBlockFence { language: Option<String>, is_opening: bool },
    Heading(u8),
    Indent,
}

/// What a marker is, as contracts speak of it: a fence's language is given by
/// its bytes.
pub enum KindModel {
    BlockQuote,
    ListItem {
        ordered: bool,
        unordered_marker: Option<UnorderedMarker>,
        ordered_marker: Option<OrderedMarker>,
        number: Option<u32>,
    },
    Checkbox { checked: bool },
    CodeBlockFence { language: Option<Seq<u8>>, is_opening: bool },
    Heading(u8),
    Indent,
}

impl View for MarkerKind {
    type V = KindModel;

    open spec fn view(&self) -> KindModel {
        match self {
            MarkerKind::BlockQuote => KindModel::BlockQuote,
            MarkerKind::ListItem { ordered, unordered_marker, ordered_marker, number } =>
                KindModel::ListItem {
                ordered: *ordered,
                unordered_marker: *unordered_marker,
                ordered_marker: *ordered_marker,
                number: *number,
            },
            MarkerKind::Checkbox { checked } => KindModel::Checkbox { checked: *checked },
            MarkerKind::CodeBlockFence { language, is_opening } => KindModel::CodeBlockFence {
                language: match language {
                    Some(l) => Some(encode_utf8(l@)),
                    None => None,
                },
                is_opening: *is_opening,
            },
            MarkerKind::Heading(level) => KindModel::Heading(*level),
            MarkerKind::Indent => KindModel::Indent,
        }
    }
}

/// A marker and where it stands.
#[derive(Clone, Debug)]
pub struct Marker {
    pub kind: MarkerKind,
    pub range: Span,
}

/// A marker and where it stands, as contracts speak of it.
pub struct MarkerModel {
    pub kind: KindModel,
    pub range: Span,
}

impl View for Marker {
    type V = MarkerModel;

    open spec fn view(&self) -> MarkerModel {
        MarkerModel { kind: self.kind@, range: self.range }
    }
}

/// A line and the markers that open it.
#[derive(Clone, Debug)]
pub struct LineMarkers {
    /// The line without its newline.
    pub range: Span,
    pub markers: Vec<Marker>,
}

/// A line and its markers, as contracts speak of it.
#[verifier::ext_equal]
pub struct LineModel {
    pub range: Span,
    pub markers: Seq<MarkerModel>,
}

impl View for LineMarkers {
    type V = LineModel;

    open spec fn view(&self) -> LineModel {
        LineModel { range: self.range, markers: self.markers@.map_values(|m: Marker| m@) }
    }
}

/// Whether a range lies in the text and is cut at character boundaries.
pub open spec fn span_ok(text: Seq<u8>, s: Span) -> bool {
    &&& s.start <= s.end <= text.len()
    &&& boundary(text, s.start as int)
    &&& boundary(text, s.end as int)
}

pub open spec fn is_fence_kind(k: KindModel) -> bool {
    k is CodeBlockFence
}

pub open spec fn is_list_kind(k: KindModel) -> bool {
    k is ListItem
}

pub open spec fn is_quote_kind(k: KindModel) -> bool {
    k is BlockQuote
}

/// The state of the first task box among the first `n` markers.
pub open spec fn first_checkbox(markers: Seq<MarkerModel>, n: int) -> Option<bool>
    decreases n,
{
    if n <= 0 {
        None
    } else {
        match first_checkbox(markers, n - 1) {
            Some(c) => Some(c),
            None => match markers[n - 1].kind {
                KindModel::Checkbox { checked } => Some(checked),
                _ => None,
            },
        }
    }
}

impl LineModel {
    /// The line and its markers lie in the text, in order.
    pub open spec fn ok(self, text: Seq<u8>) -> bool {
        &&& span_ok(text, self.range)
        &&& forall|i: int|
            0 <= i < self.markers.len() ==> span_ok(text, (#[trigger] self.markers[i]).range)
                && self.range.start <= self.markers[i].range.start && self.markers[i].range.end
                <= self.range.end
    }

    /// Whether some marker is a code fence.
    pub open spec fn fence(self) -> bool {
        exists|i: int| 0 <= i < self.markers.len() && is_fence_kind(#[trigger] self.markers[i].kind)
    }

    /// Whether some marker is a list bullet.
    pub open spec fn list(self) -> bool {
        exists|i: int| 0 <= i < self.markers.len() && is_list_kind(#[trigger] self.markers[i].kind)
    }

    /// Whether some marker is a quote.
    pub open spec fn quote(self) -> bool {
        exists|i: int| 0 <= i < self.markers.len() && is_quote_kind(#[trigger] self.markers[i].kind)
    }

    /// Whether a quote marker covers byte `i`.
    pub open spec fn quote_at(self, i: int) -> bool {
        exists|k: int|
            0 <= k < self.markers.len() && is_quote_kind((#[trigger] self.markers[k]).kind)
                && self.markers[k].range.start <= i < self.markers[k].range.end
    }

    /// Whether the line has markers, quotes all of them.
    pub open spec fn quote_only(self) -> bool {
        &&& self.markers.len() > 0
        &&& forall|i: int|
            0 <= i < self.markers.len() ==> is_quote_kind(#[trigger] self.markers[i].kind)
    }

    /// From the first marker's start to the last marker's end.
    pub open spec fn span(self) -> Option<Span> {
        if self.markers.len() == 0 {
            None
        } else {
            Some(Span { start: self.markers[0].range.start, end: self.markers.last().range.end })
        }
    }

    /// Where the text after the markers starts.
    pub open spec fn content(self) -> usize {
        if self.markers.len() == 0 {
            self.range.start
        } else {
            self.markers.last().range.end
        }
    }

    /// The state of the line's task box.
    pub open spec fn task(self) -> Option<bool> {
        first_checkbox(self.markers, self.markers.len() as int)
    }
}

// ---------------------------------------------------------------------------
// Ordered list markers
// ---------------------------------------------------------------------------

/// The number that follows `n`; it wraps at the end.
pub open spec fn bumped(n: nat) -> nat {
    if n >= usize::MAX {
        0
    } else {
        n + 1
    }
}

/// The number that opens an ordered marker; 1 when it is too large to hold.
pub open spec fn marker_number(m: Seq<u8>) -> nat {
    let v = digits_value(m.subrange(0, digits_end(m, 0, m.len() as int)));
    if v > usize::MAX {
        1
    } else {
        v
    }
}

/// The marker of the item after one marked `m`: `"2. "` after `"1. "`.
pub open spec fn incremented(m: Seq<u8>) -> Seq<u8> {
    let k = digits_end(m, 0, m.len() as int);
    if k == 0 {
        m
    } else {
        decimal(bumped(marker_number(m))) + m.subrange(k, m.len() as int)
    }
}

/// The marker of the first item of a list like one marked `m`: `"1. "` for
/// `"7. "`.
pub open spec fn restarted(m: Seq<u8>) -> Seq<u8> {
    let k = digits_end(m, 0, m.len() as int);
    if k == 0 {
        m
    } else {
        seq![49u8] + m.subrange(k, m.len() as int)
    }
}

pub proof fn lemma_after_digits(m: Seq<u8>, k: int)
    requires
        valid_utf8(m),
        0 <= k <= m.len(),
        forall|j: int| 0 <= j < k ==> digit(m[j]),
    ensures
        valid_utf8(m.subrange(k, m.len() as int)),
{
    lemma_ascii_valid(m.subrange(0, k));
    lemma_piece_end(m, 0, k);
    lemma_pieces_valid(m, k, m.len() as int);
}

/// The marker of the next item of an ordered list.
pub fn increment_ordered_marker(marker: &[u8]) -> (r: Vec<u8>)
    requires
        valid_utf8(marker@),
    ensures
        r@ == incremented(marker@),
        valid_utf8(r@),
{
    let k: usize = skip_digits(marker, 0, marker.len());
    if k == 0 {
        return vstd::slice::slice_to_vec(marker);
    }
    let n: u64 = match read_number(marker, 0, k, usize::MAX as u64) {
        Some(v) => v,
        None => 1,
    };
    let next: usize = (n as usize).wrapping_add(1);
    let mut out: Vec<u8> = write_number(next as u64);
    let rest: Vec<u8> = slice_bytes(marker, k, marker.len());
    proof {
        lemma_after_digits(marker@, k as int);
        valid_utf8_concat(out@, rest@);
    }
    push_bytes(&mut out, rest.as_slice());
    out
}

/// The marker of the first item of a nested ordered list.
pub fn reset_ordered_marker(marker: &[u8]) -> (r: Vec<u8>)
    requires
        valid_utf8(marker@),
    ensures
        r@ == restarted(marker@),
        valid_utf8(r@),
{
    let k: usize = skip_digits(marker, 0, marker.len());
    if k == 0 {
        return vstd::slice::slice_to_vec(marker);
    }
    let mut out: Vec<u8> = Vec::new();
    out.push(49);
    let rest: Vec<u8> = slice_bytes(marker, k, marker.len());
    proof {
        assert(out@ =~= seq![49u8]);
        lemma_ascii_valid(out@);
        lemma_after_digits(marker@, k as int);
        valid_utf8_concat(out@, rest@);
    }
    push_bytes(&mut out, rest.as_slice());
    out
}

// ---------------------------------------------------------------------------
// What a line's markers ask of the next line
// ---------------------------------------------------------------------------

/// An empty task box and the space after it.
pub open spec fn empty_box() -> Seq<u8> {
    seq![91u8, 32u8, 93u8, 32u8]
}

/// What continues a marker on the next line.
pub open spec fn continued(text: Seq<u8>, m: MarkerModel) -> Seq<u8> {
    let own = text.subrange(m.range.start as int, m.range.end as int);
    match m.kind {
        KindModel::BlockQuote => own,
        KindModel::Indent => own,
        KindModel::ListItem { ordered, .. } => if ordered {
            incremented(own)
        } else {
            own
        },
        KindModel::Checkbox { .. } => empty_box(),
        _ => Seq::<u8>::empty(),
    }
}

/// What continues the first `n` markers on the next line.
pub open spec fn continuation(text: Seq<u8>, markers: Seq<MarkerModel>, n: int) -> Seq<u8>
    decreases n,
{
    if n <= 0 {
        Seq::<u8>::empty()
    } else {
        continuation(text, markers, n - 1) + continued(text, markers[n - 1])
    }
}

/// What indents a paragraph under a marker.
pub open spec fn indented(text: Seq<u8>, m: MarkerModel) -> Seq<u8> {
    let own = text.subrange(m.range.start as int, m.range.end as int);
    match m.kind {
        KindModel::BlockQuote => own,
        KindModel::Indent => own,
        KindModel::ListItem { .. } => spaces_of((m.range.end - m.range.start) as nat),
        _ => Seq::<u8>::empty(),
    }
}

/// What indents a paragraph under the first `n` markers.
pub open spec fn paragraph_indent(text: Seq<u8>, markers: Seq<MarkerModel>, n: int) -> Seq<u8>
    decreases n,
{
    if n <= 0 {
        Seq::<u8>::empty()
    } else {
        paragraph_indent(text, markers, n - 1) + indented(text, markers[n - 1])
    }
}

/// The bytes of an empty task box and the space after it.
fn empty_box_bytes() -> (r: Vec<u8>)
    ensures
        r@ == empty_box(),
        valid_utf8(r@),
{
    let mut v: Vec<u8> = Vec::new();
    v.push(91);
    v.push(SPACE);
    v.push(93);
    v.push(SPACE);
    proof {
        assert(v@ =~= empty_box());
        lemma_ascii_valid(v@);
    }
    v
}

impl LineMarkers {
    /// Whether the line opens or closes a code block.
    pub fn is_fence(&self) -> (r: bool)
        ensures
            r == self@.fence(),
    {
        let mut i: usize = 0;
        while i < self.markers.len()
            invariant
                i <= self.markers@.len(),
                forall|j: int| 0 <= j < i ==> !is_fence_kind(#[trigger] self@.markers[j].kind),
            decreases self.markers@.len() - i,
        {
            assert(self@.markers[i as int] == self.markers@[i as int]@);
            match &self.markers[i].kind {
                MarkerKind::CodeBlockFence { .. } => {
                    assert(is_fence_kind(self@.markers[i as int].kind));
                    return true;
                },
                _ => {},
            }
            i = i + 1;
        }
        false
    }

    /// Whether the line has a list bullet.
    pub fn has_list(&self) -> (r: bool)
        ensures
            r == self@.list(),
    {
        let mut i: usize = 0;
        while i < self.markers.len()
            invariant
                i <= self.markers@.len(),
                forall|j: int| 0 <= j < i ==> !is_list_kind(#[trigger] self@.markers[j].kind),
            decreases self.markers@.len() - i,
        {
            assert(self@.markers[i as int] == self.markers@[i as int]@);
            match &self.markers[i].kind {
                MarkerKind::ListItem { .. } => {
                    assert(is_list_kind(self@.markers[i as int].kind));
                    return true;
                },
                _ => {},
            }
            i = i + 1;
        }
        false
    }

    /// Whether the line has a quote marker.
    pub fn has_quote(&self) -> (r: bool)
        ensures
            r == self@.quote(),
    {
        let mut i: usize = 0;
        while i < self.markers.len()
            invariant
                i <= self.markers@.len(),
                forall|j: int| 0 <= j < i ==> !is_quote_kind(#[trigger] self@.markers[j].kind),
            decreases self.markers@.len() - i,
        {
            assert(self@.markers[i as int] == self.markers@[i as int]@);
            match &self.markers[i].kind {
                MarkerKind::BlockQuote => {
                    assert(is_quote_kind(self@.markers[i as int].kind));
                    return true;
                },
                _ => {},
            }
            i = i + 1;
        }
        false
    }

    /// Whether a quote marker covers byte `at`.
    pub fn has_quote_at(&self, at: usize) -> (r: bool)
        ensures
            r == self@.quote_at(at as int),
    {
        let mut i: usize = 0;
        while i < self.markers.len()
            invariant
                i <= self.markers@.len(),
                forall|j: int|
                    0 <= j < i ==> !(is_quote_kind((#[trigger] self@.markers[j]).kind)
                        && self@.markers[j].range.start <= at < self@.markers[j].range.end),
            decreases self.markers@.len() - i,
        {
            assert(self@.markers[i as int] == self.markers@[i as int]@);
            let range: Span = self.markers[i].range;
            match &self.markers[i].kind {
                MarkerKind::BlockQuote => {
                    assert(is_quote_kind(self@.markers[i as int].kind));
                    if range.start <= at && at < range.end {
                        return true;
                    }
                },
                _ => {},
            }
            i = i + 1;
        }
        false
    }

    /// Whether the line stands in a quote or a list.
    pub fn has_container(&self) -> (r: bool)
        ensures
            r == (self@.quote() || self@.list()),
    {
        self.has_quote() || self.has_list()
    }

    /// Whether the line has markers and all of them are quotes.
    pub fn is_blockquote_only(&self) -> (r: bool)
        ensures
            r == self@.quote_only(),
    {
        if self.markers.len() == 0 {
            return false;
        }
        let mut i: usize = 0;
        while i < self.markers.len()
            invariant
                i <= self.markers@.len(),
                forall|j: int| 0 <= j < i ==> is_quote_kind(#[trigger] self@.markers[j].kind),
            decreases self.markers@.len() - i,
        {
            assert(self@.markers[i as int] == self.markers@[i as int]@);
            match &self.markers[i].kind {
                MarkerKind::BlockQuote => {},
                _ => {
                    assert(!is_quote_kind(self@.markers[i as int].kind));
                    return false;
                },
            }
            i = i + 1;
        }
        true
    }

    /// From the first marker's start to the last marker's end.
    pub fn marker_range(&self) -> (r: Option<Span>)
        ensures
            r == self@.span(),
    {
        let n: usize = self.markers.len();
        if n == 0 {
            None
        } else {
            assert(self@.markers[0] == self.markers@[0]@);
            assert(self@.markers[n - 1] == self.markers@[n - 1]@);
            Some(Span { start: self.markers[0].range.start, end: self.markers[n - 1].range.end })
        }
    }

    /// Where the text after the markers starts.
    pub fn content_start(&self) -> (r: usize)
        ensures
            r == self@.content(),
    {
        match self.marker_range() {
            Some(s) => s.end,
            None => self.range.start,
        }
    }

    /// The state of the line's task box, if it has one.
    pub fn checkbox(&self) -> (r: Option<bool>)
        ensures
            r == self@.task(),
    {
        let mut i: usize = 0;
        while i < self.markers.len()
            invariant
                i <= self.markers@.len(),
                first_checkbox(self@.markers, i as int) is None,
            decreases self.markers@.len() - i,
        {
            assert(self@.markers[i as int] == self.markers@[i as int]@);
            match &self.markers[i].kind {
                MarkerKind::Checkbox { checked } => {
                    let c: bool = *checked;
                    proof {
                        lemma_first_checkbox_stays(
                            self@.markers,
                            i + 1,
                            self@.markers.len() as int,
                            c,
                        );
                    }
                    return Some(c);
                },
                _ => {},
            }
            i = i + 1;
        }
        None
    }

    /// What continues the line's markers on the next line.
    pub fn continuation(&self, text: &[u8]) -> (r: Vec<u8>)
        requires
            valid_utf8(text@),
            self@.ok(text@),
        ensures
            r@ == continuation(text@, self@.markers, self@.markers.len() as int),
            valid_utf8(r@),
    {
        let mut out: Vec<u8> = Vec::new();
        let mut i: usize = 0;
        assert(out@ =~= Seq::<u8>::empty());
        while i < self.markers.len()
            invariant
                i <= self.markers@.len(),
                valid_utf8(text@),
                self@.ok(text@),
                valid_utf8(out@),
                out@ == continuation(text@, self@.markers, i as int),
            decreases self.markers@.len() - i,
        {
            let m: &Marker = &self.markers[i];
            assert(self@.markers[i as int] == m@);
            assert(span_ok(text@, m.range));
            let own: Vec<u8> = slice_bytes(text, m.range.start, m.range.end);
            proof {
                lemma_pieces_valid(text@, m.range.start as int, m.range.end as int);
            }
            let piece: Vec<u8> = match &m.kind {
                MarkerKind::BlockQuote => own,
                MarkerKind::Indent => own,
                MarkerKind::ListItem { ordered, .. } => if *ordered {
                    increment_ordered_marker(own.as_slice())
                } else {
                    own
                },
                MarkerKind::Checkbox { .. } => empty_box_bytes(),
                _ => Vec::new(),
            };
            assert(piece@ =~= continued(text@, m@));
            proof {
                valid_utf8_concat(out@, piece@);
            }
            push_bytes(&mut out, piece.as_slice());
            i = i + 1;
        }
        out
    }

    /// What indents a paragraph under the line's markers.
    pub fn nested_paragraph_indent(&self, text: &[u8]) -> (r: Vec<u8>)
        requires
            valid_utf8(text@),
            self@.ok(text@),
        ensures
            r@ == paragraph_indent(text@, self@.markers, self@.markers.len() as int),
            valid_utf8(r@),
    {
        let mut out: Vec<u8> = Vec::new();
        let mut i: usize = 0;
        assert(out@ =~= Seq::<u8>::empty());
        while i < self.markers.len()
            invariant
                i <= self.markers@.len(),
                valid_utf8(text@),
                self@.ok(text@),
                valid_utf8(out@),
                out@ == paragraph_indent(text@, self@.markers, i as int),
            decreases self.markers@.len() - i,
        {
            let m: &Marker = &self.markers[i];
            assert(self@.markers[i as int] == m@);
            assert(span_ok(text@, m.range));
            proof {
                lemma_pieces_valid(text@, m.range.start as int, m.range.end as int);
            }
            let piece: Vec<u8> = match &m.kind {
                MarkerKind::BlockQuote => slice_bytes(text, m.range.start, m.range.end),
                MarkerKind::Indent => slice_bytes(text, m.range.start, m.range.end),
                MarkerKind::ListItem { .. } => spaces(m.range.end - m.range.start),
                _ => Vec::new(),
            };
            assert(piece@ =~= indented(text@, m@));
            proof {
                valid_utf8_concat(out@, piece@);
            }
            push_bytes(&mut out, piece.as_slice());
            i = i + 1;
        }
        out
    }
}

proof fn lemma_first_checkbox_stays(markers: Seq<MarkerModel>, n: int, m: int, c: bool)
    requires
        0 <= n <= m,
        first_checkbox(markers, n) == Some(c),
    ensures
        first_checkbox(markers, m) == Some(c),
    decreases m,
{
    if n < m {
        lemma_first_checkbox_stays(markers, n, m - 1, c);
    }
}

/// The item after the one numbered `n` is numbered `n + 1`, with the same mark
/// after the number.
pub proof fn law_next_item_is_numbered_on(n: nat, rest: Seq<u8>)
    requires
        n < usize::MAX,
        rest.len() > 0 ==> !digit(rest[0]),
    ensures
        incremented(decimal(n) + rest) == decimal(n + 1) + rest,
{
    let m = decimal(n) + rest;
    let k = decimal(n).len() as int;
    crate::number::lemma_decimal_value(n);
    lemma_digits_end_is(m, 0, k, m.len() as int);
    assert(m.subrange(0, k) =~= decimal(n));
    assert(m.subrange(k, m.len() as int) =~= rest);
}

/// A nested list starts at number one, with the same mark after the number.
pub proof fn law_nested_list_starts_at_one(n: nat, rest: Seq<u8>)
    requires
        rest.len() > 0 ==> !digit(rest[0]),
    ensures
        restarted(decimal(n) + rest) == decimal(1) + rest,
{
    let m = decimal(n) + rest;
    let k = decimal(n).len() as int;
    crate::number::lemma_decimal_value(n);
    lemma_digits_end_is(m, 0, k, m.len() as int);
    assert(m.subrange(k, m.len() as int) =~= rest);
    assert(decimal(1) =~= seq![49u8]);
}

proof fn lemma_digits_end_is(m: Seq<u8>, i: int, k: int, end: int)
    requires
        0 <= i <= k <= end <= m.len(),
        forall|j: int| i <= j < k ==> digit(#[trigger] m[j]),
        k < end ==> !digit(m[k]),
    ensures
        digits_end(m, i, end) == k,
    decreases k - i,
{
    if i < k {
        lemma_digits_end_is(m, i + 1, k, end);
    }
}

} // verus!
