//! Lines of a text. Lines are separated by `\n`; a text with `n` newlines has
//! `n + 1` lines, and a line's range leaves its newline out.

use vstd::prelude::*;
use vstd::utf8::*;

use crate::buffer::spliced;
use crate::text::{
    boundary, find_byte, find_byte_from, lemma_after_ascii, lemma_find_byte, NEWLINE,
};

verus! {

/// The number of the line that holds offset `off`: the newlines before it.
pub open spec fn line_of(s: Seq<u8>, off: int) -> int
    decreases off,
{
    if off <= 0 {
        0
    } else if off <= s.len() && s[off - 1] == NEWLINE {
        line_of(s, off - 1) + 1
    } else {
        line_of(s, off - 1)
    }
}

/// How many lines `s` has.
pub open spec fn line_total(s: Seq<u8>) -> int {
    line_of(s, s.len() as int) + 1
}

/// Where line `n` starts; the end of `s` when there is no such line.
pub open spec fn line_start(s: Seq<u8>, n: int) -> int
    decreases n,
{
    if n <= 0 {
        0
    } else {
        let e = find_byte(s, NEWLINE, line_start(s, n - 1));
        if e < s.len() {
            e + 1
        } else {
            s.len() as int
        }
    }
}

/// Where the line that holds offset `off` starts.
pub open spec fn line_begin(s: Seq<u8>, off: int) -> int
    decreases off,
{
    if off <= 0 {
        0
    } else if off <= s.len() && s[off - 1] == NEWLINE {
        off
    } else {
        line_begin(s, off - 1)
    }
}

/// Where the line that holds offset `off` ends, before its newline.
pub open spec fn line_finish(s: Seq<u8>, off: int) -> int {
    find_byte(s, NEWLINE, off)
}

/// The text of a line, without its newline.
pub open spec fn line_text(s: Seq<u8>, n: int) -> Seq<u8> {
    let start = line_start(s, n);
    s.subrange(start, line_finish(s, start))
}

pub proof fn lemma_find_byte_is(s: Seq<u8>, b: u8, i: int, k: int)
    requires
        0 <= i <= k <= s.len(),
        k < s.len() ==> s[k] == b,
        forall|j: int| i <= j < k ==> s[j] != b,
    ensures
        find_byte(s, b, i) == k,
{
    lemma_find_byte(s, b, i);
}

/// The start of an offset's line: where its line number starts, not after the
/// offset, with no newline in between.
pub proof fn lemma_line_begin(s: Seq<u8>, off: int)
    requires
        0 <= off <= s.len(),
    ensures
        line_start(s, line_of(s, off)) == line_begin(s, off),
        0 <= line_begin(s, off) <= off,
        line_of(s, off) >= 0,
        line_begin(s, off) == 0 || s[line_begin(s, off) - 1] == NEWLINE,
        forall|j: int| line_begin(s, off) <= j < off ==> s[j] != NEWLINE,
    decreases off,
{
    if off > 0 {
        lemma_line_begin(s, off - 1);
        if s[off - 1] == NEWLINE {
            lemma_find_byte_is(s, NEWLINE, line_begin(s, off - 1), off - 1);
        }
    }
}

/// Every offset from a line's start to its end has that line's end.
pub proof fn lemma_line_finish(s: Seq<u8>, off: int)
    requires
        0 <= off <= s.len(),
    ensures
        line_finish(s, line_begin(s, off)) == line_finish(s, off),
        off <= line_finish(s, off) <= s.len(),
{
    lemma_line_begin(s, off);
    lemma_find_byte(s, NEWLINE, off);
    lemma_find_byte_is(s, NEWLINE, line_begin(s, off), line_finish(s, off));
}

pub proof fn lemma_line_start_bound(s: Seq<u8>, n: int)
    ensures
        0 <= line_start(s, n) <= s.len(),
    decreases n,
{
    if n > 0 {
        lemma_line_start_bound(s, n - 1);
        lemma_find_byte(s, NEWLINE, line_start(s, n - 1));
    }
}

/// Later lines do not start before earlier ones.
pub proof fn lemma_line_start_monotone(s: Seq<u8>, a: int, b: int)
    requires
        a <= b,
    ensures
        0 <= line_start(s, a) <= line_start(s, b) <= s.len(),
    decreases b - a,
{
    lemma_line_start_bound(s, a);
    lemma_line_start_bound(s, b);
    if a < b {
        lemma_line_start_monotone(s, a, b - 1);
        lemma_line_start_bound(s, b - 1);
        lemma_find_byte(s, NEWLINE, line_start(s, b - 1));
    }
}

/// Lines start at character boundaries.
pub proof fn lemma_line_start_boundary(s: Seq<u8>, n: int)
    requires
        valid_utf8(s),
    ensures
        boundary(s, line_start(s, n)),
    decreases n,
{
    if n > 0 {
        lemma_line_start_bound(s, n - 1);
        let p = line_start(s, n - 1);
        lemma_find_byte(s, NEWLINE, p);
        let e = find_byte(s, NEWLINE, p);
        if e < s.len() {
            lemma_after_ascii(s, e + 1);
        }
    }
}

/// Lines end at character boundaries.
pub proof fn lemma_line_finish_boundary(s: Seq<u8>, off: int)
    requires
        0 <= off <= s.len(),
    ensures
        boundary(s, line_finish(s, off)),
{
    lemma_find_byte(s, NEWLINE, off);
}

/// Past the last line, every line starts at the end.
proof fn lemma_line_start_past(s: Seq<u8>, k: int, n: int)
    requires
        0 <= k < n,
        find_byte(s, NEWLINE, line_start(s, k)) >= s.len(),
    ensures
        line_start(s, n) == s.len(),
    decreases n,
{
    if k < n - 1 {
        lemma_line_start_past(s, k, n - 1);
    }
}

/// Line numbers do not decrease from left to right.
pub proof fn lemma_line_of_monotone(s: Seq<u8>, a: int, b: int)
    requires
        0 <= a <= b,
    ensures
        line_of(s, a) <= line_of(s, b),
    decreases b,
{
    if a < b {
        lemma_line_of_monotone(s, a, b - 1);
    }
}

/// Two offsets of one line with no newline between them have one number.
pub proof fn lemma_line_of_same(s: Seq<u8>, a: int, b: int)
    requires
        0 <= a <= b <= s.len(),
        forall|j: int| a <= j < b ==> s[j] != NEWLINE,
    ensures
        line_of(s, a) == line_of(s, b),
    decreases b,
{
    if a < b {
        lemma_line_of_same(s, a, b - 1);
    }
}

/// An offset on an earlier line lies before the later line's start.
pub proof fn lemma_earlier_line(s: Seq<u8>, a: int, b: int)
    requires
        0 <= a <= s.len(),
        0 <= b <= s.len(),
        line_of(s, a) < line_of(s, b),
    ensures
        line_finish(s, a) < line_begin(s, b),
{
    lemma_line_begin(s, b);
    lemma_line_finish(s, a);
    lemma_find_byte(s, NEWLINE, a);
    let e = line_finish(s, a);
    if e >= line_begin(s, b) {
        if a <= b {
            assert forall|j: int| a <= j < b implies s[j] != NEWLINE by {
                if j < e {
                } else {
                    assert(line_begin(s, b) <= j);
                }
            }
            lemma_line_of_same(s, a, b);
        } else {
            lemma_line_of_monotone(s, b, a);
        }
    }
}

/// The line number of an offset; offsets past the end count as the end.
pub fn byte_to_line(s: &[u8], off: usize) -> (r: usize)
    ensures
        r == line_of(s@, off as int),
        r <= off,
{
    let mut n: usize = 0;
    let mut i: usize = 0;
    while i < off && i < s.len()
        invariant
            i <= off,
            i <= s@.len(),
            n <= i,
            n == line_of(s@, i as int),
        decreases s@.len() - i,
    {
        if s[i] == NEWLINE {
            n = n + 1;
        }
        i = i + 1;
    }
    proof {
        lemma_line_of_past(s@, i as int, off as int);
    }
    n
}

proof fn lemma_line_of_past(s: Seq<u8>, a: int, b: int)
    requires
        0 <= a <= b,
        a == b || a == s.len(),
    ensures
        line_of(s, a) == line_of(s, b),
    decreases b,
{
    if a < b {
        lemma_line_of_past(s, a, b - 1);
    }
}

/// Where a line starts; the end of the text when there is no such line.
pub fn line_to_byte(s: &[u8], line: usize) -> (r: usize)
    ensures
        r == line_start(s@, line as int),
        r <= s@.len(),
{
    let mut pos: usize = 0;
    let mut i: usize = 0;
    while i < line
        invariant
            i <= line,
            pos <= s@.len(),
            pos == line_start(s@, i as int),
        decreases line - i,
    {
        let e: usize = find_byte_from(s, NEWLINE, pos);
        if e == s.len() {
            proof {
                lemma_line_start_past(s@, i as int, line as int);
            }
            return s.len();
        }
        pos = e + 1;
        i = i + 1;
    }
    pos
}

/// How many lines the text has.
pub fn line_count(s: &[u8]) -> (r: usize)
    requires
        s@.len() < usize::MAX,
    ensures
        r == line_total(s@),
        r >= 1,
{
    byte_to_line(s, s.len()) + 1
}

/// Texts that agree up to an offset give it the same line number.
pub proof fn lemma_line_of_prefix(s: Seq<u8>, t: Seq<u8>, off: int)
    requires
        0 <= off <= s.len(),
        off <= t.len(),
        forall|i: int| 0 <= i < off ==> s[i] == t[i],
    ensures
        line_of(s, off) == line_of(t, off),
    decreases off,
{
    if off > 0 {
        lemma_line_of_prefix(s, t, off - 1);
    }
}

/// A line number is at most its offset.
pub proof fn lemma_line_of_bound(s: Seq<u8>, off: int)
    requires
        0 <= off,
    ensures
        0 <= line_of(s, off) <= off,
    decreases off,
{
    if off > 0 {
        lemma_line_of_bound(s, off - 1);
    }
}

/// The start and the end of a line are those of every place in it, also of its
/// start and its end.
pub proof fn law_line_ends_are_fixed(s: Seq<u8>, off: int)
    requires
        0 <= off <= s.len(),
    ensures
        line_begin(s, line_begin(s, off)) == line_begin(s, off),
        line_begin(s, line_finish(s, off)) == line_begin(s, off),
        line_finish(s, line_begin(s, off)) == line_finish(s, off),
        line_finish(s, line_finish(s, off)) == line_finish(s, off),
{
    lemma_line_begin(s, off);
    lemma_line_finish(s, off);
    let (b, e) = (line_begin(s, off), line_finish(s, off));
    lemma_find_byte(s, NEWLINE, off);
    assert forall|j: int| b <= j < e implies s[j] != NEWLINE by {
        if j >= off {
        }
    }
    lemma_begin_is(s, b, b);
    lemma_begin_is(s, b, e);
    lemma_line_finish(s, e);
    lemma_find_byte_is(s, NEWLINE, e, e);
}

proof fn lemma_begin_is(s: Seq<u8>, b: int, off: int)
    requires
        0 <= b <= off <= s.len(),
        b == 0 || s[b - 1] == NEWLINE,
        forall|j: int| b <= j < off ==> s[j] != NEWLINE,
    ensures
        line_begin(s, off) == b,
    decreases off,
{
    if b < off {
        lemma_begin_is(s, b, off - 1);
    }
}

// ---------------------------------------------------------------------------
// A text as its lines
// ---------------------------------------------------------------------------

/// Where a line that is there starts and ends.
pub proof fn lemma_line_there(s: Seq<u8>, n: int)
    requires
        0 <= n < line_total(s),
    ensures
        line_of(s, line_start(s, n)) == n,
        0 <= line_start(s, n) <= line_finish(s, line_start(s, n)) <= s.len(),
        line_finish(s, line_start(s, n)) < s.len() <==> n + 1 < line_total(s),
        line_finish(s, line_start(s, n)) < s.len() ==> s[line_finish(s, line_start(s, n))]
            == NEWLINE,
        forall|j: int|
            line_start(s, n) <= j < line_finish(s, line_start(s, n)) ==> s[j] != NEWLINE,
        n > 0 ==> line_start(s, n) == line_finish(s, line_start(s, n - 1)) + 1,
    decreases n,
{
    lemma_line_start_bound(s, n);
    let start = line_start(s, n);
    let e = line_finish(s, start);
    lemma_find_byte(s, NEWLINE, start);
    if n > 0 {
        lemma_line_there(s, n - 1);
        let p = line_start(s, n - 1);
        lemma_line_of_same(s, p, line_finish(s, p));
        assert(line_of(s, line_finish(s, p) + 1) == n);
    }
    lemma_line_of_same(s, start, e);
    if e < s.len() {
        assert(line_of(s, e + 1) == n + 1);
        lemma_line_of_monotone(s, e + 1, s.len() as int);
    }
}

/// Lines that start in the part that two texts share start in the same places.
proof fn lemma_starts_before(s: Seq<u8>, t: Seq<u8>, p: int, n: int)
    requires
        0 <= n < line_total(s),
        line_start(s, n) <= p <= s.len(),
        p <= t.len(),
        forall|j: int| 0 <= j < p ==> s[j] == t[j],
    ensures
        line_start(t, n) == line_start(s, n),
    decreases n,
{
    if n > 0 {
        lemma_line_there(s, n);
        lemma_line_there(s, n - 1);
        lemma_starts_before(s, t, p, n - 1);
        let q = line_start(s, n - 1);
        lemma_find_byte_is(t, NEWLINE, q, line_finish(s, q));
    }
}

/// Lines behind a change move with it.
proof fn lemma_starts_after(s: Seq<u8>, t: Seq<u8>, n: int, q: int, d: int, k: int)
    requires
        0 <= n < k < line_total(s),
        0 <= q <= line_finish(s, line_start(s, n)),
        t.len() == s.len() + d,
        forall|j: int| q <= j < s.len() ==> t[j + d] == s[j],
        line_finish(t, line_start(t, n)) == line_finish(s, line_start(s, n)) + d,
    ensures
        line_start(t, k) == line_start(s, k) + d,
        line_finish(t, line_start(t, k)) == line_finish(s, line_start(s, k)) + d,
    decreases k,
{
    lemma_line_there(s, n);
    lemma_line_there(s, k);
    lemma_line_there(s, k - 1);
    lemma_line_start_monotone(s, n, k - 1);
    if k - 1 > n {
        lemma_starts_after(s, t, n, q, d, k - 1);
        lemma_line_start_monotone(s, n + 1, k - 1);
        lemma_line_there(s, n + 1);
    }
    let start = line_start(s, k);
    let e = line_finish(s, start);
    assert(line_start(t, k) == start + d);
    lemma_line_start_bound(t, k);
    assert forall|j: int| start + d <= j < e + d implies t[j] != NEWLINE by {
        assert(t[j - d + d] == s[j - d]);
    }
    if e < s.len() {
        assert(t[e + d] == s[e]);
    }
    lemma_find_byte_is(t, NEWLINE, start + d, e + d);
}

proof fn lemma_line_of_moved(s: Seq<u8>, t: Seq<u8>, q: int, d: int, j: int)
    requires
        0 <= q <= j <= s.len(),
        0 <= q + d,
        t.len() == s.len() + d,
        forall|i: int| q <= i < s.len() ==> t[i + d] == s[i],
        line_of(t, q + d) == line_of(s, q),
    ensures
        line_of(t, j + d) == line_of(s, j),
    decreases j,
{
    if j > q {
        lemma_line_of_moved(s, t, q, d, j - 1);
        assert(t[j - 1 + d] == s[j - 1]);
    }
}

/// Where the line of a change ends after it, and how many lines there are then.
proof fn lemma_edit_ends(s: Seq<u8>, n: int, a: int, b: int, ins: Seq<u8>)
    requires
        0 <= n < line_total(s),
        line_start(s, n) <= a <= b <= line_finish(s, line_start(s, n)),
        forall|j: int| 0 <= j < ins.len() ==> ins[j] != NEWLINE,
    ensures
        ({
            let t = spliced(s, a, b, ins);
            &&& line_total(t) == line_total(s)
            &&& line_start(t, n) == line_start(s, n)
            &&& line_finish(t, line_start(t, n)) == line_finish(s, line_start(s, n)) + ins.len() - (
            b - a)
            &&& b <= s.len()
        }),
{
    let t = spliced(s, a, b, ins);
    let d = ins.len() - (b - a);
    let start = line_start(s, n);
    let e = line_finish(s, start);
    lemma_line_there(s, n);
    lemma_starts_before(s, t, a, n);
    assert forall|j: int| start <= j < e + d implies t[j] != NEWLINE by {
        if j >= a + ins.len() {
            assert(t[j] == s[j - d]);
        } else if j >= a {
            assert(t[j] == ins[j - a]);
        }
    }
    if e < s.len() {
        assert(t[e + d] == s[e]);
    }
    lemma_find_byte_is(t, NEWLINE, start, e + d);
    lemma_line_of_prefix(s, t, start);
    lemma_line_of_same(s, start, e);
    lemma_line_of_same(t, start, e + d);
    lemma_line_of_moved(s, t, e, d, s.len() as int);
}

/// A line before the change stays.
proof fn lemma_edit_earlier(s: Seq<u8>, t: Seq<u8>, a: int, n: int, k: int)
    requires
        0 <= k < n < line_total(s),
        line_start(s, n) <= a <= s.len(),
        a <= t.len(),
        forall|j: int| 0 <= j < a ==> s[j] == t[j],
    ensures
        line_text(t, k) == line_text(s, k),
{
    lemma_line_there(s, k);
    lemma_line_there(s, k + 1);
    lemma_line_start_monotone(s, k + 1, n);
    lemma_starts_before(s, t, a, k);
    let q = line_start(s, k);
    lemma_find_byte_is(t, NEWLINE, q, line_finish(s, q));
    assert(line_text(t, k) =~= line_text(s, k));
}

/// A line after the change moves as it is.
proof fn lemma_edit_later(s: Seq<u8>, t: Seq<u8>, n: int, q: int, d: int, k: int)
    requires
        0 <= n < k < line_total(s),
        0 <= q <= line_finish(s, line_start(s, n)),
        t.len() == s.len() + d,
        forall|j: int| q <= j < s.len() ==> t[j + d] == s[j],
        line_finish(t, line_start(t, n)) == line_finish(s, line_start(s, n)) + d,
    ensures
        line_text(t, k) == line_text(s, k),
{
    lemma_line_there(s, n);
    lemma_line_there(s, n + 1);
    lemma_line_there(s, k);
    lemma_line_start_monotone(s, n + 1, k);
    lemma_starts_after(s, t, n, q, d, k);
    lemma_line_start_bound(t, k);
    let start = line_start(s, k);
    assert forall|i: int| 0 <= i < line_text(s, k).len() implies line_text(t, k)[i] == line_text(
        s,
        k,
    )[i] by {
        assert(t[start + i + d] == s[start + i]);
    }
    assert(line_text(t, k) =~= line_text(s, k));
}

/// A change within a line that brings in no newline changes that line and no
/// other.
pub proof fn lemma_edit_in_line(s: Seq<u8>, n: int, a: int, b: int, ins: Seq<u8>)
    requires
        0 <= n < line_total(s),
        line_start(s, n) <= a <= b <= line_finish(s, line_start(s, n)),
        forall|j: int| 0 <= j < ins.len() ==> ins[j] != NEWLINE,
    ensures
        line_total(spliced(s, a, b, ins)) == line_total(s),
        line_start(spliced(s, a, b, ins), n) == line_start(s, n),
        line_text(spliced(s, a, b, ins), n) == spliced(
            line_text(s, n),
            a - line_start(s, n),
            b - line_start(s, n),
            ins,
        ),
        forall|k: int|
            0 <= k < line_total(s) && k != n ==> #[trigger] line_text(spliced(s, a, b, ins), k)
                == line_text(s, k),
{
    let t = spliced(s, a, b, ins);
    let d = ins.len() - (b - a);
    lemma_edit_ends(s, n, a, b, ins);
    lemma_line_there(s, n);
    assert(line_text(t, n) =~= spliced(
        line_text(s, n),
        a - line_start(s, n),
        b - line_start(s, n),
        ins,
    ));
    assert forall|k: int| 0 <= k < line_total(s) && k != n implies #[trigger] line_text(t, k)
        == line_text(s, k) by {
        if k < n {
            lemma_edit_earlier(s, t, a, n, k);
        } else {
            lemma_edit_later(s, t, n, b, d, k);
        }
    }
}

/// Texts whose lines are the same up to line `n` are the same up to its end.
pub proof fn lemma_same_first_lines(s: Seq<u8>, t: Seq<u8>, n: int)
    requires
        0 <= n < line_total(s),
        n < line_total(t),
        forall|k: int| 0 <= k <= n ==> #[trigger] line_text(s, k) == line_text(t, k),
    ensures
        line_start(t, n) == line_start(s, n),
        line_finish(t, line_start(t, n)) == line_finish(s, line_start(s, n)),
        forall|j: int| 0 <= j < line_finish(s, line_start(s, n)) ==> s[j] == t[j],
    decreases n,
{
    lemma_line_there(s, n);
    lemma_line_there(t, n);
    if n > 0 {
        lemma_same_first_lines(s, t, n - 1);
        lemma_line_there(s, n - 1);
        lemma_line_there(t, n - 1);
    }
    let start = line_start(s, n);
    assert(line_text(s, n) == line_text(t, n));
    assert(line_text(s, n).len() == line_finish(s, start) - start);
    assert forall|j: int| 0 <= j < line_finish(s, start) implies s[j] == t[j] by {
        if j >= start {
            assert(line_text(s, n)[j - start] == s[j]);
            assert(line_text(t, n)[j - start] == t[j]);
        }
    }
}

/// A text is known by its lines.
pub proof fn lemma_lines_tell(s: Seq<u8>, t: Seq<u8>)
    requires
        line_total(s) == line_total(t),
        forall|k: int| 0 <= k < line_total(s) ==> #[trigger] line_text(s, k) == line_text(t, k),
    ensures
        s == t,
{
    lemma_line_of_bound(s, s.len() as int);
    let n = line_total(s) - 1;
    lemma_same_first_lines(s, t, n);
    lemma_line_there(s, n);
    lemma_line_there(t, n);
    assert(s =~= t);
}

/// A line starts one byte behind the end of the line before it.
pub proof fn lemma_start_after_row(s: Seq<u8>, n: int)
    requires
        0 < n < line_total(s),
    ensures
        line_start(s, n) == line_start(s, n - 1) + line_text(s, n - 1).len() + 1,
{
    lemma_line_there(s, n);
    lemma_line_there(s, n - 1);
}

/// Where a line starts once one line before it grew or shrank.
pub proof fn lemma_starts_moved(s: Seq<u8>, t: Seq<u8>, n: int, k: int)
    requires
        line_total(s) == line_total(t),
        0 <= n < k < line_total(s),
        forall|l: int| 0 <= l < line_total(s) && l != n ==> #[trigger] line_text(t, l) == line_text(s, l),
    ensures
        line_start(t, k) == line_start(s, k) + line_text(t, n).len() - line_text(s, n).len(),
    decreases k,
{
    lemma_start_after_row(s, k);
    lemma_start_after_row(t, k);
    if k - 1 > n {
        lemma_starts_moved(s, t, n, k - 1);
        assert(line_text(t, k - 1) == line_text(s, k - 1));
    } else {
        lemma_start_kept(s, t, n);
    }
}

/// A line starts where it did when no line before it changed.
pub proof fn lemma_start_kept(s: Seq<u8>, t: Seq<u8>, n: int)
    requires
        line_total(s) == line_total(t),
        0 <= n < line_total(s),
        forall|l: int| 0 <= l < n ==> #[trigger] line_text(t, l) == line_text(s, l),
    ensures
        line_start(t, n) == line_start(s, n),
    decreases n,
{
    if n > 0 {
        lemma_start_kept(s, t, n - 1);
        lemma_start_after_row(s, n);
        lemma_start_after_row(t, n);
        assert(line_text(t, n - 1) == line_text(s, n - 1));
    }
}

/// Every place from the start of a line to its end is on that line.
pub proof fn lemma_on_line(s: Seq<u8>, n: int, off: int)
    requires
        0 <= n < line_total(s),
        line_start(s, n) <= off <= line_start(s, n) + line_text(s, n).len(),
    ensures
        line_of(s, off) == n,
        off <= s.len(),
        line_begin(s, off) == line_start(s, n),
{
    lemma_line_there(s, n);
    lemma_line_of_same(s, line_start(s, n), off);
    lemma_line_begin(s, off);
}

/// Where a place is on its line.
pub proof fn lemma_place_on_line(s: Seq<u8>, off: int)
    requires
        0 <= off <= s.len(),
    ensures
        0 <= line_of(s, off) < line_total(s),
        line_start(s, line_of(s, off)) == line_begin(s, off),
        line_begin(s, off) <= off <= line_begin(s, off) + line_text(s, line_of(s, off)).len(),
        line_finish(s, off) == line_begin(s, off) + line_text(s, line_of(s, off)).len(),
        0 <= line_begin(s, off) <= line_finish(s, off) <= s.len(),
        line_text(s, line_of(s, off)) == s.subrange(line_begin(s, off), line_finish(s, off)),
{
    lemma_line_begin(s, off);
    lemma_line_finish(s, off);
    lemma_line_of_monotone(s, off, s.len() as int);
}

pub proof fn lemma_line_of_piece(t: Seq<u8>, start: int, ins: Seq<u8>, j: int)
    requires
        0 <= j <= ins.len(),
        0 <= start,
        start + ins.len() <= t.len(),
        forall|i: int| 0 <= i < ins.len() ==> t[start + i] == ins[i],
    ensures
        line_of(t, start + j) == line_of(t, start) + line_of(ins, j),
    decreases j,
{
    if j > 0 {
        lemma_line_of_piece(t, start, ins, j - 1);
        assert(t[start + j - 1] == ins[j - 1]);
    }
}

proof fn lemma_line_of_rest(s: Seq<u8>, t: Seq<u8>, q: int, d: int, j: int)
    requires
        0 <= q <= j <= s.len(),
        0 <= q + d,
        t.len() == s.len() + d,
        forall|i: int| q <= i < s.len() ==> t[i + d] == s[i],
    ensures
        line_of(t, j + d) - line_of(t, q + d) == line_of(s, j) - line_of(s, q),
    decreases j,
{
    if j > q {
        lemma_line_of_rest(s, t, q, d, j - 1);
        assert(t[j - 1 + d] == s[j - 1]);
    }
}

/// When whole lines make way for whole lines, the lines after them stay as they are
/// and move by as many lines as came in more than went, and the lines before them
/// stay where they are.
pub proof fn lemma_lines_replaced(s: Seq<u8>, a: int, b: int, ins: Seq<u8>)
    requires
        0 <= a <= b < line_total(s),
        ins.len() == 0 || ins.last() == NEWLINE,
    ensures
        ({
            let t = spliced(s, line_start(s, a), line_start(s, b), ins);
            let come = line_of(ins, ins.len() as int);
            &&& line_total(t) == line_total(s) - (b - a) + come
            &&& forall|k: int|
                b <= k < line_total(s) ==> #[trigger] line_text(s, k) == line_text(
                    t,
                    k - (b - a) + come,
                )
            &&& forall|k: int| 0 <= k < a ==> #[trigger] line_text(s, k) == line_text(t, k)
        }),
{
    let (x, y) = (line_start(s, a), line_start(s, b));
    let t = spliced(s, x, y, ins);
    let come = line_of(ins, ins.len() as int);
    let d = ins.len() - (y - x);
    lemma_replaced_ends(s, a, b, ins);
    lemma_line_there(s, a);
    lemma_line_start_monotone(s, a, b);
    assert forall|k: int| b <= k < line_total(s) implies #[trigger] line_text(s, k) == line_text(
        t,
        k - (b - a) + come,
    ) by {
        lemma_replaced_later(s, a, b, ins, k);
    }
    assert forall|k: int| 0 <= k < a implies #[trigger] line_text(s, k) == line_text(t, k) by {
        lemma_edit_earlier(s, t, x, a, k);
    }
}

/// Where what follows replaced lines stands.
proof fn lemma_replaced_ends(s: Seq<u8>, a: int, b: int, ins: Seq<u8>)
    requires
        0 <= a <= b < line_total(s),
    ensures
        ({
            let (x, y) = (line_start(s, a), line_start(s, b));
            let t = spliced(s, x, y, ins);
            let come = line_of(ins, ins.len() as int);
            &&& 0 <= x <= y <= s.len()
            &&& line_of(t, x + ins.len()) == a + come
            &&& line_total(t) == line_total(s) - (b - a) + come
        }),
{
    let (x, y) = (line_start(s, a), line_start(s, b));
    let t = spliced(s, x, y, ins);
    let d = ins.len() - (y - x);
    lemma_line_there(s, a);
    lemma_line_there(s, b);
    lemma_line_start_monotone(s, a, b);
    lemma_line_of_prefix(s, t, x);
    assert forall|i: int| 0 <= i < ins.len() implies t[x + i] == ins[i] by {}
    lemma_line_of_piece(t, x, ins, ins.len() as int);
    lemma_line_of_rest(s, t, y, d, s.len() as int);
}

/// A line after replaced lines stays as it is.
#[verifier::spinoff_prover]
proof fn lemma_replaced_later(s: Seq<u8>, a: int, b: int, ins: Seq<u8>, k: int)
    requires
        0 <= a <= b <= k < line_total(s),
        ins.len() == 0 || ins.last() == NEWLINE,
    ensures
        line_text(s, k) == line_text(
            spliced(s, line_start(s, a), line_start(s, b), ins),
            k - (b - a) + line_of(ins, ins.len() as int),
        ),
{
    let (x, y) = (line_start(s, a), line_start(s, b));
    let t = spliced(s, x, y, ins);
    let d = ins.len() - (y - x);
    lemma_replaced_ends(s, a, b, ins);
    lemma_line_there(s, b);
    lemma_line_there(s, k);
    lemma_line_start_monotone(s, b, k);
    let p = line_start(s, k);
    let e = line_finish(s, p);
    let n = k - (b - a) + line_of(ins, ins.len() as int);
    assert(line_of(t, p + d) == n) by {
        lemma_line_of_rest(s, t, y, d, p);
    }
    assert(p + d == 0 || t[p + d - 1] == NEWLINE) by {
        if k > b {
            lemma_line_there(s, k - 1);
            lemma_line_start_monotone(s, b, k - 1);
            assert(t[p - 1 + d] == s[p - 1]);
        } else if ins.len() > 0 {
            assert(t[p + d - 1] == ins.last());
        } else if a > 0 {
            lemma_line_there(s, a);
            lemma_line_there(s, a - 1);
            assert(t[x - 1] == s[x - 1]);
        }
    }
    assert(line_start(t, n) == p + d) by {
        lemma_line_begin(t, p + d);
    }
    assert forall|j: int| p + d <= j < e + d implies t[j] != NEWLINE by {
        assert(t[j - d + d] == s[j - d]);
    }
    if e < s.len() {
        assert(t[e + d] == s[e]);
    }
    lemma_find_byte_is(t, NEWLINE, p + d, e + d);
    assert(line_text(t, n) =~= line_text(s, k));
}

/// Whole lines of a text that are not its last end with a newline.
pub proof fn lemma_whole_lines_end(s: Seq<u8>, a: int, b: int)
    requires
        0 <= a <= b < line_total(s),
    ensures
        ({
            let piece = s.subrange(line_start(s, a), line_start(s, b));
            piece.len() == 0 || piece.last() == NEWLINE
        }),
{
    lemma_line_start_monotone(s, a, b);
    if a < b {
        lemma_line_there(s, b);
        lemma_line_there(s, b - 1);
        lemma_line_start_monotone(s, a, b - 1);
    }
}

} // verus!
