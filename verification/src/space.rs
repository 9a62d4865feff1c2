//! White space (the Unicode `White_Space` characters) at the two ends of a
//! piece of UTF-8 text.

use vstd::prelude::*;
use vstd::utf8::*;

use crate::text::{boundary, lemma_after_ascii, lemma_after_scalar, SPACE, TAB};

verus! {

/// Whether the byte encodes an ASCII white space character.
pub open spec fn ascii_space(b: u8) -> bool {
    9 <= b <= 13 || b == SPACE
}

/// Whether the two bytes encode U+0085 or U+00A0.
pub open spec fn wide_space2(a: u8, b: u8) -> bool {
    a == 0xc2 && (b == 0x85 || b == 0xa0)
}

/// Whether the three bytes encode U+1680, U+2000 to U+200A, U+2028, U+2029,
/// U+202F, U+205F or U+3000.
pub open spec fn wide_space3(a: u8, b: u8, c: u8) -> bool {
    ||| a == 0xe1 && b == 0x9a && c == 0x80
    ||| a == 0xe2 && b == 0x80 && (0x80 <= c <= 0x8a || c == 0xa8 || c == 0xa9 || c == 0xaf)
    ||| a == 0xe2 && b == 0x81 && c == 0x9f
    ||| a == 0xe3 && b == 0x80 && c == 0x80
}

/// The width of the white space character that starts at `i` and ends by
/// `end`; 0 when there is none.
pub open spec fn space_width(s: Seq<u8>, i: int, end: int) -> int {
    if i + 1 <= end && ascii_space(s[i]) {
        1
    } else if i + 2 <= end && wide_space2(s[i], s[i + 1]) {
        2
    } else if i + 3 <= end && wide_space3(s[i], s[i + 1], s[i + 2]) {
        3
    } else {
        0
    }
}

/// The width of the white space character that ends at `end` and starts at
/// `lo` or later; 0 when there is none.
pub open spec fn space_width_before(s: Seq<u8>, lo: int, end: int) -> int {
    if lo + 1 <= end && ascii_space(s[end - 1]) {
        1
    } else if lo + 2 <= end && wide_space2(s[end - 2], s[end - 1]) {
        2
    } else if lo + 3 <= end && wide_space3(s[end - 3], s[end - 2], s[end - 1]) {
        3
    } else {
        0
    }
}

/// Where the white space that starts at `i` stops, at `end` at the latest.
pub open spec fn skip_space(s: Seq<u8>, i: int, end: int) -> int
    decreases end - i,
{
    if space_width(s, i, end) == 0 {
        i
    } else {
        skip_space(s, i + space_width(s, i, end), end)
    }
}

/// Where the white space that ends at `end` begins, at `lo` at the earliest.
pub open spec fn skip_space_back(s: Seq<u8>, lo: int, end: int) -> int
    decreases end - lo,
{
    if space_width_before(s, lo, end) == 0 {
        end
    } else {
        skip_space_back(s, lo, end - space_width_before(s, lo, end))
    }
}

/// Where the piece of `s` from `lo` to `hi` starts once it is trimmed.
pub open spec fn trim_from(s: Seq<u8>, lo: int, hi: int) -> int {
    skip_space(s, lo, hi)
}

/// Where the piece of `s` from `lo` to `hi` ends once it is trimmed.
pub open spec fn trim_to(s: Seq<u8>, lo: int, hi: int) -> int {
    skip_space_back(s, trim_from(s, lo, hi), hi)
}

/// The piece of `s` from `lo` to `hi` without white space at its ends.
pub open spec fn trimmed(s: Seq<u8>, lo: int, hi: int) -> Seq<u8> {
    s.subrange(trim_from(s, lo, hi), trim_to(s, lo, hi))
}

pub proof fn lemma_skip_space(s: Seq<u8>, i: int, end: int)
    requires
        0 <= i <= end <= s.len(),
    ensures
        i <= skip_space(s, i, end) <= end,
        space_width(s, skip_space(s, i, end), end) == 0,
    decreases end - i,
{
    if space_width(s, i, end) != 0 {
        lemma_skip_space(s, i + space_width(s, i, end), end);
    }
}

pub proof fn lemma_skip_space_back(s: Seq<u8>, lo: int, end: int)
    requires
        0 <= lo <= end <= s.len(),
    ensures
        lo <= skip_space_back(s, lo, end) <= end,
        space_width_before(s, lo, skip_space_back(s, lo, end)) == 0,
    decreases end - lo,
{
    if space_width_before(s, lo, end) != 0 {
        lemma_skip_space_back(s, lo, end - space_width_before(s, lo, end));
    }
}

/// Trimming stays within the piece.
pub proof fn lemma_trim(s: Seq<u8>, lo: int, hi: int)
    requires
        0 <= lo <= hi <= s.len(),
    ensures
        lo <= trim_from(s, lo, hi) <= trim_to(s, lo, hi) <= hi,
{
    lemma_skip_space(s, lo, hi);
    lemma_skip_space_back(s, trim_from(s, lo, hi), hi);
}

proof fn lemma_skip_space_boundary(s: Seq<u8>, i: int, end: int)
    requires
        valid_utf8(s),
        0 <= i <= end <= s.len(),
        boundary(s, i),
    ensures
        boundary(s, skip_space(s, i, end)),
    decreases end - i,
{
    if space_width(s, i, end) != 0 {
        if space_width(s, i, end) == 1 {
            lemma_after_ascii(s, i + 1);
        }
        lemma_after_scalar(s, i);
        lemma_skip_space_boundary(s, i + space_width(s, i, end), end);
    }
}

proof fn lemma_skip_space_back_boundary(s: Seq<u8>, lo: int, end: int)
    requires
        0 <= lo <= end <= s.len(),
        boundary(s, end),
    ensures
        boundary(s, skip_space_back(s, lo, end)),
    decreases end - lo,
{
    if space_width_before(s, lo, end) != 0 {
        lemma_skip_space_back_boundary(s, lo, end - space_width_before(s, lo, end));
    }
}

/// Trimming cuts at character boundaries.
pub proof fn lemma_trim_boundary(s: Seq<u8>, lo: int, hi: int)
    requires
        valid_utf8(s),
        0 <= lo <= hi <= s.len(),
        boundary(s, lo),
        boundary(s, hi),
    ensures
        boundary(s, trim_from(s, lo, hi)),
        boundary(s, trim_to(s, lo, hi)),
{
    lemma_skip_space(s, lo, hi);
    lemma_skip_space_boundary(s, lo, hi);
    lemma_skip_space_back_boundary(s, trim_from(s, lo, hi), hi);
}

proof fn lemma_skip_space_moved(s: Seq<u8>, t: Seq<u8>, i: int, end: int, d: int)
    requires
        0 <= i <= end <= s.len(),
        forall|j: int| i <= j < end ==> #[trigger] s[j] == t[j + d],
    ensures
        skip_space(t, i + d, end + d) == skip_space(s, i, end) + d,
    decreases end - i,
{
    if i < end {
        assert(s[i] == t[i + d]);
    }
    if i + 1 < end {
        assert(s[i + 1] == t[i + 1 + d]);
    }
    if i + 2 < end {
        assert(s[i + 2] == t[i + 2 + d]);
    }
    assert(space_width(t, i + d, end + d) == space_width(s, i, end));
    if space_width(s, i, end) != 0 {
        lemma_skip_space_moved(s, t, i + space_width(s, i, end), end, d);
    }
}

proof fn lemma_skip_space_back_moved(s: Seq<u8>, t: Seq<u8>, lo: int, end: int, d: int)
    requires
        0 <= lo <= end <= s.len(),
        forall|j: int| lo <= j < end ==> #[trigger] s[j] == t[j + d],
    ensures
        skip_space_back(t, lo + d, end + d) == skip_space_back(s, lo, end) + d,
    decreases end - lo,
{
    if lo < end {
        assert(s[end - 1] == t[end - 1 + d]);
    }
    if lo + 1 < end {
        assert(s[end - 2] == t[end - 2 + d]);
    }
    if lo + 2 < end {
        assert(s[end - 3] == t[end - 3 + d]);
    }
    assert(space_width_before(t, lo + d, end + d) == space_width_before(s, lo, end));
    if space_width_before(s, lo, end) != 0 {
        lemma_skip_space_back_moved(s, t, lo, end - space_width_before(s, lo, end), d);
    }
}

/// How a piece is trimmed does not depend on where it stands.
pub proof fn lemma_trim_moved(s: Seq<u8>, t: Seq<u8>, lo: int, hi: int, d: int)
    requires
        0 <= lo <= hi <= s.len(),
        forall|j: int| lo <= j < hi ==> #[trigger] s[j] == t[j + d],
    ensures
        trim_from(t, lo + d, hi + d) == trim_from(s, lo, hi) + d,
        trim_to(t, lo + d, hi + d) == trim_to(s, lo, hi) + d,
{
    lemma_skip_space(s, lo, hi);
    lemma_skip_space_moved(s, t, lo, hi, d);
    lemma_skip_space_back_moved(s, t, trim_from(s, lo, hi), hi, d);
}

proof fn lemma_skip_space_to(s: Seq<u8>, t: Seq<u8>, i: int, end: int, stop: int)
    requires
        0 <= i <= end <= s.len(),
        end <= stop,
        skip_space(s, i, end) < stop,
        forall|j: int| i <= j < skip_space(s, i, end) ==> #[trigger] s[j] == t[j],
        t[skip_space(s, i, end)] == 126,
    ensures
        skip_space(t, i, stop) == skip_space(s, i, end),
    decreases end - i,
{
    let a = skip_space(s, i, end);
    let w = space_width(s, i, end);
    if w == 0 {
        assert(space_width(t, i, stop) == 0);
    } else {
        lemma_skip_space(s, i + w, end);
        assert(s[i] == t[i]);
        if w >= 2 {
            assert(s[i + 1] == t[i + 1]);
        }
        if w == 3 {
            assert(s[i + 2] == t[i + 2]);
        }
        assert(space_width(t, i, stop) == w);
        lemma_skip_space_to(s, t, i + w, end, stop);
    }
}

proof fn lemma_skip_space_back_to(s: Seq<u8>, t: Seq<u8>, lo: int, end: int, d: int)
    requires
        0 <= lo <= end <= s.len(),
        0 < d,
        forall|j: int| skip_space_back(s, lo, end) <= j < end ==> #[trigger] s[j] == t[j + d],
        t[skip_space_back(s, lo, end) + d - 1] == 126,
    ensures
        skip_space_back(t, lo, end + d) == skip_space_back(s, lo, end) + d,
    decreases end - lo,
{
    let z = skip_space_back(s, lo, end);
    let w = space_width_before(s, lo, end);
    if w == 0 {
        assert(space_width_before(t, lo, end + d) == 0);
    } else {
        lemma_skip_space_back(s, lo, end - w);
        assert(s[end - 1] == t[end - 1 + d]);
        if w >= 2 {
            assert(s[end - 2] == t[end - 2 + d]);
        }
        if w == 3 {
            assert(s[end - 3] == t[end - 3 + d]);
        }
        assert(space_width_before(t, lo, end + d) == w);
        lemma_skip_space_back_to(s, t, lo, end - w, d);
    }
}

/// What is put on either side of a trimmed piece is where the piece starts and
/// ends from then on, if it starts and ends with a tilde.
pub proof fn lemma_trim_wrapped(s: Seq<u8>, t: Seq<u8>, lo: int, hi: int, d: int)
    requires
        0 <= lo <= hi <= s.len(),
        0 < d,
        trim_from(s, lo, hi) < trim_to(s, lo, hi),
        forall|j: int| lo <= j < trim_from(s, lo, hi) ==> #[trigger] s[j] == t[j],
        forall|j: int| trim_to(s, lo, hi) <= j < hi ==> #[trigger] s[j] == t[j + d],
        t[trim_from(s, lo, hi)] == 126,
        t[trim_to(s, lo, hi) + d - 1] == 126,
    ensures
        trim_from(t, lo, hi + d) == trim_from(s, lo, hi),
        trim_to(t, lo, hi + d) == trim_to(s, lo, hi) + d,
{
    lemma_trim(s, lo, hi);
    lemma_skip_space_to(s, t, lo, hi, hi + d);
    lemma_skip_space_back_to(s, t, trim_from(s, lo, hi), hi, d);
}

fn is_ascii_space(b: u8) -> (r: bool)
    ensures
        r == ascii_space(b),
{
    (9 <= b && b <= 13) || b == SPACE
}

fn is_wide_space3(a: u8, b: u8, c: u8) -> (r: bool)
    ensures
        r == wide_space3(a, b, c),
{
    (a == 0xe1 && b == 0x9a && c == 0x80) || (a == 0xe2 && b == 0x80 && ((0x80 <= c && c <= 0x8a)
        || c == 0xa8 || c == 0xa9 || c == 0xaf)) || (a == 0xe2 && b == 0x81 && c == 0x9f) || (a
        == 0xe3 && b == 0x80 && c == 0x80)
}

/// Skips the white space from `i` on.
pub fn trim_start(s: &[u8], i: usize, end: usize) -> (r: usize)
    requires
        i <= end <= s@.len(),
    ensures
        r == trim_from(s@, i as int, end as int),
        i <= r <= end,
{
    let mut k: usize = i;
    loop
        invariant
            i <= k <= end <= s@.len(),
            skip_space(s@, k as int, end as int) == skip_space(s@, i as int, end as int),
        ensures
            i <= k <= end,
            k == skip_space(s@, i as int, end as int),
        decreases end - k,
    {
        if end - k >= 1 && is_ascii_space(s[k]) {
            k = k + 1;
        } else if end - k >= 2 && s[k] == 0xc2 && (s[k + 1] == 0x85 || s[k + 1] == 0xa0) {
            k = k + 2;
        } else if end - k >= 3 && is_wide_space3(s[k], s[k + 1], s[k + 2]) {
            k = k + 3;
        } else {
            break;
        }
    }
    k
}

/// Drops the white space before `end`, back to `lo` at most.
pub fn trim_end(s: &[u8], lo: usize, end: usize) -> (r: usize)
    requires
        lo <= end <= s@.len(),
    ensures
        r == skip_space_back(s@, lo as int, end as int),
        lo <= r <= end,
{
    let mut k: usize = end;
    loop
        invariant
            lo <= k <= end <= s@.len(),
            skip_space_back(s@, lo as int, k as int) == skip_space_back(s@, lo as int, end as int),
        ensures
            lo <= k <= end,
            k == skip_space_back(s@, lo as int, end as int),
        decreases k - lo,
    {
        if k - lo >= 1 && is_ascii_space(s[k - 1]) {
            k = k - 1;
        } else if k - lo >= 2 && s[k - 2] == 0xc2 && (s[k - 1] == 0x85 || s[k - 1] == 0xa0) {
            k = k - 2;
        } else if k - lo >= 3 && is_wide_space3(s[k - 3], s[k - 2], s[k - 1]) {
            k = k - 3;
        } else {
            break;
        }
    }
    k
}

/// The first offset from `i` on, before `end`, that holds neither a space nor
/// a tab.
pub open spec fn skip_blanks(s: Seq<u8>, i: int, end: int) -> int
    decreases end - i,
{
    if i < end && (s[i] == SPACE || s[i] == TAB) {
        skip_blanks(s, i + 1, end)
    } else {
        i
    }
}

/// Skips spaces and tabs.
pub fn skip_spaces_and_tabs(s: &[u8], i: usize, end: usize) -> (r: usize)
    requires
        i <= end <= s@.len(),
    ensures
        r == skip_blanks(s@, i as int, end as int),
        i <= r <= end,
        forall|j: int| i <= j < r ==> s@[j] == SPACE || s@[j] == TAB,
{
    let mut k: usize = i;
    while k < end && (s[k] == SPACE || s[k] == TAB)
        invariant
            i <= k <= end <= s@.len(),
            skip_blanks(s@, k as int, end as int) == skip_blanks(s@, i as int, end as int),
            forall|j: int| i <= j < k ==> s@[j] == SPACE || s@[j] == TAB,
        decreases end - k,
    {
        k = k + 1;
    }
    k
}

/// A visible ASCII character is not skipped from behind.
pub proof fn lemma_stops_behind(s: Seq<u8>, lo: int, end: int, k: int)
    requires
        0 <= lo <= k < end <= s.len(),
        32 < s[k] < 128,
    ensures
        k < skip_space_back(s, lo, end),
    decreases end - lo,
{
    if space_width_before(s, lo, end) != 0 {
        lemma_stops_behind(s, lo, end - space_width_before(s, lo, end), k);
    }
}

// ---------------------------------------------------------------------------
// White space, by code points
// ---------------------------------------------------------------------------

/// Whether a code point is white space in Unicode.
pub open spec fn white(c: u32) -> bool {
    ||| 0x9 <= c && c <= 0xd
    ||| c == 0x20 || c == 0x85 || c == 0xa0 || c == 0x1680
    ||| 0x2000 <= c && c <= 0x200a
    ||| c == 0x2028 || c == 0x2029 || c == 0x202f || c == 0x205f || c == 0x3000
}

proof fn lemma_white2(a: u8, b: u8)
    requires
        0xc0 <= a <= 0xdf,
        0x80 <= b <= 0xbf,
        codepoint_width_2(a, b) >= 0x80,
    ensures
        white(codepoint_width_2(a, b)) == wide_space2(a, b),
{
    let c = codepoint_width_2(a, b);
    assert(c == ((((a & 0x1f) as u32) << 6) | ((b & 0x3f) as u32)));
    assert(0xc0 <= a && a <= 0xdf && 0x80 <= b && b <= 0xbf && c == ((((a & 0x1f) as u32) << 6) | ((b
        & 0x3f) as u32)) && c >= 0x80 ==> c <= 0x7ff && ((c == 0x85 || c == 0xa0) == (a == 0xc2 && (
    b == 0x85 || b == 0xa0)))) by (bit_vector);
}

proof fn lemma_white3(a: u8, b: u8, d: u8)
    requires
        0xe0 <= a <= 0xef,
        0x80 <= b <= 0xbf,
        0x80 <= d <= 0xbf,
        codepoint_width_3(a, b, d) >= 0x800,
    ensures
        white(codepoint_width_3(a, b, d)) == wide_space3(a, b, d),
{
    let c = codepoint_width_3(a, b, d);
    assert(c == ((((a & 0x0f) as u32) << 12) | (((b & 0x3f) as u32) << 6) | ((d & 0x3f) as u32)));
    assert(0xe0 <= a && a <= 0xef && 0x80 <= b && b <= 0xbf && 0x80 <= d && d <= 0xbf && c == ((((a
        & 0x0f) as u32) << 12) | (((b & 0x3f) as u32) << 6) | ((d & 0x3f) as u32)) ==> ((c == 0x1680)
        == (a == 0xe1 && b == 0x9a && d == 0x80)) && ((0x2000 <= c && c <= 0x200a) == (a == 0xe2 && b
        == 0x80 && 0x80 <= d && d <= 0x8a)) && ((c == 0x2028 || c == 0x2029 || c == 0x202f) == (a
        == 0xe2 && b == 0x80 && (d == 0xa8 || d == 0xa9 || d == 0xaf))) && ((c == 0x205f) == (a
        == 0xe2 && b == 0x81 && d == 0x9f)) && ((c == 0x3000) == (a == 0xe3 && b == 0x80 && d
        == 0x80))) by (bit_vector);
}

proof fn lemma_white4(a: u8, b: u8, d: u8, e: u8)
    requires
        codepoint_width_4(a, b, d, e) >= 0x10000,
    ensures
        !white(codepoint_width_4(a, b, d, e)),
{
}

/// White space is that of Unicode: what is skipped at a place is the character there,
/// if its code point is white space, and nothing otherwise.
pub proof fn law_white_space_is_that_of_unicode(s: Seq<u8>, i: int)
    requires
        0 <= i < s.len(),
        valid_first_scalar(s.subrange(i, s.len() as int)),
    ensures
        ({
            let t = s.subrange(i, s.len() as int);
            space_width(s, i, s.len() as int) == (if white(decode_first_scalar(t)) {
                length_of_first_scalar(t)
            } else {
                0
            })
        }),
{
    let t = s.subrange(i, s.len() as int);
    assert(t[0] == s[i]);
    if is_leading_byte_width_1(t[0]) {
        let a = t[0];
        assert(a <= 0x7f ==> (a & 0x7f) == a) by (bit_vector);
        assert(decode_first_scalar(t) == a as u32);
    } else if is_leading_byte_width_2(t[0]) {
        assert(t[1] == s[i + 1]);
        lemma_white2(t[0], t[1]);
    } else if is_leading_byte_width_3(t[0]) {
        assert(t[1] == s[i + 1]);
        assert(t[2] == s[i + 2]);
        lemma_white3(t[0], t[1], t[2]);
    } else {
        assert(t[1] == s[i + 1]);
        lemma_white4(t[0], t[1], t[2], t[3]);
    }
}

/// White space is the same from either side: what is skipped before an end would be
/// skipped from where it starts, and the other way round.
pub proof fn law_white_space_is_the_same_backward(s: Seq<u8>, lo: int, end: int, k: int)
    requires
        0 <= lo <= end <= s.len(),
    ensures
        ({
            let w = space_width_before(s, lo, end);
            &&& w > 0 ==> lo <= end - w && space_width(s, end - w, end) == w
            &&& lo <= k < end && space_width(s, k, end) == end - k ==> w > 0
        }),
{
}

} // verus!
