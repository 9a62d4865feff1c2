//! UTF-8 text held as bytes: character boundaries, comparing, slicing and
//! searching. Every offset is a byte offset.

use vstd::prelude::*;
use vstd::utf8::*;

verus! {

pub const NEWLINE: u8 = 10;

pub const SPACE: u8 = 32;

pub const TAB: u8 = 9;

// ---------------------------------------------------------------------------
// Character boundaries
// ---------------------------------------------------------------------------

/// Whether offset `i` of `s` does not fall inside the encoding of a character.
pub open spec fn boundary(s: Seq<u8>, i: int) -> bool {
    i == 0 || i == s.len() || (0 < i < s.len() && !is_continuation_byte(s[i]))
}

/// The last character boundary of `s` that is not after `i`.
pub open spec fn floor_boundary(s: Seq<u8>, i: int) -> int
    decreases i,
{
    if i <= 0 {
        0
    } else if i >= s.len() {
        s.len() as int
    } else if boundary(s, i) {
        i
    } else {
        floor_boundary(s, i - 1)
    }
}

/// `floor_boundary` is a boundary, at most `i`, and `i` itself if `i` is one.
pub proof fn lemma_floor(s: Seq<u8>, i: int)
    requires
        0 <= i <= s.len(),
    ensures
        0 <= floor_boundary(s, i) <= i,
        boundary(s, floor_boundary(s, i)),
        boundary(s, i) ==> floor_boundary(s, i) == i,
    decreases i,
{
    if 0 < i < s.len() && !boundary(s, i) {
        lemma_floor(s, i - 1);
    }
}

/// Rounding down keeps the order of offsets.
pub proof fn lemma_floor_monotone(s: Seq<u8>, i: int, j: int)
    requires
        0 <= i <= j <= s.len(),
    ensures
        floor_boundary(s, i) <= floor_boundary(s, j),
    decreases j,
{
    lemma_floor(s, i);
    lemma_floor(s, j);
    if i < j && !boundary(s, j) {
        lemma_floor_monotone(s, i, j - 1);
    }
}

pub proof fn lemma_boundary_is_char_boundary(s: Seq<u8>, i: int)
    requires
        valid_utf8(s),
        boundary(s, i),
    ensures
        is_char_boundary(s, i),
{
    is_char_boundary_start_end_of_seq(s);
    if 0 < i < s.len() {
        is_char_boundary_iff_not_is_continuation_byte(s, i);
    }
}

/// Cutting valid text at two boundaries leaves three valid pieces.
pub proof fn lemma_pieces_valid(s: Seq<u8>, a: int, b: int)
    requires
        valid_utf8(s),
        0 <= a <= b <= s.len(),
        boundary(s, a),
        boundary(s, b),
    ensures
        valid_utf8(s.subrange(0, a)),
        valid_utf8(s.subrange(a, b)),
        valid_utf8(s.subrange(b, s.len() as int)),
{
    lemma_boundary_is_char_boundary(s, a);
    lemma_boundary_is_char_boundary(s, b);
    valid_utf8_split(s, a);
    valid_utf8_split(s, b);
    let p = s.subrange(0, b);
    if a < b {
        assert(boundary(p, a));
        lemma_boundary_is_char_boundary(p, a);
        valid_utf8_split(p, a);
        assert(p.subrange(a, b) =~= s.subrange(a, b));
    } else {
        assert(s.subrange(a, b).len() == 0);
    }
}

/// Replacing the text between two boundaries by valid text gives valid text.
pub proof fn lemma_splice_valid(s: Seq<u8>, a: int, b: int, ins: Seq<u8>)
    requires
        valid_utf8(s),
        valid_utf8(ins),
        0 <= a <= b <= s.len(),
        boundary(s, a),
        boundary(s, b),
    ensures
        valid_utf8(s.subrange(0, a) + ins + s.subrange(b, s.len() as int)),
{
    lemma_pieces_valid(s, a, b);
    valid_utf8_concat(s.subrange(0, a), ins);
    valid_utf8_concat(s.subrange(0, a) + ins, s.subrange(b, s.len() as int));
}

/// In valid text, the offset just after an ASCII byte is a boundary.
pub proof fn lemma_after_ascii(s: Seq<u8>, i: int)
    requires
        valid_utf8(s),
        0 < i <= s.len(),
        s[i - 1] < 128,
    ensures
        boundary(s, i),
{
    if i < s.len() {
        let j = i - 1;
        assert(boundary(s, j));
        lemma_pieces_valid(s, j, s.len() as int);
        let t = s.subrange(j, s.len() as int);
        assert(t[0] == s[j]);
        assert(valid_first_scalar(t));
        let rest = pop_first_scalar(t);
        assert(rest.len() > 0);
        assert(rest[0] == s[i]);
        assert(valid_utf8(rest));
        assert(valid_first_scalar(rest));
    }
}

/// In valid text, a character ends at a boundary.
pub proof fn lemma_after_scalar(s: Seq<u8>, i: int)
    requires
        valid_utf8(s),
        0 <= i < s.len(),
        boundary(s, i),
    ensures
        0xc0 <= s[i] <= 0xdf ==> boundary(s, i + 2),
        0xe0 <= s[i] <= 0xef ==> boundary(s, i + 3),
{
    lemma_pieces_valid(s, i, s.len() as int);
    let t = s.subrange(i, s.len() as int);
    assert(t[0] == s[i]);
    assert(valid_first_scalar(t));
    let rest = pop_first_scalar(t);
    assert(valid_utf8(rest));
    if rest.len() > 0 {
        assert(valid_first_scalar(rest));
        assert(rest[0] == s[i + length_of_first_scalar(t)]);
    }
}

/// ASCII bytes are valid UTF-8.
pub proof fn lemma_ascii_valid(s: Seq<u8>)
    requires
        forall|i: int| 0 <= i < s.len() ==> s[i] < 128,
    ensures
        valid_utf8(s),
    decreases s.len(),
{
    if s.len() > 0 {
        let c = s[0];
        assert(codepoint_width_1(c) < 128) by {
            assert(((c & 0x7F) as u32) < 128u32) by (bit_vector);
        }
        assert(valid_first_scalar(s));
        lemma_ascii_valid(pop_first_scalar(s));
    }
}

/// A valid piece that starts at a boundary of valid text ends at one.
pub proof fn lemma_piece_end(s: Seq<u8>, a: int, b: int)
    requires
        valid_utf8(s),
        0 <= a <= b <= s.len(),
        boundary(s, a),
        valid_utf8(s.subrange(a, b)),
    ensures
        boundary(s, b),
{
    let t = s.subrange(a, s.len() as int);
    lemma_pieces_valid(s, a, s.len() as int);
    let k = b - a;
    assert(t.subrange(0, k) =~= s.subrange(a, b));
    if !valid_utf8(t.subrange(k, t.len() as int)) {
        partial_valid_partial_invalid_utf8(t, k);
    }
    let rest = t.subrange(k, t.len() as int);
    if rest.len() > 0 {
        assert(rest[0] == s[b]);
        assert(valid_first_scalar(rest));
    }
}

/// Whether offset `i` of `s` does not fall inside a character.
pub fn is_boundary(s: &[u8], i: usize) -> (r: bool)
    ensures
        r == boundary(s@, i as int),
{
    if i == 0 || i == s.len() {
        true
    } else if i < s.len() {
        s[i] < 0x80 || s[i] > 0xbf
    } else {
        false
    }
}

/// Rounds `i` down to a character boundary.
pub fn floor_to_boundary(s: &[u8], i: usize) -> (r: usize)
    requires
        i <= s@.len(),
    ensures
        r == floor_boundary(s@, i as int),
        r <= i,
        boundary(s@, r as int),
{
    let mut k: usize = i;
    proof {
        lemma_floor(s@, i as int);
    }
    while !is_boundary(s, k)
        invariant
            k <= i <= s@.len(),
            floor_boundary(s@, k as int) == floor_boundary(s@, i as int),
        decreases k,
    {
        k = k - 1;
    }
    k
}

/// The encoding of a string is valid UTF-8.
pub proof fn lemma_str_valid(s: Seq<char>)
    ensures
        valid_utf8(encode_utf8(s)),
{
    encode_utf8_valid_utf8(s);
}

/// The bytes of `s` as an owned string.
///
/// Calls `String::from_utf8`, whose documentation promises `Ok` with a string
/// of exactly the given bytes whenever they are valid UTF-8.
#[verifier::external_body]
pub(crate) fn string_from_utf8(v: Vec<u8>) -> (r: String)
    requires
        valid_utf8(v@),
    ensures
        encode_utf8(r@) == v@,
{
    String::from_utf8(v).unwrap()
}

/// Two strings are equal when their bytes are.
pub proof fn lemma_encode_injective(a: Seq<char>, b: Seq<char>)
    requires
        encode_utf8(a) == encode_utf8(b),
    ensures
        a == b,
{
    encode_utf8_decode_utf8(a);
    encode_utf8_decode_utf8(b);
}

// ---------------------------------------------------------------------------
// Comparing, slicing and searching
// ---------------------------------------------------------------------------

/// Whether `a` and `b` hold the same bytes.
pub fn bytes_eq(a: &[u8], b: &[u8]) -> (r: bool)
    ensures
        r == (a@ == b@),
{
    if a.len() != b.len() {
        return false;
    }
    let mut i: usize = 0;
    while i < a.len()
        invariant
            a@.len() == b@.len(),
            i <= a@.len(),
            forall|j: int| 0 <= j < i ==> a@[j] == b@[j],
        decreases a@.len() - i,
    {
        if a[i] != b[i] {
            return false;
        }
        i = i + 1;
    }
    assert(a@ =~= b@);
    true
}

/// Whether `a` and `b` are the same string.
pub fn str_eq(a: &str, b: &str) -> (r: bool)
    ensures
        r == (a@ == b@),
{
    proof {
        if encode_utf8(a@) == encode_utf8(b@) {
            lemma_encode_injective(a@, b@);
        }
    }
    bytes_eq(a.as_bytes(), b.as_bytes())
}

/// The bytes of `s` from `a` up to `b`.
pub fn slice_bytes(s: &[u8], a: usize, b: usize) -> (r: Vec<u8>)
    requires
        a <= b <= s@.len(),
    ensures
        r@ == s@.subrange(a as int, b as int),
{
    vstd::slice::slice_to_vec(vstd::slice::slice_subrange(s, a, b))
}

/// Appends `other` to `v`.
pub fn push_bytes(v: &mut Vec<u8>, other: &[u8])
    ensures
        final(v)@ == old(v)@ + other@,
{
    let ghost start = v@;
    let mut i: usize = 0;
    while i < other.len()
        invariant
            i <= other@.len(),
            v@ == start + other@.subrange(0, i as int),
        decreases other@.len() - i,
    {
        v.push(other[i]);
        assert(other@.subrange(0, i + 1) =~= other@.subrange(0, i as int).push(other@[i as int]));
        i = i + 1;
    }
    assert(other@.subrange(0, i as int) =~= other@);
    assert(start + other@.subrange(0, 0) =~= start);
}

/// The bytes of a run of `n` spaces.
pub open spec fn spaces_of(n: nat) -> Seq<u8> {
    Seq::new(n, |i: int| SPACE)
}

/// A run of `n` spaces.
pub fn spaces(n: usize) -> (r: Vec<u8>)
    ensures
        r@ == spaces_of(n as nat),
        valid_utf8(r@),
{
    let mut v: Vec<u8> = Vec::new();
    let mut i: usize = 0;
    while i < n
        invariant
            i <= n,
            v@ == spaces_of(i as nat),
        decreases n - i,
    {
        v.push(SPACE);
        assert(v@ =~= spaces_of((i + 1) as nat));
        i = i + 1;
    }
    proof {
        lemma_ascii_valid(v@);
    }
    v
}

/// Whether `p` stands in `s` at offset `i`.
pub open spec fn has_at(s: Seq<u8>, i: int, p: Seq<u8>) -> bool {
    0 <= i && i + p.len() <= s.len() && s.subrange(i, i + p.len()) == p
}

/// Whether `p` stands in `s` at offset `i`.
pub fn has_bytes_at(s: &[u8], i: usize, p: &[u8]) -> (r: bool)
    ensures
        r == has_at(s@, i as int, p@),
{
    if i > s.len() || p.len() > s.len() - i {
        return false;
    }
    bytes_eq(vstd::slice::slice_subrange(s, i, i + p.len()), p)
}

/// The first offset at or after `i` and before `end` at which `p` stands in
/// full before `end`.
pub open spec fn find_from(s: Seq<u8>, p: Seq<u8>, i: int, end: int) -> Option<int>
    decreases end - i,
{
    if i + p.len() > end {
        None
    } else if has_at(s, i, p) {
        Some(i)
    } else if i >= end {
        None
    } else {
        find_from(s, p, i + 1, end)
    }
}

/// What `find_from` finds is the first place at which the pattern stands.
pub proof fn lemma_find_from(s: Seq<u8>, p: Seq<u8>, i: int, end: int)
    requires
        0 <= i <= end <= s.len(),
    ensures
        match find_from(s, p, i, end) {
            Some(k) => i <= k && k + p.len() <= end && has_at(s, k, p) && forall|j: int|
                i <= j < k ==> !has_at(s, j, p),
            None => forall|j: int| i <= j && j + p.len() <= end ==> !has_at(s, j, p),
        },
    decreases end - i,
{
    if i + p.len() <= end && !has_at(s, i, p) && i < end {
        lemma_find_from(s, p, i + 1, end);
    }
}

/// The first place of `p` in `s` between `i` and `end`.
pub fn find_bytes(s: &[u8], p: &[u8], i: usize, end: usize) -> (r: Option<usize>)
    requires
        i <= end <= s@.len(),
    ensures
        match r {
            Some(k) => find_from(s@, p@, i as int, end as int) == Some(k as int) && i <= k && k
                + p@.len() <= end && has_at(s@, k as int, p@),
            None => find_from(s@, p@, i as int, end as int) is None,
        },
{
    let mut k: usize = i;
    while k <= end
        invariant
            i <= k <= end + 1,
            end <= s@.len(),
            k <= end ==> find_from(s@, p@, k as int, end as int) == find_from(
                s@,
                p@,
                i as int,
                end as int,
            ),
            k == end + 1 ==> find_from(s@, p@, i as int, end as int) is None,
        decreases end + 1 - k,
    {
        if p.len() > end - k {
            return None;
        }
        if has_bytes_at(s, k, p) {
            return Some(k);
        }
        if k == end {
            return None;
        }
        k = k + 1;
    }
    None
}

/// The first offset at or after `i` at which the byte `b` stands, or the
/// length of `s`.
pub open spec fn find_byte(s: Seq<u8>, b: u8, i: int) -> int
    decreases s.len() - i,
{
    if i >= s.len() {
        s.len() as int
    } else if s[i] == b {
        i
    } else {
        find_byte(s, b, i + 1)
    }
}

pub proof fn lemma_find_byte(s: Seq<u8>, b: u8, i: int)
    requires
        0 <= i <= s.len(),
    ensures
        i <= find_byte(s, b, i) <= s.len(),
        find_byte(s, b, i) < s.len() ==> s[find_byte(s, b, i)] == b,
        forall|j: int| i <= j < find_byte(s, b, i) ==> s[j] != b,
    decreases s.len() - i,
{
    if i < s.len() && s[i] != b {
        lemma_find_byte(s, b, i + 1);
    }
}

/// The first place of the byte `b` in `s` from `i` on, or the end.
pub fn find_byte_from(s: &[u8], b: u8, i: usize) -> (r: usize)
    requires
        i <= s@.len(),
    ensures
        r == find_byte(s@, b, i as int),
        i <= r <= s@.len(),
{
    let mut k: usize = i;
    while k < s.len() && s[k] != b
        invariant
            i <= k <= s@.len(),
            find_byte(s@, b, k as int) == find_byte(s@, b, i as int),
        decreases s@.len() - k,
    {
        k = k + 1;
    }
    k
}

} // verus!
