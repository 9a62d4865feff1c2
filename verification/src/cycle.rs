//! How the state of a task box shows in the prefixes that a line can have.

use vstd::prelude::*;
use vstd::utf8::*;

use crate::context::{
    context_node, cycle_states, indent_of, level_of, level_prefixes, levels_along, lineage,
    nested_item, next_item, numbered, own_quote, plain_bullet, prefixes, prefixes_under,
    quotes_along, rows_tidy, tidy, written_box, LevelModel,
};
use crate::line_scan::{child_of_kind, lemma_child_of_kind, node_text};
use crate::lines::{line_of, line_start};
use crate::marker::{bumped, incremented, lemma_after_digits, marker_number, restarted};
use crate::number::{decimal, digit, digits_end, lemma_decimal_value};
use crate::text::{has_at, lemma_ascii_valid, lemma_pieces_valid, spaces_of, NEWLINE};
use crate::tree::{
    is_line_marker, lemma_nodes_fit, node_fits, node_spanning, nodes_fit, nodes_of, NodeKind,
    SyntaxNode,
};

verus! {

/// Whether `q` is `p` with some of its empty boxes checked, and nothing else
/// changed.
pub open spec fn rechecked(p: Seq<u8>, q: Seq<u8>) -> bool {
    &&& p.len() == q.len()
    &&& forall|i: int|
        0 <= i < p.len() && #[trigger] p[i] != q[i] ==> 0 < i && has_at(
            p,
            i - 1,
            written_box(Some(false)),
        ) && q[i] == 120
}

/// Whether the lists hold as many prefixes, each rechecked.
pub open spec fn all_rechecked(ps: Seq<Seq<u8>>, qs: Seq<Seq<u8>>) -> bool {
    &&& ps.len() == qs.len()
    &&& forall|i: int| 0 <= i < ps.len() ==> rechecked(#[trigger] ps[i], qs[i])
}

/// Whether every opening bracket has a check behind it.
pub open spec fn brackets_checked(p: Seq<u8>) -> bool {
    forall|i: int| 0 <= i < p.len() && #[trigger] p[i] == 91 ==> i + 1 < p.len() && p[i + 1] == 120
}

proof fn lemma_rechecked_joined(p: Seq<u8>, q: Seq<u8>, s: Seq<u8>, t: Seq<u8>)
    requires
        rechecked(p, q),
        rechecked(s, t),
    ensures
        rechecked(p + s, q + t),
{
    let n = p.len() as int;
    assert forall|i: int| 0 <= i < (p + s).len() && #[trigger] (p + s)[i] != (q + t)[i] implies 0
        < i && has_at(p + s, i - 1, written_box(Some(false))) && (q + t)[i] == 120 by {
        if i < n {
            assert(p[i] != q[i]);
            assert((p + s).subrange(i - 1, i + 3) =~= p.subrange(i - 1, i + 3));
        } else {
            assert(s[i - n] != t[i - n]);
            assert((p + s).subrange(i - 1, i + 3) =~= s.subrange(i - n - 1, i - n + 3));
        }
    }
}

/// Prefixes that differ only in boxes start with the same digits.
proof fn lemma_same_digits(p: Seq<u8>, q: Seq<u8>, i: int)
    requires
        rechecked(p, q),
        0 <= i <= p.len(),
        forall|j: int| 0 <= j < i ==> digit(p[j]) && p[j] == q[j],
    ensures
        digits_end(p, i, p.len() as int) == digits_end(q, i, q.len() as int),
        i <= digits_end(p, i, p.len() as int) <= p.len(),
        forall|j: int| 0 <= j < digits_end(p, i, p.len() as int) ==> digit(p[j]) && p[j] == q[j],
    decreases p.len() - i,
{
    if i < p.len() {
        if p[i] != q[i] {
            assert(p.subrange(i - 1, i + 3)[0] == written_box(Some(false))[0]);
            assert(p.subrange(i - 1, i + 3)[1] == written_box(Some(false))[1]);
            assert(digit(p[i - 1]));
        } else if digit(p[i]) {
            lemma_same_digits(p, q, i + 1);
        }
    }
}

proof fn lemma_rechecked_rest(p: Seq<u8>, q: Seq<u8>, k: int)
    requires
        rechecked(p, q),
        0 <= k <= p.len(),
        forall|j: int| 0 <= j < k ==> digit(p[j]) && p[j] == q[j],
    ensures
        rechecked(p.subrange(k, p.len() as int), q.subrange(k, q.len() as int)),
{
    let s = p.subrange(k, p.len() as int);
    let t = q.subrange(k, q.len() as int);
    assert forall|i: int| 0 <= i < s.len() && #[trigger] s[i] != t[i] implies 0 < i && has_at(
        s,
        i - 1,
        written_box(Some(false)),
    ) && t[i] == 120 by {
        assert(p[k + i] != q[k + i]);
        assert(p.subrange(k + i - 1, k + i + 3)[0] == written_box(Some(false))[0]);
        if i == 0 {
            assert(digit(p[k - 1]));
        } else {
            assert(s.subrange(i - 1, i + 3) =~= p.subrange(k + i - 1, k + i + 3));
        }
    }
}

/// Counting on, and counting from the start, leave the boxes as they are.
proof fn lemma_items_rechecked(p: Seq<u8>, q: Seq<u8>)
    requires
        rechecked(p, q),
    ensures
        rechecked(incremented(p), incremented(q)),
        rechecked(restarted(p), restarted(q)),
{
    lemma_same_digits(p, q, 0);
    let k = digits_end(p, 0, p.len() as int);
    lemma_rechecked_rest(p, q, k);
    assert(p.subrange(0, k) =~= q.subrange(0, k));
    let s = p.subrange(k, p.len() as int);
    let t = q.subrange(k, q.len() as int);
    let d = decimal(bumped(marker_number(p)));
    lemma_rechecked_joined(d, d, s, t);
    lemma_rechecked_joined(seq![49u8], seq![49u8], s, t);
}

/// Whether two levels are alike but for their boxes.
spec fn level_rechecked(a: LevelModel, b: LevelModel) -> bool {
    &&& rechecked(a.marker, b.marker)
    &&& a.start == b.start
    &&& a.bullet_len == b.bullet_len
    &&& a.ordered == b.ordered
}

proof fn lemma_level_rechecked(text: Seq<u8>, nodes: Seq<SyntaxNode>, item: int, n: int)
    ensures
        level_rechecked(
            level_of(text, nodes, item, Some(false), n),
            level_of(text, nodes, item, Some(true), n),
        ),
    decreases n,
{
    if n > 0 {
        lemma_level_rechecked(text, nodes, item, n - 1);
        let a = level_of(text, nodes, item, Some(false), n - 1);
        let b = level_of(text, nodes, item, Some(true), n - 1);
        let own = node_text(text, nodes[n - 1]);
        let (off, on) = (written_box(Some(false)), written_box(Some(true)));
        assert(off.subrange(0, 4) =~= off);
        assert(rechecked(off, on));
        lemma_rechecked_joined(a.marker, b.marker, own, own);
        lemma_rechecked_joined(a.marker, b.marker, off, on);
    }
}

proof fn lemma_levels_rechecked(text: Seq<u8>, nodes: Seq<SyntaxNode>, line: Seq<int>, n: int)
    ensures
        ({
            let a = levels_along(text, nodes, line, Some(false), n);
            let b = levels_along(text, nodes, line, Some(true), n);
            a.len() == b.len() && forall|i: int|
                0 <= i < a.len() ==> level_rechecked(#[trigger] a[i], b[i])
        }),
    decreases n,
{
    if n > 0 {
        lemma_levels_rechecked(text, nodes, line, n - 1);
        lemma_level_rechecked(text, nodes, line[n - 1], nodes.len() as int);
    }
}

proof fn lemma_level_prefixes_rechecked(
    text: Seq<u8>,
    quotes: Seq<u8>,
    a: Seq<LevelModel>,
    b: Seq<LevelModel>,
    n: int,
)
    requires
        0 <= n <= a.len(),
        a.len() == b.len(),
        forall|i: int| 0 <= i < a.len() ==> level_rechecked(#[trigger] a[i], b[i]),
    ensures
        all_rechecked(level_prefixes(text, quotes, a, n), level_prefixes(text, quotes, b, n)),
    decreases n,
{
    if n > 0 {
        lemma_level_prefixes_rechecked(text, quotes, a, b, n - 1);
        assert(level_rechecked(a[n - 1], b[n - 1]));
        lemma_items_rechecked(a[n - 1].marker, b[n - 1].marker);
        let indent = indent_of(text, a[n - 1], quotes.len() as int);
        let lead = quotes + spaces_of(indent);
        lemma_rechecked_joined(lead, lead, next_item(a[n - 1]), next_item(b[n - 1]));
    }
}

proof fn lemma_prefixes_rechecked(
    text: Seq<u8>,
    quotes: Seq<u8>,
    a: Seq<LevelModel>,
    b: Seq<LevelModel>,
)
    requires
        a.len() == b.len(),
        forall|i: int| 0 <= i < a.len() ==> level_rechecked(#[trigger] a[i], b[i]),
    ensures
        all_rechecked(prefixes(text, quotes, a), prefixes(text, quotes, b)),
{
    lemma_level_prefixes_rechecked(text, quotes, a, b, a.len() as int);
    if a.len() > 0 {
        assert(level_rechecked(a.last(), b.last()));
        lemma_items_rechecked(a.last().marker, b.last().marker);
        let indent = indent_of(text, a.last(), quotes.len() as int)
            + a.last().bullet_len as nat;
        let lead = quotes + spaces_of(indent);
        lemma_rechecked_joined(lead, lead, nested_item(a.last()), nested_item(b.last()));
    }
}

/// The prefixes that a line can have are as many whether a task box is written
/// checked or not, and a prefix with checked boxes is the one with empty boxes with
/// boxes checked in it and nothing else changed.
pub proof fn law_box_state_changes_only_the_box(text: Seq<u8>, off: usize)
    ensures
        all_rechecked(
            cycle_states(text, off, Some(false)),
            cycle_states(text, off, Some(true)),
        ),
{
    if let Some(nodes) = nodes_of(text) {
        let start = line_start(text, line_of(text, off as int));
        let at = if start > 0 {
            (start - 1) as usize
        } else {
            0
        };
        if let Some(i) = node_spanning(text, at, at) {
            let line = lineage(nodes, context_node(nodes, i as int));
            let all = line.len() as int;
            lemma_levels_rechecked(text, nodes, line, all);
            lemma_prefixes_rechecked(
                text,
                quotes_along(text, nodes, line, all),
                levels_along(text, nodes, line, Some(false), all),
                levels_along(text, nodes, line, Some(true), all),
            );
        }
    }
}

/// `p` with every empty box in it checked: `"[x] "` for `"[ ] "`.
pub open spec fn with_boxes_checked(p: Seq<u8>) -> Seq<u8> {
    Seq::new(
        p.len(),
        |i: int|
            if 0 < i && has_at(p, i - 1, written_box(Some(false))) {
                120
            } else {
                p[i]
            },
    )
}

/// Whether no bracket opens in `p`.
pub open spec fn without_bracket(p: Seq<u8>) -> bool {
    forall|i: int| 0 <= i < p.len() ==> #[trigger] p[i] != 91
}

proof fn lemma_checked_joined(p: Seq<u8>, q: Seq<u8>)
    requires
        brackets_checked(p),
        brackets_checked(q),
    ensures
        brackets_checked(p + q),
{
    let n = p.len() as int;
    assert forall|i: int| 0 <= i < (p + q).len() && #[trigger] (p + q)[i] == 91 implies i + 1 < (p
        + q).len() && (p + q)[i + 1] == 120 by {
        if i < n {
            assert(p[i] == 91);
        } else {
            assert(q[i - n] == 91);
        }
    }
}

proof fn lemma_items_checked(p: Seq<u8>)
    requires
        brackets_checked(p),
    ensures
        brackets_checked(incremented(p)),
        brackets_checked(restarted(p)),
{
    assert(rechecked(p, p));
    lemma_same_digits(p, p, 0);
    let k = digits_end(p, 0, p.len() as int);
    let s = p.subrange(k, p.len() as int);
    assert(brackets_checked(s)) by {
        assert forall|i: int| 0 <= i < s.len() && #[trigger] s[i] == 91 implies i + 1 < s.len()
            && s[i + 1] == 120 by {
            assert(p[k + i] == 91);
        }
    }
    let d = bumped(marker_number(p));
    lemma_decimal_value(d);
    lemma_checked_joined(decimal(d), s);
    lemma_checked_joined(seq![49u8], s);
}

/// A list bullet or a quote marker has no bracket in it.
proof fn lemma_marker_plain(text: Seq<u8>, nodes: Seq<SyntaxNode>, i: int)
    requires
        nodes_fit(text, nodes),
        0 <= i < nodes.len(),
        is_line_marker(nodes[i].kind),
    ensures
        without_bracket(node_text(text, nodes[i])),
{
    let n = nodes[i];
    assert(node_fits(text, n.kind, n.start as int, n.end as int));
    let own = node_text(text, n);
    assert forall|j: int| 0 <= j < own.len() implies #[trigger] own[j] != 91 by {
        assert(text[n.start + j] != 91);
    }
}

proof fn lemma_level_checked(text: Seq<u8>, nodes: Seq<SyntaxNode>, item: int, n: int)
    requires
        nodes_fit(text, nodes),
        0 <= n <= nodes.len(),
    ensures
        brackets_checked(level_of(text, nodes, item, Some(true), n).marker),
    decreases n,
{
    if n > 0 {
        lemma_level_checked(text, nodes, item, n - 1);
        let before = level_of(text, nodes, item, Some(true), n - 1);
        let child = nodes[n - 1];
        if plain_bullet(child.kind) || numbered(child.kind) {
            lemma_marker_plain(text, nodes, n - 1);
            lemma_checked_joined(before.marker, node_text(text, child));
        }
        lemma_checked_joined(before.marker, written_box(Some(true)));
    }
}

proof fn lemma_levels_checked(text: Seq<u8>, nodes: Seq<SyntaxNode>, line: Seq<int>, n: int)
    requires
        nodes_fit(text, nodes),
    ensures
        forall|i: int|
            0 <= i < levels_along(text, nodes, line, Some(true), n).len() ==> brackets_checked(
                (#[trigger] levels_along(text, nodes, line, Some(true), n)[i]).marker,
            ),
    decreases n,
{
    if n > 0 {
        lemma_levels_checked(text, nodes, line, n - 1);
        lemma_level_checked(text, nodes, line[n - 1], nodes.len() as int);
        let before = levels_along(text, nodes, line, Some(true), n - 1);
        let now = levels_along(text, nodes, line, Some(true), n);
        assert forall|i: int| 0 <= i < now.len() implies brackets_checked(
            (#[trigger] now[i]).marker,
        ) by {
            if i < before.len() {
                assert(now[i] == before[i]);
            }
        }
    }
}

proof fn lemma_quotes_plain(text: Seq<u8>, nodes: Seq<SyntaxNode>, line: Seq<int>, n: int)
    requires
        nodes_fit(text, nodes),
    ensures
        without_bracket(quotes_along(text, nodes, line, n)),
    decreases n,
{
    if n > 0 {
        lemma_quotes_plain(text, nodes, line, n - 1);
        lemma_child_of_kind(nodes, line[n - 1], NodeKind::BlockQuoteMarker, 0);
        if let Some(m) = child_of_kind(nodes, line[n - 1], NodeKind::BlockQuoteMarker, 0) {
            lemma_marker_plain(text, nodes, m);
        }
        assert(without_bracket(own_quote(text, nodes, line[n - 1])));
    }
}

proof fn lemma_level_prefixes_checked(
    text: Seq<u8>,
    quotes: Seq<u8>,
    levels: Seq<LevelModel>,
    n: int,
)
    requires
        0 <= n <= levels.len(),
        without_bracket(quotes),
        forall|i: int| 0 <= i < levels.len() ==> brackets_checked((#[trigger] levels[i]).marker),
    ensures
        forall|i: int|
            0 <= i < level_prefixes(text, quotes, levels, n).len() ==> brackets_checked(
                #[trigger] level_prefixes(text, quotes, levels, n)[i],
            ),
    decreases n,
{
    if n > 0 {
        lemma_level_prefixes_checked(text, quotes, levels, n - 1);
        let level = levels[n - 1];
        lemma_items_checked(level.marker);
        let indent = indent_of(text, level, quotes.len() as int);
        assert(without_bracket(quotes + spaces_of(indent)));
        assert(without_bracket(quotes + spaces_of(indent + level.bullet_len as nat)));
        lemma_checked_joined(quotes + spaces_of(indent), next_item(level));
        let before = level_prefixes(text, quotes, levels, n - 1);
        let now = level_prefixes(text, quotes, levels, n);
        assert forall|i: int| 0 <= i < now.len() implies brackets_checked(#[trigger] now[i]) by {
            if i < before.len() {
                assert(now[i] == before[i]);
            }
        }
    }
}

proof fn lemma_prefixes_checked(text: Seq<u8>, quotes: Seq<u8>, levels: Seq<LevelModel>)
    requires
        without_bracket(quotes),
        forall|i: int| 0 <= i < levels.len() ==> brackets_checked((#[trigger] levels[i]).marker),
    ensures
        forall|i: int|
            0 <= i < prefixes(text, quotes, levels).len() ==> brackets_checked(
                #[trigger] prefixes(text, quotes, levels)[i],
            ),
{
    lemma_level_prefixes_checked(text, quotes, levels, levels.len() as int);
    if levels.len() > 0 {
        let level = levels.last();
        lemma_items_checked(level.marker);
        let indent = indent_of(text, level, quotes.len() as int)
            + level.bullet_len as nat;
        assert(without_bracket(quotes + spaces_of(indent)));
        lemma_checked_joined(quotes + spaces_of(indent), nested_item(level));
    }
}

proof fn lemma_all_checked(p: Seq<u8>, q: Seq<u8>)
    requires
        rechecked(p, q),
        brackets_checked(q),
    ensures
        q == with_boxes_checked(p),
{
    let want = with_boxes_checked(p);
    assert forall|i: int| 0 <= i < p.len() implies q[i] == want[i] by {
        if 0 < i && has_at(p, i - 1, written_box(Some(false))) {
            assert(p.subrange(i - 1, i + 3)[0] == written_box(Some(false))[0]);
            assert(p[i - 1] == 91);
            assert(p[i - 1] == q[i - 1]) by {
                if p[i - 1] != q[i - 1] {
                    assert(p.subrange(i - 2, i + 2)[1] == written_box(Some(false))[1]);
                }
            }
        }
    }
    assert(q =~= want);
}

/// The prefixes with checked boxes are those with empty boxes with every `"[ ] "`
/// replaced by `"[x] "`.
pub proof fn law_checked_prefixes(text: Seq<u8>, off: usize)
    ensures
        cycle_states(text, off, Some(true)) == cycle_states(text, off, Some(false)).map_values(
            |p: Seq<u8>| with_boxes_checked(p),
        ),
{
    let ps = cycle_states(text, off, Some(false));
    let qs = cycle_states(text, off, Some(true));
    law_box_state_changes_only_the_box(text, off);
    assert forall|i: int| 0 <= i < qs.len() implies brackets_checked(#[trigger] qs[i]) by {
        let start = line_start(text, line_of(text, off as int));
        let at = if start > 0 {
            (start - 1) as usize
        } else {
            0
        };
        match (nodes_of(text), node_spanning(text, at, at)) {
            (Some(nodes), Some(j)) => {
                let line = lineage(nodes, context_node(nodes, j as int));
                let all = line.len() as int;
                lemma_nodes_fit(text);
                lemma_levels_checked(text, nodes, line, all);
                lemma_quotes_plain(text, nodes, line, all);
                lemma_prefixes_checked(
                    text,
                    quotes_along(text, nodes, line, all),
                    levels_along(text, nodes, line, Some(true), all),
                );
                assert(qs == prefixes_under(text, nodes, j as int, Some(true)));
            },
            _ => {},
        }
    }
    assert forall|i: int| 0 <= i < ps.len() implies #[trigger] qs[i] == with_boxes_checked(ps[i]) by {
        assert(rechecked(ps[i], qs[i]));
        lemma_all_checked(ps[i], qs[i]);
    }
    assert(qs =~= ps.map_values(|p: Seq<u8>| with_boxes_checked(p)));
}

proof fn lemma_level_unstated(text: Seq<u8>, nodes: Seq<SyntaxNode>, item: int, n: int)
    ensures
        level_of(text, nodes, item, None, n) == level_of(text, nodes, item, Some(false), n),
    decreases n,
{
    if n > 0 {
        lemma_level_unstated(text, nodes, item, n - 1);
    }
}

proof fn lemma_levels_unstated(text: Seq<u8>, nodes: Seq<SyntaxNode>, line: Seq<int>, n: int)
    ensures
        levels_along(text, nodes, line, None, n) == levels_along(
            text,
            nodes,
            line,
            Some(false),
            n,
        ),
    decreases n,
{
    if n > 0 {
        lemma_levels_unstated(text, nodes, line, n - 1);
        lemma_level_unstated(text, nodes, line[n - 1], nodes.len() as int);
    }
}

/// Where no state is given, a task box is written empty.
pub proof fn law_box_is_empty_unless_stated(text: Seq<u8>, off: usize)
    ensures
        cycle_states(text, off, None) == cycle_states(text, off, Some(false)),
{
    let start = line_start(text, line_of(text, off as int));
    let at = if start > 0 {
        (start - 1) as usize
    } else {
        0
    };
    match (nodes_of(text), node_spanning(text, at, at)) {
        (Some(nodes), Some(i)) => {
            let line = lineage(nodes, context_node(nodes, i as int));
            lemma_levels_unstated(text, nodes, line, line.len() as int);
        },
        _ => {},
    }
}

// ---------------------------------------------------------------------------
// Prefixes are pieces of one line
// ---------------------------------------------------------------------------

pub proof fn lemma_tidy_joined(p: Seq<u8>, q: Seq<u8>)
    requires
        tidy(p),
        tidy(q),
    ensures
        tidy(p + q),
{
    valid_utf8_concat(p, q);
    let n = p.len() as int;
    assert forall|i: int| 0 <= i < (p + q).len() implies #[trigger] (p + q)[i] != NEWLINE by {
        if i < n {
            assert(p[i] != NEWLINE);
        } else {
            assert(q[i - n] != NEWLINE);
        }
    }
}

pub proof fn lemma_ascii_tidy(p: Seq<u8>)
    requires
        forall|i: int| 0 <= i < p.len() ==> #[trigger] p[i] < 128 && p[i] != NEWLINE,
    ensures
        tidy(p),
{
    lemma_ascii_valid(p);
}

pub proof fn lemma_items_tidy(p: Seq<u8>)
    requires
        tidy(p),
    ensures
        tidy(incremented(p)),
        tidy(restarted(p)),
{
    assert(rechecked(p, p));
    lemma_same_digits(p, p, 0);
    let k = digits_end(p, 0, p.len() as int);
    lemma_after_digits(p, k);
    let s = p.subrange(k, p.len() as int);
    assert forall|i: int| 0 <= i < s.len() implies #[trigger] s[i] != NEWLINE by {
        assert(p[k + i] != NEWLINE);
    }
    let d = bumped(marker_number(p));
    lemma_decimal_value(d);
    lemma_ascii_tidy(decimal(d));
    lemma_ascii_tidy(seq![49u8]);
    lemma_tidy_joined(decimal(d), s);
    lemma_tidy_joined(seq![49u8], s);
}

proof fn lemma_marker_tidy(text: Seq<u8>, nodes: Seq<SyntaxNode>, i: int)
    requires
        valid_utf8(text),
        nodes_fit(text, nodes),
        0 <= i < nodes.len(),
        is_line_marker(nodes[i].kind),
    ensures
        tidy(node_text(text, nodes[i])),
{
    let n = nodes[i];
    assert(node_fits(text, n.kind, n.start as int, n.end as int));
    lemma_pieces_valid(text, n.start as int, n.end as int);
    let own = node_text(text, n);
    assert forall|j: int| 0 <= j < own.len() implies #[trigger] own[j] != NEWLINE by {
        assert(text[n.start + j] != NEWLINE);
    }
}

proof fn lemma_level_tidy(
    text: Seq<u8>,
    nodes: Seq<SyntaxNode>,
    item: int,
    checked: Option<bool>,
    n: int,
)
    requires
        valid_utf8(text),
        nodes_fit(text, nodes),
        0 <= n <= nodes.len(),
    ensures
        tidy(level_of(text, nodes, item, checked, n).marker),
    decreases n,
{
    if n > 0 {
        lemma_level_tidy(text, nodes, item, checked, n - 1);
        let before = level_of(text, nodes, item, checked, n - 1);
        let child = nodes[n - 1];
        if plain_bullet(child.kind) || numbered(child.kind) {
            lemma_marker_tidy(text, nodes, n - 1);
            lemma_tidy_joined(before.marker, node_text(text, child));
        }
        lemma_ascii_tidy(written_box(checked));
        lemma_tidy_joined(before.marker, written_box(checked));
    } else {
        lemma_ascii_tidy(Seq::<u8>::empty());
    }
}

proof fn lemma_levels_tidy(
    text: Seq<u8>,
    nodes: Seq<SyntaxNode>,
    line: Seq<int>,
    checked: Option<bool>,
    n: int,
)
    requires
        valid_utf8(text),
        nodes_fit(text, nodes),
    ensures
        forall|i: int|
            0 <= i < levels_along(text, nodes, line, checked, n).len() ==> tidy(
                (#[trigger] levels_along(text, nodes, line, checked, n)[i]).marker,
            ),
    decreases n,
{
    if n > 0 {
        lemma_levels_tidy(text, nodes, line, checked, n - 1);
        lemma_level_tidy(text, nodes, line[n - 1], checked, nodes.len() as int);
        let before = levels_along(text, nodes, line, checked, n - 1);
        let now = levels_along(text, nodes, line, checked, n);
        assert forall|i: int| 0 <= i < now.len() implies tidy((#[trigger] now[i]).marker) by {
            if i < before.len() {
                assert(now[i] == before[i]);
            }
        }
    }
}

proof fn lemma_quotes_tidy(text: Seq<u8>, nodes: Seq<SyntaxNode>, line: Seq<int>, n: int)
    requires
        valid_utf8(text),
        nodes_fit(text, nodes),
    ensures
        tidy(quotes_along(text, nodes, line, n)),
    decreases n,
{
    lemma_ascii_tidy(Seq::<u8>::empty());
    if n > 0 {
        lemma_quotes_tidy(text, nodes, line, n - 1);
        lemma_child_of_kind(nodes, line[n - 1], NodeKind::BlockQuoteMarker, 0);
        if let Some(m) = child_of_kind(nodes, line[n - 1], NodeKind::BlockQuoteMarker, 0) {
            lemma_marker_tidy(text, nodes, m);
        }
        lemma_tidy_joined(
            quotes_along(text, nodes, line, n - 1),
            own_quote(text, nodes, line[n - 1]),
        );
    }
}

proof fn lemma_lead_tidy(quotes: Seq<u8>, indent: nat, item: Seq<u8>)
    requires
        tidy(quotes),
        tidy(item),
    ensures
        tidy(quotes + spaces_of(indent)),
        tidy(quotes + spaces_of(indent) + item),
{
    lemma_ascii_tidy(spaces_of(indent));
    lemma_tidy_joined(quotes, spaces_of(indent));
    lemma_tidy_joined(quotes + spaces_of(indent), item);
}

proof fn lemma_level_prefixes_tidy(
    text: Seq<u8>,
    quotes: Seq<u8>,
    levels: Seq<LevelModel>,
    n: int,
)
    requires
        0 <= n <= levels.len(),
        tidy(quotes),
        forall|i: int| 0 <= i < levels.len() ==> tidy((#[trigger] levels[i]).marker),
    ensures
        rows_tidy(level_prefixes(text, quotes, levels, n)),
    decreases n,
{
    if n > 0 {
        lemma_level_prefixes_tidy(text, quotes, levels, n - 1);
        let level = levels[n - 1];
        lemma_items_tidy(level.marker);
        let indent = indent_of(text, level, quotes.len() as int);
        lemma_lead_tidy(quotes, indent, next_item(level));
        lemma_lead_tidy(quotes, indent + level.bullet_len as nat, next_item(level));
        let before = level_prefixes(text, quotes, levels, n - 1);
        let now = level_prefixes(text, quotes, levels, n);
        assert forall|i: int| 0 <= i < now.len() implies tidy(#[trigger] now[i]) by {
            if i < before.len() {
                assert(now[i] == before[i]);
            }
        }
    }
}

proof fn lemma_prefixes_tidy(text: Seq<u8>, quotes: Seq<u8>, levels: Seq<LevelModel>)
    requires
        tidy(quotes),
        forall|i: int| 0 <= i < levels.len() ==> tidy((#[trigger] levels[i]).marker),
    ensures
        rows_tidy(prefixes(text, quotes, levels)),
{
    lemma_level_prefixes_tidy(text, quotes, levels, levels.len() as int);
    lemma_ascii_tidy(Seq::<u8>::empty());
    if levels.len() > 0 {
        let level = levels.last();
        lemma_items_tidy(level.marker);
        let indent = indent_of(text, level, quotes.len() as int) + level.bullet_len as nat;
        lemma_lead_tidy(quotes, indent, nested_item(level));
    }
}

/// A prefix is valid text and runs over the end of no line.
pub proof fn law_prefixes_are_tidy(text: Seq<u8>, off: usize, checked: Option<bool>)
    requires
        valid_utf8(text),
    ensures
        rows_tidy(cycle_states(text, off, checked)),
{
    let start = line_start(text, line_of(text, off as int));
    let at = if start > 0 {
        (start - 1) as usize
    } else {
        0
    };
    lemma_ascii_tidy(Seq::<u8>::empty());
    match (nodes_of(text), node_spanning(text, at, at)) {
        (Some(nodes), Some(i)) => {
            let line = lineage(nodes, context_node(nodes, i as int));
            let all = line.len() as int;
            lemma_nodes_fit(text);
            lemma_levels_tidy(text, nodes, line, checked, all);
            lemma_quotes_tidy(text, nodes, line, all);
            lemma_prefixes_tidy(
                text,
                quotes_along(text, nodes, line, all),
                levels_along(text, nodes, line, checked, all),
            );
        },
        _ => {},
    }
}

} // verus!
