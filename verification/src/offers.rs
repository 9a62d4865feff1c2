//! What the prefixes that a line can have are made of: the quotes, the indentation
//! and the bullets of the items above the line.

use vstd::prelude::*;

use crate::context::{
    bullet_of, containers_of, context_along, context_node, cycle_states, indent_of, level_of,
    level_prefixes, levels_along, lineage, nested_context, nested_item, next_item, own_context,
    prefixes, quotes_along, task_of, LevelModel,
};
use crate::line_scan::{child_of_kind, node_text, shown_number};
use crate::lines::{line_begin, line_of, line_start};
use crate::marker::{incremented, restarted, KindModel, OrderedMarker, UnorderedMarker};
use crate::outline::{ancestor, box_of, last_item, sibling_before, within};
use crate::text::spaces_of;
use crate::tree::{lemma_nodes_fit, node_fits, node_spanning, nodes_of, NodeKind, SyntaxNode};

verus! {

/// Whether a node is a list bullet: a minus, a plus, a star, or a number with a dot
/// or a parenthesis.
pub open spec fn is_bullet(kind: NodeKind) -> bool {
    ||| kind == NodeKind::ListMarkerMinus
    ||| kind == NodeKind::ListMarkerPlus
    ||| kind == NodeKind::ListMarkerStar
    ||| kind == NodeKind::ListMarkerDot
    ||| kind == NodeKind::ListMarkerParenthesis
}

/// Whether a bullet is a number.
pub open spec fn is_number(kind: NodeKind) -> bool {
    kind == NodeKind::ListMarkerDot || kind == NodeKind::ListMarkerParenthesis
}

/// Whether node `j` is the bullet of list item `item`: its only one, before its task
/// box.
pub open spec fn opens_item(nodes: Seq<SyntaxNode>, item: int, j: int) -> bool {
    &&& 0 <= item < nodes.len() && nodes[item].kind == NodeKind::ListItem
    &&& 0 <= j < nodes.len() && nodes[j].parent == Some(item as usize) && is_bullet(nodes[j].kind)
    &&& nodes[j].start < nodes[j].end
    &&& forall|i: int|
        0 <= i < nodes.len() && i != j && (#[trigger] nodes[i]).parent == Some(item as usize)
            ==> !is_bullet(nodes[i].kind)
    &&& forall|i: int|
        0 <= i < j && (#[trigger] nodes[i]).parent == Some(item as usize) ==> box_of(nodes[i])
            is None
}

/// Where the line above an offset's line ends.
pub open spec fn end_above(text: Seq<u8>, off: usize) -> usize {
    let start = line_start(text, line_of(text, off as int));
    if start > 0 {
        (start - 1) as usize
    } else {
        0
    }
}

/// The node at the end of the line above, whose containers count.
pub open spec fn node_above(text: Seq<u8>, off: usize) -> Option<int> {
    match (nodes_of(text), node_spanning(text, end_above(text, off), end_above(text, off))) {
        (Some(nodes), Some(i)) => Some(context_node(nodes, i as int)),
        _ => None,
    }
}

/// The quotes around the line above.
pub open spec fn quotes_above(text: Seq<u8>, off: usize) -> Seq<u8> {
    match (nodes_of(text), node_above(text, off)) {
        (Some(nodes), Some(i)) => quotes_along(
            text,
            nodes,
            lineage(nodes, i),
            lineage(nodes, i).len() as int,
        ),
        _ => Seq::<u8>::empty(),
    }
}

/// How far the bullet of node `j` is indented behind the quotes.
pub open spec fn bullet_indent(text: Seq<u8>, nodes: Seq<SyntaxNode>, j: int, quotes: int) -> nat {
    let column = nodes[j].start - line_begin(text, nodes[j].start as int);
    if column < quotes {
        0
    } else {
        (column - quotes) as nat
    }
}

proof fn lemma_in_lineage(nodes: Seq<SyntaxNode>, i: int, a: int) -> (k: int)
    requires
        0 <= i < nodes.len(),
        0 <= a < nodes.len(),
        within(nodes, i, a),
    ensures
        0 <= k < lineage(nodes, i).len(),
        lineage(nodes, i)[k] == a,
    decreases i,
{
    if i == a {
        lineage(nodes, i).len() - 1
    } else {
        let p = nodes[i].parent->0 as int;
        lemma_in_lineage(nodes, p, a)
    }
}

proof fn lemma_level_of(
    text: Seq<u8>,
    nodes: Seq<SyntaxNode>,
    item: int,
    j: int,
    checked: Option<bool>,
    n: int,
)
    requires
        opens_item(nodes, item, j),
        0 <= n <= nodes.len(),
        nodes[j].end <= text.len(),
    ensures
        n <= j ==> level_of(text, nodes, item, checked, n).marker.len() == 0 && !level_of(
            text,
            nodes,
            item,
            checked,
            n,
        ).ordered,
        n > j ==> ({
            let level = level_of(text, nodes, item, checked, n);
            let own = node_text(text, nodes[j]);
            &&& level.marker.len() >= own.len()
            &&& level.marker.subrange(0, own.len() as int) == own
            &&& level.start == nodes[j].start
            &&& level.bullet_len == own.len()
            &&& level.ordered == is_number(nodes[j].kind)
        }),
    decreases n,
{
    if n > 0 {
        lemma_level_of(text, nodes, item, j, checked, n - 1);
        let own = node_text(text, nodes[j]);
        let before = level_of(text, nodes, item, checked, n - 1);
        let now = level_of(text, nodes, item, checked, n);
        if n - 1 == j {
            assert(now.marker =~= own);
            assert(now.marker.subrange(0, own.len() as int) =~= own);
        } else if n - 1 > j {
            assert(now.marker.subrange(0, own.len() as int) =~= before.marker.subrange(
                0,
                own.len() as int,
            ));
        }
    }
}

proof fn lemma_levels_hold(
    text: Seq<u8>,
    nodes: Seq<SyntaxNode>,
    line: Seq<int>,
    checked: Option<bool>,
    k: int,
    n: int,
) -> (at: int)
    requires
        0 <= k < n <= line.len(),
        nodes[line[k]].kind == NodeKind::ListItem,
        level_of(text, nodes, line[k], checked, nodes.len() as int).marker.len() > 0,
    ensures
        0 <= at < levels_along(text, nodes, line, checked, n).len(),
        levels_along(text, nodes, line, checked, n)[at] == level_of(
            text,
            nodes,
            line[k],
            checked,
            nodes.len() as int,
        ),
    decreases n,
{
    if k == n - 1 {
        levels_along(text, nodes, line, checked, n).len() - 1
    } else {
        let at = lemma_levels_hold(text, nodes, line, checked, k, n - 1);
        at
    }
}

proof fn lemma_level_prefixes_hold(
    text: Seq<u8>,
    quotes: Seq<u8>,
    levels: Seq<LevelModel>,
    at: int,
    n: int,
)
    requires
        0 <= at < n <= levels.len(),
    ensures
        ({
            let ps = level_prefixes(text, quotes, levels, n);
            let indent = indent_of(text, levels[at], quotes.len() as int);
            &&& ps.len() == 2 * n
            &&& ps[2 * at] == quotes + spaces_of(indent) + next_item(levels[at])
            &&& ps[2 * at + 1] == quotes + spaces_of(indent + levels[at].bullet_len as nat)
        }),
    decreases n,
{
    if at < n - 1 {
        lemma_level_prefixes_hold(text, quotes, levels, at, n - 1);
    } else if n > 1 {
        lemma_level_prefixes_hold(text, quotes, levels, n - 2, n - 1);
    } else {
        assert(level_prefixes(text, quotes, levels, 0).len() == 0);
    }
}

/// The level that nearest list item opens is the last one.
proof fn lemma_last_level(
    text: Seq<u8>,
    nodes: Seq<SyntaxNode>,
    i: int,
    item: int,
    checked: Option<bool>,
)
    requires
        0 <= i < nodes.len(),
        ancestor(nodes, i, NodeKind::ListItem) == Some(item),
        level_of(text, nodes, item, checked, nodes.len() as int).marker.len() > 0,
    ensures
        ({
            let line = lineage(nodes, i);
            let levels = levels_along(text, nodes, line, checked, line.len() as int);
            levels.len() > 0 && levels.last() == level_of(
                text,
                nodes,
                item,
                checked,
                nodes.len() as int,
            )
        }),
    decreases i,
{
    let line = lineage(nodes, i);
    if nodes[i].kind != NodeKind::ListItem {
        let p = nodes[i].parent->0 as int;
        lemma_last_level(text, nodes, p, item, checked);
        let above = lineage(nodes, p);
        lemma_same_levels(text, nodes, above, line, checked, above.len() as int);
    }
}

proof fn lemma_same_levels(
    text: Seq<u8>,
    nodes: Seq<SyntaxNode>,
    a: Seq<int>,
    b: Seq<int>,
    checked: Option<bool>,
    n: int,
)
    requires
        0 <= n <= a.len(),
        n <= b.len(),
        forall|k: int| 0 <= k < n ==> a[k] == b[k],
    ensures
        levels_along(text, nodes, a, checked, n) == levels_along(text, nodes, b, checked, n),
    decreases n,
{
    if n > 0 {
        lemma_same_levels(text, nodes, a, b, checked, n - 1);
    }
}

/// A prefix that opens the next item of a list: the quotes, the indentation and what
/// opens the item, which starts with the bullet's text, counted on if it is a number.
pub open spec fn next_in_list(
    quotes: Seq<u8>,
    indent: nat,
    number: bool,
    own: Seq<u8>,
    rest: Seq<u8>,
) -> Seq<u8> {
    quotes + spaces_of(indent) + (if number {
        incremented(own + rest)
    } else {
        own + rest
    })
}

/// A prefix that opens the first item of a list nested in another: as `next_in_list`,
/// but a number counts from one.
pub open spec fn first_in_list(
    quotes: Seq<u8>,
    indent: nat,
    number: bool,
    own: Seq<u8>,
    rest: Seq<u8>,
) -> Seq<u8> {
    quotes + spaces_of(indent) + (if number {
        restarted(own + rest)
    } else {
        own + rest
    })
}

/// The prefixes of a level are on offer.
proof fn lemma_level_offered(
    text: Seq<u8>,
    quotes: Seq<u8>,
    levels: Seq<LevelModel>,
    at: int,
) -> (k: int)
    requires
        0 <= at < levels.len(),
    ensures
        ({
            let states = prefixes(text, quotes, levels);
            let indent = indent_of(text, levels[at], quotes.len() as int);
            &&& 0 <= k < states.len() - 1
            &&& k == 2 * at + (if quotes.len() > 0 {
                1int
            } else {
                0
            })
            &&& states[k] == quotes + spaces_of(indent) + next_item(levels[at])
            &&& states[k + 1] == quotes + spaces_of(indent + levels[at].bullet_len as nat)
        }),
{
    let all = levels.len() as int;
    let ps = level_prefixes(text, quotes, levels, all);
    let states = prefixes(text, quotes, levels);
    lemma_level_prefixes_hold(text, quotes, levels, at, all);
    let first: int = if quotes.len() > 0 {
        1
    } else {
        0
    };
    assert(states[first + 2 * at] == ps[2 * at]);
    assert(states[first + 2 * at + 1] == ps[2 * at + 1]);
    first + 2 * at
}

/// The level of a list item starts with its bullet.
proof fn lemma_level_by_bullet(
    text: Seq<u8>,
    nodes: Seq<SyntaxNode>,
    item: int,
    j: int,
    checked: Option<bool>,
) -> (rest: Seq<u8>)
    requires
        opens_item(nodes, item, j),
        nodes[j].end <= text.len(),
    ensures
        ({
            let level = level_of(text, nodes, item, checked, nodes.len() as int);
            let own = node_text(text, nodes[j]);
            &&& level.marker == own + rest
            &&& level.marker.len() > 0
            &&& level.start == nodes[j].start
            &&& level.bullet_len == own.len()
            &&& level.ordered == is_number(nodes[j].kind)
        }),
{
    let level = level_of(text, nodes, item, checked, nodes.len() as int);
    let own = node_text(text, nodes[j]);
    lemma_level_of(text, nodes, item, j, checked, nodes.len() as int);
    let rest = level.marker.subrange(own.len() as int, level.marker.len() as int);
    assert(own + rest =~= level.marker);
    rest
}

/// What a level offers in terms of its bullet.
proof fn lemma_offer_by_bullet(
    text: Seq<u8>,
    nodes: Seq<SyntaxNode>,
    j: int,
    level: LevelModel,
    quotes: Seq<u8>,
    own: Seq<u8>,
    rest: Seq<u8>,
)
    requires
        level.marker == own + rest,
        level.start == nodes[j].start,
        level.bullet_len == own.len(),
    ensures
        ({
            let n = quotes.len() as int;
            let indent = bullet_indent(text, nodes, j, n);
            &&& indent_of(text, level, n) == indent
            &&& same_bytes(
                quotes + spaces_of(indent) + next_item(level),
                next_in_list(quotes, indent, level.ordered, own, rest),
            )
            &&& same_bytes(
                quotes + spaces_of(indent + own.len()) + nested_item(level),
                first_in_list(quotes, indent + own.len(), level.ordered, own, rest),
            )
        }),
{
    lemma_items_by_bullet(level, own, rest);
}

/// Whether two pieces of text are one and the same.
spec fn same_bytes(a: Seq<u8>, b: Seq<u8>) -> bool {
    a == b
}

proof fn lemma_items_by_bullet(level: LevelModel, own: Seq<u8>, rest: Seq<u8>)
    requires
        level.marker == own + rest,
    ensures
        level.ordered ==> next_item(level) == incremented(own + rest) && nested_item(level)
            == restarted(own + rest),
        !level.ordered ==> next_item(level) == own + rest && nested_item(level) == own + rest,
{
}

/// Every list item around the line above offers its own bullet, whichever it is: one
/// prefix is the quotes, the item's indentation and an item that starts with the
/// bullet's text, counted on if it is a number. Another is the quotes and the
/// indentation of a paragraph of that item.
#[verifier::spinoff_prover]
pub proof fn law_every_list_offers_its_bullet(
    text: Seq<u8>,
    off: usize,
    checked: Option<bool>,
    item: int,
    j: int,
)
    requires
        nodes_of(text) is Some,
        node_above(text, off) matches Some(i) && 0 <= i < nodes_of(text)->0.len() && within(
            nodes_of(text)->0,
            i,
            item,
        ),
        opens_item(nodes_of(text)->0, item, j),
    ensures
        ({
            let nodes = nodes_of(text)->0;
            let states = cycle_states(text, off, checked);
            let quotes = quotes_above(text, off);
            let own = node_text(text, nodes[j]);
            let number = is_number(nodes[j].kind);
            let indent = bullet_indent(text, nodes, j, quotes.len() as int);
            &&& exists|k: int, rest: Seq<u8>|
                0 <= k < states.len() && #[trigger] states[k] == #[trigger] next_in_list(
                    quotes,
                    indent,
                    number,
                    own,
                    rest,
                )
            &&& exists|k: int|
                0 <= k < states.len() && #[trigger] states[k] == quotes + spaces_of(
                    indent + own.len(),
                )
        }),
{
    let nodes = nodes_of(text)->0;
    let i = node_above(text, off)->0;
    let line = lineage(nodes, i);
    let all = line.len() as int;
    let quotes = quotes_above(text, off);
    let states = cycle_states(text, off, checked);
    let levels = levels_along(text, nodes, line, checked, all);
    let at_line = lemma_in_lineage(nodes, i, item);
    lemma_nodes_fit(text);
    assert(node_fits(text, nodes[j].kind, nodes[j].start as int, nodes[j].end as int));
    let level = level_of(text, nodes, item, checked, nodes.len() as int);
    let own = node_text(text, nodes[j]);
    let rest = lemma_level_by_bullet(text, nodes, item, j, checked);
    lemma_offer_by_bullet(text, nodes, j, level, quotes, own, rest);
    let at = lemma_levels_hold(text, nodes, line, checked, at_line, all);
    let k = lemma_level_offered(text, quotes, levels, at);
    assert(states == prefixes(text, quotes, levels));
    assert(states[k] == next_in_list(
        quotes,
        bullet_indent(text, nodes, j, quotes.len() as int),
        is_number(nodes[j].kind),
        node_text(text, nodes[j]),
        rest,
    ));
    assert(0 <= k + 1 < states.len());
}

/// The nearest list item around the line above offers an item one level deeper: the
/// quotes, the indentation of a paragraph of that item, and an item that starts with
/// the same bullet, counted from one if it is a number.
#[verifier::spinoff_prover]
pub proof fn law_nearest_list_offers_a_nested_item(
    text: Seq<u8>,
    off: usize,
    checked: Option<bool>,
    item: int,
    j: int,
)
    requires
        nodes_of(text) is Some,
        node_above(text, off) matches Some(i) && 0 <= i < nodes_of(text)->0.len() && ancestor(
            nodes_of(text)->0,
            i,
            NodeKind::ListItem,
        ) == Some(item),
        opens_item(nodes_of(text)->0, item, j),
    ensures
        ({
            let nodes = nodes_of(text)->0;
            let states = cycle_states(text, off, checked);
            let quotes = quotes_above(text, off);
            let own = node_text(text, nodes[j]);
            let indent = bullet_indent(text, nodes, j, quotes.len() as int);
            exists|k: int, rest: Seq<u8>|
                0 <= k < states.len() && #[trigger] states[k] == #[trigger] first_in_list(
                    quotes,
                    indent + own.len(),
                    is_number(nodes[j].kind),
                    own,
                    rest,
                )
        }),
{
    let nodes = nodes_of(text)->0;
    let i = node_above(text, off)->0;
    let line = lineage(nodes, i);
    let quotes = quotes_above(text, off);
    let states = cycle_states(text, off, checked);
    lemma_nodes_fit(text);
    assert(node_fits(text, nodes[j].kind, nodes[j].start as int, nodes[j].end as int));
    let level = level_of(text, nodes, item, checked, nodes.len() as int);
    let own = node_text(text, nodes[j]);
    let rest = lemma_level_by_bullet(text, nodes, item, j, checked);
    lemma_offer_by_bullet(text, nodes, j, level, quotes, own, rest);
    lemma_last_level(text, nodes, i, item, checked);
    let levels = levels_along(text, nodes, line, checked, line.len() as int);
    assert(states == prefixes(text, quotes, levels));
    let n = states.len() as int;
    lemma_level_prefixes_hold(
        text,
        quotes,
        levels,
        levels.len() - 1,
        levels.len() as int,
    );
    assert(states[n - 2] == first_in_list(
        quotes,
        bullet_indent(text, nodes, j, quotes.len() as int) + node_text(text, nodes[j]).len(),
        is_number(nodes[j].kind),
        node_text(text, nodes[j]),
        rest,
    ));
}

/// The bare line is always on offer, as the last prefix. The quotes alone are the
/// first one where there are any, and every other prefix starts with them.
pub proof fn law_prefixes_start_with_the_quotes(text: Seq<u8>, off: usize, checked: Option<bool>)
    ensures
        ({
            let states = cycle_states(text, off, checked);
            let quotes = quotes_above(text, off);
            &&& states.len() > 0 && states.last() == Seq::<u8>::empty()
            &&& quotes.len() > 0 ==> states[0] == quotes && states.len() > 1
            &&& forall|k: int|
                0 <= k < states.len() - 1 ==> (#[trigger] states[k]).len() >= quotes.len()
                    && states[k].subrange(0, quotes.len() as int) == quotes
        }),
{
    match (nodes_of(text), node_above(text, off)) {
        (Some(nodes), Some(i)) => {
            let line = lineage(nodes, i);
            let all = line.len() as int;
            let quotes = quotes_above(text, off);
            let levels = levels_along(text, nodes, line, checked, all);
            let states = cycle_states(text, off, checked);
            assert(states == prefixes(text, quotes, levels));
            lemma_level_prefixes_quoted(text, quotes, levels, levels.len() as int);
            assert(quotes.subrange(0, quotes.len() as int) =~= quotes);
            if levels.len() > 0 {
                let level = levels.last();
                let indent = indent_of(text, level, quotes.len() as int) + level.bullet_len as nat;
                let deeper = quotes + spaces_of(indent) + nested_item(level);
                assert(deeper.subrange(0, quotes.len() as int) =~= quotes);
            }
        },
        _ => {},
    }
}

proof fn lemma_level_prefixes_quoted(
    text: Seq<u8>,
    quotes: Seq<u8>,
    levels: Seq<LevelModel>,
    n: int,
)
    requires
        0 <= n <= levels.len(),
    ensures
        forall|k: int|
            0 <= k < level_prefixes(text, quotes, levels, n).len() ==> (#[trigger] level_prefixes(
                text,
                quotes,
                levels,
                n,
            )[k]).len() >= quotes.len() && level_prefixes(text, quotes, levels, n)[k].subrange(
                0,
                quotes.len() as int,
            ) == quotes,
    decreases n,
{
    if n > 0 {
        lemma_level_prefixes_quoted(text, quotes, levels, n - 1);
        let before = level_prefixes(text, quotes, levels, n - 1);
        let now = level_prefixes(text, quotes, levels, n);
        assert forall|k: int| 0 <= k < now.len() implies (#[trigger] now[k]).len() >= quotes.len()
            && now[k].subrange(0, quotes.len() as int) == quotes by {
            if k < before.len() {
                assert(now[k] == before[k]);
            } else {
                assert(now[k].subrange(0, quotes.len() as int) =~= quotes);
            }
        }
    }
}

/// Every quote around the line above adds the text of its marker to the quotes, the
/// outer ones before the inner ones.
pub proof fn law_every_quote_counts(
    text: Seq<u8>,
    nodes: Seq<SyntaxNode>,
    line: Seq<int>,
    n: int,
)
    requires
        0 < n <= line.len(),
    ensures
        ({
            let before = quotes_along(text, nodes, line, n - 1);
            let now = quotes_along(text, nodes, line, n);
            let i = line[n - 1];
            &&& nodes[i].kind != NodeKind::BlockQuote ==> now == before
            &&& nodes[i].kind == NodeKind::BlockQuote ==> (match child_of_kind(
                nodes,
                i,
                NodeKind::BlockQuoteMarker,
                0,
            ) {
                Some(m) => now == before + text.subrange(
                    nodes[m].start as int,
                    nodes[m].end as int,
                ),
                None => now == before,
            })
        }),
{
    let before = quotes_along(text, nodes, line, n - 1);
    assert(before + Seq::<u8>::empty() =~= before);
}

// ---------------------------------------------------------------------------
// Containers around an offset
// ---------------------------------------------------------------------------

/// What a bullet is, by its node.
pub open spec fn bullet_kind(text: Seq<u8>, n: SyntaxNode) -> KindModel {
    KindModel::ListItem {
        ordered: is_number(n.kind),
        unordered_marker: if n.kind == NodeKind::ListMarkerMinus {
            Some(UnorderedMarker::Minus)
        } else if n.kind == NodeKind::ListMarkerPlus {
            Some(UnorderedMarker::Plus)
        } else if n.kind == NodeKind::ListMarkerStar {
            Some(UnorderedMarker::Star)
        } else {
            None
        },
        ordered_marker: if n.kind == NodeKind::ListMarkerDot {
            Some(OrderedMarker::Dot)
        } else if n.kind == NodeKind::ListMarkerParenthesis {
            Some(OrderedMarker::Parenthesis)
        } else {
            None
        },
        number: if is_number(n.kind) {
            shown_number(text, n.start as int, n.end as int)
        } else {
            None
        },
    }
}

proof fn lemma_bullet_of(text: Seq<u8>, nodes: Seq<SyntaxNode>, item: int, j: int, n: int)
    requires
        opens_item(nodes, item, j),
        j < n <= nodes.len(),
    ensures
        bullet_of(text, nodes, item, n) == Some(bullet_kind(text, nodes[j])),
    decreases n,
{
    if n - 1 > j {
        lemma_bullet_of(text, nodes, item, j, n - 1);
        assert(nodes[n - 1].parent == Some(item as usize) ==> !is_bullet(nodes[n - 1].kind));
    }
}

proof fn lemma_task_of(nodes: Seq<SyntaxNode>, item: int, b: int, n: int)
    requires
        0 <= b < n <= nodes.len(),
        nodes[b].parent == Some(item as usize),
        box_of(nodes[b]) is Some,
        forall|i: int|
            0 <= i < nodes.len() && i != b && (#[trigger] nodes[i]).parent == Some(item as usize)
                ==> box_of(nodes[i]) is None,
    ensures
        task_of(nodes, item, n) == Some(nodes[b].kind == NodeKind::TaskChecked),
    decreases n,
{
    if n - 1 > b {
        lemma_task_of(nodes, item, b, n - 1);
    }
}

proof fn lemma_no_task_of(nodes: Seq<SyntaxNode>, item: int, n: int)
    requires
        0 <= n <= nodes.len(),
        forall|i: int|
            0 <= i < nodes.len() && (#[trigger] nodes[i]).parent == Some(item as usize) ==> box_of(
                nodes[i],
            ) is None,
    ensures
        task_of(nodes, item, n) is None,
    decreases n,
{
    if n > 0 {
        lemma_no_task_of(nodes, item, n - 1);
    }
}

/// A list item adds its bullet to the context of what stands in it, and behind it
/// its task box in its state if it has one.
pub proof fn law_item_adds_bullet_and_box(
    text: Seq<u8>,
    nodes: Seq<SyntaxNode>,
    item: int,
    j: int,
    b: Option<int>,
)
    requires
        opens_item(nodes, item, j),
        match b {
            Some(b) => 0 <= b < nodes.len() && nodes[b].parent == Some(item as usize) && (
            nodes[b].kind == NodeKind::TaskChecked || nodes[b].kind == NodeKind::TaskUnchecked)
                && forall|i: int|
                0 <= i < nodes.len() && i != b && (#[trigger] nodes[i]).parent == Some(
                    item as usize,
                ) ==> box_of(nodes[i]) is None,
            None => forall|i: int|
                0 <= i < nodes.len() && (#[trigger] nodes[i]).parent == Some(item as usize)
                    ==> box_of(nodes[i]) is None,
        },
    ensures
        own_context(text, nodes, item) == (match b {
            Some(b) => seq![
                bullet_kind(text, nodes[j]),
                KindModel::Checkbox { checked: nodes[b].kind == NodeKind::TaskChecked },
            ],
            None => seq![bullet_kind(text, nodes[j])],
        }),
{
    lemma_bullet_of(text, nodes, item, j, nodes.len() as int);
    match b {
        Some(b) => {
            lemma_task_of(nodes, item, b, nodes.len() as int);
        },
        None => {
            lemma_no_task_of(nodes, item, nodes.len() as int);
        },
    }
}

/// The context of a node names what every container around it adds, the outer ones
/// before the inner ones: first that of its parent, then its own.
pub proof fn law_context_goes_from_outer_to_inner(
    text: Seq<u8>,
    nodes: Seq<SyntaxNode>,
    i: int,
)
    requires
        0 <= i < nodes.len(),
    ensures
        nodes[i].parent matches Some(p) && p < i ==> containers_of(text, nodes, i)
            == containers_of(text, nodes, nodes[i].parent->0 as int) + own_context(text, nodes, i),
        nodes[i].parent is None ==> containers_of(text, nodes, i) == own_context(text, nodes, i),
        nodes[i].kind == NodeKind::BlockQuote ==> own_context(text, nodes, i) == seq![
            KindModel::BlockQuote,
        ],
        nodes[i].kind == NodeKind::FencedCodeBlock ==> own_context(text, nodes, i).len() == 1
            && own_context(text, nodes, i)[0] is CodeBlockFence,
{
    let line = lineage(nodes, i);
    match nodes[i].parent {
        Some(p) => {
            if p < i {
                let above = lineage(nodes, p as int);
                lemma_same_context(text, nodes, above, line, above.len() as int);
            }
        },
        None => {
            assert(context_along(text, nodes, line, 0) + own_context(text, nodes, i)
                =~= own_context(text, nodes, i));
        },
    }
}

proof fn lemma_same_context(
    text: Seq<u8>,
    nodes: Seq<SyntaxNode>,
    a: Seq<int>,
    b: Seq<int>,
    n: int,
)
    requires
        0 <= n <= a.len(),
        n <= b.len(),
        forall|k: int| 0 <= k < n ==> a[k] == b[k],
    ensures
        context_along(text, nodes, a, n) == context_along(text, nodes, b, n),
    decreases n,
{
    if n > 0 {
        lemma_same_context(text, nodes, a, b, n - 1);
    }
}

/// Where nothing but the document spans an offset, as behind the end of the last
/// line, the context is that of the byte before.
pub proof fn law_context_looks_back(text: Seq<u8>, off: usize)
    requires
        off > 0,
        nodes_of(text) is Some,
    ensures
        ({
            let nodes = nodes_of(text)->0;
            let bare = match node_spanning(text, off, off) {
                Some(i) => nodes[i as int].kind == NodeKind::Document,
                None => true,
            };
            let at = if bare {
                (off - 1) as usize
            } else {
                off
            };
            nested_context(text, off) == (match node_spanning(text, at, at) {
                Some(i) => containers_of(text, nodes, i as int),
                None => Seq::<KindModel>::empty(),
            })
        }),
{
}

// ---------------------------------------------------------------------------
// Boxes, the order of lists, and texts that do not parse
// ---------------------------------------------------------------------------

/// A task box as it is offered: checked only where that is stated.
pub open spec fn box_text(checked: Option<bool>) -> Seq<u8> {
    if checked == Some(true) {
        seq![91u8, 120u8, 93u8, 32u8]
    } else {
        seq![91u8, 32u8, 93u8, 32u8]
    }
}

/// Whether an item has no box, or node `x` behind its bullet as its only one.
pub open spec fn boxed_by(nodes: Seq<SyntaxNode>, item: int, j: int, x: Option<int>) -> bool {
    &&& forall|i: int|
        0 <= i < nodes.len() && x != Some(i) && (#[trigger] nodes[i]).parent == Some(item as usize)
            ==> nodes[i].kind != NodeKind::TaskChecked && nodes[i].kind != NodeKind::TaskUnchecked
    &&& x matches Some(b) ==> j < b < nodes.len() && nodes[b].parent == Some(item as usize) && (
    nodes[b].kind == NodeKind::TaskChecked || nodes[b].kind == NodeKind::TaskUnchecked)
}

/// What an item's box adds to its bullet.
pub open spec fn behind_bullet(x: Option<int>, checked: Option<bool>) -> Seq<u8> {
    if x is Some {
        box_text(checked)
    } else {
        Seq::<u8>::empty()
    }
}

proof fn lemma_level_boxed(
    text: Seq<u8>,
    nodes: Seq<SyntaxNode>,
    item: int,
    j: int,
    x: Option<int>,
    checked: Option<bool>,
    n: int,
)
    requires
        opens_item(nodes, item, j),
        boxed_by(nodes, item, j, x),
        0 <= n <= nodes.len(),
    ensures
        n <= j ==> level_of(text, nodes, item, checked, n).marker.len() == 0,
        n > j && (x is None || n <= x->0) ==> level_of(text, nodes, item, checked, n).marker
            == node_text(text, nodes[j]),
        n > j && x is Some && n > x->0 ==> level_of(text, nodes, item, checked, n).marker
            == node_text(text, nodes[j]) + box_text(checked),
    decreases n,
{
    if n > 0 {
        lemma_level_boxed(text, nodes, item, j, x, checked, n - 1);
        let before = level_of(text, nodes, item, checked, n - 1);
        let now = level_of(text, nodes, item, checked, n);
        if n - 1 == j {
            assert(now.marker =~= node_text(text, nodes[j]));
        } else if x == Some(n - 1) {
            assert(now.marker =~= before.marker + box_text(checked));
        } else {
            assert(nodes[n - 1].parent == Some(item as usize) ==> !is_bullet(nodes[n - 1].kind)
                && box_of(nodes[n - 1]) is None);
        }
    }
}

/// What a list item offers is its bullet with its box, if it has one, written empty
/// unless stated, and nothing more.
#[verifier::spinoff_prover]
pub proof fn law_item_offers_its_box(
    text: Seq<u8>,
    off: usize,
    checked: Option<bool>,
    item: int,
    j: int,
    x: Option<int>,
)
    requires
        nodes_of(text) is Some,
        node_above(text, off) matches Some(i) && 0 <= i < nodes_of(text)->0.len() && within(
            nodes_of(text)->0,
            i,
            item,
        ),
        opens_item(nodes_of(text)->0, item, j),
        boxed_by(nodes_of(text)->0, item, j, x),
    ensures
        ({
            let nodes = nodes_of(text)->0;
            let states = cycle_states(text, off, checked);
            let quotes = quotes_above(text, off);
            exists|k: int|
                0 <= k < states.len() && #[trigger] states[k] == next_in_list(
                    quotes,
                    bullet_indent(text, nodes, j, quotes.len() as int),
                    is_number(nodes[j].kind),
                    node_text(text, nodes[j]),
                    behind_bullet(x, checked),
                )
        }),
{
    let nodes = nodes_of(text)->0;
    let i = node_above(text, off)->0;
    let line = lineage(nodes, i);
    let all = line.len() as int;
    let quotes = quotes_above(text, off);
    let states = cycle_states(text, off, checked);
    let levels = levels_along(text, nodes, line, checked, all);
    let at_line = lemma_in_lineage(nodes, i, item);
    lemma_nodes_fit(text);
    assert(node_fits(text, nodes[j].kind, nodes[j].start as int, nodes[j].end as int));
    let level = level_of(text, nodes, item, checked, nodes.len() as int);
    let own = node_text(text, nodes[j]);
    let some = lemma_level_by_bullet(text, nodes, item, j, checked);
    let rest = behind_bullet(x, checked);
    lemma_level_boxed(text, nodes, item, j, x, checked, nodes.len() as int);
    assert(level.marker =~= own + rest);
    lemma_offer_by_bullet(text, nodes, j, level, quotes, own, rest);
    let at = lemma_levels_hold(text, nodes, line, checked, at_line, all);
    let k = lemma_level_offered(text, quotes, levels, at);
    assert(states == prefixes(text, quotes, levels));
    assert(states[k] == next_in_list(
        quotes,
        bullet_indent(text, nodes, j, quotes.len() as int),
        is_number(nodes[j].kind),
        node_text(text, nodes[j]),
        rest,
    ));
}

proof fn lemma_lineage_rises(nodes: Seq<SyntaxNode>, i: int)
    ensures
        forall|a: int, b: int|
            0 <= a < b < lineage(nodes, i).len() ==> (#[trigger] lineage(nodes, i)[a]) < (
            #[trigger] lineage(nodes, i)[b]),
        lineage(nodes, i).len() > 0 ==> lineage(nodes, i).last() == i,
    decreases i,
{
    if 0 <= i < nodes.len() {
        if let Some(p) = nodes[i].parent {
            if p < i {
                lemma_lineage_rises(nodes, p as int);
                let up = lineage(nodes, p as int);
                let line = lineage(nodes, i);
                assert forall|a: int, b: int| 0 <= a < b < line.len() implies (#[trigger] line[a])
                    < (#[trigger] line[b]) by {
                    assert(line[a] == up[a]);
                    if b < up.len() {
                        assert(line[b] == up[b]);
                    } else if a < up.len() - 1 {
                        assert(up[a] < up[up.len() - 1]);
                    }
                }
            }
        }
    }
}

proof fn lemma_levels_grow(
    text: Seq<u8>,
    nodes: Seq<SyntaxNode>,
    line: Seq<int>,
    checked: Option<bool>,
    a: int,
    b: int,
)
    requires
        0 <= a <= b <= line.len(),
    ensures
        ({
            let (s, t) = (
                levels_along(text, nodes, line, checked, a),
                levels_along(text, nodes, line, checked, b),
            );
            s.len() <= t.len() && forall|k: int| 0 <= k < s.len() ==> #[trigger] t[k] == s[k]
        }),
    decreases b,
{
    if a < b {
        lemma_levels_grow(text, nodes, line, checked, a, b - 1);
    }
}

/// Of two lists around the line above, one within the other, the outer one is offered
/// before the inner one.
#[verifier::spinoff_prover]
pub proof fn law_outer_lists_are_offered_first(
    text: Seq<u8>,
    off: usize,
    checked: Option<bool>,
    outer: int,
    a: int,
    inner: int,
    b: int,
)
    requires
        nodes_of(text) is Some,
        node_above(text, off) matches Some(i) && 0 <= i < nodes_of(text)->0.len() && within(
            nodes_of(text)->0,
            i,
            inner,
        ) && within(nodes_of(text)->0, i, outer),
        outer < inner,
        opens_item(nodes_of(text)->0, outer, a),
        opens_item(nodes_of(text)->0, inner, b),
    ensures
        ({
            let nodes = nodes_of(text)->0;
            let states = cycle_states(text, off, checked);
            let quotes = quotes_above(text, off);
            exists|k: int, l: int, r: Seq<u8>, s: Seq<u8>|
                0 <= k < l < states.len() && #[trigger] states[k] == #[trigger] next_in_list(
                    quotes,
                    bullet_indent(text, nodes, a, quotes.len() as int),
                    is_number(nodes[a].kind),
                    node_text(text, nodes[a]),
                    r,
                ) && #[trigger] states[l] == #[trigger] next_in_list(
                    quotes,
                    bullet_indent(text, nodes, b, quotes.len() as int),
                    is_number(nodes[b].kind),
                    node_text(text, nodes[b]),
                    s,
                )
        }),
{
    let nodes = nodes_of(text)->0;
    let i = node_above(text, off)->0;
    let line = lineage(nodes, i);
    let all = line.len() as int;
    let quotes = quotes_above(text, off);
    let states = cycle_states(text, off, checked);
    let levels = levels_along(text, nodes, line, checked, all);
    let x = lemma_in_lineage(nodes, i, outer);
    let y = lemma_in_lineage(nodes, i, inner);
    lemma_lineage_rises(nodes, i);
    if y < x {
        assert(line[y] < line[x]);
    }
    assert(x < y);
    lemma_nodes_fit(text);
    assert(node_fits(text, nodes[a].kind, nodes[a].start as int, nodes[a].end as int));
    assert(node_fits(text, nodes[b].kind, nodes[b].start as int, nodes[b].end as int));
    let top = level_of(text, nodes, outer, checked, nodes.len() as int);
    let low = level_of(text, nodes, inner, checked, nodes.len() as int);
    let r = lemma_level_by_bullet(text, nodes, outer, a, checked);
    let s = lemma_level_by_bullet(text, nodes, inner, b, checked);
    lemma_offer_by_bullet(text, nodes, a, top, quotes, node_text(text, nodes[a]), r);
    lemma_offer_by_bullet(text, nodes, b, low, quotes, node_text(text, nodes[b]), s);
    let at = lemma_levels_hold(text, nodes, line, checked, x, y);
    lemma_levels_grow(text, nodes, line, checked, y, all);
    lemma_levels_grow(text, nodes, line, checked, y + 1, all);
    let bt = levels_along(text, nodes, line, checked, y).len() as int;
    assert(levels[at] == top);
    assert(levels[bt] == low) by {
        assert(levels_along(text, nodes, line, checked, y + 1)[bt] == low);
    }
    let k = lemma_level_offered(text, quotes, levels, at);
    let l = lemma_level_offered(text, quotes, levels, bt);
    assert(k < l);
    assert(states == prefixes(text, quotes, levels));
    assert(states[k] == next_in_list(
        quotes,
        bullet_indent(text, nodes, a, quotes.len() as int),
        is_number(nodes[a].kind),
        node_text(text, nodes[a]),
        r,
    ));
    assert(states[l] == next_in_list(
        quotes,
        bullet_indent(text, nodes, b, quotes.len() as int),
        is_number(nodes[b].kind),
        node_text(text, nodes[b]),
        s,
    ));
}

proof fn lemma_last_sibling(nodes: Seq<SyntaxNode>, e: int, n: int)
    requires
        0 <= n <= nodes.len(),
        nodes[e].parent is Some,
    ensures
        match sibling_before(nodes, e, n) {
            Some(s) => 0 <= s < n && nodes[s].parent == nodes[e].parent && forall|x: int|
                s < x < n ==> (#[trigger] nodes[x]).parent != nodes[e].parent,
            None => forall|x: int|
                0 <= x < n ==> (#[trigger] nodes[x]).parent != nodes[e].parent,
        },
    decreases n,
{
    if n > 0 && nodes[n - 1].parent != nodes[e].parent {
        lemma_last_sibling(nodes, e, n - 1);
    }
}

proof fn lemma_last_item_is(nodes: Seq<SyntaxNode>, i: int, n: int)
    requires
        0 <= n <= nodes.len(),
    ensures
        match last_item(nodes, i, n) {
            Some(l) => 0 <= l < n && nodes[l].kind == NodeKind::ListItem && within(nodes, l, i)
                && forall|x: int|
                l < x < n ==> !((#[trigger] nodes[x]).kind == NodeKind::ListItem && within(
                    nodes,
                    x,
                    i,
                )),
            None => forall|x: int|
                0 <= x < n ==> !((#[trigger] nodes[x]).kind == NodeKind::ListItem && within(
                    nodes,
                    x,
                    i,
                )),
        },
    decreases n,
{
    if n > 0 && !(nodes[n - 1].kind == NodeKind::ListItem && within(nodes, n - 1, i)) {
        lemma_last_item_is(nodes, i, n - 1);
    }
}

/// Where the text does not parse, the last list item of the block before counts as
/// what stands above the line, if there is one. Where it parses, the node itself does.
pub proof fn law_item_before_an_error_counts(
    nodes: Seq<SyntaxNode>,
    i: int,
    e: int,
    s: int,
    item: int,
)
    requires
        0 <= e < nodes.len(),
    ensures
        ancestor(nodes, i, NodeKind::Error) is None ==> context_node(nodes, i) == i,
        ancestor(nodes, i, NodeKind::Error) == Some(e) && 0 <= s < e && nodes[e].parent is Some
            && nodes[s].parent == nodes[e].parent && (forall|x: int|
            s < x < e ==> (#[trigger] nodes[x]).parent != nodes[e].parent) && s <= item
            < nodes.len() && nodes[item].kind == NodeKind::ListItem && within(nodes, item, s) && (
        forall|x: int|
            item < x < nodes.len() ==> !((#[trigger] nodes[x]).kind == NodeKind::ListItem && within(
                nodes,
                x,
                s,
            ))) ==> context_node(nodes, i) == item,
{
    if ancestor(nodes, i, NodeKind::Error) == Some(e) && nodes[e].parent is Some {
        lemma_last_sibling(nodes, e, e);
        if let Some(t) = sibling_before(nodes, e, e) {
            lemma_last_item_is(nodes, t, nodes.len() as int);
        }
    }
}

} // verus!
