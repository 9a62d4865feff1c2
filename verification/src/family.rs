//! How blocks are related: ancestors, the boxes of a list, the box around an item,
//! and what lies in code.

use vstd::prelude::*;

use crate::checkbox::{parent_box_near, parent_follows, sibling_boxes_near};
use crate::line_scan::child_of_kind;
use crate::lines::line_of;
use crate::outline::{
    all_checked, ancestor, box_of, boxes_beside, child_box, in_code, item_at, item_boxes, outer,
    parent_box, parents_first, sibling_boxes, within, TaskBox,
};
use crate::tree::{node_spanning, nodes_of, NodeKind, SyntaxNode};

verus! {

/// Whether node `j` is a child of node `p`.
pub open spec fn child_of(nodes: Seq<SyntaxNode>, j: int, p: int) -> bool {
    0 <= j < nodes.len() && (nodes[j].parent matches Some(q) && q == p)
}

/// Whether node `j` is a task box.
pub open spec fn boxed(nodes: Seq<SyntaxNode>, j: int) -> bool {
    nodes[j].kind == NodeKind::TaskChecked || nodes[j].kind == NodeKind::TaskUnchecked
}

/// Whether node `j` is the first task box among the children of node `p`.
pub open spec fn first_box(nodes: Seq<SyntaxNode>, j: int, p: int) -> bool {
    &&& child_of(nodes, j, p)
    &&& boxed(nodes, j)
    &&& forall|k: int| 0 <= k < j ==> !(#[trigger] child_of(nodes, k, p) && boxed(nodes, k))
}

proof fn lemma_within_bound(nodes: Seq<SyntaxNode>, j: int, i: int)
    requires
        within(nodes, j, i),
    ensures
        i <= j,
    decreases j,
{
    if j != i {
        lemma_within_bound(nodes, nodes[j].parent->0 as int, i);
    }
}

proof fn lemma_within_trans(nodes: Seq<SyntaxNode>, a: int, b: int, c: int)
    requires
        within(nodes, a, b),
        within(nodes, b, c),
    ensures
        within(nodes, a, c),
    decreases a,
{
    if a != b {
        lemma_within_trans(nodes, nodes[a].parent->0 as int, b, c);
    }
}

proof fn lemma_within_line(nodes: Seq<SyntaxNode>, k: int, a: int, b: int)
    requires
        within(nodes, k, a),
        within(nodes, k, b),
    ensures
        within(nodes, a, b) || within(nodes, b, a),
    decreases k,
{
    if k != a && k != b {
        lemma_within_line(nodes, nodes[k].parent->0 as int, a, b);
    }
}

/// Ancestors form one line: a node is under itself and under its parent, what is
/// under something is under all that this is under, and of two ancestors of a node
/// one is under the other.
pub proof fn law_ancestors_form_a_line(nodes: Seq<SyntaxNode>, a: int, b: int, c: int)
    requires
        parents_first(nodes),
    ensures
        within(nodes, a, a),
        child_of(nodes, a, b) ==> within(nodes, a, b),
        within(nodes, a, b) && within(nodes, b, c) ==> within(nodes, a, c),
        within(nodes, a, b) && within(nodes, a, c) ==> within(nodes, b, c) || within(nodes, c, b),
        within(nodes, a, b) && a != b ==> b < a && exists|p: int|
            #[trigger] child_of(nodes, a, p) && within(nodes, p, b),
{
    if child_of(nodes, a, b) {
        assert(within(nodes, b, b));
    }
    if within(nodes, a, b) && within(nodes, b, c) {
        lemma_within_trans(nodes, a, b, c);
    }
    if within(nodes, a, b) && within(nodes, a, c) {
        lemma_within_line(nodes, a, b, c);
    }
    if within(nodes, a, b) && a != b {
        lemma_within_bound(nodes, a, b);
        assert(child_of(nodes, a, nodes[a].parent->0 as int));
    }
}

/// The nearest node of a kind from a node upward is of that kind and above the node,
/// and none below it on the way is of the kind. When there is none, nothing above the
/// node is of the kind.
pub proof fn law_nearest_ancestor(nodes: Seq<SyntaxNode>, i: int, kind: NodeKind)
    requires
        parents_first(nodes),
        0 <= i < nodes.len(),
    ensures
        match ancestor(nodes, i, kind) {
            Some(a) => {
                &&& 0 <= a < nodes.len()
                &&& nodes[a].kind == kind
                &&& within(nodes, i, a)
                &&& forall|x: int|
                    #[trigger] within(nodes, i, x) && a < x ==> nodes[x].kind != kind
            },
            None => forall|x: int|
                #[trigger] within(nodes, i, x) && 0 <= x ==> nodes[x].kind != kind,
        },
    decreases i,
{
    if nodes[i].kind == kind {
        assert forall|x: int| #[trigger] within(nodes, i, x) && i < x implies nodes[x].kind
            != kind by {
            lemma_within_bound(nodes, i, x);
        }
    } else {
        match nodes[i].parent {
            Some(p) => {
                assert(p < i);
                law_nearest_ancestor(nodes, p as int, kind);
                assert forall|x: int| #[trigger]
                    within(nodes, i, x) && x != i implies within(nodes, p as int, x) by {}
            },
            None => {
                assert forall|x: int| #[trigger] within(nodes, i, x) implies x == i by {}
            },
        }
    }
}

proof fn lemma_child_box_from(nodes: Seq<SyntaxNode>, p: int, j: int)
    requires
        0 <= p <= usize::MAX,
        0 <= j,
    ensures
        match child_box(nodes, p, j) {
            Some(b) => exists|k: int|
                j <= k && #[trigger] child_of(nodes, k, p) && boxed(nodes, k) && b.offset
                    == nodes[k].start && b.checked == (nodes[k].kind == NodeKind::TaskChecked)
                    && forall|x: int|
                    j <= x < k ==> !(#[trigger] child_of(nodes, x, p) && boxed(nodes, x)),
            None => forall|k: int|
                j <= k ==> !(#[trigger] child_of(nodes, k, p) && boxed(nodes, k)),
        },
    decreases nodes.len() - j,
{
    if j < nodes.len() {
        if child_of(nodes, j, p) && boxed(nodes, j) {
            assert(nodes[j].parent == Some(p as usize));
        } else {
            assert(!(nodes[j].parent == Some(p as usize) && box_of(nodes[j]) is Some));
            lemma_child_box_from(nodes, p, j + 1);
            if let Some(b) = child_box(nodes, p, j + 1) {
                let k = choose|k: int|
                    j + 1 <= k && #[trigger] child_of(nodes, k, p) && boxed(nodes, k) && b.offset
                        == nodes[k].start && b.checked == (nodes[k].kind == NodeKind::TaskChecked)
                        && forall|x: int|
                        j + 1 <= x < k ==> !(#[trigger] child_of(nodes, x, p) && boxed(nodes, x));
                assert(child_of(nodes, k, p));
            }
        }
    }
}

/// The box of an item is the first among its children: it stands where that one
/// starts and is checked if that one is. An item has no box when no child is one.
pub proof fn law_item_has_its_first_box(nodes: Seq<SyntaxNode>, item: int)
    requires
        0 <= item <= usize::MAX,
    ensures
        match child_box(nodes, item, 0) {
            Some(b) => exists|j: int|
                #[trigger] first_box(nodes, j, item) && b.offset == nodes[j].start && b.checked == (
                nodes[j].kind == NodeKind::TaskChecked),
            None => forall|j: int| !(#[trigger] child_of(nodes, j, item) && boxed(nodes, j)),
        },
{
    lemma_child_box_from(nodes, item, 0);
    if let Some(b) = child_box(nodes, item, 0) {
        let k = choose|k: int|
            0 <= k && #[trigger] child_of(nodes, k, item) && boxed(nodes, k) && b.offset
                == nodes[k].start && b.checked == (nodes[k].kind == NodeKind::TaskChecked)
                && forall|x: int|
                0 <= x < k ==> !(#[trigger] child_of(nodes, x, item) && boxed(nodes, x));
        assert(first_box(nodes, k, item));
    }
}

/// Whether node `k` is an item of a list and `b` is its box.
pub open spec fn item_with_box(nodes: Seq<SyntaxNode>, list: int, k: int, b: TaskBox) -> bool {
    &&& child_of(nodes, k, list)
    &&& nodes[k].kind == NodeKind::ListItem
    &&& child_box(nodes, k, 0) == Some(b)
}

proof fn lemma_item_boxes(nodes: Seq<SyntaxNode>, list: int, n: int, b: TaskBox)
    requires
        0 <= list <= usize::MAX,
        0 <= n <= nodes.len() <= usize::MAX,
    ensures
        item_boxes(nodes, list, n).contains(b) <==> exists|k: int|
            k < n && #[trigger] item_with_box(nodes, list, k, b),
    decreases n,
{
    if n > 0 {
        lemma_item_boxes(nodes, list, n - 1, b);
        let before = item_boxes(nodes, list, n - 1);
        let now = item_boxes(nodes, list, n);
        assert(child_of(nodes, n - 1, list) == (nodes[n - 1].parent == Some(list as usize)));
        let adds = item_with_box(nodes, list, n - 1, b);
        if before.contains(b) {
            let x = choose|x: int| 0 <= x < before.len() && before[x] == b;
            assert(now[x] == b);
        }
        if adds {
            assert(now[now.len() - 1] == b);
        }
        if now.contains(b) {
            let x = choose|x: int| 0 <= x < now.len() && now[x] == b;
            if x < before.len() {
                assert(before[x] == b);
            } else {
                assert(adds);
            }
        }
    }
}

/// The boxes of a list are those of its items, of every one that has a box and of no
/// others.
pub proof fn law_list_has_the_boxes_of_its_items(nodes: Seq<SyntaxNode>, list: int, b: TaskBox)
    requires
        0 <= list <= usize::MAX,
        nodes.len() <= usize::MAX,
    ensures
        item_boxes(nodes, list, nodes.len() as int).contains(b) <==> exists|k: int|
            #[trigger] item_with_box(nodes, list, k, b),
{
    lemma_item_boxes(nodes, list, nodes.len() as int, b);
}

/// Whether every item of a list that has a box has a checked one.
pub open spec fn list_done(nodes: Seq<SyntaxNode>, list: int) -> bool {
    forall|k: int, b: TaskBox| #[trigger] item_with_box(nodes, list, k, b) ==> b.checked
}

/// The box of the item around another one, on an earlier line, follows a change of
/// the other's exactly when it shows the opposite, and, if the other was checked, all
/// items of the other's list that have a box are checked by then.
pub proof fn law_parent_follows_its_list(
    text: Seq<u8>,
    off: usize,
    checked: bool,
    nodes: Seq<SyntaxNode>,
    item: int,
    list: int,
    around: int,
)
    requires
        nodes_of(text) == Some(nodes),
        nodes.len() <= usize::MAX,
        item_at(text, off) == Some(item),
        child_of(nodes, item, list),
        nodes[list].kind == NodeKind::List,
        outer(nodes, item, NodeKind::ListItem) == Some(around),
    ensures
        match child_box(nodes, around, 0) {
            Some(b) => parent_follows(text, off, checked) == (if line_of(text, b.offset as int)
                < line_of(text, off as int) && b.checked != checked && (checked ==> list_done(
                nodes,
                list,
            )) {
                Some(b)
            } else {
                None
            }),
            None => parent_follows(text, off, checked) is None,
        },
{
    let bs = boxes_beside(nodes, item);
    let all = nodes.len() as int;
    assert(bs == item_boxes(nodes, list, all));
    assert(all_checked(bs) == list_done(nodes, list)) by {
        if all_checked(bs) {
            assert forall|k: int, b: TaskBox| #[trigger]
                item_with_box(nodes, list, k, b) implies b.checked by {
                lemma_item_boxes(nodes, list, all, b);
                let x = choose|x: int| 0 <= x < bs.len() && bs[x] == b;
                assert(bs[x].checked);
            }
        }
        if list_done(nodes, list) {
            assert forall|x: int| 0 <= x < bs.len() implies (#[trigger] bs[x]).checked by {
                lemma_item_boxes(nodes, list, all, bs[x]);
                assert(bs.contains(bs[x]));
            }
        }
    }
}

pub proof fn lemma_child_of_kind_from(nodes: Seq<SyntaxNode>, p: int, kind: NodeKind, j: int)
    requires
        0 <= p <= usize::MAX,
        0 <= j,
    ensures
        match child_of_kind(nodes, p, kind, j) {
            Some(k) => j <= k && child_of(nodes, k, p) && nodes[k].kind == kind && forall|x: int|
                j <= x < k ==> !(#[trigger] child_of(nodes, x, p) && nodes[x].kind == kind),
            None => forall|x: int|
                j <= x ==> !(#[trigger] child_of(nodes, x, p) && nodes[x].kind == kind),
        },
    decreases nodes.len() - j,
{
    if j < nodes.len() {
        assert(child_of(nodes, j, p) == (nodes[j].parent == Some(p as usize)));
        if !(child_of(nodes, j, p) && nodes[j].kind == kind) {
            lemma_child_of_kind_from(nodes, p, kind, j + 1);
        }
    }
}

/// Whether node `d` is a fence of code block `b`.
pub open spec fn fence_of(nodes: Seq<SyntaxNode>, d: int, b: int) -> bool {
    child_of(nodes, d, b) && nodes[d].kind == NodeKind::FencedCodeBlockDelimiter
}

/// What lies in code, before the end of the text: what is in a code block, from the
/// end of its first fence to the start of its second, or on to its end when it has
/// no second one.
pub proof fn law_code_lies_between_fences(
    text: Seq<u8>,
    off: usize,
    nodes: Seq<SyntaxNode>,
    i: usize,
    d: int,
)
    requires
        nodes_of(text) == Some(nodes),
        nodes.len() <= usize::MAX,
        off < text.len(),
        node_spanning(text, off, off) == Some(i),
    ensures
        ({
            let block = ancestor(nodes, i as int, NodeKind::FencedCodeBlock);
            &&& block is None ==> !in_code(text, off)
            &&& block matches Some(b) ==> {
                &&& (forall|x: int| !(#[trigger] fence_of(nodes, x, b))) ==> !in_code(text, off)
                &&& fence_of(nodes, d, b) && (forall|x: int|
                    x < d ==> !(#[trigger] fence_of(nodes, x, b))) ==> {
                    &&& off < nodes[d].end ==> !in_code(text, off)
                    &&& nodes[d].end <= off && (forall|x: int|
                        d < x ==> !(#[trigger] fence_of(nodes, x, b))) ==> in_code(text, off)
                    &&& forall|e: int|
                        d < e && #[trigger] fence_of(nodes, e, b) && (forall|x: int|
                            d < x < e ==> !(#[trigger] fence_of(nodes, x, b))) ==> in_code(text, off)
                            == (nodes[d].end <= off <= nodes[e].start)
                }
            }
        }),
{
    if let Some(b) = ancestor(nodes, i as int, NodeKind::FencedCodeBlock) {
        crate::outline::lemma_ancestor(nodes, i as int, NodeKind::FencedCodeBlock);
        let kind = NodeKind::FencedCodeBlockDelimiter;
        lemma_child_of_kind_from(nodes, b, kind, 0);
        let first = child_of_kind(nodes, b, kind, 0);
        if let Some(f) = first {
            assert(fence_of(nodes, f, b));
            lemma_child_of_kind_from(nodes, b, kind, f + 1);
            if fence_of(nodes, d, b) && (forall|x: int| x < d ==> !(#[trigger] fence_of(nodes, x, b))) {
                assert(!(child_of(nodes, d, b) && d < f));
                assert(d == f);
                match child_of_kind(nodes, b, kind, f + 1) {
                    Some(g) => {
                        assert(fence_of(nodes, g, b));
                        assert forall|e: int|
                            d < e && #[trigger] fence_of(nodes, e, b) && (forall|x: int|
                                d < x < e ==> !(#[trigger] fence_of(nodes, x, b))) implies in_code(
                            text,
                            off,
                        ) == (nodes[d].end <= off <= nodes[e].start) by {
                            assert(child_of(nodes, e, b));
                            assert(e == g);
                        }
                    },
                    None => {
                        assert forall|e: int| d < e implies !(#[trigger] fence_of(nodes, e, b)) by {
                            assert(!(child_of(nodes, e, b) && nodes[e].kind == kind));
                        }
                    },
                }
            }
        } else {
            assert forall|x: int| !(#[trigger] fence_of(nodes, x, b)) by {
                assert(!(child_of(nodes, x, b) && nodes[x].kind == kind) || x < 0);
            }
        }
    }
}

/// At the end of the text, what follows an opening fence that is not closed is in
/// code still. Outside code blocks nothing is.
pub proof fn law_open_code_reaches_the_end(
    text: Seq<u8>,
    off: usize,
    nodes: Seq<SyntaxNode>,
    i: usize,
    b: int,
    d: int,
)
    requires
        nodes_of(text) == Some(nodes),
        nodes.len() <= usize::MAX,
        0 < off == text.len(),
        node_spanning(text, (off - 1) as usize, off) == Some(i),
    ensures
        ancestor(nodes, i as int, NodeKind::FencedCodeBlock) == Some(b) && fence_of(nodes, d, b) && (
        forall|x: int| x != d ==> !(#[trigger] fence_of(nodes, x, b))) && nodes[d].end <= off
            ==> in_code(text, off),
        ancestor(nodes, i as int, NodeKind::FencedCodeBlock) is None && (node_spanning(
            text,
            off,
            off,
        ) matches Some(j) ==> ancestor(nodes, j as int, NodeKind::FencedCodeBlock) is None)
            ==> !in_code(text, off),
{
    if ancestor(nodes, i as int, NodeKind::FencedCodeBlock) == Some(b) {
        crate::outline::lemma_ancestor(nodes, i as int, NodeKind::FencedCodeBlock);
        let kind = NodeKind::FencedCodeBlockDelimiter;
        lemma_child_of_kind_from(nodes, b, kind, 0);
        if fence_of(nodes, d, b) && (forall|x: int|
            x != d ==> !(#[trigger] fence_of(nodes, x, b))) {
            assert(child_of(nodes, d, b));
            let f = child_of_kind(nodes, b, kind, 0)->0;
            assert(fence_of(nodes, f, b));
            lemma_child_of_kind_from(nodes, b, kind, f + 1);
            if let Some(g) = child_of_kind(nodes, b, kind, f + 1) {
                assert(fence_of(nodes, g, b));
            }
        }
    }
}

/// The box around a place and the boxes of its list are looked for at the place, and
/// when there are none, at the byte before it.
pub proof fn law_boxes_are_looked_for_nearby(text: Seq<u8>, off: usize)
    ensures
        parent_box(text, off) is Some ==> parent_box_near(text, off) == parent_box(text, off),
        parent_box(text, off) is None && off > 0 ==> parent_box_near(text, off) == parent_box(
            text,
            (off - 1) as usize,
        ),
        parent_box(text, 0) is None ==> parent_box_near(text, 0) is None,
        sibling_boxes(text, off).len() > 0 || off == 0 ==> sibling_boxes_near(text, off)
            == sibling_boxes(text, off),
        sibling_boxes(text, off).len() == 0 && off > 0 ==> sibling_boxes_near(text, off)
            == sibling_boxes(text, (off - 1) as usize),
{
}

} // verus!
