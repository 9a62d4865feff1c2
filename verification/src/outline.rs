//! Finding one's way in the block structure: ancestors, siblings, list items
//! and their task boxes.

use vstd::prelude::*;

use crate::buffer::Buffer;
use crate::line_scan::{child_of_kind, find_child, find_child_from};
use crate::lines::{lemma_line_of_monotone, line_of};
use crate::tree::{
    box_fits, lemma_nodes_fit, node_fits, node_spanning, nodes_fit, nodes_of, NodeKind, SyntaxNode,
};

verus! {

/// A task box: where it starts, and whether it is checked.
#[derive(Clone, Copy, Debug, PartialEq, Eq, Structural)]
pub struct TaskBox {
    pub offset: usize,
    pub checked: bool,
}

/// Whether parents stand before their children.
pub open spec fn parents_first(nodes: Seq<SyntaxNode>) -> bool {
    forall|i: int|
        0 <= i < nodes.len() ==> ((#[trigger] nodes[i]).parent matches Some(p) ==> p < i)
}

/// The nearest node of a kind from node `i` upward, `i` itself included.
pub open spec fn ancestor(nodes: Seq<SyntaxNode>, i: int, kind: NodeKind) -> Option<int>
    decreases i,
{
    if !(0 <= i < nodes.len()) {
        None
    } else if nodes[i].kind == kind {
        Some(i)
    } else {
        match nodes[i].parent {
            Some(p) => if p < i {
                ancestor(nodes, p as int, kind)
            } else {
                None
            },
            None => None,
        }
    }
}

/// The nearest node of a kind above node `i`.
pub open spec fn outer(nodes: Seq<SyntaxNode>, i: int, kind: NodeKind) -> Option<int> {
    match nodes[i].parent {
        Some(p) => ancestor(nodes, p as int, kind),
        None => None,
    }
}

/// Whether node `j` is node `i` or lies under it.
pub open spec fn within(nodes: Seq<SyntaxNode>, j: int, i: int) -> bool
    decreases j,
{
    j == i || (0 <= j < nodes.len() && match nodes[j].parent {
        Some(p) => p < j && within(nodes, p as int, i),
        None => false,
    })
}

/// The task box that a node is, if it is one.
pub open spec fn box_of(n: SyntaxNode) -> Option<TaskBox> {
    if n.kind == NodeKind::TaskChecked {
        Some(TaskBox { offset: n.start, checked: true })
    } else if n.kind == NodeKind::TaskUnchecked {
        Some(TaskBox { offset: n.start, checked: false })
    } else {
        None
    }
}

/// Whether a text has no task box.
pub open spec fn without_boxes(text: Seq<u8>) -> bool {
    nodes_of(text) matches Some(nodes) ==> forall|i: int|
        0 <= i < nodes.len() ==> box_of(#[trigger] nodes[i]) is None
}

/// The first task box among the children of node `parent`, from place `j` on.
pub open spec fn child_box(nodes: Seq<SyntaxNode>, parent: int, j: int) -> Option<TaskBox>
    decreases nodes.len() - j,
{
    if j >= nodes.len() {
        None
    } else if nodes[j].parent == Some(parent as usize) && box_of(nodes[j]) is Some {
        box_of(nodes[j])
    } else {
        child_box(nodes, parent, j + 1)
    }
}

/// The task boxes of the list items among the first `n` nodes that are children
/// of node `list`.
pub open spec fn item_boxes(nodes: Seq<SyntaxNode>, list: int, n: int) -> Seq<TaskBox>
    decreases n,
{
    if n <= 0 {
        Seq::<TaskBox>::empty()
    } else {
        let before = item_boxes(nodes, list, n - 1);
        if nodes[n - 1].kind == NodeKind::ListItem && nodes[n - 1].parent == Some(list as usize) {
            match child_box(nodes, n - 1, 0) {
                Some(b) => before.push(b),
                None => before,
            }
        } else {
            before
        }
    }
}

/// The offsets of the task boxes under node `i` among the first `n` nodes whose
/// state is not `checked`.
pub open spec fn boxes_to_flip(
    nodes: Seq<SyntaxNode>,
    i: int,
    checked: bool,
    n: int,
) -> Seq<usize>
    decreases n,
{
    if n <= 0 {
        Seq::<usize>::empty()
    } else {
        let before = boxes_to_flip(nodes, i, checked, n - 1);
        match box_of(nodes[n - 1]) {
            Some(b) => if within(nodes, n - 1, i) && b.checked != checked {
                before.push(b.offset)
            } else {
                before
            },
            None => before,
        }
    }
}

/// The last node before place `n` with the same parent as node `i`.
pub open spec fn sibling_before(nodes: Seq<SyntaxNode>, i: int, n: int) -> Option<int>
    decreases n,
{
    if n <= 0 || nodes[i].parent is None {
        None
    } else if nodes[n - 1].parent == nodes[i].parent {
        Some(n - 1)
    } else {
        sibling_before(nodes, i, n - 1)
    }
}

/// The last list item under node `i` among the first `n` nodes.
pub open spec fn last_item(nodes: Seq<SyntaxNode>, i: int, n: int) -> Option<int>
    decreases n,
{
    if n <= 0 {
        None
    } else if nodes[n - 1].kind == NodeKind::ListItem && within(nodes, n - 1, i) {
        Some(n - 1)
    } else {
        last_item(nodes, i, n - 1)
    }
}

/// The list item that holds an offset.
pub open spec fn item_at(text: Seq<u8>, off: usize) -> Option<int> {
    match nodes_of(text) {
        Some(nodes) => match node_spanning(text, off, off) {
            Some(i) => ancestor(nodes, i as int, NodeKind::ListItem),
            None => None,
        },
        None => None,
    }
}

/// The task box of the list item around list item `item`.
pub open spec fn box_around(nodes: Seq<SyntaxNode>, item: int) -> Option<TaskBox> {
    match outer(nodes, item, NodeKind::ListItem) {
        Some(parent) => child_box(nodes, parent, 0),
        None => None,
    }
}

/// The task boxes of the list that list item `item` belongs to.
pub open spec fn boxes_beside(nodes: Seq<SyntaxNode>, item: int) -> Seq<TaskBox> {
    match nodes[item].parent {
        Some(p) => if nodes[p as int].kind == NodeKind::List {
            item_boxes(nodes, p as int, nodes.len() as int)
        } else {
            Seq::<TaskBox>::empty()
        },
        None => Seq::<TaskBox>::empty(),
    }
}

/// The task box of the list item around the one that holds an offset. It
/// stands on an earlier line than the offset.
pub open spec fn parent_box(text: Seq<u8>, off: usize) -> Option<TaskBox> {
    match nodes_of(text) {
        Some(nodes) => match item_at(text, off) {
            Some(item) => match box_around(nodes, item) {
                Some(b) => if line_of(text, b.offset as int) < line_of(text, off as int) {
                    Some(b)
                } else {
                    None
                },
                None => None,
            },
            None => None,
        },
        None => None,
    }
}

/// The task boxes of the list that the item at an offset belongs to.
pub open spec fn sibling_boxes(text: Seq<u8>, off: usize) -> Seq<TaskBox> {
    match nodes_of(text) {
        Some(nodes) => match item_at(text, off) {
            Some(item) => boxes_beside(nodes, item),
            None => Seq::<TaskBox>::empty(),
        },
        None => Seq::<TaskBox>::empty(),
    }
}

/// Whether every box is checked.
pub open spec fn all_checked(boxes: Seq<TaskBox>) -> bool {
    forall|i: int| 0 <= i < boxes.len() ==> (#[trigger] boxes[i]).checked
}

/// Whether an offset lies between the fences of code block `b`: not before the end
/// of the opening one, and not past the start of the closing one if there is one.
pub open spec fn between_fences(nodes: Seq<SyntaxNode>, b: int, off: usize) -> bool {
    match child_of_kind(nodes, b, NodeKind::FencedCodeBlockDelimiter, 0) {
        Some(d) => nodes[d].end <= off && (match child_of_kind(
            nodes,
            b,
            NodeKind::FencedCodeBlockDelimiter,
            d + 1,
        ) {
            Some(e) => off <= nodes[e].start,
            None => true,
        }),
        None => false,
    }
}

/// Whether the code block that node `i` stands in holds an offset between its
/// fences.
pub open spec fn code_around(nodes: Seq<SyntaxNode>, i: int, off: usize) -> bool {
    ancestor(nodes, i, NodeKind::FencedCodeBlock) matches Some(b) && between_fences(nodes, b, off)
}

/// Whether the smallest node over the bytes from `from` to `off` stands in a code
/// block that holds `off` between its fences.
pub open spec fn code_over(text: Seq<u8>, from: usize, off: usize) -> bool {
    match nodes_of(text) {
        Some(nodes) => match node_spanning(text, from, off) {
            Some(i) => code_around(nodes, i as int, off),
            None => false,
        },
        None => false,
    }
}

/// Whether an offset lies in code: between the fences of a code block, or after an
/// opening fence that is not closed. No node reaches past the end of the text, so
/// there the last byte decides.
pub open spec fn in_code(text: Seq<u8>, off: usize) -> bool {
    code_over(text, off, off) || (0 < off == text.len() && code_over(text, (off - 1) as usize, off))
}

pub proof fn lemma_ancestor(nodes: Seq<SyntaxNode>, i: int, kind: NodeKind)
    ensures
        ancestor(nodes, i, kind) matches Some(a) ==> 0 <= a <= i && a < nodes.len()
            && nodes[a].kind == kind && within(nodes, i, a),
    decreases i,
{
    if 0 <= i < nodes.len() && nodes[i].kind != kind {
        if let Some(p) = nodes[i].parent {
            if p < i {
                lemma_ancestor(nodes, p as int, kind);
            }
        }
    }
}

pub proof fn lemma_child_box(text: Seq<u8>, nodes: Seq<SyntaxNode>, parent: int, j: int)
    requires
        nodes_fit(text, nodes),
        0 <= j,
    ensures
        child_box(nodes, parent, j) matches Some(b) ==> box_fits(text, b.offset as int),
    decreases nodes.len() - j,
{
    if j < nodes.len() {
        assert(node_fits(text, nodes[j].kind, nodes[j].start as int, nodes[j].end as int));
        lemma_child_box(text, nodes, parent, j + 1);
    }
}

/// A parent's box lies in the text, before the offset's line.
pub proof fn lemma_parent_box(text: Seq<u8>, off: usize)
    ensures
        parent_box(text, off) matches Some(b) ==> box_fits(text, b.offset as int) && b.offset < off
            && line_of(text, b.offset as int) < line_of(text, off as int),
{
    if let Some(b) = parent_box(text, off) {
        let nodes = nodes_of(text)->0;
        let item = item_at(text, off)->0;
        let parent = outer(nodes, item, NodeKind::ListItem)->0;
        lemma_nodes_fit(text);
        lemma_child_box(text, nodes, parent, 0);
        if off <= b.offset {
            lemma_line_of_monotone(text, off as int, b.offset as int);
        }
    }
}

pub proof fn lemma_boxes_to_flip(
    text: Seq<u8>,
    nodes: Seq<SyntaxNode>,
    i: int,
    checked: bool,
    n: int,
)
    requires
        nodes_fit(text, nodes),
        n <= nodes.len(),
    ensures
        forall|k: int|
            0 <= k < boxes_to_flip(nodes, i, checked, n).len() ==> box_fits(
                text,
                #[trigger] boxes_to_flip(nodes, i, checked, n)[k] as int,
            ),
    decreases n,
{
    if n > 0 {
        lemma_boxes_to_flip(text, nodes, i, checked, n - 1);
        let node = nodes[n - 1];
        assert(node_fits(text, node.kind, node.start as int, node.end as int));
        let before = boxes_to_flip(nodes, i, checked, n - 1);
        let all = boxes_to_flip(nodes, i, checked, n);
        assert forall|k: int| 0 <= k < all.len() implies box_fits(
            text,
            #[trigger] all[k] as int,
        ) by {
            if k < before.len() {
                assert(all[k] == before[k]);
            }
        }
    }
}

/// The nearest node of a kind from node `i` upward.
pub fn find_ancestor(
    nodes: &Vec<SyntaxNode>,
    i: usize,
    kind: NodeKind,
) -> (r: Option<usize>)
    requires
        parents_first(nodes@),
        i < nodes@.len(),
    ensures
        match r {
            Some(a) => ancestor(nodes@, i as int, kind) == Some(a as int) && a <= i,
            None => ancestor(nodes@, i as int, kind) is None,
        },
{
    let mut k: usize = i;
    loop
        invariant
            parents_first(nodes@),
            k <= i < nodes@.len(),
            ancestor(nodes@, k as int, kind) == ancestor(nodes@, i as int, kind),
        decreases k,
    {
        let n: SyntaxNode = nodes[k];
        if n.kind == kind {
            return Some(k);
        }
        match n.parent {
            Some(p) => {
                assert(nodes@[k as int].parent == Some(p));
                k = p;
            },
            None => {
                return None;
            },
        }
    }
}

/// The nearest node of a kind above node `i`.
fn find_outer(
    nodes: &Vec<SyntaxNode>,
    i: usize,
    kind: NodeKind,
) -> (r: Option<usize>)
    requires
        parents_first(nodes@),
        i < nodes@.len(),
    ensures
        match r {
            Some(a) => outer(nodes@, i as int, kind) == Some(a as int) && a < nodes@.len(),
            None => outer(nodes@, i as int, kind) is None,
        },
{
    match nodes[i].parent {
        Some(p) => {
            assert(nodes@[i as int].parent == Some(p));
            find_ancestor(nodes, p, kind)
        },
        None => None,
    }
}

/// Whether node `j` is node `i` or lies under it.
fn is_within(nodes: &Vec<SyntaxNode>, j: usize, i: usize) -> (r: bool)
    requires
        parents_first(nodes@),
        j < nodes@.len(),
    ensures
        r == within(nodes@, j as int, i as int),
{
    let mut k: usize = j;
    while k != i
        invariant
            parents_first(nodes@),
            k <= j < nodes@.len(),
            within(nodes@, k as int, i as int) == within(nodes@, j as int, i as int),
        decreases k,
    {
        match nodes[k].parent {
            Some(p) => {
                assert(nodes@[k as int].parent == Some(p));
                k = p;
            },
            None => {
                return false;
            },
        }
    }
    true
}

pub fn node_box(n: &SyntaxNode) -> (r: Option<TaskBox>)
    ensures
        r == box_of(*n),
{
    if n.kind == NodeKind::TaskChecked {
        Some(TaskBox { offset: n.start, checked: true })
    } else if n.kind == NodeKind::TaskUnchecked {
        Some(TaskBox { offset: n.start, checked: false })
    } else {
        None
    }
}

pub fn is_child(n: &SyntaxNode, parent: usize) -> (r: bool)
    ensures
        r == (n.parent == Some(parent)),
{
    match n.parent {
        Some(p) => p == parent,
        None => false,
    }
}

/// The first task box among the children of a node.
fn find_child_box(nodes: &Vec<SyntaxNode>, parent: usize) -> (r: Option<TaskBox>)
    ensures
        r == child_box(nodes@, parent as int, 0),
{
    let mut j: usize = 0;
    while j < nodes.len()
        invariant
            j <= nodes@.len(),
            child_box(nodes@, parent as int, j as int) == child_box(nodes@, parent as int, 0),
        decreases nodes@.len() - j,
    {
        if is_child(&nodes[j], parent) {
            if let Some(b) = node_box(&nodes[j]) {
                return Some(b);
            }
        }
        j = j + 1;
    }
    None
}

/// The last sibling before node `i`.
pub fn find_sibling_before(nodes: &Vec<SyntaxNode>, i: usize) -> (r: Option<usize>)
    requires
        i < nodes@.len(),
    ensures
        match r {
            Some(a) => sibling_before(nodes@, i as int, i as int) == Some(a as int) && a < i,
            None => sibling_before(nodes@, i as int, i as int) is None,
        },
{
    let parent: usize = match nodes[i].parent {
        Some(p) => p,
        None => {
            return None;
        },
    };
    let mut n: usize = i;
    while n > 0
        invariant
            n <= i < nodes@.len(),
            nodes@[i as int].parent == Some(parent),
            sibling_before(nodes@, i as int, n as int) == sibling_before(
                nodes@,
                i as int,
                i as int,
            ),
        decreases n,
    {
        if is_child(&nodes[n - 1], parent) {
            return Some(n - 1);
        }
        n = n - 1;
    }
    None
}

/// The last list item under node `i`.
pub fn find_last_list_item(
    nodes: &Vec<SyntaxNode>,
    i: usize,
) -> (r: Option<usize>)
    requires
        parents_first(nodes@),
    ensures
        match r {
            Some(a) => last_item(nodes@, i as int, nodes@.len() as int) == Some(a as int) && a
                < nodes@.len(),
            None => last_item(nodes@, i as int, nodes@.len() as int) is None,
        },
{
    let mut n: usize = nodes.len();
    while n > 0
        invariant
            n <= nodes@.len(),
            parents_first(nodes@),
            last_item(nodes@, i as int, n as int) == last_item(
                nodes@,
                i as int,
                nodes@.len() as int,
            ),
        decreases n,
    {
        if nodes[n - 1].kind == NodeKind::ListItem && is_within(nodes, n - 1, i) {
            return Some(n - 1);
        }
        n = n - 1;
    }
    None
}

/// The offsets of the task boxes under node `i` whose state is not `checked`.
pub fn find_nested_checkboxes(
    nodes: &Vec<SyntaxNode>,
    i: usize,
    checked: bool,
) -> (r: Vec<usize>)
    requires
        parents_first(nodes@),
    ensures
        r@ == boxes_to_flip(nodes@, i as int, checked, nodes@.len() as int),
{
    let mut out: Vec<usize> = Vec::new();
    let mut n: usize = 0;
    assert(out@ =~= Seq::<usize>::empty());
    while n < nodes.len()
        invariant
            n <= nodes@.len(),
            parents_first(nodes@),
            out@ == boxes_to_flip(nodes@, i as int, checked, n as int),
        decreases nodes@.len() - n,
    {
        if let Some(b) = node_box(&nodes[n]) {
            if b.checked != checked && is_within(nodes, n, i) {
                out.push(b.offset);
            }
        }
        n = n + 1;
    }
    out
}

/// The task box of the list item around list item `item`.
pub fn find_box_around(nodes: &Vec<SyntaxNode>, item: usize) -> (r: Option<TaskBox>)
    requires
        parents_first(nodes@),
        item < nodes@.len(),
    ensures
        r == box_around(nodes@, item as int),
{
    match find_outer(nodes, item, NodeKind::ListItem) {
        Some(parent) => find_child_box(nodes, parent),
        None => None,
    }
}

/// The task boxes of the list that list item `item` belongs to.
pub fn find_boxes_beside(nodes: &Vec<SyntaxNode>, item: usize) -> (r: Vec<TaskBox>)
    requires
        parents_first(nodes@),
        item < nodes@.len(),
    ensures
        r@ == boxes_beside(nodes@, item as int),
{
    let mut out: Vec<TaskBox> = Vec::new();
    assert(out@ =~= Seq::<TaskBox>::empty());
    let list: usize = match nodes[item].parent {
        Some(p) => p,
        None => {
            return out;
        },
    };
    assert(nodes@[item as int].parent == Some(list));
    if nodes[list].kind != NodeKind::List {
        return out;
    }
    let mut n: usize = 0;
    while n < nodes.len()
        invariant
            n <= nodes@.len(),
            out@ == item_boxes(nodes@, list as int, n as int),
        decreases nodes@.len() - n,
    {
        if nodes[n].kind == NodeKind::ListItem && is_child(&nodes[n], list) {
            if let Some(b) = find_child_box(nodes, n) {
                out.push(b);
            }
        }
        n = n + 1;
    }
    out
}

/// Whether the code block that node `i` stands in holds an offset between its
/// fences.
pub fn is_code_around(nodes: &Vec<SyntaxNode>, i: usize, off: usize) -> (r: bool)
    requires
        parents_first(nodes@),
        i < nodes@.len(),
    ensures
        r == code_around(nodes@, i as int, off),
{
    let kind = NodeKind::FencedCodeBlockDelimiter;
    let block: usize = match find_ancestor(nodes, i, NodeKind::FencedCodeBlock) {
        Some(b) => b,
        None => {
            return false;
        },
    };
    match find_child(nodes, block, kind) {
        Some(d) => {
            assert(d < nodes.len());
            if off < nodes[d].end {
                return false;
            }
            match find_child_from(nodes, block, kind, d + 1) {
                Some(e) => off <= nodes[e].start,
                None => true,
            }
        },
        None => false,
    }
}

impl Buffer {
    /// The list item that holds an offset.
    pub fn find_list_item_node(&self, off: usize) -> (r: Option<usize>)
        requires
            self.wf(),
        ensures
            match r {
                Some(i) => item_at(self@.text, off) == Some(i as int) && nodes_of(
                    self@.text,
                ) is Some && i < nodes_of(self@.text)->0.len(),
                None => item_at(self@.text, off) is None,
            },
    {
        let nodes = match self.nodes() {
            Some(nodes) => nodes,
            None => {
                return None;
            },
        };
        match self.node_spanning(off, off) {
            Some(i) => {
                if i >= nodes.len() {
                    return None;
                }
                find_ancestor(nodes, i, NodeKind::ListItem)
            },
            None => None,
        }
    }

    /// The task box of the list item around the one that holds an offset.
    pub fn find_parent_checkbox(&self, off: usize) -> (r: Option<TaskBox>)
        requires
            self.wf(),
        ensures
            r == parent_box(self@.text, off),
            r matches Some(b) ==> box_fits(self@.text, b.offset as int) && b.offset < off,
    {
        proof {
            self.lemma_wf();
            lemma_parent_box(self@.text, off);
        }
        let item: usize = match self.find_list_item_node(off) {
            Some(i) => i,
            None => {
                return None;
            },
        };
        let nodes = match self.nodes() {
            Some(nodes) => nodes,
            None => {
                return None;
            },
        };
        match find_box_around(nodes, item) {
            Some(b) => if self.byte_to_line(b.offset) < self.byte_to_line(off) {
                Some(b)
            } else {
                None
            },
            None => None,
        }
    }

    /// The task boxes of the list that the item at an offset belongs to.
    pub fn find_sibling_checkboxes(&self, off: usize) -> (r: Vec<TaskBox>)
        requires
            self.wf(),
        ensures
            r@ == sibling_boxes(self@.text, off),
    {
        match (self.nodes(), self.find_list_item_node(off)) {
            (Some(nodes), Some(item)) => find_boxes_beside(nodes, item),
            _ => {
                let none: Vec<TaskBox> = Vec::new();
                assert(none@ =~= Seq::<TaskBox>::empty());
                none
            },
        }
    }

    /// Whether the smallest node over the bytes from `from` to `off` stands in a
    /// code block that holds `off` between its fences.
    fn is_code_over(&self, from: usize, off: usize) -> (r: bool)
        requires
            self.wf(),
        ensures
            r == code_over(self@.text, from, off),
    {
        let nodes = match self.nodes() {
            Some(nodes) => nodes,
            None => {
                return false;
            },
        };
        match self.node_spanning(from, off) {
            Some(i) => {
                if i >= nodes.len() {
                    return false;
                }
                is_code_around(nodes, i, off)
            },
            None => false,
        }
    }

    /// Whether an offset lies in code.
    pub fn in_code_block(&self, off: usize) -> (r: bool)
        requires
            self.wf(),
        ensures
            r == in_code(self@.text, off),
    {
        self.is_code_over(off, off) || (0 < off && off == self.len_bytes() && self.is_code_over(
            off - 1,
            off,
        ))
    }
}

/// Whether every box is checked.
pub fn are_all_checked(boxes: &Vec<TaskBox>) -> (r: bool)
    ensures
        r == all_checked(boxes@),
{
    let mut i: usize = 0;
    while i < boxes.len()
        invariant
            i <= boxes@.len(),
            forall|j: int| 0 <= j < i ==> (#[trigger] boxes@[j]).checked,
        decreases boxes@.len() - i,
    {
        if !boxes[i].checked {
            return false;
        }
        i = i + 1;
    }
    true
}

/// Without task boxes no item has one.
pub proof fn lemma_no_parent_box(text: Seq<u8>, off: usize)
    requires
        without_boxes(text),
    ensures
        parent_box(text, off) is None,
{
    if let Some(nodes) = nodes_of(text) {
        if let Some(item) = item_at(text, off) {
            if let Some(parent) = outer(nodes, item, NodeKind::ListItem) {
                lemma_no_child_box(nodes, parent, 0);
            }
        }
    }
}

proof fn lemma_no_child_box(nodes: Seq<SyntaxNode>, parent: int, j: int)
    requires
        0 <= j,
        forall|i: int| 0 <= i < nodes.len() ==> box_of(#[trigger] nodes[i]) is None,
    ensures
        child_box(nodes, parent, j) is None,
    decreases nodes.len() - j,
{
    if j < nodes.len() {
        assert(box_of(nodes[j]) is None);
        lemma_no_child_box(nodes, parent, j + 1);
    }
}

} // verus!
