use writ::context::{build_prefixes_under, find_containers};
use writ::edit::find_empty_block_around;
use writ::line_scan::scan_markers;
use writ::marker::{MarkerKind, Span};
use writ::outline::{
    are_all_checked, find_ancestor, find_box_around, find_boxes_beside, find_last_list_item,
    find_nested_checkboxes, find_sibling_before, TaskBox,
};
use writ::tree::{build_structure, NodeKind, SyntaxNode, SyntaxTree};

fn raw(kind: &str, start: usize, end: usize, depth: usize) -> (String, usize, usize, usize) {
    (kind.to_string(), start, end, depth)
}

/// `- [ ] a` with `- [x] b` under it.
const TASKS: &str = "- [ ] a\n  - [x] b\n";

fn tasks() -> Vec<SyntaxNode> {
    let reported = vec![
        raw("document", 0, 18, 0),
        raw("section", 0, 18, 1),
        raw("list", 0, 18, 2),
        raw("list_item", 0, 18, 3),
        raw("list_marker_minus", 0, 2, 4),
        raw("task_list_marker_unchecked", 2, 5, 4),
        raw("paragraph", 6, 10, 4),
        raw("block_continuation", 8, 10, 5),
        raw("list", 10, 18, 4),
        raw("list_item", 10, 18, 5),
        raw("list_marker_minus", 10, 12, 6),
        raw("task_list_marker_checked", 12, 15, 6),
        raw("paragraph", 16, 18, 6),
    ];
    build_structure(TASKS.as_bytes(), &reported).expect("the nodes fit")
}

#[test]
fn reported_nodes_get_their_parents() {
    let nodes = tasks();
    assert_eq!(nodes[0], SyntaxNode { kind: NodeKind::Document, start: 0, end: 18, parent: None });
    assert_eq!(nodes[1].parent, Some(0));
    assert_eq!(nodes[5], SyntaxNode {
        kind: NodeKind::TaskUnchecked,
        start: 2,
        end: 5,
        parent: Some(3),
    });
    assert_eq!(nodes[8].parent, Some(3));
    assert_eq!(nodes[12].parent, Some(9));
}

#[test]
fn nodes_that_do_not_fit_are_refused() {
    let text = "é".as_bytes();
    assert!(build_structure(text, &vec![]).is_none());
    assert!(build_structure(text, &vec![raw("document", 0, 3, 0)]).is_none());
    assert!(build_structure(text, &vec![raw("document", 0, 1, 0)]).is_none());
    assert!(build_structure(text, &vec![raw("document", 0, 2, 1)]).is_none());
    let two_roots = vec![raw("document", 0, 2, 0), raw("document", 0, 2, 0)];
    assert!(build_structure(text, &two_roots).is_none());
    let gap = vec![raw("document", 0, 2, 0), raw("section", 0, 2, 2)];
    assert!(build_structure(text, &gap).is_none());
    let no_box = vec![raw("task_list_marker_checked", 0, 2, 0)];
    assert!(build_structure(text, &no_box).is_none());
    assert!(build_structure(text, &vec![raw("document", 0, 2, 0)]).is_some());
}

#[test]
fn markers_that_hold_a_bracket_or_a_line_end_are_refused() {
    let text = b"-\n[ ] a\n";
    let bullet = |end: usize| vec![raw("document", 0, 8, 0), raw("list_marker_minus", 0, end, 1)];
    assert!(build_structure(text, &bullet(1)).is_some());
    assert!(build_structure(text, &bullet(2)).is_none());
    let quote = vec![raw("document", 0, 8, 0), raw("block_quote_marker", 2, 4, 1)];
    assert!(build_structure(text, &quote).is_none());
    let other = vec![raw("document", 0, 8, 0), raw("paragraph", 0, 8, 1)];
    assert!(build_structure(text, &other).is_some());
}

#[test]
fn the_markers_that_the_parser_finds_fit() {
    let texts = [
        "-\n- \n-\tx\n",
        "-\n  a\n\n  b\n",
        "- - - x\n",
        "* \t [ ] x\n+ [x] y\n",
        "1.\n2) a\n   10. [ ] b\n",
        ">\n>\n> a\n>b\n",
        "> > - [ ] a\n> >   - [x] b\n> >\n",
        " > - 1. [ ] x\n >   2. y\n",
        "- [ ] a\r\n  - [x] b\r\n>\r\n> c\r\n",
        "- [a](b)\n- [ ]\n- [",
        "> [ ] a\n-[ ] b\n",
        "-      code\n\n      more\n",
        "a\n- \n===\n1) [",
        "- a\n>\t- b\n\t\t- c\n",
    ];
    for text in texts {
        assert!(SyntaxTree::parse(text.as_bytes()).is_some(), "no structure for {:?}", text);
    }
}

#[test]
fn the_parser_is_read_in_document_order() {
    let tree = SyntaxTree::parse(TASKS.as_bytes()).expect("a tree");
    let nodes = tree.nodes();
    assert_eq!(nodes[0].kind, NodeKind::Document);
    let boxes: Vec<(usize, usize)> = nodes
        .iter()
        .filter(|n| n.kind == NodeKind::TaskChecked || n.kind == NodeKind::TaskUnchecked)
        .map(|n| (n.start, n.end))
        .collect();
    assert_eq!(boxes, vec![(2, 5), (12, 15)]);
    for (i, n) in nodes.iter().enumerate() {
        assert!(n.parent.map_or(i == 0, |p| p < i));
    }
    let i = tree.spanning(16, 17).expect("a node");
    assert!(nodes[i].start <= 16 && 17 <= nodes[i].end);
    assert_ne!(i, 0);
}

#[test]
fn markers_are_scanned_off_the_nodes() {
    let nodes = tasks();
    let first = scan_markers(TASKS.as_bytes(), &nodes, 0, 7);
    assert_eq!(first.len(), 2);
    assert_eq!(first[0].range, Span { start: 0, end: 2 });
    assert_eq!(first[1].range, Span { start: 2, end: 6 });
    assert!(matches!(first[1].kind, MarkerKind::Checkbox { checked: false }));
    let second = scan_markers(TASKS.as_bytes(), &nodes, 8, 17);
    assert_eq!(second.len(), 3);
    assert!(matches!(second[0].kind, MarkerKind::Indent));
    assert_eq!(second[0].range, Span { start: 8, end: 10 });
    assert!(matches!(second[2].kind, MarkerKind::Checkbox { checked: true }));
}

#[test]
fn containers_and_prefixes_follow_the_nodes() {
    let nodes = tasks();
    let kinds = find_containers(TASKS.as_bytes(), &nodes, 12);
    assert_eq!(kinds.len(), 4);
    assert!(matches!(kinds[0], MarkerKind::ListItem { ordered: false, .. }));
    assert!(matches!(kinds[1], MarkerKind::Checkbox { checked: false }));
    assert!(matches!(kinds[3], MarkerKind::Checkbox { checked: true }));
    let prefixes = build_prefixes_under(TASKS.as_bytes(), &nodes, 12, None);
    let shown: Vec<String> =
        prefixes.into_iter().map(|p| String::from_utf8(p).expect("text")).collect();
    assert_eq!(shown, vec!["- [ ] ", "  ", "  - [ ] ", "    ", "    - [ ] ", ""]);
    let checked = build_prefixes_under(TASKS.as_bytes(), &nodes, 6, Some(true));
    assert_eq!(checked[0], b"- [x] ".to_vec());
}

#[test]
fn boxes_are_found_from_an_item() {
    let nodes = tasks();
    assert_eq!(find_ancestor(&nodes, 12, NodeKind::ListItem), Some(9));
    assert_eq!(find_ancestor(&nodes, 12, NodeKind::BlockQuote), None);
    assert_eq!(find_box_around(&nodes, 9), Some(TaskBox { offset: 2, checked: false }));
    assert_eq!(find_box_around(&nodes, 3), None);
    assert_eq!(find_boxes_beside(&nodes, 9), vec![TaskBox { offset: 12, checked: true }]);
    assert!(are_all_checked(&find_boxes_beside(&nodes, 9)));
    assert!(!are_all_checked(&find_boxes_beside(&nodes, 3)));
    assert_eq!(find_nested_checkboxes(&nodes, 3, true), vec![2]);
    assert_eq!(find_nested_checkboxes(&nodes, 3, false), vec![12]);
    assert_eq!(find_last_list_item(&nodes, 2), Some(9));
    assert_eq!(find_sibling_before(&nodes, 6), Some(5));
    assert_eq!(find_sibling_before(&nodes, 0), None);
}

#[test]
fn an_empty_code_block_is_told_from_a_full_one() {
    let text = "```\n\n```\n";
    let nodes = vec![
        SyntaxNode { kind: NodeKind::Document, start: 0, end: 9, parent: None },
        SyntaxNode { kind: NodeKind::FencedCodeBlock, start: 0, end: 9, parent: Some(0) },
        SyntaxNode { kind: NodeKind::FencedCodeBlockDelimiter, start: 0, end: 3, parent: Some(1) },
    ];
    let found = find_empty_block_around(text.as_bytes(), &nodes, 2, 3);
    assert_eq!(found, Some(Span { start: 0, end: 8 }));
    assert_eq!(find_empty_block_around(text.as_bytes(), &nodes, 0, 3), None);
    assert_eq!(find_empty_block_around(text.as_bytes(), &nodes, 2, 8), None);
    assert_eq!(find_empty_block_around("```\nx\n```".as_bytes(), &nodes, 2, 3), None);
}
