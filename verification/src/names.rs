//! The names that the grammar and the keyboard use.

use vstd::prelude::*;

use crate::action::{key_named, Key};
use crate::tree::{kind_named, NodeKind};

verus! {

/// Whether the grammar calls a kind of node by a name.
pub open spec fn grammar_name(of: NodeKind, name: Seq<char>) -> bool {
    match of {
        NodeKind::Document => name == "document"@,
        NodeKind::Error => name == "ERROR"@,
        NodeKind::BlockQuote => name == "block_quote"@,
        NodeKind::BlockQuoteMarker => name == "block_quote_marker"@,
        NodeKind::BlockContinuation => name == "block_continuation"@,
        NodeKind::List => name == "list"@,
        NodeKind::ListItem => name == "list_item"@,
        NodeKind::ListMarkerMinus => name == "list_marker_minus"@,
        NodeKind::ListMarkerPlus => name == "list_marker_plus"@,
        NodeKind::ListMarkerStar => name == "list_marker_star"@,
        NodeKind::ListMarkerDot => name == "list_marker_dot"@,
        NodeKind::ListMarkerParenthesis => name == "list_marker_parenthesis"@,
        NodeKind::TaskChecked => name == "task_list_marker_checked"@,
        NodeKind::TaskUnchecked => name == "task_list_marker_unchecked"@,
        NodeKind::FencedCodeBlock => name == "fenced_code_block"@,
        NodeKind::FencedCodeBlockDelimiter => name == "fenced_code_block_delimiter"@,
        NodeKind::InfoString => name == "info_string"@,
        NodeKind::HeadingMarker1 => name == "atx_h1_marker"@,
        NodeKind::HeadingMarker2 => name == "atx_h2_marker"@,
        NodeKind::HeadingMarker3 => name == "atx_h3_marker"@,
        NodeKind::HeadingMarker4 => name == "atx_h4_marker"@,
        NodeKind::HeadingMarker5 => name == "atx_h5_marker"@,
        NodeKind::HeadingMarker6 => name == "atx_h6_marker"@,
        NodeKind::Other => false,
    }
}

/// A kind of node goes by its name in the grammar and by no other, and what goes by no
/// such name is of no kind that counts.
#[verifier::spinoff_prover]
#[verifier::rlimit(60)]
pub proof fn law_nodes_go_by_their_names(name: Seq<char>, kind: NodeKind)
    ensures
        kind != NodeKind::Other ==> (kind_named(name) == kind <==> grammar_name(kind, name)),
        kind_named(name) == NodeKind::Other <==> forall|k: NodeKind|
            !(#[trigger] grammar_name(k, name)),
{
    reveal_strlit("document");
    reveal_strlit("ERROR");
    reveal_strlit("block_quote");
    reveal_strlit("block_quote_marker");
    reveal_strlit("block_continuation");
    reveal_strlit("list");
    reveal_strlit("list_item");
    reveal_strlit("list_marker_minus");
    reveal_strlit("list_marker_plus");
    reveal_strlit("list_marker_star");
    reveal_strlit("list_marker_dot");
    reveal_strlit("list_marker_parenthesis");
    reveal_strlit("task_list_marker_checked");
    reveal_strlit("task_list_marker_unchecked");
    reveal_strlit("fenced_code_block");
    reveal_strlit("fenced_code_block_delimiter");
    reveal_strlit("info_string");
    reveal_strlit("atx_h1_marker");
    reveal_strlit("atx_h2_marker");
    reveal_strlit("atx_h3_marker");
    reveal_strlit("atx_h4_marker");
    reveal_strlit("atx_h5_marker");
    reveal_strlit("atx_h6_marker");
    assert("document"@.len() == 8);
    assert("ERROR"@.len() == 5);
    assert("block_quote"@.len() == 11);
    assert("block_quote_marker"@.len() == 18);
    assert("block_continuation"@.len() == 18);
    assert("list"@.len() == 4);
    assert("list_item"@.len() == 9);
    assert("list_marker_minus"@.len() == 17);
    assert("list_marker_plus"@.len() == 16);
    assert("list_marker_star"@.len() == 16);
    assert("list_marker_dot"@.len() == 15);
    assert("list_marker_parenthesis"@.len() == 23);
    assert("task_list_marker_checked"@.len() == 24);
    assert("task_list_marker_unchecked"@.len() == 26);
    assert("fenced_code_block"@.len() == 17);
    assert("fenced_code_block_delimiter"@.len() == 27);
    assert("info_string"@.len() == 11);
    assert("atx_h1_marker"@.len() == 13);
    assert("atx_h2_marker"@.len() == 13);
    assert("atx_h3_marker"@.len() == 13);
    assert("atx_h4_marker"@.len() == 13);
    assert("atx_h5_marker"@.len() == 13);
    assert("atx_h6_marker"@.len() == 13);
    assert("block_quote"@[0] == 'b');
    assert("info_string"@[0] == 'i');
    assert("block_quote_marker"@[6] == 'q');
    assert("block_continuation"@[6] == 'c');
    assert("list_marker_minus"@[0] == 'l');
    assert("fenced_code_block"@[0] == 'f');
    assert("list_marker_plus"@[12] == 'p');
    assert("list_marker_star"@[12] == 's');
    assert("atx_h1_marker"@[5] == '1');
    assert("atx_h2_marker"@[5] == '2');
    assert("atx_h3_marker"@[5] == '3');
    assert("atx_h4_marker"@[5] == '4');
    assert("atx_h5_marker"@[5] == '5');
    assert("atx_h6_marker"@[5] == '6');
    let k = kind_named(name);
    if k != NodeKind::Other {
        assert(grammar_name(k, name));
    }
}

/// Whether a key that counts is called by a name.
pub open spec fn key_name(of: Key, name: Seq<char>) -> bool {
    match of {
        Key::Escape => name == "escape"@,
        Key::Backspace => name == "backspace"@,
        Key::Delete => name == "delete"@,
        Key::Enter => name == "enter"@,
        Key::Tab => name == "tab"@,
        Key::Left => name == "left"@,
        Key::Right => name == "right"@,
        Key::Up => name == "up"@,
        Key::Down => name == "down"@,
        Key::Home => name == "home"@,
        Key::End => name == "end"@,
        Key::A => name == "a"@,
        Key::C => name == "c"@,
        Key::N => name == "n"@,
        Key::R => name == "r"@,
        Key::S => name == "s"@,
        Key::V => name == "v"@,
        Key::X => name == "x"@,
        Key::Y => name == "y"@,
        Key::Z => name == "z"@,
        Key::Other => false,
    }
}

/// A key goes by its name and by no other, and what goes by no such name is a key that
/// only types.
#[verifier::spinoff_prover]
#[verifier::rlimit(60)]
pub proof fn law_keys_go_by_their_names(name: Seq<char>, key: Key)
    ensures
        key != Key::Other ==> (key_named(name) == key <==> key_name(key, name)),
        key_named(name) == Key::Other <==> forall|k: Key| !(#[trigger] key_name(k, name)),
{
    reveal_strlit("escape");
    reveal_strlit("backspace");
    reveal_strlit("delete");
    reveal_strlit("enter");
    reveal_strlit("tab");
    reveal_strlit("left");
    reveal_strlit("right");
    reveal_strlit("up");
    reveal_strlit("down");
    reveal_strlit("home");
    reveal_strlit("end");
    reveal_strlit("a");
    reveal_strlit("c");
    reveal_strlit("n");
    reveal_strlit("r");
    reveal_strlit("s");
    reveal_strlit("v");
    reveal_strlit("x");
    reveal_strlit("y");
    reveal_strlit("z");
    assert("escape"@.len() == 6);
    assert("backspace"@.len() == 9);
    assert("delete"@.len() == 6);
    assert("enter"@.len() == 5);
    assert("tab"@.len() == 3);
    assert("left"@.len() == 4);
    assert("right"@.len() == 5);
    assert("up"@.len() == 2);
    assert("down"@.len() == 4);
    assert("home"@.len() == 4);
    assert("end"@.len() == 3);
    assert("a"@.len() == 1);
    assert("c"@.len() == 1);
    assert("n"@.len() == 1);
    assert("r"@.len() == 1);
    assert("s"@.len() == 1);
    assert("v"@.len() == 1);
    assert("x"@.len() == 1);
    assert("y"@.len() == 1);
    assert("z"@.len() == 1);
    assert("escape"@[0] == 'e');
    assert("delete"@[0] == 'd');
    assert("enter"@[0] == 'e');
    assert("right"@[0] == 'r');
    assert("tab"@[0] == 't');
    assert("end"@[0] == 'e');
    assert("left"@[0] == 'l');
    assert("down"@[0] == 'd');
    assert("home"@[0] == 'h');
    assert("a"@[0] == 'a');
    assert("c"@[0] == 'c');
    assert("n"@[0] == 'n');
    assert("r"@[0] == 'r');
    assert("s"@[0] == 's');
    assert("v"@[0] == 'v');
    assert("x"@[0] == 'x');
    assert("y"@[0] == 'y');
    assert("z"@[0] == 'z');
    let k = key_named(name);
    if k != Key::Other {
        assert(key_name(k, name));
    }
}

} // verus!
