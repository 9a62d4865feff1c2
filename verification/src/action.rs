//! What a user does to an editor, and what the editor asks for in return.

use vstd::prelude::*;

use crate::marker::Span;
use crate::text::str_eq;

verus! {

/// A direction in which the cursor moves.
#[derive(Clone, Copy, Debug, PartialEq, Eq, Structural)]
pub enum Direction {
    Left,
    Right,
    Up,
    Down,
}

/// A place on the screen, its coordinates as bit patterns. They are carried
/// along and not computed with.
#[derive(Clone, Copy, Debug, PartialEq, Eq, Structural)]
pub struct ScreenPoint {
    pub x_bits: u32,
    pub y_bits: u32,
}

/// Something done to an editor.
pub enum EditorAction {
    Type(char),
    Enter,
    ShiftEnter,
    ShiftAltEnter,
    Tab,
    ShiftTab,
    Backspace,
    Move(Direction),
    Click { offset: usize, shift: bool, click_count: usize },
    Drag { offset: usize },
    ToggleCheckbox { line_number: usize },
    UpdateHover {
        over_checkbox: bool,
        over_link: bool,
        hovered_github_ref_range: Option<Span>,
        hovered_ref_position: Option<ScreenPoint>,
    },
    OpenLink { url: String },
}

/// What an action asks for.
pub struct ActionOutcome {
    /// Whether the editor is to be drawn again.
    pub redraw: bool,
    /// An address to open.
    pub open: Option<String>,
}

/// What an action asks for, as contracts speak of it.
pub struct ActionOutcomeModel {
    pub redraw: bool,
    pub open: Option<Seq<char>>,
}

impl View for ActionOutcome {
    type V = ActionOutcomeModel;

    open spec fn view(&self) -> ActionOutcomeModel {
        ActionOutcomeModel {
            redraw: self.redraw,
            open: match self.open {
                Some(s) => Some(s@),
                None => None,
            },
        }
    }
}

/// A key that was pressed, and what was held with it.
pub struct Keystroke {
    pub key: String,
    /// What the key types.
    pub key_char: Option<String>,
    pub control: bool,
    pub platform: bool,
    pub alt: bool,
    pub shift: bool,
}

/// The keys that mean something to an editor.
#[derive(Clone, Copy, Debug, PartialEq, Eq, Structural)]
pub enum Key {
    Escape,
    Backspace,
    Delete,
    Enter,
    Tab,
    Left,
    Right,
    Up,
    Down,
    Home,
    End,
    A,
    C,
    N,
    R,
    S,
    V,
    X,
    Y,
    Z,
    Other,
}

/// A key that was pressed, as contracts speak of it.
pub struct KeyModel {
    pub key: Key,
    pub key_char: Option<Seq<char>>,
    pub control: bool,
    pub platform: bool,
    pub alt: bool,
    pub shift: bool,
}

/// The key that goes by a name.
pub open spec fn key_named(name: Seq<char>) -> Key {
    if name == "escape"@ {
        Key::Escape
    } else if name == "backspace"@ {
        Key::Backspace
    } else if name == "delete"@ {
        Key::Delete
    } else if name == "enter"@ {
        Key::Enter
    } else if name == "tab"@ {
        Key::Tab
    } else if name == "left"@ {
        Key::Left
    } else if name == "right"@ {
        Key::Right
    } else if name == "up"@ {
        Key::Up
    } else if name == "down"@ {
        Key::Down
    } else if name == "home"@ {
        Key::Home
    } else if name == "end"@ {
        Key::End
    } else if name == "a"@ {
        Key::A
    } else if name == "c"@ {
        Key::C
    } else if name == "n"@ {
        Key::N
    } else if name == "r"@ {
        Key::R
    } else if name == "s"@ {
        Key::S
    } else if name == "v"@ {
        Key::V
    } else if name == "x"@ {
        Key::X
    } else if name == "y"@ {
        Key::Y
    } else if name == "z"@ {
        Key::Z
    } else {
        Key::Other
    }
}

impl View for Keystroke {
    type V = KeyModel;

    open spec fn view(&self) -> KeyModel {
        KeyModel {
            key: key_named(self.key@),
            key_char: match self.key_char {
                Some(s) => Some(s@),
                None => None,
            },
            control: self.control,
            platform: self.platform,
            alt: self.alt,
            shift: self.shift,
        }
    }
}

impl KeyModel {
    /// Whether control or the platform's own key is held.
    pub open spec fn command(self) -> bool {
        self.control || self.platform
    }
}

/// The key that goes by a name.
pub fn key_from_name(name: &str) -> (r: Key)
    ensures
        r == key_named(name@),
{
    if str_eq(name, "escape") {
        Key::Escape
    } else if str_eq(name, "backspace") {
        Key::Backspace
    } else if str_eq(name, "delete") {
        Key::Delete
    } else if str_eq(name, "enter") {
        Key::Enter
    } else if str_eq(name, "tab") {
        Key::Tab
    } else if str_eq(name, "left") {
        Key::Left
    } else if str_eq(name, "right") {
        Key::Right
    } else if str_eq(name, "up") {
        Key::Up
    } else if str_eq(name, "down") {
        Key::Down
    } else if str_eq(name, "home") {
        Key::Home
    } else if str_eq(name, "end") {
        Key::End
    } else if str_eq(name, "a") {
        Key::A
    } else if str_eq(name, "c") {
        Key::C
    } else if str_eq(name, "n") {
        Key::N
    } else if str_eq(name, "r") {
        Key::R
    } else if str_eq(name, "s") {
        Key::S
    } else if str_eq(name, "v") {
        Key::V
    } else if str_eq(name, "x") {
        Key::X
    } else if str_eq(name, "y") {
        Key::Y
    } else if str_eq(name, "z") {
        Key::Z
    } else {
        Key::Other
    }
}

/// What is to be done outside the editor after a key.
pub enum KeyEffect {
    Nothing,
    /// Put a text on the clipboard.
    WriteClipboard(String),
    /// Read the clipboard and type what it holds.
    ReadClipboard,
    /// Save the text.
    Save,
    /// Ask for all references anew.
    RefreshRefs,
}

/// What is to be done outside the editor, as contracts speak of it.
pub enum EffectModel {
    Nothing,
    WriteClipboard(Seq<char>),
    ReadClipboard,
    Save,
    RefreshRefs,
}

impl View for KeyEffect {
    type V = EffectModel;

    open spec fn view(&self) -> EffectModel {
        match self {
            KeyEffect::Nothing => EffectModel::Nothing,
            KeyEffect::WriteClipboard(s) => EffectModel::WriteClipboard(s@),
            KeyEffect::ReadClipboard => EffectModel::ReadClipboard,
            KeyEffect::Save => EffectModel::Save,
            KeyEffect::RefreshRefs => EffectModel::RefreshRefs,
        }
    }
}

/// What a key asks for.
pub struct KeyOutcome {
    /// Whether the editor is to be drawn again.
    pub redraw: bool,
    pub effect: KeyEffect,
}

/// What a key asks for, as contracts speak of it.
pub struct KeyOutcomeModel {
    pub redraw: bool,
    pub effect: EffectModel,
}

impl View for KeyOutcome {
    type V = KeyOutcomeModel;

    open spec fn view(&self) -> KeyOutcomeModel {
        KeyOutcomeModel { redraw: self.redraw, effect: self.effect@ }
    }
}

} // verus!
