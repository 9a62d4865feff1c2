//! An editor without its window: the state of the text, what the mouse is over,
//! references and their completion, and changes under review.

use vstd::prelude::*;
use vstd::utf8::*;

use crate::action::ScreenPoint;
use crate::autocomplete::{AutocompleteState, CompletionModel};
use crate::buffer::{Buffer, BufferModel};
use crate::cursor::Selection;
use crate::diff::{DiffModel, DiffState};
use crate::github::{
    GitHubContext, GitHubValidationCache, KnownModel, MatchModel, NakedUrl, RawGitHubMatch,
    RefModel, UrlModel,
};
use crate::marker::Span;
use crate::state::{EditorState, StateModel};
use crate::text::lemma_encode_injective;

verus! {

/// The references on a line.
pub struct LineRefs {
    pub line: usize,
    pub refs: Vec<RawGitHubMatch>,
}

/// The references on a line, as contracts speak of them.
#[verifier::ext_equal]
pub struct LineRefsModel {
    pub line: usize,
    pub refs: Seq<MatchModel>,
}

impl View for LineRefs {
    type V = LineRefsModel;

    open spec fn view(&self) -> LineRefsModel {
        LineRefsModel { line: self.line, refs: self.refs@.map_values(|m: RawGitHubMatch| m@) }
    }
}

/// The addresses on a line.
pub struct LineUrls {
    pub line: usize,
    pub urls: Vec<NakedUrl>,
}

/// The addresses on a line, as contracts speak of them.
#[verifier::ext_equal]
pub struct LineUrlsModel {
    pub line: usize,
    pub urls: Seq<UrlModel>,
}

impl View for LineUrls {
    type V = LineUrlsModel;

    open spec fn view(&self) -> LineUrlsModel {
        LineUrlsModel { line: self.line, urls: self.urls@.map_values(|u: NakedUrl| u@) }
    }
}

/// What an editor remembers besides its text.
#[derive(Clone, Copy, Debug, PartialEq, Eq, Structural)]
pub struct EditorFlags {
    /// Whether the cursor is to be brought into sight.
    pub scroll_to_cursor_pending: bool,
    /// The cursor's line when the editor was last drawn.
    pub last_cursor_line: Option<usize>,
    /// The cursor when the editor was last drawn.
    pub last_cursor_offset: Option<usize>,
    pub input_blocked: bool,
    pub streaming_mode: bool,
    /// Whether the mouse is over a task box.
    pub hovering_checkbox: bool,
    /// Whether the mouse is over a link.
    pub hovering_link_region: bool,
    /// The reference that the mouse is over.
    pub hovered_github_ref_range: Option<Span>,
    pub hovered_ref_position: Option<ScreenPoint>,
    /// Whether control or the platform's own key is held.
    pub ctrl_held: bool,
    /// The version of the text that the list of lines was last made for.
    pub last_synced_version: u64,
    /// Whether a selection is being dragged at the edge of the window.
    pub in_drag_scroll_zone: bool,
    /// Whether a selection is being dragged.
    pub is_selecting: bool,
    /// Whether a character is being composed.
    pub composing: bool,
    /// Whether this editor's state is shown in the status bar and the title bar.
    pub is_primary: bool,
    /// Whether an agent is about to write the file.
    pub pending_agent_write: bool,
    /// Whether GitHub can be asked.
    pub has_github_client: bool,
}

/// The links in a text, and what is known of the references among them.
pub struct Links {
    /// The repository that short references belong to.
    pub context: Option<GitHubContext>,
    pub cache: GitHubValidationCache,
    /// The addresses on the lines in sight.
    pub urls: Vec<LineUrls>,
    /// The references on the lines in sight.
    pub refs: Vec<LineRefs>,
}

/// The links in a text, as contracts speak of them.
pub struct LinksModel {
    pub context: Option<(Seq<char>, Seq<char>)>,
    pub known: Seq<(RefModel, KnownModel)>,
    pub urls: Seq<LineUrlsModel>,
    pub refs: Seq<LineRefsModel>,
}

impl View for Links {
    type V = LinksModel;

    open spec fn view(&self) -> LinksModel {
        LinksModel {
            context: match self.context {
                Some(c) => Some((c.owner@, c.repo@)),
                None => None,
            },
            known: self.cache@,
            urls: urls_models(self.urls@),
            refs: refs_models(self.refs@),
        }
    }
}

/// An editor without its window.
pub struct Editor {
    pub state: EditorState,
    pub flags: EditorFlags,
    pub links: Links,
    /// The completion under way.
    pub autocomplete: Option<AutocompleteState>,
    /// Changes under review.
    pub diff_state: Option<DiffState>,
    /// The lines of the user's messages.
    pub user_message_lines: Vec<Span>,
}

/// The references on lines, as contracts speak of them.
#[verifier::opaque]
pub open spec fn refs_models(v: Seq<LineRefs>) -> Seq<LineRefsModel> {
    v.map_values(|r: LineRefs| r@)
}

/// The addresses on lines, as contracts speak of them.
#[verifier::opaque]
pub open spec fn urls_models(v: Seq<LineUrls>) -> Seq<LineUrlsModel> {
    v.map_values(|u: LineUrls| u@)
}

/// An editor, as contracts speak of it.
pub struct EditorModel {
    pub state: StateModel,
    pub flags: EditorFlags,
    pub links: LinksModel,
    pub completion: Option<CompletionModel>,
    pub diff: Option<DiffModel>,
    pub messages: Seq<Span>,
}

impl View for Editor {
    type V = EditorModel;

    open spec fn view(&self) -> EditorModel {
        EditorModel {
            state: self.state@,
            flags: self.flags,
            links: self.links@,
            completion: match self.autocomplete {
                Some(ac) => Some(ac@),
                None => None,
            },
            diff: match self.diff_state {
                Some(d) => Some(d@),
                None => None,
            },
            messages: self.user_message_lines@,
        }
    }
}

/// What a new editor remembers.
pub open spec fn fresh_flags() -> EditorFlags {
    EditorFlags {
        scroll_to_cursor_pending: false,
        last_cursor_line: None,
        last_cursor_offset: None,
        input_blocked: false,
        streaming_mode: false,
        hovering_checkbox: false,
        hovering_link_region: false,
        hovered_github_ref_range: None,
        hovered_ref_position: None,
        ctrl_held: false,
        last_synced_version: 0,
        in_drag_scroll_zone: false,
        is_selecting: false,
        composing: false,
        is_primary: true,
        pending_agent_write: false,
        has_github_client: false,
    }
}

impl EditorModel {
    /// The text.
    pub open spec fn text(self) -> Seq<u8> {
        self.state.text()
    }

    /// The cursor.
    pub open spec fn cursor(self) -> usize {
        self.state.selection.head
    }

    /// The editor with another state of the text.
    pub open spec fn with_state(self, state: StateModel) -> EditorModel {
        EditorModel { state, ..self }
    }

    /// The editor that remembers something else.
    pub open spec fn with_flags(self, flags: EditorFlags) -> EditorModel {
        EditorModel { flags, ..self }
    }

    /// The editor that is to bring the cursor into sight.
    pub open spec fn scrolling(self) -> EditorModel {
        self.with_flags(EditorFlags { scroll_to_cursor_pending: true, ..self.flags })
    }

    /// The editor of a text.
    pub open spec fn fresh(text: Seq<u8>) -> EditorModel {
        EditorModel {
            state: StateModel {
                buffer: BufferModel::fresh(text),
                selection: Selection { anchor: 0, head: 0 },
                cache: None,
            },
            flags: fresh_flags(),
            links: LinksModel {
                context: None,
                known: Seq::<(RefModel, KnownModel)>::empty(),
                urls: Seq::<LineUrlsModel>::empty(),
                refs: Seq::<LineRefsModel>::empty(),
            },
            completion: None,
            diff: None,
            messages: Seq::<Span>::empty(),
        }
    }

    /// The editor after its text was replaced: the history starts anew and the
    /// cursor stands at the start.
    pub open spec fn with_text(self, text: Seq<u8>) -> EditorModel {
        self.with_state(self.state.holding(BufferModel::fresh(text)).at(0))
    }
}

impl Editor {
    /// What is held is well formed.
    pub open spec fn wf(&self) -> bool {
        &&& self.state.wf()
        &&& self.autocomplete matches Some(ac) ==> ac.wf()
        &&& self.diff_state matches Some(d) ==> d.wf()
    }

    /// What is held is well formed, and the selection fits the text.
    pub open spec fn ready(&self) -> bool {
        self.wf() && self.state.ready()
    }

    /// What is held is well formed, and the selection stands at character
    /// boundaries.
    pub open spec fn steady(&self) -> bool {
        self.wf() && self.state.steady()
    }

    /// An editor of a text.
    pub fn new(content: &str) -> (r: Editor)
        ensures
            r.ready(),
            r.steady(),
            r@ == EditorModel::fresh(encode_utf8(content@)),
    {
        let r = Editor {
            state: EditorState::new(content),
            flags: EditorFlags {
                scroll_to_cursor_pending: false,
                last_cursor_line: None,
                last_cursor_offset: None,
                input_blocked: false,
                streaming_mode: false,
                hovering_checkbox: false,
                hovering_link_region: false,
                hovered_github_ref_range: None,
                hovered_ref_position: None,
                ctrl_held: false,
                last_synced_version: 0,
                in_drag_scroll_zone: false,
                is_selecting: false,
                composing: false,
                is_primary: true,
                pending_agent_write: false,
                has_github_client: false,
            },
            links: Links {
                context: None,
                cache: GitHubValidationCache::new(),
                urls: Vec::new(),
                refs: Vec::new(),
            },
            autocomplete: None,
            diff_state: None,
            user_message_lines: Vec::new(),
        };
        proof {
            reveal(refs_models);
            reveal(urls_models);
            assert(r@.links.refs =~= Seq::<LineRefsModel>::empty());
            assert(r@.links.urls =~= Seq::<LineUrlsModel>::empty());
            assert(r@.messages =~= Seq::<Span>::empty());
        }
        r
    }

    /// Remembers something else.
    pub(crate) fn set_flags(&mut self, flags: EditorFlags)
        requires
            old(self).wf(),
        ensures
            final(self).wf(),
            final(self).state == old(self).state,
            final(self)@ == old(self)@.with_flags(flags),
    {
        self.flags = flags;
    }

    /// Replaces the whole text and puts the cursor at its start.
    pub fn set_text(&mut self, content: &str)
        requires
            old(self).wf(),
        ensures
            final(self).ready(),
            final(self).steady(),
            final(self)@ == old(self)@.with_text(encode_utf8(content@)),
    {
        self.state.buffer = Buffer::from_text(content);
        self.state.selection = Selection::new(0, 0);
    }
}

/// The text that is read after a text was set is the one that was set.
pub proof fn law_text_set_is_read_back(m: EditorModel, set: Seq<char>, read: Seq<char>)
    requires
        encode_utf8(read) == m.with_text(encode_utf8(set)).text(),
    ensures
        read == set,
{
    lemma_encode_injective(read, set);
}

/// A new editor has the text it is made of, with the cursor at its start, nothing to
/// undo and nothing to save, and takes input.
pub proof fn law_new_editor_is_at_the_start(text: Seq<u8>)
    ensures
        ({
            let m = EditorModel::fresh(text);
            &&& m.text() == text
            &&& m.cursor() == 0 && m.state.collapsed()
            &&& m.state.buffer.undo.len() == 0 && m.state.buffer.redo.len() == 0
            &&& !m.state.buffer.dirty
            &&& !m.flags.input_blocked && !m.flags.streaming_mode && !m.flags.composing
            &&& m.completion is None && m.diff is None && m.messages.len() == 0
            &&& m.links.known.len() == 0 && m.links.context is None
        }),
{
}

} // verus!
