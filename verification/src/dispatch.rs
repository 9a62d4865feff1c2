//! Actions: the same things that keys and the mouse do, as values.

use vstd::prelude::*;
use vstd::utf8::*;

use crate::action::{ActionOutcome, ActionOutcomeModel, EditorAction, ScreenPoint};
use crate::checkbox::toggled;
use crate::editor::{Editor, EditorFlags, EditorModel};
use crate::keys::step;
use crate::line_scan::line_model;
use crate::marker::Span;
use crate::state::{EditorState, StateModel};
use crate::text::{boundary, NEWLINE};

verus! {

/// A string of one character.
///
/// Calls `String::from` on the character, which makes a string of just it.
#[verifier::external_body]
fn char_string(c: char) -> (r: String)
    ensures
        r@ == seq![c],
{
    String::from(c)
}

/// Whether an action can be done to a state: the selection fits the text for what
/// edits or moves.
pub open spec fn action_fits(m: StateModel, a: EditorAction) -> bool {
    match a {
        EditorAction::Click { .. } => true,
        EditorAction::Drag { .. } => true,
        EditorAction::UpdateHover { .. } => true,
        EditorAction::OpenLink { .. } => true,
        _ => m.selection.fits(m.text()),
    }
}

/// Whether an action leaves the selection at character boundaries: clicks and
/// drags go to one, and no box is unchecked.
pub open spec fn action_steady(text: Seq<u8>, a: EditorAction) -> bool {
    match a {
        EditorAction::Click { offset, .. } => boundary(text, offset as int),
        EditorAction::Drag { offset } => boundary(text, offset as int),
        EditorAction::ToggleCheckbox { line_number } => line_model(
            text,
            line_number as int,
        ).task() != Some(true),
        _ => true,
    }
}

impl StateModel {
    /// The state after an action that changes the text or the selection and
    /// nothing else; `None` when it is no such action.
    #[verifier::opaque]
    pub open spec fn acted(self, a: EditorAction) -> Option<StateModel> {
        match a {
            EditorAction::Type(c) => Some(self.inserted(encode_utf8(seq![c]))),
            EditorAction::Tab => Some(self.tabbed()),
            EditorAction::ShiftTab => Some(self.shift_tabbed()),
            EditorAction::Backspace => Some(self.backspaced()),
            EditorAction::Click { offset, shift, click_count } => Some(
                self.clicked(offset, shift, click_count),
            ),
            EditorAction::ToggleCheckbox { line_number } => Some(
                toggled(self, line_number as int),
            ),
            _ => None,
        }
    }

    /// The state after an action that opens a line or moves the cursor, which is
    /// to be brought into sight then; `None` when it is no such action.
    #[verifier::opaque]
    pub open spec fn advanced(self, a: EditorAction) -> Option<StateModel> {
        match a {
            EditorAction::Enter => Some(self.inserted(seq![NEWLINE])),
            EditorAction::ShiftEnter => Some(self.new_line(self.next_line_start())),
            EditorAction::ShiftAltEnter => Some(self.new_line(self.nested_line_start())),
            EditorAction::Move(d) => Some(
                self.moved_to(step(self.text(), self.cursor() as int, d) as usize, false),
            ),
            _ => None,
        }
    }
}

/// What the mouse is over, as an action reports it.
#[derive(Clone, Copy, Debug, PartialEq, Eq, Structural)]
pub struct Hover {
    pub over_checkbox: bool,
    pub over_link: bool,
    pub range: Option<Span>,
    pub position: Option<ScreenPoint>,
}

/// Whether a report on the mouse says anything new. Its position alone does not
/// count.
pub open spec fn hover_is_new(f: EditorFlags, h: Hover) -> bool {
    f.hovering_checkbox != h.over_checkbox || f.hovering_link_region != h.over_link
        || f.hovered_github_ref_range != h.range
}

impl EditorModel {
    /// The editor after a report on the mouse.
    pub open spec fn hovered(self, h: Hover) -> EditorModel {
        if hover_is_new(self.flags, h) {
            self.with_flags(
                EditorFlags {
                    hovering_checkbox: h.over_checkbox,
                    hovering_link_region: h.over_link,
                    hovered_github_ref_range: h.range,
                    hovered_ref_position: h.position,
                    ..self.flags
                },
            )
        } else {
            self
        }
    }

    /// The editor after an action that is not one of `acted`.
    #[verifier::opaque]
    pub open spec fn performed(self, a: EditorAction) -> EditorModel {
        match self.state.advanced(a) {
            Some(s) => self.with_state(s).scrolling(),
            None => match a {
                EditorAction::Drag { offset } => if self.flags.in_drag_scroll_zone {
                    self
                } else {
                    self.with_state(self.state.dragged(offset)).with_flags(
                        EditorFlags { is_selecting: true, ..self.flags },
                    )
                },
                EditorAction::UpdateHover {
                    over_checkbox,
                    over_link,
                    hovered_github_ref_range,
                    hovered_ref_position,
                } => self.hovered(
                    Hover {
                        over_checkbox,
                        over_link,
                        range: hovered_github_ref_range,
                        position: hovered_ref_position,
                    },
                ),
                _ => self,
            },
        }
    }

    /// What an action asks for: to draw the editor again, unless it is a report
    /// on the mouse that says nothing new or an address to open.
    pub open spec fn action_outcome(self, a: EditorAction) -> ActionOutcomeModel {
        match a {
            EditorAction::UpdateHover {
                over_checkbox,
                over_link,
                hovered_github_ref_range,
                hovered_ref_position,
            } => ActionOutcomeModel {
                redraw: hover_is_new(
                    self.flags,
                    Hover {
                        over_checkbox,
                        over_link,
                        range: hovered_github_ref_range,
                        position: hovered_ref_position,
                    },
                ),
                open: None,
            },
            EditorAction::OpenLink { url } => ActionOutcomeModel {
                redraw: false,
                open: Some(url@),
            },
            _ => ActionOutcomeModel { redraw: true, open: None },
        }
    }

    /// The editor after an action.
    pub open spec fn executed(self, a: EditorAction) -> EditorModel {
        match self.state.acted(a) {
            Some(s) => self.with_state(s),
            None => self.performed(a),
        }
    }

    /// The editor after an action of the user: while input is blocked only
    /// reports on the mouse count.
    pub open spec fn handled(self, a: EditorAction) -> EditorModel {
        if self.flags.input_blocked && !(a is UpdateHover) {
            self
        } else {
            self.executed(a)
        }
    }
}

/// While input is blocked no action of the user changes the text, the selection,
/// the history or the review. A report on the mouse can change what the mouse is
/// over, and no other action changes anything.
pub proof fn law_blocked_input_changes_no_text(m: EditorModel, a: EditorAction)
    requires
        m.flags.input_blocked,
    ensures
        m.handled(a).state == m.state,
        m.handled(a).completion == m.completion,
        m.handled(a).diff == m.diff,
        !(a is UpdateHover) ==> m.handled(a) == m,
        a matches EditorAction::UpdateHover {
            over_checkbox,
            over_link,
            hovered_github_ref_range,
            hovered_ref_position,
        } ==> m.handled(a) == m.hovered(
            Hover {
                over_checkbox,
                over_link,
                range: hovered_github_ref_range,
                position: hovered_ref_position,
            },
        ),
{
    reveal(StateModel::acted);
    reveal(StateModel::advanced);
    reveal(EditorModel::performed);
}

impl EditorModel {
    /// The editor with input blocked or not.
    pub open spec fn blocking(self, blocked: bool) -> EditorModel {
        self.with_flags(EditorFlags { input_blocked: blocked, ..self.flags })
    }
}

/// While input is not blocked an action of the user does what the action does when
/// it is executed. Executing an action does the same, and asks for the same,
/// whether input is blocked or not.
pub proof fn law_executing_ignores_blocking(m: EditorModel, a: EditorAction, blocked: bool)
    ensures
        !m.flags.input_blocked ==> m.handled(a) == m.executed(a),
        m.blocking(blocked).executed(a) == m.executed(a).blocking(blocked),
        m.blocking(blocked).action_outcome(a) == m.action_outcome(a),
{
    if m.state.acted(a) is None {
        lemma_performing_ignores_blocking(m, a, blocked);
    }
}

/// Whether two editors are one and the same.
spec fn same_editor(a: EditorModel, b: EditorModel) -> bool {
    a == b
}

proof fn lemma_blocking_apart(m: EditorModel, s: StateModel, blocked: bool)
    ensures
        same_editor(m.blocking(blocked).with_state(s), m.with_state(s).blocking(blocked)),
        same_editor(m.blocking(blocked).scrolling(), m.scrolling().blocking(blocked)),
{
}

/// The editor with what the mouse is over.
spec fn under_mouse(m: EditorModel, h: Hover) -> EditorModel {
    m.with_flags(
        EditorFlags {
            hovering_checkbox: h.over_checkbox,
            hovering_link_region: h.over_link,
            hovered_github_ref_range: h.range,
            hovered_ref_position: h.position,
            ..m.flags
        },
    )
}

proof fn lemma_under_mouse(m: EditorModel, h: Hover, blocked: bool)
    ensures
        same_editor(under_mouse(m.blocking(blocked), h), under_mouse(m, h).blocking(blocked)),
{
}

proof fn lemma_hover_ignores_blocking(m: EditorModel, h: Hover, blocked: bool)
    ensures
        same_editor(m.blocking(blocked).hovered(h), m.hovered(h).blocking(blocked)),
{
    let on = m.blocking(blocked);
    assert(hover_is_new(on.flags, h) == hover_is_new(m.flags, h));
    lemma_under_mouse(m, h, blocked);
    if hover_is_new(m.flags, h) {
        assert(same_editor(m.hovered(h), under_mouse(m, h)));
        assert(same_editor(on.hovered(h), under_mouse(on, h)));
    } else {
        assert(same_editor(m.hovered(h), m));
        assert(same_editor(on.hovered(h), on));
    }
}

proof fn lemma_drag_ignores_blocking(m: EditorModel, s: StateModel, blocked: bool)
    ensures
        same_editor(
            m.blocking(blocked).with_state(s).with_flags(
                EditorFlags { is_selecting: true, ..m.blocking(blocked).flags },
            ),
            m.with_state(s).with_flags(EditorFlags { is_selecting: true, ..m.flags }).blocking(
                blocked,
            ),
        ),
{
}

#[verifier::spinoff_prover]
proof fn lemma_performing_ignores_blocking(m: EditorModel, a: EditorAction, blocked: bool)
    ensures
        same_editor(m.blocking(blocked).performed(a), m.performed(a).blocking(blocked)),
{
    reveal(EditorModel::performed);
    match m.state.advanced(a) {
        Some(s) => {
            lemma_blocking_apart(m, s, blocked);
            lemma_blocking_apart(m.with_state(s), s, blocked);
        },
        None => match a {
            EditorAction::Drag { offset } => {
                lemma_drag_ignores_blocking(m, m.state.dragged(offset), blocked);
            },
            EditorAction::UpdateHover {
                over_checkbox,
                over_link,
                hovered_github_ref_range,
                hovered_ref_position,
            } => {
                lemma_hover_ignores_blocking(
                    m,
                    Hover {
                        over_checkbox,
                        over_link,
                        range: hovered_github_ref_range,
                        position: hovered_ref_position,
                    },
                    blocked,
                );
            },
            _ => {},
        },
    }
}

/// A report on the mouse that says nothing new changes nothing.
pub proof fn law_same_hover_changes_nothing(m: EditorModel, h: Hover)
    ensures
        m.hovered(h).hovered(h) == m.hovered(h),
        !hover_is_new(m.hovered(h).flags, h),
{
}

fn same_span(a: Option<Span>, b: Option<Span>) -> (r: bool)
    ensures
        r == (a == b),
{
    match (a, b) {
        (Some(x), Some(y)) => x == y,
        (None, None) => true,
        _ => false,
    }
}

impl EditorState {
    /// Does an action that changes the text or the selection and nothing else.
    /// Returns whether it is one.
    fn act(&mut self, a: &EditorAction) -> (r: bool)
        requires
            old(self).wf(),
            action_fits(old(self)@, *a),
        ensures
            final(self).wf(),
            r == old(self)@.acted(*a) is Some,
            r ==> final(self)@ == old(self)@.acted(*a)->0,
            !r ==> final(self)@ == old(self)@,
            old(self).steady() && action_steady(old(self)@.text(), *a) ==> final(self).steady(),
    {
        reveal(StateModel::acted);
        match a {
            EditorAction::Type(c) => {
                self.insert_text(char_string(*c).as_str());
                true
            },
            EditorAction::Tab => {
                self.tab();
                true
            },
            EditorAction::ShiftTab => {
                self.shift_tab();
                true
            },
            EditorAction::Backspace => {
                self.delete_backward();
                true
            },
            EditorAction::Click { offset, shift, click_count } => {
                self.handle_click(*offset, *shift, *click_count);
                true
            },
            EditorAction::ToggleCheckbox { line_number } => {
                self.toggle_checkbox_for_test(*line_number);
                true
            },
            _ => false,
        }
    }
}

impl Editor {
    /// Takes a report on the mouse. Returns whether it said anything new.
    fn hover(&mut self, h: Hover) -> (r: bool)
        requires
            old(self).wf(),
        ensures
            final(self).wf(),
            final(self).state == old(self).state,
            final(self)@ == old(self)@.hovered(h),
            r == hover_is_new(old(self)@.flags, h),
    {
        if self.flags.hovering_checkbox == h.over_checkbox && self.flags.hovering_link_region
            == h.over_link && same_span(self.flags.hovered_github_ref_range, h.range) {
            return false;
        }
        self.flags.hovering_checkbox = h.over_checkbox;
        self.flags.hovering_link_region = h.over_link;
        self.flags.hovered_github_ref_range = h.range;
        self.flags.hovered_ref_position = h.position;
        true
    }

    /// Drags the selection, unless the window is being scrolled by it.
    fn drag(&mut self, offset: usize)
        requires
            old(self).wf(),
        ensures
            final(self).wf(),
            final(self)@ == (if old(self)@.flags.in_drag_scroll_zone {
                old(self)@
            } else {
                old(self)@.with_state(old(self)@.state.dragged(offset)).with_flags(
                    EditorFlags { is_selecting: true, ..old(self)@.flags },
                )
            }),
            old(self).steady() && boundary(old(self)@.text(), offset as int)
                ==> final(self).steady(),
    {
        if !self.flags.in_drag_scroll_zone {
            self.state.handle_drag(offset);
            self.flags.is_selecting = true;
        }
    }

    /// Does an action that `act` does not do.
    fn perform(&mut self, a: &EditorAction) -> (r: ActionOutcome)
        requires
            old(self).wf(),
            action_fits(old(self)@.state, *a),
            old(self)@.state.acted(*a) is None,
        ensures
            final(self).wf(),
            final(self)@ == old(self)@.performed(*a),
            r@ == old(self)@.action_outcome(*a),
            old(self).steady() && action_steady(old(self)@.text(), *a) ==> final(self).steady(),
    {
        reveal(EditorModel::performed);
        reveal(StateModel::acted);
        reveal(StateModel::advanced);
        match a {
            EditorAction::Enter => self.enter(),
            EditorAction::ShiftEnter => self.shift_enter(),
            EditorAction::ShiftAltEnter => self.shift_alt_enter(),
            EditorAction::Move(d) => self.move_in_direction(*d, false),
            EditorAction::Drag { offset } => self.drag(*offset),
            EditorAction::UpdateHover {
                over_checkbox,
                over_link,
                hovered_github_ref_range,
                hovered_ref_position,
            } => {
                let redraw: bool = self.hover(
                    Hover {
                        over_checkbox: *over_checkbox,
                        over_link: *over_link,
                        range: *hovered_github_ref_range,
                        position: *hovered_ref_position,
                    },
                );
                return ActionOutcome { redraw, open: None };
            },
            EditorAction::OpenLink { url } => {
                return ActionOutcome { redraw: false, open: Some(url.clone()) };
            },
            _ => {},
        }
        ActionOutcome { redraw: true, open: None }
    }

    /// Does an action, blocked or not.
    pub fn execute(&mut self, a: &EditorAction) -> (r: ActionOutcome)
        requires
            old(self).wf(),
            action_fits(old(self)@.state, *a),
        ensures
            final(self).wf(),
            final(self)@ == old(self)@.executed(*a),
            r@ == old(self)@.action_outcome(*a),
            old(self).steady() && action_steady(old(self)@.text(), *a) ==> final(self).steady(),
    {
        if self.state.act(a) {
            proof {
                reveal(StateModel::acted);
            }
            return ActionOutcome { redraw: true, open: None };
        }
        self.perform(a)
    }

    /// Does an action of the user. While input is blocked only reports on the
    /// mouse count.
    pub fn handle_action(&mut self, a: &EditorAction) -> (r: ActionOutcome)
        requires
            old(self).wf(),
            old(self)@.flags.input_blocked || action_fits(old(self)@.state, *a),
        ensures
            final(self).wf(),
            final(self)@ == old(self)@.handled(*a),
            r@ == (if old(self)@.flags.input_blocked && !(*a is UpdateHover) {
                ActionOutcomeModel { redraw: false, open: None }
            } else {
                old(self)@.action_outcome(*a)
            }),
            old(self).steady() && (old(self)@.flags.input_blocked || action_steady(
                old(self)@.text(),
                *a,
            )) ==> final(self).steady(),
    {
        if self.flags.input_blocked {
            match a {
                EditorAction::UpdateHover { .. } => {},
                _ => {
                    return ActionOutcome { redraw: false, open: None };
                },
            }
        }
        self.execute(a)
    }

    /// Toggles the box of a line.
    pub fn toggle_checkbox(&mut self, line_number: usize)
        requires
            old(self).ready(),
        ensures
            final(self).wf(),
            final(self)@ == old(self)@.with_state(toggled(old(self)@.state, line_number as int)),
            old(self).steady() && line_model(old(self)@.text(), line_number as int).task() != Some(
                true,
            ) ==> final(self).steady(),
    {
        self.state.toggle_checkbox_for_test(line_number);
    }

    /// Notes whether control or the platform's own key is held. Returns whether
    /// that changed.
    pub fn on_modifiers_changed(&mut self, control: bool, platform: bool) -> (r: bool)
        requires
            old(self).wf(),
        ensures
            final(self).wf(),
            final(self).state == old(self).state,
            final(self)@ == old(self)@.with_flags(
                EditorFlags { ctrl_held: control || platform, ..old(self)@.flags },
            ),
            r == (old(self)@.flags.ctrl_held != (control || platform)),
    {
        let held: bool = control || platform;
        if self.flags.ctrl_held != held {
            self.flags.ctrl_held = held;
            true
        } else {
            false
        }
    }
}

} // verus!
