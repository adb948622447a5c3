//! The layer that shows one modal at a time, and what becomes of the focus.

use vstd::prelude::*;

verus! {

/// What a modal says when it is about to be hidden.
#[derive(Clone, Copy, PartialEq, Eq, Debug, Structural)]
pub enum DismissDecision {
    /// It may be hidden, or not.
    Dismiss(bool),
    /// It will say later.
    Pending,
}

/// Names an element that can have the focus.
#[derive(Clone, Copy, PartialEq, Eq, Debug, Structural)]
pub struct FocusHandle(pub u64);

/// Names the type of a modal.
#[derive(Clone, Copy, PartialEq, Eq, Debug, Structural)]
pub struct ModalKind(pub u64);

/// Names a view.
#[derive(Clone, Copy, PartialEq, Eq, Debug, Structural)]
pub struct ViewId(pub u64);

/// Which element of a window has the focus, if one has.
#[derive(Clone, Copy, PartialEq, Eq, Debug, Structural)]
pub struct WindowFocus {
    pub focused: Option<FocusHandle>,
}

/// A modal about to be shown.
#[derive(Clone, Copy, PartialEq, Eq, Debug, Structural)]
pub struct NewModal {
    pub kind: ModalKind,
    pub view: ViewId,
    /// The element of the layer around the modal.
    pub focus_handle: FocusHandle,
    /// The element of the modal itself.
    pub view_focus_handle: FocusHandle,
}

/// The modal that is shown, and what had the focus before.
#[derive(Clone, Copy, PartialEq, Eq, Debug, Structural)]
pub struct ActiveModal {
    pub modal: NewModal,
    pub previous_focus_handle: Option<FocusHandle>,
}

/// The layer.
#[derive(Clone, Copy, PartialEq, Eq, Debug, Structural)]
pub struct ModalLayer {
    pub active_modal: Option<ActiveModal>,
    /// Whether the modal is to be hidden when it loses the focus.
    pub dismiss_on_focus_lost: bool,
}

/// How the layer is drawn.
#[derive(Clone, Copy, PartialEq, Eq, Debug, Structural)]
pub enum ModalRender {
    /// Not at all.
    Nothing,
    /// Just the modal.
    Bare(ViewId),
    /// The modal, over a background that takes the mouse and may be faded out.
    Layered { view: ViewId, fade_out_background: bool },
}

/// What an attempt to hide the modal leaves behind.
#[verifier::ext_equal]
pub struct Hidden {
    pub layer: ModalLayer,
    pub focused: Option<FocusHandle>,
    /// Whether a modal was hidden.
    pub did_close: bool,
}

/// An attempt to hide the modal, where `decision` is what it says to that, and `has_focus`
/// tells whether the focus is in it. What had the focus before gets it back, unless the
/// focus went elsewhere in the meantime.
pub open spec fn dismissed(
    layer: ModalLayer,
    decision: DismissDecision,
    has_focus: bool,
    focused: Option<FocusHandle>,
) -> Hidden {
    match layer.active_modal {
        None => Hidden {
            layer: ModalLayer { dismiss_on_focus_lost: false, ..layer },
            focused,
            did_close: false,
        },
        Some(active) => match decision {
            DismissDecision::Dismiss(false) => Hidden {
                layer: ModalLayer { dismiss_on_focus_lost: true, ..layer },
                focused,
                did_close: false,
            },
            DismissDecision::Pending => Hidden {
                layer: ModalLayer { dismiss_on_focus_lost: false, ..layer },
                focused,
                did_close: false,
            },
            DismissDecision::Dismiss(true) => Hidden {
                layer: ModalLayer { active_modal: None, dismiss_on_focus_lost: false },
                focused: if has_focus && active.previous_focus_handle is Some {
                    active.previous_focus_handle
                } else {
                    focused
                },
                did_close: true,
            },
        },
    }
}

/// Whether the modal that is shown is of a kind.
pub open spec fn is_active(layer: ModalLayer, kind: ModalKind) -> bool {
    layer.active_modal matches Some(active) && active.modal.kind == kind
}

/// The layer once a modal is shown.
pub open spec fn shown(layer: ModalLayer, modal: NewModal, focused: Option<FocusHandle>) -> ModalLayer {
    ModalLayer {
        active_modal: Some(ActiveModal { modal, previous_focus_handle: focused }),
        ..layer
    }
}

/// A modal that was shown over what had the focus, and that still has the focus when it is
/// hidden, gives it back.
pub proof fn law_hiding_gives_the_focus_back(
    layer: ModalLayer,
    modal: NewModal,
    before: FocusHandle,
    now: Option<FocusHandle>,
)
    ensures
        ({
            let after = dismissed(
                shown(layer, modal, Some(before)),
                DismissDecision::Dismiss(true),
                true,
                now,
            );
            &&& after.did_close
            &&& after.layer.active_modal is None
            &&& after.focused == Some(before)
        }),
{
}

/// A modal that does not allow it stays, and so does the focus; a modal that allows it is
/// gone. The focus moves only out of the modal, to what had it before; a window in which an
/// element has the focus is not left without one.
pub proof fn law_hiding(
    layer: ModalLayer,
    decision: DismissDecision,
    has_focus: bool,
    focused: Option<FocusHandle>,
)
    ensures
        ({
            let after = dismissed(layer, decision, has_focus, focused);
            &&& after.did_close <==> layer.active_modal is Some && decision
                == DismissDecision::Dismiss(true)
            &&& after.did_close ==> after.layer.active_modal is None
            &&& !after.did_close ==> after.layer.active_modal == layer.active_modal
                && after.focused == focused
            &&& after.focused != focused ==> has_focus && after.focused
                == layer.active_modal->0.previous_focus_handle
            &&& focused is Some ==> after.focused is Some
            &&& after.layer.dismiss_on_focus_lost <==> layer.active_modal is Some && decision
                == DismissDecision::Dismiss(false)
        }),
{
}

/// A modal that is shown is the active one, in place of any other, and remembers what had
/// the focus; what is to be done when it loses the focus stays.
pub proof fn law_shown_modal_is_active(
    layer: ModalLayer,
    modal: NewModal,
    focused: Option<FocusHandle>,
    kind: ModalKind,
)
    ensures
        ({
            let after = shown(layer, modal, focused);
            &&& after.active_modal matches Some(active) && active.modal == modal
                && active.previous_focus_handle == focused
            &&& is_active(after, kind) <==> modal.kind == kind
            &&& after.dismiss_on_focus_lost == layer.dismiss_on_focus_lost
        }),
        layer.active_modal is None ==> !is_active(layer, kind),
{
}

/// A modal that is hidden while it has the focus gives it to what had it before, if anything
/// had; one that is hidden while the focus is elsewhere leaves the focus there.
pub proof fn law_where_the_focus_goes(
    layer: ModalLayer,
    has_focus: bool,
    focused: Option<FocusHandle>,
)
    requires
        layer.active_modal is Some,
    ensures
        ({
            let before = layer.active_modal->0.previous_focus_handle;
            let after = dismissed(layer, DismissDecision::Dismiss(true), has_focus, focused);
            &&& has_focus && before is Some ==> after.focused == before
            &&& !has_focus || before is None ==> after.focused == focused
        }),
{
}

impl Default for ModalLayer {
    fn default() -> (res: ModalLayer)
        ensures
            res == (ModalLayer { active_modal: None, dismiss_on_focus_lost: false }),
    {
        ModalLayer::new()
    }
}

impl ModalLayer {
    /// A layer that shows nothing.
    pub fn new() -> (res: ModalLayer)
        ensures
            res == (ModalLayer { active_modal: None, dismiss_on_focus_lost: false }),
    {
        ModalLayer { active_modal: None, dismiss_on_focus_lost: false }
    }

    /// Toggles a modal of a kind: hides the modal that is shown, if one is, and returns
    /// whether a new modal is to be shown. It is not where the one shown was of the same
    /// kind, nor where that one stays. `decision` is what the modal that is shown says to
    /// being hidden; the other two tell whether the focus is in the element of the layer or
    /// in that of the modal.
    pub fn toggle_modal(
        &mut self,
        kind: ModalKind,
        decision: DismissDecision,
        layer_has_focus: bool,
        view_has_focus: bool,
        window: &mut WindowFocus,
    ) -> (res: bool)
        ensures
            ({
                let after = dismissed(
                    *old(self),
                    decision,
                    layer_has_focus || view_has_focus,
                    old(window).focused,
                );
                if old(self).active_modal is None {
                    res && *final(self) == *old(self) && *final(window) == *old(window)
                } else {
                    &&& *final(self) == after.layer
                    &&& final(window).focused == after.focused
                    &&& res == (after.did_close && !is_active(*old(self), kind))
                }
            }),
    {
        if let Some(active_modal) = self.active_modal {
            let should_close = active_modal.modal.kind == kind;
            let did_close = self.hide_modal(decision, layer_has_focus, view_has_focus, window);
            if should_close || !did_close {
                return false;
            }
        }
        true
    }

    /// Shows a modal. Returns the element that gets the focus next.
    pub fn show_modal(&mut self, new_modal: NewModal, window: &WindowFocus) -> (res: FocusHandle)
        ensures
            *final(self) == shown(*old(self), new_modal, window.focused),
            res == new_modal.view_focus_handle,
    {
        self.active_modal = Some(
            ActiveModal { modal: new_modal, previous_focus_handle: window.focused },
        );
        new_modal.view_focus_handle
    }

    /// Attempts to hide the modal that is shown, where `decision` is what it says to that.
    /// Returns whether it was hidden. The element of the layer is drawn around a modal only
    /// where the modal is not drawn bare, so the focus may be in the element of the modal
    /// without being in that of the layer.
    pub fn hide_modal(
        &mut self,
        decision: DismissDecision,
        layer_has_focus: bool,
        view_has_focus: bool,
        window: &mut WindowFocus,
    ) -> (res: bool)
        ensures
            ({
                let after = dismissed(
                    *old(self),
                    decision,
                    layer_has_focus || view_has_focus,
                    old(window).focused,
                );
                &&& *final(self) == after.layer
                &&& final(window).focused == after.focused
                &&& res == after.did_close
            }),
    {
        let Some(active_modal) = self.active_modal else {
            self.dismiss_on_focus_lost = false;
            return false;
        };
        match decision {
            DismissDecision::Dismiss(should_dismiss) => {
                if !should_dismiss {
                    self.dismiss_on_focus_lost = true;
                    return false;
                }
            },
            DismissDecision::Pending => {
                self.dismiss_on_focus_lost = false;
                return false;
            },
        }
        self.active_modal = None;
        if let Some(previous_focus) = active_modal.previous_focus_handle {
            if layer_has_focus || view_has_focus {
                window.focused = Some(previous_focus);
            }
        }
        self.dismiss_on_focus_lost = false;
        true
    }

    /// The modal lost the focus: it is hidden if it refused to be hidden before.
    pub fn focus_lost(
        &mut self,
        decision: DismissDecision,
        layer_has_focus: bool,
        view_has_focus: bool,
        window: &mut WindowFocus,
    )
        ensures
            old(self).dismiss_on_focus_lost ==> ({
                let after = dismissed(
                    *old(self),
                    decision,
                    layer_has_focus || view_has_focus,
                    old(window).focused,
                );
                *final(self) == after.layer && final(window).focused == after.focused
            }),
            !old(self).dismiss_on_focus_lost ==> *final(self) == *old(self) && *final(window)
                == *old(window),
    {
        if self.dismiss_on_focus_lost {
            self.hide_modal(decision, layer_has_focus, view_has_focus, window);
        }
    }

    /// Returns the modal that is shown, if it is of the given kind.
    pub fn active_modal(&self, kind: ModalKind) -> (res: Option<ViewId>)
        ensures
            res == (if is_active(*self, kind) {
                Some(self.active_modal->0.modal.view)
            } else {
                None
            }),
    {
        match self.active_modal {
            Some(active_modal) => if active_modal.modal.kind == kind {
                Some(active_modal.modal.view)
            } else {
                None
            },
            None => None,
        }
    }

    /// Returns whether a modal is shown.
    pub fn has_active_modal(&self) -> (res: bool)
        ensures
            res == (self.active_modal is Some),
    {
        self.active_modal.is_some()
    }

    /// Returns how the layer is drawn, where the other two are what the modal says of
    /// itself.
    pub fn render(&self, render_bare: bool, fade_out_background: bool) -> (res: ModalRender)
        ensures
            res == (match self.active_modal {
                None => ModalRender::Nothing,
                Some(active) => if render_bare {
                    ModalRender::Bare(active.modal.view)
                } else {
                    ModalRender::Layered { view: active.modal.view, fade_out_background }
                },
            }),
    {
        match self.active_modal {
            None => ModalRender::Nothing,
            Some(active_modal) => {
                let view = active_modal.modal.view;
                if render_bare {
                    ModalRender::Bare(view)
                } else {
                    ModalRender::Layered { view, fade_out_background }
                }
            },
        }
    }
}

} // verus!
