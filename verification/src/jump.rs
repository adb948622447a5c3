//! What the jump overlay shares with those who offer places to jump to.

use vstd::prelude::*;

use crate::text;

verus! {

/// What the overlay is opened for.
#[derive(Clone, Copy, PartialEq, Eq, Debug, Structural)]
pub enum JumpMode {
    /// Everything there is to jump to.
    All,
    /// URLs only.
    Url,
}

/// What a jump goes to.
#[derive(Clone, Debug)]
pub enum JumpKind {
    Word,
    Clickable,
    Url(String),
}

/// What a [`JumpKind`] holds.
#[verifier::ext_equal]
pub enum KindModel {
    Word,
    Clickable,
    Url(Seq<char>),
}

impl View for JumpKind {
    type V = KindModel;

    open spec fn view(&self) -> KindModel {
        match *self {
            JumpKind::Word => KindModel::Word,
            JumpKind::Clickable => KindModel::Clickable,
            JumpKind::Url(url) => KindModel::Url(url@),
        }
    }
}

/// What a jump does; `P` is a place in the view that is jumped into.
#[derive(Debug)]
pub struct JumpEffect<P> {
    /// What goes to the clipboard.
    pub copy: Option<String>,
    /// Whether the view gets the focus.
    pub focus: bool,
    /// Where the cursor goes.
    pub go_to: Option<P>,
}

/// What a [`JumpEffect`] holds.
#[verifier::ext_equal]
#[verifier::reject_recursive_types(P)]
pub struct EffectModel<P> {
    pub copy: Option<Seq<char>>,
    pub focus: bool,
    pub go_to: Option<P>,
}

impl<P> View for JumpEffect<P> {
    type V = EffectModel<P>;

    open spec fn view(&self) -> EffectModel<P> {
        EffectModel {
            copy: text::text_model(self.copy),
            focus: self.focus,
            go_to: self.go_to,
        }
    }
}

/// What was painted longer ago than this, in nanoseconds, is not on the screen any more.
pub const PAINT_FRESHNESS_NANOS: u128 = 250_000_000;

/// Whether a view that was painted so many nanoseconds ago, or never, is on the screen.
pub open spec fn on_screen(age_nanos: Option<u128>) -> bool {
    age_nanos is Some && age_nanos->0 <= PAINT_FRESHNESS_NANOS
}

/// Whether a view that was painted so many nanoseconds ago, or never, is on the screen.
pub fn is_on_screen(age_nanos: Option<u128>) -> (res: bool)
    ensures
        res == on_screen(age_nanos),
{
    match age_nanos {
        Some(age) => age <= PAINT_FRESHNESS_NANOS,
        None => false,
    }
}

/// A view stays on the screen for a quarter of a second after it was painted; one that was
/// never painted is not on it.
pub proof fn law_paint_stays_fresh(age_nanos: u128)
    ensures
        on_screen(Some(age_nanos)) <==> age_nanos <= 250_000_000,
        !on_screen(None),
{
}

} // verus!
