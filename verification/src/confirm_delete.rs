//! The popup that asks before entries are deleted.
use vstd::prelude::*;

verus! {

/// The state of the popup that asks whether to delete: which of its two
/// answers is picked.
#[derive(Clone, Copy, Debug, PartialEq, Eq, Structural)]
pub struct ConfirmDeletePopup {
    confirmed: bool,
}

impl ConfirmDeletePopup {
    /// Whether "yes" is picked.
    pub closed spec fn is_confirmed(self) -> bool {
        self.confirmed
    }

    /// A popup with "yes" picked if `confirmed`, else "no".
    pub fn new(confirmed: bool) -> (popup: Self)
        ensures
            popup.is_confirmed() == confirmed,
    {
        Self { confirmed }
    }

    /// Whether "yes" is picked.
    pub fn confirmed(&self) -> (confirmed: bool)
        ensures
            confirmed == self.is_confirmed(),
    {
        self.confirmed
    }

    /// Picks the other answer.
    pub fn switch_confirmation(&mut self)
        ensures
            final(self).is_confirmed() == !old(self).is_confirmed(),
    {
        self.confirmed = !self.confirmed;
    }
}

} // verus!
