//! Selection of the themed diorama that is rendered.

use vstd::prelude::*;

verus! {

/// Identifies which themed diorama is rendered.
#[derive(Clone, Copy, Debug, PartialEq, Eq, Structural)]
pub enum WorldKind {
    Overworld,
    Nether,
}

impl WorldKind {
    /// The other world of the two.
    pub open spec fn other(self) -> WorldKind {
        match self {
            WorldKind::Overworld => WorldKind::Nether,
            WorldKind::Nether => WorldKind::Overworld,
        }
    }

    /// Switches between the overworld and the nether.
    pub fn toggle(self) -> (r: WorldKind)
        ensures
            r == self.other(),
            r != self,
    {
        match self {
            WorldKind::Overworld => WorldKind::Nether,
            WorldKind::Nether => WorldKind::Overworld,
        }
    }
}

/// Toggling twice comes back to the world one started from.
pub proof fn lemma_toggle_involutive(w: WorldKind)
    ensures
        w.other().other() == w,
{
}

} // verus!
