//! The two orientations in which an element takes part in a link.

use vstd::prelude::*;

verus! {

/// Orientation of a link as seen from one of its two endpoints.
#[derive(Clone, Copy, Debug, PartialEq, Eq, Structural, PartialOrd, Ord, Hash)]
pub enum Direction {
    /// The element is the source of the link.
    Outgoing,
    /// The element is the target of the link.
    Incoming,
}

impl Direction {
    /// The other orientation.
    pub open spec fn flip(self) -> Direction {
        match self {
            Direction::Outgoing => Direction::Incoming,
            Direction::Incoming => Direction::Outgoing,
        }
    }

    /// Returns the opposite `Direction`.
    pub fn opposite(self) -> (r: Direction)
        ensures
            r == self.flip(),
    {
        match self {
            Direction::Outgoing => Direction::Incoming,
            Direction::Incoming => Direction::Outgoing,
        }
    }

    /// Flipping twice gives the orientation back.
    pub proof fn lemma_flip_involutive(self)
        ensures
            self.flip().flip() == self,
            self.flip() != self,
    {
    }
}

} // verus!
