use vstd::prelude::*;

verus! {

/// The owner of a chip on the board: one of the two players.
#[derive(Clone, Copy, Debug, PartialEq, Eq, Structural)]
pub enum Color {
    /// A red chip.
    Red,
    /// A yellow chip.
    Yellow,
}

impl Color {
    /// The color of the opposing player.
    pub open spec fn spec_opponent(self) -> Color {
        match self {
            Color::Red => Color::Yellow,
            Color::Yellow => Color::Red,
        }
    }

    /// Returns the color of the opponent player.
    pub fn opponent(&self) -> (r: Self)
        ensures
            r == self.spec_opponent(),
    {
        match self {
            Color::Red => Color::Yellow,
            Color::Yellow => Color::Red,
        }
    }
}

} // verus!
