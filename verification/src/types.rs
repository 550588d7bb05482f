use vstd::prelude::*;

verus! {

/// How a barricade lies on the board: along a row or along a column.
#[derive(Clone, Copy, PartialEq, Eq, Structural, Debug, Hash)]
pub enum Orientation {
    Horizontal,
    Vertical,
}

/// The two sides of a game.
#[derive(Clone, Copy, PartialEq, Eq, Structural, Debug, Hash)]
pub enum Team {
    Red,
    Blue,
}

/// A barricade placed on the board, with the team that placed it.
#[derive(Clone, Copy, PartialEq, Eq, Structural, Debug)]
pub struct Barricade {
    pub team: Team,
    pub orientation: Orientation,
}

impl Team {
    /// The other team.
    pub open spec fn rival(self) -> Team {
        match self {
            Team::Red => Team::Blue,
            Team::Blue => Team::Red,
        }
    }

    /// The other team.
    pub fn opponent(self) -> (r: Team)
        ensures
            r == self.rival(),
    {
        match self {
            Team::Red => Team::Blue,
            Team::Blue => Team::Red,
        }
    }
}

} // verus!
