use vstd::prelude::*;

verus! {

/// One square of the board: its visibility and what it holds.
///
/// A safe square carries the number of mines among its eight neighbours.
#[derive(Clone, Copy, Debug, PartialEq, Eq, Structural)]
pub enum Tile {
    Concealed(usize),
    ConcealedMine,
    RevealedMine,
    Revealed(usize),
}

impl Tile {
    /// The square holds a mine, shown or not.
    pub open spec fn is_mine(self) -> bool {
        self is ConcealedMine || self is RevealedMine
    }

    /// The square is still hidden from the player.
    pub open spec fn is_concealed(self) -> bool {
        self is Concealed || self is ConcealedMine
    }

    /// The number a safe square carries; 0 for a mine.
    pub open spec fn number(self) -> nat {
        match self {
            Tile::Concealed(n) => n as nat,
            Tile::Revealed(n) => n as nat,
            _ => 0,
        }
    }

    /// The square after it has been shown.
    pub open spec fn uncovered(self) -> Tile {
        match self {
            Tile::Concealed(n) => Tile::Revealed(n),
            Tile::ConcealedMine => Tile::RevealedMine,
            Tile::RevealedMine => Tile::RevealedMine,
            Tile::Revealed(n) => Tile::Revealed(n),
        }
    }

    /// Shows the square: a hidden one turns into its shown form, a shown one stays.
    pub fn uncover(self) -> (r: Tile)
        ensures
            r == self.uncovered(),
    {
        match self {
            Tile::Concealed(v) => Tile::Revealed(v),
            Tile::ConcealedMine | Tile::RevealedMine => Tile::RevealedMine,
            Tile::Revealed(v) => Tile::Revealed(v),
        }
    }
}

} // verus!
