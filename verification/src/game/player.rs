//! The two sides of the game.

use crate::chance::coin_flip;
use vstd::prelude::*;

verus! {

/// A side of the game, or no side at all.
#[derive(Clone, Copy, Debug, PartialEq, Eq, Structural)]
pub enum Player {
    Yellow,
    Blue,
    NoPlayer,
}

impl Player {
    /// The side that `invert` yields when the coin shows `coin`: the other
    /// side, and for no side the one that the coin picks.
    pub open spec fn inverted(self, coin: bool) -> Player {
        match self {
            Player::Yellow => Player::Blue,
            Player::Blue => Player::Yellow,
            Player::NoPlayer => if coin {
                Player::Yellow
            } else {
                Player::Blue
            },
        }
    }

    /// The other side; for no side, the side picked by `coin`.
    pub fn invert_with(&self, coin: bool) -> (other: Player)
        ensures
            other == self.inverted(coin),
    {
        match self {
            Player::Yellow => Player::Blue,
            Player::Blue => Player::Yellow,
            Player::NoPlayer => if coin {
                Player::Yellow
            } else {
                Player::Blue
            },
        }
    }

    /// The other side; for no side, one of the two sides picked at random.
    pub fn invert(&self) -> (other: Player)
        ensures
            other == self.inverted(true) || other == self.inverted(false),
    {
        match self {
            Player::Yellow => Player::Blue,
            Player::Blue => Player::Yellow,
            Player::NoPlayer => self.invert_with(coin_flip()),
        }
    }
}

} // verus!
