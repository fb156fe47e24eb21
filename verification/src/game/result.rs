//! How a game ends.

use crate::chance::coin_flip;
use crate::game::player::Player;
use vstd::prelude::*;

verus! {

/// The outcome of a finished game.
#[derive(Clone, Copy, Debug, PartialEq, Eq, Structural)]
pub enum GameResult {
    Win(Player),
    Draw,
}

impl GameResult {
    /// Whether the outcome names one of the two sides as the winner.
    pub open spec fn decided(self) -> bool {
        self == GameResult::Win(Player::Yellow) || self == GameResult::Win(Player::Blue)
    }

    /// The outcome with every undecided case turned into a win: a win of a
    /// side stays, anything else becomes a win of the side that `coin`
    /// picks.
    pub open spec fn settled(self, coin: bool) -> GameResult {
        if self.decided() {
            self
        } else if coin {
            GameResult::Win(Player::Yellow)
        } else {
            GameResult::Win(Player::Blue)
        }
    }

    /// Turns an undecided outcome into a win of the side picked by `coin`.
    pub fn settle(&self, coin: bool) -> (fair: GameResult)
        ensures
            fair == self.settled(coin),
            fair.decided(),
    {
        match self {
            GameResult::Win(Player::Yellow) => GameResult::Win(Player::Yellow),
            GameResult::Win(Player::Blue) => GameResult::Win(Player::Blue),
            GameResult::Win(Player::NoPlayer) | GameResult::Draw => if coin {
                GameResult::Win(Player::Yellow)
            } else {
                GameResult::Win(Player::Blue)
            },
        }
    }

    /// Turns an undecided outcome into a win of a side picked at random;
    /// a decided outcome is returned as it is.
    pub fn fair_random_result(&self) -> (fair: GameResult)
        ensures
            fair == self.settled(true) || fair == self.settled(false),
            fair.decided(),
    {
        match self {
            GameResult::Win(Player::Yellow) => GameResult::Win(Player::Yellow),
            GameResult::Win(Player::Blue) => GameResult::Win(Player::Blue),
            GameResult::Win(Player::NoPlayer) | GameResult::Draw => self.settle(coin_flip()),
        }
    }
}

} // verus!
