//! The counters of a node.

use vstd::prelude::*;

verus! {

/// How many playouts went through a node and how many of them were won
/// by the side to move there. Neither counter ever goes down.
#[derive(Clone, Copy, Debug)]
pub struct Record {
    pub wins: u64,
    pub played: u64,
}

impl Record {
    /// The record after one more playout, won or not.
    pub open spec fn incremented(self, win: bool) -> Record {
        Record {
            wins: if win {
                (self.wins + 1) as u64
            } else {
                self.wins
            },
            played: (self.played + 1) as u64,
        }
    }

    /// Counts one more playout, and one more win if `win` is set.
    pub fn increment(&mut self, win: bool)
        requires
            old(self).played < u64::MAX,
            old(self).wins <= old(self).played,
        ensures
            *final(self) == old(self).incremented(win),
            final(self).played == old(self).played + 1,
            final(self).wins == old(self).wins + if win {
                1int
            } else {
                0int
            },
    {
        self.played = self.played + 1;
        if win {
            self.wins = self.wins + 1;
        }
    }
}

impl Default for Record {
    /// No playout yet.
    fn default() -> (record: Record)
        ensures
            record.wins == 0,
            record.played == 0,
    {
        Record { wins: 0, played: 0 }
    }
}

} // verus!
