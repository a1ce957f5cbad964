//! How much of a game is reported.

use vstd::prelude::*;

verus! {

/// What is reported of a run of games. Each level includes the ones before it.
#[derive(Clone, Copy, Debug, PartialEq, Eq, Structural)]
pub enum LogLevel {
    /// Nothing.
    Off,
    /// The result of each game.
    Results,
    /// The card played in each turn.
    Turn,
    /// The board after each turn.
    Board,
}

impl LogLevel {
    /// The rank of the level, higher for more detail.
    pub open spec fn rank(self) -> int {
        match self {
            LogLevel::Off => 0,
            LogLevel::Results => 1,
            LogLevel::Turn => 2,
            LogLevel::Board => 3,
        }
    }

    pub fn ord(&self) -> (rank: i8)
        ensures
            rank == self.rank(),
    {
        match self {
            LogLevel::Off => 0,
            LogLevel::Results => 1,
            LogLevel::Turn => 2,
            LogLevel::Board => 3,
        }
    }

    /// Whether what belongs to this level is reported when `configured` is
    /// the level asked for.
    pub fn is_logged(&self, configured: &LogLevel) -> (logged: bool)
        ensures
            logged == (configured.rank() >= self.rank()),
    {
        configured.ord() >= self.ord()
    }

    /// Runs `block` if what belongs to this level is reported when
    /// `configured` is the level asked for. Returns whether it ran.
    pub fn if_logged<F: FnOnce()>(&self, configured: &LogLevel, block: F) -> (ran: bool)
        requires
            call_requires(block, ()),
        ensures
            ran == (configured.rank() >= self.rank()),
    {
        if self.is_logged(configured) {
            block();
            true
        } else {
            false
        }
    }
}

} // verus!
