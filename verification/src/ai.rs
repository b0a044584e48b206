use vstd::prelude::*;
use rand::rngs::StdRng;
use crate::grid::Grid;

pub mod easiest;
pub mod easy;
pub mod medium;
pub mod queue;
pub mod rating;
pub mod tree;
pub mod track;
pub mod search;
pub mod hard;
pub mod exhaust;

verus! {

/// A board that a strategy can be asked about: at rest, and with at least
/// one row and one column.
pub open spec fn playable(grid: &Grid) -> bool {
    &&& grid.settled()
    &&& grid.spec_width() > 0
    &&& grid.spec_height() > 0
}

/// Whether `player` may move on `cell`: the cell is on the board and is
/// unclaimed or the player's own.
pub open spec fn may_move_on(grid: &Grid, player: u8, cell: (u8, u8)) -> bool {
    &&& cell.0 < grid.spec_width()
    &&& cell.1 < grid.spec_height()
    &&& (grid.at(cell.0 as int, cell.1 as int).owner == 0 || grid.at(
        cell.0 as int,
        cell.1 as int,
    ).owner == player)
}

/// A strategy that picks the cell to move on. It is asked once per frame
/// until it has an answer, and from then on repeats that answer until the
/// next move is started.
pub trait Ai: Send + Sync {
    /// The answer that the strategy holds for the move under way.
    spec fn decision(&self) -> Option<(u8, u8)>;

    /// Whether the strategy has what it needs to be asked.
    spec fn prepared(&self) -> bool;

    /// Whether the strategy can play for `player`.
    spec fn plays_for(player: u8) -> bool;

    /// Starts the thinking for a new move on `grid`: any earlier answer is
    /// dropped.
    fn start_move(&mut self, grid: &Grid)
        ensures
            final(self).decision() is None,
            playable(grid) && 0 < grid.spec_player_count() < 255 ==> final(self).prepared(),
    ;

    /// Thinks for one frame. Returns the cell to move on, or `None` while
    /// there is no answer yet. Once there is an answer, it is returned again
    /// by every later call and nothing else changes.
    fn tick(&mut self, grid: &Grid, player: u8, rng: &mut StdRng) -> (choice: Option<(u8, u8)>)
        requires
            old(self).prepared(),
            playable(grid),
            Self::plays_for(player),
        ensures
            final(self).prepared(),
            choice == final(self).decision(),
            old(self).decision() is Some ==> choice == old(self).decision(),
    ;

    /// Name of the strategy.
    fn name(&self) -> &'static str;
}

} // verus!
