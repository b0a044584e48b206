use vstd::prelude::*;
use crate::grid::GridCell;

verus! {

/// A cell as it goes over the wire: the owner in the top three bits, the
/// number of charges less one in the bottom two.
#[derive(Clone, Copy, Debug, Hash, PartialEq, Eq)]
pub struct CellState(u8);

impl CellState {
    /// The byte that stands for the cell.
    pub closed spec fn raw(self) -> u8 {
        self.0
    }

    /// The owner of the cell, `None` for an unclaimed cell.
    pub fn owner(self) -> (owner: Option<u8>)
        ensures
            owner == if self.raw() / 32 == 0 {
                None
            } else {
                Some((self.raw() / 32) as u8)
            },
    {
        let bits: u8 = self.0;
        assert(bits >> 5 == bits / 32) by (bit_vector);
        let who: u8 = self.0 >> 5;
        if who == 0 {
            None
        } else {
            Some(who)
        }
    }

    /// The number of charges on the cell, from one to four.
    pub fn count(self) -> (count: u8)
        ensures
            count == self.raw() % 4 + 1,
    {
        let bits: u8 = self.0;
        assert(bits & 3 == bits % 4) by (bit_vector);
        (self.0 & 3) + 1
    }

    /// Packs a cell of a board at rest that holds one to four charges and
    /// belongs to nobody or to one of the players 1 to 7.
    pub fn from_grid_cell(cell: &GridCell) -> (state: Self)
        requires
            cell.dots <= cell.capacity,
            1 <= cell.dots <= 4,
            cell.owner <= 7,
        ensures
            state.raw() == cell.owner * 32 + (cell.dots - 1),
    {
        let owner: u8 = cell.owner;
        let count: u8 = cell.dots - 1;
        assert((owner << 5) | count == owner * 32 + count) by (bit_vector)
            requires
                owner <= 7,
                count <= 3,
        ;
        CellState((owner << 5) | count)
    }
}

/// What was packed can be read back: the owner, unless the cell is
/// unclaimed, and the number of charges.
pub proof fn lemma_cell_state_reads_back(state: CellState, cell: GridCell)
    requires
        1 <= cell.dots <= 4,
        cell.owner <= 7,
        state.raw() == cell.owner * 32 + (cell.dots - 1),
    ensures
        state.raw() / 32 == cell.owner,
        state.raw() % 4 + 1 == cell.dots,
{
}

/// A colour in red, green and blue.
#[derive(Clone, Copy, Debug, Hash, PartialEq, Eq)]
pub struct Color {
    pub red: u8,
    pub green: u8,
    pub blue: u8,
}

/// Who makes the moves of a player.
#[derive(Clone, Copy, Debug, Hash, PartialEq, Eq)]
pub enum PlayerKind {
    Player,
    Bot,
}

/// The size of a board.
#[derive(Clone, Copy, Debug, Hash, PartialEq, Eq)]
pub struct Dimension {
    pub width: u8,
    pub height: u8,
}

/// A cell of a board by column and row.
#[derive(Clone, Copy, Debug, Hash, PartialEq, Eq)]
pub struct Pos {
    pub x: u8,
    pub y: u8,
}

/// All cells of a board, row by row, as they go over the wire.
#[derive(Clone, Debug, Hash, PartialEq, Eq)]
pub struct BoardInfo(pub Vec<CellState>);

/// What a player may propose to the others.
#[derive(Clone, Copy, Debug, Hash, PartialEq, Eq)]
pub enum ProposalType {
    Resign,
    Draw,
}

/// Where a player stands in the game.
#[derive(Clone, Copy, Debug, Hash, PartialEq, Eq)]
pub enum PlayerStatus {
    Normal,
    Elim,
    Resigned,
    Disconnected,
}

/// Why a game was won.
#[derive(Clone, Copy, Debug, Hash, PartialEq, Eq)]
pub enum WinReason {
    Elim,
    Resign,
    Award,
    Time,
}

/// Why a game was drawn.
#[derive(Clone, Copy, Debug, Hash, PartialEq, Eq)]
pub enum DrawReason {
    Agreement,
    Progress,
    Time,
}

/// How a game ended: won by the player with the given number, which is never
/// 0, or drawn.
#[derive(Clone, Copy, Debug, Hash, PartialEq, Eq)]
pub enum GameStatus {
    GameWon(u8, WinReason),
    GameDrawn(DrawReason),
}

/// What became of a move.
#[derive(Clone, Copy, Debug, Hash, PartialEq, Eq)]
pub enum MoveResult {
    Refused,
    CellUpdated,
    CellCascaded,
    GameFinished,
}

/// Something that happened in a game. Players are named by their number,
/// which is never 0.
#[derive(Clone, Copy, Debug, Hash, PartialEq, Eq)]
pub enum Event {
    MoveSelected(Pos),
    MoveResult(Pos, MoveResult),
    UpdateTurn(u8),
    CancelProposal(ProposalType),
    Proposal(u8, ProposalType),
    ProposalAccepted(ProposalType),
    ProposalRefused(ProposalType),
    PlayerStatus(u8, PlayerStatus),
}

} // verus!
