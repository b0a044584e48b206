use vstd::prelude::*;
use rand::rngs::StdRng;
use crate::ai::{may_move_on, Ai};
use crate::chance::{draw_below, draw_index};
use crate::grid::{Grid, GridCell};
use crate::layout::coords;
use crate::scan::{
    cells_of_kind, collect_cells, drawn, is_kind, lemma_cells_of_kind_none,
    lemma_cells_of_kind_sound, CellKind,
};

verus! {

/// The weakest strategy: it moves at random, with a liking for cells that
/// are not full yet.
pub struct Easiest(Option<(u8, u8)>);

/// Whether the weakest strategy goes for an unclaimed cell without a roll:
/// it owns fewer than two cells and an unclaimed cell is left.
pub open spec fn easiest_opens(cells: Seq<GridCell>, width: int, player: u8) -> bool {
    let fresh = cells_of_kind(cells, width, player, CellKind::Unclaimed);
    let open = cells_of_kind(cells, width, player, CellKind::ClaimedOpen);
    let full = cells_of_kind(cells, width, player, CellKind::ClaimedFull);
    open.len() + full.len() < 2 && fresh.len() > 0
}

/// The cells among which the weakest strategy picks one at random, given the
/// roll `choice` out of ten: unclaimed cells while it owns fewer than two
/// cells; else on a roll of 0 unclaimed cells, below 4 its full cells, and
/// otherwise its cells that are not full. Where the roll falls on a kind of
/// which there is no cell, the next kind in this order is taken, and after
/// the last its full cells, so that a player who owns a cell always finds
/// one. The pool is empty only if the player may move on no cell.
pub open spec fn easiest_pool(cells: Seq<GridCell>, width: int, player: u8, choice: int) -> Seq<
    (u8, u8),
> {
    let fresh = cells_of_kind(cells, width, player, CellKind::Unclaimed);
    let open = cells_of_kind(cells, width, player, CellKind::ClaimedOpen);
    let full = cells_of_kind(cells, width, player, CellKind::ClaimedFull);
    if easiest_opens(cells, width, player) {
        fresh
    } else if open.len() + full.len() > 0 {
        if choice < 1 && fresh.len() > 0 {
            fresh
        } else if choice < 4 && full.len() > 0 {
            full
        } else if open.len() > 0 {
            open
        } else {
            full
        }
    } else {
        Seq::empty()
    }
}

/// The pool of the weakest strategy is empty exactly when the player may move
/// on no cell of the board.
pub proof fn lemma_easiest_pool_empty(cells: Seq<GridCell>, width: int, player: u8, choice: int)
    ensures
        easiest_pool(cells, width, player, choice).len() == 0 <==> forall|place: int|
            0 <= place < cells.len() ==> !is_kind(#[trigger] cells[place], player, CellKind::Playable),
{
    let len = cells.len() as int;
    lemma_cells_of_kind_none(cells, width, player, CellKind::Unclaimed, len);
    lemma_cells_of_kind_none(cells, width, player, CellKind::ClaimedOpen, len);
    lemma_cells_of_kind_none(cells, width, player, CellKind::ClaimedFull, len);
    if easiest_pool(cells, width, player, choice).len() == 0 {
        assert forall|place: int| 0 <= place < cells.len() implies !is_kind(
            #[trigger] cells[place],
            player,
            CellKind::Playable,
        ) by {
            assert(!is_kind(cells[place], player, CellKind::Unclaimed));
            assert(!is_kind(cells[place], player, CellKind::ClaimedOpen));
            assert(!is_kind(cells[place], player, CellKind::ClaimedFull));
        }
    } else {
        let pool = easiest_pool(cells, width, player, choice);
        let kind = if pool == cells_of_kind(cells, width, player, CellKind::Unclaimed) {
            CellKind::Unclaimed
        } else if pool == cells_of_kind(cells, width, player, CellKind::ClaimedFull) {
            CellKind::ClaimedFull
        } else {
            CellKind::ClaimedOpen
        };
        let place = choose|place: int|
            0 <= place < len && is_kind(#[trigger] cells[place], player, kind);
        assert(is_kind(cells[place], player, CellKind::Playable));
    }
}

/// Every cell in a pool of the weakest strategy may be moved on.
pub proof fn lemma_easiest_pool_legal(grid: &Grid, player: u8, choice: int, index: int)
    requires
        grid.wf(),
        0 <= index < easiest_pool(grid@, grid.spec_width() as int, player, choice).len(),
    ensures
        may_move_on(
            grid,
            player,
            easiest_pool(grid@, grid.spec_width() as int, player, choice)[index],
        ),
{
    let width = grid.spec_width() as int;
    let pool = easiest_pool(grid@, width, player, choice);
    grid.lemma_len();
    let kind = if pool == cells_of_kind(grid@, width, player, CellKind::Unclaimed) {
        CellKind::Unclaimed
    } else if pool == cells_of_kind(grid@, width, player, CellKind::ClaimedFull) {
        CellKind::ClaimedFull
    } else {
        CellKind::ClaimedOpen
    };
    lemma_cells_of_kind_sound(grid@, width, player, kind, grid@.len() as int, index);
    let place = choose|place: int|
        0 <= place < grid@.len() && is_kind(#[trigger] grid@[place], player, kind) && pool[index]
            == coords(width, place);
    crate::layout::lemma_cell_index_join(width, grid.spec_height() as int, place);
}

impl Easiest {
    /// A strategy without an answer.
    pub fn new() -> (ai: Self)
        ensures
            ai.decision() is None,
    {
        Easiest(None)
    }

    /// Picks from the three lists of cells the one that the roll `choice`
    /// calls for.
    fn select(
        fresh: Vec<(u8, u8)>,
        open: Vec<(u8, u8)>,
        full: Vec<(u8, u8)>,
        choice: i32,
    ) -> (pool: Vec<(u8, u8)>)
        ensures
            pool@ == if open@.len() + full@.len() < 2 && fresh@.len() > 0 {
                fresh@
            } else if open@.len() + full@.len() > 0 {
                if choice < 1 && fresh@.len() > 0 {
                    fresh@
                } else if choice < 4 && full@.len() > 0 {
                    full@
                } else if open@.len() > 0 {
                    open@
                } else {
                    full@
                }
            } else {
                Seq::<(u8, u8)>::empty()
            },
    {
        let few: bool = open.len() < 2 && full.len() < 2 && open.len() + full.len() < 2;
        let some: bool = open.len() > 0 || full.len() > 0;
        if few && fresh.len() > 0 {
            fresh
        } else if some {
            if choice < 1 && fresh.len() > 0 {
                fresh
            } else if choice < 4 && full.len() > 0 {
                full
            } else if open.len() > 0 {
                open
            } else {
                full
            }
        } else {
            Vec::new()
        }
    }

    /// The cell that the strategy takes on `grid` for `player` when the roll
    /// out of ten is `choice` and the draw from the pool is `index`; `None`
    /// when the pool has no such entry.
    pub fn pick(grid: &Grid, player: u8, choice: i32, index: usize) -> (cell: Option<(u8, u8)>)
        requires
            grid.wf(),
        ensures
            cell == drawn(
                easiest_pool(grid@, grid.spec_width() as int, player, choice as int),
                index as int,
            ),
    {
        let fresh: Vec<(u8, u8)> = collect_cells(grid, player, CellKind::Unclaimed);
        let open: Vec<(u8, u8)> = collect_cells(grid, player, CellKind::ClaimedOpen);
        let full: Vec<(u8, u8)> = collect_cells(grid, player, CellKind::ClaimedFull);
        let pool: Vec<(u8, u8)> = Self::select(fresh, open, full, choice);
        if index < pool.len() {
            Some(pool[index])
        } else {
            None
        }
    }

    /// Decides on a cell: sorts the cells into unclaimed, own and full, own
    /// and not full, rolls for the kind where the rules call for a roll, and
    /// draws a cell of that kind. `None` exactly when the player may move on
    /// no cell of the board.
    pub fn tick_inner(grid: &Grid, player: u8, rng: &mut StdRng) -> (cell: Option<(u8, u8)>)
        requires
            grid.wf(),
        ensures
            cell is None <==> forall|place: int|
                0 <= place < grid@.len() ==> !is_kind(
                    #[trigger] grid@[place],
                    player,
                    CellKind::Playable,
                ),
            exists|choice: int, index: int|
                0 <= choice < 10 && 0 <= index && (index < #[trigger] easiest_pool(
                    grid@,
                    grid.spec_width() as int,
                    player,
                    choice,
                ).len() || easiest_pool(grid@, grid.spec_width() as int, player, choice).len()
                    == 0) && cell == #[trigger] drawn(
                    easiest_pool(grid@, grid.spec_width() as int, player, choice),
                    index,
                ),
            cell matches Some(c) ==> may_move_on(grid, player, c),
    {
        let fresh: Vec<(u8, u8)> = collect_cells(grid, player, CellKind::Unclaimed);
        let open: Vec<(u8, u8)> = collect_cells(grid, player, CellKind::ClaimedOpen);
        let full: Vec<(u8, u8)> = collect_cells(grid, player, CellKind::ClaimedFull);
        let opens: bool = open.len() < 2 && full.len() < 2 && open.len() + full.len() < 2
            && fresh.len() > 0;
        let rolls: bool = !opens && (open.len() > 0 || full.len() > 0);
        let choice: i32 = if rolls {
            draw_below(rng, 10)
        } else {
            0
        };
        let pool: Vec<(u8, u8)> = Self::select(fresh, open, full, choice);
        let ghost spec_pool = easiest_pool(grid@, grid.spec_width() as int, player, choice as int);
        assert(pool@ == spec_pool);
        proof {
            lemma_easiest_pool_empty(grid@, grid.spec_width() as int, player, choice as int);
        }
        if pool.len() == 0 {
            assert(None::<(u8, u8)> == drawn(spec_pool, 0));
            None
        } else {
            let index: usize = draw_index(rng, pool.len());
            proof {
                assert(Some(pool@[index as int]) == drawn(spec_pool, index as int));
                lemma_easiest_pool_legal(grid, player, choice as int, index as int);
            }
            Some(pool[index])
        }
    }
}

impl Default for Easiest {
    /// A strategy without an answer.
    fn default() -> (ai: Self)
        ensures
            ai.decision() is None,
    {
        Easiest(None)
    }
}

impl Ai for Easiest {
    closed spec fn decision(&self) -> Option<(u8, u8)> {
        self.0
    }

    open spec fn prepared(&self) -> bool {
        true
    }

    open spec fn plays_for(player: u8) -> bool {
        true
    }

    fn start_move(&mut self, grid: &Grid) {
        self.0 = None;
    }

    fn tick(&mut self, grid: &Grid, player: u8, rng: &mut StdRng) -> (choice: Option<(u8, u8)>)
        ensures
            old(self).decision() is None ==> (choice is None <==> forall|place: int|
                0 <= place < grid@.len() ==> !is_kind(
                    #[trigger] grid@[place],
                    player,
                    CellKind::Playable,
                )) && (choice matches Some(c) ==> may_move_on(grid, player, c)) && exists|
                roll: int,
                index: int,
            |
                0 <= roll < 10 && 0 <= index && (index < #[trigger] easiest_pool(
                    grid@,
                    grid.spec_width() as int,
                    player,
                    roll,
                ).len() || easiest_pool(grid@, grid.spec_width() as int, player, roll).len() == 0)
                    && choice == #[trigger] drawn(
                    easiest_pool(grid@, grid.spec_width() as int, player, roll),
                    index,
                ),
    {
        if self.0.is_none() {
            self.0 = Self::tick_inner(grid, player, rng);
        }
        self.0
    }

    fn name(&self) -> (name: &'static str)
        ensures
            name == "Easiest",
    {
        "Easiest"
    }
}

} // verus!
