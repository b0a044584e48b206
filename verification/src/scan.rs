use vstd::prelude::*;
use crate::grid::{cell_at, Grid, GridCell};
use crate::layout::{coords, on_board};

verus! {

/// The kinds of cell that the simple strategies tell apart, as seen by one
/// player.
#[derive(Clone, Copy, Debug)]
pub enum CellKind {
    /// Nobody owns the cell.
    Unclaimed,
    /// The cell's owner is the player.
    Owned,
    /// The cell's owner is the player and the cell is full.
    OwnedFull,
    /// Somebody owns the cell, namely the player, and the cell is not full.
    ClaimedOpen,
    /// Somebody owns the cell, namely the player, and the cell is full.
    ClaimedFull,
    /// The player may move on the cell: nobody owns it, or the player does.
    Playable,
}

/// Whether `cell` is of kind `kind` for `player`.
pub open spec fn is_kind(cell: GridCell, player: u8, kind: CellKind) -> bool {
    match kind {
        CellKind::Unclaimed => cell.owner == 0,
        CellKind::Owned => cell.owner == player,
        CellKind::OwnedFull => cell.owner == player && cell.dots == cell.capacity,
        CellKind::ClaimedOpen => cell.owner != 0 && cell.owner == player && cell.dots
            != cell.capacity,
        CellKind::ClaimedFull => cell.owner != 0 && cell.owner == player && cell.dots
            == cell.capacity,
        CellKind::Playable => cell.owner == 0 || cell.owner == player,
    }
}

/// The cells of kind `kind` among the first `upto` cells, row by row.
pub open spec fn cells_of_kind_upto(
    cells: Seq<GridCell>,
    width: int,
    player: u8,
    kind: CellKind,
    upto: int,
) -> Seq<(u8, u8)>
    decreases upto,
{
    if upto <= 0 {
        Seq::empty()
    } else {
        let earlier = cells_of_kind_upto(cells, width, player, kind, upto - 1);
        if is_kind(cells[upto - 1], player, kind) {
            earlier.push(coords(width, upto - 1))
        } else {
            earlier
        }
    }
}

/// All cells of kind `kind` on the board, row by row.
pub open spec fn cells_of_kind(cells: Seq<GridCell>, width: int, player: u8, kind: CellKind) -> Seq<
    (u8, u8),
> {
    cells_of_kind_upto(cells, width, player, kind, cells.len() as int)
}

/// Every listed cell is a cell of the board, of the kind asked for.
pub proof fn lemma_cells_of_kind_sound(
    cells: Seq<GridCell>,
    width: int,
    player: u8,
    kind: CellKind,
    upto: int,
    j: int,
)
    requires
        0 <= upto <= cells.len(),
        0 <= j < cells_of_kind_upto(cells, width, player, kind, upto).len(),
    ensures
        exists|place: int|
            0 <= place < upto && is_kind(#[trigger] cells[place], player, kind)
                && cells_of_kind_upto(cells, width, player, kind, upto)[j] == coords(width, place),
    decreases upto,
{
    let earlier = cells_of_kind_upto(cells, width, player, kind, upto - 1);
    if j < earlier.len() {
        lemma_cells_of_kind_sound(cells, width, player, kind, upto - 1, j);
        let place = choose|place: int|
            0 <= place < upto - 1 && is_kind(#[trigger] cells[place], player, kind) && earlier[j]
                == coords(width, place);
        assert(is_kind(cells[place], player, kind));
    } else {
        assert(is_kind(cells[upto - 1], player, kind));
    }
}

/// The list is empty exactly when no cell is of the kind asked for.
pub proof fn lemma_cells_of_kind_none(
    cells: Seq<GridCell>,
    width: int,
    player: u8,
    kind: CellKind,
    upto: int,
)
    requires
        0 <= upto <= cells.len(),
    ensures
        cells_of_kind_upto(cells, width, player, kind, upto).len() <= upto,
        cells_of_kind_upto(cells, width, player, kind, upto).len() == 0 <==> forall|place: int|
            0 <= place < upto ==> !is_kind(#[trigger] cells[place], player, kind),
    decreases upto,
{
    if upto > 0 {
        lemma_cells_of_kind_none(cells, width, player, kind, upto - 1);
        if is_kind(cells[upto - 1], player, kind) {
        } else {
            if cells_of_kind_upto(cells, width, player, kind, upto).len() == 0 {
                assert forall|place: int| 0 <= place < upto implies !is_kind(
                    #[trigger] cells[place],
                    player,
                    kind,
                ) by {}
            }
        }
    }
}

/// Whether `cell` is of kind `kind` for `player`.
pub fn cell_is_kind(cell: GridCell, player: u8, kind: CellKind) -> (yes: bool)
    ensures
        yes == is_kind(cell, player, kind),
{
    match kind {
        CellKind::Unclaimed => cell.owner == 0,
        CellKind::Owned => cell.owner == player,
        CellKind::OwnedFull => cell.owner == player && cell.dots == cell.capacity,
        CellKind::ClaimedOpen => cell.owner != 0 && cell.owner == player && cell.dots
            != cell.capacity,
        CellKind::ClaimedFull => cell.owner != 0 && cell.owner == player && cell.dots
            == cell.capacity,
        CellKind::Playable => cell.owner == 0 || cell.owner == player,
    }
}

/// Lists the cells of kind `kind` for `player`, row by row.
pub fn collect_cells(grid: &Grid, player: u8, kind: CellKind) -> (found: Vec<(u8, u8)>)
    requires
        grid.wf(),
    ensures
        found@ == cells_of_kind(grid@, grid.spec_width() as int, player, kind),
{
    let mut found: Vec<(u8, u8)> = Vec::new();
    let count: usize = grid.len();
    proof {
        grid.lemma_len();
    }
    let mut place: usize = 0;
    while place < count
        invariant
            grid.wf(),
            count == grid@.len(),
            place <= count,
            found@ == cells_of_kind_upto(
                grid@,
                grid.spec_width() as int,
                player,
                kind,
                place as int,
            ),
        decreases count - place,
    {
        if cell_is_kind(grid.cell_in_place(place), player, kind) {
            found.push(grid.coords_of(place));
        }
        place = place + 1;
    }
    found
}

/// The entry of `pool` that the draw `index` picks, if the pool has that
/// many entries.
pub open spec fn drawn(pool: Seq<(u8, u8)>, index: int) -> Option<(u8, u8)> {
    if 0 <= index < pool.len() {
        Some(pool[index])
    } else {
        None
    }
}

/// The four corners of the board in the order in which the strategies look
/// at them: top left, top right, bottom left, bottom right. On a board of one
/// row or one column a corner is named twice.
pub open spec fn corner(width: int, height: int, k: int) -> (u8, u8) {
    if k == 0 {
        (0u8, 0u8)
    } else if k == 1 {
        ((width - 1) as u8, 0u8)
    } else if k == 2 {
        (0u8, (height - 1) as u8)
    } else {
        ((width - 1) as u8, (height - 1) as u8)
    }
}

/// How many of the first `k` corners `player` owns.
pub open spec fn held_corners_upto(
    cells: Seq<GridCell>,
    width: int,
    height: int,
    player: u8,
    k: int,
) -> int
    decreases k,
{
    if k <= 0 {
        0
    } else {
        let c = corner(width, height, k - 1);
        held_corners_upto(cells, width, height, player, k - 1) + if cell_at(
            cells,
            width,
            c.0 as int,
            c.1 as int,
        ).owner == player {
            1int
        } else {
            0int
        }
    }
}

/// Those of the first `k` corners that nobody owns and that `player` does
/// not count as held.
pub open spec fn open_corners_upto(
    cells: Seq<GridCell>,
    width: int,
    height: int,
    player: u8,
    k: int,
) -> Seq<(u8, u8)>
    decreases k,
{
    if k <= 0 {
        Seq::empty()
    } else {
        let c = corner(width, height, k - 1);
        let earlier = open_corners_upto(cells, width, height, player, k - 1);
        let cell = cell_at(cells, width, c.0 as int, c.1 as int);
        if cell.owner != player && cell.owner == 0 {
            earlier.push(c)
        } else {
            earlier
        }
    }
}

/// The corners to open with: the unclaimed corners, while `player` holds
/// fewer than two corners; none once two are held.
pub open spec fn corner_opening(cells: Seq<GridCell>, width: int, height: int, player: u8) -> Seq<
    (u8, u8),
> {
    if held_corners_upto(cells, width, height, player, 4) < 2 {
        open_corners_upto(cells, width, height, player, 4)
    } else {
        Seq::empty()
    }
}

/// Every corner listed as open is an unclaimed cell of the board.
pub proof fn lemma_open_corners_sound(
    cells: Seq<GridCell>,
    width: int,
    height: int,
    player: u8,
    k: int,
    j: int,
)
    requires
        0 < width <= 255,
        0 < height <= 255,
        0 <= k <= 4,
        0 <= j < open_corners_upto(cells, width, height, player, k).len(),
    ensures
        ({
            let c = open_corners_upto(cells, width, height, player, k)[j];
            on_board(width, height, c.0 as int, c.1 as int) && cell_at(
                cells,
                width,
                c.0 as int,
                c.1 as int,
            ).owner == 0
        }),
    decreases k,
{
    if k > 0 {
        let earlier = open_corners_upto(cells, width, height, player, k - 1);
        if j < earlier.len() {
            lemma_open_corners_sound(cells, width, height, player, k - 1, j);
        }
    }
}

/// Lists the corners to open with for `player`.
pub fn opening_corners(grid: &Grid, player: u8) -> (found: Vec<(u8, u8)>)
    requires
        grid.wf(),
        grid.spec_width() > 0,
        grid.spec_height() > 0,
    ensures
        found@ == corner_opening(
            grid@,
            grid.spec_width() as int,
            grid.spec_height() as int,
            player,
        ),
{
    let width: u8 = grid.width();
    let height: u8 = grid.height();
    let mut held: u8 = 0;
    let mut found: Vec<(u8, u8)> = Vec::new();
    let mut k: u8 = 0;
    while k < 4
        invariant
            grid.wf(),
            width == grid.spec_width(),
            height == grid.spec_height(),
            width > 0,
            height > 0,
            k <= 4,
            held == held_corners_upto(grid@, width as int, height as int, player, k as int),
            held <= k,
            found@ == open_corners_upto(grid@, width as int, height as int, player, k as int),
        decreases 4 - k,
    {
        let x: u8 = if k == 0 || k == 2 {
            0
        } else {
            width - 1
        };
        let y: u8 = if k == 0 || k == 1 {
            0
        } else {
            height - 1
        };
        let cell: GridCell = grid.cell(x, y);
        if cell.owner == player {
            held = held + 1;
        } else if cell.owner == 0 {
            found.push((x, y));
        }
        k = k + 1;
    }
    if held < 2 {
        found
    } else {
        Vec::new()
    }
}

} // verus!
