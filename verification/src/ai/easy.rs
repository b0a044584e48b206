use vstd::prelude::*;
use rand::rngs::StdRng;
use std::collections::VecDeque;
use crate::ai::{may_move_on, Ai};
use crate::cascade::{count_marked, lemma_count_marked_bounds, lemma_count_marked_clear,
    lemma_count_marked_update};
use crate::chance::draw_index;
use crate::grid::{cell_at, Grid, GridCell};
use crate::layout::{cell_index, coords, lemma_cell_index_in_range, lemma_cell_index_join,
    lemma_cell_index_unique, on_board};
use crate::marks::{marked, marks_contains, marks_insert, marks_new};
use crate::scan::{
    cells_of_kind, collect_cells, corner_opening, drawn, is_kind, lemma_cells_of_kind_none,
    lemma_cells_of_kind_sound, lemma_open_corners_sound, opening_corners, CellKind,
};

verus! {

/// A strategy that likes corners and chain reactions.
pub struct Easy(Option<(u8, u8)>);

/// Whether the cell at `(x, y)` is on the board and full.
pub open spec fn full_at(cells: Seq<GridCell>, width: int, height: int, x: int, y: int) -> bool {
    on_board(width, height, x, y) && cell_at(cells, width, x, y).dots == cell_at(
        cells,
        width,
        x,
        y,
    ).capacity
}

/// Whether a full cell lies next to `(x, y)`: a chain reaction that starts
/// on `(x, y)` then runs through more than one full cell.
pub open spec fn full_beside(cells: Seq<GridCell>, width: int, height: int, x: int, y: int) -> bool {
    full_at(cells, width, height, x - 1, y) || full_at(cells, width, height, x, y - 1) || full_at(
        cells,
        width,
        height,
        x + 1,
        y,
    ) || full_at(cells, width, height, x, y + 1)
}

/// Those of the first `upto` cells of `origins` that have a full cell next
/// to them.
pub open spec fn chain_starts_upto(
    cells: Seq<GridCell>,
    width: int,
    height: int,
    origins: Seq<(u8, u8)>,
    upto: int,
) -> Seq<(u8, u8)>
    decreases upto,
{
    if upto <= 0 {
        Seq::empty()
    } else {
        let earlier = chain_starts_upto(cells, width, height, origins, upto - 1);
        let c = origins[upto - 1];
        if full_beside(cells, width, height, c.0 as int, c.1 as int) {
            earlier.push(c)
        } else {
            earlier
        }
    }
}

/// The full cells of `player` from which a chain reaction would run through
/// more than one full cell.
pub open spec fn chain_starts(cells: Seq<GridCell>, width: int, height: int, player: u8) -> Seq<
    (u8, u8),
> {
    let origins = cells_of_kind(cells, width, player, CellKind::OwnedFull);
    chain_starts_upto(cells, width, height, origins, origins.len() as int)
}

/// The cells among which the strategy picks one at random: unclaimed corners
/// while it holds fewer than two corners; else its full cells that start a
/// chain; else its own cells; else the unclaimed cells.
pub open spec fn easy_pool(cells: Seq<GridCell>, width: int, height: int, player: u8) -> Seq<
    (u8, u8),
> {
    let opening = corner_opening(cells, width, height, player);
    let chains = chain_starts(cells, width, height, player);
    let owned = cells_of_kind(cells, width, player, CellKind::Owned);
    if opening.len() > 0 {
        opening
    } else if chains.len() > 0 {
        chains
    } else if owned.len() > 0 {
        owned
    } else {
        cells_of_kind(cells, width, player, CellKind::Unclaimed)
    }
}

/// Every chain start is one of the origins it was picked from.
pub proof fn lemma_chain_starts_sound(
    cells: Seq<GridCell>,
    width: int,
    height: int,
    origins: Seq<(u8, u8)>,
    upto: int,
    j: int,
)
    requires
        0 <= upto <= origins.len(),
        0 <= j < chain_starts_upto(cells, width, height, origins, upto).len(),
    ensures
        exists|k: int|
            0 <= k < upto && #[trigger] origins[k] == chain_starts_upto(
                cells,
                width,
                height,
                origins,
                upto,
            )[j],
    decreases upto,
{
    let earlier = chain_starts_upto(cells, width, height, origins, upto - 1);
    if j < earlier.len() {
        lemma_chain_starts_sound(cells, width, height, origins, upto - 1, j);
        let k = choose|k: int| 0 <= k < upto - 1 && #[trigger] origins[k] == earlier[j];
        assert(origins[k] == earlier[j]);
    } else {
        assert(origins[upto - 1] == chain_starts_upto(cells, width, height, origins, upto)[j]);
    }
}

/// A listed cell of some kind may be moved on when that kind is unclaimed or
/// owned.
pub proof fn lemma_kind_legal(grid: &Grid, player: u8, kind: CellKind, j: int)
    requires
        grid.wf(),
        0 <= j < cells_of_kind(grid@, grid.spec_width() as int, player, kind).len(),
    ensures
        may_move_on(grid, player, cells_of_kind(grid@, grid.spec_width() as int, player, kind)[j]),
{
    let width = grid.spec_width() as int;
    grid.lemma_len();
    lemma_cells_of_kind_sound(grid@, width, player, kind, grid@.len() as int, j);
    let place = choose|place: int|
        0 <= place < grid@.len() && is_kind(#[trigger] grid@[place], player, kind)
            && cells_of_kind(grid@, width, player, kind)[j] == coords(width, place);
    lemma_cell_index_join(width, grid.spec_height() as int, place);
}

/// Every cell in the pool of the strategy may be moved on.
pub proof fn lemma_easy_pool_legal(grid: &Grid, player: u8, index: int)
    requires
        grid.wf(),
        grid.spec_width() > 0,
        grid.spec_height() > 0,
        0 <= index < easy_pool(
            grid@,
            grid.spec_width() as int,
            grid.spec_height() as int,
            player,
        ).len(),
    ensures
        may_move_on(
            grid,
            player,
            easy_pool(grid@, grid.spec_width() as int, grid.spec_height() as int, player)[index],
        ),
{
    let width = grid.spec_width() as int;
    let height = grid.spec_height() as int;
    let opening = corner_opening(grid@, width, height, player);
    let chains = chain_starts(grid@, width, height, player);
    let owned = cells_of_kind(grid@, width, player, CellKind::Owned);
    if opening.len() > 0 {
        lemma_open_corners_sound(grid@, width, height, player, 4, index);
    } else if chains.len() > 0 {
        let origins = cells_of_kind(grid@, width, player, CellKind::OwnedFull);
        lemma_chain_starts_sound(grid@, width, height, origins, origins.len() as int, index);
        let k = choose|k: int| 0 <= k < origins.len() && #[trigger] origins[k] == chains[index];
        lemma_kind_legal(grid, player, CellKind::OwnedFull, k);
    } else if owned.len() > 0 {
        lemma_kind_legal(grid, player, CellKind::Owned, index);
    } else {
        lemma_kind_legal(grid, player, CellKind::Unclaimed, index);
    }
}

/// Whether a run of at most `steps` steps leads from `(x0, y0)` to
/// `(x, y)`, each step onto a full cell next to the cell before.
pub open spec fn flooded_within(
    cells: Seq<GridCell>,
    width: int,
    height: int,
    x0: int,
    y0: int,
    x: int,
    y: int,
    steps: nat,
) -> bool
    decreases steps,
{
    ||| (x == x0 && y == y0)
    ||| (steps > 0 && full_at(cells, width, height, x, y) && (flooded_within(
        cells,
        width,
        height,
        x0,
        y0,
        x - 1,
        y,
        (steps - 1) as nat,
    ) || flooded_within(cells, width, height, x0, y0, x, y - 1, (steps - 1) as nat)
        || flooded_within(cells, width, height, x0, y0, x + 1, y, (steps - 1) as nat)
        || flooded_within(cells, width, height, x0, y0, x, y + 1, (steps - 1) as nat)))
}

/// Whether a flood over adjoining full cells that starts on `(x0, y0)`
/// reaches `(x, y)`.
pub open spec fn flooded(
    cells: Seq<GridCell>,
    width: int,
    height: int,
    x0: int,
    y0: int,
    x: int,
    y: int,
) -> bool {
    exists|steps: nat| flooded_within(cells, width, height, x0, y0, x, y, steps)
}

/// Number of cells that a flood over adjoining full cells reaches from
/// `(x0, y0)`, that cell included.
pub open spec fn flood_size(cells: Seq<GridCell>, width: int, height: int, x0: int, y0: int) -> int {
    count_marked(
        Seq::new(
            (width * height) as nat,
            |place: int| flooded(cells, width, height, x0, y0, place % width, place / width),
        ),
    )
}

/// Whether the flood has counted the cell at `(x, y)`.
pub open spec fn seen_at(seen: Seq<bool>, width: int, x: int, y: int) -> bool {
    seen[cell_index(width, x, y)]
}

/// Whether the cell at `(x, y)` waits in the line of the flood.
pub open spec fn waits(queue: Seq<(u8, u8)>, x: int, y: int) -> bool {
    exists|j: int| 0 <= j < queue.len() && #[trigger] queue[j] == (x as u8, y as u8)
}

/// Whether the cell at `(x, y)` is full and neither counted nor waiting.
pub open spec fn missed(
    cells: Seq<GridCell>,
    width: int,
    height: int,
    seen: Seq<bool>,
    queue: Seq<(u8, u8)>,
    x: int,
    y: int,
) -> bool {
    full_at(cells, width, height, x, y) && !seen_at(seen, width, x, y) && !waits(queue, x, y)
}

/// No full cell next to a counted cell at `(x, y)` has been missed.
pub open spec fn flood_step_ok(
    cells: Seq<GridCell>,
    width: int,
    height: int,
    seen: Seq<bool>,
    queue: Seq<(u8, u8)>,
    x: int,
    y: int,
) -> bool {
    seen_at(seen, width, x, y) ==> !missed(cells, width, height, seen, queue, x - 1, y) && !missed(
        cells,
        width,
        height,
        seen,
        queue,
        x,
        y - 1,
    ) && !missed(cells, width, height, seen, queue, x + 1, y) && !missed(
        cells,
        width,
        height,
        seen,
        queue,
        x,
        y + 1,
    )
}

/// What the flood keeps true: a counted cell is reached by the flood, and so
/// is a waiting cell; no full cell next to a counted cell has been missed;
/// and the cell that the flood starts on is counted or waits.
pub open spec fn flood_inv(
    cells: Seq<GridCell>,
    width: int,
    height: int,
    x0: int,
    y0: int,
    seen: Seq<bool>,
    queue: Seq<(u8, u8)>,
) -> bool {
    &&& forall|x: int, y: int|
        on_board(width, height, x, y) ==> #[trigger] flood_step_ok(
            cells,
            width,
            height,
            seen,
            queue,
            x,
            y,
        )
    &&& forall|x: int, y: int|
        on_board(width, height, x, y) && #[trigger] seen_at(seen, width, x, y) ==> flooded(
            cells,
            width,
            height,
            x0,
            y0,
            x,
            y,
        )
    &&& forall|j: int|
        0 <= j < queue.len() ==> flooded(
            cells,
            width,
            height,
            x0,
            y0,
            (#[trigger] queue[j]).0 as int,
            queue[j].1 as int,
        )
    &&& seen_at(seen, width, x0, y0) || waits(queue, x0, y0)
}

/// The flood reaches a full cell next to a cell that it reaches.
pub proof fn lemma_flood_next(
    cells: Seq<GridCell>,
    width: int,
    height: int,
    x0: int,
    y0: int,
    x: int,
    y: int,
    nx: int,
    ny: int,
)
    requires
        flooded(cells, width, height, x0, y0, x, y),
        crate::cascade::adjacent(nx, ny, x, y),
        full_at(cells, width, height, nx, ny),
    ensures
        flooded(cells, width, height, x0, y0, nx, ny),
{
    let steps = choose|steps: nat| flooded_within(cells, width, height, x0, y0, x, y, steps);
    assert(flooded_within(cells, width, height, x0, y0, nx, ny, steps + 1));
}

/// One round of the flood keeps what the flood keeps true: the cell at the
/// head of the line has been counted, and if it had not been counted before,
/// its full neighbours wait now.
pub proof fn lemma_flood_kept(
    cells: Seq<GridCell>,
    width: int,
    height: int,
    x0: int,
    y0: int,
    seen: Seq<bool>,
    line: Seq<(u8, u8)>,
    seen_after: Seq<bool>,
    line_after: Seq<(u8, u8)>,
)
    requires
        0 < width <= 255,
        0 < height <= 255,
        seen.len() == width * height,
        on_board(width, height, x0, y0),
        flood_inv(cells, width, height, x0, y0, seen, line),
        line.len() > 0,
        on_board(width, height, line[0].0 as int, line[0].1 as int),
        seen_after == seen.update(cell_index(width, line[0].0 as int, line[0].1 as int), true),
        line_after.len() >= line.len() - 1,
        forall|j: int| 0 <= j < line.len() - 1 ==> #[trigger] line_after[j] == line[j + 1],
        forall|j: int|
            0 <= j < line_after.len() ==> flooded(
                cells,
                width,
                height,
                x0,
                y0,
                (#[trigger] line_after[j]).0 as int,
                line_after[j].1 as int,
            ),
        !seen_at(seen, width, line[0].0 as int, line[0].1 as int) ==> !missed(
            cells,
            width,
            height,
            seen_after,
            line_after,
            line[0].0 - 1,
            line[0].1 as int,
        ) && !missed(
            cells,
            width,
            height,
            seen_after,
            line_after,
            line[0].0 as int,
            line[0].1 - 1,
        ) && !missed(
            cells,
            width,
            height,
            seen_after,
            line_after,
            line[0].0 + 1,
            line[0].1 as int,
        ) && !missed(
            cells,
            width,
            height,
            seen_after,
            line_after,
            line[0].0 as int,
            line[0].1 + 1,
        ),
    ensures
        flood_inv(cells, width, height, x0, y0, seen_after, line_after),
{
    let hx = line[0].0 as int;
    let hy = line[0].1 as int;
    let place = cell_index(width, hx, hy);
    lemma_cell_index_in_range(width, height, hx, hy);
    // A cell that was counted or waited is counted or waits.
    assert forall|x: int, y: int|
        on_board(width, height, x, y) && (seen_at(seen, width, x, y) || waits(
            line,
            x,
            y,
        )) implies seen_at(seen_after, width, x, y) || waits(line_after, x, y) by {
        lemma_cell_index_in_range(width, height, x, y);
        if !seen_at(seen, width, x, y) {
            let j = choose|j: int| 0 <= j < line.len() && #[trigger] line[j] == (x as u8, y as u8);
            if j == 0 {
                assert(x == hx && y == hy);
            } else {
                assert(line_after[j - 1] == (x as u8, y as u8));
            }
        }
    }
    assert forall|x: int, y: int| on_board(width, height, x, y) implies #[trigger] flood_step_ok(
        cells,
        width,
        height,
        seen_after,
        line_after,
        x,
        y,
    ) by {
        lemma_cell_index_in_range(width, height, x, y);
        if seen_at(seen_after, width, x, y) {
            if x == hx && y == hy && !seen_at(seen, width, x, y) {
            } else {
                if cell_index(width, x, y) == place {
                    lemma_cell_index_unique(width, x, y, hx, hy);
                }
                assert(seen_at(seen, width, x, y));
                assert(flood_step_ok(cells, width, height, seen, line, x, y));
            }
        }
    }
    assert forall|x: int, y: int|
        on_board(width, height, x, y) && #[trigger] seen_at(
            seen_after,
            width,
            x,
            y,
        ) implies flooded(cells, width, height, x0, y0, x, y) by {
        lemma_cell_index_in_range(width, height, x, y);
        if cell_index(width, x, y) == place {
            lemma_cell_index_unique(width, x, y, hx, hy);
            assert(flooded(cells, width, height, x0, y0, line[0].0 as int, line[0].1 as int));
        } else {
            assert(seen_at(seen, width, x, y));
        }
    }
}

/// Every cell that the flood reaches has been counted when no cell waits any
/// more.
pub proof fn lemma_flood_closed(
    cells: Seq<GridCell>,
    width: int,
    height: int,
    x0: int,
    y0: int,
    seen: Seq<bool>,
    x: int,
    y: int,
    steps: nat,
)
    requires
        on_board(width, height, x0, y0),
        flood_inv(cells, width, height, x0, y0, seen, Seq::empty()),
        flooded_within(cells, width, height, x0, y0, x, y, steps),
    ensures
        on_board(width, height, x, y),
        seen_at(seen, width, x, y),
    decreases steps,
{
    if x == x0 && y == y0 {
    } else {
        let less = (steps - 1) as nat;
        if flooded_within(cells, width, height, x0, y0, x - 1, y, less) {
            lemma_flood_closed(cells, width, height, x0, y0, seen, x - 1, y, less);
            assert(flood_step_ok(cells, width, height, seen, Seq::empty(), x - 1, y));
        } else if flooded_within(cells, width, height, x0, y0, x, y - 1, less) {
            lemma_flood_closed(cells, width, height, x0, y0, seen, x, y - 1, less);
            assert(flood_step_ok(cells, width, height, seen, Seq::empty(), x, y - 1));
        } else if flooded_within(cells, width, height, x0, y0, x + 1, y, less) {
            lemma_flood_closed(cells, width, height, x0, y0, seen, x + 1, y, less);
            assert(flood_step_ok(cells, width, height, seen, Seq::empty(), x + 1, y));
        } else {
            lemma_flood_closed(cells, width, height, x0, y0, seen, x, y + 1, less);
            assert(flood_step_ok(cells, width, height, seen, Seq::empty(), x, y + 1));
        }
    }
}

/// When no cell waits any more, the cells counted are the cells that the
/// flood reaches.
pub proof fn lemma_flood_done(
    cells: Seq<GridCell>,
    width: int,
    height: int,
    x0: int,
    y0: int,
    seen: Seq<bool>,
)
    requires
        0 < width,
        0 < height,
        seen.len() == width * height,
        on_board(width, height, x0, y0),
        flood_inv(cells, width, height, x0, y0, seen, Seq::empty()),
    ensures
        count_marked(seen) == flood_size(cells, width, height, x0, y0),
{
    let reached = Seq::new(
        (width * height) as nat,
        |place: int| flooded(cells, width, height, x0, y0, place % width, place / width),
    );
    assert forall|place: int| 0 <= place < seen.len() implies seen[place] == reached[place] by {
        lemma_cell_index_join(width, height, place);
        let x = place % width;
        let y = place / width;
        if seen[place] {
            assert(seen_at(seen, width, x, y));
        }
        if reached[place] {
            let steps = choose|steps: nat|
                flooded_within(cells, width, height, x0, y0, x, y, steps);
            lemma_flood_closed(cells, width, height, x0, y0, seen, x, y, steps);
        }
    }
    assert(seen =~= reached);
}

/// The pool of the strategy is empty exactly when the player may move on no
/// cell of the board.
pub proof fn lemma_easy_pool_empty(grid: &Grid, player: u8)
    requires
        grid.wf(),
        grid.spec_width() > 0,
        grid.spec_height() > 0,
    ensures
        easy_pool(grid@, grid.spec_width() as int, grid.spec_height() as int, player).len() == 0
            <==> forall|place: int|
            0 <= place < grid@.len() ==> !is_kind(#[trigger] grid@[place], player, CellKind::Playable),
{
    let width = grid.spec_width() as int;
    let height = grid.spec_height() as int;
    let pool = easy_pool(grid@, width, height, player);
    grid.lemma_len();
    if pool.len() > 0 {
        lemma_easy_pool_legal(grid, player, 0);
        let c = pool[0];
        let place = cell_index(width, c.0 as int, c.1 as int);
        lemma_cell_index_in_range(width, height, c.0 as int, c.1 as int);
        assert(is_kind(grid@[place], player, CellKind::Playable));
    } else {
        lemma_cells_of_kind_none(grid@, width, player, CellKind::Owned, grid@.len() as int);
        lemma_cells_of_kind_none(grid@, width, player, CellKind::Unclaimed, grid@.len() as int);
        assert forall|place: int| 0 <= place < grid@.len() implies !is_kind(
            #[trigger] grid@[place],
            player,
            CellKind::Playable,
        ) by {
            assert(!is_kind(grid@[place], player, CellKind::Owned));
            assert(!is_kind(grid@[place], player, CellKind::Unclaimed));
        }
    }
}

impl Easy {
    /// A strategy without an answer.
    pub fn new() -> (ai: Self)
        ensures
            ai.decision() is None,
    {
        Easy(None)
    }

    /// Whether the cell at `(x, y)` is on the board and full.
    fn is_full_at(grid: &Grid, x: u8, y: u8) -> (full: bool)
        requires
            grid.wf(),
            x < grid.spec_width(),
            y < grid.spec_height(),
        ensures
            full == full_at(
                grid@,
                grid.spec_width() as int,
                grid.spec_height() as int,
                x as int,
                y as int,
            ),
    {
        grid.cell(x, y).is_full()
    }

    /// Counts the cells that a flood over adjoining full cells reaches from
    /// `(x, y)`, the cell itself included. The count is above one exactly
    /// when a full cell lies next to `(x, y)`.
    pub fn chain_size(grid: &Grid, x: u8, y: u8) -> (count: usize)
        requires
            grid.wf(),
            x < grid.spec_width(),
            y < grid.spec_height(),
        ensures
            count == flood_size(
                grid@,
                grid.spec_width() as int,
                grid.spec_height() as int,
                x as int,
                y as int,
            ),
            count >= 1,
            count <= grid@.len(),
            count > 1 <==> full_beside(
                grid@,
                grid.spec_width() as int,
                grid.spec_height() as int,
                x as int,
                y as int,
            ),
    {
        let width: u8 = grid.width();
        let height: u8 = grid.height();
        let ghost w: int = width as int;
        let ghost h: int = height as int;
        let ghost beside: bool = full_beside(grid@, w, h, x as int, y as int);
        let mut visited = marks_new();
        let mut queue: VecDeque<(u8, u8)> = VecDeque::new();
        queue.push_back((x, y));
        let mut count: usize = 0;
        let ghost mut seen: Seq<bool> = Seq::new(grid@.len(), |i: int| false);
        let total: usize = grid.len();
        proof {
            grid.lemma_len();
            lemma_count_marked_clear(grid@.len());
            assert forall|cx: u8, cy: u8|
                #![trigger marked(visited).contains((cx, cy))]
                marked(visited).contains((cx, cy)) <==> (cx < width && cy < height
                    && seen[cell_index(w, cx as int, cy as int)]) by {
                if cx < width && cy < height {
                    lemma_cell_index_in_range(w, h, cx as int, cy as int);
                }
            }
            assert(queue@[0] == (x, y));
            assert(flooded_within(grid@, w, h, x as int, y as int, x as int, y as int, 0));
            assert(flooded(grid@, w, h, x as int, y as int, x as int, y as int));
            assert(waits(queue@, x as int, y as int));
            assert forall|cx: int, cy: int| on_board(w, h, cx, cy) implies #[trigger] flood_step_ok(
                grid@,
                w,
                h,
                seen,
                queue@,
                cx,
                cy,
            ) by {
                lemma_cell_index_in_range(w, h, cx, cy);
            }
            assert forall|cx: int, cy: int|
                on_board(w, h, cx, cy) && #[trigger] seen_at(seen, w, cx, cy) implies flooded(
                grid@,
                w,
                h,
                x as int,
                y as int,
                cx,
                cy,
            ) by {
                lemma_cell_index_in_range(w, h, cx, cy);
            }
        }
        while queue.len() > 0
            invariant
                grid.wf(),
                width == grid.spec_width(),
                height == grid.spec_height(),
                w == width,
                h == height,
                x < width,
                y < height,
                beside == full_beside(grid@, w, h, x as int, y as int),
                seen.len() == grid@.len(),
                grid@.len() == w * h,
                grid@.len() == total,
                count == count_marked(seen),
                count <= total,
                count == 0 ==> marked(visited) == Set::<(u8, u8)>::empty(),
                forall|j: int|
                    0 <= j < queue@.len() ==> (#[trigger] queue@[j]).0 < width && queue@[j].1
                        < height,
                forall|cx: u8, cy: u8|
                    #![trigger marked(visited).contains((cx, cy))]
                    marked(visited).contains((cx, cy)) <==> (cx < width && cy < height && seen[cell_index(
                        w,
                        cx as int,
                        cy as int,
                    )]),
                count == 0 ==> queue@ == seq![(x, y)],
                count == 1 ==> marked(visited) == set![(x, y)] && (queue@.len() > 0 <==> beside)
                    && forall|j: int| 0 <= j < queue@.len() ==> #[trigger] queue@[j] != (x, y),
                count >= 2 ==> beside,
                flood_inv(grid@, w, h, x as int, y as int, seen, queue@),
            decreases grid@.len() - count, queue@.len(),
        {
            let ghost line = queue@;
            let ghost before = seen;
            let head: Option<(u8, u8)> = queue.pop_front();
            let (cx, cy): (u8, u8) = match head {
                Some(cell) => cell,
                None => (0, 0),
            };
            assert((cx, cy) == line[0]);
            let ghost rest = queue@;
            let ghost place = cell_index(w, cx as int, cy as int);
            proof {
                lemma_cell_index_in_range(w, h, cx as int, cy as int);
                assert(flooded(grid@, w, h, x as int, y as int, line[0].0 as int, line[0].1 as int));
            }
            if !marks_contains(&visited, (cx, cy)) {
                proof {
                    lemma_count_marked_update(before, place);
                    lemma_count_marked_bounds(before.update(place, true));
                    seen = before.update(place, true);
                }
                marks_insert(&mut visited, (cx, cy));
                count = count + 1;
                proof {
                    assert forall|ox: u8, oy: u8|
                        #![trigger marked(visited).contains((ox, oy))]
                        marked(visited).contains((ox, oy)) <==> (ox < width && oy < height
                            && seen[cell_index(w, ox as int, oy as int)]) by {
                        if ox < width && oy < height {
                            lemma_cell_index_in_range(w, h, ox as int, oy as int);
                            if cell_index(w, ox as int, oy as int) == place {
                                lemma_cell_index_unique(
                                    w,
                                    ox as int,
                                    oy as int,
                                    cx as int,
                                    cy as int,
                                );
                            }
                        }
                    }
                    if count == 1 {
                        assert(marked(visited) =~= set![(x, y)]);
                    }
                }
                if cx > 0 && Self::is_full_at(grid, cx - 1, cy) {
                    queue.push_back((cx - 1, cy));
                }
                let ghost q1 = queue@;
                if cy > 0 && Self::is_full_at(grid, cx, cy - 1) {
                    queue.push_back((cx, cy - 1));
                }
                let ghost q2 = queue@;
                if cx < width - 1 && Self::is_full_at(grid, cx + 1, cy) {
                    queue.push_back((cx + 1, cy));
                }
                let ghost q3 = queue@;
                if cy < height - 1 && Self::is_full_at(grid, cx, cy + 1) {
                    queue.push_back((cx, cy + 1));
                }
                proof {
                    let q4 = queue@;
                    // Each full neighbour of the cell waits now.
                    if full_at(grid@, w, h, cx - 1, cy as int) {
                        assert(q4[q1.len() - 1] == ((cx - 1) as u8, cy));
                    }
                    if full_at(grid@, w, h, cx as int, cy - 1) {
                        assert(q4[q2.len() - 1] == (cx, (cy - 1) as u8));
                    }
                    if full_at(grid@, w, h, cx + 1, cy as int) {
                        assert(q4[q3.len() - 1] == ((cx + 1) as u8, cy));
                    }
                    if full_at(grid@, w, h, cx as int, cy + 1) {
                        assert(q4[q4.len() - 1] == (cx, (cy + 1) as u8));
                    }
                    assert forall|j: int| 0 <= j < q4.len() implies flooded(
                        grid@,
                        w,
                        h,
                        x as int,
                        y as int,
                        (#[trigger] q4[j]).0 as int,
                        q4[j].1 as int,
                    ) by {
                        if j < rest.len() {
                            assert(q4[j] == line[j + 1]);
                        } else {
                            lemma_flood_next(
                                grid@,
                                w,
                                h,
                                x as int,
                                y as int,
                                cx as int,
                                cy as int,
                                q4[j].0 as int,
                                q4[j].1 as int,
                            );
                        }
                    }
                }
            }
            proof {
                let now = queue@;
                assert(seen =~= before.update(place, true));
                assert forall|j: int| 0 <= j < rest.len() implies #[trigger] now[j] == line[j + 1] by {}
                assert forall|j: int| 0 <= j < now.len() implies flooded(
                    grid@,
                    w,
                    h,
                    x as int,
                    y as int,
                    (#[trigger] now[j]).0 as int,
                    now[j].1 as int,
                ) by {
                    if j < rest.len() {
                        assert(now[j] == line[j + 1]);
                    }
                }
                lemma_flood_kept(
                    grid@,
                    w,
                    h,
                    x as int,
                    y as int,
                    before,
                    line,
                    seen,
                    now,
                );
            }
        }
        proof {
            assert(queue@ =~= Seq::<(u8, u8)>::empty());
            lemma_flood_done(grid@, w, h, x as int, y as int, seen);
        }
        count
    }

    /// Lists the full cells of `player` that start a chain.
    pub fn chains(grid: &Grid, player: u8) -> (found: Vec<(u8, u8)>)
        requires
            grid.wf(),
        ensures
            found@ == chain_starts(
                grid@,
                grid.spec_width() as int,
                grid.spec_height() as int,
                player,
            ),
    {
        let origins: Vec<(u8, u8)> = collect_cells(grid, player, CellKind::OwnedFull);
        let mut found: Vec<(u8, u8)> = Vec::new();
        let mut k: usize = 0;
        while k < origins.len()
            invariant
                grid.wf(),
                k <= origins@.len(),
                origins@ == cells_of_kind(grid@, grid.spec_width() as int, player, CellKind::OwnedFull),
                found@ == chain_starts_upto(
                    grid@,
                    grid.spec_width() as int,
                    grid.spec_height() as int,
                    origins@,
                    k as int,
                ),
            decreases origins@.len() - k,
        {
            let origin: (u8, u8) = origins[k];
            proof {
                lemma_kind_legal(grid, player, CellKind::OwnedFull, k as int);
            }
            if Self::chain_size(grid, origin.0, origin.1) > 1 {
                found.push(origin);
            }
            k = k + 1;
        }
        found
    }

    /// The cells among which the strategy picks one at random.
    pub fn pool(grid: &Grid, player: u8) -> (pool: Vec<(u8, u8)>)
        requires
            grid.wf(),
            grid.spec_width() > 0,
            grid.spec_height() > 0,
        ensures
            pool@ == easy_pool(
                grid@,
                grid.spec_width() as int,
                grid.spec_height() as int,
                player,
            ),
    {
        let opening: Vec<(u8, u8)> = opening_corners(grid, player);
        if opening.len() > 0 {
            return opening;
        }
        let chains: Vec<(u8, u8)> = Self::chains(grid, player);
        if chains.len() > 0 {
            return chains;
        }
        let owned: Vec<(u8, u8)> = collect_cells(grid, player, CellKind::Owned);
        if owned.len() > 0 {
            return owned;
        }
        collect_cells(grid, player, CellKind::Unclaimed)
    }

    /// Decides on a cell: a random one from the pool, `None` when the pool is
    /// empty, which means that no cell is unclaimed or the player's own.
    pub fn tick_inner(grid: &Grid, player: u8, rng: &mut StdRng) -> (cell: Option<(u8, u8)>)
        requires
            grid.wf(),
            grid.spec_width() > 0,
            grid.spec_height() > 0,
        ensures
            cell is None <==> easy_pool(
                grid@,
                grid.spec_width() as int,
                grid.spec_height() as int,
                player,
            ).len() == 0,
            cell is None <==> forall|place: int|
                0 <= place < grid@.len() ==> !is_kind(
                    #[trigger] grid@[place],
                    player,
                    CellKind::Playable,
                ),
            cell matches Some(c) ==> may_move_on(grid, player, c) && exists|index: int|
                cell == #[trigger] drawn(
                    easy_pool(grid@, grid.spec_width() as int, grid.spec_height() as int, player),
                    index,
                ),
    {
        let pool: Vec<(u8, u8)> = Self::pool(grid, player);
        proof {
            lemma_easy_pool_empty(grid, player);
        }
        if pool.len() == 0 {
            None
        } else {
            let index: usize = draw_index(rng, pool.len());
            proof {
                lemma_easy_pool_legal(grid, player, index as int);
                assert(Some(pool@[index as int]) == drawn(pool@, index as int));
            }
            Some(pool[index])
        }
    }
}

impl Default for Easy {
    /// A strategy without an answer.
    fn default() -> (ai: Self)
        ensures
            ai.decision() is None,
    {
        Easy(None)
    }
}

impl Ai for Easy {
    closed spec fn decision(&self) -> Option<(u8, u8)> {
        self.0
    }

    open spec fn prepared(&self) -> bool {
        true
    }

    open spec fn plays_for(player: u8) -> bool {
        true
    }

    fn start_move(&mut self, grid: &Grid) {
        self.0 = None;
    }

    fn tick(&mut self, grid: &Grid, player: u8, rng: &mut StdRng) -> (choice: Option<(u8, u8)>)
        ensures
            old(self).decision() is None ==> (choice is None <==> easy_pool(
                grid@,
                grid.spec_width() as int,
                grid.spec_height() as int,
                player,
            ).len() == 0) && (choice is None <==> forall|place: int|
                0 <= place < grid@.len() ==> !is_kind(
                    #[trigger] grid@[place],
                    player,
                    CellKind::Playable,
                )) && (choice matches Some(c) ==> may_move_on(grid, player, c)
                && exists|index: int|
                choice == #[trigger] drawn(
                    easy_pool(grid@, grid.spec_width() as int, grid.spec_height() as int, player),
                    index,
                )),
    {
        if self.0.is_none() {
            self.0 = Self::tick_inner(grid, player, rng);
        }
        self.0
    }

    fn name(&self) -> (name: &'static str)
        ensures
            name == "Easy",
    {
        "Easy"
    }
}

} // verus!
