use vstd::prelude::*;
use rand::rngs::StdRng;
use crate::ai::rating::{
    best_cells, best_moves, best_score, best_upto, cells_scoring, lemma_best_cells_exist,
    lemma_best_upto, lemma_scoring_upto, rated_has,
};
use crate::ai::{may_move_on, playable, Ai};
use crate::cascade::move_outcome;
use crate::chance::{draw_byte, draw_index};
use crate::grid::{cell_at, lemma_score_bounds, lemma_score_grows, score_of, Grid, GridCell};
use crate::layout::{cell_index, coords, lemma_cell_index_in_range, on_board};
use crate::scan::{corner_opening, drawn, lemma_open_corners_sound, opening_corners};

verus! {

/// A strategy that tries every move once and looks at the board it leaves.
/// `FAIL_CHANCE` out of 256 is the chance with which it passes over a good
/// move on purpose.
pub struct Medium<const FAIL_CHANCE: u8>(Option<(u8, u8)>);

/// Whether `player` may move on a cell like `cell`.
pub open spec fn candidate(cell: GridCell, player: u8) -> bool {
    cell.owner == player || cell.owner == 0
}

/// The board that a move of `player` on the cell at `place` leaves, or none
/// where the move decides the game.
pub open spec fn tried(cells: Seq<GridCell>, width: int, height: int, player: u8, place: int)
    -> Option<Seq<GridCell>> {
    move_outcome(cells, width, height, coords(width, place).0, coords(width, place).1, player).0
}

/// The winning moves among the first `upto` cells: the moves of `player`
/// that decide the game.
pub open spec fn winning_upto(
    cells: Seq<GridCell>,
    width: int,
    height: int,
    player: u8,
    upto: int,
) -> Seq<(u8, u8)>
    decreases upto,
{
    if upto <= 0 {
        Seq::empty()
    } else {
        let earlier = winning_upto(cells, width, height, player, upto - 1);
        if candidate(cells[upto - 1], player) && tried(cells, width, height, player, upto - 1)
            is None {
            earlier.push(coords(width, upto - 1))
        } else {
            earlier
        }
    }
}

/// The other moves among the first `upto` cells, each with the balance of
/// `player` on the board it leaves.
pub open spec fn rated_upto(
    cells: Seq<GridCell>,
    width: int,
    height: int,
    player: u8,
    upto: int,
) -> Seq<((u8, u8), i32)>
    decreases upto,
{
    if upto <= 0 {
        Seq::empty()
    } else {
        let earlier = rated_upto(cells, width, height, player, upto - 1);
        if candidate(cells[upto - 1], player) {
            match tried(cells, width, height, player, upto - 1) {
                Some(after) => earlier.push(
                    (coords(width, upto - 1), score_of(after, player) as i32),
                ),
                None => earlier,
            }
        } else {
            earlier
        }
    }
}

/// Charges that a cell can still take before it is full.
pub open spec fn holes(cell: GridCell) -> int {
    cell.capacity - cell.dots
}

/// Whether the neighbour `(nx, ny)` makes a move on `(x, y)` unsafe: it is
/// not the player's and has fewer holes, so it would overflow first.
pub open spec fn threat(
    cells: Seq<GridCell>,
    width: int,
    height: int,
    player: u8,
    x: int,
    y: int,
    nx: int,
    ny: int,
) -> bool {
    on_board(width, height, nx, ny) && cell_at(cells, width, nx, ny).owner != player && holes(
        cell_at(cells, width, nx, ny),
    ) < holes(cell_at(cells, width, x, y))
}

/// 1 if the neighbour `(nx, ny)` is not the player's and has more holes than
/// `(x, y)`, so that `(x, y)` would overflow first; else 0.
pub open spec fn lead(
    cells: Seq<GridCell>,
    width: int,
    height: int,
    player: u8,
    x: int,
    y: int,
    nx: int,
    ny: int,
) -> int {
    if on_board(width, height, nx, ny) && cell_at(cells, width, nx, ny).owner != player && holes(
        cell_at(cells, width, nx, ny),
    ) > holes(cell_at(cells, width, x, y)) {
        1
    } else {
        0
    }
}

/// Whether some neighbour makes a move on `(x, y)` unsafe.
pub open spec fn exposed(
    cells: Seq<GridCell>,
    width: int,
    height: int,
    player: u8,
    x: int,
    y: int,
) -> bool {
    threat(cells, width, height, player, x, y, x - 1, y) || threat(
        cells,
        width,
        height,
        player,
        x,
        y,
        x,
        y - 1,
    ) || threat(cells, width, height, player, x, y, x + 1, y) || threat(
        cells,
        width,
        height,
        player,
        x,
        y,
        x,
        y + 1,
    )
}

/// Number of neighbours over which `(x, y)` has the lead.
pub open spec fn leads(
    cells: Seq<GridCell>,
    width: int,
    height: int,
    player: u8,
    x: int,
    y: int,
) -> int {
    lead(cells, width, height, player, x, y, x - 1, y) + lead(
        cells,
        width,
        height,
        player,
        x,
        y,
        x,
        y - 1,
    ) + lead(cells, width, height, player, x, y, x + 1, y) + lead(
        cells,
        width,
        height,
        player,
        x,
        y,
        x,
        y + 1,
    )
}

/// The safe moves among the first `upto` rated moves, each with its balance
/// raised by the number of neighbours it leads.
pub open spec fn guarded_upto(
    cells: Seq<GridCell>,
    width: int,
    height: int,
    player: u8,
    rated: Seq<((u8, u8), i32)>,
    upto: int,
) -> Seq<((u8, u8), i32)>
    decreases upto,
{
    if upto <= 0 {
        Seq::empty()
    } else {
        let earlier = guarded_upto(cells, width, height, player, rated, upto - 1);
        let c = rated[upto - 1].0;
        if exposed(cells, width, height, player, c.0 as int, c.1 as int) {
            earlier
        } else {
            earlier.push(
                (
                    c,
                    (rated[upto - 1].1 + leads(
                        cells,
                        width,
                        height,
                        player,
                        c.0 as int,
                        c.1 as int,
                    )) as i32,
                ),
            )
        }
    }
}

/// The cells among which the strategy picks one at random, given the two
/// bytes it may roll: unclaimed corners while it holds fewer than two; else
/// the winning moves; else, if the best move gains two or more and the first
/// roll does not fall below the fail chance, the best moves; else, if there
/// are safe moves and the second roll does not fall below the fail chance,
/// the best of the safe moves; else the best moves.
pub open spec fn medium_pool(
    cells: Seq<GridCell>,
    width: int,
    height: int,
    player: u8,
    fail_chance: u8,
    first_roll: u8,
    second_roll: u8,
) -> Seq<(u8, u8)> {
    let opening = corner_opening(cells, width, height, player);
    let winning = winning_upto(cells, width, height, player, cells.len() as int);
    let rated = rated_upto(cells, width, height, player, cells.len() as int);
    let baseline = score_of(cells, player);
    let best = best_upto(rated, baseline, rated.len() as int);
    let guarded = guarded_upto(cells, width, height, player, rated, rated.len() as int);
    if opening.len() > 0 {
        opening
    } else if winning.len() > 0 {
        winning
    } else if best - baseline >= 2 && first_roll >= fail_chance {
        best_cells(rated, baseline)
    } else if guarded.len() > 0 && second_roll >= fail_chance {
        best_cells(guarded, baseline)
    } else {
        best_cells(rated, baseline)
    }
}

impl<const FAIL_CHANCE: u8> Medium<FAIL_CHANCE> {
    /// A strategy without an answer.
    pub fn new() -> (ai: Self)
        ensures
            ai.decision() is None,
    {
        Medium(None)
    }

    /// Tries every move that `player` may make. Returns the moves that decide
    /// the game, and the others with the balance that each leaves.
    pub fn survey(grid: &Grid, player: u8) -> (found: (Vec<(u8, u8)>, Vec<((u8, u8), i32)>))
        requires
            grid.settled(),
        ensures
            found.0@ == winning_upto(
                grid@,
                grid.spec_width() as int,
                grid.spec_height() as int,
                player,
                grid@.len() as int,
            ),
            found.1@ == rated_upto(
                grid@,
                grid.spec_width() as int,
                grid.spec_height() as int,
                player,
                grid@.len() as int,
            ),
            forall|k: int|
                0 <= k < found.0@.len() ==> may_move_on(grid, player, #[trigger] found.0@[k]),
            forall|k: int|
                0 <= k < found.1@.len() ==> may_move_on(grid, player, (#[trigger] found.1@[k]).0)
                    && grid.score(player) <= found.1@[k].1 <= grid@.len(),
            found.0@.len() + found.1@.len() == 0 <==> forall|place: int|
                0 <= place < grid@.len() ==> !candidate(#[trigger] grid@[place], player),
    {
        let ghost w: int = grid.spec_width() as int;
        let ghost h: int = grid.spec_height() as int;
        let mut winning: Vec<(u8, u8)> = Vec::new();
        let mut rated: Vec<((u8, u8), i32)> = Vec::new();
        let count: usize = grid.len();
        proof {
            grid.lemma_len();
        }
        let mut place: usize = 0;
        while place < count
            invariant
                grid.settled(),
                w == grid.spec_width(),
                h == grid.spec_height(),
                count == grid@.len(),
                place <= count,
                winning@ == winning_upto(grid@, w, h, player, place as int),
                rated@ == rated_upto(grid@, w, h, player, place as int),
                forall|k: int|
                    0 <= k < winning@.len() ==> may_move_on(grid, player, #[trigger] winning@[k]),
                forall|k: int|
                    0 <= k < rated@.len() ==> may_move_on(grid, player, (#[trigger] rated@[k]).0)
                        && grid.score(player) <= rated@[k].1 <= grid@.len(),
                winning@.len() + rated@.len() == 0 <==> forall|at: int|
                    0 <= at < place ==> !candidate(#[trigger] grid@[at], player),
            decreases count - place,
        {
            let cell: GridCell = grid.cell_in_place(place);
            if cell.owner == player || cell.owner == 0 {
                let (x, y): (u8, u8) = grid.coords_of(place);
                let (after, _) = grid.with_move(x, y, player);
                match after {
                    Some(board) => {
                        let score: i32 = board.score_for_player(player);
                        proof {
                            board.lemma_len();
                            lemma_score_grows(grid@, board@, player, grid@.len() as int);
                            lemma_score_bounds(board@, player, board@.len() as int);
                        }
                        rated.push(((x, y), score));
                    },
                    None => {
                        winning.push((x, y));
                    },
                }
                assert(candidate(grid@[place as int], player));
            }
            place = place + 1;
        }
        (winning, rated)
    }

    /// Looks at one neighbour of the cell with `room` holes: 0 if the
    /// neighbour is off the board, the player's own or level with the cell, 1
    /// if the cell has the lead over it, 2 if it is a threat.
    fn beside(grid: &Grid, player: u8, room: u8, on: bool, nx: u8, ny: u8) -> (verdict: u8)
        requires
            grid.settled(),
            on ==> nx < grid.spec_width() && ny < grid.spec_height(),
        ensures
            verdict == if on && grid.at(nx as int, ny as int).owner != player && holes(
                grid.at(nx as int, ny as int),
            ) < room {
                2int
            } else if on && grid.at(nx as int, ny as int).owner != player && holes(
                grid.at(nx as int, ny as int),
            ) > room {
                1int
            } else {
                0int
            },
    {
        if !on {
            return 0;
        }
        let neighbor: GridCell = grid.cell(nx, ny);
        proof {
            lemma_cell_index_in_range(
                grid.spec_width() as int,
                grid.spec_height() as int,
                nx as int,
                ny as int,
            );
            grid.lemma_len();
        }
        if neighbor.owner == player {
            return 0;
        }
        let n_holes: u8 = neighbor.capacity - neighbor.dots;
        if n_holes < room {
            2
        } else if n_holes > room {
            1
        } else {
            0
        }
    }

    /// Whether a move on `(x, y)` is safe, and if so, over how many
    /// neighbours the cell has the lead.
    pub fn weigh(grid: &Grid, player: u8, x: u8, y: u8) -> (bonus: Option<i32>)
        requires
            grid.settled(),
            x < grid.spec_width(),
            y < grid.spec_height(),
        ensures
            bonus == if exposed(
                grid@,
                grid.spec_width() as int,
                grid.spec_height() as int,
                player,
                x as int,
                y as int,
            ) {
                None
            } else {
                Some(
                    leads(
                        grid@,
                        grid.spec_width() as int,
                        grid.spec_height() as int,
                        player,
                        x as int,
                        y as int,
                    ) as i32,
                )
            },
    {
        let width: u8 = grid.width();
        let height: u8 = grid.height();
        let cell: GridCell = grid.cell(x, y);
        proof {
            lemma_cell_index_in_range(width as int, height as int, x as int, y as int);
            grid.lemma_len();
        }
        let room: u8 = cell.capacity - cell.dots;
        let left: u8 = Self::beside(grid, player, room, x > 0, if x > 0 {
            x - 1
        } else {
            0
        }, y);
        let up: u8 = Self::beside(grid, player, room, y > 0, x, if y > 0 {
            y - 1
        } else {
            0
        });
        let right: u8 = Self::beside(grid, player, room, x < width - 1, if x < width - 1 {
            x + 1
        } else {
            0
        }, y);
        let down: u8 = Self::beside(grid, player, room, y < height - 1, x, if y < height - 1 {
            y + 1
        } else {
            0
        });
        if left == 2 || up == 2 || right == 2 || down == 2 {
            None
        } else {
            let total: u8 = left + up + right + down;
            Some(total as i32)
        }
    }

    /// The safe moves among the rated moves, each with its balance raised by
    /// the number of neighbours over which it has the lead.
    pub fn guard(grid: &Grid, player: u8, rated: &Vec<((u8, u8), i32)>) -> (found: Vec<
        ((u8, u8), i32),
    >)
        requires
            grid.settled(),
            forall|k: int|
                0 <= k < rated@.len() ==> may_move_on(grid, player, (#[trigger] rated@[k]).0)
                    && grid.score(player) <= rated@[k].1 <= grid@.len(),
        ensures
            found@ == guarded_upto(
                grid@,
                grid.spec_width() as int,
                grid.spec_height() as int,
                player,
                rated@,
                rated@.len() as int,
            ),
            forall|j: int|
                0 <= j < found@.len() ==> may_move_on(grid, player, (#[trigger] found@[j]).0)
                    && grid.score(player) <= found@[j].1,
    {
        let mut found: Vec<((u8, u8), i32)> = Vec::new();
        let total: usize = grid.len();
        proof {
            grid.lemma_len();
        }
        let mut k: usize = 0;
        while k < rated.len()
            invariant
                grid.settled(),
                total == grid@.len(),
                total <= 65025,
                k <= rated@.len(),
                forall|k: int|
                    0 <= k < rated@.len() ==> may_move_on(grid, player, (#[trigger] rated@[k]).0)
                        && grid.score(player) <= rated@[k].1 <= grid@.len(),
                found@ == guarded_upto(
                    grid@,
                    grid.spec_width() as int,
                    grid.spec_height() as int,
                    player,
                    rated@,
                    k as int,
                ),
                forall|j: int|
                    0 <= j < found@.len() ==> may_move_on(grid, player, (#[trigger] found@[j]).0)
                        && grid.score(player) <= found@[j].1,
            decreases rated@.len() - k,
        {
            let (cell, score): ((u8, u8), i32) = rated[k];
            assert(may_move_on(grid, player, rated@[k as int].0));
            match Self::weigh(grid, player, cell.0, cell.1) {
                Some(bonus) => {
                    assert(0 <= leads(
                        grid@,
                        grid.spec_width() as int,
                        grid.spec_height() as int,
                        player,
                        cell.0 as int,
                        cell.1 as int,
                    ) <= 4);
                    found.push((cell, score + bonus));
                },
                None => {},
            }
            k = k + 1;
        }
        found
    }

    /// The cells among which the strategy picks one at random when its two
    /// rolls are `first_roll` and `second_roll`.
    pub fn pool(grid: &Grid, player: u8, first_roll: u8, second_roll: u8) -> (pool: Vec<(u8, u8)>)
        requires
            playable(grid),
        ensures
            pool@ == medium_pool(
                grid@,
                grid.spec_width() as int,
                grid.spec_height() as int,
                player,
                FAIL_CHANCE,
                first_roll,
                second_roll,
            ),
    {
        let opening: Vec<(u8, u8)> = opening_corners(grid, player);
        if opening.len() > 0 {
            return opening;
        }
        let baseline: i32 = grid.score_for_player(player);
        let (winning, rated) = Self::survey(grid, player);
        if winning.len() > 0 {
            return winning;
        }
        let best: i32 = best_score(&rated, baseline);
        proof {
            grid.lemma_len();
            lemma_best_upto(rated@, baseline as int, rated@.len() as int);
            lemma_score_bounds(grid@, player, grid@.len() as int);
            if best != baseline {
                let k = choose|k: int| 0 <= k < rated@.len() && (#[trigger] rated@[k]).1 == best;
                assert(rated@[k].1 <= grid@.len());
            }
        }
        if best - baseline >= 2 && first_roll >= FAIL_CHANCE {
            return cells_scoring(&rated, best);
        }
        let guarded: Vec<((u8, u8), i32)> = Self::guard(grid, player, &rated);
        if guarded.len() > 0 && second_roll >= FAIL_CHANCE {
            return best_moves(&guarded, baseline);
        }
        cells_scoring(&rated, best)
    }

    /// Decides on a cell. Rolls a byte only where the rules call for one, and
    /// draws the cell from the pool that the rolls lead to. `None` exactly
    /// when the player may move on no cell of the board.
    pub fn tick_inner(grid: &Grid, player: u8, rng: &mut StdRng) -> (cell: Option<(u8, u8)>)
        requires
            playable(grid),
        ensures
            cell is None <==> forall|place: int|
                0 <= place < grid@.len() ==> !candidate(#[trigger] grid@[place], player),
            cell matches Some(c) ==> may_move_on(grid, player, c) && exists|
                first_roll: u8,
                second_roll: u8,
                index: int,
            |
                cell == #[trigger] drawn(
                    medium_pool(
                        grid@,
                        grid.spec_width() as int,
                        grid.spec_height() as int,
                        player,
                        FAIL_CHANCE,
                        first_roll,
                        second_roll,
                    ),
                    index,
                ),
    {
        let ghost w: int = grid.spec_width() as int;
        let ghost h: int = grid.spec_height() as int;
        proof {
            grid.lemma_len();
        }
        let opening: Vec<(u8, u8)> = opening_corners(grid, player);
        if opening.len() > 0 {
            let index: usize = draw_index(rng, opening.len());
            proof {
                lemma_open_corners_sound(grid@, w, h, player, 4, index as int);
                let c = opening@[index as int];
                lemma_cell_index_in_range(w, h, c.0 as int, c.1 as int);
                assert(candidate(grid@[cell_index(w, c.0 as int, c.1 as int)], player));
                assert(Some(c) == drawn(
                    medium_pool(grid@, w, h, player, FAIL_CHANCE, 0, 0),
                    index as int,
                ));
            }
            return Some(opening[index]);
        }
        let baseline: i32 = grid.score_for_player(player);
        let (winning, rated) = Self::survey(grid, player);
        if winning.len() > 0 {
            let index: usize = draw_index(rng, winning.len());
            proof {
                assert(Some(winning@[index as int]) == drawn(
                    medium_pool(grid@, w, h, player, FAIL_CHANCE, 0, 0),
                    index as int,
                ));
            }
            return Some(winning[index]);
        }
        let best: i32 = best_score(&rated, baseline);
        proof {
            lemma_best_upto(rated@, baseline as int, rated@.len() as int);
            lemma_scoring_upto(rated@, best as int, rated@.len() as int);
            lemma_score_bounds(grid@, player, grid@.len() as int);
            if best != baseline {
                let k = choose|k: int| 0 <= k < rated@.len() && (#[trigger] rated@[k]).1 == best;
                assert(rated@[k].1 <= grid@.len());
            }
            if rated@.len() > 0 {
                lemma_best_cells_exist(rated@, baseline as int);
            }
        }
        let mut first_roll: u8 = 0;
        if best - baseline >= 2 {
            first_roll = draw_byte(rng);
            if first_roll >= FAIL_CHANCE {
                let pool: Vec<(u8, u8)> = cells_scoring(&rated, best);
                let index: usize = draw_index(rng, pool.len());
                proof {
                    assert(rated_has(rated@, rated@.len() as int, pool@[index as int]));
                    let k = choose|k: int|
                        0 <= k < rated@.len() && (#[trigger] rated@[k]).0 == pool@[index as int];
                    assert(may_move_on(grid, player, rated@[k].0));
                    assert(Some(pool@[index as int]) == drawn(
                        medium_pool(grid@, w, h, player, FAIL_CHANCE, first_roll, 0),
                        index as int,
                    ));
                }
                return Some(pool[index]);
            }
        }
        let guarded: Vec<((u8, u8), i32)> = Self::guard(grid, player, &rated);
        let mut second_roll: u8 = 0;
        if guarded.len() > 0 {
            second_roll = draw_byte(rng);
            if second_roll >= FAIL_CHANCE {
                let pool: Vec<(u8, u8)> = best_moves(&guarded, baseline);
                proof {
                    lemma_best_cells_exist(guarded@, baseline as int);
                    lemma_scoring_upto(
                        guarded@,
                        best_upto(guarded@, baseline as int, guarded@.len() as int),
                        guarded@.len() as int,
                    );
                }
                let index: usize = draw_index(rng, pool.len());
                proof {
                    assert(rated_has(guarded@, guarded@.len() as int, pool@[index as int]));
                    let k = choose|k: int|
                        0 <= k < guarded@.len() && (#[trigger] guarded@[k]).0 == pool@[index as int];
                    assert(may_move_on(grid, player, guarded@[k].0));
                    assert(Some(pool@[index as int]) == drawn(
                        medium_pool(grid@, w, h, player, FAIL_CHANCE, first_roll, second_roll),
                        index as int,
                    ));
                }
                return Some(pool[index]);
            }
        }
        if rated.len() > 0 {
            let pool: Vec<(u8, u8)> = cells_scoring(&rated, best);
            let index: usize = draw_index(rng, pool.len());
            proof {
                assert(rated_has(rated@, rated@.len() as int, pool@[index as int]));
                let k = choose|k: int|
                    0 <= k < rated@.len() && (#[trigger] rated@[k]).0 == pool@[index as int];
                assert(may_move_on(grid, player, rated@[k].0));
                assert(Some(pool@[index as int]) == drawn(
                    medium_pool(grid@, w, h, player, FAIL_CHANCE, first_roll, second_roll),
                    index as int,
                ));
            }
            return Some(pool[index]);
        }
        None
    }
}

impl<const FAIL_CHANCE: u8> Default for Medium<FAIL_CHANCE> {
    /// A strategy without an answer.
    fn default() -> (ai: Self)
        ensures
            ai.decision() is None,
    {
        Medium(None)
    }
}

impl<const FAIL_CHANCE: u8> Ai for Medium<FAIL_CHANCE> {
    closed spec fn decision(&self) -> Option<(u8, u8)> {
        self.0
    }

    open spec fn prepared(&self) -> bool {
        true
    }

    open spec fn plays_for(player: u8) -> bool {
        true
    }

    fn start_move(&mut self, grid: &Grid) {
        self.0 = None;
    }

    fn tick(&mut self, grid: &Grid, player: u8, rng: &mut StdRng) -> (choice: Option<(u8, u8)>)
        ensures
            old(self).decision() is None ==> (choice is None <==> forall|place: int|
                0 <= place < grid@.len() ==> !candidate(#[trigger] grid@[place], player)) && (
            choice matches Some(c) ==> may_move_on(grid, player, c) && exists|
                first_roll: u8,
                second_roll: u8,
                index: int,
            |
                choice == #[trigger] drawn(
                    medium_pool(
                        grid@,
                        grid.spec_width() as int,
                        grid.spec_height() as int,
                        player,
                        FAIL_CHANCE,
                        first_roll,
                        second_roll,
                    ),
                    index,
                )),
    {
        if self.0.is_none() {
            self.0 = Self::tick_inner(grid, player, rng);
        }
        self.0
    }

    fn name(&self) -> (name: &'static str)
        ensures
            name == "Medium",
    {
        "Medium"
    }
}

} // verus!
