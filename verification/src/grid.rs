use vstd::prelude::*;
use std::collections::VecDeque;
use crate::cascade::{
    advanced, begun, claimed, count_marked, energy, joined, lemma_advanced_claimed,
    lemma_advanced_rank, lemma_advanced_steady, lemma_around_head, lemma_begun_claimed,
    lemma_begun_steady, lemma_count_marked_clear, lemma_count_marked_update, lemma_finished,
    move_outcome, outcome, spilled, steady, Cascade,
};
use crate::layout::{cell_index, lemma_cell_index_in_range, on_board, position_capacity};

verus! {

/// One square of the board: its charge, its owner (0 when unclaimed) and the
/// charge it can hold before it overflows.
#[derive(Clone, Copy, Debug)]
pub struct GridCell {
    pub dots: u8,
    pub owner: u8,
    pub capacity: u8,
}

impl GridCell {
    /// A cell is full when its charge has reached its capacity exactly.
    pub fn is_full(&self) -> (full: bool)
        ensures
            full == (self.dots == self.capacity),
    {
        self.dots == self.capacity
    }
}

impl Default for GridCell {
    /// An unclaimed cell holding one charge, its capacity not yet set.
    fn default() -> (cell: Self)
        ensures
            cell == (GridCell { dots: 1, owner: 0, capacity: 0 }),
    {
        GridCell { dots: 1, owner: 0, capacity: 0 }
    }
}

/// The cell at `(x, y)` of a row-major cell array.
pub open spec fn cell_at(cells: Seq<GridCell>, width: int, x: int, y: int) -> GridCell {
    cells[cell_index(width, x, y)]
}

/// Every cell carries the capacity that its position calls for.
pub open spec fn capacities_set(cells: Seq<GridCell>, width: int, height: int) -> bool {
    &&& cells.len() == width * height
    &&& forall|x: int, y: int|
        on_board(width, height, x, y) ==> (#[trigger] cell_at(cells, width, x, y)).capacity
            == position_capacity(width, height, x, y)
}

/// No cell holds more charge than its capacity.
pub open spec fn within_capacity(cells: Seq<GridCell>) -> bool {
    forall|i: int| 0 <= i < cells.len() ==> (#[trigger] cells[i]).dots <= cells[i].capacity
}

/// The material balance of `player`: one point for each cell the player owns,
/// minus one for each cell another player owns. Only the first `upto` cells
/// are counted.
pub open spec fn score_upto(cells: Seq<GridCell>, player: u8, upto: int) -> int
    decreases upto,
{
    if upto <= 0 {
        0
    } else {
        score_upto(cells, player, upto - 1) + cell_score(cells[upto - 1], player)
    }
}

/// What a single cell adds to the material balance of `player`.
pub open spec fn cell_score(cell: GridCell, player: u8) -> int {
    if cell.owner == player {
        1
    } else if cell.owner != 0 {
        -1
    } else {
        0
    }
}

/// The material balance of `player` over a whole cell array.
pub open spec fn score_of(cells: Seq<GridCell>, player: u8) -> int {
    score_upto(cells, player, cells.len() as int)
}

/// The balance of any stretch of cells lies between minus and plus its length.
pub proof fn lemma_score_bounds(cells: Seq<GridCell>, player: u8, upto: int)
    requires
        0 <= upto,
    ensures
        -upto <= score_upto(cells, player, upto) <= upto,
    decreases upto,
{
    if upto > 0 {
        lemma_score_bounds(cells, player, upto - 1);
    }
}

/// On a board without unclaimed cells where every cell belongs to player 1 or
/// to player 2, what one of the two has in hand the other lacks: their
/// balances are each other's negative.
pub proof fn lemma_score_symmetry(cells: Seq<GridCell>)
    requires
        forall|i: int| 0 <= i < cells.len() ==> cells[i].owner == 1 || cells[i].owner == 2,
    ensures
        score_of(cells, 1) == -score_of(cells, 2),
{
    lemma_score_symmetry_upto(cells, cells.len() as int);
}

/// The symmetry of the two balances, over the first `upto` cells.
pub proof fn lemma_score_symmetry_upto(cells: Seq<GridCell>, upto: int)
    requires
        0 <= upto <= cells.len(),
        forall|i: int| 0 <= i < cells.len() ==> cells[i].owner == 1 || cells[i].owner == 2,
    ensures
        score_upto(cells, 1, upto) == -score_upto(cells, 2, upto),
    decreases upto,
{
    if upto > 0 {
        lemma_score_symmetry_upto(cells, upto - 1);
    }
}

/// If every cell that changed hands went to `player`, the balance of `player`
/// has not fallen.
pub proof fn lemma_score_grows(before: Seq<GridCell>, after: Seq<GridCell>, player: u8, upto: int)
    requires
        0 <= upto <= before.len(),
        before.len() == after.len(),
        forall|i: int|
            0 <= i < before.len() ==> (#[trigger] after[i]).owner == player || after[i].owner
                == before[i].owner,
    ensures
        score_upto(before, player, upto) <= score_upto(after, player, upto),
    decreases upto,
{
    if upto > 0 {
        lemma_score_grows(before, after, player, upto - 1);
        assert(after[upto - 1].owner == player || after[upto - 1].owner == before[upto - 1].owner);
    }
}

/// A board whose capacities are set and whose cells hold at most two charges
/// each is at rest: no capacity is below two.
pub proof fn lemma_two_charges_rest(cells: Seq<GridCell>, width: int, height: int)
    requires
        0 < width,
        capacities_set(cells, width, height),
        forall|i: int| 0 <= i < cells.len() ==> (#[trigger] cells[i]).dots <= 2,
    ensures
        within_capacity(cells),
{
    assert forall|i: int| 0 <= i < cells.len() implies (#[trigger] cells[i]).dots
        <= cells[i].capacity by {
        crate::layout::lemma_cell_index_join(width, height, i);
        assert(cell_at(cells, width, i % width, i / width).capacity == position_capacity(
            width,
            height,
            i % width,
            i / width,
        ));
    }
}

/// A board as a plain value: the cells row by row, the shape, the number of
/// players.
pub struct Board {
    pub cells: Seq<GridCell>,
    pub width: u8,
    pub height: u8,
    pub players: u8,
}

/// The board is at rest: capacities are set and no cell is over capacity.
pub open spec fn board_settled(board: Board) -> bool {
    &&& capacities_set(board.cells, board.width as int, board.height as int)
    &&& within_capacity(board.cells)
}

/// A rectangular board of cells, stored row by row.
#[derive(Debug)]
pub struct Grid {
    cells: Vec<GridCell>,
    width: u8,
    height: u8,
    num_players: u8,
}

impl View for Grid {
    type V = Seq<GridCell>;

    /// The cells of the board, row by row.
    closed spec fn view(&self) -> Seq<GridCell> {
        self.cells@
    }
}

impl Clone for Grid {
    /// An independent copy of the board.
    fn clone(&self) -> (copy: Self)
        ensures
            copy@ == self@,
            copy.same_shape(self),
            copy.wf() == self.wf(),
    {
        let mut cells: Vec<GridCell> = Vec::new();
        let mut i: usize = 0;
        while i < self.cells.len()
            invariant
                i <= self.cells.len(),
                cells@ == self.cells@.take(i as int),
            decreases self.cells.len() - i,
        {
            cells.push(self.cells[i]);
            i = i + 1;
        }
        assert(cells@ == self.cells@);
        Grid { cells, width: self.width, height: self.height, num_players: self.num_players }
    }
}

impl Grid {
    /// Width of the board, as a specification value.
    pub closed spec fn spec_width(&self) -> u8 {
        self.width
    }

    /// Height of the board, as a specification value.
    pub closed spec fn spec_height(&self) -> u8 {
        self.height
    }

    /// Number of players, as a specification value.
    pub closed spec fn spec_player_count(&self) -> u8 {
        self.num_players
    }

    /// The board holds exactly `width * height` cells.
    pub open spec fn wf(&self) -> bool {
        self@.len() == self.spec_width() * self.spec_height()
    }

    /// The board as a value: its cells, its shape and its number of players.
    pub open spec fn board(&self) -> Board {
        Board {
            cells: self@,
            width: self.spec_width(),
            height: self.spec_height(),
            players: self.spec_player_count(),
        }
    }

    /// The cell at column `x` of row `y`.
    pub open spec fn at(&self, x: int, y: int) -> GridCell {
        cell_at(self@, self.spec_width() as int, x, y)
    }

    /// The capacities have been set from the cells' positions.
    pub open spec fn has_capacities(&self) -> bool {
        &&& self.wf()
        &&& capacities_set(self@, self.spec_width() as int, self.spec_height() as int)
    }

    /// The board is at rest: capacities are set and no cell is over capacity.
    pub open spec fn settled(&self) -> bool {
        &&& self.has_capacities()
        &&& within_capacity(self@)
    }

    /// The material balance of `player` on this board.
    pub open spec fn score(&self, player: u8) -> int {
        score_of(self@, player)
    }

    /// Two boards of the same shape, for the same number of players.
    pub open spec fn same_shape(&self, other: &Grid) -> bool {
        &&& self.spec_width() == other.spec_width()
        &&& self.spec_height() == other.spec_height()
        &&& self.spec_player_count() == other.spec_player_count()
    }

    /// A well-formed board has as many cells as its width times its height.
    pub proof fn lemma_len(&self)
        requires
            self.wf(),
        ensures
            self@.len() == self.spec_width() * self.spec_height(),
            self@.len() <= 65025,
    {
        assert(self.width * self.height <= 255 * 255) by (nonlinear_arith)
            requires
                self.width <= 255,
                self.height <= 255,
        ;
    }

    /// A fresh board: every cell unclaimed with one charge and no capacity yet.
    pub fn new(width: u8, height: u8, num_players: u8) -> (grid: Self)
        ensures
            grid.wf(),
            grid.spec_width() == width,
            grid.spec_height() == height,
            grid.spec_player_count() == num_players,
            forall|i: int|
                0 <= i < grid@.len() ==> grid@[i] == (GridCell { dots: 1, owner: 0, capacity: 0 }),
    {
        assert(width * height <= 255 * 255) by (nonlinear_arith)
            requires
                width <= 255,
                height <= 255,
        ;
        let count: usize = width as usize * height as usize;
        let mut cells: Vec<GridCell> = Vec::new();
        let mut i: usize = 0;
        while i < count
            invariant
                i <= count,
                cells@.len() == i,
                forall|j: int|
                    0 <= j < i ==> cells@[j] == (GridCell { dots: 1, owner: 0, capacity: 0 }),
            decreases count - i,
        {
            cells.push(GridCell::default());
            i = i + 1;
        }
        Grid { cells, width, height, num_players }
    }

    /// Width of the board in cells.
    #[verifier::when_used_as_spec(spec_width)]
    pub fn width(&self) -> (width: u8)
        ensures
            width == self.spec_width(),
    {
        self.width
    }

    /// Height of the board in cells.
    #[verifier::when_used_as_spec(spec_height)]
    pub fn height(&self) -> (height: u8)
        ensures
            height == self.spec_height(),
    {
        self.height
    }

    /// Number of players the board was made for.
    #[verifier::when_used_as_spec(spec_player_count)]
    pub fn player_count(&self) -> (count: u8)
        ensures
            count == self.spec_player_count(),
    {
        self.num_players
    }

    /// Whether the board holds exactly `width * height` cells.
    pub fn is_wf(&self) -> (yes: bool)
        ensures
            yes == self.wf(),
    {
        assert(self.width * self.height <= 255 * 255) by (nonlinear_arith)
            requires
                self.width <= 255,
                self.height <= 255,
        ;
        self.cells.len() == self.width as usize * self.height as usize
    }

    /// Number of cells on the board.
    pub fn len(&self) -> (count: usize)
        ensures
            count == self.spec_width() * self.spec_height(),
            count <= 65025,
    {
        assert(self.width * self.height <= 255 * 255) by (nonlinear_arith)
            requires
                self.width <= 255,
                self.height <= 255,
        ;
        self.width as usize * self.height as usize
    }

    /// Place of cell `(x, y)` in the cell array.
    pub fn offset(&self, x: u8, y: u8) -> (place: usize)
        requires
            x < self.spec_width(),
            y < self.spec_height(),
        ensures
            place == cell_index(self.spec_width() as int, x as int, y as int),
            place < self.spec_width() * self.spec_height(),
    {
        proof {
            lemma_cell_index_in_range(
                self.width as int,
                self.height as int,
                x as int,
                y as int,
            );
            assert(self.width * self.height <= 255 * 255) by (nonlinear_arith)
                requires
                    self.width <= 255,
                    self.height <= 255,
            ;
            assert(y * self.width <= 255 * 255) by (nonlinear_arith)
                requires
                    self.width <= 255,
                    y <= 255,
            ;
        }
        y as usize * self.width as usize + x as usize
    }

    /// The cell at column `x` of row `y`.
    pub fn cell(&self, x: u8, y: u8) -> (cell: GridCell)
        requires
            self.wf(),
            x < self.spec_width(),
            y < self.spec_height(),
        ensures
            cell == self.at(x as int, y as int),
    {
        let place: usize = self.offset(x, y);
        self.cells[place]
    }

    /// The cell stored at `place` of the cell array.
    pub fn cell_in_place(&self, place: usize) -> (cell: GridCell)
        requires
            self.wf(),
            place < self@.len(),
        ensures
            cell == self@[place as int],
    {
        self.cells[place]
    }

    /// Column and row of the cell stored at `place` of the cell array.
    pub fn coords_of(&self, place: usize) -> (cell: (u8, u8))
        requires
            self.wf(),
            place < self@.len(),
        ensures
            cell == crate::layout::coords(self.spec_width() as int, place as int),
            cell.0 < self.spec_width(),
            cell.1 < self.spec_height(),
            cell_index(self.spec_width() as int, cell.0 as int, cell.1 as int) == place,
    {
        proof {
            if self.width == 0 {
                assert(self.width * self.height == 0) by (nonlinear_arith)
                    requires
                        self.width == 0,
                ;
            }
            crate::layout::lemma_cell_index_join(
                self.width as int,
                self.height as int,
                place as int,
            );
        }
        let x: usize = place % (self.width as usize);
        let y: usize = place / (self.width as usize);
        (x as u8, y as u8)
    }

    /// Replaces the cell at column `x` of row `y`, leaving all others as they
    /// were.
    pub fn set_cell(&mut self, x: u8, y: u8, cell: GridCell)
        requires
            old(self).wf(),
            x < old(self).spec_width(),
            y < old(self).spec_height(),
        ensures
            final(self).wf(),
            final(self).same_shape(old(self)),
            final(self)@ == old(self)@.update(
                cell_index(old(self).spec_width() as int, x as int, y as int),
                cell,
            ),
    {
        let place: usize = self.offset(x, y);
        self.cells.set(place, cell);
    }

    /// Sets every cell's capacity from its position: 2 in the corners, 3 along
    /// the edges, 4 inside. Charges and owners stay as they were.
    pub fn init_capacity(&mut self)
        requires
            old(self).wf(),
        ensures
            final(self).has_capacities(),
            final(self).same_shape(old(self)),
            forall|i: int|
                0 <= i < old(self)@.len() ==> (#[trigger] final(self)@[i]).dots == old(self)@[i].dots
                    && final(self)@[i].owner == old(self)@[i].owner,
            (forall|i: int| 0 <= i < old(self)@.len() ==> (#[trigger] old(self)@[i]).dots <= 2)
                ==> final(self).settled(),
    {
        let width: u8 = self.width;
        let height: u8 = self.height;
        let ghost w: int = width as int;
        let ghost h: int = height as int;
        let ghost before: Seq<GridCell> = self.cells@;
        let mut y: u8 = 0;
        while y < height
            invariant
                y <= height,
                self.width == width,
                self.height == height,
                self.num_players == old(self).num_players,
                w == width,
                h == height,
                before == old(self).cells@,
                self.cells@.len() == w * h,
                before.len() == w * h,
                forall|i: int|
                    0 <= i < before.len() ==> (#[trigger] self.cells@[i]).dots == before[i].dots
                        && self.cells@[i].owner == before[i].owner,
                forall|cx: int, cy: int|
                    on_board(w, y as int, cx, cy) ==> (#[trigger] cell_at(
                        self.cells@,
                        w,
                        cx,
                        cy,
                    )).capacity == position_capacity(w, h, cx, cy),
            decreases height - y,
        {
            let ud_edge: bool = y == 0 || y == height - 1;
            let mut x: u8 = 0;
            while x < width
                invariant
                    x <= width,
                    y < height,
                    self.width == width,
                    self.height == height,
                    self.num_players == old(self).num_players,
                    w == width,
                    h == height,
                    ud_edge == (y == 0 || y == height - 1),
                    self.cells@.len() == w * h,
                    before.len() == w * h,
                    forall|i: int|
                        0 <= i < before.len() ==> (#[trigger] self.cells@[i]).dots
                            == before[i].dots && self.cells@[i].owner == before[i].owner,
                    forall|cx: int, cy: int|
                        on_board(w, y as int, cx, cy) || (cy == y && 0 <= cx < x) ==> (
                        #[trigger] cell_at(self.cells@, w, cx, cy)).capacity == position_capacity(
                            w,
                            h,
                            cx,
                            cy,
                        ),
                decreases width - x,
            {
                let lr_edge: bool = x == 0 || x == width - 1;
                let capacity: u8 = if ud_edge && lr_edge {
                    2
                } else if ud_edge || lr_edge {
                    3
                } else {
                    4
                };
                let place: usize = self.offset(x, y);
                let ghost earlier: Seq<GridCell> = self.cells@;
                let cell: GridCell = self.cells[place];
                self.cells.set(place, GridCell { dots: cell.dots, owner: cell.owner, capacity });
                proof {
                    assert forall|cx: int, cy: int|
                        on_board(w, y as int, cx, cy) || (cy == y && 0 <= cx < x + 1) implies (
                    #[trigger] cell_at(self.cells@, w, cx, cy)).capacity == position_capacity(
                        w,
                        h,
                        cx,
                        cy,
                    ) by {
                        if cx == x && cy == y {
                        } else {
                            lemma_cell_index_in_range(w, h, cx, cy);
                            if cell_index(w, cx, cy) == cell_index(w, x as int, y as int) {
                                crate::layout::lemma_cell_index_unique(
                                    w,
                                    cx,
                                    cy,
                                    x as int,
                                    y as int,
                                );
                            }
                            assert(cell_at(self.cells@, w, cx, cy) == cell_at(earlier, w, cx, cy));
                        }
                    }
                }
                x = x + 1;
            }
            y = y + 1;
        }
        proof {
            if forall|i: int| 0 <= i < before.len() ==> (#[trigger] before[i]).dots <= 2 {
                if w == 0 {
                    assert(w * h == 0) by (nonlinear_arith)
                        requires
                            w == 0,
                    ;
                } else {
                    assert forall|i: int| 0 <= i < self.cells@.len() implies (
                    #[trigger] self.cells@[i]).dots <= 2 by {
                        assert(self.cells@[i].dots == before[i].dots);
                    }
                    lemma_two_charges_rest(self.cells@, w, h);
                }
            }
        }
    }

    /// The material balance of `player`: plus one for each cell the player
    /// owns, minus one for each cell some other player owns.
    pub fn score_for_player(&self, player: u8) -> (score: i32)
        requires
            self.wf(),
        ensures
            score == self.score(player),
    {
        let mut result: i32 = 0;
        let mut i: usize = 0;
        let count: usize = self.len();
        assert(count <= 255 * 255) by (nonlinear_arith)
            requires
                count == self.width * self.height,
                self.width <= 255,
                self.height <= 255,
        ;
        while i < count
            invariant
                i <= count,
                count == self.cells@.len(),
                count <= 255 * 255,
                result == score_upto(self.cells@, player, i as int),
            decreases count - i,
        {
            proof {
                lemma_score_bounds(self.cells@, player, i as int);
            }
            let cell: GridCell = self.cells[i];
            if cell.owner == player {
                result = result + 1;
            } else if cell.owner != 0 {
                result = result - 1;
            }
            i = i + 1;
        }
        result
    }

    /// What a move of `player` on `(x, y)` makes of this board: the board it
    /// leaves (none when the chain reaction ran over the whole board) and
    /// whether any cell overflowed.
    pub open spec fn move_result(&self, x: u8, y: u8, player: u8) -> (Option<Seq<GridCell>>, bool) {
        move_outcome(self@, self.spec_width() as int, self.spec_height() as int, x, y, player)
    }

    /// Plays a move of `player` on `(x, y)` on a copy of the board and runs the
    /// chain reaction it sets off. Returns the board that results and whether
    /// any cell overflowed; the board is `None` when the reaction had looked
    /// at every cell of the board and cells were still waiting, which means
    /// that the game is decided.
    ///
    /// Whether the cell may be moved on by `player` is for the caller to test.
    pub fn with_move(&self, x: u8, y: u8, player: u8) -> (res: (Option<Grid>, bool))
        requires
            self.settled(),
            x < self.spec_width(),
            y < self.spec_height(),
        ensures
            res.1 == self.move_result(x, y, player).1,
            res.0 is None ==> res.1,
            match res.0 {
                Some(after) => {
                    &&& self.move_result(x, y, player).0 == Some(after@)
                    &&& after.settled()
                    &&& after.same_shape(self)
                    &&& forall|i: int|
                        0 <= i < self@.len() ==> (#[trigger] after@[i]).owner == player
                            || after@[i] == self@[i]
                },
                None => self.move_result(x, y, player).0 is None,
            },
    {
        let width: u8 = self.width;
        let height: u8 = self.height;
        let ghost w: int = width as int;
        let ghost h: int = height as int;
        let count: usize = self.len();
        let mut visited: Vec<bool> = Vec::new();
        while visited.len() < count
            invariant
                visited@.len() <= count,
                visited@ == Seq::new(visited@.len(), |i: int| false),
            decreases count - visited@.len(),
        {
            visited.push(false);
        }
        let mut result: Grid = self.clone();
        let start: usize = self.offset(x, y);
        let target: GridCell = result.cells[start];
        proof {
            assert(cell_at(self@, w, x as int, y as int).capacity == position_capacity(
                w,
                h,
                x as int,
                y as int,
            ));
            lemma_begun_steady(self@, w, h, x, y, player);
            lemma_begun_claimed(self@, w, h, x, y, player);
            lemma_count_marked_clear(count as nat);
        }
        result.cells.set(
            start,
            GridCell { dots: target.dots + 1, owner: player, capacity: target.capacity },
        );
        let mut visited_count: usize = 0;
        let mut queue: VecDeque<(u8, u8)> = VecDeque::new();
        queue.push_back((x, y));
        let mut cascaded: bool = false;
        let ghost mut c: Cascade = begun(self@, w, x, y, player);
        assert(queue@ == c.queue);
        while queue.len() > 0
            invariant
                w == width,
                h == height,
                width == self.width,
                height == self.height,
                count == w * h,
                result.width == width,
                result.height == height,
                result.num_players == self.num_players,
                c.cells == result.cells@,
                c.queue == queue@,
                c.touched == visited@,
                c.cascaded == cascaded,
                visited_count == count_marked(c.touched),
                steady(c, w, h),
                claimed(c, self.cells@, w, h, player),
                capacities_set(self.cells@, w, h),
                outcome(c, w, h, player) == move_outcome(self.cells@, w, h, x, y, player),
            decreases count - visited_count, energy(c, w, h), queue@.len(),
        {
            let ghost before: Cascade = c;
            proof {
                lemma_around_head(before, w, h);
                lemma_advanced_steady(before, w, h, player);
                lemma_advanced_claimed(before, self.cells@, w, h, player);
            }
            let head: Option<(u8, u8)> = queue.pop_front();
            let (cx, cy): (u8, u8) = match head {
                Some(cell) => cell,
                None => (0, 0),
            };
            if visited_count == count {
                return (None, true);
            }
            proof {
                lemma_advanced_rank(before, w, h, player);
            }
            let place: usize = result.offset(cx, cy);
            proof {
                lemma_count_marked_update(before.touched, place as int);
            }
            if !visited[place] {
                visited_count = visited_count + 1;
            }
            visited.set(place, true);
            let cell: GridCell = result.cells[place];
            if cell.dots > cell.capacity {
                cascaded = true;
                result.cells.set(
                    place,
                    GridCell {
                        dots: cell.dots - cell.capacity,
                        owner: player,
                        capacity: cell.capacity,
                    },
                );
                if cx > 0 {
                    let beside: GridCell = result.cells[place - 1];
                    result.cells.set(
                        place - 1,
                        GridCell {
                            dots: beside.dots + 1,
                            owner: beside.owner,
                            capacity: beside.capacity,
                        },
                    );
                    queue.push_back((cx - 1, cy));
                }
                if cy > 0 {
                    let beside: GridCell = result.cells[place - width as usize];
                    result.cells.set(
                        place - width as usize,
                        GridCell {
                            dots: beside.dots + 1,
                            owner: beside.owner,
                            capacity: beside.capacity,
                        },
                    );
                    queue.push_back((cx, cy - 1));
                }
                if cx < width - 1 {
                    let beside: GridCell = result.cells[place + 1];
                    result.cells.set(
                        place + 1,
                        GridCell {
                            dots: beside.dots + 1,
                            owner: beside.owner,
                            capacity: beside.capacity,
                        },
                    );
                    queue.push_back((cx + 1, cy));
                }
                if cy < height - 1 {
                    let beside: GridCell = result.cells[place + width as usize];
                    result.cells.set(
                        place + width as usize,
                        GridCell {
                            dots: beside.dots + 1,
                            owner: beside.owner,
                            capacity: beside.capacity,
                        },
                    );
                    queue.push_back((cx, cy + 1));
                }
                proof {
                    reveal(spilled);
                    reveal(joined);
                    assert(result.cells@ == spilled(
                        before.cells,
                        w,
                        h,
                        cx as int,
                        cy as int,
                        player,
                    ));
                    assert(queue@ == joined(before.queue.drop_first(), w, h, cx, cy));
                }
            } else {
                result.cells.set(
                    place,
                    GridCell { dots: cell.dots, owner: player, capacity: cell.capacity },
                );
            }
            proof {
                c = advanced(before, w, h, player);
                assert(c.cells == result.cells@);
                assert(c.queue == queue@);
                assert(c.touched == visited@);
            }
        }
        proof {
            lemma_finished(c, self.cells@, w, h, player);
        }
        (Some(result), cascaded)
    }
}

} // verus!
