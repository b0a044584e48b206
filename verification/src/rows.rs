use vstd::prelude::*;
use crate::grid::{Grid, GridCell};
use crate::layout::{cell_index, lemma_cell_index_in_range};

verus! {

/// One row of a board, copied out of it.
pub struct GridRow {
    cells: Vec<GridCell>,
}

impl View for GridRow {
    type V = Seq<GridCell>;

    /// The cells of the row, left to right.
    closed spec fn view(&self) -> Seq<GridCell> {
        self.cells@
    }
}

/// The cells of row `y` of a row-major cell array.
pub open spec fn row_of(cells: Seq<GridCell>, width: int, y: int) -> Seq<GridCell> {
    Seq::new(width as nat, |x: int| cells[cell_index(width, x, y)])
}

/// The rows of a board from row `from` on, top to bottom.
pub open spec fn rows_from(cells: Seq<GridCell>, width: int, height: int, from: int) -> Seq<
    Seq<GridCell>,
> {
    Seq::new((height - from) as nat, |k: int| row_of(cells, width, from + k))
}

impl GridRow {
    /// Number of cells in the row.
    pub fn len(&self) -> (count: usize)
        ensures
            count == self@.len(),
    {
        self.cells.len()
    }

    /// The cell at column `x`.
    pub fn cell(&self, x: u8) -> (cell: GridCell)
        requires
            x < self@.len(),
        ensures
            cell == self@[x as int],
    {
        self.cells[x as usize]
    }

    /// Walks the cells of the row, left to right.
    pub fn iter(&self) -> (walk: GridRowIter)
        ensures
            walk@ == self@,
    {
        GridRowIter::new(self)
    }
}

/// A walk over the cells of a row.
pub struct GridRowIter {
    cells: Vec<GridCell>,
    at: usize,
}

impl View for GridRowIter {
    type V = Seq<GridCell>;

    /// The cells still to come.
    closed spec fn view(&self) -> Seq<GridCell> {
        self.cells@.skip(self.at as int)
    }
}

impl GridRowIter {
    /// The walk stands inside its row.
    #[verifier::type_invariant]
    spec fn inside(&self) -> bool {
        self.at <= self.cells@.len()
    }

    /// A walk over all cells of `row`.
    pub fn new(row: &GridRow) -> (walk: Self)
        ensures
            walk@ == row@,
    {
        let mut cells: Vec<GridCell> = Vec::new();
        let mut x: usize = 0;
        while x < row.cells.len()
            invariant
                x <= row.cells@.len(),
                cells@ == row.cells@.take(x as int),
            decreases row.cells@.len() - x,
        {
            cells.push(row.cells[x]);
            x = x + 1;
        }
        assert(row.cells@.take(row.cells@.len() as int) == row.cells@);
        assert(cells@.skip(0) == cells@);
        GridRowIter { cells, at: 0 }
    }

    /// The next cell of the walk, `None` at the end of the row.
    pub fn next(&mut self) -> (cell: Option<GridCell>)
        ensures
            match cell {
                Some(c) => old(self)@.len() > 0 && c == old(self)@[0] && final(self)@ == old(
                    self,
                )@.drop_first(),
                None => old(self)@.len() == 0 && final(self)@ == old(self)@,
            },
    {
        proof {
            use_type_invariant(&*self);
        }
        if self.at < self.cells.len() {
            let c: GridCell = self.cells[self.at];
            self.at = self.at + 1;
            assert(self.cells@.skip(self.at as int) == old(self).cells@.skip(
                old(self).at as int,
            ).drop_first());
            Some(c)
        } else {
            None
        }
    }

    /// The cells still to come, each with its number in the walk.
    pub fn enumerate_u8(self) -> (found: Vec<(u8, GridCell)>)
        requires
            self@.len() <= 256,
        ensures
            found@.len() == self@.len(),
            forall|k: int| 0 <= k < found@.len() ==> found@[k] == (k as u8, self@[k]),
    {
        proof {
            use_type_invariant(&self);
        }
        let mut found: Vec<(u8, GridCell)> = Vec::new();
        let mut k: usize = 0;
        let total: usize = self.cells.len();
        let left: usize = total - self.at;
        while k < left
            invariant
                k <= left,
                total == self.cells@.len(),
                left == total - self.at,
                self.at <= total,
                left <= 256,
                found@.len() == k,
                forall|j: int| 0 <= j < k ==> found@[j] == (j as u8, self@[j]),
            decreases left - k,
        {
            found.push((k as u8, self.cells[self.at + k]));
            k = k + 1;
        }
        found
    }
}

/// A walk over the rows of a board.
pub struct GridIter {
    grid: Grid,
    at: u8,
}

impl View for GridIter {
    type V = Seq<Seq<GridCell>>;

    /// The rows still to come.
    closed spec fn view(&self) -> Seq<Seq<GridCell>> {
        rows_from(
            self.grid@,
            self.grid.spec_width() as int,
            self.grid.spec_height() as int,
            self.at as int,
        )
    }
}

impl GridIter {
    /// The walk stands inside a well-formed board.
    #[verifier::type_invariant]
    spec fn inside(&self) -> bool {
        self.grid.wf() && self.at <= self.grid.spec_height()
    }

    /// A walk over all rows of `grid`.
    pub fn new(grid: &Grid) -> (walk: Self)
        requires
            grid.wf(),
        ensures
            walk@ == rows_from(
                grid@,
                grid.spec_width() as int,
                grid.spec_height() as int,
                0,
            ),
    {
        GridIter { grid: grid.clone(), at: 0 }
    }

    /// The next row of the walk, `None` below the last row.
    pub fn next(&mut self) -> (row: Option<GridRow>)
        ensures
            match row {
                Some(r) => old(self)@.len() > 0 && r@ == old(self)@[0] && final(self)@ == old(
                    self,
                )@.drop_first(),
                None => old(self)@.len() == 0 && final(self)@ == old(self)@,
            },
    {
        proof {
            use_type_invariant(&*self);
        }
        if self.at < self.grid.height() {
            let row: GridRow = self.grid.row(self.at);
            self.at = self.at + 1;
            assert(self@ =~= old(self)@.drop_first());
            Some(row)
        } else {
            None
        }
    }

    /// The rows still to come, each with its number in the walk.
    pub fn enumerate_u8(self) -> (found: Vec<(u8, GridRow)>)
        ensures
            found@.len() == self@.len(),
            forall|k: int|
                0 <= k < found@.len() ==> (#[trigger] found@[k]).0 == k && found@[k].1@
                    == self@[k],
    {
        proof {
            use_type_invariant(&self);
        }
        let mut found: Vec<(u8, GridRow)> = Vec::new();
        let mut k: u8 = 0;
        let left: u8 = self.grid.height() - self.at;
        while k < left
            invariant
                k <= left,
                self.grid.wf(),
                left == self.grid.spec_height() - self.at,
                found@.len() == k,
                forall|j: int|
                    0 <= j < k ==> (#[trigger] found@[j]).0 == j && found@[j].1@ == self@[j],
            decreases left - k,
        {
            let row: GridRow = self.grid.row(self.at + k);
            found.push((k, row));
            k = k + 1;
        }
        found
    }
}

impl Grid {
    /// A copy of row `y` of the board.
    pub fn row(&self, y: u8) -> (row: GridRow)
        requires
            self.wf(),
            y < self.spec_height(),
        ensures
            row@ == row_of(self@, self.spec_width() as int, y as int),
    {
        let width: u8 = self.width();
        let mut cells: Vec<GridCell> = Vec::new();
        let mut x: u8 = 0;
        while x < width
            invariant
                x <= width,
                self.wf(),
                width == self.spec_width(),
                y < self.spec_height(),
                cells@.len() == x,
                forall|k: int|
                    0 <= k < x ==> cells@[k] == self@[cell_index(width as int, k, y as int)],
            decreases width - x,
        {
            cells.push(self.cell(x, y));
            x = x + 1;
        }
        assert(cells@ =~= row_of(self@, self.spec_width() as int, y as int));
        GridRow { cells }
    }

    /// Walks the rows of the board, top to bottom.
    pub fn iter(&self) -> (walk: GridIter)
        requires
            self.wf(),
        ensures
            walk@ == rows_from(
                self@,
                self.spec_width() as int,
                self.spec_height() as int,
                0,
            ),
    {
        GridIter::new(self)
    }

    /// Whether the board is at rest: it holds `width * height` cells, each
    /// with the capacity that its position calls for and no more charge than
    /// that.
    pub fn is_settled(&self) -> (yes: bool)
        ensures
            yes == self.settled(),
    {
        if !self.is_wf() {
            return false;
        }
        let width: u8 = self.width();
        let height: u8 = self.height();
        let ghost w: int = width as int;
        let ghost h: int = height as int;
        proof {
            self.lemma_len();
        }
        let mut y: u8 = 0;
        while y < height
            invariant
                y <= height,
                self.wf(),
                width == self.spec_width(),
                height == self.spec_height(),
                w == width,
                h == height,
                forall|cx: int, cy: int|
                    0 <= cx < w && 0 <= cy < y ==> {
                        let cell = #[trigger] crate::grid::cell_at(self@, w, cx, cy);
                        cell.capacity == crate::layout::position_capacity(w, h, cx, cy)
                            && cell.dots <= cell.capacity
                    },
            decreases height - y,
        {
            let mut x: u8 = 0;
            while x < width
                invariant
                    x <= width,
                    y < height,
                    self.wf(),
                    width == self.spec_width(),
                    height == self.spec_height(),
                    w == width,
                    h == height,
                    forall|cx: int, cy: int|
                        (0 <= cx < w && 0 <= cy < y) || (cy == y && 0 <= cx < x) ==> {
                            let cell = #[trigger] crate::grid::cell_at(self@, w, cx, cy);
                            cell.capacity == crate::layout::position_capacity(w, h, cx, cy)
                                && cell.dots <= cell.capacity
                        },
                decreases width - x,
            {
                let side: bool = x == 0 || x == width - 1;
                let end: bool = y == 0 || y == height - 1;
                let wanted: u8 = if side && end {
                    2
                } else if side || end {
                    3
                } else {
                    4
                };
                let cell: GridCell = self.cell(x, y);
                if cell.capacity != wanted || cell.dots > cell.capacity {
                    proof {
                        lemma_cell_index_in_range(w, h, x as int, y as int);
                        assert(crate::grid::cell_at(self@, w, x as int, y as int) == cell);
                    }
                    return false;
                }
                x = x + 1;
            }
            y = y + 1;
        }
        proof {
            if w == 0 {
                assert(w * h == 0) by (nonlinear_arith)
                    requires
                        w == 0,
                ;
            }
            assert forall|i: int| 0 <= i < self@.len() implies (#[trigger] self@[i]).dots
                <= self@[i].capacity by {
                crate::layout::lemma_cell_index_join(w, h, i);
                assert(crate::grid::cell_at(self@, w, i % w, i / w) == self@[i]);
            }
        }
        true
    }
}

} // verus!
