use vstd::prelude::*;
use crate::grid::{capacities_set, cell_at, within_capacity, GridCell};
use crate::layout::{
    cell_index, lemma_cell_index_in_range, lemma_cell_index_join, lemma_cell_index_split,
    lemma_cell_index_unique, on_board, position_capacity,
};

verus! {

/// A chain reaction in progress: the cells as they stand, the cells waiting to
/// be looked at (oldest first), which cells have been looked at so far, and
/// whether any cell has overflowed yet.
pub struct Cascade {
    pub cells: Seq<GridCell>,
    pub queue: Seq<(u8, u8)>,
    pub touched: Seq<bool>,
    pub cascaded: bool,
}

/// How many entries of `marks` are set.
pub open spec fn count_marked(marks: Seq<bool>) -> int
    decreases marks.len(),
{
    if marks.len() == 0 {
        0
    } else {
        count_marked(marks.drop_last()) + if marks.last() {
            1int
        } else {
            0int
        }
    }
}

/// How many times `cell` waits in `queue`.
pub open spec fn pending(queue: Seq<(u8, u8)>, cell: (u8, u8)) -> int
    decreases queue.len(),
{
    if queue.len() == 0 {
        0
    } else {
        pending(queue.drop_last(), cell) + if queue.last() == cell {
            1int
        } else {
            0int
        }
    }
}

/// The cell array with one more charge on the cell at `place`.
pub open spec fn charge(cells: Seq<GridCell>, place: int) -> Seq<GridCell> {
    cells.update(
        place,
        GridCell {
            dots: (cells[place].dots + 1) as u8,
            owner: cells[place].owner,
            capacity: cells[place].capacity,
        },
    )
}

/// The cell array after the cell at `(x, y)` has been claimed by `player` and
/// has overflowed: it gives up its capacity in charges and each orthogonal
/// neighbour on the board gains one.
#[verifier::opaque]
pub open spec fn spilled(
    cells: Seq<GridCell>,
    width: int,
    height: int,
    x: int,
    y: int,
    player: u8,
) -> Seq<GridCell> {
    let place = cell_index(width, x, y);
    let cell = cells[place];
    let c0 = cells.update(
        place,
        GridCell {
            dots: (cell.dots - cell.capacity) as u8,
            owner: player,
            capacity: cell.capacity,
        },
    );
    let c1 = if x > 0 {
        charge(c0, place - 1)
    } else {
        c0
    };
    let c2 = if y > 0 {
        charge(c1, place - width)
    } else {
        c1
    };
    let c3 = if x < width - 1 {
        charge(c2, place + 1)
    } else {
        c2
    };
    if y < height - 1 {
        charge(c3, place + width)
    } else {
        c3
    }
}

/// The waiting line after the neighbours of `(x, y)` have joined it: left, up,
/// right, down, each only if it is on the board.
#[verifier::opaque]
pub open spec fn joined(queue: Seq<(u8, u8)>, width: int, height: int, x: u8, y: u8) -> Seq<
    (u8, u8),
> {
    let q1 = if x > 0 {
        queue.push(((x - 1) as u8, y))
    } else {
        queue
    };
    let q2 = if y > 0 {
        q1.push((x, (y - 1) as u8))
    } else {
        q1
    };
    let q3 = if x < width - 1 {
        q2.push(((x + 1) as u8, y))
    } else {
        q2
    };
    if y < height - 1 {
        q3.push((x, (y + 1) as u8))
    } else {
        q3
    }
}

/// The chain reaction as it stands right after `player` has put a charge on
/// `(x, y)`.
pub open spec fn begun(cells: Seq<GridCell>, width: int, x: u8, y: u8, player: u8) -> Cascade {
    let place = cell_index(width, x as int, y as int);
    Cascade {
        cells: cells.update(
            place,
            GridCell {
                dots: (cells[place].dots + 1) as u8,
                owner: player,
                capacity: cells[place].capacity,
            },
        ),
        queue: seq![(x, y)],
        touched: Seq::new(cells.len(), |i: int| false),
        cascaded: false,
    }
}

/// One step of the chain reaction: the oldest waiting cell is looked at,
/// claimed by `player`, and overflows if it holds more than its capacity.
pub open spec fn advanced(c: Cascade, width: int, height: int, player: u8) -> Cascade {
    let (x, y) = c.queue[0];
    let place = cell_index(width, x as int, y as int);
    let cell = c.cells[place];
    let touched = c.touched.update(place, true);
    if cell.dots > cell.capacity {
        Cascade {
            cells: spilled(c.cells, width, height, x as int, y as int, player),
            queue: joined(c.queue.drop_first(), width, height, x, y),
            touched,
            cascaded: true,
        }
    } else {
        Cascade {
            cells: c.cells.update(
                place,
                GridCell { dots: cell.dots, owner: player, capacity: cell.capacity },
            ),
            queue: c.queue.drop_first(),
            touched,
            cascaded: c.cascaded,
        }
    }
}

/// Colour of a cell on the chequerboard: orthogonal neighbours differ.
pub open spec fn shade(x: int, y: int) -> int {
    (x + y) % 2
}

/// Whether two cells are orthogonal neighbours.
pub open spec fn adjacent(x1: int, y1: int, x2: int, y2: int) -> bool {
    ||| (y1 == y2 && (x1 == x2 + 1 || x2 == x1 + 1))
    ||| (x1 == x2 && (y1 == y2 + 1 || y2 == y1 + 1))
}

/// 1 if `(x, y)` is on the board and holds more than its capacity, else 0.
pub open spec fn hot(cells: Seq<GridCell>, width: int, height: int, x: int, y: int) -> int {
    if on_board(width, height, x, y) && cell_at(cells, width, x, y).dots > cell_at(
        cells,
        width,
        x,
        y,
    ).capacity {
        1
    } else {
        0
    }
}

/// Number of orthogonal neighbours of `(x, y)` that hold more than their
/// capacity.
pub open spec fn hot_around(cells: Seq<GridCell>, width: int, height: int, x: int, y: int) -> int {
    hot(cells, width, height, x - 1, y) + hot(cells, width, height, x, y - 1) + hot(
        cells,
        width,
        height,
        x + 1,
        y,
    ) + hot(cells, width, height, x, y + 1)
}

/// Shade of the cell that waits at position `j` of the line.
pub open spec fn shade_of(queue: Seq<(u8, u8)>, j: int) -> int {
    shade(queue[j].0 as int, queue[j].1 as int)
}

/// The waiting line holds cells of one shade, then cells of the other.
pub open spec fn two_waves(queue: Seq<(u8, u8)>) -> bool {
    forall|j: int, k: int|
        0 <= j <= k < queue.len() && #[trigger] shade_of(queue, j) != shade_of(queue, 0)
            ==> #[trigger] shade_of(queue, k) != shade_of(queue, 0)
}

/// What holds of one cell throughout a chain reaction: every charge above its
/// capacity is matched by a place in the waiting line, and it cannot be given
/// more places than its capacity.
pub open spec fn cell_steady(c: Cascade, width: int, height: int, x: int, y: int) -> bool {
    let cell = cell_at(c.cells, width, x, y);
    let waiting = pending(c.queue, (x as u8, y as u8));
    &&& cell.dots <= cell.capacity + waiting
    &&& if c.queue.len() > 0 && shade(x, y) == shade_of(c.queue, 0) {
        waiting <= cell.capacity
    } else {
        waiting + hot_around(c.cells, width, height, x, y) <= cell.capacity
    }
}

/// What holds of a chain reaction at every step, when it starts from a board
/// at rest.
pub open spec fn steady(c: Cascade, width: int, height: int) -> bool {
    &&& 0 < width <= 255
    &&& 0 < height <= 255
    &&& capacities_set(c.cells, width, height)
    &&& c.touched.len() == width * height
    &&& forall|j: int|
        0 <= j < c.queue.len() ==> on_board(
            width,
            height,
            (#[trigger] c.queue[j]).0 as int,
            c.queue[j].1 as int,
        )
    &&& two_waves(c.queue)
    &&& forall|x: int, y: int|
        on_board(width, height, x, y) ==> #[trigger] cell_steady(c, width, height, x, y)
}

/// Between none and all of the marks are set.
pub proof fn lemma_count_marked_bounds(marks: Seq<bool>)
    ensures
        0 <= count_marked(marks) <= marks.len(),
    decreases marks.len(),
{
    if marks.len() > 0 {
        lemma_count_marked_bounds(marks.drop_last());
    }
}

/// Setting a mark that was clear raises the count by one; setting one that was
/// set changes nothing.
pub proof fn lemma_count_marked_update(marks: Seq<bool>, place: int)
    requires
        0 <= place < marks.len(),
    ensures
        count_marked(marks.update(place, true)) == count_marked(marks) + if marks[place] {
            0int
        } else {
            1int
        },
    decreases marks.len(),
{
    let after = marks.update(place, true);
    if place == marks.len() - 1 {
        assert(after.drop_last() == marks.drop_last());
    } else {
        assert(after.drop_last() == marks.drop_last().update(place, true));
        lemma_count_marked_update(marks.drop_last(), place);
    }
}

/// While fewer marks are set than there are marks, some mark is clear.
pub proof fn lemma_some_unmarked(marks: Seq<bool>)
    requires
        count_marked(marks) < marks.len(),
    ensures
        exists|i: int| 0 <= i < marks.len() && !marks[i],
    decreases marks.len(),
{
    if marks.len() > 0 {
        if marks.last() {
            lemma_some_unmarked(marks.drop_last());
            let i = choose|i: int| 0 <= i < marks.drop_last().len() && !marks.drop_last()[i];
            assert(!marks[i]);
        } else {
            assert(!marks[marks.len() - 1]);
        }
    }
}

/// No marks are set in a line of clear marks.
pub proof fn lemma_count_marked_clear(len: nat)
    ensures
        count_marked(Seq::new(len, |i: int| false)) == 0,
    decreases len,
{
    if len > 0 {
        assert(Seq::new(len, |i: int| false).drop_last() == Seq::new(
            (len - 1) as nat,
            |i: int| false,
        ));
        lemma_count_marked_clear((len - 1) as nat);
    }
}

/// A cell never waits a negative number of times.
pub proof fn lemma_pending_bounds(queue: Seq<(u8, u8)>, cell: (u8, u8))
    ensures
        0 <= pending(queue, cell) <= queue.len(),
    decreases queue.len(),
{
    if queue.len() > 0 {
        lemma_pending_bounds(queue.drop_last(), cell);
    }
}

/// Joining the line adds one to the count of the cell that joins.
pub proof fn lemma_pending_push(queue: Seq<(u8, u8)>, entry: (u8, u8), cell: (u8, u8))
    ensures
        pending(queue.push(entry), cell) == pending(queue, cell) + if entry == cell {
            1int
        } else {
            0int
        },
{
    assert(queue.push(entry).drop_last() == queue);
}

/// Leaving the line at its head takes one from the count of the cell that
/// leaves.
pub proof fn lemma_pending_drop_first(queue: Seq<(u8, u8)>, cell: (u8, u8))
    requires
        queue.len() > 0,
    ensures
        pending(queue.drop_first(), cell) == pending(queue, cell) - if queue[0] == cell {
            1int
        } else {
            0int
        },
    decreases queue.len(),
{
    if queue.len() == 1 {
        assert(pending(queue.drop_last(), cell) == 0);
        assert(pending(queue.drop_first(), cell) == 0);
    } else {
        lemma_pending_drop_first(queue.drop_last(), cell);
        assert(queue.drop_first().drop_last() == queue.drop_last().drop_first());
        assert(queue.drop_first().last() == queue.last());
        assert(queue.drop_last()[0] == queue[0]);
    }
}

/// A cell that differs from every entry of the line does not wait in it.
pub proof fn lemma_pending_absent(queue: Seq<(u8, u8)>, cell: (u8, u8))
    requires
        forall|j: int| 0 <= j < queue.len() ==> queue[j] != cell,
    ensures
        pending(queue, cell) == 0,
    decreases queue.len(),
{
    if queue.len() > 0 {
        lemma_pending_absent(queue.drop_last(), cell);
    }
}

/// How each cell stands after `(x0, y0)` has overflowed: the cell itself has
/// given up its capacity and belongs to `player`, each neighbour has one more
/// charge, every other cell is as it was.
pub proof fn lemma_spilled_at(
    cells: Seq<GridCell>,
    width: int,
    height: int,
    x0: int,
    y0: int,
    player: u8,
    x: int,
    y: int,
)
    requires
        cells.len() == width * height,
        on_board(width, height, x0, y0),
        on_board(width, height, x, y),
    ensures
        spilled(cells, width, height, x0, y0, player).len() == cells.len(),
        cell_at(spilled(cells, width, height, x0, y0, player), width, x, y) == if x == x0 && y
            == y0 {
            GridCell {
                dots: (cell_at(cells, width, x, y).dots - cell_at(cells, width, x, y).capacity) as u8,
                owner: player,
                capacity: cell_at(cells, width, x, y).capacity,
            }
        } else if adjacent(x, y, x0, y0) {
            GridCell {
                dots: (cell_at(cells, width, x, y).dots + 1) as u8,
                owner: cell_at(cells, width, x, y).owner,
                capacity: cell_at(cells, width, x, y).capacity,
            }
        } else {
            cell_at(cells, width, x, y)
        },
{
    reveal(spilled);
    let place = cell_index(width, x0, y0);
    let here = cell_index(width, x, y);
    lemma_cell_index_in_range(width, height, x0, y0);
    lemma_cell_index_in_range(width, height, x, y);
    assert((y0 - 1) * width + x0 == y0 * width + x0 - width) by (nonlinear_arith);
    assert((y0 + 1) * width + x0 == y0 * width + x0 + width) by (nonlinear_arith);
    assert(cell_index(width, x0 - 1, y0) == place - 1);
    assert(cell_index(width, x0 + 1, y0) == place + 1);
    if x0 > 0 {
        lemma_cell_index_in_range(width, height, x0 - 1, y0);
        if here == place - 1 {
            lemma_cell_index_unique(width, x, y, x0 - 1, y0);
        }
    }
    if y0 > 0 {
        lemma_cell_index_in_range(width, height, x0, y0 - 1);
        if here == place - width {
            lemma_cell_index_unique(width, x, y, x0, y0 - 1);
        }
    }
    if x0 < width - 1 {
        lemma_cell_index_in_range(width, height, x0 + 1, y0);
        if here == place + 1 {
            lemma_cell_index_unique(width, x, y, x0 + 1, y0);
        }
    }
    if y0 < height - 1 {
        lemma_cell_index_in_range(width, height, x0, y0 + 1);
        if here == place + width {
            lemma_cell_index_unique(width, x, y, x0, y0 + 1);
        }
    }
    if here == place {
        lemma_cell_index_unique(width, x, y, x0, y0);
    }
}

/// A cell has no more overflowing neighbours than its capacity.
pub proof fn lemma_hot_around_bound(
    cells: Seq<GridCell>,
    width: int,
    height: int,
    x: int,
    y: int,
)
    requires
        capacities_set(cells, width, height),
        on_board(width, height, x, y),
    ensures
        0 <= hot_around(cells, width, height, x, y) <= cell_at(cells, width, x, y).capacity,
        2 <= cell_at(cells, width, x, y).capacity <= 4,
{
    assert(cell_at(cells, width, x, y).capacity == position_capacity(width, height, x, y));
}

/// How often a cell waits once the neighbours of `(x0, y0)` have joined the
/// line: once more if it is one of them.
pub proof fn lemma_joined_pending(
    queue: Seq<(u8, u8)>,
    width: int,
    height: int,
    x0: u8,
    y0: u8,
    x: int,
    y: int,
)
    requires
        on_board(width, height, x0 as int, y0 as int),
        on_board(width, height, x, y),
        width <= 255,
        height <= 255,
    ensures
        pending(joined(queue, width, height, x0, y0), (x as u8, y as u8)) == pending(
            queue,
            (x as u8, y as u8),
        ) + if adjacent(x, y, x0 as int, y0 as int) {
            1int
        } else {
            0int
        },
        joined(queue, width, height, x0, y0).len() >= queue.len(),
        forall|j: int| 0 <= j < queue.len() ==> joined(queue, width, height, x0, y0)[j] == queue[j],
        forall|j: int|
            queue.len() <= j < joined(queue, width, height, x0, y0).len() ==> {
                let e = #[trigger] joined(queue, width, height, x0, y0)[j];
                on_board(width, height, e.0 as int, e.1 as int) && adjacent(
                    e.0 as int,
                    e.1 as int,
                    x0 as int,
                    y0 as int,
                )
            },
{
    reveal(joined);
    let cell = (x as u8, y as u8);
    let q1 = if x0 > 0 {
        queue.push(((x0 - 1) as u8, y0))
    } else {
        queue
    };
    let q2 = if y0 > 0 {
        q1.push((x0, (y0 - 1) as u8))
    } else {
        q1
    };
    let q3 = if x0 < width - 1 {
        q2.push(((x0 + 1) as u8, y0))
    } else {
        q2
    };
    if x0 > 0 {
        lemma_pending_push(queue, ((x0 - 1) as u8, y0), cell);
    }
    if y0 > 0 {
        lemma_pending_push(q1, (x0, (y0 - 1) as u8), cell);
    }
    if x0 < width - 1 {
        lemma_pending_push(q2, ((x0 + 1) as u8, y0), cell);
    }
    if y0 < height - 1 {
        lemma_pending_push(q3, (x0, (y0 + 1) as u8), cell);
    }
}

/// Whether the cell at the head of the line is about to overflow.
pub open spec fn overflowing(c: Cascade, width: int) -> bool {
    let cell = cell_at(c.cells, width, c.queue[0].0 as int, c.queue[0].1 as int);
    cell.dots > cell.capacity
}

/// How one step of the chain reaction leaves each cell of the board, and how
/// often that cell waits afterwards.
pub proof fn lemma_advanced_cell(
    c: Cascade,
    width: int,
    height: int,
    player: u8,
    x: int,
    y: int,
)
    requires
        steady(c, width, height),
        c.queue.len() > 0,
        on_board(width, height, x, y),
    ensures
        ({
            let n = advanced(c, width, height, player);
            let x0 = c.queue[0].0 as int;
            let y0 = c.queue[0].1 as int;
            let before = cell_at(c.cells, width, x, y);
            let after = cell_at(n.cells, width, x, y);
            let head = x == x0 && y == y0;
            let fed = overflowing(c, width) && adjacent(x, y, x0, y0);
            &&& n.cells.len() == c.cells.len()
            &&& after.capacity == before.capacity
            &&& after.owner == if head {
                player
            } else {
                before.owner
            }
            &&& after.dots == before.dots + (if fed {
                1int
            } else {
                0int
            }) - (if head && overflowing(c, width) {
                before.capacity as int
            } else {
                0int
            })
            &&& pending(n.queue, (x as u8, y as u8)) == pending(c.queue, (x as u8, y as u8)) + (
            if fed {
                1int
            } else {
                0int
            }) - (if head {
                1int
            } else {
                0int
            })
            &&& before.dots <= 8
            &&& 2 <= before.capacity <= 4
        }),
{
    let n = advanced(c, width, height, player);
    let x0 = c.queue[0].0 as int;
    let y0 = c.queue[0].1 as int;
    let cell = (x as u8, y as u8);
    assert(on_board(width, height, x0, y0));
    lemma_cell_index_in_range(width, height, x0, y0);
    lemma_cell_index_in_range(width, height, x, y);
    assert(cell_steady(c, width, height, x, y));
    assert(cell_steady(c, width, height, x0, y0));
    lemma_hot_around_bound(c.cells, width, height, x, y);
    lemma_hot_around_bound(c.cells, width, height, x0, y0);
    lemma_pending_bounds(c.queue, cell);
    lemma_pending_drop_first(c.queue, cell);
    if cell_index(width, x, y) == cell_index(width, x0, y0) {
        lemma_cell_index_unique(width, x, y, x0, y0);
    }
    if overflowing(c, width) {
        lemma_spilled_at(c.cells, width, height, x0, y0, player, x, y);
        lemma_joined_pending(c.queue.drop_first(), width, height, c.queue[0].0, c.queue[0].1, x, y);
    }
}

/// What one step of the chain reaction does to the waiting line: the entries
/// behind the head move up, and what joins is of the other shade than the
/// head.
pub open spec fn line_moved(c: Cascade, n: Cascade, width: int, height: int) -> bool {
    let rest = c.queue.drop_first();
    &&& n.queue.len() >= rest.len()
    &&& forall|j: int|
        0 <= j < n.queue.len() ==> on_board(
            width,
            height,
            (#[trigger] n.queue[j]).0 as int,
            n.queue[j].1 as int,
        )
    &&& forall|j: int| 0 <= j < rest.len() ==> #[trigger] n.queue[j] == c.queue[j + 1]
    &&& forall|j: int|
        rest.len() <= j < n.queue.len() ==> #[trigger] shade_of(n.queue, j) != shade_of(c.queue, 0)
}

/// The waiting line after one step of the chain reaction.
pub proof fn lemma_advanced_line(c: Cascade, width: int, height: int, player: u8)
    requires
        steady(c, width, height),
        c.queue.len() > 0,
    ensures
        line_moved(c, advanced(c, width, height, player), width, height),
{
    let n = advanced(c, width, height, player);
    let x0 = c.queue[0].0 as int;
    let y0 = c.queue[0].1 as int;
    let rest = c.queue.drop_first();
    assert(on_board(width, height, x0, y0));
    lemma_joined_pending(rest, width, height, c.queue[0].0, c.queue[0].1, x0, y0);
    assert forall|j: int| 0 <= j < n.queue.len() implies on_board(
        width,
        height,
        (#[trigger] n.queue[j]).0 as int,
        n.queue[j].1 as int,
    ) by {
        if j < rest.len() {
            assert(n.queue[j] == rest[j]);
            assert(rest[j] == c.queue[j + 1]);
        }
    }
    assert forall|j: int| 0 <= j < rest.len() implies #[trigger] n.queue[j] == c.queue[j + 1] by {
        assert(n.queue[j] == rest[j]);
    }
}

/// A line that has moved by one step still holds one shade, then the other.
pub proof fn lemma_moved_two_waves(c: Cascade, n: Cascade, width: int, height: int)
    requires
        c.queue.len() > 0,
        two_waves(c.queue),
        line_moved(c, n, width, height),
    ensures
        two_waves(n.queue),
        n.queue.len() > 0 && shade_of(n.queue, 0) != shade_of(c.queue, 0) ==> forall|j: int|
            0 <= j < n.queue.len() ==> #[trigger] shade_of(n.queue, j) != shade_of(c.queue, 0),
{
    let rest = c.queue.drop_first();
    let tone = shade_of(c.queue, 0);
    assert forall|j: int| 0 <= j < rest.len() implies #[trigger] shade_of(n.queue, j) == shade_of(
        c.queue,
        j + 1,
    ) by {
        assert(n.queue[j] == c.queue[j + 1]);
    }
    if n.queue.len() > 0 && shade_of(n.queue, 0) != tone {
        assert forall|j: int| 0 <= j < n.queue.len() implies #[trigger] shade_of(n.queue, j)
            != tone by {
            if j < rest.len() {
                assert(shade_of(n.queue, 0) == shade_of(c.queue, 1));
                assert(shade_of(c.queue, 1) != shade_of(c.queue, 0));
                assert(shade_of(c.queue, j + 1) != shade_of(c.queue, 0));
            }
        }
    }
    assert forall|j: int, k: int|
        0 <= j <= k < n.queue.len() && #[trigger] shade_of(n.queue, j) != shade_of(
            n.queue,
            0,
        ) implies #[trigger] shade_of(n.queue, k) != shade_of(n.queue, 0) by {
        if shade_of(n.queue, 0) == tone {
            if k < rest.len() {
                assert(shade_of(c.queue, j + 1) != shade_of(c.queue, 0));
                assert(shade_of(c.queue, k + 1) != shade_of(c.queue, 0));
            }
        } else {
            assert(shade_of(n.queue, j) != tone);
        }
    }
}

/// One cell keeps its part of the invariant through a step of the chain
/// reaction.
pub proof fn lemma_advanced_cell_steady(
    c: Cascade,
    width: int,
    height: int,
    player: u8,
    x: int,
    y: int,
)
    requires
        steady(c, width, height),
        c.queue.len() > 0,
        on_board(width, height, x, y),
        capacities_set(advanced(c, width, height, player).cells, width, height),
    ensures
        cell_steady(advanced(c, width, height, player), width, height, x, y),
{
    let n = advanced(c, width, height, player);
    let x0 = c.queue[0].0 as int;
    let y0 = c.queue[0].1 as int;
    let tone = shade(x0, y0);
    let cell = (x as u8, y as u8);
    lemma_advanced_line(c, width, height, player);
    lemma_moved_two_waves(c, n, width, height);
    lemma_advanced_cell(c, width, height, player, x, y);
    lemma_advanced_cell(c, width, height, player, x0, y0);
    assert(cell_steady(c, width, height, x, y));
    assert(cell_steady(c, width, height, x0, y0));
    lemma_pending_bounds(c.queue, (x0 as u8, y0 as u8));
    lemma_pending_bounds(n.queue, cell);
    lemma_pending_bounds(c.queue, cell);
    lemma_hot_around_bound(n.cells, width, height, x, y);
    lemma_hot_around_bound(c.cells, width, height, x, y);
    let front_after = n.queue.len() > 0 && shade(x, y) == shade_of(n.queue, 0);
    if shade(x, y) == tone {
        if !front_after {
            // Nothing of this shade is left in the line.
            assert forall|j: int| 0 <= j < n.queue.len() implies n.queue[j] != cell by {
                assert(shade_of(n.queue, j) != tone);
            }
            lemma_pending_absent(n.queue, cell);
        }
    } else {
        // The neighbours of this cell have the shade of the head; only the
        // head itself can have changed among them.
        if on_board(width, height, x - 1, y) {
            lemma_advanced_cell(c, width, height, player, x - 1, y);
        }
        if on_board(width, height, x, y - 1) {
            lemma_advanced_cell(c, width, height, player, x, y - 1);
        }
        if on_board(width, height, x + 1, y) {
            lemma_advanced_cell(c, width, height, player, x + 1, y);
        }
        if on_board(width, height, x, y + 1) {
            lemma_advanced_cell(c, width, height, player, x, y + 1);
        }
        assert(pending(n.queue, cell) + hot_around(n.cells, width, height, x, y) <= pending(
            c.queue,
            cell,
        ) + hot_around(c.cells, width, height, x, y));
    }
}

/// The invariant of the chain reaction survives each step.
pub proof fn lemma_advanced_steady(c: Cascade, width: int, height: int, player: u8)
    requires
        steady(c, width, height),
        c.queue.len() > 0,
    ensures
        steady(advanced(c, width, height, player), width, height),
{
    let n = advanced(c, width, height, player);
    lemma_advanced_line(c, width, height, player);
    lemma_moved_two_waves(c, n, width, height);
    assert forall|x: int, y: int| on_board(width, height, x, y) implies (#[trigger] cell_at(
        n.cells,
        width,
        x,
        y,
    )).capacity == position_capacity(width, height, x, y) by {
        lemma_advanced_cell(c, width, height, player, x, y);
    }
    lemma_advanced_cell(c, width, height, player, 0, 0);
    assert(on_board(width, height, c.queue[0].0 as int, c.queue[0].1 as int));
    lemma_cell_index_in_range(width, height, c.queue[0].0 as int, c.queue[0].1 as int);
    assert forall|x: int, y: int| on_board(width, height, x, y) implies #[trigger] cell_steady(
        n,
        width,
        height,
        x,
        y,
    ) by {
        lemma_advanced_cell_steady(c, width, height, player, x, y);
    }
}

/// A chain reaction that starts on a board at rest starts within the
/// invariant.
pub proof fn lemma_begun_steady(
    cells: Seq<GridCell>,
    width: int,
    height: int,
    x: u8,
    y: u8,
    player: u8,
)
    requires
        0 < width <= 255,
        0 < height <= 255,
        capacities_set(cells, width, height),
        within_capacity(cells),
        on_board(width, height, x as int, y as int),
    ensures
        steady(begun(cells, width, x, y, player), width, height),
{
    let c = begun(cells, width, x, y, player);
    let place = cell_index(width, x as int, y as int);
    lemma_cell_index_in_range(width, height, x as int, y as int);
    assert(c.queue == Seq::<(u8, u8)>::empty().push((x, y)));
    assert(shade_of(c.queue, 0) == shade(x as int, y as int));
    assert forall|cx: int, cy: int| on_board(width, height, cx, cy) implies (#[trigger] cell_at(
        c.cells,
        width,
        cx,
        cy,
    )).capacity == position_capacity(width, height, cx, cy) && cell_at(c.cells, width, cx, cy).dots
        == cell_at(cells, width, cx, cy).dots + if cx == x && cy == y {
        1int
    } else {
        0int
    } by {
        lemma_cell_index_in_range(width, height, cx, cy);
        assert(cell_at(cells, width, cx, cy).capacity == position_capacity(width, height, cx, cy));
        if cell_index(width, cx, cy) == place {
            lemma_cell_index_unique(width, cx, cy, x as int, y as int);
        }
    }
    assert forall|cx: int, cy: int| on_board(width, height, cx, cy) implies #[trigger] cell_steady(
        c,
        width,
        height,
        cx,
        cy,
    ) by {
        let cell = (cx as u8, cy as u8);
        lemma_cell_index_in_range(width, height, cx, cy);
        lemma_pending_push(Seq::<(u8, u8)>::empty(), (x, y), cell);
        assert(pending(Seq::<(u8, u8)>::empty(), cell) == 0);
        assert(cell_at(c.cells, width, cx, cy).capacity == position_capacity(
            width,
            height,
            cx,
            cy,
        ));
        lemma_hot_around_bound(c.cells, width, height, cx, cy);
    }
}

/// Four to the power `k` (1 for every `k` below 1).
pub open spec fn pow4(k: int) -> int
    decreases k,
{
    if k <= 0 {
        1
    } else {
        4 * pow4(k - 1)
    }
}

/// Powers of four grow with the exponent and are at least 1.
pub proof fn lemma_pow4_grows(a: int, b: int)
    requires
        a <= b,
    ensures
        1 <= pow4(a) <= pow4(b),
    decreases b - a, b,
{
    if a <= 0 {
        if b > 0 {
            lemma_pow4_grows(a, b - 1);
        }
    } else {
        lemma_pow4_grows(a - 1, b - 1);
    }
}

/// Some place of the board that the chain reaction has not looked at yet.
pub open spec fn anchor(touched: Seq<bool>) -> int {
    choose|i: int| 0 <= i < touched.len() && !touched[i]
}

/// Number of orthogonal steps between two cells.
pub open spec fn steps_between(x1: int, y1: int, x2: int, y2: int) -> int {
    (if x1 < x2 {
        x2 - x1
    } else {
        x1 - x2
    }) + (if y1 < y2 {
        y2 - y1
    } else {
        y1 - y2
    })
}

/// What one charge on the cell at `place` weighs when measured from the cell
/// at `target`: the farther from the target, the heavier, and each step
/// farther adds a quarter of what the step before added.
pub open spec fn weight(width: int, height: int, place: int, target: int) -> int {
    pow4(width + height) - pow4(
        width + height - steps_between(
            place % width,
            place / width,
            target % width,
            target / width,
        ),
    )
}

/// Total weight of the charges on the first `upto` cells.
pub open spec fn energy_upto(
    cells: Seq<GridCell>,
    width: int,
    height: int,
    target: int,
    upto: int,
) -> int
    decreases upto,
{
    if upto <= 0 {
        0
    } else {
        energy_upto(cells, width, height, target, upto - 1) + cells[upto - 1].dots * weight(
            width,
            height,
            upto - 1,
            target,
        )
    }
}

/// Total weight of the charges on the board, measured from a cell that the
/// chain reaction has not looked at. An overflow moves charge toward that
/// cell, so this falls with every overflow.
pub open spec fn energy(c: Cascade, width: int, height: int) -> int {
    energy_upto(c.cells, width, height, anchor(c.touched), c.cells.len() as int)
}

/// No charge has a negative weight.
pub proof fn lemma_weight_bounds(width: int, height: int, place: int, target: int)
    ensures
        0 <= weight(width, height, place, target),
{
    let far = steps_between(place % width, place / width, target % width, target / width);
    lemma_pow4_grows(width + height - far, width + height);
}

/// The total weight is never negative.
pub proof fn lemma_energy_bounds(
    cells: Seq<GridCell>,
    width: int,
    height: int,
    target: int,
    upto: int,
)
    ensures
        0 <= energy_upto(cells, width, height, target, upto),
    decreases upto,
{
    if upto > 0 {
        lemma_energy_bounds(cells, width, height, target, upto - 1);
        lemma_weight_bounds(width, height, upto - 1, target);
        let d = cells[upto - 1].dots as int;
        let wt = weight(width, height, upto - 1, target);
        assert(0 <= d * wt) by (nonlinear_arith)
            requires
                0 <= d,
                0 <= wt,
        ;
    }
}

/// Replacing one cell changes the total weight by the change in that cell's
/// charge times its weight.
pub proof fn lemma_energy_set(
    cells: Seq<GridCell>,
    width: int,
    height: int,
    target: int,
    upto: int,
    place: int,
    cell: GridCell,
)
    requires
        0 <= place < cells.len(),
        0 <= upto <= cells.len(),
    ensures
        energy_upto(cells.update(place, cell), width, height, target, upto) == energy_upto(
            cells,
            width,
            height,
            target,
            upto,
        ) + if place < upto {
            (cell.dots - cells[place].dots) * weight(width, height, place, target)
        } else {
            0int
        },
    decreases upto,
{
    if upto > 0 {
        lemma_energy_set(cells, width, height, target, upto - 1, place, cell);
        if place == upto - 1 {
            let a = cell.dots as int;
            let b = cells[place].dots as int;
            let wt = weight(width, height, place, target);
            assert((a - b) * wt == a * wt - b * wt) by (nonlinear_arith);
        }
    }
}

/// The four neighbours of the cell at the head of the line lie next to it in
/// the cell array, and neither they nor the head hold more than 8 charges.
pub proof fn lemma_around_head(c: Cascade, width: int, height: int)
    requires
        steady(c, width, height),
        c.queue.len() > 0,
    ensures
        ({
            let x0 = c.queue[0].0 as int;
            let y0 = c.queue[0].1 as int;
            let place = cell_index(width, x0, y0);
            &&& on_board(width, height, x0, y0)
            &&& 0 <= place < c.cells.len()
            &&& c.cells.len() == width * height
            &&& c.cells[place].dots <= 8
            &&& 2 <= c.cells[place].capacity <= 4
            &&& c.cells[place].capacity == position_capacity(width, height, x0, y0)
            &&& x0 > 0 ==> place - 1 == cell_index(width, x0 - 1, y0) && 0 <= place - 1
                && c.cells[place - 1].dots <= 8
            &&& y0 > 0 ==> place - width == cell_index(width, x0, y0 - 1) && 0 <= place - width
                && c.cells[place - width].dots <= 8
            &&& x0 < width - 1 ==> place + 1 == cell_index(width, x0 + 1, y0) && place + 1
                < c.cells.len() && c.cells[place + 1].dots <= 8
            &&& y0 < height - 1 ==> place + width == cell_index(width, x0, y0 + 1) && place
                + width < c.cells.len() && c.cells[place + width].dots <= 8
        }),
{
    let x0 = c.queue[0].0 as int;
    let y0 = c.queue[0].1 as int;
    assert(on_board(width, height, x0, y0));
    lemma_cell_index_in_range(width, height, x0, y0);
    lemma_advanced_cell(c, width, height, 0, x0, y0);
    assert(cell_at(c.cells, width, x0, y0).capacity == position_capacity(width, height, x0, y0));
    assert((y0 - 1) * width + x0 == y0 * width + x0 - width) by (nonlinear_arith);
    assert((y0 + 1) * width + x0 == y0 * width + x0 + width) by (nonlinear_arith);
    if x0 > 0 {
        lemma_cell_index_in_range(width, height, x0 - 1, y0);
        lemma_advanced_cell(c, width, height, 0, x0 - 1, y0);
    }
    if y0 > 0 {
        lemma_cell_index_in_range(width, height, x0, y0 - 1);
        lemma_advanced_cell(c, width, height, 0, x0, y0 - 1);
    }
    if x0 < width - 1 {
        lemma_cell_index_in_range(width, height, x0 + 1, y0);
        lemma_advanced_cell(c, width, height, 0, x0 + 1, y0);
    }
    if y0 < height - 1 {
        lemma_cell_index_in_range(width, height, x0, y0 + 1);
        lemma_advanced_cell(c, width, height, 0, x0, y0 + 1);
    }
}

/// Weight of the charge that an overflow of `(x0, y0)` sends to `(x, y)`, or
/// nothing if `(x, y)` is off the board.
pub open spec fn sent_weight(width: int, height: int, x: int, y: int, target: int) -> int {
    if on_board(width, height, x, y) {
        weight(width, height, cell_index(width, x, y), target)
    } else {
        0
    }
}

/// What an overflow of the head does to the total weight: the head's capacity
/// in charges leaves it, and one charge arrives on each neighbour.
pub proof fn lemma_spilled_energy(c: Cascade, width: int, height: int, player: u8, target: int)
    requires
        steady(c, width, height),
        c.queue.len() > 0,
        overflowing(c, width),
    ensures
        ({
            let x0 = c.queue[0].0 as int;
            let y0 = c.queue[0].1 as int;
            let place = cell_index(width, x0, y0);
            let len = c.cells.len() as int;
            energy_upto(spilled(c.cells, width, height, x0, y0, player), width, height, target, len)
                == energy_upto(c.cells, width, height, target, len) - c.cells[place].capacity
                * weight(width, height, place, target) + sent_weight(
                width,
                height,
                x0 - 1,
                y0,
                target,
            ) + sent_weight(width, height, x0, y0 - 1, target) + sent_weight(
                width,
                height,
                x0 + 1,
                y0,
                target,
            ) + sent_weight(width, height, x0, y0 + 1, target)
        }),
{
    reveal(spilled);
    lemma_around_head(c, width, height);
    let x0 = c.queue[0].0 as int;
    let y0 = c.queue[0].1 as int;
    let place = cell_index(width, x0, y0);
    let len = c.cells.len() as int;
    let cell = c.cells[place];
    let c0 = c.cells.update(
        place,
        GridCell {
            dots: (cell.dots - cell.capacity) as u8,
            owner: player,
            capacity: cell.capacity,
        },
    );
    let c1 = if x0 > 0 {
        charge(c0, place - 1)
    } else {
        c0
    };
    let c2 = if y0 > 0 {
        charge(c1, place - width)
    } else {
        c1
    };
    let c3 = if x0 < width - 1 {
        charge(c2, place + 1)
    } else {
        c2
    };
    lemma_energy_set(c.cells, width, height, target, len, place, c0[place]);
    let wt = weight(width, height, place, target);
    let cap = cell.capacity as int;
    assert((c0[place].dots - cell.dots) * wt == -(cap * wt)) by (nonlinear_arith)
        requires
            c0[place].dots - cell.dots == -cap,
    ;
    if x0 > 0 {
        lemma_energy_set(c0, width, height, target, len, place - 1, c1[place - 1]);
        assert(1 * weight(width, height, place - 1, target) == weight(
            width,
            height,
            place - 1,
            target,
        ));
    }
    if y0 > 0 {
        lemma_energy_set(c1, width, height, target, len, place - width, c2[place - width]);
        assert(1 * weight(width, height, place - width, target) == weight(
            width,
            height,
            place - width,
            target,
        ));
    }
    if x0 < width - 1 {
        lemma_energy_set(c2, width, height, target, len, place + 1, c3[place + 1]);
        assert(1 * weight(width, height, place + 1, target) == weight(
            width,
            height,
            place + 1,
            target,
        ));
    }
    if y0 < height - 1 {
        lemma_energy_set(
            c3,
            width,
            height,
            target,
            len,
            place + width,
            charge(c3, place + width)[place + width],
        );
        assert(1 * weight(width, height, place + width, target) == weight(
            width,
            height,
            place + width,
            target,
        ));
    }
}

/// Weight of a cell next to `(x0, y0)`, against the weight of `(x0, y0)`
/// itself: with `p` the fourth part of what `(x0, y0)` lacks to the full
/// weight, the neighbour lacks `p` if it lies farther from the target and
/// `16 p` if it lies nearer.
pub proof fn lemma_weight_beside(
    width: int,
    height: int,
    x0: int,
    y0: int,
    x: int,
    y: int,
    target: int,
)
    requires
        0 < width,
        0 < height,
        on_board(width, height, x0, y0),
        on_board(width, height, x, y),
        adjacent(x, y, x0, y0),
        0 <= target < width * height,
        target != cell_index(width, x0, y0),
    ensures
        ({
            let tx = target % width;
            let ty = target / width;
            let far = steps_between(x0, y0, tx, ty);
            let full = pow4(width + height);
            let p = pow4(width + height - far - 1);
            let nearer = steps_between(x, y, tx, ty) < far;
            &&& 1 <= far
            &&& 1 <= p
            &&& 16 * p <= full
            &&& weight(width, height, cell_index(width, x0, y0), target) == full - 4 * p
            &&& weight(width, height, cell_index(width, x, y), target) == if nearer {
                full - 16 * p
            } else {
                full - p
            }
        }),
{
    let tx = target % width;
    let ty = target / width;
    lemma_cell_index_join(width, height, target);
    lemma_cell_index_split(width, x0, y0);
    lemma_cell_index_split(width, x, y);
    let far = steps_between(x0, y0, tx, ty);
    let full = width + height;
    assert(far <= full - 2);
    lemma_pow4_grows(full - far - 1, full);
    lemma_pow4_grows(full - far + 1, full);
    assert(pow4(full - far) == 4 * pow4(full - far - 1));
    assert(pow4(full - far + 1) == 4 * pow4(full - far));
}

/// An overflow of an already visited cell lowers the total weight measured
/// from a cell not yet visited.
pub proof fn lemma_overflow_lowers_energy(
    c: Cascade,
    width: int,
    height: int,
    player: u8,
    target: int,
)
    requires
        steady(c, width, height),
        c.queue.len() > 0,
        overflowing(c, width),
        0 <= target < width * height,
        target != cell_index(width, c.queue[0].0 as int, c.queue[0].1 as int),
    ensures
        energy_upto(
            spilled(c.cells, width, height, c.queue[0].0 as int, c.queue[0].1 as int, player),
            width,
            height,
            target,
            c.cells.len() as int,
        ) < energy_upto(c.cells, width, height, target, c.cells.len() as int),
{
    let x0 = c.queue[0].0 as int;
    let y0 = c.queue[0].1 as int;
    let place = cell_index(width, x0, y0);
    let tx = target % width;
    let ty = target / width;
    lemma_around_head(c, width, height);
    lemma_spilled_energy(c, width, height, player, target);
    lemma_cell_index_join(width, height, target);
    if x0 == tx && y0 == ty {
        assert(false);
    }
    let full = pow4(width + height);
    let p = pow4(width + height - steps_between(x0, y0, tx, ty) - 1);
    let cap = c.cells[place].capacity as int;
    let wt = weight(width, height, place, target);
    if x0 > 0 {
        lemma_weight_beside(width, height, x0, y0, x0 - 1, y0, target);
    }
    if y0 > 0 {
        lemma_weight_beside(width, height, x0, y0, x0, y0 - 1, target);
    }
    if x0 < width - 1 {
        lemma_weight_beside(width, height, x0, y0, x0 + 1, y0, target);
    }
    if y0 < height - 1 {
        lemma_weight_beside(width, height, x0, y0, x0, y0 + 1, target);
    }
    let l = sent_weight(width, height, x0 - 1, y0, target);
    let u = sent_weight(width, height, x0, y0 - 1, target);
    let r = sent_weight(width, height, x0 + 1, y0, target);
    let d = sent_weight(width, height, x0, y0 + 1, target);
    assert(wt == full - 4 * p);
    assert(1 <= p && 16 * p <= full);
    // One neighbour lies nearer to the target.
    assert((x0 > 0 && l == full - 16 * p) || (y0 > 0 && u == full - 16 * p) || (x0 < width - 1
        && r == full - 16 * p) || (y0 < height - 1 && d == full - 16 * p));
    assert(l <= full - p || x0 == 0);
    assert(u <= full - p || y0 == 0);
    assert(r <= full - p || x0 == width - 1);
    assert(d <= full - p || y0 == height - 1);
    if cap == 2 {
        assert(cap * wt == 2 * wt);
    } else if cap == 3 {
        assert(cap * wt == 3 * wt);
    } else {
        assert(cap * wt == 4 * wt);
    }
    assert(l + u + r + d < cap * wt);
}

/// Each step of the chain reaction either looks at a cell for the first
/// time, or lowers the total weight, or leaves the weight as it was and
/// shortens the waiting line.
pub proof fn lemma_advanced_rank(c: Cascade, width: int, height: int, player: u8)
    requires
        steady(c, width, height),
        c.queue.len() > 0,
        count_marked(c.touched) != width * height,
    ensures
        ({
            let n = advanced(c, width, height, player);
            let left = width * height - count_marked(c.touched);
            let left_after = width * height - count_marked(n.touched);
            &&& 0 <= left_after <= left
            &&& 0 <= energy(n, width, height)
            &&& 0 <= energy(c, width, height)
            &&& left_after < left || energy(n, width, height) < energy(c, width, height) || (energy(
                n,
                width,
                height,
            ) == energy(c, width, height) && n.queue.len() < c.queue.len())
        }),
{
    let n = advanced(c, width, height, player);
    let x0 = c.queue[0].0 as int;
    let y0 = c.queue[0].1 as int;
    let place = cell_index(width, x0, y0);
    lemma_around_head(c, width, height);
    lemma_count_marked_bounds(c.touched);
    lemma_count_marked_bounds(n.touched);
    lemma_count_marked_update(c.touched, place);
    lemma_energy_bounds(n.cells, width, height, anchor(n.touched), n.cells.len() as int);
    lemma_energy_bounds(c.cells, width, height, anchor(c.touched), c.cells.len() as int);
    lemma_advanced_cell(c, width, height, player, x0, y0);
    if c.touched[place] {
        assert(n.touched == c.touched);
        lemma_some_unmarked(c.touched);
        let target = anchor(c.touched);
        if overflowing(c, width) {
            lemma_overflow_lowers_energy(c, width, height, player, target);
        } else {
            lemma_energy_set(
                c.cells,
                width,
                height,
                target,
                c.cells.len() as int,
                place,
                n.cells[place],
            );
            assert(0 * weight(width, height, place, target) == 0);
        }
    }
}

/// Where a chain reaction ends: with the board it leaves and whether any cell
/// overflowed, or with no board when every cell of the board had been looked
/// at and cells were still waiting.
pub open spec fn outcome(c: Cascade, width: int, height: int, player: u8) -> (Option<
    Seq<GridCell>,
>, bool)
    decreases width * height - count_marked(c.touched), energy(c, width, height), c.queue.len(),
    when steady(c, width, height)
{
    if c.queue.len() == 0 {
        (Some(c.cells), c.cascaded)
    } else if count_marked(c.touched) == width * height {
        (None, true)
    } else {
        proof {
            lemma_advanced_rank(c, width, height, player);
        }
        outcome(advanced(c, width, height, player), width, height, player)
    }
}

/// What a move of `player` on `(x, y)` makes of a board at rest.
pub open spec fn move_outcome(
    cells: Seq<GridCell>,
    width: int,
    height: int,
    x: u8,
    y: u8,
    player: u8,
) -> (Option<Seq<GridCell>>, bool) {
    outcome(begun(cells, width, x, y, player), width, height, player)
}

/// A cell that the chain reaction has not claimed for `player` still has its
/// owner, and its charge has grown by one for each time it waits in line.
pub open spec fn cell_claimed(
    c: Cascade,
    before: Seq<GridCell>,
    width: int,
    player: u8,
    x: int,
    y: int,
) -> bool {
    let now = cell_at(c.cells, width, x, y);
    let was = cell_at(before, width, x, y);
    now.owner == player || (now.owner == was.owner && now.dots == was.dots + pending(
        c.queue,
        (x as u8, y as u8),
    ))
}

/// Every cell of the board is either claimed for `player` or as `cell_claimed`
/// says.
pub open spec fn claimed(
    c: Cascade,
    before: Seq<GridCell>,
    width: int,
    height: int,
    player: u8,
) -> bool {
    forall|x: int, y: int|
        on_board(width, height, x, y) ==> #[trigger] cell_claimed(c, before, width, player, x, y)
}

/// At the start of a chain reaction only the cell moved on has changed, and it
/// belongs to the mover.
pub proof fn lemma_begun_claimed(
    cells: Seq<GridCell>,
    width: int,
    height: int,
    x: u8,
    y: u8,
    player: u8,
)
    requires
        cells.len() == width * height,
        width <= 255,
        height <= 255,
        on_board(width, height, x as int, y as int),
    ensures
        claimed(begun(cells, width, x, y, player), cells, width, height, player),
{
    let c = begun(cells, width, x, y, player);
    lemma_cell_index_in_range(width, height, x as int, y as int);
    assert(c.queue == Seq::<(u8, u8)>::empty().push((x, y)));
    assert forall|cx: int, cy: int| on_board(width, height, cx, cy) implies #[trigger] cell_claimed(
        c,
        cells,
        width,
        player,
        cx,
        cy,
    ) by {
        let cell = (cx as u8, cy as u8);
        lemma_cell_index_in_range(width, height, cx, cy);
        lemma_pending_push(Seq::<(u8, u8)>::empty(), (x, y), cell);
        assert(pending(Seq::<(u8, u8)>::empty(), cell) == 0);
        if cell_index(width, cx, cy) == cell_index(width, x as int, y as int) {
            lemma_cell_index_unique(width, cx, cy, x as int, y as int);
        }
    }
}

/// A step of the chain reaction claims the head of the line and leaves every
/// other cell's owner alone.
pub proof fn lemma_advanced_claimed(
    c: Cascade,
    before: Seq<GridCell>,
    width: int,
    height: int,
    player: u8,
)
    requires
        steady(c, width, height),
        c.queue.len() > 0,
        claimed(c, before, width, height, player),
    ensures
        claimed(advanced(c, width, height, player), before, width, height, player),
{
    let n = advanced(c, width, height, player);
    assert forall|x: int, y: int| on_board(width, height, x, y) implies #[trigger] cell_claimed(
        n,
        before,
        width,
        player,
        x,
        y,
    ) by {
        lemma_advanced_cell(c, width, height, player, x, y);
        assert(cell_claimed(c, before, width, player, x, y));
    }
}

/// When the waiting line has run empty, the board is at rest again, and each
/// cell either belongs to `player` or is as it was before the move.
pub proof fn lemma_finished(
    c: Cascade,
    before: Seq<GridCell>,
    width: int,
    height: int,
    player: u8,
)
    requires
        steady(c, width, height),
        c.queue.len() == 0,
        capacities_set(before, width, height),
        claimed(c, before, width, height, player),
    ensures
        within_capacity(c.cells),
        forall|i: int|
            0 <= i < c.cells.len() ==> (#[trigger] c.cells[i]).owner == player || c.cells[i]
                == before[i],
{
    assert forall|i: int| 0 <= i < c.cells.len() implies (#[trigger] c.cells[i]).dots
        <= c.cells[i].capacity && (c.cells[i].owner == player || c.cells[i] == before[i]) by {
        lemma_cell_index_join(width, height, i);
        let x = i % width;
        let y = i / width;
        assert(cell_steady(c, width, height, x, y));
        assert(cell_claimed(c, before, width, player, x, y));
        assert(pending(c.queue, (x as u8, y as u8)) == 0);
        assert(cell_at(c.cells, width, x, y).capacity == position_capacity(width, height, x, y));
        assert(cell_at(before, width, x, y).capacity == position_capacity(width, height, x, y));
    }
}

/// Where a chain reaction leaves a board, the board is at rest again, and each
/// of its cells either belongs to `player` or is as it was in `before`.
pub proof fn lemma_outcome_rests(
    c: Cascade,
    before: Seq<GridCell>,
    width: int,
    height: int,
    player: u8,
)
    requires
        steady(c, width, height),
        capacities_set(before, width, height),
        claimed(c, before, width, height, player),
    ensures
        outcome(c, width, height, player).0 matches Some(after) ==> capacities_set(
            after,
            width,
            height,
        ) && within_capacity(after) && forall|i: int|
            0 <= i < after.len() ==> (#[trigger] after[i]).owner == player || after[i]
                == before[i],
        outcome(c, width, height, player).0 is None ==> outcome(c, width, height, player).1,
    decreases width * height - count_marked(c.touched), energy(c, width, height), c.queue.len(),
{
    if c.queue.len() == 0 {
        lemma_finished(c, before, width, height, player);
    } else if count_marked(c.touched) == width * height {
    } else {
        lemma_advanced_rank(c, width, height, player);
        lemma_advanced_steady(c, width, height, player);
        lemma_advanced_claimed(c, before, width, height, player);
        lemma_outcome_rests(advanced(c, width, height, player), before, width, height, player);
    }
}

/// A move on a board at rest leaves a board at rest of the same size, on
/// which every cell that has changed belongs to the mover; so the mover's
/// balance has not fallen. Where the move leaves no board, a chain reaction
/// has run.
pub proof fn lemma_move_outcome_rests(
    cells: Seq<GridCell>,
    width: int,
    height: int,
    x: u8,
    y: u8,
    player: u8,
)
    requires
        0 < width <= 255,
        0 < height <= 255,
        capacities_set(cells, width, height),
        within_capacity(cells),
        on_board(width, height, x as int, y as int),
    ensures
        move_outcome(cells, width, height, x, y, player).0 matches Some(after) ==> capacities_set(
            after,
            width,
            height,
        ) && within_capacity(after) && after.len() == cells.len() && (forall|i: int|
            0 <= i < after.len() ==> (#[trigger] after[i]).owner == player || after[i] == cells[i])
            && crate::grid::score_of(cells, player) <= crate::grid::score_of(after, player),
        move_outcome(cells, width, height, x, y, player).0 is None ==> move_outcome(
            cells,
            width,
            height,
            x,
            y,
            player,
        ).1,
{
    lemma_begun_steady(cells, width, height, x, y, player);
    lemma_begun_claimed(cells, width, height, x, y, player);
    lemma_outcome_rests(begun(cells, width, x, y, player), cells, width, height, player);
    match move_outcome(cells, width, height, x, y, player).0 {
        Some(after) => {
            crate::grid::lemma_score_grows(cells, after, player, cells.len() as int);
        },
        None => {},
    }
}

/// A move on a cell with room for one more charge sets off nothing: it
/// leaves the board with that charge added and the cell claimed, and no chain
/// reaction runs.
pub proof fn lemma_quiet_move(
    cells: Seq<GridCell>,
    width: int,
    height: int,
    x: u8,
    y: u8,
    player: u8,
)
    requires
        0 < width <= 255,
        0 < height <= 255,
        capacities_set(cells, width, height),
        within_capacity(cells),
        on_board(width, height, x as int, y as int),
        cell_at(cells, width, x as int, y as int).dots < cell_at(
            cells,
            width,
            x as int,
            y as int,
        ).capacity,
    ensures
        move_outcome(cells, width, height, x, y, player) == (
            Some(
                cells.update(
                    cell_index(width, x as int, y as int),
                    GridCell {
                        dots: (cell_at(cells, width, x as int, y as int).dots + 1) as u8,
                        owner: player,
                        capacity: cell_at(cells, width, x as int, y as int).capacity,
                    },
                ),
            ),
            false,
        ),
{
    let place = cell_index(width, x as int, y as int);
    let start = begun(cells, width, x, y, player);
    let next = advanced(start, width, height, player);
    lemma_cell_index_in_range(width, height, x as int, y as int);
    lemma_begun_steady(cells, width, height, x, y, player);
    lemma_advanced_steady(start, width, height, player);
    lemma_count_marked_clear(cells.len());
    assert(start.queue[0] == (x, y));
    assert(start.queue.len() == 1);
    assert(next.queue.len() == 0);
    assert(next.cells =~= start.cells);
    assert(outcome(next, width, height, player) == (Some(next.cells), next.cascaded));
    assert(outcome(start, width, height, player) == outcome(next, width, height, player));
}

} // verus!
