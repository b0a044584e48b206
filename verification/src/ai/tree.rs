use vstd::prelude::*;
use crate::ai::queue::{storable, MoveQueue};
use crate::order::{above, in_line, is_above, is_under, lawful, under};
use crate::cascade::move_outcome;
use crate::grid::{board_settled, Board, Grid};
use crate::layout::{cell_index, coords, lemma_cell_index_join};
use crate::scan::{cells_of_kind, collect_cells, is_kind, lemma_cells_of_kind_sound, CellKind};

verus! {

/// A position of the search as a plain value. A vacant node stands for a
/// move that has not been tried, may not be made, or was pruned. A state
/// holds the board after the move that led to it (none once the game is
/// decided), one node per cell for the moves that follow, the score of the
/// position, and the number of paths below it that still wait to be tried.
pub enum NodeView<T> {
    Vacant,
    State { board: Option<Board>, moves: Seq<NodeView<T>>, score: T, pending: nat },
}

/// A node of the search tree.
pub enum TreeNode<T> {
    Vacant,
    State(TreeNodeState<T>),
}

/// What the search tree holds of a position that has been tried.
pub struct TreeNodeState<T> {
    grid: Option<Grid>,
    moves: Vec<TreeNode<T>>,
    score: T,
    unvisited_children: usize,
}

/// The board of an optional grid, as a plain value.
pub open spec fn board_of(grid: Option<Grid>) -> Option<Board> {
    match grid {
        Some(g) => Some(g.board()),
        None => None,
    }
}

/// An optional grid as an evaluation function is handed it.
pub open spec fn lent(grid: &Option<Grid>) -> Option<&Grid> {
    match grid {
        Some(g) => Some(g),
        None => None,
    }
}

/// The nodes of a row as plain values.
pub closed spec fn row_view<T>(row: Seq<TreeNode<T>>) -> Seq<NodeView<T>>
    decreases row,
{
    Seq::new(
        row.len(),
        |i: int|
            if 0 <= i < row.len() {
                row[i]@
            } else {
                NodeView::Vacant
            },
    )
}

impl<T> View for TreeNode<T> {
    type V = NodeView<T>;

    /// The node as a plain value.
    closed spec fn view(&self) -> NodeView<T>
        decreases self,
    {
        match self {
            TreeNode::Vacant => NodeView::Vacant,
            TreeNode::State(state) => NodeView::State {
                board: board_of(state.grid),
                moves: row_view(state.moves@),
                score: state.score,
                pending: state.unvisited_children as nat,
            },
        }
    }
}

/// The player whose turn follows that of `player`, among `players` players
/// numbered from 1.
pub open spec fn next_player(player: u8, players: u8) -> u8 {
    (player % players + 1) as u8
}

/// Whether score `a` is better than score `b` for the side to move: higher
/// when that side maximises, lower when it minimises.
pub open spec fn better<T: PartialOrd>(maximize: bool, a: T, b: T) -> bool {
    (maximize && above(a, b)) || (!maximize && under(a, b))
}

/// The order in which the side to move ranks scores: no score is better than
/// itself, of two different scores one is better, and better than better is
/// better.
pub proof fn lemma_better_in_line<T: PartialOrd>(maximize: bool)
    requires
        in_line::<T>(),
    ensures
        forall|a: T, b: T| a == b || #[trigger] better(maximize, a, b) || better(maximize, b, a),
        forall|a: T, b: T| !(#[trigger] better(maximize, a, b) && better(maximize, b, a)),
        forall|a: T, b: T, c: T|
            #[trigger] better(maximize, a, b) && #[trigger] better(maximize, b, c) ==> better(
                maximize,
                a,
                c,
            ),
{
    assert forall|a: T, b: T| a == b || #[trigger] better(maximize, a, b) || better(
        maximize,
        b,
        a,
    ) by {
        assert(a == b || above(a, b) || above(b, a));
        assert(above(b, a) <==> under(a, b));
        assert(above(a, b) <==> under(b, a));
    }
    assert forall|a: T, b: T| !(#[trigger] better(maximize, a, b) && better(maximize, b, a)) by {
        assert(!(above(a, b) && above(b, a)));
        assert(above(b, a) <==> under(a, b));
        assert(above(a, b) <==> under(b, a));
    }
    assert forall|a: T, b: T, c: T|
        #[trigger] better(maximize, a, b) && #[trigger] better(maximize, b, c) implies better(
        maximize,
        a,
        c,
    ) by {
        assert(above(b, a) <==> under(a, b));
        assert(above(c, b) <==> under(b, c));
        assert(above(c, a) <==> under(a, c));
        if maximize {
            assert(above(a, b) && above(b, c) ==> above(a, c));
        } else {
            assert(above(c, b) && above(b, a) ==> above(c, a));
        }
    }
}

/// The best score among the first `upto` moves that have been tried, none if
/// there is no such move.
pub open spec fn best_child<T: PartialOrd>(moves: Seq<NodeView<T>>, maximize: bool, upto: int) -> Option<T>
    decreases upto,
{
    if upto <= 0 {
        None
    } else {
        let earlier = best_child(moves, maximize, upto - 1);
        match moves[upto - 1] {
            NodeView::State { score, .. } => match earlier {
                Some(best) => if better(maximize, score, best) {
                    Some(score)
                } else {
                    Some(best)
                },
                None => Some(score),
            },
            NodeView::Vacant => earlier,
        }
    }
}

/// The moves with those cut away whose score `best` beats.
pub open spec fn pruned<T: PartialOrd>(moves: Seq<NodeView<T>>, maximize: bool, best: T) -> Seq<NodeView<T>> {
    Seq::new(
        moves.len(),
        |i: int|
            match moves[i] {
                NodeView::State { score, .. } => if better(maximize, best, score) {
                    NodeView::Vacant
                } else {
                    moves[i]
                },
                NodeView::Vacant => NodeView::Vacant,
            },
    )
}

/// A position after the scores below it have changed: it takes the best score
/// among its tried moves, and once no path below it waits any more, the moves
/// that this score beats are cut away. A position without tried moves keeps
/// its score.
pub open spec fn settled_node<T: PartialOrd>(
    board: Option<Board>,
    moves: Seq<NodeView<T>>,
    score: T,
    pending: nat,
    maximize: bool,
) -> NodeView<T> {
    match best_child(moves, maximize, moves.len() as int) {
        Some(best) => NodeView::State {
            board,
            moves: if pending == 0 {
                pruned(moves, maximize, best)
            } else {
                moves
            },
            score: best,
            pending,
        },
        None => NodeView::State { board, moves, score, pending },
    }
}

/// Place of the move `m` among the moves of a position whose board is
/// `width` cells wide.
pub open spec fn slot(width: u8, m: (u8, u8)) -> int {
    cell_index(width as int, m.0 as int, m.1 as int)
}

/// The tree below `node`, which lies `depth` moves down the path, after the
/// position `leaf` has been put at the end of the path: each position on the
/// path has one path less waiting below it and `added` more, and is settled
/// again from the bottom up. `tint` is the player to move at `node`.
pub open spec fn grown<T: PartialOrd>(
    node: NodeView<T>,
    path: Seq<(u8, u8)>,
    depth: int,
    leaf: NodeView<T>,
    added: nat,
    tint: u8,
    me: u8,
    players: u8,
) -> NodeView<T>
    decreases path.len() - depth,
{
    match node {
        NodeView::Vacant => NodeView::Vacant,
        NodeView::State { board, moves, score, pending } => {
            if depth < 0 || depth >= path.len() || board is None {
                node
            } else {
                let at = slot(board.unwrap().width, path[depth]);
                let child = if depth + 1 == path.len() {
                    leaf
                } else {
                    grown(
                        moves[at],
                        path,
                        depth + 1,
                        leaf,
                        added,
                        next_player(tint, players),
                        me,
                        players,
                    )
                };
                settled_node(
                    board,
                    moves.update(at, child),
                    score,
                    (pending - 1 + added) as nat,
                    tint == me,
                )
            }
        },
    }
}

/// The board of the last position on the path before its end, seen from
/// `node`, which lies `depth` moves down the path.
pub open spec fn last_board<T>(node: NodeView<T>, path: Seq<(u8, u8)>, depth: int) -> Option<Board>
    decreases path.len() - depth,
{
    match node {
        NodeView::Vacant => None,
        NodeView::State { board, moves, .. } => {
            if depth < 0 || depth + 1 >= path.len() || board is None {
                board
            } else {
                last_board(moves[slot(board.unwrap().width, path[depth])], path, depth + 1)
            }
        },
    }
}

/// The player who moves `steps` turns after `mover`.
pub open spec fn mover_after(mover: u8, players: u8, steps: int) -> u8
    decreases steps,
{
    if steps <= 0 {
        mover
    } else {
        mover_after(next_player(mover, players), players, steps - 1)
    }
}

/// The board that a move of `mover` on `m` leaves of `parent`, none where the
/// move decides the game.
pub open spec fn tried_board(parent: Board, m: (u8, u8), mover: u8) -> Option<Board> {
    match move_outcome(
        parent.cells,
        parent.width as int,
        parent.height as int,
        m.0,
        m.1,
        mover,
    ).0 {
        Some(cells) => Some(
            Board { cells, width: parent.width, height: parent.height, players: parent.players },
        ),
        None => None,
    }
}

/// Whether a move of `mover` on `m` sets off a chain reaction on `parent`.
pub open spec fn tried_cascade(parent: Board, m: (u8, u8), mover: u8) -> bool {
    move_outcome(parent.cells, parent.width as int, parent.height as int, m.0, m.1, mover).1
}

/// Whether the moves that follow a position `depth` moves down are searched:
/// the depth limit is not reached and the game is not decided.
pub open spec fn expands(board: Option<Board>, depth: int, max_depth: int) -> bool {
    depth < max_depth && board is Some
}

/// The cells that `next` may move on in a position that is searched further,
/// row by row.
pub open spec fn reach_cells(board: Option<Board>, depth: int, max_depth: int, next: u8) -> Seq<
    (u8, u8),
> {
    if expands(board, depth, max_depth) {
        cells_of_kind(board.unwrap().cells, board.unwrap().width as int, next, CellKind::Playable)
    } else {
        Seq::empty()
    }
}

/// A position that has just been tried: its board and score, a vacant node
/// for each cell if it is searched further, and as many paths waiting below
/// it as `next` has moves.
pub open spec fn fresh_leaf<T>(
    board: Option<Board>,
    score: T,
    depth: int,
    max_depth: int,
    next: u8,
) -> NodeView<T> {
    NodeView::State {
        board,
        moves: if expands(board, depth, max_depth) {
            Seq::new(board.unwrap().cells.len(), |i: int| NodeView::Vacant)
        } else {
            Seq::empty()
        },
        score,
        pending: reach_cells(board, depth, max_depth, next).len(),
    }
}

/// The paths that lead one move further than `path`, one for each of
/// `cells`.
pub open spec fn child_paths(path: Seq<(u8, u8)>, cells: Seq<(u8, u8)>) -> Seq<Seq<(u8, u8)>> {
    Seq::new(cells.len(), |i: int| path.push(cells[i]))
}

/// Whether the path `q` leads strictly below the position at `at`.
pub open spec fn strictly_under(at: Seq<(u8, u8)>, q: Seq<(u8, u8)>) -> bool {
    at.len() < q.len() && q.take(at.len() as int) =~= at
}

/// Number of waiting paths that lead strictly below the position at `at`.
pub open spec fn below(queue: Seq<Seq<(u8, u8)>>, at: Seq<(u8, u8)>) -> nat
    decreases queue.len(),
{
    if queue.len() == 0 {
        0
    } else {
        below(queue.drop_last(), at) + if strictly_under(at, queue.last()) {
            1nat
        } else {
            0nat
        }
    }
}

/// No more paths wait below a position than wait at all.
pub proof fn lemma_below_bound(queue: Seq<Seq<(u8, u8)>>, at: Seq<(u8, u8)>)
    ensures
        below(queue, at) <= queue.len(),
    decreases queue.len(),
{
    if queue.len() > 0 {
        lemma_below_bound(queue.drop_last(), at);
    }
}

/// When the paths one move further than `path` join the waiting paths, a
/// position gains as many paths below it as there are new paths if it lies
/// on `path` or at its end, and none otherwise.
pub proof fn lemma_below_children(
    queue: Seq<Seq<(u8, u8)>>,
    path: Seq<(u8, u8)>,
    cells: Seq<(u8, u8)>,
    at: Seq<(u8, u8)>,
)
    ensures
        below(queue + child_paths(path, cells), at) == below(queue, at) + if at.len() <= path.len()
            && path.take(at.len() as int) =~= at {
            cells.len()
        } else {
            0nat
        },
    decreases cells.len(),
{
    let joined = queue + child_paths(path, cells);
    if cells.len() == 0 {
        assert(joined =~= queue);
    } else {
        let fewer = cells.drop_last();
        lemma_below_children(queue, path, fewer, at);
        assert(joined.drop_last() =~= queue + child_paths(path, fewer));
        let last = path.push(cells.last());
        assert(joined.last() == last);
        if at.len() <= path.len() {
            assert(last.take(at.len() as int) =~= path.take(at.len() as int));
        }
    }
}

/// What the search relies on along a waiting path, from `node` on, which
/// lies `depth` moves down the path: every position on the path before its
/// end has been tried, holds a board at rest of the shape of `shape`, has a
/// node for each cell, and counts exactly the waiting paths below it; and the
/// path moves on cells of the board.
pub open spec fn on_track<T>(
    node: NodeView<T>,
    queue: Seq<Seq<(u8, u8)>>,
    path: Seq<(u8, u8)>,
    depth: int,
    shape: Board,
) -> bool
    decreases path.len() - depth,
{
    if depth < 0 || depth >= path.len() {
        true
    } else {
        match node {
            NodeView::Vacant => false,
            NodeView::State { board, moves, score, pending } => {
                &&& board is Some
                &&& board_settled(board.unwrap())
                &&& board.unwrap().width == shape.width
                &&& board.unwrap().height == shape.height
                &&& board.unwrap().players == shape.players
                &&& moves.len() == shape.width * shape.height
                &&& path[depth].0 < shape.width
                &&& path[depth].1 < shape.height
                &&& pending == below(queue, path.take(depth))
                &&& on_track(
                    moves[slot(shape.width, path[depth])],
                    queue,
                    path,
                    depth + 1,
                    shape,
                )
            },
        }
    }
}

/// A row of `count` vacant nodes.
fn vacant_row<T>(count: usize) -> (row: Vec<TreeNode<T>>)
    ensures
        row_view(row@) == Seq::new(count as nat, |i: int| NodeView::<T>::Vacant),
{
    let mut row: Vec<TreeNode<T>> = Vec::new();
    while row.len() < count
        invariant
            row@.len() <= count,
            forall|i: int| 0 <= i < row@.len() ==> (#[trigger] row@[i])@ == NodeView::<T>::Vacant,
        decreases count - row@.len(),
    {
        row.push(TreeNode::Vacant);
    }
    assert(row_view(row@) =~= Seq::new(count as nat, |i: int| NodeView::<T>::Vacant));
    row
}

/// Settles a position after the scores below it have changed: it takes the
/// best score among its tried moves, and once no path below it waits any
/// more, the moves that this score beats are cut away.
fn settle<T: PartialOrd + Copy>(state: &mut TreeNodeState<T>, maximize: bool)
    requires
        lawful::<T>(),
    ensures
        TreeNode::State(*final(state))@ == settled_node(
            board_of(old(state).grid),
            row_view(old(state).moves@),
            old(state).score,
            old(state).unvisited_children as nat,
            maximize,
        ),
{
    let ghost before = row_view(state.moves@);
    let mut best: Option<T> = None;
    let mut i: usize = 0;
    while i < state.moves.len()
        invariant
            lawful::<T>(),
            i <= state.moves@.len(),
            *state == *old(state),
            before == row_view(state.moves@),
            best == best_child(before, maximize, i as int),
        decreases state.moves@.len() - i,
    {
        match &state.moves[i] {
            TreeNode::State(child) => {
                best = match best {
                    Some(so_far) => if (maximize && is_above(child.score, so_far)) || (!maximize
                        && is_under(child.score, so_far)) {
                        Some(child.score)
                    } else {
                        Some(so_far)
                    },
                    None => Some(child.score),
                };
            },
            TreeNode::Vacant => {},
        }
        i = i + 1;
    }
    match best {
        Some(top) => {
            state.score = top;
            if state.unvisited_children == 0 {
                let mut k: usize = 0;
                while k < state.moves.len()
                    invariant
                        lawful::<T>(),
                        k <= state.moves@.len(),
                        state.moves@.len() == before.len(),
                        state.grid == old(state).grid,
                        state.score == top,
                        state.unvisited_children == 0,
                        forall|j: int|
                            0 <= j < k ==> (#[trigger] state.moves@[j])@ == pruned(
                                before,
                                maximize,
                                top,
                            )[j],
                        forall|j: int|
                            k <= j < before.len() ==> (#[trigger] state.moves@[j])@ == before[j],
                    decreases state.moves@.len() - k,
                {
                    let cut: bool = match &state.moves[k] {
                        TreeNode::State(child) => (maximize && is_above(top, child.score))
                            || (!maximize && is_under(top, child.score)),
                        TreeNode::Vacant => false,
                    };
                    if cut {
                        state.moves.set(k, TreeNode::Vacant);
                    }
                    k = k + 1;
                }
                assert(row_view(state.moves@) =~= pruned(before, maximize, top));
            }
        },
        None => {},
    }
}

impl<T: PartialOrd + Copy> TreeNode<T> {
    /// A vacant node.
    pub fn vacant() -> (node: TreeNode<T>)
        ensures
            node@ == NodeView::<T>::Vacant,
    {
        TreeNode::Vacant
    }

    /// Whether the node holds a position that has been tried.
    pub fn is_state(&self) -> (yes: bool)
        ensures
            yes == (self@ is State),
    {
        match self {
            TreeNode::State(_) => true,
            TreeNode::Vacant => false,
        }
    }

    /// Makes the node for a position that has just been tried, and lets the
    /// paths that lead one move further wait in `queue` if the position is
    /// searched further.
    pub(crate) fn sprout(
        grid: Option<Grid>,
        score: T,
        path: &Vec<(u8, u8)>,
        max_depth: usize,
        next: u8,
        queue: &mut MoveQueue,
    ) -> (leaf: TreeNode<T>)
        requires
            old(queue).wf(),
            storable(path@),
            max_depth <= 255,
            grid matches Some(g) ==> g.wf(),
        ensures
            leaf@ == fresh_leaf(board_of(grid), score, path@.len() as int, max_depth as int, next),
            final(queue).wf(),
            final(queue)@ == old(queue)@ + child_paths(
                path@,
                reach_cells(board_of(grid), path@.len() as int, max_depth as int, next),
            ),
    {
        let ghost start = queue@;
        let mut moves: Vec<TreeNode<T>> = Vec::new();
        let mut added: usize = 0;
        if path.len() < max_depth {
            match &grid {
                Some(g) => {
                    let cells: Vec<(u8, u8)> = collect_cells(g, next, CellKind::Playable);
                    let ghost width = g.spec_width() as int;
                    proof {
                        g.lemma_len();
                    }
                    let mut k: usize = 0;
                    while k < cells.len()
                        invariant
                            k <= cells@.len(),
                            g.wf(),
                            width == g.spec_width(),
                            g@.len() <= 65025,
                            storable(path@),
                            path@.len() < 255,
                            cells@ == cells_of_kind(g@, width, next, CellKind::Playable),
                            queue.wf(),
                            queue@ == start + child_paths(path@, cells@.take(k as int)),
                        decreases cells@.len() - k,
                    {
                        proof {
                            lemma_cells_of_kind_sound(
                                g@,
                                width,
                                next,
                                CellKind::Playable,
                                g@.len() as int,
                                k as int,
                            );
                            let place = choose|place: int|
                                0 <= place < g@.len() && is_kind(
                                    #[trigger] g@[place],
                                    next,
                                    CellKind::Playable,
                                ) && cells@[k as int] == coords(width, place);
                            if width == 0 {
                                assert(g.spec_width() * g.spec_height() == 0) by (nonlinear_arith)
                                    requires
                                        g.spec_width() == 0,
                                ;
                            }
                            lemma_cell_index_join(width, g.spec_height() as int, place);
                            assert(storable(path@.push(cells@[k as int])));
                        }
                        queue.push_suffixed(path.as_slice(), cells[k]);
                        proof {
                            assert(cells@.take(k + 1) =~= cells@.take(k as int).push(
                                cells@[k as int],
                            ));
                            assert(queue@ =~= start + child_paths(path@, cells@.take(k + 1)));
                        }
                        k = k + 1;
                    }
                    assert(cells@.take(cells@.len() as int) == cells@);
                    added = cells.len();
                    moves = vacant_row(g.len());
                },
                None => {},
            }
        }
        proof {
            assert(queue@ =~= start + child_paths(
                path@,
                reach_cells(board_of(grid), path@.len() as int, max_depth as int, next),
            ));
            assert(row_view(Seq::<TreeNode<T>>::empty()) =~= Seq::<NodeView<T>>::empty());
        }
        TreeNode::State(TreeNodeState { grid, moves, score, unvisited_children: added })
    }

    /// Walks down `path` from this node, which lies `depth` moves down the
    /// path, to the position before its end, tries the last move there, has
    /// the position it leads to evaluated, and puts that position into the
    /// tree. On the way back up, each position on the path counts the paths
    /// that now wait below it and is settled again.
    ///
    /// `mover` is the player who made the move that led to this node, `tint`
    /// the player to move here as the scores see it. Returns whether the last
    /// move set off a chain reaction and how many paths were added.
    pub(crate) fn descend<F: FnOnce(Option<&Grid>, u8, u8) -> T>(
        &mut self,
        path: &Vec<(u8, u8)>,
        depth: usize,
        mover: u8,
        tint: u8,
        me: u8,
        players: u8,
        max_depth: usize,
        eval: F,
        queue: &mut MoveQueue,
        Ghost(shape): Ghost<Board>,
    ) -> (found: (bool, usize, Ghost<Option<Grid>>, Ghost<T>))
        requires
            depth < path@.len(),
            storable(path@),
            lawful::<T>(),
            max_depth <= 255,
            players > 0,
            players == shape.players,
            old(queue).wf(),
            on_track(old(self)@, old(queue)@.push(path@), path@, depth as int, shape),
            forall|g: Option<&Grid>, a: u8, b: u8|
                (g matches Some(x) ==> x.settled()) ==> #[trigger] call_requires(eval, (g, a, b)),
        ensures
            ({
                let parent = last_board(old(self)@, path@, depth as int).unwrap();
                let last = path@[path@.len() - 1];
                let by = mover_after(mover, players, path@.len() - depth);
                let after = found.2@;
                let score = found.3@;
                let next = next_player(by, players);
                let cells = reach_cells(
                    board_of(after),
                    path@.len() as int,
                    max_depth as int,
                    next,
                );
                &&& last_board(old(self)@, path@, depth as int) is Some
                &&& board_of(after) == tried_board(parent, last, by)
                &&& (after matches Some(g) ==> g.settled())
                &&& found.0 == tried_cascade(parent, last, by)
                &&& call_ensures(eval, (lent(&after), by, me), score)
                &&& found.1 == cells.len()
                &&& final(queue).wf()
                &&& final(queue)@ == old(queue)@ + child_paths(path@, cells)
                &&& final(self)@ == grown(
                    old(self)@,
                    path@,
                    depth as int,
                    fresh_leaf(board_of(after), score, path@.len() as int, max_depth as int, next),
                    found.1 as nat,
                    tint,
                    me,
                    players,
                )
            }),
        decreases path@.len() - depth,
    {
        let ghost waiting = queue@;
        let ghost here = path@.take(depth as int);
        match self {
            TreeNode::State(state) => {
                let ghost kids = row_view(state.moves@);
                let m: (u8, u8) = path[depth];
                let cur: u8 = mover % players + 1;
                let found = match &state.grid {
                    Some(g) => {
                        let at: usize = g.offset(m.0, m.1);
                        proof {
                            g.lemma_len();
                        }
                        if depth + 1 == path.len() {
                            let (after, cascade) = g.with_move(m.0, m.1, cur);
                            let seen: Option<&Grid> = match &after {
                                Some(board) => Some(board),
                                None => None,
                            };
                            assert(seen == lent(&after));
                            let score: T = eval(seen, cur, me);
                            let next: u8 = cur % players + 1;
                            let ghost kept = after;
                            let leaf: TreeNode<T> = Self::sprout(
                                after,
                                score,
                                path,
                                max_depth,
                                next,
                                queue,
                            );
                            let added: usize = match &leaf {
                                TreeNode::State(fresh) => fresh.unvisited_children,
                                TreeNode::Vacant => 0,
                            };
                            state.moves.set(at, leaf);
                            proof {
                                assert(row_view(state.moves@) =~= kids.update(at as int, leaf@));
                            }
                            (cascade, added, Ghost(kept), Ghost(score))
                        } else {
                            let next_tint: u8 = tint % players + 1;
                            let ghost child = state.moves@[at as int]@;
                            assert(child == kids[at as int]);
                            let deeper = state.moves[at].descend(
                                path,
                                depth + 1,
                                cur,
                                next_tint,
                                me,
                                players,
                                max_depth,
                                eval,
                                queue,
                                Ghost(shape),
                            );
                            proof {
                                assert(row_view(state.moves@) =~= kids.update(
                                    at as int,
                                    state.moves@[at as int]@,
                                ));
                            }
                            deeper
                        }
                    },
                    None => {
                        proof {
                            assert(false);
                        }
                        (false, 0, Ghost(None), Ghost(arbitrary()))
                    },
                };
                proof {
                    let cells = reach_cells(
                        board_of(found.2@),
                        path@.len() as int,
                        max_depth as int,
                        next_player(mover_after(mover, players, path@.len() - depth), players),
                    );
                    lemma_below_children(waiting, path@, cells, here);
                    lemma_below_bound(queue@, here);
                    queue.lemma_len_fits();
                    assert(waiting.push(path@).drop_last() =~= waiting);
                    assert(path@.take(here.len() as int) =~= here);
                }
                state.unvisited_children = state.unvisited_children - 1 + found.1;
                settle(state, tint == me);
                found
            },
            TreeNode::Vacant => {
                proof {
                    assert(false);
                }
                (false, 0, Ghost(None), Ghost(arbitrary()))
            },
        }
    }

    /// The moves that have been tried from this position with their scores,
    /// row by row; none for a vacant node.
    pub fn listing(&self) -> (found: Vec<((u8, u8), T)>)
        requires
            listable(self@),
        ensures
            found@ == scored_moves(self@),
    {
        let mut found: Vec<((u8, u8), T)> = Vec::new();
        match self {
            TreeNode::State(state) => {
                if state.moves.len() > 0 {
                    match &state.grid {
                        Some(g) => {
                            proof {
                                assert(row_view(state.moves@).len() == state.moves@.len());
                                assert(board_of(state.grid) == Some(g.board()));
                            }
                            let mut place: usize = 0;
                            while place < state.moves.len()
                                invariant
                                    place <= state.moves@.len(),
                                    g.wf(),
                                    g@.len() == state.moves@.len(),
                                    found@ == scored_upto(
                                        row_view(state.moves@),
                                        g.spec_width() as int,
                                        place as int,
                                    ),
                                decreases state.moves@.len() - place,
                            {
                                match &state.moves[place] {
                                    TreeNode::State(child) => {
                                        found.push((g.coords_of(place), child.score));
                                    },
                                    TreeNode::Vacant => {},
                                }
                                place = place + 1;
                            }
                        },
                        None => {},
                    }
                }
            },
            TreeNode::Vacant => {},
        }
        found
    }
}

/// Whether the moves of a position can be listed by cell: a position with
/// moves has a board with one cell for each move.
pub open spec fn listable<T>(node: NodeView<T>) -> bool {
    match node {
        NodeView::State { board, moves, .. } => moves.len() > 0 ==> match board {
            Some(b) => b.cells.len() == moves.len() && b.cells.len() == b.width * b.height,
            None => false,
        },
        NodeView::Vacant => true,
    }
}

/// The first `upto` moves that have been tried, each with its score.
pub open spec fn scored_upto<T>(moves: Seq<NodeView<T>>, width: int, upto: int) -> Seq<((u8, u8), T)>
    decreases upto,
{
    if upto <= 0 {
        Seq::empty()
    } else {
        let earlier = scored_upto(moves, width, upto - 1);
        match moves[upto - 1] {
            NodeView::State { score, .. } => earlier.push((coords(width, upto - 1), score)),
            NodeView::Vacant => earlier,
        }
    }
}

/// The moves that have been tried from a position, each with its score, row
/// by row.
pub open spec fn scored_moves<T>(node: NodeView<T>) -> Seq<((u8, u8), T)> {
    match node {
        NodeView::State { board, moves, .. } => match board {
            Some(b) => scored_upto(moves, b.width as int, moves.len() as int),
            None => Seq::empty(),
        },
        NodeView::Vacant => Seq::empty(),
    }
}

} // verus!
