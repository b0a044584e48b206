use vstd::prelude::*;
use crate::ai::queue::{storable, MoveQueue};
use crate::ai::tree::{
    below, board_of, child_paths, fresh_leaf, grown, last_board, lent, listable, mover_after,
    next_player, on_track, reach_cells, scored_moves, settled_node, slot, strictly_under,
    tried_board, tried_cascade, NodeView, TreeNode,
};
use crate::ai::exhaust::{
    has_move, lemma_done_tops, lemma_stepped_sound, root_score, sound, tops,
};
use crate::order::{in_line, lawful};
use crate::ai::track::{
    is_prefix, lemma_below_none, lemma_cells_apart, lemma_cells_on_board,
    lemma_children_prefix_free, lemma_grown_keeps_track, lemma_grown_tracks_child,
    lemma_last_board_shape, lemma_on_track_turned, lemma_turned_prefix_free, prefix_free, turned,
};
use crate::grid::{board_settled, Board, Grid};
use crate::layout::lemma_cell_index_in_range;
use crate::scan::CellKind;

verus! {

/// How a step of the search ended.
#[derive(Clone, Copy, Debug, PartialEq, Eq)]
pub enum EvalStatus {
    /// No path was left to try.
    Done,
    /// A position was tried, and the move that led to it set off a chain
    /// reaction.
    Cascaded,
    /// A position was tried without a chain reaction.
    Uneventful,
}

/// A search as a plain value: the tree, the player it plays for, the board it
/// starts from, and the paths that wait to be tried, the next one first.
pub struct SearchView<T> {
    pub root: NodeView<T>,
    pub me: u8,
    pub board: Option<Board>,
    pub queue: Seq<Seq<(u8, u8)>>,
}

/// The player whose turn comes before that of `me`, counted from 0.
pub open spec fn before_me(me: u8, players: u8) -> u8 {
    ((me + players - 1) % (players as int)) as u8
}

/// The player who made the move that leads to the position tried next; for
/// the root, the player before the one the search is for.
pub open spec fn probe_mover<T>(s: SearchView<T>) -> u8 {
    mover_after(
        before_me(s.me, s.board.unwrap().players),
        s.board.unwrap().players,
        s.queue.first().len() as int,
    )
}

/// The board of the position tried next: the board the search starts from
/// for the empty path, else what the last move of the path leaves of the
/// board before it; none where that move decides the game.
pub open spec fn probe_board<T>(s: SearchView<T>) -> Option<Board> {
    let path = s.queue.first();
    if path.len() == 0 {
        s.board
    } else {
        tried_board(last_board(s.root, path, 0).unwrap(), path.last(), probe_mover(s))
    }
}

/// Whether the move that leads to the position tried next sets off a chain
/// reaction.
pub open spec fn probe_cascade<T>(s: SearchView<T>) -> bool {
    let path = s.queue.first();
    if path.len() == 0 {
        false
    } else {
        tried_cascade(last_board(s.root, path, 0).unwrap(), path.last(), probe_mover(s))
    }
}

/// The cells from which the search goes on below the position tried next.
pub open spec fn probe_cells<T>(s: SearchView<T>, max_depth: int) -> Seq<(u8, u8)> {
    reach_cells(
        probe_board(s),
        s.queue.first().len() as int,
        max_depth,
        next_player(probe_mover(s), s.board.unwrap().players),
    )
}

/// The search after one step, in which the path that had waited longest was tried
/// and the position it leads to was given the score `score`.
pub open spec fn stepped<T: PartialOrd>(s: SearchView<T>, max_depth: int, score: T) -> SearchView<T> {
    let path = s.queue.first();
    let players = s.board.unwrap().players;
    let cells = probe_cells(s, max_depth);
    let leaf = fresh_leaf(
        probe_board(s),
        score,
        path.len() as int,
        max_depth,
        next_player(probe_mover(s), players),
    );
    SearchView {
        root: if path.len() == 0 {
            leaf
        } else {
            grown(s.root, path, 0, leaf, cells.len(), s.me, s.me, players)
        },
        me: s.me,
        board: s.board,
        queue: s.queue.drop_first() + child_paths(path, cells),
    }
}

/// The board of a grid as an evaluation function is handed it.
pub open spec fn seen_board(grid: Option<&Grid>) -> Option<Board> {
    match grid {
        Some(g) => Some(g.board()),
        None => None,
    }
}

/// Whether the evaluation function `eval` gives every position the score
/// that `f` gives it.
pub open spec fn scores_by<T, F: FnOnce(Option<&Grid>, u8, u8) -> T>(
    eval: F,
    f: spec_fn(Option<Board>, u8, u8) -> T,
) -> bool {
    forall|g: Option<&Grid>, a: u8, b: u8, r: T| #[trigger]
        call_ensures(eval, (g, a, b), r) ==> r == f(seen_board(g), a, b)
}

/// What every step of the search relies on and keeps: the search has a board
/// at rest for at least one player, every waiting path can be walked in the
/// tree, and no waiting path leads through the end of another.
pub open spec fn searchable<T>(s: SearchView<T>) -> bool {
    &&& s.board is Some
    &&& board_settled(s.board.unwrap())
    &&& s.board.unwrap().players > 0
    &&& prefix_free(s.queue)
    &&& forall|j: int|
        0 <= j < s.queue.len() ==> storable(#[trigger] s.queue[j]) && on_track(
            s.root,
            s.queue,
            s.queue[j],
            0,
            s.board.unwrap(),
        )
}

/// An incremental search over the moves to come. Each step tries one waiting
/// path and scores the position it leads to; the scores of the positions
/// above are kept up to date. Scores are of any type whose values can be
/// compared.
pub struct TreeState<T> {
    root: TreeNode<T>,
    me: u8,
    grid: Option<Grid>,
    eval_queue: MoveQueue,
    moves_buf: Vec<(u8, u8)>,
}

impl<T> View for TreeState<T> {
    type V = SearchView<T>;

    /// The search as a plain value.
    closed spec fn view(&self) -> SearchView<T> {
        SearchView {
            root: self.root@,
            me: self.me,
            board: board_of(self.grid),
            queue: self.eval_queue@,
        }
    }
}

impl<T: PartialOrd + Copy> TreeState<T> {
    /// The list of waiting paths is in order.
    pub closed spec fn wf(&self) -> bool {
        self.eval_queue.wf()
    }

    /// A search with an empty tree, no board and no player.
    pub fn new() -> (state: Self)
        ensures
            state.wf(),
            state@.root is Vacant,
            state@.me == 0,
            state@.board is None,
            state@.queue.len() == 0,
    {
        TreeState {
            root: TreeNode::vacant(),
            me: 0,
            grid: None,
            eval_queue: MoveQueue::new(),
            moves_buf: Vec::new(),
        }
    }

    /// Gives the search the board to start from. Only the empty path waits
    /// afterwards; the tree and the player stay.
    pub fn set_grid(&mut self, grid: Grid)
        ensures
            final(self).wf(),
            final(self)@.board == Some(grid.board()),
            final(self)@.queue == seq![Seq::<(u8, u8)>::empty()],
            final(self)@.root == old(self)@.root,
            final(self)@.me == old(self)@.me,
            grid.settled() && grid.spec_player_count() > 0 ==> searchable(final(self)@),
            forall|f: spec_fn(Option<Board>, u8, u8) -> T, depth: int| #[trigger]
                sound(final(self)@, f, depth),
    {
        self.grid = Some(grid);
        self.eval_queue.clear();
        let empty: Vec<(u8, u8)> = Vec::new();
        self.eval_queue.push(empty.as_slice());
        proof {
            assert(self.eval_queue@ =~= seq![Seq::<(u8, u8)>::empty()]);
        }
    }

    /// Sets the player that the search plays for.
    pub fn set_player(&mut self, me: u8)
        ensures
            final(self).wf() == old(self).wf(),
            final(self)@ == (SearchView { me, ..old(self)@ }),
    {
        self.me = me;
    }

    /// The player that the search plays for.
    pub fn player(&self) -> (me: u8)
        ensures
            me == self@.me,
    {
        self.me
    }

    /// Empties the tree and forgets the player. The board and the waiting
    /// paths stay.
    pub fn clear(&mut self)
        ensures
            final(self).wf() == old(self).wf(),
            final(self)@ == (SearchView { root: NodeView::Vacant, me: 0, ..old(self)@ }),
    {
        self.root = TreeNode::vacant();
        self.me = 0;
    }

    /// Tries the path that has waited longest: walks it down the tree, plays its
    /// last move on the board found there, and hands the board that results
    /// (none if the move decides the game), the player who moved and the
    /// player searched for to `eval` for a score. The new position enters the
    /// tree; if the depth limit allows and the game goes on, the paths one
    /// move further wait from then on. The scores above are brought up to
    /// date, and below positions with no path left waiting, moves that the
    /// best score beats are cut away.
    ///
    /// Returns `Done`, and changes nothing, when no path waits.
    pub fn eval_next<F: FnOnce(Option<&Grid>, u8, u8) -> T>(
        &mut self,
        eval: F,
        max_depth: usize,
    ) -> (status: EvalStatus)
        requires
            lawful::<T>(),
            old(self).wf(),
            searchable(old(self)@),
            old(self)@.me != 0,
            max_depth <= 255,
            forall|g: Option<&Grid>, a: u8, b: u8|
                (g matches Some(x) ==> x.settled()) ==> #[trigger] call_requires(eval, (g, a, b)),
        ensures
            final(self).wf(),
            searchable(final(self)@),
            old(self)@.queue.len() == 0 ==> status == EvalStatus::Done && final(self)@ == old(
                self,
            )@,
            old(self)@.queue.len() > 0 ==> status == (if probe_cascade(old(self)@) {
                EvalStatus::Cascaded
            } else {
                EvalStatus::Uneventful
            }) && final(self)@.root is State && listable(final(self)@.root) && exists|
                after: Option<Grid>,
                score: T,
            |
                board_of(after) == probe_board(old(self)@) && #[trigger] call_ensures(
                    eval,
                    (lent(&after), probe_mover(old(self)@), old(self)@.me),
                    score,
                ) && final(self)@ == stepped(old(self)@, max_depth as int, score),
            forall|f: spec_fn(Option<Board>, u8, u8) -> T|
                in_line::<T>() && scores_by(eval, f) && #[trigger] sound(
                    old(self)@,
                    f,
                    max_depth as int,
                ) ==> sound(final(self)@, f, max_depth as int),
    {
        let ghost before: SearchView<T> = self@;
        let ghost judge: F = eval;
        let path: Vec<(u8, u8)> = match self.eval_queue.pop() {
            Some(path) => path,
            None => {
                return EvalStatus::Done;
            },
        };
        assert(path@ == before.queue.first());
        proof {
            assert(turned(before.queue) =~= self.eval_queue@.push(path@));
            assert(before.queue[0] == path@);
            lemma_on_track_turned(before.root, before.queue, path@, 0, before.board.unwrap());
        }
        let (players, start): (u8, u8) = match &self.grid {
            Some(grid) => {
                let players: u8 = grid.player_count();
                let wide: u16 = (self.me as u16 + players as u16 - 1) % (players as u16);
                (players, wide as u8)
            },
            None => {
                proof {
                    assert(false);
                }
                (1, 0)
            },
        };
        assert(start == before_me(before.me, players));
        let cascade: bool;
        let ghost tried: Option<Grid>;
        let ghost points: T;
        if path.len() == 0 {
            let copy: Option<Grid> = match &self.grid {
                Some(grid) => Some(grid.clone()),
                None => None,
            };
            let seen: Option<&Grid> = match &copy {
                Some(board) => Some(board),
                None => None,
            };
            assert(seen == lent(&copy));
            let score: T = eval(seen, start, self.me);
            let next: u8 = start % players + 1;
            proof {
                tried = copy;
                points = score;
            }
            self.root = TreeNode::sprout(
                copy,
                score,
                &path,
                max_depth,
                next,
                &mut self.eval_queue,
            );
            cascade = false;
        } else {
            let found = self.root.descend(
                &path,
                0,
                start,
                self.me,
                self.me,
                players,
                max_depth,
                eval,
                &mut self.eval_queue,
                Ghost(before.board.unwrap()),
            );
            cascade = found.0;
            proof {
                tried = found.2@;
                points = found.3@;
            }
        }
        self.moves_buf = path;
        proof {
            assert(self@ == stepped(before, max_depth as int, points));
            assert(board_of(tried) == probe_board(before));
            lemma_stepped_searchable(before, max_depth as int, points);
            lemma_stepped_root(before, max_depth as int, points);
            assert(call_ensures(judge, (lent(&tried), probe_mover(before), before.me), points));
            assert(seen_board(lent(&tried)) == board_of(tried));
            assert forall|f: spec_fn(Option<Board>, u8, u8) -> T|
                in_line::<T>() && scores_by(judge, f) && #[trigger] sound(
                    before,
                    f,
                    max_depth as int,
                ) implies sound(self@, f, max_depth as int) by {
                lemma_stepped_sound(before, f, max_depth as int, points);
            }
        }
        if cascade {
            EvalStatus::Cascaded
        } else {
            EvalStatus::Uneventful
        }
    }

    /// The moves that have been tried from the root and not cut away, each
    /// with its score, row by row. Once a search in which every position got
    /// the score that a function `f` gives it has come to its end, the
    /// highest of these scores is the score of the starting position by
    /// plain enumeration of every line of play down to the depth limit.
    pub fn iter_moves_and_score(&self) -> (found: Vec<((u8, u8), T)>)
        requires
            self@.root is State,
            listable(self@.root),
        ensures
            found@ == scored_moves(self@.root),
            forall|f: spec_fn(Option<Board>, u8, u8) -> T, depth: int|
                in_line::<T>() && #[trigger] sound(self@, f, depth) && self@.board is Some
                    && self@.queue.len() == 0 && depth > 0 && has_move(self@) ==> tops(
                    found@,
                    root_score(self@, f, depth),
                ),
    {
        proof {
            assert forall|f: spec_fn(Option<Board>, u8, u8) -> T, depth: int|
                in_line::<T>() && #[trigger] sound(self@, f, depth) && self@.board is Some
                    && self@.queue.len() == 0 && depth > 0 && has_move(self@) implies tops(
                scored_moves(self@.root),
                root_score(self@, f, depth),
            ) by {
                lemma_done_tops(self@, f, depth);
            }
        }
        self.root.listing()
    }
}

impl<T: PartialOrd + Copy> Default for TreeState<T> {
    /// A search with an empty tree, no board and no player.
    fn default() -> (state: Self)
        ensures
            state.wf(),
            state@.root is Vacant,
            state@.me == 0,
            state@.board is None,
            state@.queue.len() == 0,
    {
        TreeState::new()
    }
}

/// The board of the position tried next has the shape of the board that the
/// search started from.
pub proof fn lemma_probe_shape<T>(s: SearchView<T>)
    requires
        searchable(s),
        s.queue.len() > 0,
    ensures
        probe_board(s) matches Some(b) ==> b.width == s.board.unwrap().width && b.height
            == s.board.unwrap().height && b.players == s.board.unwrap().players,
        s.queue.first().len() > 0 ==> 0 < s.board.unwrap().width && 0 < s.board.unwrap().height,
{
    let p = s.queue.first();
    assert(s.queue[0] == p);
    if p.len() > 0 {
        lemma_last_board_shape(s.root, s.queue, p, 0, s.board.unwrap());
    }
}

/// The cells from which the search goes on are cells of the board, each
/// named once.
pub proof fn lemma_probe_cells<T>(s: SearchView<T>, max_depth: int)
    requires
        searchable(s),
        s.queue.len() > 0,
        probe_board(s) matches Some(b) ==> board_settled(b),
    ensures
        forall|i: int, j: int|
            0 <= i < j < probe_cells(s, max_depth).len() ==> #[trigger] probe_cells(
                s,
                max_depth,
            )[i] != #[trigger] probe_cells(s, max_depth)[j],
        forall|i: int|
            0 <= i < probe_cells(s, max_depth).len() ==> (#[trigger] probe_cells(
                s,
                max_depth,
            )[i]).0 < s.board.unwrap().width && probe_cells(s, max_depth)[i].1
                < s.board.unwrap().height,
        probe_cells(s, max_depth).len() > 0 ==> s.queue.first().len() < max_depth && probe_board(
            s,
        ) is Some && 0 < s.board.unwrap().width && 0 < s.board.unwrap().height,
{
    let cells = probe_cells(s, max_depth);
    lemma_probe_shape(s);
    if cells.len() > 0 {
        let b = probe_board(s).unwrap();
        let w = b.width as int;
        let h = b.height as int;
        let next = next_player(probe_mover(s), s.board.unwrap().players);
        crate::scan::lemma_cells_of_kind_none(
            b.cells,
            w,
            next,
            CellKind::Playable,
            b.cells.len() as int,
        );
        assert(b.cells.len() > 0);
        assert(w > 0 && h > 0) by (nonlinear_arith)
            requires
                w * h > 0,
                w >= 0,
                h >= 0,
        ;
        lemma_cells_apart(b.cells, w, h, next, CellKind::Playable, b.cells.len() as int);
        assert forall|i: int| 0 <= i < cells.len() implies (#[trigger] cells[i]).0 < b.width
            && cells[i].1 < b.height by {
            lemma_cells_on_board(b.cells, w, h, next, CellKind::Playable, i);
        }
    }
}

/// A step of the search keeps what the search relies on, provided the board
/// of the position tried is at rest.
pub proof fn lemma_stepped_searchable<T: PartialOrd>(s: SearchView<T>, max_depth: int, score: T)
    requires
        searchable(s),
        s.queue.len() > 0,
        max_depth <= 255,
        probe_board(s) matches Some(b) ==> board_settled(b),
    ensures
        searchable(stepped(s, max_depth, score)),
{
    let p = s.queue.first();
    let rest = s.queue.drop_first();
    let shape = s.board.unwrap();
    let players = shape.players;
    let cells = probe_cells(s, max_depth);
    let next = next_player(probe_mover(s), players);
    let leaf = fresh_leaf(probe_board(s), score, p.len() as int, max_depth, next);
    let after = stepped(s, max_depth, score);
    let line = turned(s.queue);
    assert(line == rest.push(p));
    assert(line.drop_last() =~= rest);
    assert(line.last() == p);
    assert(s.queue[0] == p);
    lemma_probe_shape(s);
    lemma_probe_cells(s, max_depth);
    lemma_turned_prefix_free(s.queue);
    lemma_children_prefix_free(line, cells);
    lemma_on_track_turned(s.root, s.queue, p, 0, shape);
    // No other path waits below the path that is tried.
    assert forall|j: int| 0 <= j < rest.len() implies !strictly_under(p, #[trigger] rest[j]) by {
        assert(rest[j] == s.queue[j + 1]);
        if strictly_under(p, rest[j]) {
            assert(is_prefix(s.queue[0], s.queue[j + 1]));
        }
    }
    lemma_below_none(rest, p);
    assert forall|j: int| 0 <= j < after.queue.len() implies storable(#[trigger] after.queue[j])
        && on_track(after.root, after.queue, after.queue[j], 0, shape) by {
        if j < rest.len() {
            let q = rest[j];
            assert(q == s.queue[j + 1]);
            assert(after.queue[j] == q);
            assert(storable(q));
            assert(on_track(s.root, s.queue, q, 0, shape));
            lemma_on_track_turned(s.root, s.queue, q, 0, shape);
            assert(!is_prefix(s.queue[0], s.queue[j + 1]));
            assert(!is_prefix(s.queue[j + 1], s.queue[0]));
            if p.len() == 0 {
                assert(p.take(0) =~= p);
                assert(q.take(0) =~= p);
                assert(is_prefix(p, q));
            }
            assert(q.take(0) =~= p.take(0));
            lemma_grown_keeps_track(
                s.root,
                p,
                0,
                leaf,
                cells,
                s.me,
                s.me,
                players,
                rest,
                q,
                j,
                shape,
            );
        } else {
            let i = j - rest.len();
            let q = p.push(cells[i]);
            assert(after.queue[j] == q);
            assert(storable(p));
            assert(storable(q));
            lemma_grown_tracks_child(
                s.root,
                p,
                0,
                leaf,
                cells,
                s.me,
                s.me,
                players,
                rest,
                i,
                shape,
            );
        }
    }
}

/// After a step of the search the root has been tried, and its moves can be
/// listed by cell.
pub proof fn lemma_stepped_root<T: PartialOrd>(s: SearchView<T>, max_depth: int, score: T)
    requires
        searchable(s),
        s.queue.len() > 0,
        probe_board(s) matches Some(b) ==> board_settled(b),
    ensures
        stepped(s, max_depth, score).root is State,
        listable(stepped(s, max_depth, score).root),
{
    let p = s.queue.first();
    let shape = s.board.unwrap();
    let players = shape.players;
    let cells = probe_cells(s, max_depth);
    let leaf = fresh_leaf(
        probe_board(s),
        score,
        p.len() as int,
        max_depth,
        next_player(probe_mover(s), players),
    );
    assert(s.queue[0] == p);
    assert(on_track(s.root, s.queue, p, 0, shape));
    if p.len() == 0 {
        assert(stepped(s, max_depth, score).root == leaf);
    } else {
        match s.root {
            NodeView::Vacant => {},
            NodeView::State { board, moves, score: held, pending } => {
                let at = slot(shape.width, p[0]);
                lemma_cell_index_in_range(
                    shape.width as int,
                    shape.height as int,
                    p[0].0 as int,
                    p[0].1 as int,
                );
                let child = if 1 == p.len() {
                    leaf
                } else {
                    grown(moves[at], p, 1, leaf, cells.len(), next_player(s.me, players), s.me, players)
                };
                let moves1 = moves.update(at, child);
                let after = settled_node(
                    board,
                    moves1,
                    held,
                    (pending - 1 + cells.len()) as nat,
                    s.me == s.me,
                );
                assert(stepped(s, max_depth, score).root == after);
                assert(after->moves.len() == moves.len());
            },
        }
    }
}

} // verus!
