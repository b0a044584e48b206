use vstd::prelude::*;
use crate::ai::rating::best_upto;
use crate::order::{above, in_line, lemma_i32_in_line, under};
use crate::ai::search::{
    before_me, lemma_stepped_searchable, probe_board, probe_cells, probe_mover, searchable, stepped, SearchView,
};
use crate::ai::track::{
    is_prefix, lemma_below_turned, lemma_last_board_shape, lemma_on_track_turned,
    lemma_turned_prefix_free, prefix_free, turned,
};
use crate::ai::tree::{
    below, best_child, better, child_paths, expands, fresh_leaf, grown, last_board,
    lemma_below_children, lemma_better_in_line, mover_after, next_player, on_track, pruned,
    reach_cells, scored_moves, scored_upto, settled_node, slot, strictly_under, tried_board,
    NodeView,
};
use crate::cascade::lemma_move_outcome_rests;
use crate::grid::{board_settled, Board, GridCell};
use crate::layout::{
    coords, lemma_cell_index_in_range, lemma_cell_index_join, lemma_cell_index_split,
};
use crate::scan::{cells_of_kind_upto, is_kind, CellKind};

verus! {

/// Whether the player `cur` may move on the cell stored at `place`.
pub open spec fn playable_at(b: Board, place: int, cur: u8) -> bool {
    is_kind(b.cells[place], cur, CellKind::Playable)
}

/// The score of a position by plain enumeration: the score that `f` gives it
/// if the depth limit is reached, the game is decided or nobody can move;
/// else the best of the scores, found the same way, of the positions that
/// the moves of the next player lead to. Nothing is cut away.
pub open spec fn exhaustive<T: PartialOrd>(
    f: spec_fn(Option<Board>, u8, u8) -> T,
    board: Option<Board>,
    depth: int,
    mover: u8,
    tint: u8,
    me: u8,
    players: u8,
    max_depth: int,
) -> T
    decreases max_depth - depth, (if board is Some {
            board.unwrap().cells.len() + 1
        } else {
            0
        }),
{
    if depth >= max_depth || board is None {
        f(board, mover, me)
    } else {
        match best_value(
            f,
            board.unwrap(),
            depth,
            mover,
            tint,
            me,
            players,
            max_depth,
            board.unwrap().cells.len() as int,
        ) {
            Some(v) => v,
            None => f(board, mover, me),
        }
    }
}

/// The best score by plain enumeration among the moves on the first `upto`
/// cells of the board `b`; none if the next player can move on none of them.
pub open spec fn best_value<T: PartialOrd>(
    f: spec_fn(Option<Board>, u8, u8) -> T,
    b: Board,
    depth: int,
    mover: u8,
    tint: u8,
    me: u8,
    players: u8,
    max_depth: int,
    upto: int,
) -> Option<T>
    decreases max_depth - depth, upto,
{
    if upto <= 0 || depth >= max_depth || upto > b.cells.len() {
        None
    } else {
        let earlier = best_value(f, b, depth, mover, tint, me, players, max_depth, upto - 1);
        let cur = next_player(mover, players);
        if playable_at(b, upto - 1, cur) {
            let v = exhaustive(
                f,
                tried_board(b, coords(b.width as int, upto - 1), cur),
                depth + 1,
                cur,
                next_player(tint, players),
                me,
                players,
                max_depth,
            );
            match earlier {
                Some(e) => if better(tint == me, v, e) {
                    Some(v)
                } else {
                    Some(e)
                },
                None => Some(v),
            }
        } else {
            earlier
        }
    }
}

/// Whether the path `q` waits.
pub open spec fn queued(queue: Seq<Seq<(u8, u8)>>, q: Seq<(u8, u8)>) -> bool {
    exists|j: int| 0 <= j < queue.len() && #[trigger] queue[j] =~= q
}

/// What the best score among tried moves is: there is no score if no move has
/// been tried; else some tried move has it, and no tried move has a better
/// one.
pub proof fn lemma_best_child_is_best<T: PartialOrd>(moves: Seq<NodeView<T>>, maximize: bool, upto: int)
    requires
        in_line::<T>(),
        0 <= upto <= moves.len(),
    ensures
        match best_child(moves, maximize, upto) {
            Some(best) => (exists|place: int|
                0 <= place < upto && (#[trigger] moves[place]) is State && moves[place]->score
                    == best) && forall|place: int|
                0 <= place < upto && (#[trigger] moves[place]) is State ==> !better(
                    maximize,
                    moves[place]->score,
                    best,
                ),
            None => forall|place: int| 0 <= place < upto ==> (#[trigger] moves[place]) is Vacant,
        },
    decreases upto,
{
    lemma_better_in_line::<T>(maximize);    if upto > 0 {
        lemma_best_child_is_best(moves, maximize, upto - 1);
        match best_child(moves, maximize, upto) {
            Some(best) => {
                match best_child(moves, maximize, upto - 1) {
                    Some(earlier) => {
                        if moves[upto - 1] is State && better(
                            maximize,
                            moves[upto - 1]->score,
                            earlier,
                        ) {
                            assert(moves[upto - 1]->score == best);
                        } else {
                            let place = choose|place: int|
                                0 <= place < upto - 1 && (#[trigger] moves[place]) is State
                                    && moves[place]->score == earlier;
                            assert(moves[place]->score == best);
                        }
                    },
                    None => {
                        assert(moves[upto - 1] is State && moves[upto - 1]->score == best);
                    },
                }
            },
            None => {},
        }
    }
}

/// A score that some tried move has and that no tried move betters is the
/// best score.
pub proof fn lemma_best_child_found<T: PartialOrd>(
    moves: Seq<NodeView<T>>,
    maximize: bool,
    upto: int,
    place: int,
)
    requires
        in_line::<T>(),
        0 <= place < upto <= moves.len(),
        moves[place] is State,
        forall|other: int|
            0 <= other < upto && (#[trigger] moves[other]) is State ==> !better(
                maximize,
                moves[other]->score,
                moves[place]->score,
            ),
    ensures
        best_child(moves, maximize, upto) == Some(moves[place]->score),
{
    lemma_better_in_line::<T>(maximize);    lemma_best_child_is_best(moves, maximize, upto);
    let best = best_child(moves, maximize, upto).unwrap();
    let holder = choose|holder: int|
        0 <= holder < upto && (#[trigger] moves[holder]) is State && moves[holder]->score == best;
    assert(!better(maximize, moves[holder]->score, moves[place]->score));
    assert(!better(maximize, moves[place]->score, best));
}

/// Cutting away the moves that the best score beats leaves the best score
/// what it was.
pub proof fn lemma_pruned_keeps_best<T: PartialOrd>(moves: Seq<NodeView<T>>, maximize: bool)
    requires
        in_line::<T>(),
        best_child(moves, maximize, moves.len() as int) is Some,
    ensures
        best_child(
            pruned(moves, maximize, best_child(moves, maximize, moves.len() as int).unwrap()),
            maximize,
            moves.len() as int,
        ) == best_child(moves, maximize, moves.len() as int),
{
    lemma_better_in_line::<T>(maximize);    let len = moves.len() as int;
    let best = best_child(moves, maximize, len).unwrap();
    let cut = pruned(moves, maximize, best);
    lemma_best_child_is_best(moves, maximize, len);
    let holder = choose|holder: int|
        0 <= holder < len && (#[trigger] moves[holder]) is State && moves[holder]->score == best;
    assert(cut[holder] == moves[holder]);
    assert forall|other: int| 0 <= other < len && (#[trigger] cut[other]) is State implies !better(
        maximize,
        cut[other]->score,
        cut[holder]->score,
    ) by {
        assert(moves[other] is State);
        assert(cut[other] == moves[other]);
    }
    lemma_best_child_found(cut, maximize, len, holder);
}

/// No more paths wait below a position than below the position above it.
pub proof fn lemma_below_deeper(queue: Seq<Seq<(u8, u8)>>, at: Seq<(u8, u8)>, c: (u8, u8))
    ensures
        below(queue, at.push(c)) <= below(queue, at),
    decreases queue.len(),
{
    if queue.len() > 0 {
        lemma_below_deeper(queue.drop_last(), at, c);
        let q = queue.last();
        if strictly_under(at.push(c), q) {
            assert(q.take(at.len() as int) =~= q.take(at.len() as int + 1).take(at.len() as int));
            assert(at.push(c).take(at.len() as int) =~= at);
        }
    }
}

/// A cell of one kind is listed among the cells of that kind.
pub proof fn lemma_cells_of_kind_complete(
    cells: Seq<GridCell>,
    width: int,
    player: u8,
    kind: CellKind,
    upto: int,
    place: int,
)
    requires
        0 <= place < upto <= cells.len(),
        is_kind(cells[place], player, kind),
    ensures
        exists|i: int|
            0 <= i < cells_of_kind_upto(cells, width, player, kind, upto).len()
                && #[trigger] cells_of_kind_upto(cells, width, player, kind, upto)[i] == coords(
                width,
                place,
            ),
    decreases upto,
{
    let now = cells_of_kind_upto(cells, width, player, kind, upto);
    if place == upto - 1 {
        assert(now[now.len() - 1] == coords(width, place));
    } else {
        lemma_cells_of_kind_complete(cells, width, player, kind, upto - 1, place);
        let earlier = cells_of_kind_upto(cells, width, player, kind, upto - 1);
        let i = choose|i: int| 0 <= i < earlier.len() && #[trigger] earlier[i] == coords(width, place);
        assert(now[i] == coords(width, place));
    }
}

/// Where the next player can move on none of the first `upto` cells, plain
/// enumeration finds no score among them.
pub proof fn lemma_best_value_none<T: PartialOrd>(
    f: spec_fn(Option<Board>, u8, u8) -> T,
    b: Board,
    depth: int,
    mover: u8,
    tint: u8,
    me: u8,
    players: u8,
    max_depth: int,
    upto: int,
)
    requires
        0 <= upto <= b.cells.len(),
        forall|place: int|
            0 <= place < upto ==> !#[trigger] playable_at(b, place, next_player(mover, players)),
    ensures
        best_value(f, b, depth, mover, tint, me, players, max_depth, upto) is None,
    decreases upto,
{
    if upto > 0 {
        lemma_best_value_none(f, b, depth, mover, tint, me, players, max_depth, upto - 1);
        assert(!playable_at(b, upto - 1, next_player(mover, players)));
    }
}

/// Where exactly the moves that the next player can make have been tried, and
/// each has the score that plain enumeration gives it, the best score among
/// the tried moves is the best score by plain enumeration.
pub proof fn lemma_best_matches<T: PartialOrd>(
    f: spec_fn(Option<Board>, u8, u8) -> T,
    moves: Seq<NodeView<T>>,
    b: Board,
    depth: int,
    mover: u8,
    tint: u8,
    me: u8,
    players: u8,
    max_depth: int,
    upto: int,
)
    requires
        0 <= upto <= moves.len(),
        moves.len() == b.cells.len(),
        depth < max_depth,
        forall|place: int|
            0 <= place < upto ==> ((#[trigger] moves[place]) is State <==> playable_at(
                b,
                place,
                next_player(mover, players),
            )),
        forall|place: int|
            0 <= place < upto && (#[trigger] moves[place]) is State ==> moves[place]->score
                == exhaustive(
                f,
                tried_board(b, coords(b.width as int, place), next_player(mover, players)),
                depth + 1,
                next_player(mover, players),
                next_player(tint, players),
                me,
                players,
                max_depth,
            ),
    ensures
        best_child(moves, tint == me, upto) == best_value(
            f,
            b,
            depth,
            mover,
            tint,
            me,
            players,
            max_depth,
            upto,
        ),
    decreases upto,
{
    if upto > 0 {
        lemma_best_matches(f, moves, b, depth, mover, tint, me, players, max_depth, upto - 1);
        assert(moves[upto - 1] is State <==> playable_at(
            b,
            upto - 1,
            next_player(mover, players),
        ));
    }
}

/// What stays the same for a whole search: the function that scores
/// positions, the player searched for, the number of players and the depth
/// limit.
pub struct Rules<T> {
    pub f: spec_fn(Option<Board>, u8, u8) -> T,
    pub me: u8,
    pub players: u8,
    pub max_depth: int,
}

/// The score of a position by plain enumeration under the rules `r`.
pub open spec fn full_score<T: PartialOrd>(
    r: Rules<T>,
    board: Option<Board>,
    depth: int,
    mover: u8,
    tint: u8,
) -> T {
    exhaustive(r.f, board, depth, mover, tint, r.me, r.players, r.max_depth)
}

/// What the search keeps true of the part of the tree below the position at
/// `at`, whose board should be `board`, reached by a move of `mover`, with
/// `tint` to move as the scores see it:
///
/// - the position holds that board;
/// - a position that is not searched further has no moves and the score that
///   the rules give it;
/// - a position that is searched further has tried only moves that the next
///   player can make; each such move has been tried, or waits, or no path
///   waits below the position at all; a move that waits has not been tried;
/// - its score is the best among its tried moves, or the score that the rules
///   give it while none has been tried;
/// - once no path waits below it, its score is the score by plain
///   enumeration, and the best score among its tried moves is the best score
///   by plain enumeration among the moves that the next player can make;
/// - and the same holds below each of its moves.
pub open spec fn faithful<T: PartialOrd>(
    r: Rules<T>,
    node: NodeView<T>,
    queue: Seq<Seq<(u8, u8)>>,
    at: Seq<(u8, u8)>,
    board: Option<Board>,
    mover: u8,
    tint: u8,
) -> bool
    decreases node,
{
    match node {
        NodeView::Vacant => true,
        NodeView::State { board: held, moves, score, pending } => {
            &&& held == board
            &&& if !expands(board, at.len() as int, r.max_depth) {
                moves.len() == 0 && score == (r.f)(board, mover, r.me)
            } else {
                let b = board.unwrap();
                let cur = next_player(mover, r.players);
                &&& moves.len() == b.cells.len()
                &&& score == match best_child(moves, tint == r.me, moves.len() as int) {
                    Some(v) => v,
                    None => (r.f)(board, mover, r.me),
                }
                &&& below(queue, at) == 0 ==> score == full_score(
                    r,
                    board,
                    at.len() as int,
                    mover,
                    tint,
                )
                &&& below(queue, at) == 0 ==> best_child(moves, tint == r.me, moves.len() as int)
                    == best_value(
                    r.f,
                    b,
                    at.len() as int,
                    mover,
                    tint,
                    r.me,
                    r.players,
                    r.max_depth,
                    b.cells.len() as int,
                )
                &&& forall|place: int|
                    0 <= place < moves.len() ==> {
                        let child_at = at.push(coords(b.width as int, place));
                        &&& (#[trigger] moves[place]) is State ==> playable_at(b, place, cur)
                        &&& queued(queue, child_at) ==> playable_at(b, place, cur)
                            && moves[place] is Vacant
                        &&& playable_at(b, place, cur) ==> moves[place] is State || queued(
                            queue,
                            child_at,
                        ) || below(queue, at) == 0
                        &&& faithful(
                            r,
                            moves[place],
                            queue,
                            child_at,
                            tried_board(b, coords(b.width as int, place), cur),
                            cur,
                            next_player(tint, r.players),
                        )
                    }
            }
        },
    }
}

/// A position that has been tried and has no path waiting below it has the
/// score that plain enumeration gives it.
pub proof fn lemma_faithful_complete<T: PartialOrd>(
    r: Rules<T>,
    node: NodeView<T>,
    queue: Seq<Seq<(u8, u8)>>,
    at: Seq<(u8, u8)>,
    board: Option<Board>,
    mover: u8,
    tint: u8,
)
    requires
        faithful(r, node, queue, at, board, mover, tint),
        node is State,
        below(queue, at) == 0,
    ensures
        node->score == full_score(r, board, at.len() as int, mover, tint),
{
}

/// The part of the tree below a position stays faithful when the waiting
/// paths change, as long as nothing changes for the paths that lead to that
/// position or below it.
pub proof fn lemma_faithful_requeue<T: PartialOrd>(
    r: Rules<T>,
    node: NodeView<T>,
    before: Seq<Seq<(u8, u8)>>,
    after: Seq<Seq<(u8, u8)>>,
    at: Seq<(u8, u8)>,
    board: Option<Board>,
    mover: u8,
    tint: u8,
)
    requires
        faithful(r, node, before, at, board, mover, tint),
        forall|e: Seq<(u8, u8)>| #[trigger]
            is_prefix(at, e) ==> queued(after, e) == queued(before, e) && below(after, e) == below(
                before,
                e,
            ),
    ensures
        faithful(r, node, after, at, board, mover, tint),
    decreases node,
{
    match node {
        NodeView::Vacant => {},
        NodeView::State { board: held, moves, score, pending } => {
            if expands(board, at.len() as int, r.max_depth) {
                let b = board.unwrap();
                let cur = next_player(mover, r.players);
                assert(at.take(at.len() as int) =~= at);
                assert(is_prefix(at, at));
                assert forall|place: int| 0 <= place < moves.len() implies {
                    let child_at = at.push(coords(b.width as int, place));
                    &&& (#[trigger] moves[place]) is State ==> playable_at(b, place, cur)
                    &&& queued(after, child_at) ==> playable_at(b, place, cur)
                        && moves[place] is Vacant
                    &&& playable_at(b, place, cur) ==> moves[place] is State || queued(
                        after,
                        child_at,
                    ) || below(after, at) == 0
                    &&& faithful(
                        r,
                        moves[place],
                        after,
                        child_at,
                        tried_board(b, coords(b.width as int, place), cur),
                        cur,
                        next_player(tint, r.players),
                    )
                } by {
                    let child_at = at.push(coords(b.width as int, place));
                    assert(child_at.take(at.len() as int) =~= at);
                    assert(is_prefix(at, child_at));
                    assert forall|e: Seq<(u8, u8)>| #[trigger]
                        is_prefix(child_at, e) implies queued(after, e) == queued(before, e)
                        && below(after, e) == below(before, e) by {
                        assert(e.take(at.len() as int) =~= e.take(child_at.len() as int).take(
                            at.len() as int,
                        ));
                        assert(is_prefix(at, e));
                    }
                    lemma_faithful_requeue(
                        r,
                        moves[place],
                        before,
                        after,
                        child_at,
                        tried_board(b, coords(b.width as int, place), cur),
                        cur,
                        next_player(tint, r.players),
                    );
                }
            }
        },
    }
}

/// A path that waits in one of two lists waits in the two lists put
/// together, and the other way round.
pub proof fn lemma_queued_add(a: Seq<Seq<(u8, u8)>>, b: Seq<Seq<(u8, u8)>>, q: Seq<(u8, u8)>)
    ensures
        queued(a + b, q) == (queued(a, q) || queued(b, q)),
{
    let joined = a + b;
    if queued(a, q) {
        let j = choose|j: int| 0 <= j < a.len() && #[trigger] a[j] =~= q;
        assert(joined[j] =~= q);
    }
    if queued(b, q) {
        let j = choose|j: int| 0 <= j < b.len() && #[trigger] b[j] =~= q;
        assert(joined[a.len() + j] =~= q);
    }
    if queued(joined, q) {
        let j = choose|j: int| 0 <= j < joined.len() && #[trigger] joined[j] =~= q;
        if j < a.len() {
            assert(a[j] =~= q);
        } else {
            assert(b[j - a.len()] =~= q);
        }
    }
}

/// For a path that leaves the path `p` before its end, nothing changes when
/// `p` gives way to the paths one move further.
pub proof fn lemma_off_path(
    rest: Seq<Seq<(u8, u8)>>,
    p: Seq<(u8, u8)>,
    cells: Seq<(u8, u8)>,
    e: Seq<(u8, u8)>,
    depth: int,
)
    requires
        0 <= depth < p.len(),
        depth < e.len(),
        e[depth] != p[depth],
    ensures
        queued(rest + child_paths(p, cells), e) == queued(rest.push(p), e),
        below(rest + child_paths(p, cells), e) == below(rest.push(p), e),
{
    let before = rest.push(p);
    let kids = child_paths(p, cells);
    assert(before =~= rest + seq![p]);
    lemma_queued_add(rest, kids, e);
    lemma_queued_add(rest, seq![p], e);
    if queued(kids, e) {
        let j = choose|j: int| 0 <= j < kids.len() && #[trigger] kids[j] =~= e;
        assert(kids[j][depth] == p[depth]);
    }
    if queued(seq![p], e) {
        let j = choose|j: int| 0 <= j < 1 && #[trigger] seq![p][j] =~= e;
    }
    lemma_below_children(rest, p, cells, e);
    assert(before.drop_last() =~= rest);
    assert(before.last() == p);
    if e.len() <= p.len() && p.take(e.len() as int) =~= e {
        assert(p.take(e.len() as int)[depth] == p[depth]);
    }
}

/// Where no move has been tried, there is no best score.
pub proof fn lemma_best_child_vacant<T: PartialOrd>(moves: Seq<NodeView<T>>, maximize: bool, upto: int)
    requires
        0 <= upto <= moves.len(),
        forall|place: int| 0 <= place < upto ==> (#[trigger] moves[place]) is Vacant,
    ensures
        best_child(moves, maximize, upto) is None,
    decreases upto,
{
    if upto > 0 {
        lemma_best_child_vacant(moves, maximize, upto - 1);
        assert(moves[upto - 1] is Vacant);
    }
}

/// A position that has just been tried is faithful once the paths one move
/// further wait: its score is the score that the rules give it, and each
/// move that the next player can make waits.
pub proof fn lemma_leaf_faithful<T: PartialOrd>(
    r: Rules<T>,
    rest: Seq<Seq<(u8, u8)>>,
    p: Seq<(u8, u8)>,
    board: Option<Board>,
    mover: u8,
    tint: u8,
    score: T,
)
    requires
        score == (r.f)(board, mover, r.me),
        r.players > 0,
        board matches Some(b) ==> b.cells.len() == b.width * b.height,
        forall|j: int| 0 <= j < rest.len() ==> !is_prefix(p, #[trigger] rest[j]),
    ensures
        faithful(
            r,
            fresh_leaf(board, score, p.len() as int, r.max_depth, next_player(mover, r.players)),
            rest + child_paths(
                p,
                reach_cells(board, p.len() as int, r.max_depth, next_player(mover, r.players)),
            ),
            p,
            board,
            mover,
            tint,
        ),
{
    let cur = next_player(mover, r.players);
    let cells = reach_cells(board, p.len() as int, r.max_depth, cur);
    let kids = child_paths(p, cells);
    let after = rest + kids;
    let leaf = fresh_leaf(board, score, p.len() as int, r.max_depth, cur);
    if expands(board, p.len() as int, r.max_depth) {
        let b = board.unwrap();
        let w = b.width as int;
        let h = b.height as int;
        let moves = leaf->moves;
        lemma_best_child_vacant(moves, tint == r.me, moves.len() as int);
        lemma_below_children(rest, p, cells, p);
        assert(p.take(p.len() as int) =~= p);
        assert forall|j: int| 0 <= j < rest.len() implies !strictly_under(p, #[trigger] rest[j]) by {
            if strictly_under(p, rest[j]) {
                assert(is_prefix(p, rest[j]));
            }
        }
        crate::ai::track::lemma_below_none(rest, p);
        assert(below(after, p) == cells.len());
        if cells.len() == 0 {
            crate::scan::lemma_cells_of_kind_none(
                b.cells,
                w,
                cur,
                CellKind::Playable,
                b.cells.len() as int,
            );
            lemma_best_value_none(
                r.f,
                b,
                p.len() as int,
                mover,
                tint,
                r.me,
                r.players,
                r.max_depth,
                b.cells.len() as int,
            );
        }
        assert forall|place: int| 0 <= place < moves.len() implies {
            let child_at = p.push(coords(w, place));
            &&& (#[trigger] moves[place]) is State ==> playable_at(b, place, cur)
            &&& queued(after, child_at) ==> playable_at(b, place, cur) && moves[place] is Vacant
            &&& playable_at(b, place, cur) ==> moves[place] is State || queued(after, child_at)
                || below(after, p) == 0
            &&& faithful(
                r,
                moves[place],
                after,
                child_at,
                tried_board(b, coords(w, place), cur),
                cur,
                next_player(tint, r.players),
            )
        } by {
            let child_at = p.push(coords(w, place));
            lemma_queued_add(rest, kids, child_at);
            assert(w > 0 && h > 0) by (nonlinear_arith)
                requires
                    w * h > 0,
                    w >= 0,
                    h >= 0,
            ;
            lemma_cell_index_join(w, h, place);
            if queued(after, child_at) {
                if queued(rest, child_at) {
                    let j = choose|j: int| 0 <= j < rest.len() && #[trigger] rest[j] =~= child_at;
                    assert(child_at.take(p.len() as int) =~= p);
                    assert(is_prefix(p, rest[j]));
                }
                let i = choose|i: int| 0 <= i < kids.len() && #[trigger] kids[i] =~= child_at;
                assert(kids[i][p.len() as int] == cells[i]);
                assert(child_at[p.len() as int] == coords(w, place));
                crate::scan::lemma_cells_of_kind_sound(
                    b.cells,
                    w,
                    cur,
                    CellKind::Playable,
                    b.cells.len() as int,
                    i,
                );
                let found = choose|found: int|
                    0 <= found < b.cells.len() && is_kind(
                        #[trigger] b.cells[found],
                        cur,
                        CellKind::Playable,
                    ) && cells[i] == coords(w, found);
                lemma_cell_index_join(w, h, found);
                assert(found == place);
            }
            if playable_at(b, place, cur) {
                lemma_cells_of_kind_complete(
                    b.cells,
                    w,
                    cur,
                    CellKind::Playable,
                    b.cells.len() as int,
                    place,
                );
                let i = choose|i: int|
                    0 <= i < cells.len() && #[trigger] cells[i] == coords(w, place);
                assert(kids[i] =~= child_at);
            }
        }
    }
}

/// What `faithful` asks of the move on the cell stored at `place`, below a
/// position at `at` with the board `b`.
pub open spec fn move_faithful<T: PartialOrd>(
    r: Rules<T>,
    child: NodeView<T>,
    queue: Seq<Seq<(u8, u8)>>,
    at: Seq<(u8, u8)>,
    b: Board,
    place: int,
    mover: u8,
    tint: u8,
) -> bool {
    let cur = next_player(mover, r.players);
    let child_at = at.push(coords(b.width as int, place));
    &&& child is State ==> playable_at(b, place, cur)
    &&& queued(queue, child_at) ==> playable_at(b, place, cur) && child is Vacant
    &&& playable_at(b, place, cur) ==> child is State || queued(queue, child_at) || below(
        queue,
        at,
    ) == 0
    &&& faithful(
        r,
        child,
        queue,
        child_at,
        tried_board(b, coords(b.width as int, place), cur),
        cur,
        next_player(tint, r.players),
    )
}

/// A move that was tried or waited on a cell other than the one that the
/// path `p` goes on with is as faithful after the step as before.
pub proof fn lemma_side_move_faithful<T: PartialOrd>(
    r: Rules<T>,
    child: NodeView<T>,
    rest: Seq<Seq<(u8, u8)>>,
    p: Seq<(u8, u8)>,
    cells: Seq<(u8, u8)>,
    depth: int,
    b: Board,
    place: int,
    mover: u8,
    tint: u8,
)
    requires
        0 <= depth < p.len(),
        0 < b.width,
        0 < b.height,
        b.cells.len() == b.width * b.height,
        0 <= place < b.cells.len(),
        p[depth].0 < b.width,
        p[depth].1 < b.height,
        place != slot(b.width, p[depth]),
        move_faithful(r, child, rest.push(p), p.take(depth), b, place, mover, tint),
    ensures
        faithful(
            r,
            child,
            rest + child_paths(p, cells),
            p.take(depth).push(coords(b.width as int, place)),
            tried_board(b, coords(b.width as int, place), next_player(mover, r.players)),
            next_player(mover, r.players),
            next_player(tint, r.players),
        ),
        queued(rest + child_paths(p, cells), p.take(depth).push(coords(b.width as int, place)))
            == queued(rest.push(p), p.take(depth).push(coords(b.width as int, place))),
{
    let w = b.width as int;
    let h = b.height as int;
    let before = rest.push(p);
    let after = rest + child_paths(p, cells);
    let here = p.take(depth);
    let c = coords(w, place);
    let child_at = here.push(c);
    let cur = next_player(mover, r.players);
    lemma_cell_index_join(w, h, place);
    lemma_cell_index_split(w, p[depth].0 as int, p[depth].1 as int);
    assert(c != p[depth]);
    assert(child_at[depth] == c);
    lemma_off_path(rest, p, cells, child_at, depth);
    assert forall|e: Seq<(u8, u8)>| #[trigger] is_prefix(child_at, e) implies queued(after, e)
        == queued(before, e) && below(after, e) == below(before, e) by {
        assert(e.take(child_at.len() as int)[depth] == child_at[depth]);
        lemma_off_path(rest, p, cells, e, depth);
    }
    lemma_faithful_requeue(
        r,
        child,
        before,
        after,
        child_at,
        tried_board(b, c, cur),
        cur,
        next_player(tint, r.players),
    );
}

/// What holds of each move of a position on the path right after the step,
/// before anything is cut away: `move_faithful`, and a move that the next
/// player can make has been tried or waits.
pub open spec fn move_kept<T: PartialOrd>(
    r: Rules<T>,
    child: NodeView<T>,
    queue: Seq<Seq<(u8, u8)>>,
    at: Seq<(u8, u8)>,
    b: Board,
    place: int,
    mover: u8,
    tint: u8,
) -> bool {
    &&& move_faithful(r, child, queue, at, b, place, mover, tint)
    &&& playable_at(b, place, next_player(mover, r.players)) ==> child is State || queued(
        queue,
        at.push(coords(b.width as int, place)),
    )
}

/// A position whose moves are all kept as `move_kept` says, one of them
/// tried, is faithful once it has been settled.
pub proof fn lemma_settled_faithful<T: PartialOrd>(
    r: Rules<T>,
    queue: Seq<Seq<(u8, u8)>>,
    at: Seq<(u8, u8)>,
    board: Option<Board>,
    moves: Seq<NodeView<T>>,
    score: T,
    pending: nat,
    mover: u8,
    tint: u8,
    tried: int,
)
    requires
        in_line::<T>(),
        expands(board, at.len() as int, r.max_depth),
        moves.len() == board.unwrap().cells.len(),
        pending == below(queue, at),
        0 <= tried < moves.len(),
        moves[tried] is State,
        forall|place: int|
            0 <= place < moves.len() ==> move_kept(
                r,
                #[trigger] moves[place],
                queue,
                at,
                board.unwrap(),
                place,
                mover,
                tint,
            ),
    ensures
        faithful(
            r,
            settled_node(board, moves, score, pending, tint == r.me),
            queue,
            at,
            board,
            mover,
            tint,
        ),
{
    let b = board.unwrap();
    let w = b.width as int;
    let len = moves.len() as int;
    let cur = next_player(mover, r.players);
    let maximize = tint == r.me;
    let after = settled_node(board, moves, score, pending, maximize);
    lemma_best_child_is_best(moves, maximize, len);
    assert(best_child(moves, maximize, len) is Some);
    let best = best_child(moves, maximize, len).unwrap();
    if pending == 0 {
        lemma_pruned_keeps_best(moves, maximize);
        // Every move that the next player can make has been tried, and has the score
        // that plain enumeration gives it.
        assert forall|place: int| 0 <= place < len implies ((#[trigger] moves[place]) is State
            <==> playable_at(b, place, cur)) && (moves[place] is State ==> moves[place]->score
            == exhaustive(
            r.f,
            tried_board(b, coords(w, place), cur),
            at.len() as int + 1,
            cur,
            next_player(tint, r.players),
            r.me,
            r.players,
            r.max_depth,
        )) by {
            let child_at = at.push(coords(w, place));
            assert(move_kept(r, moves[place], queue, at, b, place, mover, tint));
            lemma_below_deeper(queue, at, coords(w, place));
            if queued(queue, child_at) {
                let j = choose|j: int| 0 <= j < queue.len() && #[trigger] queue[j] =~= child_at;
                assert(child_at.take(at.len() as int) =~= at);
                crate::ai::track::lemma_below_member(queue, at, j);
            }
            if moves[place] is State {
                lemma_faithful_complete(
                    r,
                    moves[place],
                    queue,
                    child_at,
                    tried_board(b, coords(w, place), cur),
                    cur,
                    next_player(tint, r.players),
                );
            }
        }
        lemma_best_matches(
            r.f,
            moves,
            b,
            at.len() as int,
            mover,
            tint,
            r.me,
            r.players,
            r.max_depth,
            len,
        );
        let cut = pruned(moves, maximize, best);
        assert(after->moves == cut);
        assert forall|place: int| 0 <= place < cut.len() implies move_faithful(
            r,
            #[trigger] cut[place],
            queue,
            at,
            b,
            place,
            mover,
            tint,
        ) by {
            assert(move_kept(r, moves[place], queue, at, b, place, mover, tint));
        }
    } else {
        assert(after->moves == moves);
        assert forall|place: int| 0 <= place < len implies move_faithful(
            r,
            #[trigger] moves[place],
            queue,
            at,
            b,
            place,
            mover,
            tint,
        ) by {
            assert(move_kept(r, moves[place], queue, at, b, place, mover, tint));
        }
    }
}

/// The tree below a position on the path stays faithful through a step of
/// the search: the position tried enters with the score that the rules give
/// it, and every position above it is settled again.
pub proof fn lemma_grown_faithful<T: PartialOrd>(
    r: Rules<T>,
    node: NodeView<T>,
    p: Seq<(u8, u8)>,
    depth: int,
    leaf_board: Option<Board>,
    score: T,
    rest: Seq<Seq<(u8, u8)>>,
    shape: Board,
    board: Option<Board>,
    mover: u8,
    tint: u8,
)
    requires
        in_line::<T>(),
        0 <= depth < p.len(),
        r.players > 0,
        r.players == shape.players,
        prefix_free(rest.push(p)),
        on_track(node, rest.push(p), p, depth, shape),
        faithful(r, node, rest.push(p), p.take(depth), board, mover, tint),
        last_board(node, p, depth) is Some,
        leaf_board == tried_board(
            last_board(node, p, depth).unwrap(),
            p[p.len() - 1],
            mover_after(mover, r.players, p.len() - depth),
        ),
        leaf_board matches Some(b) ==> b.cells.len() == b.width * b.height,
        score == (r.f)(leaf_board, mover_after(mover, r.players, p.len() - depth), r.me),
    ensures
        ({
            let by = mover_after(mover, r.players, p.len() - depth);
            let next = next_player(by, r.players);
            let cells = reach_cells(leaf_board, p.len() as int, r.max_depth, next);
            let leaf = fresh_leaf(leaf_board, score, p.len() as int, r.max_depth, next);
            faithful(
                r,
                grown(node, p, depth, leaf, cells.len(), tint, r.me, r.players),
                rest + child_paths(p, cells),
                p.take(depth),
                board,
                mover,
                tint,
            )
        }),
    decreases p.len() - depth,
{
    let by = mover_after(mover, r.players, p.len() - depth);
    let next = next_player(by, r.players);
    let cells = reach_cells(leaf_board, p.len() as int, r.max_depth, next);
    let leaf = fresh_leaf(leaf_board, score, p.len() as int, r.max_depth, next);
    let before = rest.push(p);
    let kids = child_paths(p, cells);
    let after = rest + kids;
    let here = p.take(depth);
    let cur = next_player(mover, r.players);
    let next_tint = next_player(tint, r.players);
    assert(before.drop_last() =~= rest);
    assert(before.last() == p);
    assert(before[before.len() - 1] == p);
    assert(p.take(here.len() as int) =~= here);
    match node {
        NodeView::Vacant => {},
        NodeView::State { board: held, moves, score: old_score, pending } => {
            let b = held.unwrap();
            let w = b.width as int;
            let h = b.height as int;
            let at = slot(b.width, p[depth]);
            lemma_cell_index_in_range(w, h, p[depth].0 as int, p[depth].1 as int);
            lemma_cell_index_split(w, p[depth].0 as int, p[depth].1 as int);
            assert(coords(w, at) == p[depth]);
            assert(here.push(p[depth]) =~= p.take(depth + 1));
            assert(moves.len() > 0);
            assert(expands(board, depth, r.max_depth));
            assert(faithful(
                r,
                moves[at],
                before,
                p.take(depth + 1),
                tried_board(b, p[depth], cur),
                cur,
                next_tint,
            ));
            // The paths that wait below this position, before and after the step.
            lemma_below_children(rest, p, cells, here);
            let left = (pending - 1 + cells.len()) as nat;
            assert(left == below(after, here));
            // No waiting path leads to the end of the path tried or through it.
            assert forall|j: int| 0 <= j < rest.len() implies !is_prefix(p, #[trigger] rest[j]) by {
                assert(rest[j] == before[j]);
            }
            let child = if depth + 1 == p.len() {
                leaf
            } else {
                grown(moves[at], p, depth + 1, leaf, cells.len(), next_tint, r.me, r.players)
            };
            if depth + 1 == p.len() {
                assert(p.take(depth + 1) =~= p);
                assert(mover_after(cur, r.players, 0) == cur);
                assert(mover_after(mover, r.players, 1) == mover_after(cur, r.players, 0));
                assert(by == cur);
                lemma_leaf_faithful(r, rest, p, leaf_board, cur, next_tint, score);
            } else {
                assert(mover_after(cur, r.players, p.len() - depth - 1) == by);
                lemma_grown_faithful(
                    r,
                    moves[at],
                    p,
                    depth + 1,
                    leaf_board,
                    score,
                    rest,
                    shape,
                    tried_board(b, p[depth], cur),
                    cur,
                    next_tint,
                );
            }
            assert(child is State);
            assert(faithful(
                r,
                child,
                after,
                p.take(depth + 1),
                tried_board(b, p[depth], cur),
                cur,
                next_tint,
            ));
            let moves1 = moves.update(at, child);
            // The path up to here and one move on does not wait after the step.
            assert(!queued(after, p.take(depth + 1))) by {
                lemma_queued_add(rest, kids, p.take(depth + 1));
                if queued(rest, p.take(depth + 1)) {
                    let j = choose|j: int|
                        0 <= j < rest.len() && #[trigger] rest[j] =~= p.take(depth + 1);
                    assert(rest[j] == before[j]);
                    assert(p.take(rest[j].len() as int) =~= rest[j]);
                    assert(is_prefix(before[j], before[before.len() - 1]));
                }
                if queued(kids, p.take(depth + 1)) {
                    let i = choose|i: int|
                        0 <= i < kids.len() && #[trigger] kids[i] =~= p.take(depth + 1);
                    assert(kids[i].len() == p.len() + 1);
                }
            }
            // The move that the path goes on with may be made by the next player.
            assert(playable_at(b, at, cur)) by {
                if depth + 1 == p.len() {
                    assert(before[before.len() - 1] =~= here.push(coords(w, at)));
                    assert(queued(before, here.push(coords(w, at))));
                } else {
                    assert(moves[at] is State);
                }
            }
            assert forall|place: int| 0 <= place < moves1.len() implies move_kept(
                r,
                #[trigger] moves1[place],
                after,
                here,
                b,
                place,
                mover,
                tint,
            ) by {
                if place == at {
                    assert(moves1[place] == child);
                } else {
                    assert(moves1[place] == moves[place]);
                    assert(move_faithful(r, moves[place], before, here, b, place, mover, tint));
                    lemma_side_move_faithful(
                        r,
                        moves[place],
                        rest,
                        p,
                        cells,
                        depth,
                        b,
                        place,
                        mover,
                        tint,
                    );
                    crate::ai::track::lemma_below_member(before, here, before.len() - 1);
                }
            }
            lemma_settled_faithful(
                r,
                after,
                here,
                board,
                moves1,
                old_score,
                left,
                mover,
                tint,
                at,
            );
        },
    }
}

/// Whether a path waits does not depend on which path stands first in the
/// line.
pub proof fn lemma_queued_turned(queue: Seq<Seq<(u8, u8)>>, q: Seq<(u8, u8)>)
    requires
        queue.len() > 0,
    ensures
        queued(turned(queue), q) == queued(queue, q),
{
    let after = turned(queue);
    if queued(queue, q) {
        let j = choose|j: int| 0 <= j < queue.len() && #[trigger] queue[j] =~= q;
        if j == 0 {
            assert(after[after.len() - 1] =~= q);
        } else {
            assert(after[j - 1] =~= q);
        }
    }
    if queued(after, q) {
        let j = choose|j: int| 0 <= j < after.len() && #[trigger] after[j] =~= q;
        if j == after.len() - 1 {
            assert(queue[0] =~= q);
        } else {
            assert(queue[j + 1] =~= q);
        }
    }
}

/// The tree stays faithful when another path stands first in the line.
pub proof fn lemma_faithful_turned<T: PartialOrd>(
    r: Rules<T>,
    node: NodeView<T>,
    queue: Seq<Seq<(u8, u8)>>,
    at: Seq<(u8, u8)>,
    board: Option<Board>,
    mover: u8,
    tint: u8,
)
    requires
        queue.len() > 0,
        faithful(r, node, queue, at, board, mover, tint),
    ensures
        faithful(r, node, turned(queue), at, board, mover, tint),
{
    assert forall|e: Seq<(u8, u8)>| #[trigger] is_prefix(at, e) implies queued(turned(queue), e)
        == queued(queue, e) && below(turned(queue), e) == below(queue, e) by {
        lemma_queued_turned(queue, e);
        lemma_below_turned(queue, e);
    }
    lemma_faithful_requeue(r, node, queue, turned(queue), at, board, mover, tint);
}

/// The rules of the search `s` when positions are scored by `f` down to
/// `max_depth` moves.
pub open spec fn rules_of<T: PartialOrd>(
    s: SearchView<T>,
    f: spec_fn(Option<Board>, u8, u8) -> T,
    max_depth: int,
) -> Rules<T> {
    Rules { f, me: s.me, players: s.board.unwrap().players, max_depth }
}

/// The score of the position that the search starts from, by plain
/// enumeration.
pub open spec fn root_score<T: PartialOrd>(
    s: SearchView<T>,
    f: spec_fn(Option<Board>, u8, u8) -> T,
    max_depth: int,
) -> T {
    exhaustive(
        f,
        s.board,
        0,
        before_me(s.me, s.board.unwrap().players),
        s.me,
        s.me,
        s.board.unwrap().players,
        max_depth,
    )
}

/// The scores in the tree are what a search that scores positions by `f`
/// has made them: either only the empty path waits and nothing has been
/// tried yet, or the whole tree is faithful.
pub open spec fn sound<T: PartialOrd>(
    s: SearchView<T>,
    f: spec_fn(Option<Board>, u8, u8) -> T,
    max_depth: int,
) -> bool {
    s.queue =~= seq![Seq::<(u8, u8)>::empty()] || faithful(
        rules_of(s, f, max_depth),
        s.root,
        s.queue,
        Seq::empty(),
        s.board,
        before_me(s.me, s.board.unwrap().players),
        s.me,
    )
}

/// The position that the search tries next has a board at rest, if the game
/// is not decided there.
pub proof fn lemma_probe_rests<T: PartialOrd>(s: SearchView<T>)
    requires
        searchable(s),
        s.queue.len() > 0,
    ensures
        probe_board(s) matches Some(b) ==> board_settled(b),
{
    let p = s.queue.first();
    assert(s.queue[0] == p);
    if p.len() > 0 {
        let shape = s.board.unwrap();
        lemma_last_board_shape(s.root, s.queue, p, 0, shape);
        let parent = last_board(s.root, p, 0).unwrap();
        lemma_move_outcome_rests(
            parent.cells,
            parent.width as int,
            parent.height as int,
            p.last().0,
            p.last().1,
            probe_mover(s),
        );
    }
}

/// A search that has just been given its board is sound, whatever its tree
/// holds.
pub proof fn lemma_seeded_sound<T: PartialOrd>(
    s: SearchView<T>,
    f: spec_fn(Option<Board>, u8, u8) -> T,
    max_depth: int,
)
    requires
        s.queue =~= seq![Seq::<(u8, u8)>::empty()],
    ensures
        sound(s, f, max_depth),
{
}

/// A step of the search in which the position tried gets the score that `f`
/// gives it keeps the search sound, and keeps what the search relies on.
pub proof fn lemma_stepped_sound<T: PartialOrd>(
    s: SearchView<T>,
    f: spec_fn(Option<Board>, u8, u8) -> T,
    max_depth: int,
    score: T,
)
    requires
        in_line::<T>(),
        searchable(s),
        sound(s, f, max_depth),
        s.queue.len() > 0,
        max_depth <= 255,
        score == f(probe_board(s), probe_mover(s), s.me),
    ensures
        searchable(stepped(s, max_depth, score)),
        sound(stepped(s, max_depth, score), f, max_depth),
{
    let p = s.queue.first();
    let rest = s.queue.drop_first();
    let shape = s.board.unwrap();
    let r = rules_of(s, f, max_depth);
    let start = before_me(s.me, shape.players);
    lemma_probe_rests(s);
    lemma_stepped_searchable(s, max_depth, score);
    assert(turned(s.queue) == rest.push(p));
    assert(s.queue[0] == p);
    lemma_turned_prefix_free(s.queue);
    lemma_on_track_turned(s.root, s.queue, p, 0, shape);
    assert forall|j: int| 0 <= j < rest.len() implies !is_prefix(p, #[trigger] rest[j]) by {
        assert(rest[j] == s.queue[j + 1]);
        assert(!is_prefix(s.queue[0], s.queue[j + 1]));
    }
    let after = stepped(s, max_depth, score);
    let cells = probe_cells(s, max_depth);
    assert(rules_of(after, f, max_depth) == r);
    assert(after.queue == rest + child_paths(p, cells));
    if p.len() == 0 {
        assert(mover_after(start, shape.players, 0) == start);
        assert(probe_mover(s) == start);
        assert(probe_board(s) == s.board);
        lemma_leaf_faithful(r, rest, p, s.board, start, s.me, score);
        assert(p =~= Seq::<(u8, u8)>::empty());
        assert(after.root == fresh_leaf(
            s.board,
            score,
            p.len() as int,
            max_depth,
            next_player(start, shape.players),
        ));
        assert(faithful(r, after.root, after.queue, p, s.board, start, s.me));
    } else {
        assert(p.take(0) =~= Seq::<(u8, u8)>::empty());
        lemma_last_board_shape(s.root, s.queue, p, 0, shape);
        assert(!(s.queue =~= seq![Seq::<(u8, u8)>::empty()])) by {
            if s.queue =~= seq![Seq::<(u8, u8)>::empty()] {
                assert(s.queue[0].len() == 0);
            }
        }
        lemma_faithful_turned(r, s.root, s.queue, Seq::empty(), s.board, start, s.me);
        assert(faithful(r, s.root, rest.push(p), p.take(0), s.board, start, s.me));
        lemma_grown_faithful(
            r,
            s.root,
            p,
            0,
            probe_board(s),
            score,
            rest,
            shape,
            s.board,
            start,
            s.me,
        );
        assert(after.root == grown(
            s.root,
            p,
            0,
            fresh_leaf(
                probe_board(s),
                score,
                p.len() as int,
                max_depth,
                next_player(probe_mover(s), shape.players),
            ),
            cells.len(),
            s.me,
            s.me,
            shape.players,
        ));
        assert(faithful(r, after.root, after.queue, p.take(0), s.board, start, s.me));
    }
    assert(faithful(r, after.root, after.queue, Seq::empty(), after.board, start, after.me));
}

/// The first `upto` entries of a list have the same best score whatever
/// follows them.
pub proof fn lemma_best_upto_push(
    rated: Seq<((u8, u8), i32)>,
    extra: ((u8, u8), i32),
    floor: int,
    upto: int,
)
    requires
        0 <= upto <= rated.len(),
    ensures
        best_upto(rated.push(extra), floor, upto) == best_upto(rated, floor, upto),
    decreases upto,
{
    if upto > 0 {
        lemma_best_upto_push(rated, extra, floor, upto - 1);
    }
}

/// The best score among the tried moves of a position where the player
/// searched for is to move is the highest score in the list of its moves.
pub proof fn lemma_listed_best(moves: Seq<NodeView<i32>>, width: int, upto: int)
    requires
        0 <= upto <= moves.len(),
    ensures
        match best_child(moves, true, upto) {
            Some(best) => scored_upto(moves, width, upto).len() > 0 && best_upto(
                scored_upto(moves, width, upto),
                i32::MIN as int,
                scored_upto(moves, width, upto).len() as int,
            ) == best,
            None => scored_upto(moves, width, upto).len() == 0,
        },
    decreases upto,
{
    lemma_i32_in_line();
    if upto > 0 {
        lemma_listed_best(moves, width, upto - 1);
        let earlier = scored_upto(moves, width, upto - 1);
        match moves[upto - 1] {
            NodeView::State { score, .. } => {
                lemma_best_upto_push(
                    earlier,
                    (coords(width, upto - 1), score),
                    i32::MIN as int,
                    earlier.len() as int,
                );
            },
            NodeView::Vacant => {},
        }
    }
}

/// When a sound search has come to its end, the score of its root is the
/// score of the starting position by plain enumeration, with nothing cut
/// away.
pub proof fn lemma_done_exhaustive<T: PartialOrd>(
    s: SearchView<T>,
    f: spec_fn(Option<Board>, u8, u8) -> T,
    max_depth: int,
)
    requires
        s.board is Some,
        sound(s, f, max_depth),
        s.queue.len() == 0,
        s.root is State,
    ensures
        s.root->score == root_score(s, f, max_depth),
        best_child(s.root->moves, true, s.root->moves.len() as int) matches Some(best) ==> best
            == root_score(s, f, max_depth),
{
    let r = rules_of(s, f, max_depth);
    lemma_faithful_complete(
        r,
        s.root,
        s.queue,
        Seq::empty(),
        s.board,
        before_me(s.me, s.board.unwrap().players),
        s.me,
    );
}

/// When a sound search with whole numbers for scores has come to its end, the
/// highest score among the moves that the root lists, if it lists any, is the
/// score of the starting position by plain enumeration.
pub proof fn lemma_done_listed(
    s: SearchView<i32>,
    f: spec_fn(Option<Board>, u8, u8) -> i32,
    max_depth: int,
)
    requires
        s.board is Some,
        sound(s, f, max_depth),
        s.queue.len() == 0,
        s.root is State,
    ensures
        scored_moves(s.root).len() > 0 ==> best_upto(
            scored_moves(s.root),
            i32::MIN as int,
            scored_moves(s.root).len() as int,
        ) == root_score(s, f, max_depth),
{
    lemma_done_exhaustive(s, f, max_depth);
    let moves = s.root->moves;
    lemma_listed_best(moves, s.board.unwrap().width as int, moves.len() as int);
}

/// Where the next player can move on one of the first `upto` cells, plain
/// enumeration finds a best score among them.
pub proof fn lemma_best_value_some<T: PartialOrd>(
    f: spec_fn(Option<Board>, u8, u8) -> T,
    b: Board,
    depth: int,
    mover: u8,
    tint: u8,
    me: u8,
    players: u8,
    max_depth: int,
    upto: int,
    place: int,
)
    requires
        0 <= place < upto <= b.cells.len(),
        depth < max_depth,
        playable_at(b, place, next_player(mover, players)),
    ensures
        best_value(f, b, depth, mover, tint, me, players, max_depth, upto) is Some,
    decreases upto,
{
    if place < upto - 1 {
        lemma_best_value_some(f, b, depth, mover, tint, me, players, max_depth, upto - 1, place);
    }
}

/// Whether `entry` is the move on one of the first `upto` cells, tried, with
/// its score.
pub open spec fn tried_entry<T>(
    moves: Seq<NodeView<T>>,
    width: int,
    upto: int,
    entry: ((u8, u8), T),
) -> bool {
    exists|place: int|
        0 <= place < upto && (#[trigger] moves[place]) is State && entry == (
            coords(width, place),
            moves[place]->score,
        )
}

/// Whether the list of moves holds `entry`.
pub open spec fn lists<T>(listed: Seq<((u8, u8), T)>, entry: ((u8, u8), T)) -> bool {
    exists|j: int| 0 <= j < listed.len() && #[trigger] listed[j] == entry
}

/// The list of the moves of a position holds exactly its tried moves, each
/// with its score.
pub proof fn lemma_scored_entries<T>(moves: Seq<NodeView<T>>, width: int, upto: int)
    requires
        0 <= upto <= moves.len(),
    ensures
        forall|j: int|
            0 <= j < scored_upto(moves, width, upto).len() ==> tried_entry(
                moves,
                width,
                upto,
                #[trigger] scored_upto(moves, width, upto)[j],
            ),
        forall|place: int|
            0 <= place < upto && (#[trigger] moves[place]) is State ==> lists(
                scored_upto(moves, width, upto),
                (coords(width, place), moves[place]->score),
            ),
    decreases upto,
{
    if upto > 0 {
        lemma_scored_entries(moves, width, upto - 1);
        let earlier = scored_upto(moves, width, upto - 1);
        let now = scored_upto(moves, width, upto);
        assert forall|j: int| 0 <= j < now.len() implies tried_entry(
            moves,
            width,
            upto,
            #[trigger] now[j],
        ) by {
            if j < earlier.len() {
                assert(tried_entry(moves, width, upto - 1, earlier[j]));
                let place = choose|place: int|
                    0 <= place < upto - 1 && (#[trigger] moves[place]) is State && earlier[j] == (
                        coords(width, place),
                        moves[place]->score,
                    );
                assert(moves[place] is State);
            } else {
                assert(moves[upto - 1] is State);
            }
        }
        assert forall|place: int| 0 <= place < upto && (#[trigger] moves[place]) is State implies lists(
            now,
            (coords(width, place), moves[place]->score),
        ) by {
            if place < upto - 1 {
                assert(lists(earlier, (coords(width, place), moves[place]->score)));
                let j = choose|j: int|
                    0 <= j < earlier.len() && #[trigger] earlier[j] == (
                        coords(width, place),
                        moves[place]->score,
                    );
                assert(now[j] == (coords(width, place), moves[place]->score));
            } else {
                assert(now[now.len() - 1] == (coords(width, place), moves[place]->score));
            }
        }
    }
}

/// Whether `top` is the highest score in the list: some listed move has it,
/// and no listed move has a higher one.
pub open spec fn tops<T: PartialOrd>(listed: Seq<((u8, u8), T)>, top: T) -> bool {
    &&& exists|j: int| 0 <= j < listed.len() && (#[trigger] listed[j]).1 == top
    &&& forall|j: int| 0 <= j < listed.len() ==> !above((#[trigger] listed[j]).1, top)
}

/// Whether the player who moves first in the search `s` can move on some
/// cell of the board that the search starts from.
pub open spec fn has_move<T>(s: SearchView<T>) -> bool {
    exists|place: int|
        0 <= place < s.board.unwrap().cells.len() && #[trigger] playable_at(
            s.board.unwrap(),
            place,
            next_player(before_me(s.me, s.board.unwrap().players), s.board.unwrap().players),
        )
}

/// When a sound search that looks at least one move ahead has come to its
/// end, and the player who moves first can move at all, the highest score
/// among the moves that the root lists is the score of the starting position
/// by plain enumeration of every line of play, with nothing cut away: a
/// listed move has that score, and none has a higher one.
pub proof fn lemma_done_tops<T: PartialOrd>(
    s: SearchView<T>,
    f: spec_fn(Option<Board>, u8, u8) -> T,
    max_depth: int,
)
    requires
        in_line::<T>(),
        s.board is Some,
        sound(s, f, max_depth),
        s.queue.len() == 0,
        s.root is State,
        max_depth > 0,
        has_move(s),
    ensures
        tops(scored_moves(s.root), root_score(s, f, max_depth)),
{
    let b = s.board.unwrap();
    let start = before_me(s.me, b.players);
    let moves = s.root->moves;
    let len = moves.len() as int;
    let place = choose|place: int|
        0 <= place < b.cells.len() && #[trigger] playable_at(
            b,
            place,
            next_player(start, b.players),
        );
    lemma_best_value_some(
        f,
        b,
        0,
        start,
        s.me,
        s.me,
        b.players,
        max_depth,
        b.cells.len() as int,
        place,
    );
    lemma_done_exhaustive(s, f, max_depth);
    assert(expands(s.board, 0, max_depth));
    assert(best_child(moves, true, len) is Some);
    let top = best_child(moves, true, len).unwrap();
    assert(top == root_score(s, f, max_depth));
    lemma_best_child_is_best(moves, true, len);
    lemma_scored_entries(moves, b.width as int, len);
    let listed = scored_moves(s.root);
    assert(listed == scored_upto(moves, b.width as int, len));
    let holder = choose|holder: int|
        0 <= holder < len && (#[trigger] moves[holder]) is State && moves[holder]->score == top;
    assert(lists(listed, (coords(b.width as int, holder), moves[holder]->score)));
    let at = choose|j: int|
        0 <= j < listed.len() && #[trigger] listed[j] == (
            coords(b.width as int, holder),
            moves[holder]->score,
        );
    assert(listed[at].1 == top);
    assert forall|j: int| 0 <= j < listed.len() implies !above((#[trigger] listed[j]).1, top) by {
        assert(tried_entry(moves, b.width as int, len, listed[j]));
        let from = choose|from: int|
            0 <= from < len && (#[trigger] moves[from]) is State && listed[j] == (
                coords(b.width as int, from),
                moves[from]->score,
            );
        assert(!better(true, moves[from]->score, top));
    }
}

} // verus!
