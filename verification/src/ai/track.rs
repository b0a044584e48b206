use vstd::prelude::*;
use crate::ai::tree::{
    below, child_paths, grown, last_board, lemma_below_children, next_player, on_track,
    settled_node, slot, strictly_under, NodeView,
};
use crate::grid::{board_settled, Board, GridCell};
use crate::layout::{
    coords, lemma_cell_index_in_range, lemma_cell_index_join, lemma_cell_index_unique,
};
use crate::scan::{cells_of_kind_upto, CellKind};

verus! {

/// Whether the path `a` leads to the position of `b` or to one above it.
pub open spec fn is_prefix(a: Seq<(u8, u8)>, b: Seq<(u8, u8)>) -> bool {
    a.len() <= b.len() && b.take(a.len() as int) =~= a
}

/// No waiting path leads to or through the end of another.
pub open spec fn prefix_free(queue: Seq<Seq<(u8, u8)>>) -> bool {
    forall|i: int, j: int|
        0 <= i < queue.len() && 0 <= j < queue.len() && i != j ==> !is_prefix(
            #[trigger] queue[i],
            #[trigger] queue[j],
        )
}

/// The waiting paths with the one that has waited longest put last.
pub open spec fn turned(queue: Seq<Seq<(u8, u8)>>) -> Seq<Seq<(u8, u8)>> {
    queue.drop_first().push(queue.first())
}

/// A path at the head of the line counts below a position as it would
/// anywhere in the line.
pub proof fn lemma_below_front(rest: Seq<Seq<(u8, u8)>>, p: Seq<(u8, u8)>, at: Seq<(u8, u8)>)
    ensures
        below(seq![p] + rest, at) == below(rest, at) + if strictly_under(at, p) {
            1nat
        } else {
            0nat
        },
    decreases rest.len(),
{
    let whole = seq![p] + rest;
    if rest.len() == 0 {
        assert(whole.drop_last() =~= Seq::<Seq<(u8, u8)>>::empty());
        assert(whole.last() == p);
        assert(below(whole.drop_last(), at) == 0);
    } else {
        lemma_below_front(rest.drop_last(), p, at);
        assert(whole.drop_last() =~= seq![p] + rest.drop_last());
        assert(whole.last() == rest.last());
    }
}

/// The number of waiting paths below a position does not depend on which
/// path stands first in the line.
pub proof fn lemma_below_turned(queue: Seq<Seq<(u8, u8)>>, at: Seq<(u8, u8)>)
    requires
        queue.len() > 0,
    ensures
        below(turned(queue), at) == below(queue, at),
{
    let p = queue.first();
    let rest = queue.drop_first();
    lemma_below_front(rest, p, at);
    assert(queue =~= seq![p] + rest);
    assert(turned(queue).drop_last() =~= rest);
    assert(turned(queue).last() == p);
}

/// Whether one waiting path leads through the end of another does not depend
/// on which path stands first in the line.
pub proof fn lemma_turned_prefix_free(queue: Seq<Seq<(u8, u8)>>)
    requires
        queue.len() > 0,
        prefix_free(queue),
    ensures
        prefix_free(turned(queue)),
{
    let after = turned(queue);
    assert forall|i: int, j: int|
        0 <= i < after.len() && 0 <= j < after.len() && i != j implies !is_prefix(
        #[trigger] after[i],
        #[trigger] after[j],
    ) by {
        let a = if i == after.len() - 1 {
            0
        } else {
            i + 1
        };
        let b = if j == after.len() - 1 {
            0
        } else {
            j + 1
        };
        assert(after[i] == queue[a]);
        assert(after[j] == queue[b]);
    }
}

/// A path that can be walked in the tree can still be walked when another
/// path stands first in the line.
pub proof fn lemma_on_track_turned<T>(
    node: NodeView<T>,
    queue: Seq<Seq<(u8, u8)>>,
    q: Seq<(u8, u8)>,
    depth: int,
    shape: Board,
)
    requires
        queue.len() > 0,
        0 <= depth,
        on_track(node, queue, q, depth, shape),
    ensures
        on_track(node, turned(queue), q, depth, shape),
{
    assert forall|e: int| depth <= e < q.len() implies below(turned(queue), #[trigger] q.take(e))
        == below(queue, q.take(e)) by {
        lemma_below_turned(queue, q.take(e));
    }
    lemma_on_track_requeue(node, queue, turned(queue), q, depth, shape);
}

/// A waiting path that leads below a position is counted below it.
pub proof fn lemma_below_member(queue: Seq<Seq<(u8, u8)>>, at: Seq<(u8, u8)>, j: int)
    requires
        0 <= j < queue.len(),
        strictly_under(at, queue[j]),
    ensures
        below(queue, at) >= 1,
    decreases queue.len(),
{
    if j < queue.len() - 1 {
        lemma_below_member(queue.drop_last(), at, j);
    }
}

/// Where no waiting path leads below a position, none is counted below it.
pub proof fn lemma_below_none(queue: Seq<Seq<(u8, u8)>>, at: Seq<(u8, u8)>)
    requires
        forall|j: int| 0 <= j < queue.len() ==> !strictly_under(at, #[trigger] queue[j]),
    ensures
        below(queue, at) == 0,
    decreases queue.len(),
{
    if queue.len() > 0 {
        assert(!strictly_under(at, queue[queue.len() - 1]));
        assert forall|j: int| 0 <= j < queue.drop_last().len() implies !strictly_under(
            at,
            #[trigger] queue.drop_last()[j],
        ) by {
            assert(queue.drop_last()[j] == queue[j]);
        }
        lemma_below_none(queue.drop_last(), at);
    }
}

/// A path stays walkable when the waiting paths change, as long as the
/// counts below the positions on it stay what they were.
pub proof fn lemma_on_track_requeue<T>(
    node: NodeView<T>,
    before: Seq<Seq<(u8, u8)>>,
    after: Seq<Seq<(u8, u8)>>,
    q: Seq<(u8, u8)>,
    depth: int,
    shape: Board,
)
    requires
        0 <= depth,
        on_track(node, before, q, depth, shape),
        forall|e: int|
            depth <= e < q.len() ==> below(after, #[trigger] q.take(e)) == below(before, q.take(e)),
    ensures
        on_track(node, after, q, depth, shape),
    decreases q.len() - depth,
{
    if depth < q.len() {
        match node {
            NodeView::Vacant => {},
            NodeView::State { board, moves, score, pending } => {
                assert(below(after, q.take(depth)) == below(before, q.take(depth)));
                lemma_on_track_requeue(
                    moves[slot(shape.width, q[depth])],
                    before,
                    after,
                    q,
                    depth + 1,
                    shape,
                );
            },
        }
    }
}

/// Whether `cell` is the cell stored at one of the first `upto` places.
pub open spec fn stored_before(width: int, upto: int, cell: (u8, u8)) -> bool {
    exists|place: int| 0 <= place < upto && #[trigger] coords(width, place) == cell
}

/// The cells of one kind are cells of the board, and none is listed twice.
pub proof fn lemma_cells_apart(
    cells: Seq<GridCell>,
    width: int,
    height: int,
    player: u8,
    kind: CellKind,
    upto: int,
)
    requires
        0 < width <= 255,
        0 < height <= 255,
        cells.len() == width * height,
        0 <= upto <= cells.len(),
    ensures
        forall|j: int|
            0 <= j < cells_of_kind_upto(cells, width, player, kind, upto).len() ==> stored_before(
                width,
                upto,
                #[trigger] cells_of_kind_upto(cells, width, player, kind, upto)[j],
            ),
        forall|i: int, j: int|
            0 <= i < j < cells_of_kind_upto(cells, width, player, kind, upto).len()
                ==> #[trigger] cells_of_kind_upto(cells, width, player, kind, upto)[i]
                != #[trigger] cells_of_kind_upto(cells, width, player, kind, upto)[j],
    decreases upto,
{
    if upto > 0 {
        lemma_cells_apart(cells, width, height, player, kind, upto - 1);
        let earlier = cells_of_kind_upto(cells, width, player, kind, upto - 1);
        let now = cells_of_kind_upto(cells, width, player, kind, upto);
        assert forall|j: int| 0 <= j < now.len() implies stored_before(
            width,
            upto,
            #[trigger] now[j],
        ) by {
            if j < earlier.len() {
                assert(stored_before(width, upto - 1, earlier[j]));
                let place = choose|place: int|
                    0 <= place < upto - 1 && #[trigger] coords(width, place) == earlier[j];
                assert(coords(width, place) == now[j]);
            } else {
                assert(coords(width, upto - 1) == now[j]);
            }
        }
        assert forall|i: int, j: int| 0 <= i < j < now.len() implies #[trigger] now[i]
            != #[trigger] now[j] by {
            if j >= earlier.len() {
                assert(stored_before(width, upto - 1, earlier[i]));
                let place = choose|place: int|
                    0 <= place < upto - 1 && #[trigger] coords(width, place) == earlier[i];
                lemma_cell_index_join(width, height, place);
                lemma_cell_index_join(width, height, upto - 1);
            } else {
                assert(earlier[i] != earlier[j]);
            }
        }
    }
}

/// Every listed cell of one kind lies on the board.
pub proof fn lemma_cells_on_board(
    cells: Seq<GridCell>,
    width: int,
    height: int,
    player: u8,
    kind: CellKind,
    j: int,
)
    requires
        0 < width <= 255,
        0 < height <= 255,
        cells.len() == width * height,
        0 <= j < cells_of_kind_upto(cells, width, player, kind, cells.len() as int).len(),
    ensures
        cells_of_kind_upto(cells, width, player, kind, cells.len() as int)[j].0 < width,
        cells_of_kind_upto(cells, width, player, kind, cells.len() as int)[j].1 < height,
{
    lemma_cells_apart(cells, width, height, player, kind, cells.len() as int);
    let list = cells_of_kind_upto(cells, width, player, kind, cells.len() as int);
    assert(stored_before(width, cells.len() as int, list[j]));
    let place = choose|place: int|
        0 <= place < cells.len() && #[trigger] coords(width, place) == list[j];
    lemma_cell_index_join(width, height, place);
}

/// The tree keeps an old waiting path walkable when a new position enters it
/// at the end of another path.
pub proof fn lemma_grown_keeps_track<T: PartialOrd>(
    node: NodeView<T>,
    p: Seq<(u8, u8)>,
    depth: int,
    leaf: NodeView<T>,
    cells: Seq<(u8, u8)>,
    tint: u8,
    me: u8,
    players: u8,
    rest: Seq<Seq<(u8, u8)>>,
    q: Seq<(u8, u8)>,
    j: int,
    shape: Board,
)
    requires
        0 <= depth < p.len(),
        depth <= q.len(),
        0 < shape.width,
        0 < shape.height,
        on_track(node, rest.push(p), p, depth, shape),
        on_track(node, rest.push(p), q, depth, shape),
        q.take(depth) =~= p.take(depth),
        !is_prefix(p, q),
        !is_prefix(q, p),
        0 <= j < rest.len(),
        rest[j] == q,
    ensures
        on_track(
            grown(node, p, depth, leaf, cells.len(), tint, me, players),
            rest + child_paths(p, cells),
            q,
            depth,
            shape,
        ),
    decreases p.len() - depth,
{
    let before = rest.push(p);
    let after = rest + child_paths(p, cells);
    let here = p.take(depth);
    assert(before.drop_last() =~= rest);
    assert(before.last() == p);
    assert(p.take(here.len() as int) =~= here);
    lemma_below_children(rest, p, cells, here);
    if depth == q.len() {
        assert(q.take(q.len() as int) =~= q);
        assert(is_prefix(q, p));
    }
    assert(after[j] == q);
    assert(q.take(here.len() as int) =~= here);
    lemma_below_member(after, here, j);
    match node {
        NodeView::Vacant => {},
        NodeView::State { board, moves, score, pending } => {
            let width = shape.width;
            let at = slot(width, p[depth]);
            let there = slot(width, q[depth]);
            lemma_cell_index_in_range(
                width as int,
                shape.height as int,
                p[depth].0 as int,
                p[depth].1 as int,
            );
            lemma_cell_index_in_range(
                width as int,
                shape.height as int,
                q[depth].0 as int,
                q[depth].1 as int,
            );
            let child = if depth + 1 == p.len() {
                leaf
            } else {
                grown(moves[at], p, depth + 1, leaf, cells.len(), next_player(tint, players), me, players)
            };
            let moves1 = moves.update(at, child);
            let left = (pending - 1 + cells.len()) as nat;
            assert(left == below(after, here));
            assert(left >= 1);
            let settled = settled_node(board, moves1, score, left, tint == me);
            assert(settled == grown(node, p, depth, leaf, cells.len(), tint, me, players));
            assert(settled->moves == moves1);
            if q[depth] == p[depth] {
                assert(q.take(depth + 1) =~= q.take(depth).push(q[depth]));
                assert(p.take(depth + 1) =~= p.take(depth).push(p[depth]));
                if depth + 1 == p.len() {
                    assert(p.take(p.len() as int) =~= p);
                    assert(q.take(p.len() as int) =~= p);
                    assert(is_prefix(p, q));
                }
                lemma_grown_keeps_track(
                    moves[at],
                    p,
                    depth + 1,
                    leaf,
                    cells,
                    next_player(tint, players),
                    me,
                    players,
                    rest,
                    q,
                    j,
                    shape,
                );
            } else {
                if at == there {
                    lemma_cell_index_unique(
                        width as int,
                        p[depth].0 as int,
                        p[depth].1 as int,
                        q[depth].0 as int,
                        q[depth].1 as int,
                    );
                }
                assert forall|e: int| depth + 1 <= e < q.len() implies below(
                    after,
                    #[trigger] q.take(e),
                ) == below(before, q.take(e)) by {
                    let spot = q.take(e);
                    assert(spot[depth] == q[depth]);
                    lemma_below_children(rest, p, cells, spot);
                    if spot.len() <= p.len() && p.take(spot.len() as int) =~= spot {
                        assert(p.take(spot.len() as int)[depth] == p[depth]);
                    }
                }
                lemma_on_track_requeue(moves[there], before, after, q, depth + 1, shape);
            }
        },
    }
}

/// The tree makes a new waiting path walkable: one that leads one move below
/// the position that has just entered the tree.
pub proof fn lemma_grown_tracks_child<T: PartialOrd>(
    node: NodeView<T>,
    p: Seq<(u8, u8)>,
    depth: int,
    leaf: NodeView<T>,
    cells: Seq<(u8, u8)>,
    tint: u8,
    me: u8,
    players: u8,
    rest: Seq<Seq<(u8, u8)>>,
    i: int,
    shape: Board,
)
    requires
        0 <= depth <= p.len(),
        0 < shape.width,
        0 < shape.height,
        on_track(node, rest.push(p), p, depth, shape),
        0 <= i < cells.len(),
        cells[i].0 < shape.width,
        cells[i].1 < shape.height,
        below(rest, p) == 0,
        leaf matches NodeView::State { board, moves, pending, .. } && board is Some
            && board_settled(board.unwrap()) && board.unwrap().width == shape.width
            && board.unwrap().height == shape.height && board.unwrap().players == shape.players
            && moves.len() == shape.width * shape.height && pending == cells.len(),
    ensures
        on_track(
            if depth == p.len() {
                leaf
            } else {
                grown(node, p, depth, leaf, cells.len(), tint, me, players)
            },
            rest + child_paths(p, cells),
            p.push(cells[i]),
            depth,
            shape,
        ),
    decreases p.len() - depth,
{
    let before = rest.push(p);
    let after = rest + child_paths(p, cells);
    let q = p.push(cells[i]);
    let here = p.take(depth);
    assert(before.drop_last() =~= rest);
    assert(before.last() == p);
    assert(p.take(here.len() as int) =~= here);
    assert(q.take(depth) =~= here);
    lemma_below_children(rest, p, cells, here);
    assert(after[rest.len() + i] == q);
    assert(q.take(here.len() as int) =~= here);
    lemma_below_member(after, here, rest.len() + i);
    if depth == p.len() {
        assert(here =~= p);
        assert(below(after, q.take(depth)) == cells.len());
        assert(q[depth] == cells[i]);
        assert(on_track(leaf->moves[slot(shape.width, q[depth])], after, q, depth + 1, shape));
        assert(on_track(leaf, after, q, depth, shape));
    } else {
        match node {
            NodeView::Vacant => {},
            NodeView::State { board, moves, score, pending } => {
                let width = shape.width;
                let at = slot(width, p[depth]);
                lemma_cell_index_in_range(
                    width as int,
                    shape.height as int,
                    p[depth].0 as int,
                    p[depth].1 as int,
                );
                let child = if depth + 1 == p.len() {
                    leaf
                } else {
                    grown(
                        moves[at],
                        p,
                        depth + 1,
                        leaf,
                        cells.len(),
                        next_player(tint, players),
                        me,
                        players,
                    )
                };
                let moves1 = moves.update(at, child);
                let left = (pending - 1 + cells.len()) as nat;
                assert(left == below(after, here));
                let settled = settled_node(board, moves1, score, left, tint == me);
                assert(settled == grown(node, p, depth, leaf, cells.len(), tint, me, players));
                assert(settled->moves == moves1);
                assert(q[depth] == p[depth]);
                assert(left >= 1);
                lemma_grown_tracks_child(
                    moves[at],
                    p,
                    depth + 1,
                    leaf,
                    cells,
                    next_player(tint, players),
                    me,
                    players,
                    rest,
                    i,
                    shape,
                );
                assert(on_track(child, after, q, depth + 1, shape));
                assert(moves1[at] == child);
                assert(below(after, q.take(depth)) == left);
                assert(on_track(settled, after, q, depth, shape));
            },
        }
    }
}

/// The last position on a walkable path before its end holds a board at rest
/// of the shape that the search started from.
pub proof fn lemma_last_board_shape<T>(
    node: NodeView<T>,
    queue: Seq<Seq<(u8, u8)>>,
    p: Seq<(u8, u8)>,
    depth: int,
    shape: Board,
)
    requires
        0 <= depth < p.len(),
        on_track(node, queue, p, depth, shape),
    ensures
        last_board(node, p, depth) matches Some(b) && board_settled(b) && b.width == shape.width
            && b.height == shape.height && b.players == shape.players,
        p[p.len() - 1].0 < shape.width,
        p[p.len() - 1].1 < shape.height,
    decreases p.len() - depth,
{
    match node {
        NodeView::Vacant => {},
        NodeView::State { board, moves, score, pending } => {
            if depth + 1 < p.len() {
                lemma_last_board_shape(
                    moves[slot(shape.width, p[depth])],
                    queue,
                    p,
                    depth + 1,
                    shape,
                );
            }
        },
    }
}

/// When the last path of a line gives way to the paths one move further,
/// still no waiting path leads through the end of another.
pub proof fn lemma_children_prefix_free(queue: Seq<Seq<(u8, u8)>>, cells: Seq<(u8, u8)>)
    requires
        queue.len() > 0,
        prefix_free(queue),
        forall|i: int, j: int|
            0 <= i < j < cells.len() ==> #[trigger] cells[i] != #[trigger] cells[j],
    ensures
        prefix_free(queue.drop_last() + child_paths(queue.last(), cells)),
{
    let rest = queue.drop_last();
    let p = queue.last();
    let after = rest + child_paths(p, cells);
    assert forall|a: int, b: int|
        0 <= a < after.len() && 0 <= b < after.len() && a != b implies !is_prefix(
        #[trigger] after[a],
        #[trigger] after[b],
    ) by {
        let x = after[a];
        let y = after[b];
        if is_prefix(x, y) {
            if a < rest.len() && b < rest.len() {
                assert(queue[a] == x && queue[b] == y);
            } else if a < rest.len() {
                // An old path that leads to a new one or above it.
                assert(queue[a] == x);
                assert(queue[queue.len() - 1] == p);
                let c = cells[b - rest.len()];
                assert(y == p.push(c));
                if x.len() <= p.len() {
                    assert(p.take(x.len() as int) =~= y.take(x.len() as int));
                    assert(is_prefix(x, p));
                } else {
                    assert(y.take(x.len() as int) =~= y);
                    assert(x.take(p.len() as int) =~= p);
                    assert(is_prefix(p, x));
                }
            } else if b < rest.len() {
                // A new path that leads to an old one or above it.
                assert(queue[b] == y);
                assert(queue[queue.len() - 1] == p);
                let c = cells[a - rest.len()];
                assert(x == p.push(c));
                assert(y.take(p.len() as int) =~= y.take(x.len() as int).take(p.len() as int));
                assert(x.take(p.len() as int) =~= p);
                assert(is_prefix(p, y));
            } else {
                let c = cells[a - rest.len()];
                let d = cells[b - rest.len()];
                assert(x == p.push(c));
                assert(y == p.push(d));
                assert(y.take(x.len() as int) =~= y);
                assert(x[p.len() as int] == c);
                assert(y[p.len() as int] == d);
            }
        }
    }
}

} // verus!
