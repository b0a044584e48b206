use common::ai::hard::{hard_eval, Hard};
use common::ai::medium::Medium;
use common::ai::queue::MoveQueue;
use common::ai::search::{EvalStatus, TreeState};
use common::ai::Ai;
use common::grid::{Grid, GridCell};
use rand::rngs::StdRng;
use rand::Rng;
use rand::SeedableRng;

fn fresh(width: u8, height: u8, players: u8) -> Grid {
    let mut grid = Grid::new(width, height, players);
    grid.init_capacity();
    grid
}

fn random_position(rng: &mut StdRng, width: u8, height: u8, players: u8, moves: usize) -> Grid {
    let mut grid = fresh(width, height, players);
    let mut player = 1u8;
    for _ in 0..moves {
        let x = rng.random_range(0..width);
        let y = rng.random_range(0..height);
        let owner = grid.cell(x, y).owner;
        if owner == 0 || owner == player {
            match grid.with_move(x, y, player).0 {
                Some(after) => grid = after,
                None => return grid,
            }
            player = player % players + 1;
        }
    }
    grid
}

/// The value of a position by plain enumeration of every line of play down
/// to the depth limit, with nothing cut away.
fn enumerate(
    grid: Option<&Grid>,
    depth: usize,
    mover: u8,
    tint: u8,
    me: u8,
    players: u8,
    max_depth: usize,
) -> i32 {
    let own = hard_eval(grid, mover, me);
    let Some(board) = grid else {
        return own;
    };
    if depth >= max_depth {
        return own;
    }
    let next = mover % players + 1;
    let mut best: Option<i32> = None;
    for y in 0..board.height() {
        for x in 0..board.width() {
            let owner = board.cell(x, y).owner;
            if owner == 0 || owner == next {
                let after = board.with_move(x, y, next).0;
                let value = enumerate(
                    after.as_ref(),
                    depth + 1,
                    next,
                    tint % players + 1,
                    me,
                    players,
                    max_depth,
                );
                best = Some(match best {
                    None => value,
                    Some(so_far) => {
                        if (tint == me && value > so_far) || (tint != me && value < so_far) {
                            value
                        } else {
                            so_far
                        }
                    }
                });
            }
        }
    }
    best.unwrap_or(own)
}

fn run_to_the_end(grid: &Grid, me: u8, max_depth: usize) -> (TreeState<i32>, usize, usize) {
    let mut search = TreeState::new();
    search.set_grid(grid.clone());
    search.set_player(me);
    let mut steps = 0;
    let mut cascades = 0;
    loop {
        match search.eval_next(hard_eval, max_depth) {
            EvalStatus::Done => return (search, steps, cascades),
            EvalStatus::Cascaded => cascades += 1,
            EvalStatus::Uneventful => {}
        }
        steps += 1;
        assert!(steps < 2_000_000);
    }
}

#[test]
fn queue_hands_back_the_oldest_path_first() {
    let mut queue = MoveQueue::default();
    assert!(queue.is_empty());
    assert!(queue.pop().is_none());
    queue.push(&[]);
    queue.push(&[(1, 2), (3, 4)]);
    queue.push_suffixed(&[(1, 2)], (5, 6));
    queue.push_suffixed(&[], (7, 8));
    assert!(!queue.is_empty());
    assert_eq!(queue.pop(), Some(vec![]));
    assert_eq!(queue.pop(), Some(vec![(1, 2), (3, 4)]));
    assert_eq!(queue.pop(), Some(vec![(1, 2), (5, 6)]));
    assert_eq!(queue.pop(), Some(vec![(7, 8)]));
    assert_eq!(queue.pop(), None);
    queue.push(&[(0, 0)]);
    queue.push(&[(1, 1)]);
    assert_eq!(queue.pop(), Some(vec![(0, 0)]));
    queue.push_suffixed(&[(0, 0)], (2, 2));
    assert_eq!(queue.pop(), Some(vec![(1, 1)]));
    assert_eq!(queue.pop(), Some(vec![(0, 0), (2, 2)]));
    assert_eq!(queue.pop(), None);
    queue.push(&[(0, 0)]);
    queue.clear();
    assert!(queue.is_empty());
}

#[test]
fn first_step_scores_the_root_and_queues_its_moves() {
    let grid = fresh(2, 2, 2).with_move(0, 0, 1).0.unwrap();
    let mut search = TreeState::default();
    search.set_grid(grid.clone());
    search.set_player(2);
    assert_eq!(search.player(), 2);
    assert!(matches!(search.eval_next(hard_eval, 0), EvalStatus::Uneventful));
    assert!(search.iter_moves_and_score().is_empty());
    assert!(matches!(search.eval_next(hard_eval, 0), EvalStatus::Done));
}

#[test]
fn search_to_depth_one_scores_each_move_by_the_board_it_leaves() {
    let grid = fresh(2, 2, 2).with_move(0, 0, 1).0.unwrap();
    let (search, steps, cascades) = run_to_the_end(&grid, 2, 1);
    // The root and the three unclaimed cells; every move gains one cell and all tie.
    assert_eq!(steps, 4);
    assert_eq!(cascades, 0);
    assert_eq!(
        search.iter_moves_and_score(),
        vec![((1, 0), 0), ((0, 1), 0), ((1, 1), 0)]
    );
}

#[test]
fn search_reports_chain_reactions() {
    let mut grid = fresh(2, 2, 2);
    grid.set_cell(0, 0, GridCell { dots: 2, owner: 1, capacity: 2 });
    grid.set_cell(1, 1, GridCell { dots: 1, owner: 2, capacity: 2 });
    let mut search = TreeState::new();
    search.set_grid(grid);
    search.set_player(1);
    assert!(matches!(search.eval_next(hard_eval, 1), EvalStatus::Uneventful));
    // The paths wait in row order and are tried in that order: (0,0), (1,0), then (0,1).
    assert!(matches!(search.eval_next(hard_eval, 1), EvalStatus::Cascaded));
    assert_eq!(search.iter_moves_and_score(), vec![((0, 0), 2)]);
    assert!(matches!(search.eval_next(hard_eval, 1), EvalStatus::Uneventful));
    assert_eq!(search.iter_moves_and_score(), vec![((0, 0), 2), ((1, 0), 1)]);
    assert!(matches!(search.eval_next(hard_eval, 1), EvalStatus::Uneventful));
    assert!(matches!(search.eval_next(hard_eval, 1), EvalStatus::Done));
    // The move on the full corner takes both neighbours: it alone is left.
    assert_eq!(search.iter_moves_and_score(), vec![((0, 0), 2)]);
}

#[test]
fn pruned_search_agrees_with_plain_enumeration() {
    let mut rng = StdRng::seed_from_u64(17);
    for round in 0..40 {
        let (width, height, players) = [(2u8, 2u8, 2u8), (3, 2, 2), (2, 3, 3), (3, 3, 2)][round % 4];
        let grid = random_position(&mut rng, width, height, players, round / 2);
        for me in 1..=players {
            for max_depth in 0..=3usize {
                let (search, _, _) = run_to_the_end(&grid, me, max_depth);
                let listed = search.iter_moves_and_score();
                let before = ((me as u16 + players as u16 - 1) % players as u16) as u8;
                let whole = enumerate(Some(&grid), 0, before, me, me, players, max_depth);
                let mut best_by_enumeration: Option<i32> = None;
                if max_depth > 0 {
                    for y in 0..height {
                        for x in 0..width {
                            let owner = grid.cell(x, y).owner;
                            if owner == 0 || owner == me {
                                let after = grid.with_move(x, y, me).0;
                                let value = enumerate(
                                    after.as_ref(),
                                    1,
                                    me,
                                    me % players + 1,
                                    me,
                                    players,
                                    max_depth,
                                );
                                best_by_enumeration =
                                    Some(best_by_enumeration.map_or(value, |b: i32| b.max(value)));
                                if let Some((_, score)) =
                                    listed.iter().find(|(cell, _)| *cell == (x, y))
                                {
                                    assert_eq!(*score, value);
                                }
                            }
                        }
                    }
                }
                let best_listed = listed.iter().map(|(_, score)| *score).max();
                assert_eq!(best_listed, best_by_enumeration);
                if let Some(best) = best_listed {
                    assert_eq!(best, whole);
                    assert!(listed.iter().all(|(_, score)| *score == best));
                }
            }
        }
    }
}

#[test]
fn hard_repeats_its_answer() {
    let grid = fresh(2, 2, 2).with_move(1, 0, 1).0.unwrap();
    let mut rng = StdRng::seed_from_u64(19);
    let mut ai: Hard<Medium<0>, 0> = Hard::default();
    ai.start_move(&grid);
    let mut answer = None;
    for _ in 0..10 {
        answer = ai.tick(&grid, 2, &mut rng);
        if answer.is_some() {
            break;
        }
    }
    assert_eq!(answer, Some((0, 1)));
    for _ in 0..10 {
        assert_eq!(ai.tick(&grid, 2, &mut rng), answer);
    }
    ai.start_move(&grid);
    assert_eq!(ai.tick(&grid, 2, &mut rng), answer);
    assert_eq!(ai.name(), "Hard");
}

#[test]
fn hard_finds_nothing_where_no_move_is_left() {
    let mut grid = fresh(2, 2, 2);
    for y in 0..2 {
        for x in 0..2 {
            grid.set_cell(x, y, GridCell { dots: 1, owner: 1, capacity: 2 });
        }
    }
    let mut rng = StdRng::seed_from_u64(23);
    let mut ai: Hard<Medium<0>, 0> = Hard::new(Medium::default());
    ai.start_move(&grid);
    assert_eq!(ai.tick_inner(&grid, 2, &mut rng), None);
    assert_eq!(ai.tick(&grid, 2, &mut rng), None);
}

#[test]
fn hard_gives_way_to_the_weaker_strategy() {
    // With the fallback chance at its highest the roll, which is at most 128 on a level
    // board, always falls below it: the corner opening of the weaker strategy answers.
    let grid = fresh(4, 4, 2);
    let mut rng = StdRng::seed_from_u64(29);
    let mut ai: Hard<Medium<0>, 255> = Hard::default();
    ai.start_move(&grid);
    let cell = ai.tick(&grid, 1, &mut rng).unwrap();
    assert!([(0, 0), (3, 0), (0, 3), (3, 3)].contains(&cell));
}

#[test]
fn hard_gives_way_now_and_then() {
    // On a level board the roll runs from 0 to 128. With the fallback chance at 64 about
    // half of the rolls give way to the weaker strategy, which opens in a corner at once;
    // the other half search, and on a board of this size one frame does not end the search.
    let grid = fresh(8, 8, 2);
    let mut gave_way = 0;
    let mut searched = 0;
    for seed in 0..24 {
        let mut rng = StdRng::seed_from_u64(seed);
        let mut ai: Hard<Medium<0>, 64> = Hard::default();
        ai.start_move(&grid);
        match ai.tick(&grid, 1, &mut rng) {
            Some(cell) => {
                assert!([(0, 0), (7, 0), (0, 7), (7, 7)].contains(&cell));
                gave_way += 1;
            }
            None => searched += 1,
        }
    }
    assert!(gave_way > 0);
    assert!(searched > 0);
}

#[test]
fn hard_search_spans_several_frames_on_a_large_board() {
    let grid = fresh(7, 7, 2);
    let mut rng = StdRng::seed_from_u64(37);
    let mut ai: Hard<Medium<0>, 0> = Hard::default();
    ai.start_move(&grid);
    let mut frames = 0;
    let answer = loop {
        frames += 1;
        assert!(frames < 10);
        if let Some(cell) = ai.tick(&grid, 1, &mut rng) {
            break cell;
        }
    };
    // One round and one move deep there are 1 + 49 + 49 * 49 + 49 * 49 * 49 positions,
    // and one frame tries 50000 of them.
    assert_eq!(frames, 3);
    assert!(answer.0 < 7 && answer.1 < 7);
    assert_eq!(grid.cell(answer.0, answer.1).owner, 0);
}

#[test]
fn search_for_the_last_of_three_players_starts_from_the_player_before() {
    let grid = fresh(2, 1, 3);
    let (search, steps, _) = run_to_the_end(&grid, 3, 1);
    assert_eq!(steps, 3);
    assert_eq!(search.iter_moves_and_score(), vec![((0, 0), 1), ((1, 0), 1)]);
}

#[test]
fn bias_leans_against_the_player_in_the_lead() {
    let level = fresh(4, 4, 2);
    assert_eq!(Hard::<Medium<0>, 0>::bias(&level, 1), 128);
    let mut board = fresh(8, 8, 2);
    for x in 0..8 {
        let cell = board.cell(x, 0);
        board.set_cell(x, 0, GridCell { dots: 1, owner: 1, capacity: cell.capacity });
    }
    for x in 0..2 {
        let cell = board.cell(x, 1);
        board.set_cell(x, 1, GridCell { dots: 1, owner: 1, capacity: cell.capacity });
    }
    // Ten cells ahead on 64 cells: 640 / 256 is 2, rounded toward zero either way.
    assert_eq!(Hard::<Medium<0>, 0>::bias(&board, 1), 126);
    assert_eq!(Hard::<Medium<0>, 0>::bias(&board, 2), 130);
    let mut full = fresh(16, 16, 2);
    for y in 0..16 {
        for x in 0..16 {
            let cell = full.cell(x, y);
            full.set_cell(x, y, GridCell { dots: 1, owner: 1, capacity: cell.capacity });
        }
    }
    assert_eq!(Hard::<Medium<0>, 0>::bias(&full, 1), 0);
    assert_eq!(Hard::<Medium<0>, 0>::bias(&full, 2), 255);
}

#[test]
fn decided_positions_score_at_the_ends_of_the_scale() {
    assert_eq!(hard_eval(None, 1, 1), i32::MAX);
    assert_eq!(hard_eval(None, 2, 1), i32::MIN);
    let grid = fresh(2, 2, 2).with_move(0, 0, 2).0.unwrap();
    assert_eq!(hard_eval(Some(&grid), 2, 1), -1);
    assert_eq!(hard_eval(Some(&grid), 2, 2), 1);
}

#[test]
fn search_takes_any_score_that_can_be_compared() {
    // Scores are the negated balance as a wider number: player 1 then looks for the move
    // that leaves it worst off.
    let grid = fresh(2, 2, 2).with_move(0, 0, 2).0.unwrap();
    let mut search: TreeState<i64> = TreeState::new();
    search.set_grid(grid.clone());
    search.set_player(1);
    loop {
        let status = search.eval_next(
            |board: Option<&Grid>, _, me| match board {
                Some(board) => -(board.score_for_player(me) as i64),
                None => 0,
            },
            1,
        );
        if matches!(status, EvalStatus::Done) {
            break;
        }
    }
    // Every move of player 1 takes one unclaimed cell and levels the balance.
    assert_eq!(search.iter_moves_and_score(), vec![((1, 0), 0i64), ((0, 1), 0), ((1, 1), 0)]);
}

/// The search written out once more in the plainest way: a tree of boxes, a
/// line of paths of which the oldest is tried first, three passes over the
/// path for every step.
enum PlainNode {
    Vacant,
    State(PlainState),
}

struct PlainState {
    grid: Option<Grid>,
    moves: Vec<PlainNode>,
    score: i32,
    unvisited: usize,
}

struct PlainSearch {
    root: PlainNode,
    me: u8,
    grid: Grid,
    queue: Vec<Vec<(u8, u8)>>,
}

impl PlainSearch {
    fn new(grid: &Grid, me: u8) -> Self {
        PlainSearch { root: PlainNode::Vacant, me, grid: grid.clone(), queue: vec![vec![]] }
    }

    fn step(&mut self, max_depth: usize) -> Option<bool> {
        if self.queue.is_empty() {
            return None;
        }
        let path = self.queue.remove(0);
        let players = self.grid.player_count();
        let mut cur = ((self.me as u16 + players as u16 - 1) % players as u16) as u8;
        let (grid, mover, cascade) = if path.is_empty() {
            (Some(self.grid.clone()), cur, false)
        } else {
            let mut node = &mut self.root;
            let mut found = None;
            for (i, m) in path.iter().enumerate() {
                let PlainNode::State(inner) = node else {
                    panic!("a path leads through a vacant node");
                };
                inner.unvisited -= 1;
                cur = cur % players + 1;
                let board = inner.grid.as_ref().unwrap();
                if i + 1 == path.len() {
                    found = Some(board.with_move(m.0, m.1, cur));
                    break;
                }
                let at = m.0 as usize + m.1 as usize * board.width() as usize;
                node = &mut inner.moves[at];
            }
            let (grid, cascade) = found.unwrap();
            (grid, cur, cascade)
        };
        let score = hard_eval(grid.as_ref(), mover, self.me);
        let next = mover % players + 1;
        let mut added = 0;
        let mut moves = Vec::new();
        if path.len() < max_depth {
            if let Some(board) = &grid {
                for y in 0..board.height() {
                    for x in 0..board.width() {
                        let owner = board.cell(x, y).owner;
                        if owner == 0 || owner == next {
                            added += 1;
                            let mut longer = path.clone();
                            longer.push((x, y));
                            self.queue.push(longer);
                        }
                    }
                }
                for _ in 0..board.len() {
                    moves.push(PlainNode::Vacant);
                }
            }
        }
        let leaf = PlainNode::State(PlainState { grid, moves, score, unvisited: added });
        if path.is_empty() {
            self.root = leaf;
        } else {
            let mut node = &mut self.root;
            for (i, m) in path.iter().enumerate() {
                let PlainNode::State(inner) = node else {
                    panic!("a path leads through a vacant node");
                };
                inner.unvisited += added;
                let at = m.0 as usize + m.1 as usize * inner.grid.as_ref().unwrap().width() as usize;
                if i + 1 == path.len() {
                    inner.moves[at] = leaf;
                    break;
                }
                node = &mut inner.moves[at];
            }
            Self::propagate(&mut self.root, &path, self.me, self.me, players);
        }
        Some(cascade)
    }

    fn propagate(node: &mut PlainNode, path: &[(u8, u8)], player: u8, me: u8, players: u8) {
        let PlainNode::State(inner) = node else {
            panic!("a path leads through a vacant node");
        };
        let Some((m, rest)) = path.split_first() else {
            return;
        };
        if !rest.is_empty() {
            let at = m.0 as usize + m.1 as usize * inner.grid.as_ref().unwrap().width() as usize;
            Self::propagate(&mut inner.moves[at], rest, player % players + 1, me, players);
        }
        let mut best: Option<i32> = None;
        for child in &inner.moves {
            if let PlainNode::State(state) = child {
                best = Some(match best {
                    Some(so_far) => {
                        if (player == me && state.score > so_far)
                            || (player != me && state.score < so_far)
                        {
                            state.score
                        } else {
                            so_far
                        }
                    }
                    None => state.score,
                });
            }
        }
        if let Some(best) = best {
            inner.score = best;
            if inner.unvisited == 0 {
                for child in &mut inner.moves {
                    let cut = match child {
                        PlainNode::State(state) => {
                            (player == me && state.score < best)
                                || (player != me && state.score > best)
                        }
                        PlainNode::Vacant => false,
                    };
                    if cut {
                        *child = PlainNode::Vacant;
                    }
                }
            }
        }
    }

    fn listing(&self) -> Vec<((u8, u8), i32)> {
        let PlainNode::State(root) = &self.root else {
            panic!("the root has not been tried");
        };
        let mut found = Vec::new();
        for (i, child) in root.moves.iter().enumerate() {
            if let PlainNode::State(state) = child {
                let width = root.grid.as_ref().unwrap().width() as usize;
                found.push((((i % width) as u8, (i / width) as u8), state.score));
            }
        }
        found
    }
}

#[test]
fn every_step_agrees_with_the_search_written_out() {
    let mut rng = StdRng::seed_from_u64(43);
    for round in 0..30 {
        let (width, height, players) = [(2u8, 2u8, 2u8), (3, 2, 3), (3, 3, 2)][round % 3];
        let grid = random_position(&mut rng, width, height, players, round);
        for me in 1..=players {
            for max_depth in [0usize, 1, 2, 3] {
                let mut search = TreeState::new();
                search.set_grid(grid.clone());
                search.set_player(me);
                let mut plain = PlainSearch::new(&grid, me);
                loop {
                    let status = search.eval_next(hard_eval, max_depth);
                    match plain.step(max_depth) {
                        None => {
                            assert!(matches!(status, EvalStatus::Done));
                            break;
                        }
                        Some(true) => assert!(matches!(status, EvalStatus::Cascaded)),
                        Some(false) => assert!(matches!(status, EvalStatus::Uneventful)),
                    }
                    assert_eq!(search.iter_moves_and_score(), plain.listing());
                }
            }
        }
    }
}

#[test]
fn search_goes_through_the_positions_level_by_level() {
    let grid = fresh(2, 2, 2).with_move(0, 0, 1).0.unwrap();
    let mut search = TreeState::new();
    search.set_grid(grid);
    search.set_player(2);
    // The root first, then every move of player 2, before any answer of player 1 is tried.
    assert!(matches!(search.eval_next(hard_eval, 2), EvalStatus::Uneventful));
    assert!(search.iter_moves_and_score().is_empty());
    assert!(matches!(search.eval_next(hard_eval, 2), EvalStatus::Uneventful));
    assert_eq!(search.iter_moves_and_score(), vec![((1, 0), 0)]);
    assert!(matches!(search.eval_next(hard_eval, 2), EvalStatus::Uneventful));
    assert_eq!(search.iter_moves_and_score(), vec![((1, 0), 0), ((0, 1), 0)]);
    assert!(matches!(search.eval_next(hard_eval, 2), EvalStatus::Uneventful));
    assert_eq!(search.iter_moves_and_score(), vec![((1, 0), 0), ((0, 1), 0), ((1, 1), 0)]);
    // Now the answers to the first move: player 1 moves on its own corner, which spills
    // over both neighbours; the cell of player 2 spills in turn, and the board is lost.
    assert!(matches!(search.eval_next(hard_eval, 2), EvalStatus::Cascaded));
    assert_eq!(search.iter_moves_and_score(), vec![((1, 0), -4), ((0, 1), 0), ((1, 1), 0)]);
}
