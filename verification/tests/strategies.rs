use common::ai::easiest::Easiest;
use common::ai::easy::Easy;
use common::ai::medium::Medium;
use common::ai::Ai;
use common::grid::{Grid, GridCell};
use common::scan::{collect_cells, opening_corners, CellKind};
use rand::rngs::StdRng;
use rand::Rng;
use rand::SeedableRng;

fn fresh(width: u8, height: u8, players: u8) -> Grid {
    let mut grid = Grid::new(width, height, players);
    grid.init_capacity();
    grid
}

fn claim(grid: &mut Grid, x: u8, y: u8, owner: u8, dots: u8) {
    let cell = grid.cell(x, y);
    grid.set_cell(x, y, GridCell { dots, owner, capacity: cell.capacity });
}

fn legal(grid: &Grid, player: u8, cell: (u8, u8)) -> bool {
    cell.0 < grid.width() && cell.1 < grid.height() && {
        let owner = grid.cell(cell.0, cell.1).owner;
        owner == 0 || owner == player
    }
}

fn random_position(rng: &mut StdRng, width: u8, height: u8, players: u8, moves: usize) -> Grid {
    let mut grid = fresh(width, height, players);
    let mut player = 1u8;
    for _ in 0..moves {
        let x = rng.random_range(0..width);
        let y = rng.random_range(0..height);
        let owner = grid.cell(x, y).owner;
        if owner == 0 || owner == player {
            match grid.with_move(x, y, player).0 {
                Some(after) => grid = after,
                None => return grid,
            }
            player = player % players + 1;
        }
    }
    grid
}

#[test]
fn easiest_takes_an_unclaimed_cell_while_it_owns_less_than_two() {
    let mut grid = fresh(3, 3, 2);
    claim(&mut grid, 1, 1, 1, 2);
    claim(&mut grid, 0, 0, 2, 1);
    let mut rng = StdRng::seed_from_u64(1);
    for _ in 0..50 {
        let cell = Easiest::tick_inner(&grid, 1, &mut rng).unwrap();
        assert_eq!(grid.cell(cell.0, cell.1).owner, 0);
    }
}

#[test]
fn easiest_pick_follows_the_roll() {
    let mut grid = fresh(3, 1, 2);
    claim(&mut grid, 0, 0, 1, 2);
    claim(&mut grid, 1, 0, 1, 1);
    // Two cells owned: the roll decides. (0,0) is full, (1,0) is not, (2,0) is unclaimed.
    assert_eq!(Easiest::pick(&grid, 1, 0, 0), Some((2, 0)));
    assert_eq!(Easiest::pick(&grid, 1, 1, 0), Some((0, 0)));
    assert_eq!(Easiest::pick(&grid, 1, 3, 0), Some((0, 0)));
    assert_eq!(Easiest::pick(&grid, 1, 4, 0), Some((1, 0)));
    assert_eq!(Easiest::pick(&grid, 1, 9, 0), Some((1, 0)));
    assert_eq!(Easiest::pick(&grid, 1, 9, 1), None);
    // A player without cells and without unclaimed cells has nothing to take.
    claim(&mut grid, 2, 0, 1, 1);
    assert_eq!(Easiest::pick(&grid, 2, 0, 0), None);
}

#[test]
fn easiest_without_open_cells_takes_a_full_one() {
    let mut grid = fresh(2, 1, 2);
    claim(&mut grid, 0, 0, 1, 2);
    claim(&mut grid, 1, 0, 1, 2);
    // Both cells are full: whatever the roll, one of them is taken.
    assert_eq!(Easiest::pick(&grid, 1, 3, 1), Some((1, 0)));
    assert_eq!(Easiest::pick(&grid, 1, 4, 0), Some((0, 0)));
    assert_eq!(Easiest::pick(&grid, 1, 9, 1), Some((1, 0)));
    let mut rng = StdRng::seed_from_u64(47);
    for _ in 0..50 {
        assert!(Easiest::tick_inner(&grid, 1, &mut rng).is_some());
    }
    // The other player may move on no cell.
    assert_eq!(Easiest::tick_inner(&grid, 2, &mut rng), None);
}

#[test]
fn easiest_keeps_its_answer_until_the_next_move() {
    let grid = fresh(3, 3, 2);
    let mut rng = StdRng::seed_from_u64(3);
    let mut ai = Easiest::default();
    ai.start_move(&grid);
    let first = ai.tick(&grid, 1, &mut rng);
    assert!(first.is_some());
    for _ in 0..20 {
        assert_eq!(ai.tick(&grid, 1, &mut rng), first);
    }
    assert_eq!(ai.name(), "Easiest");
}

#[test]
fn easy_opens_with_an_unclaimed_corner() {
    let mut grid = fresh(4, 4, 2);
    claim(&mut grid, 0, 0, 1, 1);
    claim(&mut grid, 3, 0, 2, 1);
    assert_eq!(Easy::pool(&grid, 1), vec![(0, 3), (3, 3)]);
    let mut rng = StdRng::seed_from_u64(5);
    for _ in 0..20 {
        let cell = Easy::tick_inner(&grid, 1, &mut rng).unwrap();
        assert!(cell == (0, 3) || cell == (3, 3));
    }
}

#[test]
fn easy_prefers_a_full_cell_beside_a_full_cell() {
    let mut grid = fresh(3, 3, 2);
    for (x, y) in [(0, 0), (2, 0), (0, 2), (2, 2)] {
        claim(&mut grid, x, y, 2, 1);
    }
    claim(&mut grid, 1, 1, 1, 4);
    claim(&mut grid, 1, 0, 1, 3);
    claim(&mut grid, 0, 1, 1, 2);
    assert_eq!(Easy::chain_size(&grid, 1, 1), 2);
    assert_eq!(Easy::chain_size(&grid, 1, 0), 2);
    assert_eq!(Easy::chains(&grid, 1), vec![(1, 0), (1, 1)]);
    assert_eq!(Easy::pool(&grid, 1), vec![(1, 0), (1, 1)]);
}

#[test]
fn easy_counts_a_lonely_full_cell_as_one() {
    let mut grid = fresh(3, 3, 2);
    claim(&mut grid, 1, 1, 1, 4);
    assert_eq!(Easy::chain_size(&grid, 1, 1), 1);
    assert_eq!(Easy::chains(&grid, 1), vec![]);
}

#[test]
fn easy_flood_counts_each_full_cell_once() {
    let mut grid = fresh(3, 3, 2);
    for y in 0..3 {
        for x in 0..3 {
            let cell = grid.cell(x, y);
            claim(&mut grid, x, y, 1, cell.capacity);
        }
    }
    assert_eq!(Easy::chain_size(&grid, 0, 0), 9);
}

#[test]
fn easy_falls_back_on_own_then_on_unclaimed_cells() {
    let mut grid = fresh(2, 2, 2);
    claim(&mut grid, 0, 0, 1, 1);
    claim(&mut grid, 1, 0, 1, 1);
    claim(&mut grid, 0, 1, 2, 1);
    claim(&mut grid, 1, 1, 2, 1);
    assert_eq!(Easy::pool(&grid, 1), vec![(0, 0), (1, 0)]);
    assert_eq!(Easy::pool(&grid, 3), vec![]);
    let mut rng = StdRng::seed_from_u64(5);
    assert_eq!(Easy::tick_inner(&grid, 3, &mut rng), None);
    let mut other = fresh(3, 3, 3);
    for (x, y) in [(0, 0), (2, 0), (0, 2), (2, 2)] {
        claim(&mut other, x, y, 2, 1);
    }
    assert_eq!(Easy::pool(&other, 1), vec![(1, 0), (0, 1), (1, 1), (2, 1), (1, 2)]);
}

#[test]
fn medium_takes_the_winning_move() {
    let mut grid = fresh(2, 2, 2);
    for y in 0..2 {
        for x in 0..2 {
            claim(&mut grid, x, y, 1, 2);
        }
    }
    let (winning, rated) = Medium::<0>::survey(&grid, 1);
    assert_eq!(winning, vec![(0, 0), (1, 0), (0, 1), (1, 1)]);
    assert!(rated.is_empty());
    let mut rng = StdRng::seed_from_u64(9);
    assert!(Medium::<0>::tick_inner(&grid, 1, &mut rng).is_some());
    assert_eq!(Medium::<0>::tick_inner(&grid, 2, &mut rng), None);
}

#[test]
fn medium_rates_each_move_by_the_balance_it_leaves() {
    let mut grid = fresh(3, 1, 2);
    claim(&mut grid, 0, 0, 1, 2);
    claim(&mut grid, 1, 0, 2, 3);
    claim(&mut grid, 2, 0, 1, 1);
    // Player 1 holds both corners. A move on (0,0) overflows into (1,0) and takes it.
    let (winning, rated) = Medium::<0>::survey(&grid, 1);
    assert!(winning.is_empty());
    assert_eq!(rated, vec![((0, 0), 3), ((2, 0), 1)]);
    assert_eq!(Medium::<0>::pool(&grid, 1, 0, 0), vec![(0, 0)]);
    // With the fail chance at its highest, a roll below it passes over the good move,
    // and both moves are unsafe beside a fuller neighbour, so the best move comes back.
    assert_eq!(Medium::<255>::pool(&grid, 1, 254, 254), vec![(0, 0)]);
}

#[test]
fn medium_guard_drops_moves_beside_a_fuller_neighbour() {
    let mut grid = fresh(3, 3, 2);
    for (x, y) in [(0, 0), (2, 0)] {
        claim(&mut grid, x, y, 1, 1);
    }
    claim(&mut grid, 1, 1, 2, 4);
    // (1,0) lies beside the full centre of player 2: one hole against three.
    assert_eq!(Medium::<0>::weigh(&grid, 1, 1, 0), None);
    // (0,0) has one hole, its neighbours (1,0) and (0,1) have two: the lead over both.
    assert_eq!(Medium::<0>::weigh(&grid, 1, 0, 0), Some(2));
    let (_, rated) = Medium::<0>::survey(&grid, 1);
    let guarded = Medium::<0>::guard(&grid, 1, &rated);
    assert!(guarded.iter().all(|(cell, _)| *cell != (1, 0) && *cell != (0, 1)));
    // The move on (0,0) leaves the balance at 1; the lead over two neighbours adds 2.
    assert!(guarded.contains(&((0, 0), 3)));
}

#[test]
fn strategies_only_pick_cells_they_may_move_on() {
    let mut rng = StdRng::seed_from_u64(11);
    for round in 0..60 {
        let grid = random_position(&mut rng, 4, 4, 3, 5 + round);
        for player in 1..=3u8 {
            if let Some(cell) = Easiest::tick_inner(&grid, player, &mut rng) {
                assert!(legal(&grid, player, cell));
            }
            if let Some(cell) = Easy::tick_inner(&grid, player, &mut rng) {
                assert!(legal(&grid, player, cell));
            }
            let any = (0..4).any(|y| (0..4).any(|x| legal(&grid, player, (x, y))));
            let medium = Medium::<64>::tick_inner(&grid, player, &mut rng);
            assert_eq!(medium.is_some(), any);
            if let Some(cell) = medium {
                assert!(legal(&grid, player, cell));
            }
            for (first, second) in [(0u8, 0u8), (0, 255), (255, 0), (255, 255)] {
                for cell in Medium::<64>::pool(&grid, player, first, second) {
                    assert!(legal(&grid, player, cell));
                }
            }
        }
    }
}

#[test]
fn draws_reach_every_entry_of_a_pool() {
    let grid = fresh(3, 3, 2);
    let mut rng = StdRng::seed_from_u64(13);
    let mut seen = std::collections::HashSet::new();
    for _ in 0..400 {
        seen.insert(Easiest::tick_inner(&grid, 1, &mut rng).unwrap());
    }
    assert_eq!(seen.len(), 9);
}

#[test]
fn names_are_as_announced() {
    assert_eq!(Easy::default().name(), "Easy");
    assert_eq!(Medium::<0>::default().name(), "Medium");
}

#[test]
fn easiest_rolls_reach_every_kind_of_cell() {
    let mut grid = fresh(3, 1, 2);
    claim(&mut grid, 0, 0, 1, 2);
    claim(&mut grid, 1, 0, 1, 1);
    let mut rng = StdRng::seed_from_u64(31);
    let mut seen = std::collections::HashSet::new();
    for _ in 0..400 {
        seen.insert(Easiest::tick_inner(&grid, 1, &mut rng).unwrap());
    }
    assert_eq!(seen.len(), 3);
}

#[test]
fn corners_of_a_single_row_are_looked_at_twice() {
    let grid = fresh(3, 1, 2);
    assert_eq!(opening_corners(&grid, 1), vec![(0, 0), (2, 0), (0, 0), (2, 0)]);
    let mut held = fresh(3, 1, 2);
    claim(&mut held, 0, 0, 1, 1);
    // The one corner held counts twice, so that two corners are held.
    assert_eq!(opening_corners(&held, 1), vec![]);
}

#[test]
fn cells_are_listed_by_kind_in_row_order() {
    let mut grid = fresh(2, 2, 2);
    claim(&mut grid, 1, 0, 1, 2);
    claim(&mut grid, 0, 1, 1, 1);
    claim(&mut grid, 1, 1, 2, 2);
    assert_eq!(collect_cells(&grid, 1, CellKind::Unclaimed), vec![(0, 0)]);
    assert_eq!(collect_cells(&grid, 1, CellKind::Owned), vec![(1, 0), (0, 1)]);
    assert_eq!(collect_cells(&grid, 1, CellKind::OwnedFull), vec![(1, 0)]);
    assert_eq!(collect_cells(&grid, 1, CellKind::ClaimedOpen), vec![(0, 1)]);
    assert_eq!(collect_cells(&grid, 1, CellKind::ClaimedFull), vec![(1, 0)]);
    assert_eq!(collect_cells(&grid, 1, CellKind::Playable), vec![(0, 0), (1, 0), (0, 1)]);
    assert_eq!(collect_cells(&grid, 0, CellKind::ClaimedOpen), vec![]);
    assert_eq!(collect_cells(&grid, 0, CellKind::Owned), vec![(0, 0)]);
}

#[test]
fn medium_passes_over_a_good_move_when_the_roll_falls_below_the_fail_chance() {
    let mut grid = fresh(3, 3, 2);
    for (x, y) in [(0, 0), (2, 0)] {
        claim(&mut grid, x, y, 1, 2);
    }
    claim(&mut grid, 1, 0, 2, 3);
    claim(&mut grid, 0, 1, 2, 3);
    claim(&mut grid, 2, 1, 2, 1);
    // A move on (0,0) overflows into (1,0) and (0,1), which overflow in turn: seven cells
    // end up with player 1, and the balance rises from -1 to 7.
    assert_eq!(grid.score_for_player(1), -1);
    let (winning, rated) = Medium::<128>::survey(&grid, 1);
    assert!(winning.is_empty());
    assert_eq!(rated[0], ((0, 0), 7));
    let top = rated.iter().map(|(_, score)| *score).max().unwrap();
    let best: Vec<(u8, u8)> =
        rated.iter().filter(|(_, score)| *score == top).map(|(cell, _)| *cell).collect();
    assert!(best.contains(&(0, 0)));
    assert_eq!(Medium::<128>::pool(&grid, 1, 128, 0), best);
    // With the first roll below the fail chance the best of the safe moves come instead.
    let guarded = Medium::<128>::guard(&grid, 1, &rated);
    let top_guarded = guarded.iter().map(|(_, score)| *score).max().unwrap();
    let wary: Vec<(u8, u8)> = guarded
        .iter()
        .filter(|(_, score)| *score == top_guarded)
        .map(|(cell, _)| *cell)
        .collect();
    assert_eq!(Medium::<128>::pool(&grid, 1, 127, 128), wary);
    // With both rolls below the fail chance the best moves come back after all.
    assert_eq!(Medium::<128>::pool(&grid, 1, 127, 127), best);
}

/// The ladder of the second strategy written out once more with plain loops.
fn easy_pool_by_hand(grid: &Grid, player: u8) -> Vec<(u8, u8)> {
    let mut corner_count = 0;
    let mut viable_corners = Vec::new();
    for y in [0, grid.height() - 1] {
        for x in [0, grid.width() - 1] {
            if grid.cell(x, y).owner == player {
                corner_count += 1;
            } else if grid.cell(x, y).owner == 0 {
                viable_corners.push((x, y));
            }
        }
    }
    if corner_count < 2 && !viable_corners.is_empty() {
        return viable_corners;
    }
    let mut origins = Vec::new();
    for y in 0..grid.height() {
        for x in 0..grid.width() {
            let cell = grid.cell(x, y);
            if cell.owner == player && cell.is_full() {
                let mut visited = std::collections::HashSet::new();
                let mut queue = std::collections::VecDeque::from([(x, y)]);
                let mut count = 0;
                while let Some((x, y)) = queue.pop_front() {
                    if !visited.insert((x, y)) {
                        continue;
                    }
                    count += 1;
                    if x > 0 && grid.cell(x - 1, y).is_full() {
                        queue.push_back((x - 1, y));
                    }
                    if y > 0 && grid.cell(x, y - 1).is_full() {
                        queue.push_back((x, y - 1));
                    }
                    if x < grid.width() - 1 && grid.cell(x + 1, y).is_full() {
                        queue.push_back((x + 1, y));
                    }
                    if y < grid.height() - 1 && grid.cell(x, y + 1).is_full() {
                        queue.push_back((x, y + 1));
                    }
                }
                assert_eq!(Easy::chain_size(grid, x, y), count);
                if count > 1 {
                    origins.push((x, y));
                }
            }
        }
    }
    if !origins.is_empty() {
        return origins;
    }
    let mut owned = Vec::new();
    let mut unowned = Vec::new();
    for y in 0..grid.height() {
        for x in 0..grid.width() {
            if grid.cell(x, y).owner == player {
                owned.push((x, y));
            }
            if grid.cell(x, y).owner == 0 {
                unowned.push((x, y));
            }
        }
    }
    if !owned.is_empty() {
        owned
    } else {
        unowned
    }
}

/// The third strategy written out once more with plain loops, with its two
/// rolls handed in.
fn medium_pool_by_hand(
    grid: &Grid,
    player: u8,
    fail_chance: u8,
    first_roll: u8,
    second_roll: u8,
) -> Vec<(u8, u8)> {
    let mut corner_count = 0;
    let mut viable_corners = Vec::new();
    for y in [0, grid.height() - 1] {
        for x in [0, grid.width() - 1] {
            if grid.cell(x, y).owner == player {
                corner_count += 1;
            } else if grid.cell(x, y).owner == 0 {
                viable_corners.push((x, y));
            }
        }
    }
    if corner_count < 2 && !viable_corners.is_empty() {
        return viable_corners;
    }
    let baseline = grid.score_for_player(player);
    let mut evals = Vec::new();
    let mut winning = Vec::new();
    for y in 0..grid.height() {
        for x in 0..grid.width() {
            let cell = grid.cell(x, y);
            if cell.owner == player || cell.owner == 0 {
                match grid.with_move(x, y, player).0 {
                    Some(after) => evals.push(((x, y), after.score_for_player(player))),
                    None => winning.push((x, y)),
                }
            }
        }
    }
    if !winning.is_empty() {
        return winning;
    }
    let best_of = |list: &Vec<((u8, u8), i32)>| -> Vec<(u8, u8)> {
        let max = list.iter().fold(baseline, |so_far, (_, eval)| so_far.max(*eval));
        list.iter().filter(|(_, eval)| *eval == max).map(|(cell, _)| *cell).collect()
    };
    let max_eval = evals.iter().fold(baseline, |so_far, (_, eval)| so_far.max(*eval));
    if max_eval - baseline >= 2 && first_roll >= fail_chance {
        return best_of(&evals);
    }
    let mut guarded = Vec::new();
    'outer: for &((x, y), eval) in &evals {
        let cell = grid.cell(x, y);
        let holes = cell.capacity - cell.dots;
        let mut neighbors = Vec::new();
        let mut eval = eval;
        if x > 0 {
            neighbors.push(grid.cell(x - 1, y));
        }
        if y > 0 {
            neighbors.push(grid.cell(x, y - 1));
        }
        if x < grid.width() - 1 {
            neighbors.push(grid.cell(x + 1, y));
        }
        if y < grid.height() - 1 {
            neighbors.push(grid.cell(x, y + 1));
        }
        for neighbor in neighbors {
            if neighbor.owner == player {
                continue;
            }
            let n_holes = neighbor.capacity - neighbor.dots;
            if n_holes < holes {
                continue 'outer;
            } else if n_holes > holes {
                eval += 1;
            }
        }
        guarded.push(((x, y), eval));
    }
    if !guarded.is_empty() && second_roll >= fail_chance {
        return best_of(&guarded);
    }
    best_of(&evals)
}

/// The first strategy written out once more with plain loops, with its roll
/// handed in.
fn easiest_pool_by_hand(grid: &Grid, player: u8, choice: i32) -> Vec<(u8, u8)> {
    let mut new_cells = Vec::new();
    let mut mid_cells = Vec::new();
    let mut full_cells = Vec::new();
    let mut owned_cells = 0;
    for y in 0..grid.height() {
        for x in 0..grid.width() {
            let cell = grid.cell(x, y);
            if cell.owner == 0 {
                new_cells.push((x, y));
            } else if cell.owner == player {
                owned_cells += 1;
                if cell.is_full() {
                    full_cells.push((x, y));
                } else {
                    mid_cells.push((x, y));
                }
            }
        }
    }
    if owned_cells < 2 && !new_cells.is_empty() {
        new_cells
    } else if owned_cells > 0 {
        if choice < 1 && !new_cells.is_empty() {
            new_cells
        } else if choice < 4 && !full_cells.is_empty() {
            full_cells
        } else if !mid_cells.is_empty() {
            mid_cells
        } else {
            full_cells
        }
    } else {
        Vec::new()
    }
}

#[test]
fn pools_agree_with_the_strategies_written_out() {
    let mut rng = StdRng::seed_from_u64(41);
    for round in 0..120 {
        let (width, height, players) =
            [(3u8, 3u8, 2u8), (4, 3, 3), (1, 4, 2), (5, 5, 3), (2, 2, 2), (4, 1, 2)][round % 6];
        let grid = random_position(&mut rng, width, height, players, round);
        for player in 0..=players {
            assert_eq!(Easy::pool(&grid, player), easy_pool_by_hand(&grid, player));
            for choice in [0, 1, 3, 4, 9] {
                let pool = easiest_pool_by_hand(&grid, player, choice);
                for index in 0..pool.len() + 1 {
                    assert_eq!(
                        Easiest::pick(&grid, player, choice, index),
                        pool.get(index).copied()
                    );
                }
            }
            for (first, second) in [(0u8, 0u8), (63, 200), (64, 63), (200, 64), (255, 255)] {
                assert_eq!(
                    Medium::<64>::pool(&grid, player, first, second),
                    medium_pool_by_hand(&grid, player, 64, first, second)
                );
            }
        }
    }
}
