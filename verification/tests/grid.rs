use common::grid::{Grid, GridCell};
use rand::rngs::StdRng;
use rand::Rng;
use rand::SeedableRng;
use std::collections::VecDeque;

fn fresh(width: u8, height: u8, players: u8) -> Grid {
    let mut grid = Grid::new(width, height, players);
    grid.init_capacity();
    grid
}

fn cells_of(grid: &Grid) -> Vec<(u8, u8, u8)> {
    let mut cells = Vec::new();
    for y in 0..grid.height() {
        for x in 0..grid.width() {
            let cell = grid.cell(x, y);
            cells.push((cell.dots, cell.owner, cell.capacity));
        }
    }
    cells
}

/// The rules of the chain reaction written out once more on a plain vector,
/// to hold the library against.
fn replay(grid: &Grid, x: u8, y: u8, player: u8) -> (Option<Vec<(u8, u8, u8)>>, bool) {
    let width = grid.width() as usize;
    let height = grid.height() as usize;
    let mut cells = cells_of(grid);
    let mut seen = vec![false; width * height];
    let mut seen_count = 0usize;
    let start = y as usize * width + x as usize;
    cells[start].0 += 1;
    cells[start].1 = player;
    let mut queue = VecDeque::from([(x as usize, y as usize)]);
    let mut cascaded = false;
    while let Some((cx, cy)) = queue.pop_front() {
        if seen_count == width * height {
            return (None, true);
        }
        let place = cy * width + cx;
        if !seen[place] {
            seen_count += 1;
        }
        seen[place] = true;
        cells[place].1 = player;
        if cells[place].0 > cells[place].2 {
            cascaded = true;
            cells[place].0 -= cells[place].2;
            if cx > 0 {
                cells[place - 1].0 += 1;
                queue.push_back((cx - 1, cy));
            }
            if cy > 0 {
                cells[place - width].0 += 1;
                queue.push_back((cx, cy - 1));
            }
            if cx < width - 1 {
                cells[place + 1].0 += 1;
                queue.push_back((cx + 1, cy));
            }
            if cy < height - 1 {
                cells[place + width].0 += 1;
                queue.push_back((cx, cy + 1));
            }
        }
    }
    (Some(cells), cascaded)
}

#[test]
fn new_grid_has_unclaimed_cells_without_capacity() {
    let grid = Grid::new(3, 2, 4);
    assert_eq!(grid.width(), 3);
    assert_eq!(grid.height(), 2);
    assert_eq!(grid.player_count(), 4);
    assert_eq!(grid.len(), 6);
    assert_eq!(cells_of(&grid), vec![(1, 0, 0); 6]);
    assert!(!grid.is_settled());
}

#[test]
fn default_cell_holds_one_charge() {
    let cell = GridCell::default();
    assert_eq!((cell.dots, cell.owner, cell.capacity), (1, 0, 0));
    assert!(!cell.is_full());
    assert!(GridCell { dots: 3, owner: 1, capacity: 3 }.is_full());
}

#[test]
fn capacities_follow_position() {
    let grid = fresh(4, 3, 2);
    let capacities: Vec<u8> = cells_of(&grid).iter().map(|c| c.2).collect();
    assert_eq!(capacities, vec![2, 3, 3, 2, 3, 4, 4, 3, 2, 3, 3, 2]);
    assert!(grid.is_settled());
}

#[test]
fn capacities_on_a_single_row() {
    let grid = fresh(3, 1, 2);
    let capacities: Vec<u8> = cells_of(&grid).iter().map(|c| c.2).collect();
    assert_eq!(capacities, vec![2, 3, 2]);
}

#[test]
fn init_capacity_keeps_charges_and_owners() {
    let mut grid = Grid::new(2, 2, 2);
    grid.set_cell(1, 0, GridCell { dots: 2, owner: 2, capacity: 9 });
    grid.init_capacity();
    assert_eq!(cells_of(&grid), vec![(1, 0, 2), (2, 2, 2), (1, 0, 2), (1, 0, 2)]);
}

#[test]
fn quiet_move_adds_one_charge() {
    let grid = fresh(3, 3, 2);
    let (after, cascaded) = grid.with_move(1, 1, 2);
    let after = after.unwrap();
    assert!(!cascaded);
    assert_eq!(after.cell(1, 1).dots, 2);
    assert_eq!(after.cell(1, 1).owner, 2);
    assert_eq!(after.score_for_player(2), 1);
    assert_eq!(after.score_for_player(1), -1);
    assert_eq!(grid.cell(1, 1).dots, 1);
    assert_eq!(grid.cell(1, 1).owner, 0);
}

#[test]
fn overflow_spills_to_neighbours() {
    let grid = fresh(2, 2, 2);
    let grid = grid.with_move(0, 0, 1).0.unwrap();
    let (after, cascaded) = grid.with_move(0, 0, 1);
    let after = after.unwrap();
    assert!(cascaded);
    assert_eq!(cells_of(&after), vec![(1, 1, 2), (2, 1, 2), (2, 1, 2), (1, 0, 2)]);
    assert!(after.is_settled());
    assert_eq!(after.width(), 2);
    assert_eq!(after.height(), 2);
    assert_eq!(after.player_count(), 2);
}

#[test]
fn reaction_over_the_whole_board_decides_the_game() {
    let mut grid = fresh(2, 2, 2);
    for y in 0..2 {
        for x in 0..2 {
            grid.set_cell(x, y, GridCell { dots: 2, owner: 1, capacity: 2 });
        }
    }
    assert!(grid.is_settled());
    let (after, cascaded) = grid.with_move(0, 0, 1);
    assert!(after.is_none());
    assert!(cascaded);
}

#[test]
fn single_cell_board_never_spills_onto_anything() {
    let grid = fresh(1, 1, 2);
    let grid = grid.with_move(0, 0, 1).0.unwrap();
    assert_eq!(cells_of(&grid), vec![(2, 1, 2)]);
    let (after, cascaded) = grid.with_move(0, 0, 1);
    assert!(cascaded);
    assert_eq!(cells_of(&after.unwrap()), vec![(1, 1, 2)]);
}

#[test]
fn score_counts_own_cells_against_others() {
    let mut grid = fresh(3, 1, 3);
    grid.set_cell(0, 0, GridCell { dots: 1, owner: 1, capacity: 2 });
    grid.set_cell(1, 0, GridCell { dots: 1, owner: 2, capacity: 3 });
    assert_eq!(grid.score_for_player(1), 0);
    assert_eq!(grid.score_for_player(2), 0);
    assert_eq!(grid.score_for_player(3), -2);
    grid.set_cell(2, 0, GridCell { dots: 1, owner: 1, capacity: 2 });
    assert_eq!(grid.score_for_player(1), 1);
    assert_eq!(grid.score_for_player(2), -1);
}

#[test]
fn two_player_scores_mirror_each_other_on_a_full_board() {
    let mut grid = fresh(3, 3, 2);
    let owners = [1, 2, 2, 1, 1, 2, 1, 1, 1];
    for (i, owner) in owners.iter().enumerate() {
        let x = (i % 3) as u8;
        let y = (i / 3) as u8;
        let cell = grid.cell(x, y);
        grid.set_cell(x, y, GridCell { dots: cell.dots, owner: *owner, capacity: cell.capacity });
    }
    assert_eq!(grid.score_for_player(1), 3);
    assert_eq!(grid.score_for_player(1), -grid.score_for_player(2));
}

#[test]
fn moves_agree_with_the_rules_written_out() {
    let mut rng = StdRng::seed_from_u64(7);
    for (width, height) in [(2u8, 2u8), (3, 3), (4, 3), (1, 5), (5, 5)] {
        let mut grid = fresh(width, height, 3);
        let mut player = 1u8;
        for _ in 0..400 {
            let x = rng.random_range(0..width);
            let y = rng.random_range(0..height);
            let owner = grid.cell(x, y).owner;
            if owner != 0 && owner != player {
                continue;
            }
            assert!(grid.is_settled());
            let expected = replay(&grid, x, y, player);
            let (after, cascaded) = grid.with_move(x, y, player);
            assert_eq!(cascaded, expected.1);
            match after {
                Some(after) => {
                    assert_eq!(Some(cells_of(&after)), expected.0);
                    assert!(after.is_settled());
                    assert_eq!(after.width(), width);
                    assert_eq!(after.height(), height);
                    assert_eq!(after.player_count(), 3);
                    for y in 0..height {
                        for x in 0..width {
                            let now = after.cell(x, y);
                            let was = grid.cell(x, y);
                            assert!(
                                now.owner == player
                                    || (now.owner, now.dots, now.capacity)
                                        == (was.owner, was.dots, was.capacity)
                            );
                        }
                    }
                    assert!(after.score_for_player(player) >= grid.score_for_player(player));
                    grid = after;
                }
                None => {
                    assert!(expected.0.is_none());
                    grid = fresh(width, height, 3);
                }
            }
            player = player % 3 + 1;
        }
    }
}

#[test]
fn clone_is_independent() {
    let grid = fresh(2, 2, 2);
    let mut copy = grid.clone();
    copy.set_cell(0, 0, GridCell { dots: 2, owner: 1, capacity: 2 });
    assert_eq!(grid.cell(0, 0).dots, 1);
    assert_eq!(copy.cell(0, 0).dots, 2);
}

#[test]
fn rows_walk_the_board_top_to_bottom() {
    let mut grid = fresh(3, 2, 2);
    grid.set_cell(2, 1, GridCell { dots: 2, owner: 1, capacity: 2 });
    let rows = grid.iter().enumerate_u8();
    assert_eq!(rows.len(), 2);
    assert_eq!(rows[1].0, 1);
    assert_eq!(rows[1].1.len(), 3);
    assert_eq!(rows[1].1.cell(2).owner, 1);
    let cells = rows[0].1.iter().enumerate_u8();
    assert_eq!(cells.len(), 3);
    assert_eq!(cells[1].0, 1);
    assert_eq!(cells[1].1.capacity, 3);
    let mut walk = grid.iter();
    assert!(walk.next().is_some());
    let mut second = walk.next().unwrap().iter();
    assert_eq!(second.next().unwrap().capacity, 2);
    assert_eq!(second.next().unwrap().capacity, 3);
    assert_eq!(second.next().unwrap().dots, 2);
    assert!(second.next().is_none());
    assert!(walk.next().is_none());
}
