use common::ai::hard::Hard;
use common::ai::medium::Medium;
use common::ai::Ai;
use common::grid::Grid;
use rand::rngs::StdRng;
use rand::SeedableRng;

#[test]
fn basic_hard_test() {
    let mut ai: Hard<Medium<0>, 0> = Hard::default();
    for y in [0u8, 1] {
        for x in [0u8, 1] {
            let mut grid = Grid::new(2, 2, 2);
            grid.init_capacity();
            let grid = grid.with_move(x, y, 1).0.unwrap();
            ai.start_move(&grid);
            let result = ai.tick_inner(&grid, 2, &mut StdRng::seed_from_u64(0));
            assert_eq!(result, Some((1 - x, 1 - y)));
        }
    }
}
