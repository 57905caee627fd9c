use mazes::grid_primitives::{Col, Direction, GridPos, Row};
use mazes::immutable_grid::{GridCell, ImmutableGrid};
use mazes::random_source::{RandomSource, SourceError};

fn pos(row: usize, col: usize) -> GridPos {
    GridPos::new(Row(row), Col(col))
}

fn flags(cell: &GridCell) -> (bool, bool, bool, bool) {
    (cell.north_open, cell.east_open, cell.south_open, cell.west_open)
}

fn all_flags(grid: &ImmutableGrid) -> Vec<(GridPos, (bool, bool, bool, bool))> {
    grid.positions().into_iter().map(|p| (p, flags(grid.get(&p).unwrap()))).collect()
}

fn sidewinder(columns: usize, rows: usize, seed: u64) -> ImmutableGrid {
    let mut source = RandomSource::from_seed(seed);
    match ImmutableGrid::new(columns, rows).run_sidewinder_algorithm(&mut source) {
        Ok(grid) => grid,
        Err(e) => panic!("a seeded source does not fail: {:?}", e),
    }
}

/// The passages of a grid, each once: from the southern or western cell.
fn passages(grid: &ImmutableGrid) -> Vec<(GridPos, Direction)> {
    let mut found = Vec::new();
    for p in grid.positions() {
        let cell = grid.get(&p).unwrap();
        for dir in [Direction::North, Direction::East] {
            if cell.is_open_to(dir) && grid.get_relative_cell_pos(p, dir).is_some() {
                found.push((p, dir));
            }
        }
    }
    found
}

fn is_symmetric(grid: &ImmutableGrid) -> bool {
    for p in grid.positions() {
        let cell = grid.get(&p).unwrap();
        for dir in [Direction::North, Direction::East, Direction::South, Direction::West] {
            match grid.get_relative_cell_pos(p, dir) {
                Some(q) => {
                    if cell.is_open_to(dir) != grid.get(&q).unwrap().is_open_to(dir.reverse_dir()) {
                        return false;
                    }
                }
                None => {
                    if cell.is_open_to(dir) {
                        return false;
                    }
                }
            }
        }
    }
    true
}

/// The cells that can be reached from the south-west corner.
fn reachable(grid: &ImmutableGrid) -> Vec<GridPos> {
    let mut seen = vec![pos(0, 0)];
    let mut next = 0;
    while next < seen.len() {
        let p = seen[next];
        next += 1;
        let cell = grid.get(&p).unwrap();
        for dir in [Direction::North, Direction::East, Direction::South, Direction::West] {
            if cell.is_open_to(dir) {
                if let Some(q) = grid.get_relative_cell_pos(p, dir) {
                    if !seen.contains(&q) {
                        seen.push(q);
                    }
                }
            }
        }
    }
    seen.sort();
    seen
}

#[test]
fn seeded_source_draws_below_the_bound() {
    let mut source = RandomSource::from_seed(11);
    for bound in 1..40usize {
        for _ in 0..20 {
            match source.next_below(bound) {
                Ok(v) => assert!(v < bound),
                Err(e) => panic!("a seeded source does not fail: {:?}", e),
            }
        }
    }
}

#[test]
fn seeded_sources_of_one_seed_draw_the_same_numbers() {
    for seed in [0u64, 1, 7, u64::MAX] {
        let mut first = RandomSource::from_seed(seed);
        let mut second = RandomSource::from_seed(seed);
        for bound in 1..60usize {
            assert_eq!(first.next_below(bound), second.next_below(bound));
        }
    }
}

#[test]
fn seeded_sources_of_different_seeds_differ() {
    let draws = |seed: u64| -> Vec<Result<usize, SourceError>> {
        let mut source = RandomSource::from_seed(seed);
        (0..40).map(|_| source.next_below(1000)).collect()
    };
    assert_ne!(draws(1), draws(2));
    assert_ne!(draws(0), draws(u64::MAX));
}

#[test]
fn seeded_source_draws_both_coin_sides() {
    let mut source = RandomSource::from_seed(5);
    let mut zeros = 0;
    let mut ones = 0;
    for _ in 0..200 {
        match source.next_below(2) {
            Ok(0) => zeros += 1,
            Ok(1) => ones += 1,
            other => panic!("not a coin: {:?}", other),
        }
    }
    assert!(zeros > 0);
    assert!(ones > 0);
}

#[test]
fn seeded_source_picks_one_of_the_items() {
    let mut source = RandomSource::from_seed(3);
    let items = vec![pos(0, 0), pos(0, 1), pos(0, 2)];
    let mut seen = Vec::new();
    for _ in 0..100 {
        match source.pick_from(&items) {
            Ok(p) => {
                assert!(items.contains(&p));
                if !seen.contains(&p) {
                    seen.push(p);
                }
            }
            Err(e) => panic!("a seeded source does not fail: {:?}", e),
        }
    }
    assert_eq!(seen.len(), 3);
}

#[test]
fn scripted_source_hands_out_its_numbers_in_order() {
    let mut source = RandomSource::scripted(vec![1, 0, 4]);
    assert_eq!(source.next_below(2), Ok(1));
    assert_eq!(source.next_below(2), Ok(0));
    assert_eq!(source.next_below(5), Ok(4));
    assert_eq!(source.next_below(5), Err(SourceError::Exhausted));
}

#[test]
fn scripted_source_rejects_a_number_out_of_range_and_stays() {
    let mut source = RandomSource::scripted(vec![2, 7]);
    assert_eq!(source.next_below(2), Err(SourceError::OutOfRange));
    assert_eq!(source.next_below(3), Ok(2));
    assert_eq!(source.next_below(7), Err(SourceError::OutOfRange));
    assert_eq!(source.next_below(8), Ok(7));
}

#[test]
fn scripted_source_picks_by_index() {
    let mut source = RandomSource::scripted(vec![2, 0, 3]);
    let items = vec![pos(0, 0), pos(0, 1), pos(0, 2)];
    assert_eq!(source.pick_from(&items), Ok(pos(0, 2)));
    assert_eq!(source.pick_from(&items), Ok(pos(0, 0)));
    assert_eq!(source.pick_from(&items), Err(SourceError::OutOfRange));
}

#[test]
fn sidewinder_follows_its_script_on_2x2() {
    let mut source = RandomSource::scripted(vec![1, 1, 0, 9]);
    let grid = match ImmutableGrid::new(2, 2).run_sidewinder_algorithm(&mut source) {
        Ok(grid) => grid,
        Err(e) => panic!("the script is long enough: {:?}", e),
    };
    assert_eq!(
        all_flags(&grid),
        vec![
            (pos(0, 0), (false, true, false, false)),
            (pos(0, 1), (true, false, false, true)),
            (pos(1, 0), (false, true, false, false)),
            (pos(1, 1), (false, false, true, true)),
        ]
    );
    match source {
        RandomSource::Scripted { draws, next } => {
            assert_eq!(draws, vec![1, 1, 0, 9]);
            assert_eq!(next, 3);
        }
        RandomSource::Seeded(_) => panic!("the source was a script"),
    }
}

#[test]
fn sidewinder_closes_a_run_on_coin_zero() {
    // Row 0 of a 3x2 grid: the coin 0 closes the run at the first cell, which
    // is carved north; the rest of the row forms the second run.
    let mut source = RandomSource::scripted(vec![0, 0, 1, 1, 2]);
    let grid = match ImmutableGrid::new(3, 2).run_sidewinder_algorithm(&mut source) {
        Ok(grid) => grid,
        Err(e) => panic!("the script is long enough: {:?}", e),
    };
    assert_eq!(
        all_flags(&grid),
        vec![
            (pos(0, 0), (true, false, false, false)),
            (pos(0, 1), (false, true, false, false)),
            (pos(0, 2), (true, false, false, true)),
            (pos(1, 0), (false, true, true, false)),
            (pos(1, 1), (false, true, false, true)),
            (pos(1, 2), (false, false, true, true)),
        ]
    );
}

#[test]
fn sidewinder_fails_when_the_script_is_exhausted() {
    let mut source = RandomSource::scripted(vec![1, 1]);
    let carved = ImmutableGrid::new(2, 2).run_sidewinder_algorithm(&mut source);
    assert!(matches!(carved, Err(SourceError::Exhausted)));
    let mut empty = RandomSource::scripted(Vec::new());
    let carved = ImmutableGrid::new(1, 1).run_sidewinder_algorithm(&mut empty);
    assert!(matches!(carved, Err(SourceError::Exhausted)));
}

#[test]
fn sidewinder_fails_on_a_number_out_of_range() {
    let mut source = RandomSource::scripted(vec![2, 0, 0]);
    let carved = ImmutableGrid::new(2, 2).run_sidewinder_algorithm(&mut source);
    assert!(matches!(carved, Err(SourceError::OutOfRange)));
    let mut source = RandomSource::scripted(vec![1, 2, 0]);
    let carved = ImmutableGrid::new(2, 2).run_sidewinder_algorithm(&mut source);
    assert!(matches!(carved, Err(SourceError::OutOfRange)));
}

#[test]
fn sidewinder_on_1x1_carves_nothing() {
    let grid = sidewinder(1, 1, 9);
    assert_eq!(all_flags(&grid), vec![(pos(0, 0), (false, false, false, false))]);
}

#[test]
fn sidewinder_has_one_passage_less_than_cells() {
    for (columns, rows) in [(1, 1), (1, 5), (5, 1), (2, 2), (4, 4), (4, 8), (8, 30), (20, 20)] {
        for seed in 0..5u64 {
            let grid = sidewinder(columns, rows, seed);
            assert_eq!(passages(&grid).len(), rows * columns - 1);
        }
    }
}

#[test]
fn sidewinder_maze_is_connected_and_symmetric() {
    for (columns, rows) in [(1, 1), (1, 5), (5, 1), (2, 2), (4, 4), (4, 8), (8, 30)] {
        for seed in 0..5u64 {
            let grid = sidewinder(columns, rows, seed);
            assert!(is_symmetric(&grid));
            assert_eq!(reachable(&grid), grid.positions());
        }
    }
}

#[test]
fn sidewinder_links_the_whole_northern_row() {
    let grid = sidewinder(6, 4, 21);
    for col in 0..5 {
        assert!(grid.get(&pos(3, col)).unwrap().is_open_to(Direction::East));
    }
    for col in 0..6 {
        assert!(!grid.get(&pos(3, col)).unwrap().is_open_to(Direction::North));
    }
    assert!(!grid.get(&pos(3, 5)).unwrap().is_open_to(Direction::East));
}

#[test]
fn sidewinder_is_the_same_for_the_same_seed() {
    for seed in [0u64, 1, 42, 2024] {
        let first = sidewinder(8, 6, seed);
        let second = sidewinder(8, 6, seed);
        assert_eq!(all_flags(&first), all_flags(&second));
    }
}

#[test]
fn sidewinder_is_the_same_for_the_same_script() {
    let script = vec![1, 0, 1, 1, 2, 0, 0, 1, 0, 1, 1, 0, 2, 3, 0, 0];
    let mut first_source = RandomSource::scripted(script.clone());
    let mut second_source = RandomSource::scripted(script);
    let first = ImmutableGrid::new(3, 3).run_sidewinder_algorithm(&mut first_source);
    let second = ImmutableGrid::new(3, 3).run_sidewinder_algorithm(&mut second_source);
    match (first, second) {
        (Ok(a), Ok(b)) => assert_eq!(all_flags(&a), all_flags(&b)),
        (Err(a), Err(b)) => assert_eq!(a, b),
        _ => panic!("one run failed and the other did not"),
    }
}

#[test]
fn sidewinder_differs_between_some_seeds() {
    let first = all_flags(&sidewinder(10, 10, 1));
    let mut differs = false;
    for seed in 2..10u64 {
        if all_flags(&sidewinder(10, 10, seed)) != first {
            differs = true;
        }
    }
    assert!(differs);
}

#[test]
fn binary_tree_follows_its_script_on_2x2() {
    let mut source = RandomSource::scripted(vec![1, 0, 0]);
    let grid = match ImmutableGrid::new(2, 2).run_binary_tree_algorithm(&mut source) {
        Ok(grid) => grid,
        Err(e) => panic!("the script is long enough: {:?}", e),
    };
    assert_eq!(
        all_flags(&grid),
        vec![
            (pos(0, 0), (true, false, false, false)),
            (pos(0, 1), (true, false, false, false)),
            (pos(1, 0), (false, true, true, false)),
            (pos(1, 1), (false, false, true, true)),
        ]
    );
}

#[test]
fn binary_tree_fails_when_the_script_fails() {
    let mut source = RandomSource::scripted(vec![1, 0]);
    let carved = ImmutableGrid::new(2, 2).run_binary_tree_algorithm(&mut source);
    assert!(matches!(carved, Err(SourceError::Exhausted)));
    let mut source = RandomSource::scripted(vec![0, 1, 0]);
    let carved = ImmutableGrid::new(2, 2).run_binary_tree_algorithm(&mut source);
    assert!(matches!(carved, Err(SourceError::OutOfRange)));
}

#[test]
fn binary_tree_carves_one_passage_from_every_cell_but_the_corner() {
    for seed in 0..5u64 {
        let mut source = RandomSource::from_seed(seed);
        let grid = match ImmutableGrid::new(7, 5).run_binary_tree_algorithm(&mut source) {
            Ok(grid) => grid,
            Err(e) => panic!("a seeded source does not fail: {:?}", e),
        };
        assert!(is_symmetric(&grid));
        assert_eq!(passages(&grid).len(), 7 * 5 - 1);
        assert_eq!(reachable(&grid), grid.positions());
        for p in grid.positions() {
            let cell = grid.get(&p).unwrap();
            let carved = [Direction::North, Direction::East]
                .iter()
                .filter(|dir| cell.is_open_to(**dir))
                .count();
            if p == pos(4, 6) {
                assert_eq!(carved, 0);
            } else {
                assert_eq!(carved, 1);
            }
        }
    }
}
