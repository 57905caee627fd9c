use mazes::dijkstra::Dijkstra;
use mazes::grid_primitives::{Col, Direction, GridPos, Row};
use mazes::immutable_grid::ImmutableGrid;
use mazes::random_source::RandomSource;

fn pos(row: usize, col: usize) -> GridPos {
    GridPos::new(Row(row), Col(col))
}

/// A maze carved by the sidewinder algorithm: the flood fill is meant for
/// a grid in which every cell can be reached.
fn maze(columns: usize, rows: usize, seed: u64) -> ImmutableGrid {
    let mut source = RandomSource::from_seed(seed);
    match ImmutableGrid::new(columns, rows).run_sidewinder_algorithm(&mut source) {
        Ok(grid) => grid,
        Err(e) => panic!("a seeded source does not fail: {:?}", e),
    }
}

/// The 2x2 maze (0,0) - (0,1) - (1,1) - (1,0).
fn hook() -> ImmutableGrid {
    ImmutableGrid::new(2, 2)
        .link_cells(pos(0, 0), Direction::East)
        .link_cells(pos(0, 1), Direction::North)
        .link_cells(pos(1, 0), Direction::East)
}

/// One row of `columns` cells, all linked.
fn corridor(columns: usize) -> ImmutableGrid {
    let mut grid = ImmutableGrid::new(columns, 1);
    for col in 0..columns - 1 {
        grid = grid.link_cells(pos(0, col), Direction::East);
    }
    grid
}

#[test]
fn should_do_16_steps_in_4x4_grid() {
    let grid = maze(4, 4, 1);
    let mut d = Dijkstra::new(GridPos::new(Row(0), Col(0)));
    let mut steps = 0;
    while let Some(next) = d.step(&grid) {
        steps += 1;
        d = next;
    }
    assert_eq!(steps, 16);
}

#[test]
fn should_visit_each_pos_in_2x2_grid() {
    let grid = maze(2, 2, 2);
    let d = Dijkstra::new(GridPos::new(Row(0), Col(0)));
    let d = d.run_to_completion(&grid);
    let mut distance_positions: Vec<GridPos> = d.visited_positions();
    distance_positions.sort();
    assert_eq!(distance_positions, grid.positions());
}

#[test]
fn should_visit_each_pos_in_4x4_grid() {
    let grid = maze(2, 2, 3);
    let d = Dijkstra::new(GridPos::new(Row(0), Col(0)));
    let d = d.run_to_completion(&grid);
    let mut distance_positions: Vec<GridPos> = d.visited_positions();
    distance_positions.sort();
    assert_eq!(distance_positions, grid.positions());
}

#[test]
fn should_visit_each_pos_in_4x8_grid() {
    let grid = maze(4, 8, 4);
    let d = Dijkstra::new(GridPos::new(Row(0), Col(0)));
    let d = d.run_to_completion(&grid);
    let mut distance_positions: Vec<GridPos> = d.visited_positions();
    distance_positions.sort();
    assert_eq!(distance_positions, grid.positions());
}

#[test]
fn should_visit_each_pos_in_8x30_grid() {
    let grid = maze(8, 30, 5);
    let d = Dijkstra::new(GridPos::new(Row(0), Col(0)));
    let d = d.run_to_completion(&grid);
    let mut distance_positions: Vec<GridPos> = d.visited_positions();
    distance_positions.sort();
    assert_eq!(distance_positions, grid.positions());
}

#[test]
fn should_have_all_distances_at_least_up_to_6() {
    let grid = maze(4, 4, 6);
    let d = Dijkstra::new(GridPos::new(Row(0), Col(0)));
    let d = d.run_to_completion(&grid);
    let values: Vec<u32> =
        grid.positions().iter().filter_map(|p| d.distance_of(p)).collect();
    for x in 0u32..7u32 {
        assert!(values.iter().any(|&v| v == x));
    }
}

#[test]
fn new_field_knows_only_the_root() {
    let d = Dijkstra::new(pos(1, 2));
    assert_eq!(d.root, pos(1, 2));
    assert_eq!(d.max_distance, 0);
    assert_eq!(d.distance_of(&pos(1, 2)), Some(0));
    assert_eq!(d.distance_of(&pos(0, 0)), None);
    assert_eq!(d.visited_positions(), vec![pos(1, 2)]);
    assert!(d.is_active());
}

#[test]
fn step_on_a_walled_grid_visits_only_the_root() {
    let grid = ImmutableGrid::new(4, 4);
    let first = Dijkstra::new(pos(0, 0));
    let second = match first.step(&grid) {
        Some(next) => next,
        None => panic!("the root waits to be expanded"),
    };
    assert!(!second.is_active());
    assert_eq!(second.visited_positions(), vec![pos(0, 0)]);
    assert_eq!(second.max_distance, 0);
    assert!(second.step(&grid).is_none());
    let done = Dijkstra::new(pos(0, 0)).run_to_completion(&grid);
    assert_eq!(done.visited_positions().len(), 1);
    assert_eq!(done.distance_of(&pos(0, 1)), None);
}

#[test]
fn step_does_not_change_the_snapshot_it_starts_from() {
    let grid = hook();
    let first = Dijkstra::new(pos(0, 0));
    let second = first.step(&grid).expect("the root waits to be expanded");
    assert_eq!(first.visited_positions(), vec![pos(0, 0)]);
    assert_eq!(first.distance_of(&pos(0, 1)), None);
    assert_eq!(first.max_distance, 0);
    assert!(first.is_active());
    assert_eq!(second.distance_of(&pos(0, 1)), Some(1));
    assert_eq!(second.max_distance, 1);
}

#[test]
fn distances_count_the_passages_from_the_root() {
    let grid = hook();
    let done = Dijkstra::new(pos(0, 0)).run_to_completion(&grid);
    assert_eq!(done.distance_of(&pos(0, 0)), Some(0));
    assert_eq!(done.distance_of(&pos(0, 1)), Some(1));
    assert_eq!(done.distance_of(&pos(1, 1)), Some(2));
    assert_eq!(done.distance_of(&pos(1, 0)), Some(3));
    assert_eq!(done.max_distance, 3);
    assert!(!done.is_active());
}

#[test]
fn distances_from_the_middle_of_a_corridor() {
    let grid = corridor(5);
    let done = Dijkstra::new(pos(0, 2)).run_to_completion(&grid);
    let distances: Vec<Option<u32>> =
        (0..5).map(|col| done.distance_of(&pos(0, col))).collect();
    assert_eq!(distances, vec![Some(2), Some(1), Some(0), Some(1), Some(2)]);
    assert_eq!(done.max_distance, 2);
}

#[test]
fn frontier_is_first_in_first_out() {
    // From the middle of a corridor the eastern neighbor is found before
    // the western one, so it is expanded first.
    let grid = corridor(5);
    let states = Dijkstra::new(pos(0, 2)).run_to_completion_all(&grid);
    assert_eq!(states[1].distance_of(&pos(0, 3)), Some(1));
    assert_eq!(states[1].distance_of(&pos(0, 1)), Some(1));
    assert_eq!(states[2].distance_of(&pos(0, 4)), Some(2));
    assert_eq!(states[2].distance_of(&pos(0, 0)), None);
    assert_eq!(states[3].distance_of(&pos(0, 0)), Some(2));
}

#[test]
fn run_to_completion_all_keeps_every_snapshot() {
    let grid = hook();
    let states = Dijkstra::new(pos(0, 0)).run_to_completion_all(&grid);
    assert_eq!(states.len(), 5);
    let visited: Vec<usize> = states.iter().map(|s| s.visited_positions().len()).collect();
    assert_eq!(visited, vec![1, 2, 3, 4, 4]);
    let largest: Vec<u32> = states.iter().map(|s| s.max_distance).collect();
    assert_eq!(largest, vec![0, 1, 2, 3, 3]);
    let active: Vec<bool> = states.iter().map(|s| s.is_active()).collect();
    assert_eq!(active, vec![true, true, true, true, false]);
}

#[test]
fn run_to_completion_all_takes_one_step_per_cell() {
    for (columns, rows, seed) in [(1usize, 1usize, 0u64), (2, 2, 1), (4, 4, 2), (4, 8, 3), (8, 30, 4)] {
        let grid = maze(columns, rows, seed);
        let states = Dijkstra::new(pos(rows / 2, columns / 2)).run_to_completion_all(&grid);
        assert_eq!(states.len(), rows * columns + 1);
        assert_eq!(states[states.len() - 1].visited_positions().len(), rows * columns);
    }
}

#[test]
fn run_to_completion_ends_as_run_to_completion_all() {
    let grid = maze(6, 5, 17);
    let done = Dijkstra::new(pos(2, 2)).run_to_completion(&grid);
    let states = Dijkstra::new(pos(2, 2)).run_to_completion_all(&grid);
    let last = &states[states.len() - 1];
    for p in grid.positions() {
        assert_eq!(done.distance_of(&p), last.distance_of(&p));
    }
    assert_eq!(done.max_distance, last.max_distance);
}

#[test]
fn every_root_reaches_every_cell_of_a_maze() {
    let grid = maze(5, 4, 8);
    for root in grid.positions() {
        let done = Dijkstra::new(root).run_to_completion(&grid);
        let mut visited = done.visited_positions();
        visited.sort();
        assert_eq!(visited, grid.positions());
        assert_eq!(done.distance_of(&root), Some(0));
    }
}

#[test]
fn max_distance_is_the_largest_distance() {
    let grid = maze(7, 6, 12);
    let done = Dijkstra::new(pos(0, 0)).run_to_completion(&grid);
    let largest = grid.positions().iter().filter_map(|p| done.distance_of(p)).max();
    assert_eq!(largest, Some(done.max_distance));
}

#[test]
fn neighbors_through_a_passage_differ_by_one() {
    let grid = maze(6, 6, 30);
    let done = Dijkstra::new(pos(3, 3)).run_to_completion(&grid);
    for p in grid.positions() {
        let cell = grid.get(&p).unwrap();
        for dir in [Direction::North, Direction::East] {
            if cell.is_open_to(dir) {
                let q = grid.get_relative_cell_pos(p, dir).unwrap();
                let a = done.distance_of(&p).unwrap();
                let b = done.distance_of(&q).unwrap();
                assert!(a + 1 == b || b + 1 == a);
            }
        }
    }
}

#[test]
fn a_grid_that_is_not_connected_leaves_cells_without_distance() {
    let grid = ImmutableGrid::new(3, 1).link_cells(pos(0, 0), Direction::East);
    let done = Dijkstra::new(pos(0, 0)).run_to_completion(&grid);
    assert_eq!(done.distance_of(&pos(0, 1)), Some(1));
    assert_eq!(done.distance_of(&pos(0, 2)), None);
    let mut visited = done.visited_positions();
    visited.sort();
    assert_eq!(visited, vec![pos(0, 0), pos(0, 1)]);
}

#[test]
fn snapshot_at_stops_at_the_last_snapshot() {
    let grid = hook();
    let states = Dijkstra::new(pos(0, 0)).run_to_completion_all(&grid);
    let visited: Vec<usize> = [0usize, 1, 3, 4, 5, 1000, usize::MAX]
        .iter()
        .map(|&step| Dijkstra::snapshot_at(&states, step).visited_positions().len())
        .collect();
    assert_eq!(visited, vec![1, 2, 4, 4, 4, 4, 4]);
    assert_eq!(Dijkstra::snapshot_at(&states, 2).max_distance, 2);
}
