use mazes::grid_primitives::{Col, Direction, GridPos, Row};
use mazes::immutable_grid::{GridCell, ImmutableGrid};

fn pos(row: usize, col: usize) -> GridPos {
    GridPos::new(Row(row), Col(col))
}

fn flags(cell: &GridCell) -> (bool, bool, bool, bool) {
    (cell.north_open, cell.east_open, cell.south_open, cell.west_open)
}

const DIRECTIONS: [Direction; 4] =
    [Direction::North, Direction::East, Direction::South, Direction::West];

#[test]
fn grid_pos_new_keeps_row_and_column() {
    let p = GridPos::new(Row(3), Col(5));
    assert_eq!(p.row, Row(3));
    assert_eq!(p.col, Col(5));
}

#[test]
fn grid_pos_is_ordered_by_row_then_column() {
    assert!(pos(0, 5) < pos(1, 0));
    assert!(pos(2, 1) < pos(2, 2));
    assert!(pos(2, 2) == pos(2, 2));
    let mut all = vec![pos(1, 1), pos(0, 1), pos(1, 0), pos(0, 0)];
    all.sort();
    assert_eq!(all, vec![pos(0, 0), pos(0, 1), pos(1, 0), pos(1, 1)]);
}

#[test]
fn reverse_dir_swaps_opposites() {
    assert_eq!(Direction::North.reverse_dir(), Direction::South);
    assert_eq!(Direction::South.reverse_dir(), Direction::North);
    assert_eq!(Direction::East.reverse_dir(), Direction::West);
    assert_eq!(Direction::West.reverse_dir(), Direction::East);
}

#[test]
fn reverse_dir_is_involutive() {
    for dir in DIRECTIONS {
        assert_eq!(dir.reverse_dir().reverse_dir(), dir);
        assert_ne!(dir.reverse_dir(), dir);
    }
}

#[test]
fn direction_iter_gives_north_south_east_west() {
    let dirs = Direction::iter();
    assert_eq!(
        dirs.to_vec(),
        vec![Direction::North, Direction::South, Direction::East, Direction::West]
    );
}

#[test]
fn new_cell_is_closed_on_all_sides() {
    let cell = GridCell::new(pos(2, 3));
    assert_eq!(cell.pos, pos(2, 3));
    for dir in DIRECTIONS {
        assert!(!cell.is_open_to(dir));
    }
}

#[test]
fn is_open_to_reads_the_flag_of_the_direction() {
    let cell = GridCell { pos: pos(0, 0), north_open: true, east_open: false, south_open: false, west_open: true };
    assert!(cell.is_open_to(Direction::North));
    assert!(!cell.is_open_to(Direction::East));
    assert!(!cell.is_open_to(Direction::South));
    assert!(cell.is_open_to(Direction::West));
}

#[test]
fn new_grid_has_a_closed_cell_at_every_position() {
    let grid = ImmutableGrid::new(3, 2);
    for row in 0..2 {
        for col in 0..3 {
            let cell = grid.get(&pos(row, col)).expect("a cell at every position");
            assert_eq!(cell.pos, pos(row, col));
            assert_eq!(flags(cell), (false, false, false, false));
        }
    }
}

#[test]
fn get_outside_the_grid_is_none() {
    let grid = ImmutableGrid::new(3, 2);
    assert!(grid.get(&pos(2, 0)).is_none());
    assert!(grid.get(&pos(0, 3)).is_none());
    assert!(grid.get(&pos(7, 7)).is_none());
}

#[test]
fn one_by_one_grid_is_boundary_on_all_sides() {
    let grid = ImmutableGrid::new(1, 1);
    let p = pos(0, 0);
    assert!(grid.at_northern_boundary(p));
    assert!(grid.at_eastern_boundary(p));
    assert!(grid.at_southern_boundary(p));
    assert!(grid.at_western_boundary(p));
    for dir in DIRECTIONS {
        assert_eq!(grid.get_relative_cell_pos(p, dir), None);
    }
}

#[test]
fn boundary_predicates_follow_rows_and_columns() {
    let grid = ImmutableGrid::new(4, 3);
    assert!(grid.at_southern_boundary(pos(0, 2)));
    assert!(!grid.at_southern_boundary(pos(1, 2)));
    assert!(grid.at_northern_boundary(pos(2, 0)));
    assert!(!grid.at_northern_boundary(pos(1, 0)));
    assert!(grid.at_western_boundary(pos(1, 0)));
    assert!(!grid.at_western_boundary(pos(1, 1)));
    assert!(grid.at_eastern_boundary(pos(1, 3)));
    assert!(!grid.at_eastern_boundary(pos(1, 2)));
}

#[test]
fn relative_position_moves_one_step() {
    let grid = ImmutableGrid::new(4, 3);
    let p = pos(1, 2);
    assert_eq!(grid.get_relative_cell_pos(p, Direction::North), Some(pos(2, 2)));
    assert_eq!(grid.get_relative_cell_pos(p, Direction::East), Some(pos(1, 3)));
    assert_eq!(grid.get_relative_cell_pos(p, Direction::South), Some(pos(0, 2)));
    assert_eq!(grid.get_relative_cell_pos(p, Direction::West), Some(pos(1, 1)));
}

#[test]
fn relative_position_is_none_at_each_boundary() {
    let grid = ImmutableGrid::new(4, 3);
    assert_eq!(grid.get_relative_cell_pos(pos(0, 0), Direction::South), None);
    assert_eq!(grid.get_relative_cell_pos(pos(0, 0), Direction::West), None);
    assert_eq!(grid.get_relative_cell_pos(pos(2, 3), Direction::North), None);
    assert_eq!(grid.get_relative_cell_pos(pos(2, 3), Direction::East), None);
}

#[test]
fn relative_position_is_involutive_where_defined() {
    let grid = ImmutableGrid::new(5, 4);
    for p in grid.positions() {
        for dir in DIRECTIONS {
            if let Some(q) = grid.get_relative_cell_pos(p, dir) {
                assert_eq!(grid.get_relative_cell_pos(q, dir.reverse_dir()), Some(p));
            }
        }
    }
}

#[test]
fn link_opens_both_sides_of_the_wall() {
    let grid = ImmutableGrid::new(3, 3).link_cells(pos(1, 1), Direction::North);
    assert_eq!(flags(grid.get(&pos(1, 1)).unwrap()), (true, false, false, false));
    assert_eq!(flags(grid.get(&pos(2, 1)).unwrap()), (false, false, true, false));
    let grid = grid.link_cells(pos(1, 1), Direction::West);
    assert_eq!(flags(grid.get(&pos(1, 1)).unwrap()), (true, false, false, true));
    assert_eq!(flags(grid.get(&pos(1, 0)).unwrap()), (false, true, false, false));
    assert_eq!(flags(grid.get(&pos(0, 0)).unwrap()), (false, false, false, false));
}

#[test]
fn link_leaves_the_old_grid_as_it_was() {
    let before = ImmutableGrid::new(2, 2);
    let after = before.clone().link_cells(pos(0, 0), Direction::East);
    assert_eq!(flags(before.get(&pos(0, 0)).unwrap()), (false, false, false, false));
    assert_eq!(flags(before.get(&pos(0, 1)).unwrap()), (false, false, false, false));
    assert_eq!(flags(after.get(&pos(0, 0)).unwrap()), (false, true, false, false));
    assert_eq!(flags(after.get(&pos(0, 1)).unwrap()), (false, false, false, true));
}

#[test]
fn link_towards_a_boundary_opens_only_the_local_flag() {
    let grid = ImmutableGrid::new(2, 2).link_cells(pos(0, 0), Direction::South);
    assert_eq!(flags(grid.get(&pos(0, 0)).unwrap()), (false, false, true, false));
    assert_eq!(flags(grid.get(&pos(0, 1)).unwrap()), (false, false, false, false));
    assert_eq!(flags(grid.get(&pos(1, 0)).unwrap()), (false, false, false, false));
    assert_eq!(flags(grid.get(&pos(1, 1)).unwrap()), (false, false, false, false));
}

#[test]
fn link_twice_is_link_once() {
    let once = ImmutableGrid::new(3, 3).link_cells(pos(1, 1), Direction::East);
    let twice = once.clone().link_cells(pos(1, 1), Direction::East);
    for p in once.positions() {
        assert_eq!(flags(once.get(&p).unwrap()), flags(twice.get(&p).unwrap()));
    }
}

#[test]
fn grid_rows_lists_each_row_from_west_to_east() {
    let grid = ImmutableGrid::new(3, 2);
    let rows = grid.grid_rows();
    assert_eq!(
        rows,
        vec![
            (0, vec![pos(0, 0), pos(0, 1), pos(0, 2)]),
            (1, vec![pos(1, 0), pos(1, 1), pos(1, 2)]),
        ]
    );
}

#[test]
fn positions_are_all_positions_in_order() {
    let grid = ImmutableGrid::new(2, 3);
    assert_eq!(
        grid.positions(),
        vec![pos(0, 0), pos(0, 1), pos(1, 0), pos(1, 1), pos(2, 0), pos(2, 1)]
    );
}

#[test]
fn iter_gives_each_position_exactly_once() {
    let grid = ImmutableGrid::new(4, 3).link_cells(pos(0, 0), Direction::East);
    let mut seen: Vec<GridPos> = Vec::new();
    let mut cells = grid.iter();
    while let Some(cell) = cells.next() {
        assert_eq!(flags(&cell), flags(grid.get(&cell.pos).unwrap()));
        seen.push(cell.pos);
    }
    assert!(cells.next().is_none());
    assert_eq!(seen.len(), 12);
    seen.sort();
    assert_eq!(seen, grid.positions());
}

#[test]
fn iter_starts_over_when_called_again() {
    let grid = ImmutableGrid::new(2, 2);
    let mut first = grid.iter();
    let mut count = 0;
    while first.next().is_some() {
        count += 1;
    }
    let mut second = grid.iter();
    let mut again = 0;
    while second.next().is_some() {
        again += 1;
    }
    assert_eq!(count, 4);
    assert_eq!(again, 4);
}

#[test]
fn clone_holds_the_same_cells() {
    let grid = ImmutableGrid::new(3, 2).link_cells(pos(0, 1), Direction::North);
    let copy = grid.clone();
    for p in grid.positions() {
        assert_eq!(flags(grid.get(&p).unwrap()), flags(copy.get(&p).unwrap()));
    }
    assert_eq!(copy.positions(), grid.positions());
}
