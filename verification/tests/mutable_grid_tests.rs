use mazes::grid_primitives::{Col, Direction, GridPos, Row};
use mazes::immutable_grid::ImmutableGrid;
use mazes::mutable_linked_grid::{GridCell, LinkType, MutableLinkedGrid};
use mazes::random_source::{RandomSource, SourceError};

fn pos(row: usize, col: usize) -> GridPos {
    GridPos::new(Row(row), Col(col))
}

const DIRECTIONS: [Direction; 4] =
    [Direction::North, Direction::East, Direction::South, Direction::West];

fn open_flags(cell: &GridCell) -> (bool, bool, bool, bool) {
    (
        cell.is_open_to(Direction::North),
        cell.is_open_to(Direction::East),
        cell.is_open_to(Direction::South),
        cell.is_open_to(Direction::West),
    )
}

#[test]
fn unlinked_cell_is_closed_and_stays_closed() {
    let mut cell = GridCell::new(pos(1, 1));
    assert_eq!(cell.pos, pos(1, 1));
    for dir in DIRECTIONS {
        assert!(!cell.is_open_to(dir));
    }
    cell.set_link_status(Direction::North, LinkType::Open);
    assert!(!cell.is_open_to(Direction::North));
    assert!(cell.north.is_none());
}

#[test]
fn new_grid_links_every_cell_to_its_neighbors() {
    let grid = MutableLinkedGrid::new(2, 3);
    for row in 0..2 {
        for col in 0..3 {
            let cell = grid.get_cell(pos(row, col));
            assert_eq!(cell.pos, pos(row, col));
            assert_eq!(cell.north.is_some(), row < 1);
            assert_eq!(cell.south.is_some(), row > 0);
            assert_eq!(cell.east.is_some(), col < 2);
            assert_eq!(cell.west.is_some(), col > 0);
            assert_eq!(open_flags(cell), (false, false, false, false));
        }
    }
}

#[test]
fn links_hold_the_place_of_the_neighbor() {
    let grid = MutableLinkedGrid::new(3, 4);
    let cell = grid.get_cell(pos(1, 2));
    assert_eq!(cell.north.map(|link| link.cell), Some(2 * 4 + 2));
    assert_eq!(cell.east.map(|link| link.cell), Some(1 * 4 + 3));
    assert_eq!(cell.south.map(|link| link.cell), Some(0 * 4 + 2));
    assert_eq!(cell.west.map(|link| link.cell), Some(1 * 4 + 1));
    assert_eq!(cell.north.map(|link| link.status), Some(LinkType::Closed));
}

#[test]
fn set_link_status_opens_and_closes_a_link() {
    let grid = MutableLinkedGrid::new(2, 2);
    let mut cell = *grid.get_cell(pos(0, 0));
    cell.set_link_status(Direction::East, LinkType::Open);
    assert!(cell.is_open_to(Direction::East));
    assert!(!cell.is_open_to(Direction::North));
    cell.set_link_status(Direction::East, LinkType::Closed);
    assert!(!cell.is_open_to(Direction::East));
}

#[test]
fn mutable_grid_boundaries_match_its_size() {
    let grid = MutableLinkedGrid::new(2, 5);
    assert!(grid.at_northern_boundary(pos(1, 0)));
    assert!(!grid.at_northern_boundary(pos(0, 0)));
    assert!(grid.at_eastern_boundary(pos(0, 4)));
    assert!(!grid.at_eastern_boundary(pos(0, 3)));
    assert!(grid.at_southern_boundary(pos(0, 3)));
    assert!(grid.at_western_boundary(pos(1, 0)));
    assert_eq!(grid.get_relative_cell_pos(pos(0, 0), Direction::South), None);
    assert_eq!(grid.get_relative_cell_pos(pos(0, 0), Direction::East), Some(pos(0, 1)));
}

#[test]
fn mutable_iter_walks_the_rows_from_the_south() {
    let grid = MutableLinkedGrid::new(3, 2);
    let mut cells = grid.iter();
    let mut seen = Vec::new();
    while let Some(cell) = cells.next() {
        seen.push(cell.pos);
    }
    assert_eq!(
        seen,
        vec![pos(0, 0), pos(0, 1), pos(1, 0), pos(1, 1), pos(2, 0), pos(2, 1)]
    );
}

#[test]
fn mutable_sidewinder_follows_its_script() {
    let mut grid = MutableLinkedGrid::new(2, 2);
    let mut source = RandomSource::scripted(vec![1, 1, 0]);
    assert_eq!(grid.run_sidewinder_algorithm(&mut source), Ok(()));
    assert_eq!(open_flags(grid.get_cell(pos(0, 0))), (false, true, false, false));
    assert_eq!(open_flags(grid.get_cell(pos(0, 1))), (true, false, false, true));
    assert_eq!(open_flags(grid.get_cell(pos(1, 0))), (false, true, false, false));
    assert_eq!(open_flags(grid.get_cell(pos(1, 1))), (false, false, true, true));
}

#[test]
fn mutable_sidewinder_stops_where_the_script_fails() {
    let mut grid = MutableLinkedGrid::new(2, 2);
    let mut source = RandomSource::scripted(vec![1, 1]);
    assert_eq!(grid.run_sidewinder_algorithm(&mut source), Err(SourceError::Exhausted));
    // what was carved before the failure stays
    assert_eq!(open_flags(grid.get_cell(pos(0, 0))), (false, true, false, false));
    assert_eq!(open_flags(grid.get_cell(pos(0, 1))), (true, false, false, true));
    assert_eq!(open_flags(grid.get_cell(pos(1, 0))), (false, true, false, false));
    let mut grid = MutableLinkedGrid::new(2, 2);
    let mut source = RandomSource::scripted(vec![5]);
    assert_eq!(grid.run_sidewinder_algorithm(&mut source), Err(SourceError::OutOfRange));
    assert_eq!(open_flags(grid.get_cell(pos(0, 0))), (false, false, false, false));
}

#[test]
fn mutable_sidewinder_carves_the_maze_of_the_immutable_grid() {
    for (rows, columns, seed) in [(1usize, 1usize, 0u64), (3, 5, 1), (6, 6, 2), (8, 3, 3)] {
        let mut mutable = MutableLinkedGrid::new(rows, columns);
        let mut source = RandomSource::from_seed(seed);
        assert_eq!(mutable.run_sidewinder_algorithm(&mut source), Ok(()));
        let mut source = RandomSource::from_seed(seed);
        let immutable = match ImmutableGrid::new(columns, rows).run_sidewinder_algorithm(&mut source) {
            Ok(grid) => grid,
            Err(e) => panic!("a seeded source does not fail: {:?}", e),
        };
        let mut passages = 0;
        for p in immutable.positions() {
            let cell = immutable.get(&p).unwrap();
            assert_eq!(
                open_flags(mutable.get_cell(p)),
                (cell.north_open, cell.east_open, cell.south_open, cell.west_open)
            );
            for dir in [Direction::North, Direction::East] {
                if mutable.get_cell(p).is_open_to(dir) {
                    passages += 1;
                }
            }
        }
        assert_eq!(passages, rows * columns - 1);
    }
}
