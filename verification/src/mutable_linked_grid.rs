//! A grid whose cells are changed in place. The cells stand in one arena,
//! row by row; a link from a cell to a neighbor holds the neighbor's place
//! in the arena and says whether the wall between the two is open.

use vstd::prelude::*;
use crate::grid_model::{lemma_link_wf, lemma_neighbor_involutive, GridView};
use crate::random_source::{draw, lemma_draw_skip, source_follows, RandomSource, SourceError};
use crate::sidewinder::{
    carve_upto, close_decision, is_sidewinder_outcome, is_visit_outcome, lemma_all_carved,
    lemma_cell_carved, lemma_cell_failed, sidewinder, visit, Carving,
};
use crate::sidewinder_tree::lemma_outcome_perfect;
use crate::grid_primitives::{Col, Direction, GridPos, Row};

verus! {

/// Whether a passage crosses the wall between two neighbors.
#[derive(Debug, Copy, Clone, PartialEq, Eq, Structural)]
pub enum LinkType {
    Open,
    Closed,
}

/// A link from a cell to one of its neighbors.
#[derive(Debug, Copy, Clone)]
pub struct CellLink {
    /// The place of the neighbor in the arena.
    pub cell: usize,
    pub status: LinkType,
}

impl CellLink {
    /// This link with its status replaced.
    pub open spec fn with_status(self, status: LinkType) -> CellLink {
        CellLink { status, ..self }
    }

    fn new(cell: usize) -> (link: Self)
        ensures
            link.cell == cell,
            link.status == LinkType::Closed,
    {
        CellLink { cell: cell, status: LinkType::Closed }
    }
}

/// A cell: where it stands, and towards each direction the link to its
/// neighbor, if it has one there.
#[derive(Debug, Copy, Clone)]
pub struct GridCell {
    pub pos: GridPos,
    pub north: Option<CellLink>,
    pub east: Option<CellLink>,
    pub south: Option<CellLink>,
    pub west: Option<CellLink>,
}

impl GridCell {
    /// The cell at `pos` without any link.
    pub open spec fn unlinked(pos: GridPos) -> GridCell {
        GridCell { pos, north: None, east: None, south: None, west: None }
    }

    /// The link towards `dir`.
    pub open spec fn link_to(self, dir: Direction) -> Option<CellLink> {
        match dir {
            Direction::North => self.north,
            Direction::East => self.east,
            Direction::South => self.south,
            Direction::West => self.west,
        }
    }

    /// This cell with `link` in place of its link towards `dir`.
    pub open spec fn with_link(self, dir: Direction, link: Option<CellLink>) -> GridCell {
        match dir {
            Direction::North => GridCell { north: link, ..self },
            Direction::East => GridCell { east: link, ..self },
            Direction::South => GridCell { south: link, ..self },
            Direction::West => GridCell { west: link, ..self },
        }
    }

    /// This cell with the status of its link towards `dir` set, if it has
    /// a link there.
    pub open spec fn with_status(self, dir: Direction, status: LinkType) -> GridCell {
        match self.link_to(dir) {
            Some(link) => self.with_link(dir, Some(link.with_status(status))),
            None => self,
        }
    }

    /// Whether a link leads towards `dir` and is open.
    pub open spec fn open_to(self, dir: Direction) -> bool {
        self.link_to(dir) matches Some(link) && link.status == LinkType::Open
    }

    /// The position and the four flags of this cell.
    pub open spec fn flags(self) -> crate::immutable_grid::GridCell {
        crate::immutable_grid::GridCell {
            pos: self.pos,
            north_open: self.open_to(Direction::North),
            east_open: self.open_to(Direction::East),
            south_open: self.open_to(Direction::South),
            west_open: self.open_to(Direction::West),
        }
    }

    pub fn new(grid_pos: GridPos) -> (cell: Self)
        ensures
            cell == GridCell::unlinked(grid_pos),
    {
        GridCell { pos: grid_pos, north: None, east: None, south: None, west: None }
    }

    fn get_link(&self, dir: Direction) -> (link: &Option<CellLink>)
        ensures
            *link == self.link_to(dir),
    {
        match dir {
            Direction::North => &self.north,
            Direction::East => &self.east,
            Direction::South => &self.south,
            Direction::West => &self.west,
        }
    }

    fn get_link_mut(&mut self, dir: Direction) -> (link: &mut Option<CellLink>)
        ensures
            *link == old(self).link_to(dir),
            *final(self) == old(self).with_link(dir, *final(link)),
    {
        match dir {
            Direction::North => &mut self.north,
            Direction::East => &mut self.east,
            Direction::South => &mut self.south,
            Direction::West => &mut self.west,
        }
    }

    /// The place in the arena of the neighbor towards `dir`, if this cell
    /// has a link there.
    fn get_relative_cell(&self, dir: Direction) -> (neighbor: Option<usize>)
        ensures
            neighbor == (match self.link_to(dir) {
                Some(link) => Some(link.cell),
                None => None,
            }),
    {
        match self.get_link(dir) {
            Some(link) => Some(link.cell),
            None => None,
        }
    }

    /// Sets the status of the link towards `dir`. A cell without a link
    /// there stays as it is.
    pub fn set_link_status(&mut self, dir: Direction, status: LinkType)
        ensures
            *final(self) == old(self).with_status(dir, status),
    {
        let link = self.get_link_mut(dir);
        match link {
            Some(found) => {
                found.status = status;
            },
            None => {},
        }
    }

    pub fn is_open_to(&self, dir: Direction) -> (open: bool)
        ensures
            open == self.open_to(dir),
    {
        match self.get_link(dir) {
            Some(link) => link.status == LinkType::Open,
            None => false,
        }
    }
}

/// The place in the arena of the cell at row `r`, column `c`, in a grid
/// of `column_count` columns.
pub open spec fn arena_index(column_count: int, r: int, c: int) -> int {
    r * column_count + c
}

/// The place of a cell of the grid lies within the arena.
pub proof fn lemma_arena_index(rows: int, cols: int, r: int, c: int)
    requires
        0 <= r < rows,
        0 <= c < cols,
    ensures
        0 <= arena_index(cols, r, c) < rows * cols,
{
    assert(r * cols >= 0) by (nonlinear_arith)
        requires
            r >= 0,
            cols >= 0,
    ;
    assert(r * cols + cols <= rows * cols) by (nonlinear_arith)
        requires
            r + 1 <= rows,
            cols >= 0,
    ;
}

/// Two cells do not share a place in the arena.
pub proof fn lemma_arena_index_injective(cols: int, r1: int, c1: int, r2: int, c2: int)
    requires
        0 <= c1 < cols,
        0 <= c2 < cols,
        0 <= r1,
        0 <= r2,
        arena_index(cols, r1, c1) == arena_index(cols, r2, c2),
    ensures
        r1 == r2,
        c1 == c2,
{
    if r1 < r2 {
        assert(r1 * cols + cols <= r2 * cols) by (nonlinear_arith)
            requires
                r1 + 1 <= r2,
                cols >= 0,
        ;
    } else if r2 < r1 {
        assert(r2 * cols + cols <= r1 * cols) by (nonlinear_arith)
            requires
                r2 + 1 <= r1,
                cols >= 0,
        ;
    }
}

/// A rectangular grid of cells that are changed in place.
pub struct MutableLinkedGrid {
    column_count: usize,
    row_count: usize,
    // by row and column
    cells: Vec<GridCell>,
}

impl View for MutableLinkedGrid {
    type V = GridView;

    closed spec fn view(&self) -> GridView {
        GridView {
            column_count: self.column_count as nat,
            row_count: self.row_count as nat,
            cells: Map::new(
                |p: GridPos| p.row.0 < self.row_count && p.col.0 < self.column_count,
                |p: GridPos| self.cell_at(p).flags(),
            ),
        }
    }
}

impl MutableLinkedGrid {
    /// The place of the cell at `pos` in the arena.
    pub closed spec fn index_of(&self, pos: GridPos) -> int {
        arena_index(self.column_count as int, pos.row.0 as int, pos.col.0 as int)
    }

    /// The cell that stands at `pos`.
    pub closed spec fn cell_at(&self, pos: GridPos) -> GridCell {
        self.cells@[self.index_of(pos)]
    }

    /// The arena holds one cell for each position of a non-empty
    /// rectangle, and each cell knows where it stands.
    pub closed spec fn placed(&self) -> bool {
        &&& self.row_count >= 1
        &&& self.column_count >= 1
        &&& self.cells@.len() == self.row_count * self.column_count
        &&& forall|p: GridPos| self@.contains(p) ==> (#[trigger] self.cell_at(p)).pos == p
    }

    /// The cell at `pos` has a link towards `dir` exactly if it has a
    /// neighbor there, and the link leads to the neighbor's place.
    pub closed spec fn link_fits(&self, pos: GridPos, dir: Direction) -> bool {
        match self.cell_at(pos).link_to(dir) {
            Some(link) => self@.neighbor(pos, dir) is Some && link.cell == self.index_of(
                self@.neighbor(pos, dir).unwrap(),
            ),
            None => self@.neighbor(pos, dir) is None,
        }
    }

    /// The cells are placed and every link fits.
    pub closed spec fn linked_up(&self) -> bool {
        &&& self.placed()
        &&& forall|p: GridPos, dir: Direction|
            self@.contains(p) ==> #[trigger] self.link_fits(p, dir)
    }

    /// The cells are placed, every link fits, and every wall is open on
    /// both sides or on neither.
    pub open spec fn wf(&self) -> bool {
        self.linked_up() && self@.wf()
    }

    /// The grid's size always fits the machine's integers.
    pub proof fn lemma_size_bounded(&self)
        ensures
            self@.row_count <= usize::MAX,
            self@.column_count <= usize::MAX,
    {
    }

    /// A grid whose cells are placed has the shape of a grid, and a cell
    /// is open towards a direction exactly if its link there is open.
    proof fn lemma_placed(&self)
        requires
            self.placed(),
        ensures
            self@.well_shaped(),
            forall|p: GridPos, dir: Direction|
                self@.contains(p) ==> #[trigger] self@.is_open(p, dir) == self.cell_at(p).open_to(
                    dir,
                ),
            forall|p: GridPos| self@.contains(p) ==> 0 <= #[trigger] self.index_of(p) < self.cells@.len(),
    {
        assert forall|p: GridPos| #[trigger] self@.cells.contains_key(p) implies self@.cells[p].pos
            == p by {
            assert(self.cell_at(p).pos == p);
        }
        assert forall|p: GridPos| self@.contains(p) implies 0 <= #[trigger] self.index_of(p)
            < self.cells@.len() by {
            lemma_arena_index(
                self.row_count as int,
                self.column_count as int,
                p.row.0 as int,
                p.col.0 as int,
            );
        }
    }

    /// Two positions of the grid with the same place are the same.
    proof fn lemma_index_injective(&self, p: GridPos, q: GridPos)
        requires
            self@.contains(p),
            self@.contains(q),
        ensures
            self.index_of(p) == self.index_of(q) ==> p == q,
            0 <= self.index_of(p) < self.row_count * self.column_count,
    {
        lemma_arena_index(
            self.row_count as int,
            self.column_count as int,
            p.row.0 as int,
            p.col.0 as int,
        );
        if self.index_of(p) == self.index_of(q) {
            lemma_arena_index_injective(
                self.column_count as int,
                p.row.0 as int,
                p.col.0 as int,
                q.row.0 as int,
                q.col.0 as int,
            );
        }
    }

    /// A grid of `row_count` by `column_count` cells, each linked to its
    /// neighbors, all links closed. The number of cells must fit the
    /// machine's integers.
    pub fn new(row_count: usize, column_count: usize) -> (grid: Self)
        requires
            row_count >= 1,
            column_count >= 1,
            row_count * column_count <= usize::MAX,
        ensures
            grid.wf(),
            grid@ == GridView::walled(column_count as nat, row_count as nat),
    {
        // create cells without any links
        let mut empty_cells: Vec<GridCell> = Vec::new();
        let mut x: usize = 0;
        while x < row_count
            invariant
                x <= row_count,
                empty_cells@.len() == x * column_count,
                forall|r: int, c: int|
                    0 <= r < x && 0 <= c < column_count ==> #[trigger] empty_cells@[arena_index(
                        column_count as int,
                        r,
                        c,
                    )] == GridCell::unlinked(GridPos::at(r, c)),
            decreases row_count - x,
        {
            let mut y: usize = 0;
            while y < column_count
                invariant
                    x < row_count,
                    y <= column_count,
                    empty_cells@.len() == x * column_count + y,
                    forall|r: int, c: int|
                        (0 <= r < x && 0 <= c < column_count) || (r == x && 0 <= c < y)
                            ==> #[trigger] empty_cells@[arena_index(column_count as int, r, c)]
                            == GridCell::unlinked(GridPos::at(r, c)),
                decreases column_count - y,
            {
                let ghost before = empty_cells@;
                empty_cells.push(GridCell::new(GridPos { row: Row(x), col: Col(y) }));
                proof {
                    assert forall|r: int, c: int|
                        (0 <= r < x && 0 <= c < column_count) || (r == x && 0 <= c < y + 1)
                        implies #[trigger] empty_cells@[arena_index(column_count as int, r, c)]
                        == GridCell::unlinked(GridPos::at(r, c)) by {
                        if r == x && c == y {
                        } else {
                            if r < x {
                                lemma_arena_index(x as int, column_count as int, r, c);
                            }
                            assert(before[arena_index(column_count as int, r, c)]
                                == GridCell::unlinked(GridPos::at(r, c)));
                        }
                    }
                }
                y = y + 1;
            }
            assert(x * column_count + column_count == (x + 1) * column_count) by (nonlinear_arith);
            x = x + 1;
        }
        let grid = Self { column_count: column_count, row_count: row_count, cells: empty_cells };
        proof {
            assert forall|p: GridPos| grid@.contains(p) implies #[trigger] grid.cell_at(p)
                == GridCell::unlinked(p) by {
                assert(grid.cells@[arena_index(
                    column_count as int,
                    p.row.0 as int,
                    p.col.0 as int,
                )] == GridCell::unlinked(GridPos::at(p.row.0 as int, p.col.0 as int)));
            }
        }
        grid.initialize_cells()
    }

    /// Gives every cell its links: one towards each direction in which it
    /// has a neighbor, closed.
    fn initialize_cells(self) -> (grid: Self)
        requires
            self.row_count >= 1,
            self.column_count >= 1,
            self.cells@.len() == self.row_count * self.column_count,
            forall|p: GridPos| self@.contains(p) ==> #[trigger] self.cell_at(p) == GridCell::unlinked(p),
        ensures
            grid.wf(),
            grid@ == GridView::walled(self.column_count as nat, self.row_count as nat),
    {
        let mut grid = self;
        let ghost rows = grid.row_count as int;
        let ghost cols = grid.column_count as int;
        let ghost mut r: int = 0;
        let ghost mut c: int = 0;
        let mut i: usize = 0;
        assert(0 * cols == 0);
        while i < grid.cells.len()
            invariant
                grid.row_count == rows,
                grid.column_count == cols,
                rows >= 1,
                cols >= 1,
                grid.cells@.len() == rows * cols,
                i == arena_index(cols, r, c),
                0 <= r <= rows,
                0 <= c < cols,
                r == rows ==> c == 0,
                i <= grid.cells@.len(),
                forall|p: GridPos| grid@.contains(p) ==> (#[trigger] grid.cell_at(p)).pos == p,
                forall|p: GridPos|
                    grid@.contains(p) && !p.precedes(GridPos::at(r, c)) ==> #[trigger] grid.cell_at(p)
                        == GridCell::unlinked(p),
                forall|p: GridPos, dir: Direction|
                    grid@.contains(p) && p.precedes(GridPos::at(r, c)) ==> #[trigger] grid.link_fits(
                        p,
                        dir,
                    ) && !grid.cell_at(p).open_to(dir),
            decreases grid.cells@.len() - i,
        {
            proof {
                if r >= rows {
                    assert(r * cols >= rows * cols) by (nonlinear_arith)
                        requires
                            r >= rows,
                            cols >= 0,
                    ;
                }
            }
            let ghost here = GridPos::at(r, c);
            let ghost before = grid;
            assert(grid@.contains(here));
            assert(grid.index_of(here) == i);
            assert(grid.cell_at(here) == GridCell::unlinked(here));
            let mut cell = grid.cells[i];
            let pos = cell.pos;
            assert(pos == here);
            proof {
                grid.lemma_neighbor_index(pos, Direction::North);
                grid.lemma_neighbor_index(pos, Direction::East);
                grid.lemma_neighbor_index(pos, Direction::South);
                grid.lemma_neighbor_index(pos, Direction::West);
            }
            let north_pos = grid.get_relative_cell_pos(pos, Direction::North);
            cell.north = match north_pos {
                Some(p) => Some(CellLink::new(grid.cell_index(p))),
                None => None,
            };
            let east_pos = grid.get_relative_cell_pos(pos, Direction::East);
            cell.east = match east_pos {
                Some(p) => Some(CellLink::new(grid.cell_index(p))),
                None => None,
            };
            let south_pos = grid.get_relative_cell_pos(pos, Direction::South);
            cell.south = match south_pos {
                Some(p) => Some(CellLink::new(grid.cell_index(p))),
                None => None,
            };
            let west_pos = grid.get_relative_cell_pos(pos, Direction::West);
            cell.west = match west_pos {
                Some(p) => Some(CellLink::new(grid.cell_index(p))),
                None => None,
            };
            grid.cells.set(i, cell);
            proof {
                let next_r = if c + 1 == cols {
                    r + 1
                } else {
                    r
                };
                let next_c = if c + 1 == cols {
                    0
                } else {
                    c + 1
                };
                assert(arena_index(cols, next_r, next_c) == i + 1) by (nonlinear_arith)
                    requires
                        i == r * cols + c,
                        next_r == (if c + 1 == cols {
                            r + 1
                        } else {
                            r
                        }),
                        next_c == (if c + 1 == cols {
                            0
                        } else {
                            c + 1
                        }),
                ;
                assert(grid@ == before@) by {
                    assert forall|p: GridPos| before@.cells.contains_key(p) implies #[trigger] grid@.cells[p]
                        == before@.cells[p] by {
                        before.lemma_index_injective(p, here);
                        assert(grid.cell_at(p).flags() == before.cell_at(p).flags());
                    }
                    assert(grid@.cells =~= before@.cells);
                }
                assert forall|p: GridPos| grid@.contains(p) implies (#[trigger] grid.cell_at(p)).pos
                    == p by {
                    before.lemma_index_injective(p, here);
                    assert(before.cell_at(p).pos == p);
                }
                assert forall|p: GridPos|
                    grid@.contains(p) && !p.precedes(GridPos::at(next_r, next_c))
                    implies #[trigger] grid.cell_at(p) == GridCell::unlinked(p) by {
                    before.lemma_index_injective(p, here);
                    assert(before.cell_at(p) == GridCell::unlinked(p));
                }
                assert forall|p: GridPos, dir: Direction|
                    grid@.contains(p) && p.precedes(GridPos::at(next_r, next_c))
                    implies #[trigger] grid.link_fits(p, dir) && !grid.cell_at(p).open_to(dir) by {
                    before.lemma_index_injective(p, here);
                    if p != here {
                        assert(before.link_fits(p, dir));
                    }
                }
                r = next_r;
                c = next_c;
            }
            i = i + 1;
        }
        proof {
            if r < rows {
                lemma_arena_index(rows, cols, r, c);
            }
            assert(r == rows);
            assert forall|p: GridPos, dir: Direction| grid@.contains(p) implies #[trigger] grid.link_fits(
                p,
                dir,
            ) && !grid.cell_at(p).open_to(dir) by {
                assert(p.precedes(GridPos::at(r, c)));
                assert(grid.link_fits(p, dir));
                assert(!grid.cell_at(p).open_to(dir));
            }
            assert(grid.placed());
            grid.lemma_closed_is_walled();
        }
        grid
    }

    /// A grid whose links fit and are all closed is a grid of closed cells.
    proof fn lemma_closed_is_walled(&self)
        requires
            self.placed(),
            forall|p: GridPos, dir: Direction|
                self@.contains(p) ==> #[trigger] self.link_fits(p, dir) && !self.cell_at(p).open_to(
                    dir,
                ),
        ensures
            self.wf(),
            self@ == GridView::walled(self.column_count as nat, self.row_count as nat),
    {
        self.lemma_placed();
        let walled = GridView::walled(self.column_count as nat, self.row_count as nat);
        assert forall|p: GridPos| self@.cells.contains_key(p) implies #[trigger] self@.cells[p]
            == walled.cells[p] by {
            assert(self.link_fits(p, Direction::North));
            assert(self.link_fits(p, Direction::East));
            assert(self.link_fits(p, Direction::South));
            assert(self.link_fits(p, Direction::West));
            assert(self.cell_at(p).pos == p);
        }
        assert(self@.cells =~= walled.cells);
    }

    /// The place of a neighbor lies within the arena.
    proof fn lemma_neighbor_index(&self, pos: GridPos, dir: Direction)
        requires
            self.row_count >= 1,
            self.column_count >= 1,
            self.cells@.len() == self.row_count * self.column_count,
            self@.contains(pos),
        ensures
            self@.neighbor(pos, dir) matches Some(p) ==> self@.contains(p) && 0 <= self.index_of(p)
                < self.cells@.len(),
    {
        if let Some(p) = self@.neighbor(pos, dir) {
            lemma_neighbor_involutive(self@, pos, dir);
            lemma_arena_index(
                self.row_count as int,
                self.column_count as int,
                p.row.0 as int,
                p.col.0 as int,
            );
        }
    }

    pub fn at_northern_boundary(&self, pos: GridPos) -> (at_boundary: bool)
        requires
            self@.row_count >= 1,
        ensures
            at_boundary == self@.at_northern_boundary(pos),
    {
        pos.row == Row(self.row_count - 1)
    }

    pub fn at_eastern_boundary(&self, pos: GridPos) -> (at_boundary: bool)
        requires
            self@.column_count >= 1,
        ensures
            at_boundary == self@.at_eastern_boundary(pos),
    {
        pos.col == Col(self.column_count - 1)
    }

    pub fn at_southern_boundary(&self, pos: GridPos) -> (at_boundary: bool)
        ensures
            at_boundary == self@.at_southern_boundary(pos),
    {
        pos.row == Row(0)
    }

    pub fn at_western_boundary(&self, pos: GridPos) -> (at_boundary: bool)
        ensures
            at_boundary == self@.at_western_boundary(pos),
    {
        pos.col == Col(0)
    }

    /// The position next to `pos` in direction `dir`, or `None` where `pos`
    /// sits on the boundary in that direction.
    pub fn get_relative_cell_pos(&self, pos: GridPos, dir: Direction) -> (relative: Option<GridPos>)
        requires
            self@.row_count >= 1,
            self@.column_count >= 1,
            dir == Direction::North ==> pos.row.0 < usize::MAX,
            dir == Direction::East ==> pos.col.0 < usize::MAX,
        ensures
            relative == self@.neighbor(pos, dir),
    {
        if self.at_southern_boundary(pos) && dir == Direction::South {
            return None
        }
        if self.at_western_boundary(pos) && dir == Direction::West {
            return None
        }
        if self.at_northern_boundary(pos) && dir == Direction::North {
            return None
        }
        if self.at_eastern_boundary(pos) && dir == Direction::East {
            return None
        }
        let pos = match dir {
            Direction::North => GridPos { col: pos.col, row: Row(pos.row.0 + 1) },
            Direction::East => GridPos { col: Col(pos.col.0 + 1), row: pos.row },
            Direction::South => GridPos { col: pos.col, row: Row(pos.row.0 - 1) },
            Direction::West => GridPos { col: Col(pos.col.0 - 1), row: pos.row },
        };
        Some(pos)
    }

    /// The place in the arena of the cell at `pos`.
    fn cell_index(&self, pos: GridPos) -> (index: usize)
        requires
            self.row_count >= 1,
            self.column_count >= 1,
            self.cells@.len() == self.row_count * self.column_count,
            self@.contains(pos),
        ensures
            index == self.index_of(pos),
            index < self.cells@.len(),
    {
        proof {
            lemma_arena_index(
                self.row_count as int,
                self.column_count as int,
                pos.row.0 as int,
                pos.col.0 as int,
            );
            assert(pos.row.0 * self.column_count >= 0) by (nonlinear_arith)
                requires
                    pos.row.0 >= 0,
                    self.column_count >= 0,
            ;
            assert(self.cells@.len() == self.cells.len());
        }
        pos.row.0 * self.column_count + pos.col.0
    }

    /// The cell at `pos`.
    pub fn get_cell(&self, pos: GridPos) -> (cell: &GridCell)
        requires
            self.wf(),
            self@.contains(pos),
        ensures
            *cell == self.cell_at(pos),
            cell.pos == pos,
            cell.flags() == self@.cells[pos],
    {
        let index = self.cell_index(pos);
        &self.cells[index]
    }

    /// The grid after the link of the cell at `pos` towards `dir` has been
    /// opened: on both sides, or on the side of `pos` alone. Where `pos`
    /// has no neighbor there, nothing changes.
    pub open spec fn after_link(&self, pos: GridPos, dir: Direction, bidi: bool) -> GridView {
        if self@.neighbor(pos, dir) is None {
            self@
        } else if bidi {
            self@.link(pos, dir)
        } else {
            self@.open_flag(pos, dir)
        }
    }

    /// What opening the link of one cell towards one direction does to the
    /// grid.
    proof fn lemma_status_opened(&self, after: Self, pos: GridPos, dir: Direction)
        requires
            self.linked_up(),
            self@.contains(pos),
            after.row_count == self.row_count,
            after.column_count == self.column_count,
            after.cells@ == self.cells@.update(
                self.index_of(pos),
                self.cell_at(pos).with_status(dir, LinkType::Open),
            ),
        ensures
            after.linked_up(),
            after@ == (if self@.neighbor(pos, dir) is Some {
                self@.open_flag(pos, dir)
            } else {
                self@
            }),
    {
        self.lemma_placed();
        assert(self.link_fits(pos, dir));
        let expected = if self@.neighbor(pos, dir) is Some {
            self@.open_flag(pos, dir)
        } else {
            self@
        };
        assert forall|p: GridPos| self@.contains(p) implies #[trigger] after.cell_at(p) == (if p
            == pos {
            self.cell_at(pos).with_status(dir, LinkType::Open)
        } else {
            self.cell_at(p)
        }) by {
            self.lemma_index_injective(p, pos);
        }
        assert forall|p: GridPos| after@.cells.contains_key(p) implies #[trigger] after@.cells[p]
            == expected.cells[p] by {
            assert(after.cell_at(p) == (if p == pos {
                self.cell_at(pos).with_status(dir, LinkType::Open)
            } else {
                self.cell_at(p)
            }));
        }
        assert(after@.cells =~= expected.cells);
        assert forall|p: GridPos| after@.contains(p) implies (#[trigger] after.cell_at(p)).pos == p by {
            assert(self.cell_at(p).pos == p);
        }
        assert forall|p: GridPos, d: Direction| after@.contains(p) implies #[trigger] after.link_fits(
            p,
            d,
        ) by {
            assert(self.link_fits(p, d));
            assert(after.cell_at(p) == (if p == pos {
                self.cell_at(pos).with_status(dir, LinkType::Open)
            } else {
                self.cell_at(p)
            }));
        }
    }

    /// Opens the link of the cell at `pos` towards `dir` and, if `bidi` is
    /// set, the neighbor's link back.
    fn link_cell(&mut self, pos: GridPos, dir: Direction, bidi: bool)
        requires
            old(self).linked_up(),
            old(self)@.contains(pos),
        ensures
            final(self).linked_up(),
            final(self)@ == old(self).after_link(pos, dir, bidi),
    {
        let ghost before = *self;
        proof {
            before.lemma_placed();
            assert(before.link_fits(pos, dir));
            if before@.neighbor(pos, dir) is Some {
                lemma_neighbor_involutive(before@, pos, dir);
            }
        }
        let index = self.cell_index(pos);
        let mut cell = self.cells[index];
        cell.set_link_status(dir, LinkType::Open);
        self.cells.set(index, cell);
        let ghost middle = *self;
        proof {
            before.lemma_status_opened(middle, pos, dir);
        }
        if bidi {
            if let Some(other_index) = cell.get_relative_cell(dir) {
                let ghost other_pos = before@.neighbor(pos, dir).unwrap();
                proof {
                    middle.lemma_placed();
                    assert(middle.link_fits(pos, dir));
                    assert(middle.index_of(other_pos) == other_index);
                }
                let mut other = self.cells[other_index];
                other.set_link_status(dir.reverse_dir(), LinkType::Open);
                self.cells.set(other_index, other);
                proof {
                    middle.lemma_status_opened(*self, other_pos, dir.reversed());
                }
            }
        }
    }

    /// Visits one cell in the course of the sidewinder algorithm: the cell
    /// joins the run; then the run is closed and a passage carved north from
    /// one of its cells, or a passage is carved east. Where the source
    /// fails, the grid stays as it is.
    fn visit_cell(&mut self, run: &mut Vec<GridPos>, pos: GridPos, source: &mut RandomSource) -> (visited:
        Result<(), SourceError>)
        requires
            old(self).wf(),
            old(self)@.contains(pos),
            forall|i: int|
                0 <= i < old(run)@.len() ==> old(self)@.contains(#[trigger] old(run)@[i]) && old(
                    run,
                )@[i].row == pos.row,
            old(source).wf(),
        ensures
            final(source).wf(),
            final(self).wf(),
            final(self)@.row_count == old(self)@.row_count,
            final(self)@.column_count == old(self)@.column_count,
            visited is Err ==> final(self)@ == old(self)@,
            visited is Ok ==> forall|i: int|
                0 <= i < final(run)@.len() ==> old(self)@.contains(#[trigger] final(run)@[i])
                    && final(run)@[i].row == pos.row,
            visited is Ok && old(self)@.at_eastern_boundary(pos) ==> final(run)@.len() == 0,
            is_visit_outcome(
                Carving::going(old(self)@, old(run)@, 0),
                pos,
                old(source).script(),
                grid_outcome(visited, final(self)@),
                final(run)@,
                final(source).script(),
            ),
    {
        let ghost start = self@;
        let ghost before = Carving::going(start, old(run)@, 0);
        let ghost script = old(source).script();
        proof {
            self.lemma_size_bounded();
        }
        run.push(pos);
        let mut should_close_out = self.at_eastern_boundary(pos);
        let ghost mut coins: Seq<usize> = Seq::empty();
        if !should_close_out && !self.at_northern_boundary(pos) {
            match source.next_below(2) {
                Ok(coin) => {
                    should_close_out = coin == 0;
                    proof {
                        coins = seq![coin];
                    }
                },
                Err(e) => {
                    proof {
                        let s = script.unwrap();
                        assert(s.skip(0) =~= s);
                    }
                    return Err(e);
                },
            }
        }
        assert(script matches Some(s) ==> close_decision(start, pos, s, 0) == Ok::<
            (bool, nat),
            SourceError,
        >((should_close_out, coins.len())) && source.script() == Some(s.skip(coins.len() as int)))
            by {
            if let Some(s) = script {
                assert(s.skip(0) =~= s);
            }
        }
        if should_close_out {
            let ghost full_run = run@;
            let close_out_pos = match source.pick_from(run) {
                Ok(p) => p,
                Err(e) => {
                    proof {
                        let s = script.unwrap();
                        lemma_draw_skip(s, coins.len(), full_run.len());
                    }
                    return Err(e);
                },
            };
            let ghost pick: int = match script {
                Some(s) => s[coins.len() as int] as int,
                None => choose|i: int| 0 <= i < full_run.len() && full_run[i] == close_out_pos,
            };
            proof {
                if let Some(s) = script {
                    lemma_draw_skip(s, coins.len(), full_run.len());
                    assert(s.skip(coins.len() as int).skip(1) =~= s.skip(coins.len() as int + 1));
                }
                assert(0 <= pick < full_run.len() && full_run[pick] == close_out_pos);
                assert(full_run.len() == run.len());
            }
            run.clear();
            if !self.at_northern_boundary(pos) {
                proof {
                    lemma_link_wf(start, close_out_pos, Direction::North);
                }
                self.link_cell(close_out_pos, Direction::North, true);
            }
            proof {
                if script is None {
                    let cell = coins.push(pick as usize);
                    let after = visit(before, pos, cell);
                    assert(draw(cell, coins.len(), full_run.len()) == Ok::<usize, SourceError>(
                        pick as usize,
                    ));
                    assert(after.failure is None);
                    assert(after.used == cell.len());
                    assert(after.run =~= run@);
                    assert(after.grid == self@);
                }
                assert(run@ =~= Seq::<GridPos>::empty());
            }
            Ok(())
        } else {
            proof {
                lemma_link_wf(start, pos, Direction::East);
            }
            self.link_cell(pos, Direction::East, true);
            proof {
                if script is None {
                    let after = visit(before, pos, coins);
                    assert(after.failure is None);
                    assert(after.used == coins.len());
                    assert(after.grid == self@);
                }
            }
            Ok(())
        }
    }

    /// Carves the grid in place by the sidewinder algorithm, with the
    /// random choices drawn from `source`. Fails where the source fails;
    /// the grid then stays as it was carved up to there.
    pub fn run_sidewinder_algorithm(&mut self, source: &mut RandomSource) -> (carved: Result<
        (),
        SourceError,
    >)
        requires
            old(self).wf(),
            old(source).wf(),
        ensures
            final(source).wf(),
            final(self).wf(),
            final(self)@.row_count == old(self)@.row_count,
            final(self)@.column_count == old(self)@.column_count,
            is_sidewinder_outcome(
                old(self)@,
                old(source).script(),
                grid_outcome(carved, final(self)@),
                final(source).script(),
            ),
            carved is Err ==> (old(source).script() matches Some(s) && final(self)@ == sidewinder(
                old(self)@,
                s,
            ).grid),
            carved is Ok && old(self)@ == GridView::walled(
                old(self)@.column_count,
                old(self)@.row_count,
            ) ==> final(self)@.is_perfect_maze(),
    {
        let ghost start = self@;
        let ghost script = old(source).script();
        let ghost mut drawn: Seq<usize> = match script {
            Some(s) => s,
            None => Seq::empty(),
        };
        let ghost mut used: nat = 0;
        let ghost rows = self.row_count as int;
        let ghost cols = self.column_count as int;
        let ghost mut r: int = 0;
        let ghost mut c: int = 0;
        let mut run: Vec<GridPos> = Vec::new();
        let mut i: usize = 0;
        proof {
            if let Some(s) = script {
                assert(s.skip(0) =~= s);
            }
            assert(0 * cols == 0);
        }
        while i < self.cells.len()
            invariant
                start == old(self)@,
                script == old(source).script(),
                start.wf(),
                start.row_count == rows,
                start.column_count == cols,
                self.wf(),
                self@.row_count == rows,
                self@.column_count == cols,
                self.row_count == rows,
                self.column_count == cols,
                i == arena_index(cols, r, c),
                0 <= r <= rows,
                0 <= c < cols,
                r == rows ==> c == 0,
                i <= self.cells@.len(),
                self.cells@.len() == rows * cols,
                carve_upto(start, drawn, r as nat, c as nat) == Carving::going(self@, run@, used),
                forall|k: int|
                    0 <= k < run@.len() ==> self@.contains(#[trigger] run@[k]) && run@[k].row.0 == r,
                c == 0 ==> run@.len() == 0,
                source.wf(),
                source_follows(script, drawn, used, source.script()),
            decreases self.cells@.len() - i,
        {
            proof {
                if r >= rows {
                    assert(r * cols >= rows * cols) by (nonlinear_arith)
                        requires
                            r >= rows,
                            cols >= 0,
                    ;
                }
            }
            let ghost here = GridPos::at(r, c);
            let ghost before = Carving::going(self@, run@, used);
            let ghost source_before = source.script();
            proof {
                self.lemma_placed();
                assert(self@.contains(here));
                assert(self.index_of(here) == i);
                assert(self.cell_at(here).pos == here);
            }
            let pos = self.cells[i].pos;
            match self.visit_cell(&mut run, pos, source) {
                Ok(()) => {
                    proof {
                        let next = lemma_cell_carved(
                            start,
                            drawn,
                            r as nat,
                            c as nat,
                            before,
                            script,
                            source_before,
                            self@,
                            run@,
                            source.script(),
                        );
                        drawn = next.0;
                        used = next.1;
                        let next_r = if c + 1 == cols {
                            r + 1
                        } else {
                            r
                        };
                        let next_c = if c + 1 == cols {
                            0
                        } else {
                            c + 1
                        };
                        assert(arena_index(cols, next_r, next_c) == i + 1) by (nonlinear_arith)
                            requires
                                i == r * cols + c,
                                next_r == (if c + 1 == cols {
                                    r + 1
                                } else {
                                    r
                                }),
                                next_c == (if c + 1 == cols {
                                    0
                                } else {
                                    c + 1
                                }),
                        ;
                        r = next_r;
                        c = next_c;
                    }
                },
                Err(e) => {
                    proof {
                        lemma_cell_failed(
                            start,
                            drawn,
                            r as nat,
                            c as nat,
                            before,
                            script,
                            source_before,
                            e,
                            run@,
                            source.script(),
                        );
                    }
                    return Err(e);
                },
            }
            i = i + 1;
        }
        proof {
            if r < rows {
                lemma_arena_index(rows, cols, r, c);
            }
            assert(r == rows);
            assert(run@ =~= Seq::<GridPos>::empty());
            lemma_all_carved(start, drawn, used, script, self@, source.script());
            if start == GridView::walled(start.column_count, start.row_count) {
                lemma_outcome_perfect(start, script, self@, source.script());
            }
        }
        Ok(())
    }

    /// The cells of the grid, row by row from the south, each row from
    /// west to east: the cell of each position at its place in that order.
    pub fn iter(&self) -> (cells: Iter<'_>)
        requires
            self.wf(),
        ensures
            cells@.len() == self@.cell_count(),
            forall|p: GridPos|
                self@.contains(p) ==> {
                    let cell = #[trigger] cells@[arena_index(
                        self@.column_count as int,
                        p.row.0 as int,
                        p.col.0 as int,
                    )];
                    cell == self.cell_at(p) && cell.pos == p && cell.flags() == self@.cells[p]
                },
    {
        let iter = Iter { cells: &self.cells, next: 0 };
        proof {
            self.lemma_placed();
            assert(iter@ =~= self.cells@);
            assert forall|p: GridPos| self@.contains(p) implies ({
                let cell = #[trigger] iter@[arena_index(
                    self@.column_count as int,
                    p.row.0 as int,
                    p.col.0 as int,
                )];
                cell == self.cell_at(p) && cell.pos == p && cell.flags() == self@.cells[p]
            }) by {
                assert(self.cell_at(p).pos == p);
            }
        }
        iter
    }
}

/// A result with the grid that was carved in place put into it.
pub open spec fn grid_outcome(carved: Result<(), SourceError>, grid: GridView) -> Result<
    GridView,
    SourceError,
> {
    match carved {
        Ok(_) => Ok(grid),
        Err(e) => Err(e),
    }
}

/// The cells of a grid, handed out one at a time.
pub struct Iter<'a> {
    cells: &'a Vec<GridCell>,
    next: usize,
}

impl<'a> View for Iter<'a> {
    type V = Seq<GridCell>;

    /// The cells that are still to come, in the order in which they come.
    closed spec fn view(&self) -> Seq<GridCell> {
        self.cells@.skip(self.next as int)
    }
}

impl<'a> Iter<'a> {
    #[verifier::type_invariant]
    spec fn in_range(self) -> bool {
        self.next <= self.cells@.len()
    }

    /// The next cell, or `None` when all have been handed out.
    pub fn next(&mut self) -> (cell: Option<&'a GridCell>)
        ensures
            old(self)@.len() == 0 ==> cell is None && final(self)@ == old(self)@,
            old(self)@.len() > 0 ==> cell == Some(&old(self)@[0]) && final(self)@ == old(self)@.skip(
                1,
            ),
    {
        proof {
            use_type_invariant(&*self);
        }
        if self.next < self.cells.len() {
            let cell = &self.cells[self.next];
            assert(self.cells@.skip(self.next as int).skip(1) =~= self.cells@.skip(self.next + 1));
            self.next = self.next + 1;
            Some(cell)
        } else {
            None
        }
    }
}

} // verus!
