//! The mathematical model of a grid: its size and the cell at each position.

use vstd::prelude::*;
use crate::grid_primitives::{lemma_reverse_involutive, Col, Direction, GridPos, Row};
use crate::immutable_grid::GridCell;

verus! {

/// What a grid is: a rectangle of `row_count` by `column_count` positions
/// and the cell that stands at each of them.
pub struct GridView {
    pub column_count: nat,
    pub row_count: nat,
    pub cells: Map<GridPos, GridCell>,
}

impl GridView {
    /// The grid of the given size in which every flag of every cell is closed.
    pub open spec fn walled(column_count: nat, row_count: nat) -> GridView {
        GridView {
            column_count,
            row_count,
            cells: Map::new(
                |p: GridPos| p.row.0 < row_count && p.col.0 < column_count,
                |p: GridPos| GridCell::closed(p),
            ),
        }
    }

    /// Whether `pos` lies inside the rectangle.
    pub open spec fn contains(self, pos: GridPos) -> bool {
        pos.row.0 < self.row_count && pos.col.0 < self.column_count
    }

    pub open spec fn at_northern_boundary(self, pos: GridPos) -> bool {
        pos.row.0 == self.row_count - 1
    }

    pub open spec fn at_eastern_boundary(self, pos: GridPos) -> bool {
        pos.col.0 == self.column_count - 1
    }

    pub open spec fn at_southern_boundary(self, pos: GridPos) -> bool {
        pos.row.0 == 0
    }

    pub open spec fn at_western_boundary(self, pos: GridPos) -> bool {
        pos.col.0 == 0
    }

    pub open spec fn at_boundary(self, pos: GridPos, dir: Direction) -> bool {
        match dir {
            Direction::North => self.at_northern_boundary(pos),
            Direction::East => self.at_eastern_boundary(pos),
            Direction::South => self.at_southern_boundary(pos),
            Direction::West => self.at_western_boundary(pos),
        }
    }

    /// The position next to `pos` in direction `dir`, or `None` where `pos`
    /// sits on the boundary in that direction.
    pub open spec fn neighbor(self, pos: GridPos, dir: Direction) -> Option<GridPos> {
        if self.at_boundary(pos, dir) {
            None
        } else {
            Some(
                match dir {
                    Direction::North => GridPos { row: Row((pos.row.0 + 1) as usize), col: pos.col },
                    Direction::East => GridPos { row: pos.row, col: Col((pos.col.0 + 1) as usize) },
                    Direction::South => GridPos { row: Row((pos.row.0 - 1) as usize), col: pos.col },
                    Direction::West => GridPos { row: pos.row, col: Col((pos.col.0 - 1) as usize) },
                },
            )
        }
    }

    /// Whether the cell at `pos` is open towards `dir`.
    pub open spec fn is_open(self, pos: GridPos, dir: Direction) -> bool {
        self.cells[pos].open_to(dir)
    }

    /// The rectangle is not empty, it holds exactly one cell for each of its
    /// positions, and each cell knows where it stands.
    pub open spec fn well_shaped(self) -> bool {
        &&& self.row_count >= 1
        &&& self.column_count >= 1
        &&& forall|p: GridPos| #[trigger] self.cells.contains_key(p) <==> self.contains(p)
        &&& forall|p: GridPos| #[trigger] self.cells.contains_key(p) ==> self.cells[p].pos == p
    }

    /// A wall between two cells is open on both sides or on neither.
    pub open spec fn symmetric(self) -> bool {
        forall|p: GridPos, d: Direction|
            self.contains(p) && #[trigger] self.is_open(p, d) && self.neighbor(p, d) is Some
                ==> self.is_open(self.neighbor(p, d).unwrap(), d.reversed())
    }

    pub open spec fn wf(self) -> bool {
        self.well_shaped() && self.symmetric()
    }

    /// The grid with the cell at `pos` replaced by `cell`.
    pub open spec fn with_cell(self, pos: GridPos, cell: GridCell) -> GridView {
        GridView { cells: self.cells.insert(pos, cell), ..self }
    }

    /// The grid with the flag of the cell at `pos` towards `dir` opened, and
    /// nothing else changed.
    pub open spec fn open_flag(self, pos: GridPos, dir: Direction) -> GridView {
        self.with_cell(pos, self.cells[pos].with_open(dir))
    }

    /// The grid with a passage carved from `pos` towards `dir`: the flag of
    /// `pos` is opened and, where a neighbor exists, the neighbor's flag
    /// back towards `pos`.
    pub open spec fn link(self, pos: GridPos, dir: Direction) -> GridView {
        match self.neighbor(pos, dir) {
            None => self.open_flag(pos, dir),
            Some(other) => self.open_flag(pos, dir).open_flag(other, dir.reversed()),
        }
    }

    /// A passage leads from `from` towards `dir` into `to`.
    pub open spec fn joined(self, from: GridPos, dir: Direction, to: GridPos) -> bool {
        self.contains(from) && self.is_open(from, dir) && self.neighbor(from, dir) == Some(to)
    }

    /// A passage leads from `from` into `to`.
    pub open spec fn linked(self, from: GridPos, to: GridPos) -> bool {
        ||| self.joined(from, Direction::North, to)
        ||| self.joined(from, Direction::East, to)
        ||| self.joined(from, Direction::South, to)
        ||| self.joined(from, Direction::West, to)
    }
}

/// The passages of a grid, each counted once: from the cell on its
/// southern or western side, towards north or east.
pub open spec fn passages(grid: GridView) -> Set<(GridPos, Direction)> {
    Set::new(
        |e: (GridPos, Direction)|
            (e.1 == Direction::North || e.1 == Direction::East) && grid.contains(e.0)
                && grid.is_open(e.0, e.1) && grid.neighbor(e.0, e.1) is Some,
    )
}

impl GridView {
    /// A round trip: at least three cells, no cell twice, each linked to
    /// the next and the last to the first.
    pub open spec fn is_cycle(self, path: Seq<GridPos>) -> bool {
        path.len() >= 3 && path.no_duplicates() && self.is_path(path) && self.linked(
            path.last(),
            path.first(),
        )
    }

    /// No round trip leads through the passages.
    pub open spec fn acyclic(self) -> bool {
        forall|path: Seq<GridPos>| !#[trigger] self.is_cycle(path)
    }

    /// A perfect maze: the passages form a spanning tree of the grid. There
    /// is one passage less than there are cells, every cell can be reached
    /// from every other, and no round trip exists.
    pub open spec fn is_perfect_maze(self) -> bool {
        &&& self.wf()
        &&& passages(self).finite()
        &&& passages(self).len() == self.cell_count() - 1
        &&& self.connected()
        &&& self.acyclic()
    }
}

/// A passage can be walked both ways.
pub proof fn lemma_linked_symmetric(grid: GridView, from: GridPos, to: GridPos)
    requires
        grid.wf(),
        grid.row_count <= usize::MAX,
        grid.column_count <= usize::MAX,
        grid.linked(from, to),
    ensures
        grid.linked(to, from),
        grid.contains(from),
        grid.contains(to),
{
    let dir = if grid.joined(from, Direction::North, to) {
        Direction::North
    } else if grid.joined(from, Direction::East, to) {
        Direction::East
    } else if grid.joined(from, Direction::South, to) {
        Direction::South
    } else {
        Direction::West
    };
    assert(grid.joined(from, dir, to));
    lemma_neighbor_involutive(grid, from, dir);
    assert(grid.is_open(to, dir.reversed()));
    assert(grid.joined(to, dir.reversed(), from));
}

/// A walk can be walked backwards.
pub proof fn lemma_path_reverse(grid: GridView, path: Seq<GridPos>)
    requires
        grid.wf(),
        grid.row_count <= usize::MAX,
        grid.column_count <= usize::MAX,
        grid.is_path(path),
    ensures
        grid.is_path(path.reverse()),
        path.reverse().first() == path.last(),
        path.reverse().last() == path.first(),
{
    let back = path.reverse();
    assert forall|i: int| 0 <= i < back.len() - 1 implies grid.linked(#[trigger] back[i], back[i + 1]) by {
        let j = path.len() - 2 - i;
        assert(back[i] == path[j + 1]);
        assert(back[i + 1] == path[j]);
        assert(grid.linked(path[j], path[j + 1]));
        lemma_linked_symmetric(grid, path[j], path[j + 1]);
    }
}

/// Two walks, the second of which starts where the first ends, make one
/// walk.
pub proof fn lemma_path_join(grid: GridView, first: Seq<GridPos>, second: Seq<GridPos>)
    requires
        grid.is_path(first),
        grid.is_path(second),
        first.last() == second.first(),
    ensures
        grid.is_path(first + second.skip(1)),
        (first + second.skip(1)).first() == first.first(),
        (first + second.skip(1)).last() == second.last(),
{
    let whole = first + second.skip(1);
    assert forall|i: int| 0 <= i < whole.len() - 1 implies grid.linked(
        #[trigger] whole[i],
        whole[i + 1],
    ) by {
        if i < first.len() - 1 {
            assert(whole[i] == first[i] && whole[i + 1] == first[i + 1]);
        } else {
            let j = i - first.len() + 1;
            assert(whole[i] == second[j]);
            assert(whole[i + 1] == second[j + 1]);
        }
    }
}

/// The positions of one row, from west to east.
pub open spec fn row_positions(row: int, column_count: nat) -> Seq<GridPos> {
    Seq::new(column_count, |col: int| GridPos::at(row, col))
}

/// The positions of the first `row_count` rows in row-major order: row by
/// row from the south, each row from west to east.
pub open spec fn all_positions(row_count: nat, column_count: nat) -> Seq<GridPos>
    decreases row_count,
{
    if row_count == 0 {
        Seq::empty()
    } else {
        all_positions((row_count - 1) as nat, column_count) + row_positions(
            row_count - 1,
            column_count,
        )
    }
}

/// The positions in row-major order are as many as the rectangle has
/// cells, each lies in the rectangle, each position of the rectangle is
/// among them, and they stand in strictly rising order.
pub proof fn lemma_all_positions(row_count: nat, column_count: nat)
    requires
        row_count <= usize::MAX,
        column_count <= usize::MAX,
    ensures
        all_positions(row_count, column_count).len() == row_count * column_count,
        forall|i: int|
            0 <= i < all_positions(row_count, column_count).len() ==> {
                let p = #[trigger] all_positions(row_count, column_count)[i];
                p.row.0 < row_count && p.col.0 < column_count
            },
        forall|p: GridPos|
            p.row.0 < row_count && p.col.0 < column_count ==> all_positions(
                row_count,
                column_count,
            ).contains(p),
        forall|i: int, j: int|
            0 <= i < j < all_positions(row_count, column_count).len() ==> (#[trigger] all_positions(
                row_count,
                column_count,
            )[i]).precedes(#[trigger] all_positions(row_count, column_count)[j]),
        all_positions(row_count, column_count).no_duplicates(),
    decreases row_count,
{
    let all = all_positions(row_count, column_count);
    if row_count == 0 {
        assert(row_count * column_count == 0) by (nonlinear_arith)
            requires
                row_count == 0,
        ;
    } else {
        let below = all_positions((row_count - 1) as nat, column_count);
        let top = row_positions(row_count - 1, column_count);
        lemma_all_positions((row_count - 1) as nat, column_count);
        assert(all == below + top);
        assert(row_count * column_count == (row_count - 1) * column_count + column_count)
            by (nonlinear_arith);
        assert forall|i: int| 0 <= i < all.len() implies ({
            let p = #[trigger] all[i];
            p.row.0 < row_count && p.col.0 < column_count
        }) by {
            if i < below.len() {
                assert(all[i] == below[i]);
            } else {
                assert(all[i] == top[i - below.len()]);
            }
        }
        assert forall|p: GridPos| p.row.0 < row_count && p.col.0 < column_count implies all.contains(
            p,
        ) by {
            if p.row.0 < row_count - 1 {
                assert(below.contains(p));
                let i = choose|i: int| 0 <= i < below.len() && below[i] == p;
                assert(all[i] == p);
            } else {
                assert(top[p.col.0 as int] == p);
                assert(all[below.len() + p.col.0] == p);
            }
        }
        assert forall|i: int, j: int| 0 <= i < j < all.len() implies (#[trigger] all[i]).precedes(
            #[trigger] all[j],
        ) by {
            if j < below.len() {
                assert(all[i] == below[i] && all[j] == below[j]);
            } else if i < below.len() {
                assert(all[i] == below[i]);
                assert(all[j] == top[j - below.len()]);
            } else {
                assert(all[i] == top[i - below.len()]);
                assert(all[j] == top[j - below.len()]);
            }
        }
    }
    assert forall|i: int, j: int| 0 <= i < all.len() && 0 <= j < all.len() && i != j implies all[i]
        != all[j] by {
        if i < j {
            assert(all[i].precedes(all[j]));
        } else {
            assert(all[j].precedes(all[i]));
        }
    }
}

impl GridView {
    /// A walk through passages: each position of `path` is linked to the
    /// next.
    pub open spec fn is_path(self, path: Seq<GridPos>) -> bool {
        path.len() >= 1 && forall|i: int|
            0 <= i < path.len() - 1 ==> self.linked(#[trigger] path[i], path[i + 1])
    }

    /// Some walk through passages leads from `from` to `to`.
    pub open spec fn reaches(self, from: GridPos, to: GridPos) -> bool {
        exists|path: Seq<GridPos>|
            #[trigger] self.is_path(path) && path.first() == from && path.last() == to
    }

    /// The shortest walk from `from` to `to` leads through `steps`
    /// passages: some walk does, and none through fewer.
    pub open spec fn is_shortest(self, from: GridPos, to: GridPos, steps: nat) -> bool {
        &&& exists|path: Seq<GridPos>|
            #[trigger] self.is_path(path) && path.first() == from && path.last() == to
                && path.len() == steps + 1
        &&& forall|path: Seq<GridPos>|
            #[trigger] self.is_path(path) && path.first() == from && path.last() == to
                ==> path.len() >= steps + 1
    }

    /// Every cell can be reached from every other cell.
    pub open spec fn connected(self) -> bool {
        forall|from: GridPos, to: GridPos|
            self.contains(from) && self.contains(to) ==> #[trigger] self.reaches(from, to)
    }

    /// The set of the positions inside the rectangle.
    pub open spec fn position_set(self) -> Set<GridPos> {
        Set::new(|p: GridPos| self.contains(p))
    }

    /// The number of cells of the rectangle.
    pub open spec fn cell_count(self) -> nat {
        self.row_count * self.column_count
    }
}

/// The rectangle has finitely many positions: rows times columns.
pub proof fn lemma_position_set_len(grid: GridView)
    requires
        grid.row_count <= usize::MAX,
        grid.column_count <= usize::MAX,
    ensures
        grid.position_set().finite(),
        grid.position_set().len() == grid.cell_count(),
{
    let all = all_positions(grid.row_count, grid.column_count);
    lemma_all_positions(grid.row_count, grid.column_count);
    all.unique_seq_to_set();
    assert(all.to_set() =~= grid.position_set()) by {
        assert forall|p: GridPos| all.to_set().contains(p) implies grid.position_set().contains(
            p,
        ) by {
            let i = choose|i: int| 0 <= i < all.len() && all[i] == p;
            assert(all[i] == p);
        }
    }
}

/// A neighbor of a position inside the grid is inside the grid, and from
/// there the reverse direction leads back.
pub proof fn lemma_neighbor_involutive(grid: GridView, pos: GridPos, dir: Direction)
    requires
        grid.contains(pos),
        grid.row_count <= usize::MAX,
        grid.column_count <= usize::MAX,
        grid.neighbor(pos, dir) is Some,
    ensures
        grid.contains(grid.neighbor(pos, dir).unwrap()),
        grid.neighbor(grid.neighbor(pos, dir).unwrap(), dir.reversed()) == Some(pos),
        grid.neighbor(pos, dir).unwrap() != pos,
{
}

/// Which flags are open after one flag was opened.
pub proof fn lemma_open_flag_is_open(
    grid: GridView,
    pos: GridPos,
    dir: Direction,
    at: GridPos,
    towards: Direction,
)
    ensures
        grid.open_flag(pos, dir).is_open(at, towards) == (grid.is_open(at, towards) || (at == pos
            && towards == dir)),
{
}

/// Which flags are open after a passage was carved: those that were open
/// before, the flag of `pos` towards `dir`, and the neighbor's flag back.
pub proof fn lemma_link_is_open(
    grid: GridView,
    pos: GridPos,
    dir: Direction,
    at: GridPos,
    towards: Direction,
)
    ensures
        grid.link(pos, dir).is_open(at, towards) == (grid.is_open(at, towards) || (at == pos
            && towards == dir) || (grid.neighbor(pos, dir) == Some(at) && towards
            == dir.reversed())),
{
    lemma_open_flag_is_open(grid, pos, dir, at, towards);
    if let Some(other) = grid.neighbor(pos, dir) {
        lemma_open_flag_is_open(grid.open_flag(pos, dir), other, dir.reversed(), at, towards);
    }
}

/// Opening a flag of a cell of the grid keeps the grid's shape.
pub proof fn lemma_open_flag_shape(grid: GridView, pos: GridPos, dir: Direction)
    requires
        grid.well_shaped(),
        grid.contains(pos),
    ensures
        grid.open_flag(pos, dir).well_shaped(),
        grid.open_flag(pos, dir).row_count == grid.row_count,
        grid.open_flag(pos, dir).column_count == grid.column_count,
{
    let after = grid.open_flag(pos, dir);
    assert(grid.cells.contains_key(pos));
    assert forall|p: GridPos| #[trigger] after.cells.contains_key(p) implies after.cells[p].pos
        == p by {
        assert(grid.cells.contains_key(p));
    }
    assert forall|p: GridPos| #[trigger] after.cells.contains_key(p) <==> after.contains(p) by {
        assert(grid.cells.contains_key(p) <==> grid.contains(p));
    }
}

/// Carving a passage keeps a grid well-formed.
pub proof fn lemma_link_wf(grid: GridView, pos: GridPos, dir: Direction)
    requires
        grid.wf(),
        grid.contains(pos),
        grid.row_count <= usize::MAX,
        grid.column_count <= usize::MAX,
    ensures
        grid.link(pos, dir).wf(),
        grid.link(pos, dir).row_count == grid.row_count,
        grid.link(pos, dir).column_count == grid.column_count,
{
    let after = grid.link(pos, dir);
    lemma_open_flag_shape(grid, pos, dir);
    if let Some(other) = grid.neighbor(pos, dir) {
        lemma_neighbor_involutive(grid, pos, dir);
        lemma_open_flag_shape(grid.open_flag(pos, dir), other, dir.reversed());
    }
    assert forall|p: GridPos, d: Direction|
        after.contains(p) && #[trigger] after.is_open(p, d) && after.neighbor(p, d) is Some implies
            after.is_open(after.neighbor(p, d).unwrap(), d.reversed()) by {
        let q = grid.neighbor(p, d).unwrap();
        lemma_neighbor_involutive(grid, p, d);
        lemma_reverse_involutive(d);
        lemma_link_is_open(grid, pos, dir, p, d);
        lemma_link_is_open(grid, pos, dir, q, d.reversed());
        if grid.is_open(p, d) {
            assert(grid.is_open(q, d.reversed()));
        } else if p == pos && d == dir {
        } else {
            lemma_neighbor_involutive(grid, pos, dir);
        }
    }
}

/// A grid of closed cells is well-formed and has no passage.
pub proof fn lemma_walled_wf(column_count: nat, row_count: nat)
    requires
        column_count >= 1,
        row_count >= 1,
    ensures
        GridView::walled(column_count, row_count).wf(),
        passages(GridView::walled(column_count, row_count)) == Set::<(GridPos, Direction)>::empty(),
{
    let grid = GridView::walled(column_count, row_count);
    assert(passages(grid) =~= Set::<(GridPos, Direction)>::empty());
}

/// Carving a passage that was closed, towards north or east and not
/// towards a boundary, adds exactly that passage.
pub proof fn lemma_link_adds_passage(grid: GridView, pos: GridPos, dir: Direction)
    requires
        grid.wf(),
        grid.row_count <= usize::MAX,
        grid.column_count <= usize::MAX,
        grid.contains(pos),
        dir == Direction::North || dir == Direction::East,
        grid.neighbor(pos, dir) is Some,
        !grid.is_open(pos, dir),
        passages(grid).finite(),
    ensures
        passages(grid.link(pos, dir)) == passages(grid).insert((pos, dir)),
        passages(grid.link(pos, dir)).finite(),
        passages(grid.link(pos, dir)).len() == passages(grid).len() + 1,
{
    let linked = grid.link(pos, dir);
    lemma_link_wf(grid, pos, dir);
    assert forall|e: (GridPos, Direction)|
        passages(linked).contains(e) <==> passages(grid).insert((pos, dir)).contains(e) by {
        lemma_link_is_open(grid, pos, dir, e.0, e.1);
    }
    assert(passages(linked) =~= passages(grid).insert((pos, dir)));
}

/// Carving the same passage a second time changes nothing: the grid after
/// two links from `pos` towards `dir` is the grid after one.
pub proof fn lemma_link_idempotent(grid: GridView, pos: GridPos, dir: Direction)
    requires
        grid.contains(pos),
        grid.row_count <= usize::MAX,
        grid.column_count <= usize::MAX,
    ensures
        grid.link(pos, dir).link(pos, dir) == grid.link(pos, dir),
{
    let once = grid.link(pos, dir);
    let twice = once.link(pos, dir);
    assert(once.neighbor(pos, dir) == grid.neighbor(pos, dir));
    if grid.neighbor(pos, dir) is Some {
        lemma_neighbor_involutive(grid, pos, dir);
    }
    assert(twice.cells =~= once.cells);
}


} // verus!
