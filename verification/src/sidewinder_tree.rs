//! Why a finished sidewinder carving is a perfect maze.
//!
//! Every cell but the one in the north-east corner gets a parent: in the
//! northern row the cell to the east; elsewhere the next cell towards the
//! one cell of its run that is open towards north, and for that cell the
//! cell north of it. The passages are exactly the links between a cell and
//! its parent, and every step to a parent leads nearer to the corner.

use vstd::prelude::*;
use crate::grid_model::{lemma_linked_symmetric, lemma_neighbor_involutive, GridView};
use crate::spanning_tree::{is_rooted, lemma_rooted_acyclic, lemma_rooted_connected};
use crate::grid_primitives::{Direction, GridPos};
use crate::random_source::SourceError;
use crate::sidewinder::{is_sidewinder_outcome, sidewinder};
use crate::sidewinder_shape::{
    anchored, east, in_grid, lemma_sidewinder_shape, north, row_done, row_joined, run_joined, shape,
};

verus! {

/// The grid has the shape of a finished sidewinder carving.
pub open spec fn finished(grid: GridView) -> bool {
    &&& grid.wf()
    &&& grid.row_count <= usize::MAX
    &&& grid.column_count <= usize::MAX
    &&& shape(grid, grid.row_count - 1, grid.column_count as int, grid.column_count as int)
}

/// The column of the cell to which the cell at row `r`, column `c` is
/// anchored: the cell of its run that is open towards north.
pub open spec fn anchor(grid: GridView, r: int, c: int) -> int {
    choose|k: int|
        0 <= k < grid.column_count && #[trigger] north(grid, r, k) && row_joined(grid, r, c, k)
}

/// The north-east corner.
pub open spec fn corner(grid: GridView) -> GridPos {
    GridPos::at(grid.row_count - 1, grid.column_count - 1)
}

/// The distance between two columns.
pub open spec fn gap(a: int, b: int) -> int {
    if a <= b {
        b - a
    } else {
        a - b
    }
}

/// The parent of a cell; the corner is its own parent.
pub open spec fn parent(grid: GridView, pos: GridPos) -> GridPos {
    let r = pos.row.0 as int;
    let c = pos.col.0 as int;
    if r == grid.row_count - 1 {
        if c < grid.column_count - 1 {
            GridPos::at(r, c + 1)
        } else {
            pos
        }
    } else {
        let k = anchor(grid, r, c);
        if k == c {
            GridPos::at(r + 1, c)
        } else if k > c {
            GridPos::at(r, c + 1)
        } else {
            GridPos::at(r, c - 1)
        }
    }
}

/// How many steps along its row a cell is from where its parent lies in
/// another row, or from the corner.
pub open spec fn row_steps(grid: GridView, pos: GridPos) -> int {
    let r = pos.row.0 as int;
    let c = pos.col.0 as int;
    if r == grid.row_count - 1 {
        grid.column_count - 1 - c
    } else {
        gap(anchor(grid, r, c), c)
    }
}

/// A number that falls with every step from a cell to its parent.
pub open spec fn depth(grid: GridView, pos: GridPos) -> int {
    (grid.row_count - 1 - pos.row.0) * grid.column_count + row_steps(grid, pos)
}

/// Below the northern row every cell has an anchor in its row.
pub proof fn lemma_anchor(grid: GridView, r: int, c: int)
    requires
        finished(grid),
        0 <= r < grid.row_count - 1,
        0 <= c < grid.column_count,
    ensures
        0 <= anchor(grid, r, c) < grid.column_count,
        north(grid, r, anchor(grid, r, c)),
        row_joined(grid, r, c, anchor(grid, r, c)),
{
    assert(row_done(grid, r));
    assert(anchored(grid, r, c, grid.column_count as int));
}

/// A cell has only one anchor.
pub proof fn lemma_anchor_unique(grid: GridView, r: int, c: int, k: int)
    requires
        finished(grid),
        0 <= r < grid.row_count - 1,
        0 <= c < grid.column_count,
        0 <= k < grid.column_count,
        north(grid, r, k),
        row_joined(grid, r, c, k),
    ensures
        anchor(grid, r, c) == k,
{
    lemma_anchor(grid, r, c);
    let other = anchor(grid, r, c);
    assert(row_done(grid, r));
    if other != k {
        let low = if other < k {
            other
        } else {
            k
        };
        let high = if other < k {
            k
        } else {
            other
        };
        assert(!run_joined(grid, r, low, high));
        let j = choose|j: int| low <= j < high && !east(grid, r, j);
        if j < c {
            assert(row_joined(grid, r, c, low));
        } else {
            assert(row_joined(grid, r, c, high));
        }
        assert(east(grid, r, j));
    }
}

/// A position of the grid is the position at its row and column numbers.
proof fn lemma_at(grid: GridView, pos: GridPos)
    requires
        grid.row_count <= usize::MAX,
        grid.column_count <= usize::MAX,
    ensures
        pos == GridPos::at(pos.row.0 as int, pos.col.0 as int),
        grid.contains(pos) <==> in_grid(grid, pos.row.0 as int, pos.col.0 as int),
{
}

/// Two cells side by side in a row are linked where the wall between
/// them is open.
proof fn lemma_east_linked(grid: GridView, r: int, c: int)
    requires
        finished(grid),
        in_grid(grid, r, c),
        c + 1 < grid.column_count,
        east(grid, r, c),
    ensures
        grid.joined(GridPos::at(r, c), Direction::East, GridPos::at(r, c + 1)),
        grid.joined(GridPos::at(r, c + 1), Direction::West, GridPos::at(r, c)),
{
    lemma_neighbor_involutive(grid, GridPos::at(r, c), Direction::East);
}

/// Two cells one above the other are linked where the wall between them
/// is open.
proof fn lemma_north_linked(grid: GridView, r: int, c: int)
    requires
        finished(grid),
        in_grid(grid, r, c),
        r + 1 < grid.row_count,
        north(grid, r, c),
    ensures
        grid.joined(GridPos::at(r, c), Direction::North, GridPos::at(r + 1, c)),
        grid.joined(GridPos::at(r + 1, c), Direction::South, GridPos::at(r, c)),
{
    lemma_neighbor_involutive(grid, GridPos::at(r, c), Direction::North);
}

/// No cell is more than a row's length away from its anchor.
proof fn lemma_row_steps(grid: GridView, pos: GridPos)
    requires
        finished(grid),
        grid.contains(pos),
    ensures
        0 <= row_steps(grid, pos) < grid.column_count,
{
    if pos.row.0 < grid.row_count - 1 {
        lemma_anchor(grid, pos.row.0 as int, pos.col.0 as int);
    }
}

/// Every cell but the corner is linked to its parent, and its parent lies
/// nearer to the corner.
pub proof fn lemma_parent(grid: GridView, pos: GridPos)
    requires
        finished(grid),
        grid.contains(pos),
        pos != corner(grid),
    ensures
        grid.contains(parent(grid, pos)),
        grid.linked(pos, parent(grid, pos)),
        0 <= depth(grid, parent(grid, pos)) < depth(grid, pos),
{
    let r = pos.row.0 as int;
    let c = pos.col.0 as int;
    let rows = grid.row_count as int;
    let cols = grid.column_count as int;
    let up = parent(grid, pos);
    lemma_at(grid, pos);
    lemma_row_steps(grid, pos);
    if r == rows - 1 {
        assert(c < cols - 1);
        assert(run_joined(grid, r, 0, cols - 1));
        assert(east(grid, r, c));
        lemma_east_linked(grid, r, c);
        lemma_row_steps(grid, up);
        assert((rows - 1 - r) * cols == 0) by (nonlinear_arith)
            requires
                rows - 1 - r == 0,
        ;
    } else {
        lemma_anchor(grid, r, c);
        let k = anchor(grid, r, c);
        if k == c {
            lemma_north_linked(grid, r, c);
            lemma_row_steps(grid, up);
            assert((rows - 1 - r) * cols == (rows - 1 - (r + 1)) * cols + cols)
                by (nonlinear_arith);
            assert((rows - 1 - (r + 1)) * cols >= 0) by (nonlinear_arith)
                requires
                    rows - 1 - (r + 1) >= 0,
                    cols >= 0,
            ;
        } else if k > c {
            assert(east(grid, r, c));
            lemma_east_linked(grid, r, c);
            assert(row_joined(grid, r, c + 1, k)) by {
                assert forall|j: int| c + 1 <= j < k implies #[trigger] east(grid, r, j) by {}
            }
            lemma_anchor_unique(grid, r, c + 1, k);
            assert((rows - 1 - r) * cols >= 0) by (nonlinear_arith)
                requires
                    rows - 1 - r >= 0,
                    cols >= 0,
            ;
        } else {
            assert(east(grid, r, c - 1));
            lemma_east_linked(grid, r, c - 1);
            assert(row_joined(grid, r, c - 1, k)) by {
                assert forall|j: int| k <= j < c - 1 implies #[trigger] east(grid, r, j) by {}
            }
            lemma_anchor_unique(grid, r, c - 1, k);
            assert((rows - 1 - r) * cols >= 0) by (nonlinear_arith)
                requires
                    rows - 1 - r >= 0,
                    cols >= 0,
            ;
        }
    }
}

/// Of two cells side by side with an open wall between them, one is the
/// parent of the other.
proof fn lemma_east_is_parent(grid: GridView, r: int, c: int)
    requires
        finished(grid),
        in_grid(grid, r, c),
        c + 1 < grid.column_count,
        east(grid, r, c),
    ensures
        parent(grid, GridPos::at(r, c)) == GridPos::at(r, c + 1) || (parent(
            grid,
            GridPos::at(r, c + 1),
        ) == GridPos::at(r, c) && GridPos::at(r, c + 1) != corner(grid)),
        GridPos::at(r, c) != corner(grid),
{
    if r < grid.row_count - 1 {
        lemma_anchor(grid, r, c);
        let k = anchor(grid, r, c);
        if k <= c {
            assert(row_joined(grid, r, c + 1, k)) by {
                assert forall|j: int| k <= j < c + 1 implies #[trigger] east(grid, r, j) by {}
            }
            lemma_anchor_unique(grid, r, c + 1, k);
        }
    }
}

/// A cell that is open towards north has the cell north of it as its
/// parent.
proof fn lemma_north_is_parent(grid: GridView, r: int, c: int)
    requires
        finished(grid),
        in_grid(grid, r, c),
        r + 1 < grid.row_count,
        north(grid, r, c),
    ensures
        parent(grid, GridPos::at(r, c)) == GridPos::at(r + 1, c),
        GridPos::at(r, c) != corner(grid),
{
    lemma_anchor_unique(grid, r, c, c);
}

/// Every passage links a cell and its parent.
pub proof fn lemma_passage_is_parent(grid: GridView, from: GridPos, to: GridPos)
    requires
        finished(grid),
        grid.linked(from, to),
    ensures
        (from != corner(grid) && parent(grid, from) == to) || (to != corner(grid) && parent(
            grid,
            to,
        ) == from),
{
    let r = from.row.0 as int;
    let c = from.col.0 as int;
    lemma_at(grid, from);
    lemma_at(grid, to);
    lemma_linked_symmetric(grid, from, to);
    if grid.joined(from, Direction::North, to) {
        lemma_north_is_parent(grid, r, c);
    } else if grid.joined(from, Direction::East, to) {
        lemma_east_is_parent(grid, r, c);
    } else if grid.joined(from, Direction::South, to) {
        lemma_neighbor_involutive(grid, from, Direction::South);
        assert(grid.is_open(to, Direction::North));
        assert(to == GridPos::at(r - 1, c));
        lemma_north_is_parent(grid, r - 1, c);
    } else {
        lemma_neighbor_involutive(grid, from, Direction::West);
        assert(grid.is_open(to, Direction::East));
        assert(to == GridPos::at(r, c - 1));
        lemma_east_is_parent(grid, r, c - 1);
    }
}

/// The passages of a finished carving form a tree that hangs from the
/// corner.
pub proof fn lemma_finished_rooted(grid: GridView)
    requires
        finished(grid),
    ensures
        is_rooted(grid, corner(grid), |p: GridPos| parent(grid, p), |p: GridPos| depth(grid, p)),
{
    let up = |p: GridPos| parent(grid, p);
    let deep = |p: GridPos| depth(grid, p);
    assert forall|p: GridPos| grid.contains(p) && p != corner(grid) implies grid.contains(
        #[trigger] up(p),
    ) && grid.linked(p, up(p)) && 0 <= deep(up(p)) < deep(p) by {
        lemma_parent(grid, p);
    }
    assert forall|from: GridPos, to: GridPos| #[trigger] grid.linked(from, to) implies (from
        != corner(grid) && up(from) == to) || (to != corner(grid) && up(to) == from) by {
        lemma_passage_is_parent(grid, from, to);
    }
}

/// The grid that the sidewinder algorithm carves out of a grid of closed
/// cells is a perfect maze, whatever numbers were drawn: it has one
/// passage less than it has cells, every cell can be reached from every
/// other, and there is no round trip.
pub proof fn lemma_sidewinder_perfect(column_count: nat, row_count: nat, script: Seq<usize>)
    requires
        1 <= column_count <= usize::MAX,
        1 <= row_count <= usize::MAX,
        sidewinder(GridView::walled(column_count, row_count), script).failure is None,
    ensures
        sidewinder(GridView::walled(column_count, row_count), script).grid.is_perfect_maze(),
{
    let grid = sidewinder(GridView::walled(column_count, row_count), script).grid;
    lemma_sidewinder_shape(column_count, row_count, script);
    assert(finished(grid));
    lemma_finished_rooted(grid);
    lemma_rooted_connected(
        grid,
        corner(grid),
        |p: GridPos| parent(grid, p),
        |p: GridPos| depth(grid, p),
    );
    lemma_rooted_acyclic(
        grid,
        corner(grid),
        |p: GridPos| parent(grid, p),
        |p: GridPos| depth(grid, p),
    );
}

/// Every grid that a run of the sidewinder algorithm may give from a grid
/// of closed cells is a perfect maze, with a script and with a seeded
/// generator.
pub proof fn lemma_outcome_perfect(
    start: GridView,
    script: Option<Seq<usize>>,
    carved: GridView,
    rest: Option<Seq<usize>>,
)
    requires
        1 <= start.column_count <= usize::MAX,
        1 <= start.row_count <= usize::MAX,
        start == GridView::walled(start.column_count, start.row_count),
        is_sidewinder_outcome(start, script, Ok(carved), rest),
    ensures
        carved.is_perfect_maze(),
{
    match script {
        Some(s) => {
            lemma_sidewinder_perfect(start.column_count, start.row_count, s);
        },
        None => {
            let s = choose|s: Seq<usize>|
                Ok::<GridView, SourceError>(carved) == #[trigger] sidewinder(start, s).outcome();
            lemma_sidewinder_perfect(start.column_count, start.row_count, s);
        },
    }
}

} // verus!
