//! The shape of a grid in the course of a sidewinder carving that started
//! from a grid of closed cells: which eastern and northern walls are open
//! in the rows that are done, in the row that is being walked, and in the
//! rows above it.

use vstd::prelude::*;
use crate::grid_model::{
    lemma_link_adds_passage, lemma_link_is_open, lemma_link_wf, lemma_walled_wf, passages, GridView,
};
use crate::grid_primitives::{Direction, GridPos};
use crate::random_source::draw;
use crate::sidewinder::{carve_upto, close_decision, lemma_carve_no_earlier_failure, sidewinder, visit};

verus! {

/// Whether the cell at row `r`, column `c` is open towards east.
pub open spec fn east(grid: GridView, r: int, c: int) -> bool {
    grid.is_open(GridPos::at(r, c), Direction::East)
}

/// Whether the cell at row `r`, column `c` is open towards north.
pub open spec fn north(grid: GridView, r: int, c: int) -> bool {
    grid.is_open(GridPos::at(r, c), Direction::North)
}

/// Whether row `r`, column `c` lies in the grid.
pub open spec fn in_grid(grid: GridView, r: int, c: int) -> bool {
    0 <= r < grid.row_count && 0 <= c < grid.column_count
}

/// The cells of row `r` from column `from` to column `to` are joined by
/// open eastern walls.
pub open spec fn run_joined(grid: GridView, r: int, from: int, to: int) -> bool {
    forall|j: int| from <= j < to ==> #[trigger] east(grid, r, j)
}

/// The cells at columns `c` and `k` of row `r` are joined by open walls
/// between them.
pub open spec fn row_joined(grid: GridView, r: int, c: int, k: int) -> bool {
    if c <= k {
        run_joined(grid, r, c, k)
    } else {
        run_joined(grid, r, k, c)
    }
}

/// The cell at column `c` of row `r` is joined along the row to a cell
/// left of column `bound` that is open towards north.
pub open spec fn anchored(grid: GridView, r: int, c: int, bound: int) -> bool {
    exists|k: int| 0 <= k < bound && #[trigger] north(grid, r, k) && row_joined(grid, r, c, k)
}

/// Every cell of row `r` left of column `bound` is anchored left of it.
pub open spec fn prefix_done(grid: GridView, r: int, bound: int) -> bool {
    forall|c: int| 0 <= c < bound ==> #[trigger] anchored(grid, r, c, bound)
}

/// Between two cells of row `r` that are open towards north some eastern
/// wall is closed.
pub open spec fn separated(grid: GridView, r: int) -> bool {
    forall|k1: int, k2: int|
        0 <= k1 < k2 < grid.column_count && #[trigger] north(grid, r, k1) && #[trigger] north(
            grid,
            r,
            k2,
        ) ==> !run_joined(grid, r, k1, k2)
}

/// Row `r` is carved: it falls into runs of joined cells, and each run
/// has exactly one cell that is open towards north.
pub open spec fn row_done(grid: GridView, r: int) -> bool {
    prefix_done(grid, r, grid.column_count as int) && separated(grid, r)
}

/// The smaller of two numbers.
pub open spec fn lesser(a: int, b: int) -> int {
    if a <= b {
        a
    } else {
        b
    }
}

/// The shape of the grid when the rows below `r` are carved, the first `c`
/// cells of row `r` are visited and the run begins at column `a`.
pub open spec fn shape(grid: GridView, r: int, c: int, a: int) -> bool {
    let rows = grid.row_count as int;
    let cols = grid.column_count as int;
    &&& 0 <= r < rows
    &&& 0 <= a <= c <= cols
    &&& forall|r2: int, c2: int|
        #![trigger east(grid, r2, c2)]
        #![trigger north(grid, r2, c2)]
        r < r2 < rows && 0 <= c2 < cols ==> !east(grid, r2, c2) && !north(grid, r2, c2)
    &&& forall|r2: int| 0 <= r2 < r ==> #[trigger] row_done(grid, r2)
    &&& run_joined(grid, r, a, c)
    &&& forall|j: int| c <= j < cols ==> !#[trigger] east(grid, r, j)
    &&& r < rows - 1 ==> {
        &&& prefix_done(grid, r, a)
        &&& separated(grid, r)
        &&& a > 0 ==> !east(grid, r, a - 1)
        &&& forall|j: int| a <= j < cols ==> !#[trigger] north(grid, r, j)
    }
    &&& r == rows - 1 ==> {
        &&& c < cols ==> a == 0
        &&& run_joined(grid, r, 0, lesser(c, cols - 1))
    }
}

/// A grid of closed cells has the shape of a carving that is about to
/// begin.
pub proof fn lemma_walled_shape(column_count: nat, row_count: nat)
    requires
        column_count >= 1,
        row_count >= 1,
    ensures
        shape(GridView::walled(column_count, row_count), 0, 0, 0),
{
    let grid = GridView::walled(column_count, row_count);
    assert forall|j: int| 0 <= j < grid.column_count implies !#[trigger] north(grid, 0, j) by {}
    assert forall|j: int| 0 <= j < grid.column_count implies !#[trigger] east(grid, 0, j) by {}
}

/// What carving towards east from row `r`, column `c` changes: that
/// cell's eastern wall is open, and no other eastern or northern wall
/// changes.
pub proof fn lemma_link_east(grid: GridView, r: int, c: int)
    requires
        grid.wf(),
        grid.row_count <= usize::MAX,
        grid.column_count <= usize::MAX,
        in_grid(grid, r, c),
    ensures
        ({
            let linked = grid.link(GridPos::at(r, c), Direction::East);
            &&& linked.wf()
            &&& linked.row_count == grid.row_count
            &&& linked.column_count == grid.column_count
            &&& forall|r2: int, c2: int|
                in_grid(grid, r2, c2) ==> #[trigger] east(linked, r2, c2) == (east(grid, r2, c2) || (
                r2 == r && c2 == c))
            &&& forall|r2: int, c2: int|
                in_grid(grid, r2, c2) ==> #[trigger] north(linked, r2, c2) == north(grid, r2, c2)
        }),
{
    let pos = GridPos::at(r, c);
    let linked = grid.link(pos, Direction::East);
    lemma_link_wf(grid, pos, Direction::East);
    assert forall|r2: int, c2: int| in_grid(grid, r2, c2) implies #[trigger] east(linked, r2, c2)
        == (east(grid, r2, c2) || (r2 == r && c2 == c)) by {
        lemma_link_is_open(grid, pos, Direction::East, GridPos::at(r2, c2), Direction::East);
    }
    assert forall|r2: int, c2: int| in_grid(grid, r2, c2) implies #[trigger] north(linked, r2, c2)
        == north(grid, r2, c2) by {
        lemma_link_is_open(grid, pos, Direction::East, GridPos::at(r2, c2), Direction::North);
    }
}

/// What carving towards north from row `r`, column `c` changes: that
/// cell's northern wall is open, and no other eastern or northern wall
/// changes.
pub proof fn lemma_link_north(grid: GridView, r: int, c: int)
    requires
        grid.wf(),
        grid.row_count <= usize::MAX,
        grid.column_count <= usize::MAX,
        in_grid(grid, r, c),
    ensures
        ({
            let linked = grid.link(GridPos::at(r, c), Direction::North);
            &&& linked.wf()
            &&& linked.row_count == grid.row_count
            &&& linked.column_count == grid.column_count
            &&& forall|r2: int, c2: int|
                in_grid(grid, r2, c2) ==> #[trigger] north(linked, r2, c2) == (north(grid, r2, c2)
                    || (r2 == r && c2 == c))
            &&& forall|r2: int, c2: int|
                in_grid(grid, r2, c2) ==> #[trigger] east(linked, r2, c2) == east(grid, r2, c2)
        }),
{
    let pos = GridPos::at(r, c);
    let linked = grid.link(pos, Direction::North);
    lemma_link_wf(grid, pos, Direction::North);
    assert forall|r2: int, c2: int| in_grid(grid, r2, c2) implies #[trigger] north(linked, r2, c2)
        == (north(grid, r2, c2) || (r2 == r && c2 == c)) by {
        lemma_link_is_open(grid, pos, Direction::North, GridPos::at(r2, c2), Direction::North);
    }
    assert forall|r2: int, c2: int| in_grid(grid, r2, c2) implies #[trigger] east(linked, r2, c2)
        == east(grid, r2, c2) by {
        lemma_link_is_open(grid, pos, Direction::North, GridPos::at(r2, c2), Direction::East);
    }
}

/// A row whose eastern and northern walls are the same in two grids is
/// carved in both or in neither, up to any column.
pub proof fn lemma_row_frame(before: GridView, after: GridView, r: int, bound: int)
    requires
        before.column_count == after.column_count,
        0 <= bound <= before.column_count,
        forall|c: int|
            0 <= c < before.column_count ==> #[trigger] east(after, r, c) == east(before, r, c),
        forall|c: int|
            0 <= c < before.column_count ==> #[trigger] north(after, r, c) == north(before, r, c),
    ensures
        prefix_done(before, r, bound) ==> prefix_done(after, r, bound),
        separated(before, r) ==> separated(after, r),
{
    if prefix_done(before, r, bound) {
        assert forall|c: int| 0 <= c < bound implies #[trigger] anchored(after, r, c, bound) by {
            assert(anchored(before, r, c, bound));
            let k = choose|k: int|
                0 <= k < bound && #[trigger] north(before, r, k) && row_joined(before, r, c, k);
            assert(north(after, r, k));
            lemma_joined_frame(before, after, r, c, k);
        }
    }
    if separated(before, r) {
        assert forall|k1: int, k2: int|
            0 <= k1 < k2 < after.column_count && #[trigger] north(after, r, k1) && #[trigger] north(
                after,
                r,
                k2,
            ) implies !run_joined(after, r, k1, k2) by {
            assert(north(before, r, k1) && north(before, r, k2));
            assert(!run_joined(before, r, k1, k2));
            let j = choose|j: int| k1 <= j < k2 && !east(before, r, j);
            assert(!east(after, r, j));
        }
    }
}

/// Cells joined along a row stay joined in a grid with the same eastern
/// walls in that row.
pub proof fn lemma_joined_frame(before: GridView, after: GridView, r: int, c: int, k: int)
    requires
        before.column_count == after.column_count,
        0 <= c < before.column_count,
        0 <= k < before.column_count,
        forall|j: int|
            0 <= j < before.column_count ==> (#[trigger] east(before, r, j) ==> east(after, r, j)),
        row_joined(before, r, c, k),
    ensures
        row_joined(after, r, c, k),
{
    if c <= k {
        assert forall|j: int| c <= j < k implies #[trigger] east(after, r, j) by {
            assert(east(before, r, j));
        }
    } else {
        assert forall|j: int| k <= j < c implies #[trigger] east(after, r, j) by {
            assert(east(before, r, j));
        }
    }
}

/// The run goes on: after a passage is carved east from the cell that
/// is visited, the grid has the shape of the next moment, and one passage
/// more.
pub proof fn lemma_shape_extend(grid: GridView, r: int, c: int, a: int)
    requires
        grid.wf(),
        grid.row_count <= usize::MAX,
        grid.column_count <= usize::MAX,
        shape(grid, r, c, a),
        c < grid.column_count - 1,
        passages(grid).finite(),
    ensures
        ({
            let linked = grid.link(GridPos::at(r, c), Direction::East);
            &&& linked.wf()
            &&& linked.row_count == grid.row_count
            &&& linked.column_count == grid.column_count
            &&& shape(linked, r, c + 1, a)
            &&& passages(linked).finite()
            &&& passages(linked).len() == passages(grid).len() + 1
        }),
{
    let linked = grid.link(GridPos::at(r, c), Direction::East);
    let rows = grid.row_count as int;
    let cols = grid.column_count as int;
    lemma_link_east(grid, r, c);
    assert(!east(grid, r, c));
    lemma_link_adds_passage(grid, GridPos::at(r, c), Direction::East);
    assert forall|r2: int| 0 <= r2 < r implies #[trigger] row_done(linked, r2) by {
        assert(row_done(grid, r2));
        lemma_row_frame(grid, linked, r2, cols);
    }
    assert forall|j: int| a <= j < c + 1 implies #[trigger] east(linked, r, j) by {
        if j < c {
            assert(east(grid, r, j));
        }
    }
    assert forall|j: int| c + 1 <= j < cols implies !#[trigger] east(linked, r, j) by {
        assert(!east(grid, r, j));
    }
    if r < rows - 1 {
        assert forall|c2: int| 0 <= c2 < a implies #[trigger] anchored(linked, r, c2, a) by {
            assert(anchored(grid, r, c2, a));
            let k = choose|k: int|
                0 <= k < a && #[trigger] north(grid, r, k) && row_joined(grid, r, c2, k);
            assert(north(linked, r, k));
            lemma_joined_frame(grid, linked, r, c2, k);
        }
        assert forall|k1: int, k2: int|
            0 <= k1 < k2 < cols && #[trigger] north(linked, r, k1) && #[trigger] north(
                linked,
                r,
                k2,
            ) implies !run_joined(linked, r, k1, k2) by {
            assert(north(grid, r, k1) && north(grid, r, k2));
            assert(k2 < a);
            let j = choose|j: int| k1 <= j < k2 && !east(grid, r, j);
            assert(!east(linked, r, j));
        }
        assert forall|j: int| a <= j < cols implies !#[trigger] north(linked, r, j) by {
            assert(!north(grid, r, j));
        }
        if a > 0 {
            assert(!east(linked, r, a - 1));
        }
    } else {
        assert forall|j: int| 0 <= j < lesser(c + 1, cols - 1) implies #[trigger] east(
            linked,
            r,
            j,
        ) by {}
    }
    assert forall|r2: int, c2: int|
        #![trigger east(linked, r2, c2)]
        #![trigger north(linked, r2, c2)]
        r < r2 < rows && 0 <= c2 < cols implies !east(linked, r2, c2) && !north(linked, r2, c2) by {
        assert(!east(grid, r2, c2) && !north(grid, r2, c2));
    }
}

/// The run is closed below the northern row: after a passage is carved
/// north from the cell at column `k` of the run, the grid has the shape of
/// the next moment, with an empty run, and one passage more.
pub proof fn lemma_shape_close(grid: GridView, r: int, c: int, a: int, k: int)
    requires
        grid.wf(),
        grid.row_count <= usize::MAX,
        grid.column_count <= usize::MAX,
        shape(grid, r, c, a),
        c < grid.column_count,
        r < grid.row_count - 1,
        a <= k <= c,
        passages(grid).finite(),
    ensures
        ({
            let linked = grid.link(GridPos::at(r, k), Direction::North);
            &&& linked.wf()
            &&& linked.row_count == grid.row_count
            &&& linked.column_count == grid.column_count
            &&& shape(linked, r, c + 1, c + 1)
            &&& passages(linked).finite()
            &&& passages(linked).len() == passages(grid).len() + 1
        }),
{
    let linked = grid.link(GridPos::at(r, k), Direction::North);
    let rows = grid.row_count as int;
    let cols = grid.column_count as int;
    lemma_link_north(grid, r, k);
    assert(!north(grid, r, k));
    lemma_link_adds_passage(grid, GridPos::at(r, k), Direction::North);
    assert forall|r2: int| 0 <= r2 < r implies #[trigger] row_done(linked, r2) by {
        assert(row_done(grid, r2));
        lemma_row_frame(grid, linked, r2, cols);
    }
    assert forall|j: int| c + 1 <= j < cols implies !#[trigger] east(linked, r, j) by {
        assert(!east(grid, r, j));
    }
    assert(!east(grid, r, c));
    assert(!east(linked, r, c));
    assert(north(linked, r, k));
    assert forall|c2: int| 0 <= c2 < c + 1 implies #[trigger] anchored(linked, r, c2, c + 1) by {
        if c2 < a {
            assert(anchored(grid, r, c2, a));
            let k2 = choose|k2: int|
                0 <= k2 < a && #[trigger] north(grid, r, k2) && row_joined(grid, r, c2, k2);
            assert(north(linked, r, k2));
            lemma_joined_frame(grid, linked, r, c2, k2);
        } else {
            if c2 <= k {
                assert forall|j: int| c2 <= j < k implies #[trigger] east(linked, r, j) by {
                    assert(east(grid, r, j));
                }
            } else {
                assert forall|j: int| k <= j < c2 implies #[trigger] east(linked, r, j) by {
                    assert(east(grid, r, j));
                }
            }
            assert(row_joined(linked, r, c2, k));
        }
    }
    assert forall|k1: int, k2: int|
        0 <= k1 < k2 < cols && #[trigger] north(linked, r, k1) && #[trigger] north(linked, r, k2)
        implies !run_joined(linked, r, k1, k2) by {
        if k1 != k && k2 != k {
            assert(north(grid, r, k1) && north(grid, r, k2));
            let j = choose|j: int| k1 <= j < k2 && !east(grid, r, j);
            assert(!east(linked, r, j));
        } else if k2 == k {
            assert(north(grid, r, k1));
            assert(k1 < a);
            assert(!east(grid, r, a - 1));
            assert(!east(linked, r, a - 1));
        } else {
            assert(north(grid, r, k2));
        }
    }
    assert forall|j: int| c + 1 <= j < cols implies !#[trigger] north(linked, r, j) by {
        assert(!north(grid, r, j));
    }
    assert forall|r2: int, c2: int|
        #![trigger east(linked, r2, c2)]
        #![trigger north(linked, r2, c2)]
        r < r2 < rows && 0 <= c2 < cols implies !east(linked, r2, c2) && !north(linked, r2, c2) by {
        assert(!east(grid, r2, c2) && !north(grid, r2, c2));
    }
}

/// The run is closed at the end of the northern row: nothing is carved,
/// and the grid has the shape of a finished carving.
pub proof fn lemma_shape_close_top(grid: GridView, a: int)
    requires
        shape(grid, grid.row_count - 1, grid.column_count - 1, a),
    ensures
        shape(
            grid,
            grid.row_count - 1,
            grid.column_count as int,
            grid.column_count as int,
        ),
{
    let r = grid.row_count - 1;
    let cols = grid.column_count as int;
    assert forall|j: int| 0 <= j < lesser(cols, cols - 1) implies #[trigger] east(grid, r, j) by {}
}

/// A row is finished: the grid has the shape of a carving that is about
/// to begin the next row.
pub proof fn lemma_shape_next_row(grid: GridView, r: int)
    requires
        shape(grid, r, grid.column_count as int, grid.column_count as int),
        r + 1 < grid.row_count,
    ensures
        shape(grid, r + 1, 0, 0),
{
    let cols = grid.column_count as int;
    assert forall|r2: int| 0 <= r2 < r + 1 implies #[trigger] row_done(grid, r2) by {
        if r2 == r {
            assert(prefix_done(grid, r, cols));
            assert(separated(grid, r));
        }
    }
    assert forall|j: int| 0 <= j < cols implies !#[trigger] east(grid, r + 1, j) by {}
    assert forall|j: int| 0 <= j < cols implies !#[trigger] north(grid, r + 1, j) by {}
}

/// How many passages a carving from a grid of closed cells has made when
/// the rows below `r` and the first `c` cells of row `r` are visited: one
/// for each cell visited, but none for the last cell of the northern row.
pub open spec fn cells_carved(rows: int, cols: int, r: int, c: int) -> int {
    r * cols + c - (if r == rows - 1 && c == cols {
        1int
    } else {
        0int
    })
}

/// What holds of a carving from a grid of closed cells that has not
/// failed: the run is the last cells visited in the row, the grid has the
/// shape of that moment, and the passages are as many as `cells_carved`
/// says.
pub open spec fn carving_in_shape(
    column_count: nat,
    row_count: nat,
    script: Seq<usize>,
    r: nat,
    c: nat,
) -> bool {
    let state = carve_upto(GridView::walled(column_count, row_count), script, r, c);
    &&& state.grid.wf()
    &&& state.grid.row_count == row_count
    &&& state.grid.column_count == column_count
    &&& state.run.len() <= c
    &&& c == column_count ==> state.run.len() == 0
    &&& forall|i: int|
        0 <= i < state.run.len() ==> #[trigger] state.run[i] == GridPos::at(
            r as int,
            c - state.run.len() + i,
        )
    &&& shape(state.grid, r as int, c as int, c - state.run.len())
    &&& passages(state.grid).finite()
    &&& passages(state.grid).len() == cells_carved(
        row_count as int,
        column_count as int,
        r as int,
        c as int,
    )
}

/// A carving from a grid of closed cells is in shape at every moment at
/// which it has not failed.
pub proof fn lemma_carve_shape(column_count: nat, row_count: nat, script: Seq<usize>, r: nat, c: nat)
    requires
        1 <= column_count <= usize::MAX,
        1 <= row_count <= usize::MAX,
        r < row_count,
        c <= column_count,
        carve_upto(GridView::walled(column_count, row_count), script, r, c).failure is None,
    ensures
        carving_in_shape(column_count, row_count, script, r, c),
    decreases r, c,
{
    let start = GridView::walled(column_count, row_count);
    let state = carve_upto(start, script, r, c);
    let rows = row_count as int;
    let cols = column_count as int;
    if c > 0 {
        let before = carve_upto(start, script, r, (c - 1) as nat);
        lemma_carve_no_earlier_failure(start, script, r, c);
        lemma_carve_shape(column_count, row_count, script, r, (c - 1) as nat);
        lemma_visit_shape(before, script, r as int, c - 1);
        assert(state == visit(before, GridPos::at(r as int, c - 1), script));
        assert(r * cols + (c - 1) + 1 == r * cols + c);
    } else if r > 0 {
        lemma_carve_shape(column_count, row_count, script, (r - 1) as nat, column_count);
        assert(state == carve_upto(start, script, (r - 1) as nat, column_count));
        lemma_shape_next_row(state.grid, r - 1);
        assert((r - 1) * cols + cols == r * cols) by (nonlinear_arith);
        assert(state.run.len() == 0);
    } else {
        lemma_walled_wf(column_count, row_count);
        lemma_walled_shape(column_count, row_count);
        assert(0 * cols == 0);
        assert(passages(start).len() == 0);
    }
}

/// A visit that does not fail takes a carving in shape to a carving in
/// shape, and makes one passage, or none at the last cell of the northern
/// row.
pub proof fn lemma_visit_shape(before: crate::sidewinder::Carving, script: Seq<usize>, r: int, c: int)
    requires
        before.failure is None,
        before.grid.wf(),
        before.grid.row_count <= usize::MAX,
        before.grid.column_count <= usize::MAX,
        in_grid(before.grid, r, c),
        before.run.len() <= c,
        forall|i: int|
            0 <= i < before.run.len() ==> #[trigger] before.run[i] == GridPos::at(
                r,
                c - before.run.len() + i,
            ),
        shape(before.grid, r, c, c - before.run.len()),
        passages(before.grid).finite(),
        visit(before, GridPos::at(r, c), script).failure is None,
    ensures
        ({
            let after = visit(before, GridPos::at(r, c), script);
            let last = r == before.grid.row_count - 1 && c == before.grid.column_count - 1;
            &&& after.grid.wf()
            &&& after.grid.row_count == before.grid.row_count
            &&& after.grid.column_count == before.grid.column_count
            &&& after.run.len() <= c + 1
            &&& c + 1 == before.grid.column_count ==> after.run.len() == 0
            &&& forall|i: int|
                0 <= i < after.run.len() ==> #[trigger] after.run[i] == GridPos::at(
                    r,
                    c + 1 - after.run.len() + i,
                )
            &&& shape(after.grid, r, c + 1, c + 1 - after.run.len())
            &&& passages(after.grid).finite()
            &&& passages(after.grid).len() == passages(before.grid).len() + (if last {
                0int
            } else {
                1int
            })
        }),
{
    let grid = before.grid;
    let pos = GridPos::at(r, c);
    let a = c - before.run.len();
    let run = before.run.push(pos);
    let after = visit(before, pos, script);
    let at_east = grid.at_eastern_boundary(pos);
    let at_north = grid.at_northern_boundary(pos);
    assert(at_east == (c == grid.column_count - 1));
    assert(at_north == (r == grid.row_count - 1));
    assert forall|i: int| 0 <= i < run.len() implies #[trigger] run[i] == GridPos::at(r, a + i) by {
        if i < before.run.len() {
            assert(run[i] == before.run[i]);
        }
    }
    let decision = close_decision(grid, pos, script, before.used);
    assert(decision is Ok);
    let closing = decision.unwrap().0;
    let used = decision.unwrap().1;
    if closing {
        let pick = draw(script, used, run.len());
        assert(pick is Ok);
        let k = a + pick.unwrap();
        assert(run[pick.unwrap() as int] == GridPos::at(r, k));
        assert(after.run.len() == 0);
        if at_north {
            assert(at_east);
            assert(after.grid == grid);
            lemma_shape_close_top(grid, a);
        } else {
            assert(after.grid == grid.link(GridPos::at(r, k), Direction::North));
            lemma_shape_close(grid, r, c, a, k);
        }
    } else {
        assert(!at_east);
        assert(after.grid == grid.link(pos, Direction::East));
        assert(after.run == run);
        lemma_shape_extend(grid, r, c, a);
    }
}

/// The grid that the sidewinder algorithm gives from a grid of closed
/// cells has the shape of a finished carving, and one passage less than it
/// has cells.
pub proof fn lemma_sidewinder_shape(column_count: nat, row_count: nat, script: Seq<usize>)
    requires
        1 <= column_count <= usize::MAX,
        1 <= row_count <= usize::MAX,
        sidewinder(GridView::walled(column_count, row_count), script).failure is None,
    ensures
        ({
            let grid = sidewinder(GridView::walled(column_count, row_count), script).grid;
            &&& grid.wf()
            &&& grid.row_count == row_count
            &&& grid.column_count == column_count
            &&& shape(grid, row_count - 1, column_count as int, column_count as int)
            &&& passages(grid).finite()
            &&& passages(grid).len() == row_count * column_count - 1
        }),
{
    let start = GridView::walled(column_count, row_count);
    assert(sidewinder(start, script) == carve_upto(
        start,
        script,
        (row_count - 1) as nat,
        column_count,
    ));
    lemma_carve_shape(column_count, row_count, script, (row_count - 1) as nat, column_count);
    assert((row_count - 1) * column_count + column_count == row_count * column_count)
        by (nonlinear_arith);
}

} // verus!
