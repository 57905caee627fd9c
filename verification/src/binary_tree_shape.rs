//! Why a finished binary-tree carving is a perfect maze.
//!
//! In a carving that started from a grid of closed cells, every cell that
//! has been visited is open towards exactly one of east and north, except
//! the north-east corner, which is open towards neither. The cell in that
//! direction is its parent.

use vstd::prelude::*;
use crate::binary_tree::{binary_tree, carvable, is_binary_tree_outcome, tree_upto, tree_visit, TreeCarving};
use crate::grid_model::{
    all_positions, lemma_all_positions, lemma_link_adds_passage, lemma_link_is_open, lemma_link_wf,
    lemma_neighbor_involutive, lemma_walled_wf, passages, row_positions, GridView,
};
use crate::grid_primitives::{Direction, GridPos};
use crate::random_source::{draw, SourceError};
use crate::spanning_tree::{is_rooted, lemma_rooted_acyclic, lemma_rooted_connected};

verus! {

/// The cell at `pos` has carved its passage: it is open towards exactly
/// one of east and north, and not towards a boundary; or it lies in the
/// north-east corner and is open towards neither.
pub open spec fn chosen(grid: GridView, pos: GridPos) -> bool {
    let east = grid.is_open(pos, Direction::East);
    let north = grid.is_open(pos, Direction::North);
    &&& east ==> !grid.at_eastern_boundary(pos)
    &&& north ==> !grid.at_northern_boundary(pos)
    &&& !(east && north)
    &&& east || north || (grid.at_eastern_boundary(pos) && grid.at_northern_boundary(pos))
}

/// The cell at `pos` is open neither towards east nor towards north.
pub open spec fn untouched(grid: GridView, pos: GridPos) -> bool {
    !grid.is_open(pos, Direction::East) && !grid.is_open(pos, Direction::North)
}

/// The first `count` cells in row-major order have carved their passage,
/// the others are untouched.
pub open spec fn tree_shape(grid: GridView, count: nat) -> bool {
    let all = all_positions(grid.row_count, grid.column_count);
    forall|i: int|
        0 <= i < all.len() ==> (if i < count {
            chosen(grid, #[trigger] all[i])
        } else {
            untouched(grid, all[i])
        })
}

/// The north-east corner.
pub open spec fn corner(grid: GridView) -> GridPos {
    GridPos::at(grid.row_count - 1, grid.column_count - 1)
}

/// The parent of a cell: the neighbor towards which it is open, north
/// before east; the corner is its own parent.
pub open spec fn parent(grid: GridView, pos: GridPos) -> GridPos {
    if grid.is_open(pos, Direction::North) && grid.neighbor(pos, Direction::North) is Some {
        grid.neighbor(pos, Direction::North).unwrap()
    } else if grid.is_open(pos, Direction::East) && grid.neighbor(pos, Direction::East) is Some {
        grid.neighbor(pos, Direction::East).unwrap()
    } else {
        pos
    }
}

/// How many steps north and east a cell lies from the corner.
pub open spec fn depth(grid: GridView, pos: GridPos) -> int {
    (grid.row_count - 1 - pos.row.0) + (grid.column_count - 1 - pos.col.0)
}

/// The corner is the last position in row-major order.
proof fn lemma_corner_is_last(grid: GridView)
    requires
        1 <= grid.row_count <= usize::MAX,
        1 <= grid.column_count <= usize::MAX,
    ensures
        all_positions(grid.row_count, grid.column_count).len() == grid.cell_count(),
        grid.cell_count() >= 1,
        all_positions(grid.row_count, grid.column_count)[grid.cell_count() - 1] == corner(grid),
        forall|i: int|
            0 <= i < grid.cell_count() - 1 ==> #[trigger] all_positions(
                grid.row_count,
                grid.column_count,
            )[i] != corner(grid),
{
    let all = all_positions(grid.row_count, grid.column_count);
    let below = all_positions((grid.row_count - 1) as nat, grid.column_count);
    let top = row_positions(grid.row_count - 1, grid.column_count);
    lemma_all_positions(grid.row_count, grid.column_count);
    lemma_all_positions((grid.row_count - 1) as nat, grid.column_count);
    assert(all == below + top);
    assert(all[all.len() - 1] == top[grid.column_count - 1]);
}

/// A visit that does not fail takes a carving in shape to a carving in
/// shape, and makes one passage, or none at the corner.
pub proof fn lemma_tree_visit_shape(before: TreeCarving, script: Seq<usize>, count: nat)
    requires
        before.failure is None,
        before.grid.wf(),
        1 <= before.grid.row_count <= usize::MAX,
        1 <= before.grid.column_count <= usize::MAX,
        count < before.grid.cell_count(),
        tree_shape(before.grid, count),
        passages(before.grid).finite(),
        tree_visit(
            before,
            all_positions(before.grid.row_count, before.grid.column_count)[count as int],
            script,
        ).failure is None,
    ensures
        ({
            let after = tree_visit(
                before,
                all_positions(before.grid.row_count, before.grid.column_count)[count as int],
                script,
            );
            &&& after.grid.wf()
            &&& after.grid.row_count == before.grid.row_count
            &&& after.grid.column_count == before.grid.column_count
            &&& tree_shape(after.grid, count + 1)
            &&& passages(after.grid).finite()
            &&& passages(after.grid).len() == passages(before.grid).len() + (if count + 1
                == before.grid.cell_count() {
                0int
            } else {
                1int
            })
        }),
{
    let grid = before.grid;
    let all = all_positions(grid.row_count, grid.column_count);
    let pos = all[count as int];
    let after = tree_visit(before, pos, script);
    let options = carvable(grid, pos);
    lemma_all_positions(grid.row_count, grid.column_count);
    lemma_corner_is_last(grid);
    assert(grid.contains(pos));
    assert(untouched(grid, pos));
    if options.len() == 0 {
        assert(pos == corner(grid));
        assert forall|i: int| 0 <= i < all.len() implies (if i < count + 1 {
            chosen(after.grid, #[trigger] all[i])
        } else {
            untouched(after.grid, all[i])
        }) by {
            if i < count {
                assert(chosen(grid, all[i]));
            } else if i > count {
                assert(untouched(grid, all[i]));
            }
        }
    } else {
        assert(pos != corner(grid));
        let pick = draw(script, before.used, options.len());
        assert(pick is Ok);
        let dir = options[pick.unwrap() as int];
        assert(dir == Direction::East || dir == Direction::North);
        assert(!grid.at_boundary(pos, dir));
        assert(after.grid == grid.link(pos, dir));
        lemma_link_wf(grid, pos, dir);
        lemma_link_adds_passage(grid, pos, dir);
        assert forall|i: int| 0 <= i < all.len() implies (if i < count + 1 {
            chosen(after.grid, #[trigger] all[i])
        } else {
            untouched(after.grid, all[i])
        }) by {
            lemma_link_is_open(grid, pos, dir, all[i], Direction::East);
            lemma_link_is_open(grid, pos, dir, all[i], Direction::North);
            if i < count {
                assert(chosen(grid, all[i]));
            } else if i > count {
                assert(untouched(grid, all[i]));
            }
        }
    }
}

/// A carving from a grid of closed cells is in shape at every moment at
/// which it has not failed, and has made one passage for each cell
/// visited but the corner.
pub proof fn lemma_tree_upto_shape(
    column_count: nat,
    row_count: nat,
    script: Seq<usize>,
    count: nat,
)
    requires
        1 <= column_count <= usize::MAX,
        1 <= row_count <= usize::MAX,
        count <= row_count * column_count,
        tree_upto(GridView::walled(column_count, row_count), script, count).failure is None,
    ensures
        ({
            let grid = tree_upto(GridView::walled(column_count, row_count), script, count).grid;
            &&& grid.wf()
            &&& grid.row_count == row_count
            &&& grid.column_count == column_count
            &&& tree_shape(grid, count)
            &&& passages(grid).finite()
            &&& passages(grid).len() == count - (if count == row_count * column_count {
                1int
            } else {
                0int
            })
        }),
    decreases count,
{
    let start = GridView::walled(column_count, row_count);
    if count == 0 {
        lemma_walled_wf(column_count, row_count);
        lemma_corner_is_last(start);
        lemma_all_positions(row_count, column_count);
        let all = all_positions(row_count, column_count);
        assert forall|i: int| 0 <= i < all.len() implies untouched(start, #[trigger] all[i]) by {
            assert(start.cells.contains_key(all[i]));
        }
    } else {
        let before = tree_upto(start, script, (count - 1) as nat);
        lemma_tree_upto_shape(column_count, row_count, script, (count - 1) as nat);
        lemma_tree_visit_shape(before, script, (count - 1) as nat);
    }
}

/// The passages of a finished binary-tree carving form a tree that hangs
/// from the corner.
pub proof fn lemma_tree_rooted(grid: GridView)
    requires
        grid.wf(),
        1 <= grid.row_count <= usize::MAX,
        1 <= grid.column_count <= usize::MAX,
        tree_shape(grid, grid.cell_count()),
    ensures
        is_rooted(grid, corner(grid), |p: GridPos| parent(grid, p), |p: GridPos| depth(grid, p)),
{
    let up = |p: GridPos| parent(grid, p);
    let deep = |p: GridPos| depth(grid, p);
    let all = all_positions(grid.row_count, grid.column_count);
    lemma_all_positions(grid.row_count, grid.column_count);
    assert forall|p: GridPos| grid.contains(p) implies chosen(grid, p) by {
        assert(all.contains(p));
        let i = choose|i: int| 0 <= i < all.len() && all[i] == p;
        assert(chosen(grid, all[i]));
    }
    assert forall|p: GridPos| grid.contains(p) && p != corner(grid) implies grid.contains(
        #[trigger] up(p),
    ) && grid.linked(p, up(p)) && 0 <= deep(up(p)) < deep(p) by {
        assert(chosen(grid, p));
        if grid.is_open(p, Direction::North) {
            lemma_neighbor_involutive(grid, p, Direction::North);
            assert(grid.joined(p, Direction::North, up(p)));
        } else {
            assert(grid.is_open(p, Direction::East));
            lemma_neighbor_involutive(grid, p, Direction::East);
            assert(grid.joined(p, Direction::East, up(p)));
        }
    }
    assert forall|from: GridPos, to: GridPos| #[trigger] grid.linked(from, to) implies (from
        != corner(grid) && up(from) == to) || (to != corner(grid) && up(to) == from) by {
        if grid.joined(from, Direction::North, to) {
        } else if grid.joined(from, Direction::East, to) {
            assert(chosen(grid, from));
        } else if grid.joined(from, Direction::South, to) {
            lemma_neighbor_involutive(grid, from, Direction::South);
            assert(grid.is_open(to, Direction::North));
        } else {
            lemma_neighbor_involutive(grid, from, Direction::West);
            assert(grid.is_open(to, Direction::East));
            assert(chosen(grid, to));
        }
    }
}

/// The grid that the binary-tree algorithm carves out of a grid of closed
/// cells is a perfect maze, whatever numbers were drawn.
pub proof fn lemma_binary_tree_perfect(column_count: nat, row_count: nat, script: Seq<usize>)
    requires
        1 <= column_count <= usize::MAX,
        1 <= row_count <= usize::MAX,
        binary_tree(GridView::walled(column_count, row_count), script).failure is None,
    ensures
        binary_tree(GridView::walled(column_count, row_count), script).grid.is_perfect_maze(),
{
    let grid = binary_tree(GridView::walled(column_count, row_count), script).grid;
    lemma_tree_upto_shape(column_count, row_count, script, row_count * column_count);
    lemma_tree_rooted(grid);
    lemma_rooted_connected(
        grid,
        corner(grid),
        |p: GridPos| parent(grid, p),
        |p: GridPos| depth(grid, p),
    );
    lemma_rooted_acyclic(
        grid,
        corner(grid),
        |p: GridPos| parent(grid, p),
        |p: GridPos| depth(grid, p),
    );
}

/// Every grid that a run of the binary-tree algorithm may give from a
/// grid of closed cells is a perfect maze, with a script and with a seeded
/// generator.
pub proof fn lemma_tree_outcome_perfect(
    start: GridView,
    script: Option<Seq<usize>>,
    carved: GridView,
    rest: Option<Seq<usize>>,
)
    requires
        1 <= start.column_count <= usize::MAX,
        1 <= start.row_count <= usize::MAX,
        start == GridView::walled(start.column_count, start.row_count),
        is_binary_tree_outcome(start, script, Ok(carved), rest),
    ensures
        carved.is_perfect_maze(),
{
    match script {
        Some(s) => {
            lemma_binary_tree_perfect(start.column_count, start.row_count, s);
        },
        None => {
            let s = choose|s: Seq<usize>|
                Ok::<GridView, SourceError>(carved) == #[trigger] binary_tree(start, s).outcome();
            lemma_binary_tree_perfect(start.column_count, start.row_count, s);
        },
    }
}

} // verus!
