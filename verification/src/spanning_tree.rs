//! Mazes whose passages form a tree that hangs from one cell.
//!
//! Where every cell but one, the root, has a parent to which a passage
//! leads, where every step to a parent lessens a depth that never falls
//! below zero, and where every passage links a cell and its parent, every
//! cell can be reached from every other and there is no round trip.

use vstd::prelude::*;
use crate::grid_model::{lemma_linked_symmetric, lemma_path_join, lemma_path_reverse, GridView};
use crate::grid_primitives::GridPos;

verus! {

/// The passages of `grid` form a tree that hangs from `root`, with the
/// parent of each cell given by `parent` and its depth by `depth`.
pub open spec fn is_rooted(
    grid: GridView,
    root: GridPos,
    parent: spec_fn(GridPos) -> GridPos,
    depth: spec_fn(GridPos) -> int,
) -> bool {
    &&& grid.wf()
    &&& grid.row_count <= usize::MAX
    &&& grid.column_count <= usize::MAX
    &&& grid.contains(root)
    &&& forall|p: GridPos|
        grid.contains(p) && p != root ==> grid.contains(#[trigger] parent(p)) && grid.linked(
            p,
            parent(p),
        ) && 0 <= depth(parent(p)) < depth(p)
    &&& forall|from: GridPos, to: GridPos| #[trigger]
        grid.linked(from, to) ==> (from != root && parent(from) == to) || (to != root && parent(
            to,
        ) == from)
}

/// From every cell a walk leads to the root.
pub proof fn lemma_path_to_root(
    grid: GridView,
    root: GridPos,
    parent: spec_fn(GridPos) -> GridPos,
    depth: spec_fn(GridPos) -> int,
    pos: GridPos,
) -> (path: Seq<GridPos>)
    requires
        is_rooted(grid, root, parent, depth),
        grid.contains(pos),
        pos != root ==> depth(pos) >= 0,
    ensures
        grid.is_path(path),
        path.first() == pos,
        path.last() == root,
    decreases
            (if pos == root {
                0
            } else {
                depth(pos) + 1
            }),
{
    if pos == root {
        seq![pos]
    } else {
        assert(grid.contains(parent(pos)) && grid.linked(pos, parent(pos)));
        let rest = lemma_path_to_root(grid, root, parent, depth, parent(pos));
        let path = seq![pos] + rest;
        assert forall|i: int| 0 <= i < path.len() - 1 implies grid.linked(
            #[trigger] path[i],
            path[i + 1],
        ) by {
            if i == 0 {
                assert(path[1] == rest[0]);
            } else {
                assert(path[i] == rest[i - 1]);
                assert(path[i + 1] == rest[i]);
            }
        }
        assert(path.last() == rest.last());
        path
    }
}

/// In a rooted maze every cell can be reached from every other.
pub proof fn lemma_rooted_connected(
    grid: GridView,
    root: GridPos,
    parent: spec_fn(GridPos) -> GridPos,
    depth: spec_fn(GridPos) -> int,
)
    requires
        is_rooted(grid, root, parent, depth),
    ensures
        grid.connected(),
{
    assert forall|from: GridPos, to: GridPos|
        grid.contains(from) && grid.contains(to) implies #[trigger] grid.reaches(from, to) by {
        lemma_depth_positive(grid, root, parent, depth, from);
        lemma_depth_positive(grid, root, parent, depth, to);
        let there = lemma_path_to_root(grid, root, parent, depth, from);
        let back = lemma_path_to_root(grid, root, parent, depth, to);
        lemma_path_reverse(grid, back);
        lemma_path_join(grid, there, back.reverse());
        let whole = there + back.reverse().skip(1);
        assert(grid.is_path(whole) && whole.first() == from && whole.last() == to);
    }
}

/// Every cell but the root lies deeper than zero.
proof fn lemma_depth_positive(
    grid: GridView,
    root: GridPos,
    parent: spec_fn(GridPos) -> GridPos,
    depth: spec_fn(GridPos) -> int,
    pos: GridPos,
)
    requires
        is_rooted(grid, root, parent, depth),
        grid.contains(pos),
    ensures
        pos != root ==> depth(pos) > 0,
{
    if pos != root {
        assert(grid.contains(parent(pos)));
    }
}

/// Among the first `count` cells of a sequence one lies deepest.
proof fn lemma_deepest(depth: spec_fn(GridPos) -> int, cells: Seq<GridPos>, count: int) -> (at: int)
    requires
        1 <= count <= cells.len(),
    ensures
        0 <= at < count,
        forall|j: int| 0 <= j < count ==> depth(#[trigger] cells[j]) <= depth(cells[at]),
    decreases count,
{
    if count == 1 {
        0
    } else {
        let before = lemma_deepest(depth, cells, count - 1);
        if depth(cells[count - 1]) > depth(cells[before]) {
            count - 1
        } else {
            before
        }
    }
}

/// A cell that lies at least as deep as two cells to which passages lead
/// from it has both of them as its parent.
proof fn lemma_deepest_between(
    grid: GridView,
    root: GridPos,
    parent: spec_fn(GridPos) -> GridPos,
    depth: spec_fn(GridPos) -> int,
    before: GridPos,
    pos: GridPos,
    after: GridPos,
)
    requires
        is_rooted(grid, root, parent, depth),
        grid.linked(before, pos),
        grid.linked(pos, after),
        depth(before) <= depth(pos),
        depth(after) <= depth(pos),
    ensures
        before == after,
{
    lemma_linked_symmetric(grid, before, pos);
    lemma_linked_symmetric(grid, pos, after);
    if before != root && parent(before) == pos {
        assert(grid.contains(parent(before)));
    }
    if after != root && parent(after) == pos {
        assert(grid.contains(parent(after)));
    }
}

/// A rooted maze has no round trip.
pub proof fn lemma_rooted_acyclic(
    grid: GridView,
    root: GridPos,
    parent: spec_fn(GridPos) -> GridPos,
    depth: spec_fn(GridPos) -> int,
)
    requires
        is_rooted(grid, root, parent, depth),
    ensures
        grid.acyclic(),
{
    assert forall|path: Seq<GridPos>| !#[trigger] grid.is_cycle(path) by {
        if grid.is_cycle(path) {
            let n = path.len() as int;
            let at = lemma_deepest(depth, path, n);
            let before = if at == 0 {
                n - 1
            } else {
                at - 1
            };
            let after = if at == n - 1 {
                0
            } else {
                at + 1
            };
            assert(grid.linked(path[before], path[at])) by {
                if at > 0 {
                    assert(grid.linked(path[at - 1], path[at - 1 + 1]));
                }
            }
            assert(grid.linked(path[at], path[after]));
            lemma_deepest_between(grid, root, parent, depth, path[before], path[at], path[after]);
            assert(before != after);
        }
    }
}

} // verus!
