//! The binary-tree algorithm, stated over the model of a grid.
//!
//! Every cell is visited once, in row-major order. At each cell a passage
//! is carved towards east or towards north, chosen among those of the two
//! directions that no boundary blocks; where both are blocked the cell is
//! left as it is.

use vstd::prelude::*;
use crate::grid_model::{all_positions, GridView};
use crate::grid_primitives::{Direction, GridPos};
use crate::random_source::{draw, is_prefix, source_follows, SourceError};

verus! {

/// The state of a binary-tree carving between two cells.
pub struct TreeCarving {
    /// The grid as carved so far.
    pub grid: GridView,
    /// How many numbers of the script have been used.
    pub used: nat,
    /// Why the carving stopped, if the script failed.
    pub failure: Option<SourceError>,
}

impl TreeCarving {
    /// The carved grid, or why there is none.
    pub open spec fn outcome(self) -> Result<GridView, SourceError> {
        match self.failure {
            Some(e) => Err(e),
            None => Ok(self.grid),
        }
    }

    /// A carving that has not failed.
    pub open spec fn going(grid: GridView, used: nat) -> TreeCarving {
        TreeCarving { grid, used, failure: None }
    }

    /// This carving with `by` more numbers of the script used.
    pub open spec fn shifted(self, by: nat) -> TreeCarving {
        TreeCarving { used: self.used + by, ..self }
    }
}

/// The directions towards which a passage may be carved from `pos`: east
/// unless `pos` lies on the eastern boundary, then north unless it lies on
/// the northern boundary.
pub open spec fn carvable(grid: GridView, pos: GridPos) -> Seq<Direction> {
    let east = if grid.at_eastern_boundary(pos) {
        Seq::<Direction>::empty()
    } else {
        seq![Direction::East]
    };
    if grid.at_northern_boundary(pos) {
        east
    } else {
        east.push(Direction::North)
    }
}

/// The carving after the cell at `pos` has been visited: where a passage
/// may be carved, the next number of the script picks the direction. A
/// carving that has failed stays as it is.
pub open spec fn tree_visit(state: TreeCarving, pos: GridPos, script: Seq<usize>) -> TreeCarving {
    let options = carvable(state.grid, pos);
    if state.failure is Some || options.len() == 0 {
        state
    } else {
        match draw(script, state.used, options.len()) {
            Err(e) => TreeCarving { failure: Some(e), ..state },
            Ok(pick) => TreeCarving {
                grid: state.grid.link(pos, options[pick as int]),
                used: state.used + 1,
                failure: None,
            },
        }
    }
}

/// The carving after the first `count` cells in row-major order have been
/// visited.
pub open spec fn tree_upto(start: GridView, script: Seq<usize>, count: nat) -> TreeCarving
    decreases count,
{
    if count == 0 {
        TreeCarving::going(start, 0)
    } else {
        tree_visit(
            tree_upto(start, script, (count - 1) as nat),
            all_positions(start.row_count, start.column_count)[count - 1],
            script,
        )
    }
}

/// The carving after every cell of the grid has been visited.
pub open spec fn binary_tree(start: GridView, script: Seq<usize>) -> TreeCarving {
    tree_upto(start, script, start.cell_count())
}

/// What a visit of the cell at `pos` may give, from a carving that has
/// used nothing of what the source holds.
pub open spec fn is_tree_visit_outcome(
    before: GridView,
    pos: GridPos,
    script: Option<Seq<usize>>,
    outcome: Result<GridView, SourceError>,
    rest: Option<Seq<usize>>,
) -> bool {
    match script {
        Some(s) => {
            let after = tree_visit(TreeCarving::going(before, 0), pos, s);
            outcome == after.outcome() && rest == Some(s.skip(after.used as int))
        },
        None => rest is None && exists|s: Seq<usize>|
            {
                let after = #[trigger] tree_visit(TreeCarving::going(before, 0), pos, s);
                &&& after.failure is None
                &&& outcome == Ok::<GridView, SourceError>(after.grid)
                &&& after.used == s.len()
            },
    }
}

/// What a run of the binary-tree algorithm may give. With a script the
/// outcome and the rest of the script are those of the carving by that
/// script. With a seeded generator the run succeeds, and the grid is the
/// carving by some sequence of numbers.
pub open spec fn is_binary_tree_outcome(
    start: GridView,
    script: Option<Seq<usize>>,
    outcome: Result<GridView, SourceError>,
    rest: Option<Seq<usize>>,
) -> bool {
    match script {
        Some(s) => outcome == binary_tree(start, s).outcome() && rest == Some(
            s.skip(binary_tree(start, s).used as int),
        ),
        None => rest is None && outcome is Ok && exists|s: Seq<usize>|
            outcome == #[trigger] binary_tree(start, s).outcome(),
    }
}

/// From one grid and one script the algorithm can give only one outcome,
/// and leaves only one rest of the script.
pub proof fn lemma_binary_tree_deterministic(
    start: GridView,
    script: Seq<usize>,
    first: Result<GridView, SourceError>,
    first_rest: Option<Seq<usize>>,
    second: Result<GridView, SourceError>,
    second_rest: Option<Seq<usize>>,
)
    requires
        is_binary_tree_outcome(start, Some(script), first, first_rest),
        is_binary_tree_outcome(start, Some(script), second, second_rest),
    ensures
        first == second,
        first_rest == second_rest,
{
}

/// A carving uses no more numbers than the script has.
pub proof fn lemma_tree_used(start: GridView, script: Seq<usize>, count: nat)
    ensures
        tree_upto(start, script, count).used <= script.len(),
    decreases count,
{
    if count > 0 {
        lemma_tree_used(start, script, (count - 1) as nat);
    }
}

/// A carving that has not failed is the same under every script that
/// begins as its script does.
pub proof fn lemma_tree_prefix(start: GridView, short: Seq<usize>, long: Seq<usize>, count: nat)
    requires
        is_prefix(short, long),
        tree_upto(start, short, count).failure is None,
    ensures
        tree_upto(start, long, count) == tree_upto(start, short, count),
    decreases count,
{
    if count > 0 {
        lemma_tree_prefix(start, short, long, (count - 1) as nat);
        lemma_tree_used(start, short, (count - 1) as nat);
    }
}

/// Once a carving has failed it stays as it is.
pub proof fn lemma_tree_failure_stays(start: GridView, script: Seq<usize>, count: nat, later: nat)
    requires
        count <= later,
        tree_upto(start, script, count).failure is Some,
    ensures
        tree_upto(start, script, later) == tree_upto(start, script, count),
    decreases later,
{
    if count < later {
        lemma_tree_failure_stays(start, script, count, (later - 1) as nat);
    }
}

/// A visit reads its script from where the carving stands.
pub proof fn lemma_tree_visit_shift(grid: GridView, pos: GridPos, script: Seq<usize>, used: nat)
    requires
        used <= script.len(),
    ensures
        tree_visit(TreeCarving::going(grid, used), pos, script) == tree_visit(
            TreeCarving::going(grid, 0),
            pos,
            script.skip(used as int),
        ).shifted(used),
{
    let len = carvable(grid, pos).len();
    assert(draw(script, used, len) == draw(script.skip(used as int), 0, len));
}

/// One more cell carved, seen from the whole carving. The script under
/// which the carving stands after the cell, and the count of numbers used,
/// are returned.
pub proof fn lemma_tree_cell_carved(
    start: GridView,
    drawn: Seq<usize>,
    count: nat,
    before: TreeCarving,
    script: Option<Seq<usize>>,
    source_before: Option<Seq<usize>>,
    grid: GridView,
    source_after: Option<Seq<usize>>,
) -> (next: (Seq<usize>, nat))
    requires
        before.failure is None,
        tree_upto(start, drawn, count) == before,
        source_follows(script, drawn, before.used, source_before),
        is_tree_visit_outcome(
            before.grid,
            all_positions(start.row_count, start.column_count)[count as int],
            source_before,
            Ok(grid),
            source_after,
        ),
    ensures
        tree_upto(start, next.0, count + 1) == TreeCarving::going(grid, next.1),
        source_follows(script, next.0, next.1, source_after),
{
    let pos = all_positions(start.row_count, start.column_count)[count as int];
    let fresh = TreeCarving::going(before.grid, 0);
    assert(before == TreeCarving::going(before.grid, before.used));
    match script {
        Some(s) => {
            let after = tree_visit(fresh, pos, s.skip(before.used as int));
            lemma_tree_visit_shift(before.grid, pos, s, before.used);
            assert(s.skip(before.used as int).skip(after.used as int) =~= s.skip(
                (before.used + after.used) as int,
            ));
            lemma_tree_used(start, s, count + 1);
            (s, before.used + after.used)
        },
        None => {
            let cell = choose|cell: Seq<usize>|
                {
                    let after = #[trigger] tree_visit(fresh, pos, cell);
                    &&& after.failure is None
                    &&& Ok::<GridView, SourceError>(grid) == Ok::<GridView, SourceError>(after.grid)
                    &&& after.used == cell.len()
                };
            let longer = drawn + cell;
            assert(is_prefix(drawn, longer));
            lemma_tree_prefix(start, drawn, longer, count);
            assert(longer.skip(before.used as int) =~= cell);
            lemma_tree_visit_shift(before.grid, pos, longer, before.used);
            (longer, longer.len())
        },
    }
}

/// A cell at which the script failed, seen from the whole carving.
pub proof fn lemma_tree_cell_failed(
    start: GridView,
    drawn: Seq<usize>,
    count: nat,
    before: TreeCarving,
    script: Option<Seq<usize>>,
    source_before: Option<Seq<usize>>,
    error: SourceError,
    source_after: Option<Seq<usize>>,
)
    requires
        count < start.cell_count(),
        before.failure is None,
        tree_upto(start, drawn, count) == before,
        source_follows(script, drawn, before.used, source_before),
        is_tree_visit_outcome(
            before.grid,
            all_positions(start.row_count, start.column_count)[count as int],
            source_before,
            Err(error),
            source_after,
        ),
    ensures
        is_binary_tree_outcome(start, script, Err(error), source_after),
{
    let pos = all_positions(start.row_count, start.column_count)[count as int];
    let fresh = TreeCarving::going(before.grid, 0);
    assert(before == TreeCarving::going(before.grid, before.used));
    match script {
        Some(s) => {
            let after = tree_visit(fresh, pos, s.skip(before.used as int));
            lemma_tree_visit_shift(before.grid, pos, s, before.used);
            assert(s.skip(before.used as int).skip(after.used as int) =~= s.skip(
                (before.used + after.used) as int,
            ));
            lemma_tree_failure_stays(start, s, count + 1, start.cell_count());
        },
        None => {},
    }
}

/// A carving that has gone through every cell without failing, seen as an
/// outcome of the algorithm.
pub proof fn lemma_tree_all_carved(
    start: GridView,
    drawn: Seq<usize>,
    used: nat,
    script: Option<Seq<usize>>,
    grid: GridView,
    source_after: Option<Seq<usize>>,
)
    requires
        tree_upto(start, drawn, start.cell_count()) == TreeCarving::going(grid, used),
        source_follows(script, drawn, used, source_after),
    ensures
        is_binary_tree_outcome(start, script, Ok(grid), source_after),
{
    if script is None {
        assert(binary_tree(start, drawn).outcome() == Ok::<GridView, SourceError>(grid));
    }
}

} // verus!
