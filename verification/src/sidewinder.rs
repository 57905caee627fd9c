//! The sidewinder algorithm, stated over the model of a grid.
//!
//! The grid is walked row by row from the south, each row from west to
//! east. The cells walked since the last closure form the run. At each cell
//! the run is either closed, and a passage is carved north from one cell of
//! the run, or it goes on, and a passage is carved east.

use vstd::prelude::*;
use crate::grid_model::GridView;
use crate::grid_primitives::{Direction, GridPos};
use crate::random_source::{draw, is_prefix, source_follows, SourceError};

verus! {

/// The state of a carving between two cells.
pub struct Carving {
    /// The grid as carved so far.
    pub grid: GridView,
    /// The cells walked since the last closure, oldest first.
    pub run: Seq<GridPos>,
    /// How many numbers of the script have been used.
    pub used: nat,
    /// Why the carving stopped, if the script failed.
    pub failure: Option<SourceError>,
}

impl Carving {
    /// The carved grid, or why there is none.
    pub open spec fn outcome(self) -> Result<GridView, SourceError> {
        match self.failure {
            Some(e) => Err(e),
            None => Ok(self.grid),
        }
    }

    /// This carving, stopped by `error` after `used` numbers of the script.
    pub open spec fn failed(self, used: nat, error: SourceError) -> Carving {
        Carving { used, failure: Some(error), ..self }
    }

    /// This carving with `by` more numbers of the script used.
    pub open spec fn shifted(self, by: nat) -> Carving {
        Carving { used: self.used + by, ..self }
    }

    /// A carving that has not failed.
    pub open spec fn going(grid: GridView, run: Seq<GridPos>, used: nat) -> Carving {
        Carving { grid, run, used, failure: None }
    }
}

/// Whether the run is closed at `pos`, and how many numbers of the script
/// have been used after the decision. At the eastern boundary the run is
/// always closed; in the northern row it is never closed before; elsewhere
/// the next number of the script decides: 0 closes.
pub open spec fn close_decision(grid: GridView, pos: GridPos, script: Seq<usize>, used: nat) -> Result<
    (bool, nat),
    SourceError,
> {
    if grid.at_eastern_boundary(pos) {
        Ok((true, used))
    } else if grid.at_northern_boundary(pos) {
        Ok((false, used))
    } else {
        match draw(script, used, 2) {
            Ok(coin) => Ok((coin == 0, (used + 1) as nat)),
            Err(e) => Err(e),
        }
    }
}

/// The carving after the cell at `pos` has been visited. A carving that
/// has failed stays as it is.
pub open spec fn visit(state: Carving, pos: GridPos, script: Seq<usize>) -> Carving {
    let run = state.run.push(pos);
    if state.failure is Some {
        state
    } else {
        match close_decision(state.grid, pos, script, state.used) {
            Err(e) => state.failed(state.used, e),
            Ok((false, used)) => Carving {
                grid: state.grid.link(pos, Direction::East),
                run,
                used,
                failure: None,
            },
            Ok((true, used)) => match draw(script, used, run.len()) {
                Err(e) => state.failed(used, e),
                Ok(pick) => Carving {
                    grid: if state.grid.at_northern_boundary(pos) {
                        state.grid
                    } else {
                        state.grid.link(run[pick as int], Direction::North)
                    },
                    run: Seq::empty(),
                    used: (used + 1) as nat,
                    failure: None,
                },
            },
        }
    }
}

/// The carving after all rows below `row` and the first `col` cells of
/// row `row` have been visited.
pub open spec fn carve_upto(start: GridView, script: Seq<usize>, row: nat, col: nat) -> Carving
    decreases row, col,
{
    if col > 0 {
        visit(
            carve_upto(start, script, row, (col - 1) as nat),
            GridPos::at(row as int, col - 1),
            script,
        )
    } else if row > 0 {
        carve_upto(start, script, (row - 1) as nat, start.column_count)
    } else {
        Carving { grid: start, run: Seq::empty(), used: 0, failure: None }
    }
}

/// The carving after every cell of the grid has been visited.
pub open spec fn sidewinder(start: GridView, script: Seq<usize>) -> Carving {
    carve_upto(start, script, start.row_count, 0)
}

/// What a run of the sidewinder algorithm may give. With a script the
/// outcome and the rest of the script are those of the carving by that
/// script. With a seeded generator the run succeeds, and the grid is the
/// carving by some sequence of numbers.
pub open spec fn is_sidewinder_outcome(
    start: GridView,
    script: Option<Seq<usize>>,
    outcome: Result<GridView, SourceError>,
    rest: Option<Seq<usize>>,
) -> bool {
    match script {
        Some(s) => outcome == sidewinder(start, s).outcome() && rest == Some(
            s.skip(sidewinder(start, s).used as int),
        ),
        None => rest is None && outcome is Ok && exists|s: Seq<usize>|
            outcome == #[trigger] sidewinder(start, s).outcome(),
    }
}

/// What a visit of the cell at `pos` may give, from a carving that has used
/// nothing of what the source holds. With a script: the outcome, the run
/// and the rest of the script are those of the visit by that script. With
/// a seeded generator: the visit succeeds, and grid and run are those of
/// the visit by some sequence of numbers, all of them used.
pub open spec fn is_visit_outcome(
    before: Carving,
    pos: GridPos,
    script: Option<Seq<usize>>,
    outcome: Result<GridView, SourceError>,
    run: Seq<GridPos>,
    rest: Option<Seq<usize>>,
) -> bool {
    match script {
        Some(s) => {
            let after = visit(before, pos, s);
            &&& outcome == after.outcome()
            &&& rest == Some(s.skip(after.used as int))
            &&& after.failure is None ==> run == after.run
        },
        None => rest is None && exists|s: Seq<usize>|
            {
                let after = #[trigger] visit(before, pos, s);
                &&& after.failure is None
                &&& outcome == Ok::<GridView, SourceError>(after.grid)
                &&& run == after.run
                &&& after.used == s.len()
            },
    }
}

/// From one grid and one script the algorithm can give only one outcome,
/// and leaves only one rest of the script.
pub proof fn lemma_sidewinder_deterministic(
    start: GridView,
    script: Seq<usize>,
    first: Result<GridView, SourceError>,
    first_rest: Option<Seq<usize>>,
    second: Result<GridView, SourceError>,
    second_rest: Option<Seq<usize>>,
)
    requires
        is_sidewinder_outcome(start, Some(script), first, first_rest),
        is_sidewinder_outcome(start, Some(script), second, second_rest),
    ensures
        first == second,
        first_rest == second_rest,
{
}

/// A carving uses no more numbers than the script has.
pub proof fn lemma_carve_used(start: GridView, script: Seq<usize>, row: nat, col: nat)
    ensures
        carve_upto(start, script, row, col).used <= script.len(),
    decreases row, col,
{
    if col > 0 {
        lemma_carve_used(start, script, row, (col - 1) as nat);
    } else if row > 0 {
        lemma_carve_used(start, script, (row - 1) as nat, start.column_count);
    }
}

/// A carving that has not failed had not failed one cell earlier.
pub proof fn lemma_carve_no_earlier_failure(start: GridView, script: Seq<usize>, row: nat, col: nat)
    requires
        col > 0,
        carve_upto(start, script, row, col).failure is None,
    ensures
        carve_upto(start, script, row, (col - 1) as nat).failure is None,
{
}

/// A carving that has not failed is the same under every script that
/// begins as its script does.
pub proof fn lemma_carve_prefix(
    start: GridView,
    short: Seq<usize>,
    long: Seq<usize>,
    row: nat,
    col: nat,
)
    requires
        is_prefix(short, long),
        carve_upto(start, short, row, col).failure is None,
    ensures
        carve_upto(start, long, row, col) == carve_upto(start, short, row, col),
    decreases row, col,
{
    if col > 0 {
        lemma_carve_no_earlier_failure(start, short, row, col);
        lemma_carve_prefix(start, short, long, row, (col - 1) as nat);
        lemma_carve_used(start, short, row, (col - 1) as nat);
    } else if row > 0 {
        lemma_carve_prefix(start, short, long, (row - 1) as nat, start.column_count);
    }
}

/// Once a carving has failed it stays as it is to the end of the row.
pub proof fn lemma_failure_stays_in_row(
    start: GridView,
    script: Seq<usize>,
    row: nat,
    col: nat,
    later: nat,
)
    requires
        col <= later,
        carve_upto(start, script, row, col).failure is Some,
    ensures
        carve_upto(start, script, row, later) == carve_upto(start, script, row, col),
    decreases later,
{
    if col < later {
        lemma_failure_stays_in_row(start, script, row, col, (later - 1) as nat);
    }
}

/// Once a carving has failed it stays as it is to the end of the grid.
pub proof fn lemma_failure_stays(
    start: GridView,
    script: Seq<usize>,
    row: nat,
    col: nat,
    later_row: nat,
)
    requires
        row < later_row,
        col <= start.column_count,
        carve_upto(start, script, row, col).failure is Some,
    ensures
        carve_upto(start, script, later_row, 0) == carve_upto(start, script, row, col),
    decreases later_row,
{
    if row + 1 < later_row {
        lemma_failure_stays(start, script, row, col, (later_row - 1) as nat);
        lemma_failure_stays_in_row(start, script, (later_row - 1) as nat, 0, start.column_count);
    } else {
        lemma_failure_stays_in_row(start, script, row, col, start.column_count);
    }
}

/// A visit reads its script from where the carving stands: it is the visit
/// by the rest of the script from a carving that has used nothing, with
/// the numbers used before added.
pub proof fn lemma_visit_shift(
    grid: GridView,
    run: Seq<GridPos>,
    pos: GridPos,
    script: Seq<usize>,
    used: nat,
)
    requires
        used <= script.len(),
    ensures
        visit(Carving::going(grid, run, used), pos, script) == visit(
            Carving::going(grid, run, 0),
            pos,
            script.skip(used as int),
        ).shifted(used),
{
    let rest = script.skip(used as int);
    assert(draw(script, used, 2) == draw(rest, 0, 2));
    let len = run.push(pos).len();
    assert(draw(script, used, len) == draw(rest, 0, len));
    if used < script.len() {
        assert(draw(script, used + 1, len) == draw(rest, 1, len));
    }
}

/// One more cell carved, seen from the whole carving: where the carving
/// stood after `col` cells of row `row` and the visit of the next cell
/// succeeded, there is a script under which the carving stands after
/// `col + 1` cells with the grid and the run that the visit gave. The
/// script and the count of numbers used are returned.
pub proof fn lemma_cell_carved(
    start: GridView,
    drawn: Seq<usize>,
    row: nat,
    col: nat,
    before: Carving,
    script: Option<Seq<usize>>,
    source_before: Option<Seq<usize>>,
    grid: GridView,
    run: Seq<GridPos>,
    source_after: Option<Seq<usize>>,
) -> (next: (Seq<usize>, nat))
    requires
        before.failure is None,
        carve_upto(start, drawn, row, col) == before,
        source_follows(script, drawn, before.used, source_before),
        is_visit_outcome(
            Carving::going(before.grid, before.run, 0),
            GridPos::at(row as int, col as int),
            source_before,
            Ok(grid),
            run,
            source_after,
        ),
    ensures
        carve_upto(start, next.0, row, col + 1) == Carving::going(grid, run, next.1),
        source_follows(script, next.0, next.1, source_after),
{
    let pos = GridPos::at(row as int, col as int);
    let fresh = Carving::going(before.grid, before.run, 0);
    assert(before == Carving::going(before.grid, before.run, before.used));
    match script {
        Some(s) => {
            let after = visit(fresh, pos, s.skip(before.used as int));
            lemma_visit_shift(before.grid, before.run, pos, s, before.used);
            assert(s.skip(before.used as int).skip(after.used as int) =~= s.skip(
                (before.used + after.used) as int,
            ));
            lemma_carve_used(start, s, row, col + 1);
            (s, before.used + after.used)
        },
        None => {
            let cell = choose|cell: Seq<usize>|
                {
                    let after = #[trigger] visit(fresh, pos, cell);
                    &&& after.failure is None
                    &&& Ok::<GridView, SourceError>(grid) == Ok::<GridView, SourceError>(after.grid)
                    &&& run == after.run
                    &&& after.used == cell.len()
                };
            let longer = drawn + cell;
            assert(is_prefix(drawn, longer));
            lemma_carve_prefix(start, drawn, longer, row, col);
            assert(longer.skip(before.used as int) =~= cell);
            lemma_visit_shift(before.grid, before.run, pos, longer, before.used);
            (longer, longer.len())
        },
    }
}

/// A cell at which the script failed, seen from the whole carving: the
/// carving by the script fails with the same error, having used what was
/// used up to then.
pub proof fn lemma_cell_failed(
    start: GridView,
    drawn: Seq<usize>,
    row: nat,
    col: nat,
    before: Carving,
    script: Option<Seq<usize>>,
    source_before: Option<Seq<usize>>,
    error: SourceError,
    run: Seq<GridPos>,
    source_after: Option<Seq<usize>>,
)
    requires
        row < start.row_count,
        col < start.column_count,
        before.failure is None,
        carve_upto(start, drawn, row, col) == before,
        source_follows(script, drawn, before.used, source_before),
        is_visit_outcome(
            Carving::going(before.grid, before.run, 0),
            GridPos::at(row as int, col as int),
            source_before,
            Err(error),
            run,
            source_after,
        ),
    ensures
        is_sidewinder_outcome(start, script, Err(error), source_after),
        script matches Some(s) && sidewinder(start, s).grid == before.grid,
{
    let pos = GridPos::at(row as int, col as int);
    let fresh = Carving::going(before.grid, before.run, 0);
    assert(before == Carving::going(before.grid, before.run, before.used));
    match script {
        Some(s) => {
            let after = visit(fresh, pos, s.skip(before.used as int));
            lemma_visit_shift(before.grid, before.run, pos, s, before.used);
            assert(s.skip(before.used as int).skip(after.used as int) =~= s.skip(
                (before.used + after.used) as int,
            ));
            lemma_failure_stays(start, s, row, col + 1, start.row_count);
        },
        None => {},
    }
}

/// A carving that has gone through every row without failing, seen as an
/// outcome of the algorithm.
pub proof fn lemma_all_carved(
    start: GridView,
    drawn: Seq<usize>,
    used: nat,
    script: Option<Seq<usize>>,
    grid: GridView,
    source_after: Option<Seq<usize>>,
)
    requires
        carve_upto(start, drawn, start.row_count, 0) == Carving::going(grid, Seq::empty(), used),
        source_follows(script, drawn, used, source_after),
    ensures
        is_sidewinder_outcome(start, script, Ok(grid), source_after),
{
    if script is None {
        assert(sidewinder(start, drawn).outcome() == Ok::<GridView, SourceError>(grid));
    }
}

} // verus!
