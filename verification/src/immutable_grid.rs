//! A grid of cells that is never changed in place: every update gives a new
//! grid and leaves the old one as it was.

use vstd::prelude::*;
use crate::grid_model::{
    all_positions, lemma_all_positions, lemma_link_wf, lemma_neighbor_involutive,
    lemma_open_flag_shape, row_positions, GridView,
};
use crate::binary_tree::{
    carvable, is_binary_tree_outcome, is_tree_visit_outcome, lemma_tree_all_carved,
    lemma_tree_cell_carved, lemma_tree_cell_failed, tree_upto, tree_visit, TreeCarving,
};
use crate::binary_tree_shape::lemma_tree_outcome_perfect;
use crate::grid_primitives::{Col, Direction, GridPos, Row};
use crate::random_source::{draw, lemma_draw_skip, source_follows, RandomSource, SourceError};
use crate::sidewinder_tree::lemma_outcome_perfect;
use crate::sidewinder::{
    carve_upto, close_decision, is_sidewinder_outcome, is_visit_outcome, lemma_all_carved,
    lemma_cell_carved, lemma_cell_failed, visit, Carving,
};

verus! {

/// A cell: where it stands, and for each direction whether a passage
/// crosses its boundary there.
#[derive(Default, Debug, Copy, Clone)]
pub struct GridCell {
    pub pos: GridPos,
    pub north_open: bool,
    pub east_open: bool,
    pub south_open: bool,
    pub west_open: bool,
}

impl GridCell {
    /// The cell at `pos` with all four flags closed.
    pub open spec fn closed(pos: GridPos) -> GridCell {
        GridCell { pos, north_open: false, east_open: false, south_open: false, west_open: false }
    }

    /// Whether the flag towards `dir` is open.
    pub open spec fn open_to(self, dir: Direction) -> bool {
        match dir {
            Direction::North => self.north_open,
            Direction::East => self.east_open,
            Direction::South => self.south_open,
            Direction::West => self.west_open,
        }
    }

    /// This cell with the flag towards `dir` open.
    pub open spec fn with_open(self, dir: Direction) -> GridCell {
        match dir {
            Direction::North => GridCell { north_open: true, ..self },
            Direction::East => GridCell { east_open: true, ..self },
            Direction::South => GridCell { south_open: true, ..self },
            Direction::West => GridCell { west_open: true, ..self },
        }
    }

    pub fn new(pos: GridPos) -> (cell: Self)
        ensures
            cell == GridCell::closed(pos),
    {
        GridCell {
            pos: pos,
            north_open: false,
            east_open: false,
            south_open: false,
            west_open: false,
        }
    }

    pub fn is_open_to(&self, dir: Direction) -> (open: bool)
        ensures
            open == self.open_to(dir),
    {
        match dir {
            Direction::North => self.north_open,
            Direction::East => self.east_open,
            Direction::South => self.south_open,
            Direction::West => self.west_open,
        }
    }
}

/// `im::HashMap`, a persistent hash map. Of what a map of cells holds
/// nothing is known but what the functions below say of `cell_entries`.
#[verifier::external_type_specification]
#[verifier::external_body]
#[verifier::reject_recursive_types(K)]
#[verifier::reject_recursive_types(V)]
#[verifier::reject_recursive_types(S)]
pub struct ExHashMap<K, V, S>(im::HashMap<K, V, S>);

/// The cells that a persistent hash map holds, each under the position
/// whose row and column numbers are its key.
pub uninterp spec fn cell_entries(cells: im::HashMap<(usize, usize), GridCell>) -> Map<
    GridPos,
    GridCell,
>;

/// `im::HashMap::new`: a map that holds nothing.
#[verifier::external_body]
fn cells_empty() -> (fresh: im::HashMap<(usize, usize), GridCell>)
    ensures
        cell_entries(fresh).dom() == Set::<GridPos>::empty(),
{
    im::HashMap::new()
}

/// `im::HashMap::update`: a new map that holds what `cells` holds, but
/// `cell` under the key of `pos`, whether or not that key was there before.
#[verifier::external_body]
fn cells_update(cells: &im::HashMap<(usize, usize), GridCell>, pos: GridPos, cell: GridCell) -> (updated:
    im::HashMap<(usize, usize), GridCell>)
    ensures
        cell_entries(updated) == cell_entries(*cells).insert(pos, cell),
{
    cells.update((pos.row.0, pos.col.0), cell)
}

/// `im::HashMap::get`: the cell under the key of `pos`, if the map has that
/// key.
#[verifier::external_body]
fn cells_get<'a>(cells: &'a im::HashMap<(usize, usize), GridCell>, pos: &GridPos) -> (found: Option<
    &'a GridCell,
>)
    ensures
        found == (if cell_entries(*cells).contains_key(*pos) {
            Some(&cell_entries(*cells)[*pos])
        } else {
            None
        }),
{
    cells.get(&(pos.row.0, pos.col.0))
}

/// `Clone::clone` of `im::HashMap`: a map that holds what `cells` holds.
#[verifier::external_body]
fn cells_clone(cells: &im::HashMap<(usize, usize), GridCell>) -> (copy: im::HashMap<
    (usize, usize),
    GridCell,
>)
    ensures
        cell_entries(copy) == cell_entries(*cells),
{
    cells.clone()
}

/// `im::HashMap::iter`: every entry of the map, each key once, in an order
/// that depends on the map's hasher.
#[verifier::external_body]
fn cells_snapshot(cells: &im::HashMap<(usize, usize), GridCell>) -> (entries: Vec<
    (GridPos, GridCell),
>)
    ensures
        forall|i: int|
            0 <= i < entries@.len() ==> cell_entries(*cells).contains_pair(
                (#[trigger] entries@[i]).0,
                entries@[i].1,
            ),
        forall|i: int, j: int|
            0 <= i < j < entries@.len() ==> (#[trigger] entries@[i]).0 != (#[trigger] entries@[j]).0,
        forall|p: GridPos|
            cell_entries(*cells).contains_key(p) ==> exists|i: int|
                0 <= i < entries@.len() && (#[trigger] entries@[i]).0 == p,
{
    cells.iter().map(|(k, c)| (GridPos { row: Row(k.0), col: Col(k.1) }, *c)).collect()
}

/// A result with the grid in it replaced by its model.
pub open spec fn outcome_view(carved: Result<ImmutableGrid, SourceError>) -> Result<
    GridView,
    SourceError,
> {
    match carved {
        Ok(grid) => Ok(grid@),
        Err(e) => Err(e),
    }
}

/// A rectangular grid of cells, held in a persistent map from position to
/// cell.
#[derive(Debug)]
pub struct ImmutableGrid {
    column_count: usize,
    row_count: usize,
    cells: im::HashMap<(usize, usize), GridCell>,
}

impl View for ImmutableGrid {
    type V = GridView;

    closed spec fn view(&self) -> GridView {
        GridView {
            column_count: self.column_count as nat,
            row_count: self.row_count as nat,
            cells: cell_entries(self.cells),
        }
    }
}

impl Clone for ImmutableGrid {
    fn clone(&self) -> (copy: Self)
        ensures
            copy@ == self@,
    {
        ImmutableGrid {
            column_count: self.column_count,
            row_count: self.row_count,
            cells: cells_clone(&self.cells),
        }
    }
}

impl ImmutableGrid {
    /// The grid is a non-empty rectangle with one cell for each position,
    /// and every wall is open on both sides or on neither.
    pub open spec fn wf(&self) -> bool {
        self@.wf()
    }

    /// The grid's size always fits the machine's integers.
    pub proof fn lemma_size_bounded(&self)
        ensures
            self@.row_count <= usize::MAX,
            self@.column_count <= usize::MAX,
    {
    }

    /// A grid of `column_count` by `row_count` cells, all four flags of each
    /// closed.
    pub fn new(column_count: usize, row_count: usize) -> (grid: Self)
        requires
            column_count >= 1,
            row_count >= 1,
        ensures
            grid@ == GridView::walled(column_count as nat, row_count as nat),
            grid.wf(),
    {
        let mut grid_cells = cells_empty();
        let mut col: usize = 0;
        while col < column_count
            invariant
                col <= column_count,
                forall|p: GridPos|
                    cell_entries(grid_cells).contains_key(p) <==> (p.col.0 < col && p.row.0
                        < row_count),
                forall|p: GridPos|
                    cell_entries(grid_cells).contains_key(p) ==> #[trigger] cell_entries(
                        grid_cells,
                    )[p] == GridCell::closed(p),
            decreases column_count - col,
        {
            let mut row: usize = 0;
            while row < row_count
                invariant
                    col < column_count,
                    row <= row_count,
                    forall|p: GridPos|
                        cell_entries(grid_cells).contains_key(p) <==> ((p.col.0 < col && p.row.0
                            < row_count) || (p.col.0 == col && p.row.0 < row)),
                    forall|p: GridPos|
                        cell_entries(grid_cells).contains_key(p) ==> #[trigger] cell_entries(
                            grid_cells,
                        )[p] == GridCell::closed(p),
                decreases row_count - row,
            {
                let pos = GridPos { col: Col(col), row: Row(row) };
                let cell = GridCell::new(pos);
                grid_cells = cells_update(&grid_cells, pos, cell);
                row = row + 1;
            }
            col = col + 1;
        }
        let grid = ImmutableGrid {
            column_count: column_count,
            row_count: row_count,
            cells: grid_cells,
        };
        assert(grid@.cells =~= GridView::walled(column_count as nat, row_count as nat).cells);
        grid
    }

    pub fn at_northern_boundary(&self, pos: GridPos) -> (at_boundary: bool)
        requires
            self@.row_count >= 1,
        ensures
            at_boundary == self@.at_northern_boundary(pos),
    {
        pos.row == Row(self.row_count - 1)
    }

    pub fn at_eastern_boundary(&self, pos: GridPos) -> (at_boundary: bool)
        requires
            self@.column_count >= 1,
        ensures
            at_boundary == self@.at_eastern_boundary(pos),
    {
        pos.col == Col(self.column_count - 1)
    }

    pub fn at_southern_boundary(&self, pos: GridPos) -> (at_boundary: bool)
        ensures
            at_boundary == self@.at_southern_boundary(pos),
    {
        pos.row == Row(0)
    }

    pub fn at_western_boundary(&self, pos: GridPos) -> (at_boundary: bool)
        ensures
            at_boundary == self@.at_western_boundary(pos),
    {
        pos.col == Col(0)
    }

    /// The position next to `pos` in direction `dir`, or `None` where `pos`
    /// sits on the boundary in that direction. The position is computed from
    /// the row and column numbers; the boundary is tested before one is
    /// subtracted.
    pub fn get_relative_cell_pos(&self, pos: GridPos, dir: Direction) -> (relative: Option<GridPos>)
        requires
            self@.row_count >= 1,
            self@.column_count >= 1,
            dir == Direction::North ==> pos.row.0 < usize::MAX,
            dir == Direction::East ==> pos.col.0 < usize::MAX,
        ensures
            relative == self@.neighbor(pos, dir),
    {
        if self.at_southern_boundary(pos) && dir == Direction::South {
            return None
        }
        if self.at_western_boundary(pos) && dir == Direction::West {
            return None
        }
        if self.at_northern_boundary(pos) && dir == Direction::North {
            return None
        }
        if self.at_eastern_boundary(pos) && dir == Direction::East {
            return None
        }
        let pos = match dir {
            Direction::North => GridPos { col: pos.col, row: Row(pos.row.0 + 1) },
            Direction::East => GridPos { col: Col(pos.col.0 + 1), row: pos.row },
            Direction::South => GridPos { col: pos.col, row: Row(pos.row.0 - 1) },
            Direction::West => GridPos { col: Col(pos.col.0 - 1), row: pos.row },
        };
        Some(pos)
    }

    fn update_cell(self, pos: GridPos, cell: GridCell) -> (updated: Self)
        ensures
            updated@ == self@.with_cell(pos, cell),
    {
        ImmutableGrid {
            column_count: self.column_count,
            row_count: self.row_count,
            cells: cells_update(&self.cells, pos, cell),
        }
    }

    /// The cell at `pos`, or `None` where the grid holds no cell there.
    pub fn get(&self, pos: &GridPos) -> (cell: Option<&GridCell>)
        ensures
            cell == (if self@.cells.contains_key(*pos) {
                Some(&self@.cells[*pos])
            } else {
                None
            }),
    {
        cells_get(&self.cells, pos)
    }

    fn link_single(self, pos: GridPos, dir: Direction) -> (linked: Self)
        requires
            self@.cells.contains_key(pos),
        ensures
            linked@ == self@.open_flag(pos, dir),
    {
        let cell = *self.get(&pos).unwrap();
        match dir {
            Direction::North => self.update_cell(pos, GridCell { north_open: true, ..cell }),
            Direction::East => self.update_cell(pos, GridCell { east_open: true, ..cell }),
            Direction::South => self.update_cell(pos, GridCell { south_open: true, ..cell }),
            Direction::West => self.update_cell(pos, GridCell { west_open: true, ..cell }),
        }
    }

    /// Carves a passage from `pos` towards `dir`: the new grid has the flag
    /// of `pos` towards `dir` open and, where a neighbor exists in that
    /// direction, the neighbor's flag back towards `pos`. Towards a boundary
    /// only the flag of `pos` is opened.
    pub fn link_cells(self, pos: GridPos, dir: Direction) -> (linked: Self)
        requires
            self.wf(),
            self@.contains(pos),
        ensures
            linked@ == self@.link(pos, dir),
            linked.wf(),
    {
        proof {
            lemma_link_wf(self@, pos, dir);
            lemma_open_flag_shape(self@, pos, dir);
            if self@.neighbor(pos, dir) is Some {
                lemma_neighbor_involutive(self@, pos, dir);
            }
        }
        let grid = self.link_single(pos, dir);
        let other_cell_pos = grid.get_relative_cell_pos(pos, dir);
        match other_cell_pos {
            None => grid,
            Some(pos) => grid.link_single(pos, dir.reverse_dir()),
        }
    }

    /// The rows from south to north, each with its number and its positions
    /// from west to east.
    pub fn grid_rows(&self) -> (rows: Vec<(usize, Vec<GridPos>)>)
        ensures
            rows@.len() == self@.row_count,
            forall|r: int|
                0 <= r < rows@.len() ==> (#[trigger] rows@[r]).0 == r && rows@[r].1@
                    == row_positions(r, self@.column_count),
    {
        let mut rows: Vec<(usize, Vec<GridPos>)> = Vec::new();
        let mut row: usize = 0;
        while row < self.row_count
            invariant
                row <= self.row_count,
                rows@.len() == row,
                forall|r: int|
                    0 <= r < rows@.len() ==> (#[trigger] rows@[r]).0 == r && rows@[r].1@
                        == row_positions(r, self@.column_count),
            decreases self.row_count - row,
        {
            let mut row_indexes: Vec<GridPos> = Vec::new();
            let mut col: usize = 0;
            while col < self.column_count
                invariant
                    col <= self.column_count,
                    row_indexes@.len() == col,
                    forall|c: int|
                        0 <= c < col ==> #[trigger] row_indexes@[c] == GridPos::at(row as int, c),
                decreases self.column_count - col,
            {
                row_indexes.push(GridPos { col: Col(col), row: Row(row) });
                col = col + 1;
            }
            assert(row_indexes@ =~= row_positions(row as int, self@.column_count));
            rows.push((row, row_indexes));
            row = row + 1;
        }
        rows
    }

    /// Every position of the grid, in row-major order: sorted by row, then
    /// by column.
    pub fn positions(&self) -> (positions: Vec<GridPos>)
        ensures
            positions@ == all_positions(self@.row_count, self@.column_count),
            positions@.len() == self@.cell_count(),
            forall|p: GridPos| positions@.contains(p) <==> self@.contains(p),
            forall|i: int, j: int|
                0 <= i < j < positions@.len() ==> (#[trigger] positions@[i]).precedes(
                    #[trigger] positions@[j],
                ),
    {
        let rows = self.grid_rows();
        let mut positions: Vec<GridPos> = Vec::new();
        let mut r: usize = 0;
        while r < rows.len()
            invariant
                r <= rows@.len(),
                rows@.len() == self@.row_count,
                forall|i: int|
                    0 <= i < rows@.len() ==> (#[trigger] rows@[i]).0 == i && rows@[i].1@
                        == row_positions(i, self@.column_count),
                positions@ == all_positions(r as nat, self@.column_count),
            decreases rows@.len() - r,
        {
            let row = &rows[r].1;
            let ghost before = positions@;
            let mut c: usize = 0;
            while c < row.len()
                invariant
                    c <= row@.len(),
                    positions@ == before + row@.subrange(0, c as int),
                decreases row@.len() - c,
            {
                positions.push(row[c]);
                assert(row@.subrange(0, c + 1) =~= row@.subrange(0, c as int).push(row@[c as int]));
                c = c + 1;
            }
            assert(row@.subrange(0, c as int) =~= row@);
            assert(rows@[r as int].1@ == row_positions(r as int, self@.column_count));
            r = r + 1;
        }
        proof {
            lemma_all_positions(self@.row_count, self@.column_count);
            let all = all_positions(self@.row_count, self@.column_count);
            assert forall|p: GridPos| all.contains(p) implies self@.contains(p) by {
                let i = choose|i: int| 0 <= i < all.len() && all[i] == p;
                assert(all[i] == p);
            }
        }
        positions
    }

    /// Visits one cell in the course of the sidewinder algorithm: the cell
    /// joins the run; then the run is closed and a passage carved north from
    /// one of its cells, or a passage is carved east.
    fn visit_cell(self, run: &mut Vec<GridPos>, pos: GridPos, source: &mut RandomSource) -> (carved:
        Result<Self, SourceError>)
        requires
            self.wf(),
            self@.contains(pos),
            forall|i: int| 0 <= i < old(run)@.len() ==> self@.contains(#[trigger] old(run)@[i]),
            old(source).wf(),
        ensures
            final(source).wf(),
            carved matches Ok(grid) ==> grid.wf() && grid@.row_count == self@.row_count
                && grid@.column_count == self@.column_count,
            carved is Ok ==> forall|i: int|
                0 <= i < final(run)@.len() ==> self@.contains(#[trigger] final(run)@[i]),
            carved is Ok && self@.at_eastern_boundary(pos) ==> final(run)@.len() == 0,
            is_visit_outcome(
                Carving::going(self@, old(run)@, 0),
                pos,
                old(source).script(),
                outcome_view(carved),
                final(run)@,
                final(source).script(),
            ),
    {
        let ghost before = Carving::going(self@, old(run)@, 0);
        let ghost script = old(source).script();
        let ghost start = self@;
        run.push(pos);
        let mut should_close_out = self.at_eastern_boundary(pos);
        let ghost mut coins: Seq<usize> = Seq::empty();
        if !should_close_out && !self.at_northern_boundary(pos) {
            match source.next_below(2) {
                Ok(coin) => {
                    should_close_out = coin == 0;
                    proof {
                        coins = seq![coin];
                    }
                },
                Err(e) => {
                    proof {
                        let s = script.unwrap();
                        assert(s.skip(0) =~= s);
                    }
                    return Err(e);
                },
            }
        }
        assert(script matches Some(s) ==> close_decision(start, pos, s, 0) == Ok::<
            (bool, nat),
            SourceError,
        >((should_close_out, coins.len())) && source.script() == Some(s.skip(coins.len() as int)))
            by {
            if let Some(s) = script {
                assert(s.skip(0) =~= s);
            }
        }
        if should_close_out {
            let ghost full_run = run@;
            let close_out_pos = match source.pick_from(run) {
                Ok(p) => p,
                Err(e) => {
                    proof {
                        let s = script.unwrap();
                        lemma_draw_skip(s, coins.len(), full_run.len());
                    }
                    return Err(e);
                },
            };
            let ghost pick: int = match script {
                Some(s) => s[coins.len() as int] as int,
                None => choose|i: int| 0 <= i < full_run.len() && full_run[i] == close_out_pos,
            };
            proof {
                if let Some(s) = script {
                    lemma_draw_skip(s, coins.len(), full_run.len());
                    assert(s.skip(coins.len() as int).skip(1) =~= s.skip(coins.len() as int + 1));
                }
                assert(0 <= pick < full_run.len() && full_run[pick] == close_out_pos);
                assert(full_run.len() == run.len());
            }
            run.clear();
            let carved = if !self.at_northern_boundary(pos) {
                self.link_cells(close_out_pos, Direction::North)
            } else {
                self
            };
            proof {
                if script is None {
                    let cell = coins.push(pick as usize);
                    let after = visit(before, pos, cell);
                    assert(draw(cell, coins.len(), full_run.len()) == Ok::<usize, SourceError>(
                        pick as usize,
                    ));
                    assert(after.failure is None);
                    assert(after.used == cell.len());
                    assert(after.run =~= run@);
                    assert(after.grid == carved@);
                }
                assert(run@ =~= Seq::<GridPos>::empty());
            }
            Ok(carved)
        } else {
            let carved = self.link_cells(pos, Direction::East);
            proof {
                if script is None {
                    let after = visit(before, pos, coins);
                    assert(after.failure is None);
                    assert(after.used == coins.len());
                    assert(after.grid == carved@);
                }
            }
            Ok(carved)
        }
    }

    /// Carves the grid by the sidewinder algorithm, with the random choices
    /// drawn from `source`. Fails where the source fails; the grid carved up
    /// to then is given up.
    pub fn run_sidewinder_algorithm(self, source: &mut RandomSource) -> (carved: Result<
        Self,
        SourceError,
    >)
        requires
            self.wf(),
            old(source).wf(),
        ensures
            final(source).wf(),
            carved matches Ok(grid) ==> grid.wf() && grid@.row_count == self@.row_count
                && grid@.column_count == self@.column_count,
            is_sidewinder_outcome(
                self@,
                old(source).script(),
                outcome_view(carved),
                final(source).script(),
            ),
            carved matches Ok(grid) ==> (self@ == GridView::walled(
                self@.column_count,
                self@.row_count,
            ) ==> grid@.is_perfect_maze()),
    {
        let rows = self.grid_rows();
        let ghost start = self@;
        let ghost script = old(source).script();
        let ghost mut drawn: Seq<usize> = match script {
            Some(s) => s,
            None => Seq::empty(),
        };
        let ghost mut used: nat = 0;
        let mut grid = self.clone();
        let mut r: usize = 0;
        proof {
            if let Some(s) = script {
                assert(s.skip(0) =~= s);
            }
        }
        while r < rows.len()
            invariant
                start == self@,
                script == old(source).script(),
                start.wf(),
                r <= rows@.len(),
                rows@.len() == start.row_count,
                forall|i: int|
                    0 <= i < rows@.len() ==> (#[trigger] rows@[i]).0 == i && rows@[i].1@
                        == row_positions(i, start.column_count),
                grid.wf(),
                grid@.row_count == start.row_count,
                grid@.column_count == start.column_count,
                carve_upto(start, drawn, r as nat, 0) == Carving::going(grid@, Seq::empty(), used),
                source.wf(),
                source_follows(script, drawn, used, source.script()),
            decreases rows@.len() - r,
        {
            let row = &rows[r].1;
            let mut run: Vec<GridPos> = Vec::new();
            let mut c: usize = 0;
            assert(row@ == row_positions(r as int, start.column_count));
            while c < row.len()
                invariant
                    start == self@,
                    script == old(source).script(),
                    start.wf(),
                    r < start.row_count,
                    c <= row@.len(),
                    row@ == row_positions(r as int, start.column_count),
                    grid.wf(),
                    grid@.row_count == start.row_count,
                    grid@.column_count == start.column_count,
                    carve_upto(start, drawn, r as nat, c as nat) == Carving::going(grid@, run@, used),
                    forall|i: int| 0 <= i < run@.len() ==> grid@.contains(#[trigger] run@[i]),
                    c == row@.len() ==> run@.len() == 0,
                    source.wf(),
                    source_follows(script, drawn, used, source.script()),
                decreases row@.len() - c,
            {
                let pos = row[c];
                let ghost before = Carving::going(grid@, run@, used);
                let ghost source_before = source.script();
                assert(pos == GridPos::at(r as int, c as int));
                match grid.visit_cell(&mut run, pos, source) {
                    Ok(carved) => {
                        proof {
                            let next = lemma_cell_carved(
                                start,
                                drawn,
                                r as nat,
                                c as nat,
                                before,
                                script,
                                source_before,
                                carved@,
                                run@,
                                source.script(),
                            );
                            drawn = next.0;
                            used = next.1;
                        }
                        grid = carved;
                    },
                    Err(e) => {
                        proof {
                            lemma_cell_failed(
                                start,
                                drawn,
                                r as nat,
                                c as nat,
                                before,
                                script,
                                source_before,
                                e,
                                run@,
                                source.script(),
                            );
                        }
                        return Err(e);
                    },
                }
                c = c + 1;
            }
            r = r + 1;
        }
        proof {
            lemma_all_carved(start, drawn, used, script, grid@, source.script());
            if start == GridView::walled(start.column_count, start.row_count) {
                lemma_outcome_perfect(start, script, grid@, source.script());
            }
        }
        Ok(grid)
    }

    /// Visits one cell in the course of the binary-tree algorithm: a
    /// passage is carved towards east or north, whichever the source picks
    /// among those that no boundary blocks.
    fn carve_cell(self, pos: GridPos, source: &mut RandomSource) -> (carved: Result<Self, SourceError>)
        requires
            self.wf(),
            self@.contains(pos),
            old(source).wf(),
        ensures
            final(source).wf(),
            carved matches Ok(grid) ==> grid.wf() && grid@.row_count == self@.row_count
                && grid@.column_count == self@.column_count,
            is_tree_visit_outcome(
                self@,
                pos,
                old(source).script(),
                outcome_view(carved),
                final(source).script(),
            ),
    {
        let ghost script = old(source).script();
        let ghost before = TreeCarving::going(self@, 0);
        let mut neighbors: Vec<Direction> = Vec::new();
        if !self.at_eastern_boundary(pos) {
            neighbors.push(Direction::East);
        }
        if !self.at_northern_boundary(pos) {
            neighbors.push(Direction::North);
        }
        assert(neighbors@ =~= carvable(self@, pos));
        proof {
            if let Some(s) = script {
                assert(s.skip(0) =~= s);
            }
        }
        if neighbors.len() == 0 {
            proof {
                if script is None {
                    let after = tree_visit(before, pos, Seq::<usize>::empty());
                    assert(after.failure is None && after.used == 0);
                }
            }
            return Ok(self);
        }
        let dir = match source.pick_from(&neighbors) {
            Ok(dir) => dir,
            Err(e) => {
                return Err(e);
            },
        };
        let carved = self.link_cells(pos, dir);
        proof {
            if script is None {
                let i = choose|i: int| 0 <= i < neighbors@.len() && neighbors@[i] == dir;
                let cell = seq![i as usize];
                let after = tree_visit(before, pos, cell);
                assert(draw(cell, 0, neighbors@.len()) == Ok::<usize, SourceError>(i as usize));
                assert(after.failure is None);
                assert(after.used == cell.len());
                assert(after.grid == carved@);
            }
        }
        Ok(carved)
    }

    /// Carves the grid by the binary-tree algorithm, with the random
    /// choices drawn from `source`. The cells are visited in row-major
    /// order. Fails where the source fails; the grid carved up to then is
    /// given up.
    pub fn run_binary_tree_algorithm(self, source: &mut RandomSource) -> (carved: Result<
        Self,
        SourceError,
    >)
        requires
            self.wf(),
            old(source).wf(),
        ensures
            final(source).wf(),
            carved matches Ok(grid) ==> grid.wf() && grid@.row_count == self@.row_count
                && grid@.column_count == self@.column_count,
            is_binary_tree_outcome(
                self@,
                old(source).script(),
                outcome_view(carved),
                final(source).script(),
            ),
            carved matches Ok(grid) ==> (self@ == GridView::walled(
                self@.column_count,
                self@.row_count,
            ) ==> grid@.is_perfect_maze()),
    {
        let positions = self.positions();
        let ghost start = self@;
        let ghost script = old(source).script();
        let ghost mut drawn: Seq<usize> = match script {
            Some(s) => s,
            None => Seq::empty(),
        };
        let ghost mut used: nat = 0;
        let mut grid = self.clone();
        let mut i: usize = 0;
        proof {
            if let Some(s) = script {
                assert(s.skip(0) =~= s);
            }
        }
        while i < positions.len()
            invariant
                start == self@,
                script == old(source).script(),
                start.wf(),
                i <= positions@.len(),
                positions@ == all_positions(start.row_count, start.column_count),
                positions@.len() == start.cell_count(),
                forall|p: GridPos| positions@.contains(p) <==> start.contains(p),
                grid.wf(),
                grid@.row_count == start.row_count,
                grid@.column_count == start.column_count,
                tree_upto(start, drawn, i as nat) == TreeCarving::going(grid@, used),
                source.wf(),
                source_follows(script, drawn, used, source.script()),
            decreases positions@.len() - i,
        {
            let pos = positions[i];
            let ghost before = TreeCarving::going(grid@, used);
            let ghost source_before = source.script();
            assert(positions@.contains(pos));
            assert(start.contains(pos));
            match grid.carve_cell(pos, source) {
                Ok(carved) => {
                    proof {
                        let next = lemma_tree_cell_carved(
                            start,
                            drawn,
                            i as nat,
                            before,
                            script,
                            source_before,
                            carved@,
                            source.script(),
                        );
                        drawn = next.0;
                        used = next.1;
                    }
                    grid = carved;
                },
                Err(e) => {
                    proof {
                        lemma_tree_cell_failed(
                            start,
                            drawn,
                            i as nat,
                            before,
                            script,
                            source_before,
                            e,
                            source.script(),
                        );
                    }
                    return Err(e);
                },
            }
            i = i + 1;
        }
        proof {
            lemma_tree_all_carved(start, drawn, used, script, grid@, source.script());
            if start == GridView::walled(start.column_count, start.row_count) {
                lemma_tree_outcome_perfect(start, script, grid@, source.script());
            }
        }
        Ok(grid)
    }

    /// Every cell of the grid, each position exactly once, in no
    /// particular order. Calling it again starts over.
    pub fn iter(&self) -> (cells: Iter)
        requires
            self.wf(),
        ensures
            cells@.len() == self@.cell_count(),
            forall|i: int|
                0 <= i < cells@.len() ==> self@.contains((#[trigger] cells@[i]).pos) && cells@[i]
                    == self@.cells[cells@[i].pos],
            forall|i: int, j: int|
                0 <= i < j < cells@.len() ==> (#[trigger] cells@[i]).pos != (#[trigger] cells@[j]).pos,
            forall|p: GridPos|
                self@.contains(p) ==> exists|i: int|
                    0 <= i < cells@.len() && (#[trigger] cells@[i]).pos == p,
    {
        let entries = cells_snapshot(&self.cells);
        let mut cells: Vec<GridCell> = Vec::new();
        let mut i: usize = 0;
        while i < entries.len()
            invariant
                i <= entries@.len(),
                cells@.len() == i,
                forall|k: int| 0 <= k < i ==> #[trigger] cells@[k] == entries@[k].1,
            decreases entries@.len() - i,
        {
            cells.push(entries[i].1);
            i = i + 1;
        }
        proof {
            let grid = self@;
            assert forall|k: int| 0 <= k < cells@.len() implies grid.contains(
                (#[trigger] cells@[k]).pos,
            ) && cells@[k] == grid.cells[cells@[k].pos] && cells@[k].pos == entries@[k].0 by {
                assert(grid.cells.contains_pair(entries@[k].0, entries@[k].1));
                assert(grid.cells.contains_key(entries@[k].0));
            }
            assert forall|p: GridPos| grid.contains(p) implies exists|k: int|
                0 <= k < cells@.len() && (#[trigger] cells@[k]).pos == p by {
                assert(grid.cells.contains_key(p));
                let k = choose|k: int| 0 <= k < entries@.len() && (#[trigger] entries@[k]).0 == p;
                assert(cells@[k].pos == p);
            }
            let keys = cells@.map_values(|c: GridCell| c.pos);
            assert(keys.no_duplicates());
            keys.unique_seq_to_set();
            assert(keys.to_set() =~= grid.position_set()) by {
                assert forall|p: GridPos| grid.position_set().contains(p) implies keys.to_set().contains(
                    p,
                ) by {
                    let k = choose|k: int| 0 <= k < cells@.len() && (#[trigger] cells@[k]).pos == p;
                    assert(keys[k] == p);
                }
                assert forall|p: GridPos| keys.to_set().contains(p) implies grid.position_set().contains(
                    p,
                ) by {
                    let k = choose|k: int| 0 <= k < keys.len() && keys[k] == p;
                    assert(cells@[k].pos == p);
                }
            }
            crate::grid_model::lemma_position_set_len(grid);
        }
        let ghost all = cells@;
        let iter = Iter { cells, next: 0 };
        assert(iter@ =~= all);
        iter
    }
}

/// The cells of a grid, handed out one at a time.
pub struct Iter {
    cells: Vec<GridCell>,
    next: usize,
}

impl View for Iter {
    type V = Seq<GridCell>;

    /// The cells that are still to come, in the order in which they come.
    closed spec fn view(&self) -> Seq<GridCell> {
        self.cells@.skip(self.next as int)
    }
}

impl Iter {
    #[verifier::type_invariant]
    spec fn in_range(self) -> bool {
        self.next <= self.cells@.len()
    }

    /// The next cell, or `None` when all have been handed out.
    pub fn next(&mut self) -> (cell: Option<GridCell>)
        ensures
            old(self)@.len() == 0 ==> cell is None && final(self)@ == old(self)@,
            old(self)@.len() > 0 ==> cell == Some(old(self)@[0]) && final(self)@ == old(self)@.skip(1),
    {
        proof {
            use_type_invariant(&*self);
        }
        if self.next < self.cells.len() {
            let cell = self.cells[self.next];
            assert(self.cells@.skip(self.next as int).skip(1) =~= self.cells@.skip(self.next + 1));
            self.next = self.next + 1;
            Some(cell)
        } else {
            None
        }
    }
}

} // verus!
