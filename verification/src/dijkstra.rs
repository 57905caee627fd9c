//! A distance field over a maze: a breadth-first flood fill from a root,
//! explored one cell at a time. Every step gives a new snapshot and leaves
//! the old one as it was.

use vstd::prelude::*;
use crate::grid_model::{lemma_neighbor_involutive, lemma_position_set_len, GridView};
use crate::grid_primitives::{Col, Direction, GridPos, Row};
use crate::immutable_grid::ImmutableGrid;

verus! {

/// A persistent map from position to distance, kept in an
/// `rpds::HashTrieMap` under the row and column numbers of the position.
#[verifier::external_body]
pub struct DistanceMap {
    inner: rpds::HashTrieMap<(usize, usize), u32>,
}

/// A persistent first-in-first-out queue of positions, kept in an
/// `rpds::Queue` as row and column numbers.
#[verifier::external_body]
pub struct Frontier {
    inner: rpds::Queue<(usize, usize)>,
}

/// The distances that a map holds, each under its position.
pub uninterp spec fn distance_entries(map: DistanceMap) -> Map<GridPos, u32>;

/// The positions that wait in a queue, the one that leaves next first.
pub uninterp spec fn frontier_items(frontier: Frontier) -> Seq<GridPos>;

impl View for DistanceMap {
    type V = Map<GridPos, u32>;

    open spec fn view(&self) -> Map<GridPos, u32> {
        distance_entries(*self)
    }
}

impl View for Frontier {
    type V = Seq<GridPos>;

    open spec fn view(&self) -> Seq<GridPos> {
        frontier_items(*self)
    }
}

/// `rpds::HashTrieMap::new`: a map that holds nothing.
#[verifier::external_body]
fn distances_empty() -> (map: DistanceMap)
    ensures
        distance_entries(map).dom() == Set::<GridPos>::empty(),
{
    DistanceMap { inner: rpds::HashTrieMap::new() }
}

/// `rpds::HashTrieMap::insert`: a new map that holds what `map` holds, but
/// `distance` under the key of `pos`, whether or not that key was there.
#[verifier::external_body]
fn distances_insert(map: &DistanceMap, pos: GridPos, distance: u32) -> (inserted: DistanceMap)
    ensures
        distance_entries(inserted) == distance_entries(*map).insert(pos, distance),
{
    DistanceMap { inner: map.inner.insert((pos.row.0, pos.col.0), distance) }
}

/// `rpds::HashTrieMap::get`: the distance under the key of `pos`, if the
/// map has that key.
#[verifier::external_body]
fn distances_get(map: &DistanceMap, pos: &GridPos) -> (found: Option<u32>)
    ensures
        found == (if distance_entries(*map).contains_key(*pos) {
            Some(distance_entries(*map)[*pos])
        } else {
            None
        }),
{
    map.inner.get(&(pos.row.0, pos.col.0)).copied()
}

/// `rpds::HashTrieMap::contains_key`: whether the map has the key of `pos`.
#[verifier::external_body]
fn distances_contains_key(map: &DistanceMap, pos: &GridPos) -> (found: bool)
    ensures
        found == distance_entries(*map).contains_key(*pos),
{
    map.inner.contains_key(&(pos.row.0, pos.col.0))
}

/// `Clone::clone` of `rpds::HashTrieMap`: a map that holds what `map` holds.
#[verifier::external_body]
fn distances_clone(map: &DistanceMap) -> (copy: DistanceMap)
    ensures
        distance_entries(copy) == distance_entries(*map),
{
    DistanceMap { inner: map.inner.clone() }
}

/// `rpds::HashTrieMap::keys`: every key of the map, each once, in an order
/// that depends on the map's hasher.
#[verifier::external_body]
fn distances_keys(map: &DistanceMap) -> (keys: Vec<GridPos>)
    ensures
        keys@.no_duplicates(),
        forall|p: GridPos| keys@.contains(p) <==> distance_entries(*map).contains_key(p),
{
    map.inner.keys().map(|k| GridPos { row: Row(k.0), col: Col(k.1) }).collect()
}

/// `rpds::Queue::new`: a queue in which nothing waits.
#[verifier::external_body]
fn frontier_empty() -> (frontier: Frontier)
    ensures
        frontier_items(frontier) == Seq::<GridPos>::empty(),
{
    Frontier { inner: rpds::Queue::new() }
}

/// `rpds::Queue::enqueue`: a new queue in which `pos` waits behind what
/// waits in `frontier`.
#[verifier::external_body]
fn frontier_enqueue(frontier: &Frontier, pos: GridPos) -> (longer: Frontier)
    ensures
        frontier_items(longer) == frontier_items(*frontier).push(pos),
{
    Frontier { inner: frontier.inner.enqueue((pos.row.0, pos.col.0)) }
}

/// `rpds::Queue::peek`: the position that leaves next, or `None` where
/// nothing waits.
#[verifier::external_body]
fn frontier_peek(frontier: &Frontier) -> (head: Option<GridPos>)
    ensures
        head == (if frontier_items(*frontier).len() > 0 {
            Some(frontier_items(*frontier)[0])
        } else {
            None
        }),
{
    frontier.inner.peek().map(|k| GridPos { row: Row(k.0), col: Col(k.1) })
}

/// `rpds::Queue::dequeue`: a new queue without the position that leaves
/// next, or `None` where nothing waits.
#[verifier::external_body]
fn frontier_dequeue(frontier: &Frontier) -> (shorter: Option<Frontier>)
    ensures
        frontier_items(*frontier).len() == 0 ==> shorter is None,
        frontier_items(*frontier).len() > 0 ==> shorter is Some && frontier_items(shorter.unwrap())
            == frontier_items(*frontier).skip(1),
{
    frontier.inner.dequeue().map(|inner| Frontier { inner })
}

/// What a snapshot of a distance field is.
pub struct DijkstraView {
    /// Where the flood fill started.
    pub root: GridPos,
    /// The distance of each position visited so far.
    pub distances: Map<GridPos, u32>,
    /// The positions visited but not yet expanded, oldest first.
    pub frontier: Seq<GridPos>,
    /// The largest distance given so far.
    pub max_distance: u32,
}

impl DijkstraView {
    /// The snapshot before the first step: only the root is known, at
    /// distance 0, and it waits to be expanded.
    pub open spec fn initial(root: GridPos) -> DijkstraView {
        DijkstraView {
            root,
            distances: Map::empty().insert(root, 0u32),
            frontier: seq![root],
            max_distance: 0,
        }
    }

    /// How many positions have been expanded: those visited that no longer
    /// wait.
    pub open spec fn expanded(self) -> int {
        self.distances.dom().len() - self.frontier.len()
    }

    /// Whether the flood fill is done with `pos` towards `dir`: if a
    /// passage leads there, the neighbor is visited and lies at most one
    /// further from the root.
    pub open spec fn closed_at(self, grid: GridView, pos: GridPos, dir: Direction) -> bool {
        grid.is_open(pos, dir) && grid.neighbor(pos, dir) is Some ==> {
            let found = grid.neighbor(pos, dir).unwrap();
            self.distances.contains_key(found) && self.distances[found] <= self.distances[pos] + 1
        }
    }

    /// The distances rise along the frontier, no position lies more than
    /// one further from the root than the head of the frontier, and the
    /// largest distance is the distance of some position.
    pub open spec fn layered(self) -> bool {
        &&& forall|i: int, j: int|
            0 <= i < j < self.frontier.len() ==> self.distances[#[trigger] self.frontier[i]]
                <= self.distances[#[trigger] self.frontier[j]]
        &&& forall|p: GridPos|
            self.frontier.len() > 0 && #[trigger] self.distances.contains_key(p)
                ==> self.distances[p] <= self.distances[self.frontier[0]] + 1
        &&& exists|p: GridPos|
            #[trigger] self.distances.contains_key(p) && self.distances[p] == self.max_distance
    }

    /// The layers in the middle of a step that expands `pos`: no position
    /// lies more than one further from the root than `pos`, and none that
    /// waits lies nearer.
    pub open spec fn layered_around(self, pos: GridPos) -> bool {
        &&& self.layered()
        &&& forall|p: GridPos|
            #[trigger] self.distances.contains_key(p) ==> self.distances[p] <= self.distances[pos]
                + 1
        &&& forall|i: int|
            0 <= i < self.frontier.len() ==> self.distances[pos] <= self.distances[#[trigger] self.frontier[i]]
    }

    /// What holds of a snapshot at every moment of a flood fill of `grid`.
    pub open spec fn sound(self, grid: GridView) -> bool {
        &&& grid.contains(self.root)
        &&& self.distances.dom().finite()
        &&& self.distances.contains_key(self.root)
        &&& self.distances[self.root] == 0
        &&& forall|p: GridPos| #[trigger] self.distances.contains_key(p) ==> grid.contains(p)
        &&& forall|p: GridPos|
            #[trigger] self.distances.contains_key(p) ==> self.distances[p] <= self.max_distance
        &&& self.max_distance < self.distances.dom().len()
        &&& self.frontier.no_duplicates()
        &&& forall|i: int|
            0 <= i < self.frontier.len() ==> self.distances.contains_key(#[trigger] self.frontier[i])
        &&& forall|p: GridPos|
            #[trigger] self.distances.contains_key(p) && p != self.root ==> self.has_predecessor(
                grid,
                p,
            )
    }

    /// Some visited position is linked to `pos` and lies one nearer to the
    /// root.
    pub open spec fn has_predecessor(self, grid: GridView, pos: GridPos) -> bool {
        exists|q: GridPos|
            #[trigger] self.distances.contains_key(q) && grid.linked(q, pos) && self.distances[q]
                + 1 == self.distances[pos]
    }

    /// A snapshot between two steps of a flood fill of `grid`: it is sound
    /// and layered, and the flood fill is done with every visited position
    /// that no longer waits.
    #[verifier::opaque]
    pub open spec fn wf(self, grid: GridView) -> bool {
        &&& self.sound(grid)
        &&& self.layered()
        &&& forall|p: GridPos, dir: Direction|
            #[trigger] self.distances.contains_key(p) && !self.frontier.contains(p)
                ==> #[trigger] self.closed_at(grid, p, dir)
    }

    /// A snapshot in the middle of a step that expands `pos`, after the
    /// first `done` directions.
    pub open spec fn expanding(self, grid: GridView, pos: GridPos, done: nat) -> bool {
        &&& self.sound(grid)
        &&& self.layered_around(pos)
        &&& self.distances.contains_key(pos)
        &&& !self.frontier.contains(pos)
        &&& forall|p: GridPos, dir: Direction|
            #[trigger] self.distances.contains_key(p) && !self.frontier.contains(p) && p != pos
                ==> #[trigger] self.closed_at(grid, p, dir)
        &&& forall|k: int| 0 <= k < done ==> self.closed_at(grid, pos, #[trigger] Direction::all()[k])
    }
}

/// The snapshot after the cell at `pos`, which lies at distance
/// `distance`, has been looked at towards `dir`: where a passage leads to a
/// neighbor not yet visited, the neighbor gets the next distance and joins
/// the frontier, and the largest distance is raised if this one is larger.
pub open spec fn expand(
    state: DijkstraView,
    grid: GridView,
    pos: GridPos,
    distance: u32,
    dir: Direction,
) -> DijkstraView {
    if grid.is_open(pos, dir) && grid.neighbor(pos, dir) is Some && !state.distances.contains_key(
        grid.neighbor(pos, dir).unwrap(),
    ) {
        let found = grid.neighbor(pos, dir).unwrap();
        let next = (distance + 1) as u32;
        DijkstraView {
            root: state.root,
            distances: state.distances.insert(found, next),
            frontier: state.frontier.push(found),
            max_distance: if next > state.max_distance {
                next
            } else {
                state.max_distance
            },
        }
    } else {
        state
    }
}

/// The snapshot after the cell at `pos` has been looked at towards the
/// first `done` directions.
pub open spec fn expand_upto(
    state: DijkstraView,
    grid: GridView,
    pos: GridPos,
    distance: u32,
    done: nat,
) -> DijkstraView
    decreases done,
{
    if done == 0 {
        state
    } else {
        expand(
            expand_upto(state, grid, pos, distance, (done - 1) as nat),
            grid,
            pos,
            distance,
            Direction::all()[done - 1],
        )
    }
}

/// One step of the flood fill: `None` where nothing waits; otherwise the
/// head of the frontier leaves it and is looked at towards north, south,
/// east and west.
pub open spec fn step_spec(state: DijkstraView, grid: GridView) -> Option<DijkstraView> {
    if state.frontier.len() == 0 {
        None
    } else {
        let pos = state.frontier[0];
        Some(expand_upto(dequeued(state), grid, pos, state.distances[pos], 4))
    }
}

/// The snapshot after `count` steps; a snapshot in which nothing waits
/// stays as it is.
pub open spec fn steps(state: DijkstraView, grid: GridView, count: nat) -> DijkstraView
    decreases count,
{
    if count == 0 {
        state
    } else {
        let before = steps(state, grid, (count - 1) as nat);
        match step_spec(before, grid) {
            Some(after) => after,
            None => before,
        }
    }
}

/// The first snapshot of a flood fill from a root inside the grid is
/// well-formed.
pub proof fn lemma_initial_wf(root: GridPos, grid: GridView)
    requires
        grid.contains(root),
    ensures
        DijkstraView::initial(root).wf(grid),
        DijkstraView::initial(root).expanded() == 0,
{
    reveal(DijkstraView::wf);
    let state = DijkstraView::initial(root);
    assert(state.distances.dom() =~= set![root]);
    assert(state.frontier[0] == root);
    assert(state.distances.contains_key(root) && state.distances[root] == state.max_distance);
    assert forall|p: GridPos, dir: Direction|
        #[trigger] state.distances.contains_key(p) && !state.frontier.contains(p)
            implies #[trigger] state.closed_at(grid, p, dir) by {
        assert(state.frontier[0] == p);
    }
}

/// Looking towards one more direction keeps the layers.
proof fn lemma_expand_layers(state: DijkstraView, grid: GridView, pos: GridPos, dir: Direction)
    requires
        state.layered_around(pos),
        state.distances.contains_key(pos),
        state.distances[pos] < u32::MAX,
        forall|i: int|
            0 <= i < state.frontier.len() ==> state.distances.contains_key(#[trigger] state.frontier[i]),
    ensures
        expand(state, grid, pos, state.distances[pos], dir).layered_around(pos),
{
    let distance = state.distances[pos];
    let after = expand(state, grid, pos, distance, dir);
    if after != state {
        let found = grid.neighbor(pos, dir).unwrap();
        let next = (distance + 1) as u32;
        assert forall|i: int, j: int| 0 <= i < j < after.frontier.len() implies after.distances[#[trigger] after.frontier[i]]
            <= after.distances[#[trigger] after.frontier[j]] by {
            assert(after.frontier[i] == state.frontier[i]);
            assert(state.distances.contains_key(state.frontier[i]));
            if j < state.frontier.len() {
                assert(after.frontier[j] == state.frontier[j]);
                assert(state.distances.contains_key(state.frontier[j]));
            }
        }
        assert forall|p: GridPos|
            after.frontier.len() > 0 && #[trigger] after.distances.contains_key(p)
            implies after.distances[p] <= after.distances[after.frontier[0]] + 1 by {
            if state.frontier.len() > 0 {
                assert(after.frontier[0] == state.frontier[0]);
                assert(state.distances.contains_key(state.frontier[0]));
            }
            if p != found {
                assert(state.distances.contains_key(p));
            }
        }
        assert forall|i: int| 0 <= i < after.frontier.len() implies after.distances[pos]
            <= after.distances[#[trigger] after.frontier[i]] by {
            if i < state.frontier.len() {
                assert(after.frontier[i] == state.frontier[i]);
                assert(state.distances.contains_key(state.frontier[i]));
            }
        }
        assert forall|p: GridPos| #[trigger] after.distances.contains_key(p) implies after.distances[p]
            <= after.distances[pos] + 1 by {
            if p != found {
                assert(state.distances.contains_key(p));
            }
        }
        if next > state.max_distance {
            assert(after.distances.contains_key(found) && after.distances[found]
                == after.max_distance);
        } else {
            let top = choose|p: GridPos|
                #[trigger] state.distances.contains_key(p) && state.distances[p]
                    == state.max_distance;
            assert(after.distances.contains_key(top) && after.distances[top] == after.max_distance);
        }
    }
}

/// Looking towards one more direction keeps a snapshot sound, and adds as
/// many positions to the frontier as it visits.
pub proof fn lemma_expand(state: DijkstraView, grid: GridView, pos: GridPos, done: nat)
    requires
        grid.wf(),
        grid.row_count <= usize::MAX,
        grid.column_count <= usize::MAX,
        grid.cell_count() <= u32::MAX,
        state.expanding(grid, pos, done),
        done < 4,
    ensures
        ({
            let after = expand(state, grid, pos, state.distances[pos], Direction::all()[done as int]);
            &&& after.expanding(grid, pos, done + 1)
            &&& after.expanded() == state.expanded()
            &&& after.distances[pos] == state.distances[pos]
            &&& after.distances.dom().len() >= state.distances.dom().len()
            &&& after.frontier.len() >= state.frontier.len()
        }),
{
    let dir = Direction::all()[done as int];
    let distance = state.distances[pos];
    let after = expand(state, grid, pos, distance, dir);
    lemma_visited_bounded(state, grid);
    lemma_expand_layers(state, grid, pos, dir);
    if grid.is_open(pos, dir) && grid.neighbor(pos, dir) is Some && !state.distances.contains_key(
        grid.neighbor(pos, dir).unwrap(),
    ) {
        let found = grid.neighbor(pos, dir).unwrap();
        lemma_neighbor_involutive(grid, pos, dir);
        assert(grid.joined(pos, dir, found));
        assert(grid.linked(pos, found));
        assert(!state.frontier.contains(found)) by {
            if state.frontier.contains(found) {
                let i = choose|i: int| 0 <= i < state.frontier.len() && state.frontier[i] == found;
                assert(state.distances.contains_key(state.frontier[i]));
            }
        }
        assert(after.frontier.no_duplicates());
        assert forall|i: int| 0 <= i < after.frontier.len() implies after.distances.contains_key(
            #[trigger] after.frontier[i],
        ) by {
            if i < state.frontier.len() {
                assert(after.frontier[i] == state.frontier[i]);
            }
        }
        assert forall|p: GridPos|
            #[trigger] after.distances.contains_key(p) && p != after.root implies after.has_predecessor(
            grid,
            p,
        ) by {
            if p == found {
                assert(after.distances.contains_key(pos));
            } else {
                assert(state.distances.contains_key(p));
                let q = choose|q: GridPos|
                    #[trigger] state.distances.contains_key(q) && grid.linked(q, p)
                        && state.distances[q] + 1 == state.distances[p];
                assert(after.distances.contains_key(q));
            }
        }
        assert forall|p: GridPos, d: Direction|
            #[trigger] after.distances.contains_key(p) && !after.frontier.contains(p) && p != pos
                implies #[trigger] after.closed_at(grid, p, d) by {
            assert(after.frontier[state.frontier.len() as int] == found);
            assert(state.distances.contains_key(p));
            assert(!state.frontier.contains(p)) by {
                if state.frontier.contains(p) {
                    let i = choose|i: int| 0 <= i < state.frontier.len() && state.frontier[i] == p;
                    assert(after.frontier[i] == p);
                }
            }
            assert(state.closed_at(grid, p, d));
        }
        assert(!after.frontier.contains(pos)) by {
            if after.frontier.contains(pos) {
                let i = choose|i: int| 0 <= i < after.frontier.len() && after.frontier[i] == pos;
                if i < state.frontier.len() {
                    assert(state.frontier[i] == pos);
                }
            }
        }
        assert forall|k: int| 0 <= k < done + 1 implies after.closed_at(
            grid,
            pos,
            #[trigger] Direction::all()[k],
        ) by {
            if k < done {
                assert(state.closed_at(grid, pos, Direction::all()[k]));
            }
        }
    } else {
        assert forall|k: int| 0 <= k < done + 1 implies after.closed_at(
            grid,
            pos,
            #[trigger] Direction::all()[k],
        ) by {
            if k < done {
                assert(state.closed_at(grid, pos, Direction::all()[k]));
            }
        }
    }
}

/// Between two steps no more positions are visited than the grid has
/// cells, and the head of the frontier is visited and lies in the grid.
pub proof fn lemma_wf_bounded(state: DijkstraView, grid: GridView)
    requires
        grid.row_count <= usize::MAX,
        grid.column_count <= usize::MAX,
        state.wf(grid),
    ensures
        state.distances.dom().len() <= grid.cell_count(),
        state.frontier.len() <= state.distances.dom().len(),
        state.max_distance < state.distances.dom().len(),
        state.frontier.len() > 0 ==> state.distances.contains_key(state.frontier[0])
            && grid.contains(state.frontier[0]) && state.distances[state.frontier[0]]
            <= state.max_distance,
{
    reveal(DijkstraView::wf);
    lemma_visited_bounded(state, grid);
    if state.frontier.len() > 0 {
        assert(state.distances.contains_key(state.frontier[0]));
    }
}

/// No more positions are visited than the grid has cells.
pub proof fn lemma_visited_bounded(state: DijkstraView, grid: GridView)
    requires
        grid.row_count <= usize::MAX,
        grid.column_count <= usize::MAX,
        state.sound(grid),
    ensures
        state.distances.dom().len() <= grid.cell_count(),
        state.frontier.len() <= state.distances.dom().len(),
{
    lemma_position_set_len(grid);
    assert(state.distances.dom().subset_of(grid.position_set())) by {
        assert forall|p: GridPos| state.distances.dom().contains(p) implies grid.position_set().contains(
            p,
        ) by {
            assert(state.distances.contains_key(p));
        }
    }
    vstd::set_lib::lemma_len_subset(state.distances.dom(), grid.position_set());
    state.frontier.unique_seq_to_set();
    assert(state.frontier.to_set().subset_of(state.distances.dom())) by {
        assert forall|p: GridPos| state.frontier.to_set().contains(p) implies state.distances.dom().contains(
            p,
        ) by {
            let i = choose|i: int| 0 <= i < state.frontier.len() && state.frontier[i] == p;
            assert(state.distances.contains_key(state.frontier[i]));
        }
    }
    vstd::set_lib::lemma_len_subset(state.frontier.to_set(), state.distances.dom());
}

/// Looking towards the first `done` directions keeps a snapshot sound.
pub proof fn lemma_expand_upto(state: DijkstraView, grid: GridView, pos: GridPos, done: nat)
    requires
        grid.wf(),
        grid.row_count <= usize::MAX,
        grid.column_count <= usize::MAX,
        grid.cell_count() <= u32::MAX,
        state.expanding(grid, pos, 0),
        done <= 4,
    ensures
        ({
            let after = expand_upto(state, grid, pos, state.distances[pos], done);
            &&& after.expanding(grid, pos, done)
            &&& after.expanded() == state.expanded()
            &&& after.distances[pos] == state.distances[pos]
            &&& after.distances.dom().len() >= state.distances.dom().len()
            &&& after.frontier.len() >= state.frontier.len()
        }),
    decreases done,
{
    if done > 0 {
        lemma_expand_upto(state, grid, pos, (done - 1) as nat);
        let before = expand_upto(state, grid, pos, state.distances[pos], (done - 1) as nat);
        lemma_expand(before, grid, pos, (done - 1) as nat);
    }
}

/// The snapshot from which the head of the frontier has been taken.
pub open spec fn dequeued(state: DijkstraView) -> DijkstraView {
    DijkstraView { frontier: state.frontier.skip(1), ..state }
}

/// A position is in the frontier without its head exactly if it is in the
/// frontier and is not the head.
proof fn lemma_dequeued_contains(state: DijkstraView, p: GridPos)
    requires
        state.frontier.no_duplicates(),
        state.frontier.len() > 0,
    ensures
        dequeued(state).frontier.contains(p) <==> (state.frontier.contains(p) && p
            != state.frontier[0]),
        dequeued(state).frontier.no_duplicates(),
{
    let rest = dequeued(state).frontier;
    if rest.contains(p) {
        let i = choose|i: int| 0 <= i < rest.len() && rest[i] == p;
        assert(state.frontier[i + 1] == p);
    }
    if state.frontier.contains(p) && p != state.frontier[0] {
        let i = choose|i: int| 0 <= i < state.frontier.len() && state.frontier[i] == p;
        assert(rest[i - 1] == p);
    }
}

/// Taking the head from the frontier begins its expansion.
proof fn lemma_dequeued_expanding(state: DijkstraView, grid: GridView)
    requires
        state.wf(grid),
        state.frontier.len() > 0,
    ensures
        dequeued(state).expanding(grid, state.frontier[0], 0),
        dequeued(state).expanded() == state.expanded() + 1,
{
    reveal(DijkstraView::wf);
    let pos = state.frontier[0];
    let rest = dequeued(state);
    lemma_dequeued_contains(state, pos);
    assert forall|i: int| 0 <= i < rest.frontier.len() implies rest.distances.contains_key(
        #[trigger] rest.frontier[i],
    ) by {
        assert(rest.frontier[i] == state.frontier[i + 1]);
    }
    assert forall|p: GridPos|
        #[trigger] rest.distances.contains_key(p) && p != rest.root implies rest.has_predecessor(
        grid,
        p,
    ) by {
        assert(state.has_predecessor(grid, p));
        let q = choose|q: GridPos|
            #[trigger] state.distances.contains_key(q) && grid.linked(q, p) && state.distances[q]
                + 1 == state.distances[p];
        assert(rest.distances.contains_key(q));
    }
    assert(state.distances.contains_key(state.frontier[0]));
    assert forall|p: GridPos, dir: Direction|
        #[trigger] rest.distances.contains_key(p) && !rest.frontier.contains(p) && p != pos
            implies #[trigger] rest.closed_at(grid, p, dir) by {
        lemma_dequeued_contains(state, p);
        assert(state.closed_at(grid, p, dir));
    }
    lemma_dequeued_layers(state);
}

/// Taking the head from the frontier keeps the layers, around the head.
proof fn lemma_dequeued_layers(state: DijkstraView)
    requires
        state.layered(),
        state.frontier.len() > 0,
    ensures
        dequeued(state).layered_around(state.frontier[0]),
{
    let pos = state.frontier[0];
    let rest = dequeued(state);
    assert forall|i: int, j: int| 0 <= i < j < rest.frontier.len() implies rest.distances[#[trigger] rest.frontier[i]]
        <= rest.distances[#[trigger] rest.frontier[j]] by {
        assert(rest.frontier[i] == state.frontier[i + 1]);
        assert(rest.frontier[j] == state.frontier[j + 1]);
    }
    assert forall|i: int| 0 <= i < rest.frontier.len() implies rest.distances[pos]
        <= rest.distances[#[trigger] rest.frontier[i]] by {
        assert(rest.frontier[i] == state.frontier[i + 1]);
    }
    assert forall|p: GridPos|
        rest.frontier.len() > 0 && #[trigger] rest.distances.contains_key(p)
        implies rest.distances[p] <= rest.distances[rest.frontier[0]] + 1 by {
        assert(rest.frontier[0] == state.frontier[1]);
    }
    let top = choose|p: GridPos|
        #[trigger] state.distances.contains_key(p) && state.distances[p] == state.max_distance;
    assert(rest.distances.contains_key(top) && rest.distances[top] == rest.max_distance);
}

/// A snapshot whose expansion has looked towards all four directions is
/// well-formed.
proof fn lemma_expanded_wf(state: DijkstraView, grid: GridView, pos: GridPos)
    requires
        state.expanding(grid, pos, 4),
    ensures
        state.wf(grid),
{
    reveal(DijkstraView::wf);
    assert forall|p: GridPos, dir: Direction|
        #[trigger] state.distances.contains_key(p) && !state.frontier.contains(p)
            implies #[trigger] state.closed_at(grid, p, dir) by {
        if p == pos {
            let k: int = match dir {
                Direction::North => 0,
                Direction::South => 1,
                Direction::East => 2,
                Direction::West => 3,
            };
            assert(Direction::all()[k] == dir);
            assert(state.closed_at(grid, pos, Direction::all()[k]));
        }
    }
}

/// A step keeps a snapshot well-formed, expands exactly one position and
/// forgets none.
pub proof fn lemma_step_wf(state: DijkstraView, grid: GridView)
    requires
        grid.wf(),
        grid.row_count <= usize::MAX,
        grid.column_count <= usize::MAX,
        grid.cell_count() <= u32::MAX,
        state.wf(grid),
        state.frontier.len() > 0,
    ensures
        step_spec(state, grid) is Some,
        step_spec(state, grid).unwrap().wf(grid),
        step_spec(state, grid).unwrap().expanded() == state.expanded() + 1,
        step_spec(state, grid).unwrap().distances.dom().len() >= state.distances.dom().len(),
        step_spec(state, grid).unwrap().root == state.root,
{
    let pos = state.frontier[0];
    let rest = dequeued(state);
    lemma_dequeued_expanding(state, grid);
    lemma_expand_upto(rest, grid, pos, 4);
    let after = expand_upto(rest, grid, pos, rest.distances[pos], 4);
    assert(step_spec(state, grid) == Some(after));
    lemma_expanded_wf(after, grid, pos);
    lemma_expand_root(rest, grid, pos, rest.distances[pos], 4);
}

/// Looking at neighbors does not move the root.
proof fn lemma_expand_root(state: DijkstraView, grid: GridView, pos: GridPos, distance: u32, done: nat)
    ensures
        expand_upto(state, grid, pos, distance, done).root == state.root,
    decreases done,
{
    if done > 0 {
        lemma_expand_root(state, grid, pos, distance, (done - 1) as nat);
    }
}

/// Steps keep a snapshot well-formed; while something waits, each step
/// expands exactly one position.
pub proof fn lemma_steps_wf(state: DijkstraView, grid: GridView, count: nat)
    requires
        grid.wf(),
        grid.row_count <= usize::MAX,
        grid.column_count <= usize::MAX,
        grid.cell_count() <= u32::MAX,
        state.wf(grid),
    ensures
        steps(state, grid, count).wf(grid),
        steps(state, grid, count).root == state.root,
        steps(state, grid, count).expanded() <= state.expanded() + count,
        (forall|earlier: nat| earlier < count ==> (#[trigger] steps(state, grid, earlier)).frontier.len() > 0)
            ==> steps(state, grid, count).expanded() == state.expanded() + count,
    decreases count,
{
    if count > 0 {
        let before = steps(state, grid, (count - 1) as nat);
        lemma_steps_wf(state, grid, (count - 1) as nat);
        if before.frontier.len() > 0 {
            lemma_step_wf(before, grid);
        }
        if forall|earlier: nat|
            earlier < count ==> (#[trigger] steps(state, grid, earlier)).frontier.len() > 0 {
            assert(steps(state, grid, (count - 1) as nat).frontier.len() > 0);
            assert forall|earlier: nat| earlier < count - 1 implies (#[trigger] steps(
                state,
                grid,
                earlier,
            )).frontier.len() > 0 by {}
        }
    }
}

/// Every position of a walk that starts at a visited position is visited,
/// once nothing waits any more.
pub proof fn lemma_walk_visited(state: DijkstraView, grid: GridView, path: Seq<GridPos>, upto: int)
    requires
        state.wf(grid),
        state.frontier.len() == 0,
        grid.is_path(path),
        state.distances.contains_key(path.first()),
        0 <= upto < path.len(),
    ensures
        state.distances.contains_key(path[upto]),
    decreases upto,
{
    reveal(DijkstraView::wf);
    if upto > 0 {
        lemma_walk_visited(state, grid, path, upto - 1);
        let from = path[upto - 1];
        let to = path[upto];
        assert(grid.linked(from, to));
        assert(!state.frontier.contains(from));
        if grid.joined(from, Direction::North, to) {
            assert(state.closed_at(grid, from, Direction::North));
        } else if grid.joined(from, Direction::East, to) {
            assert(state.closed_at(grid, from, Direction::East));
        } else if grid.joined(from, Direction::South, to) {
            assert(state.closed_at(grid, from, Direction::South));
        } else {
            assert(state.closed_at(grid, from, Direction::West));
        }
    }
}

/// Along a walk from the root, once nothing waits, no position lies
/// further from the root than the walk has taken passages to get there.
pub proof fn lemma_walk_bounds_distance(
    state: DijkstraView,
    grid: GridView,
    path: Seq<GridPos>,
    upto: int,
)
    requires
        state.wf(grid),
        state.frontier.len() == 0,
        grid.is_path(path),
        path.first() == state.root,
        0 <= upto < path.len(),
    ensures
        state.distances.contains_key(path[upto]),
        state.distances[path[upto]] <= upto,
    decreases upto,
{
    reveal(DijkstraView::wf);
    if upto > 0 {
        lemma_walk_bounds_distance(state, grid, path, upto - 1);
        let from = path[upto - 1];
        let to = path[upto];
        assert(grid.linked(from, to));
        assert(!state.frontier.contains(from));
        if grid.joined(from, Direction::North, to) {
            assert(state.closed_at(grid, from, Direction::North));
        } else if grid.joined(from, Direction::East, to) {
            assert(state.closed_at(grid, from, Direction::East));
        } else if grid.joined(from, Direction::South, to) {
            assert(state.closed_at(grid, from, Direction::South));
        } else {
            assert(state.closed_at(grid, from, Direction::West));
        }
    }
}

/// To every visited position a walk leads from the root through as many
/// passages as the position's distance says.
pub proof fn lemma_distance_walk(state: DijkstraView, grid: GridView, pos: GridPos) -> (path: Seq<
    GridPos,
>)
    requires
        state.sound(grid),
        state.distances.contains_key(pos),
    ensures
        grid.is_path(path),
        path.first() == state.root,
        path.last() == pos,
        path.len() == state.distances[pos] + 1,
    decreases state.distances[pos],
{
    if pos == state.root {
        seq![pos]
    } else {
        assert(state.has_predecessor(grid, pos));
        let before = choose|q: GridPos|
            #[trigger] state.distances.contains_key(q) && grid.linked(q, pos)
                && state.distances[q] + 1 == state.distances[pos];
        let walk = lemma_distance_walk(state, grid, before);
        let path = walk.push(pos);
        assert forall|i: int| 0 <= i < path.len() - 1 implies grid.linked(
            #[trigger] path[i],
            path[i + 1],
        ) by {
            if i < walk.len() - 1 {
                assert(path[i] == walk[i] && path[i + 1] == walk[i + 1]);
            } else {
                assert(path[i] == walk.last());
            }
        }
        assert(path.first() == walk.first());
        path
    }
}

/// Once nothing waits, the distance of every visited position is the
/// number of passages on a shortest walk from the root.
pub proof fn lemma_distances_shortest(state: DijkstraView, grid: GridView, pos: GridPos)
    requires
        state.wf(grid),
        state.frontier.len() == 0,
        state.distances.contains_key(pos),
    ensures
        grid.is_shortest(state.root, pos, state.distances[pos] as nat),
{
    assert(state.sound(grid)) by {
        reveal(DijkstraView::wf);
    }
    let walk = lemma_distance_walk(state, grid, pos);
    assert(grid.is_path(walk) && walk.first() == state.root && walk.last() == pos && walk.len()
        == state.distances[pos] + 1);
    assert forall|path: Seq<GridPos>|
        #[trigger] grid.is_path(path) && path.first() == state.root && path.last() == pos
        implies path.len() >= state.distances[pos] + 1 by {
        lemma_walk_bounds_distance(state, grid, path, path.len() - 1);
    }
}

/// Once nothing waits, every position that can be reached from the root
/// has a distance.
pub proof fn lemma_reachable_visited(state: DijkstraView, grid: GridView, pos: GridPos)
    requires
        state.wf(grid),
        state.frontier.len() == 0,
        grid.reaches(state.root, pos),
    ensures
        state.distances.contains_key(pos),
{
    reveal(DijkstraView::wf);
    let path = choose|path: Seq<GridPos>|
        #[trigger] grid.is_path(path) && path.first() == state.root && path.last() == pos;
    lemma_walk_visited(state, grid, path, path.len() - 1);
}

/// On a maze in which every cell can be reached from every other, a flood
/// fill that has run until nothing waits has given a distance to every
/// position of the grid and to nothing else: as many entries as the grid
/// has cells.
pub proof fn lemma_completed_covers_grid(state: DijkstraView, grid: GridView)
    requires
        grid.row_count <= usize::MAX,
        grid.column_count <= usize::MAX,
        grid.connected(),
        state.wf(grid),
        state.frontier.len() == 0,
    ensures
        state.distances.dom() == grid.position_set(),
        state.distances.dom().len() == grid.cell_count(),
        state.expanded() == grid.cell_count(),
{
    reveal(DijkstraView::wf);
    assert forall|p: GridPos| grid.contains(p) implies state.distances.contains_key(p) by {
        assert(grid.reaches(state.root, p));
        lemma_reachable_visited(state, grid, p);
    }
    assert(state.distances.dom() =~= grid.position_set()) by {
        assert forall|p: GridPos| state.distances.dom().contains(p) implies grid.position_set().contains(
            p,
        ) by {
            assert(state.distances.contains_key(p));
        }
    }
    lemma_position_set_len(grid);
}

/// On a maze in which every cell can be reached from every other, a flood
/// fill from any root takes exactly as many steps as the grid has cells
/// before nothing waits: each step expands one position, and every
/// position is expanded once.
pub proof fn lemma_one_step_per_cell(root: GridPos, grid: GridView, count: nat)
    requires
        grid.wf(),
        grid.row_count <= usize::MAX,
        grid.column_count <= usize::MAX,
        grid.cell_count() <= u32::MAX,
        grid.connected(),
        grid.contains(root),
        steps(DijkstraView::initial(root), grid, count).frontier.len() == 0,
        forall|earlier: nat|
            earlier < count ==> (#[trigger] steps(
                DijkstraView::initial(root),
                grid,
                earlier,
            )).frontier.len() > 0,
    ensures
        count == grid.cell_count(),
        steps(DijkstraView::initial(root), grid, count).distances.dom() == grid.position_set(),
{
    let first = DijkstraView::initial(root);
    lemma_initial_wf(root, grid);
    lemma_steps_wf(first, grid, count);
    lemma_completed_covers_grid(steps(first, grid, count), grid);
}

/// A snapshot of a distance field.
pub struct Dijkstra {
    pub root: GridPos,
    pub distances: DistanceMap,
    pub frontier: Frontier,
    pub max_distance: u32,
}

impl View for Dijkstra {
    type V = DijkstraView;

    open spec fn view(&self) -> DijkstraView {
        DijkstraView {
            root: self.root,
            distances: self.distances@,
            frontier: self.frontier@,
            max_distance: self.max_distance,
        }
    }
}

/// The model of the snapshot that a step gave, if it gave one.
pub open spec fn next_view(next: Option<Dijkstra>) -> Option<DijkstraView> {
    match next {
        Some(state) => Some(state@),
        None => None,
    }
}

impl Dijkstra {
    /// The snapshot before the first step: the root lies at distance 0 and
    /// waits to be expanded. It is well-formed for every grid that holds the
    /// root.
    pub fn new(root: GridPos) -> (first: Self)
        ensures
            first@ == DijkstraView::initial(root),
            forall|grid: GridView| grid.contains(root) ==> #[trigger] first@.wf(grid),
    {
        let first = Self {
            root: root,
            distances: distances_insert(&distances_empty(), root, 0u32),
            frontier: frontier_enqueue(&frontier_empty(), root),
            max_distance: 0u32,
        };
        proof {
            assert(first@.distances =~= DijkstraView::initial(root).distances);
            assert(first@.frontier =~= DijkstraView::initial(root).frontier);
            assert forall|grid: GridView| grid.contains(root) implies #[trigger] first@.wf(grid) by {
                lemma_initial_wf(root, grid);
            }
        }
        first
    }

    /// The distance of `pos` from the root, or `None` where the flood fill
    /// has not reached `pos` yet.
    pub fn distance_of(&self, pos: &GridPos) -> (distance: Option<u32>)
        ensures
            distance == (if self@.distances.contains_key(*pos) {
                Some(self@.distances[*pos])
            } else {
                None
            }),
    {
        distances_get(&self.distances, pos)
    }

    /// The positions reached so far, each once, in no particular order.
    pub fn visited_positions(&self) -> (visited: Vec<GridPos>)
        ensures
            visited@.no_duplicates(),
            forall|p: GridPos| visited@.contains(p) <==> self@.distances.contains_key(p),
    {
        distances_keys(&self.distances)
    }

    /// Whether a position still waits to be expanded.
    pub fn is_active(&self) -> (active: bool)
        ensures
            active == (self@.frontier.len() > 0),
    {
        frontier_peek(&self.frontier).is_some()
    }

    /// The snapshot to show after `step` steps of a history: the one at
    /// that index, or the last one where the history is shorter.
    pub fn snapshot_at(states: &Vec<Dijkstra>, step: usize) -> (snapshot: &Dijkstra)
        requires
            states@.len() > 0,
        ensures
            step < states@.len() ==> *snapshot == states@[step as int],
            step >= states@.len() ==> *snapshot == states@.last(),
    {
        if step >= states.len() {
            &states[states.len() - 1]
        } else {
            &states[step]
        }
    }

    /// One step of the flood fill. Where nothing waits, `None`. Otherwise
    /// the head of the frontier leaves it; towards north, south, east and
    /// west in turn, where the cell is open, a neighbor exists and has no
    /// distance yet, the neighbor gets the distance of the cell plus one
    /// and joins the end of the frontier. This snapshot is not changed.
    ///
    /// Distances are 32-bit numbers: the grid may have no more cells than
    /// such a number can count. The snapshot must belong to a flood fill of
    /// this grid, as every snapshot does that `new` gave for a root inside
    /// the grid or that a step on this grid gave.
    pub fn step(&self, grid: &ImmutableGrid) -> (next: Option<Self>)
        requires
            grid.wf(),
            grid@.cell_count() <= u32::MAX,
            self@.wf(grid@),
        ensures
            next_view(next) == step_spec(self@, grid@),
            next matches Some(state) ==> state@.wf(grid@),
    {
        let pos = frontier_peek(&self.frontier);
        match pos {
            None => None,
            Some(pos) => {
                proof {
                    grid.lemma_size_bounded();
                    lemma_wf_bounded(self@, grid@);
                    lemma_step_wf(self@, grid@);
                }
                let mut frontier = frontier_dequeue(&self.frontier).unwrap();
                let cell = grid.get(&pos).unwrap();
                let d = distances_get(&self.distances, &pos).unwrap();
                let mut distances = distances_clone(&self.distances);
                let mut max_distance = self.max_distance;
                let ghost rest = dequeued(self@);
                let dirs = Direction::iter();
                let mut k: usize = 0;
                while k < 4
                    invariant
                        k <= 4,
                        dirs@ == Direction::all(),
                        grid@.row_count >= 1,
                        grid@.column_count >= 1,
                        grid@.row_count <= usize::MAX,
                        grid@.column_count <= usize::MAX,
                        grid@.contains(pos),
                        grid@.cells.contains_key(pos),
                        *cell == grid@.cells[pos],
                        cell.pos == pos,
                        d < u32::MAX,
                        d <= max_distance,
                        (DijkstraView {
                            root: self.root,
                            distances: distances@,
                            frontier: frontier@,
                            max_distance,
                        }) == expand_upto(rest, grid@, pos, d, k as nat),
                    decreases 4 - k,
                {
                    let dir = dirs[k];
                    if cell.is_open_to(dir) {
                        let linked_pos = grid.get_relative_cell_pos(cell.pos, dir);
                        if let Some(linked_pos) = linked_pos {
                            if !distances_contains_key(&distances, &linked_pos) {
                                distances = distances_insert(&distances, linked_pos, d + 1);
                                frontier = frontier_enqueue(&frontier, linked_pos);
                                if d + 1 > max_distance {
                                    max_distance += 1
                                }
                            }
                        }
                    }
                    k = k + 1;
                }
                Some(Self { root: self.root, distances: distances, frontier: frontier, max_distance: max_distance })
            },
        }
    }

    /// Steps until nothing waits, and gives the last snapshot. The
    /// distance of every position in it is the number of passages on a
    /// shortest walk from the root. On a maze in which every cell can be
    /// reached from every other, every position of the grid has a distance.
    pub fn run_to_completion(self, grid: &ImmutableGrid) -> (done: Self)
        requires
            grid.wf(),
            grid@.cell_count() <= u32::MAX,
            self@.wf(grid@),
        ensures
            done@.wf(grid@),
            done@.frontier.len() == 0,
            done@.expanded() >= self@.expanded(),
            done@ == steps(self@, grid@, (done@.expanded() - self@.expanded()) as nat),
            grid@.connected() ==> done@.distances.dom() == grid@.position_set()
                && done@.distances.dom().len() == grid@.cell_count(),
            forall|p: GridPos|
                #[trigger] done@.distances.contains_key(p) ==> grid@.is_shortest(
                    done@.root,
                    p,
                    done@.distances[p] as nat,
                ),
    {
        let ghost first = self@;
        let ghost mut count: nat = 0;
        let mut state = self;
        loop
            invariant
                grid.wf(),
                grid@.cell_count() <= u32::MAX,
                first.wf(grid@),
                state@.wf(grid@),
                state@ == steps(first, grid@, count),
                state@.expanded() == first.expanded() + count,
            ensures
                state@.frontier.len() == 0,
            decreases grid@.cell_count() - state@.expanded(),
        {
            proof {
                grid.lemma_size_bounded();
                lemma_wf_bounded(state@, grid@);
                if state@.frontier.len() > 0 {
                    lemma_step_wf(state@, grid@);
                    lemma_wf_bounded(step_spec(state@, grid@).unwrap(), grid@);
                }
            }
            match state.step(grid) {
                Some(next) => {
                    proof {
                        count = count + 1;
                    }
                    state = next;
                },
                None => {
                    break ;
                },
            }
        }
        proof {
            grid.lemma_size_bounded();
            if grid@.connected() {
                lemma_completed_covers_grid(state@, grid@);
            }
            assert forall|p: GridPos| #[trigger] state@.distances.contains_key(p) implies grid@.is_shortest(
                state@.root,
                p,
                state@.distances[p] as nat,
            ) by {
                lemma_distances_shortest(state@, grid@, p);
            }
        }
        state
    }

    /// Steps until nothing waits, and gives every snapshot on the way in
    /// order: this one first, the one in which nothing waits last. On a
    /// maze in which every cell can be reached from every other, a flood
    /// fill that starts with no position expanded yet takes as many steps
    /// as the grid has cells.
    pub fn run_to_completion_all(self, grid: &ImmutableGrid) -> (states: Vec<Self>)
        requires
            grid.wf(),
            grid@.cell_count() <= u32::MAX,
            self@.wf(grid@),
        ensures
            states@.len() >= 1,
            forall|i: int|
                0 <= i < states@.len() ==> (#[trigger] states@[i])@ == steps(self@, grid@, i as nat)
                    && states@[i]@.wf(grid@),
            forall|i: int| 0 <= i < states@.len() - 1 ==> (#[trigger] states@[i])@.frontier.len() > 0,
            states@.last()@.frontier.len() == 0,
            states@.len() == states@.last()@.expanded() - self@.expanded() + 1,
            grid@.connected() ==> states@.len() == grid@.cell_count() - self@.expanded() + 1
                && states@.last()@.distances.dom() == grid@.position_set(),
            forall|p: GridPos|
                #[trigger] states@.last()@.distances.contains_key(p) ==> grid@.is_shortest(
                    states@.last()@.root,
                    p,
                    states@.last()@.distances[p] as nat,
                ),
    {
        let ghost first = self@;
        let mut states: Vec<Self> = Vec::new();
        states.push(self);
        loop
            invariant
                grid.wf(),
                grid@.cell_count() <= u32::MAX,
                first.wf(grid@),
                states@.len() >= 1,
                forall|i: int|
                    0 <= i < states@.len() ==> (#[trigger] states@[i])@ == steps(first, grid@, i as nat)
                        && states@[i]@.wf(grid@),
                forall|i: int|
                    0 <= i < states@.len() - 1 ==> (#[trigger] states@[i])@.frontier.len() > 0,
                states@.last()@.expanded() == first.expanded() + states@.len() - 1,
            ensures
                states@.last()@.frontier.len() == 0,
            decreases grid@.cell_count() - states@.last()@.expanded(),
        {
            let last = &states[states.len() - 1];
            proof {
                grid.lemma_size_bounded();
                lemma_wf_bounded(last@, grid@);
                if last@.frontier.len() > 0 {
                    lemma_step_wf(last@, grid@);
                    lemma_wf_bounded(step_spec(last@, grid@).unwrap(), grid@);
                }
            }
            match last.step(grid) {
                Some(next) => {
                    states.push(next);
                },
                None => {
                    break ;
                },
            }
        }
        proof {
            grid.lemma_size_bounded();
            let last = states@.last()@;
            if grid@.connected() {
                lemma_completed_covers_grid(last, grid@);
            }
            assert forall|p: GridPos| #[trigger] last.distances.contains_key(p) implies grid@.is_shortest(
                last.root,
                p,
                last.distances[p] as nat,
            ) by {
                lemma_distances_shortest(last, grid@, p);
            }
        }
        states
    }
}

} // verus!
