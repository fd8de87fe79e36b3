use crate::station::gridmap::GridMap;
use crate::station::gridposition::{adjacent, manhattan, GridPosition};
use crate::station::pathfinding::{outranks, Frontier, Movement};
use crate::station::station::{lemma_neighbor_cells, neighbor_cells, Station};
use crate::station::tile::{is_walkable, walkable, Tile};
use vstd::multiset::Multiset;
use vstd::prelude::*;

verus! {

/// What one step between two cells that share an edge costs.
pub const STEP_COST: u128 = 1000;

/// A tile stands at `p` and can be walked on.
pub open spec fn passable(map: Map<GridPosition, Tile>, p: GridPosition) -> bool {
    map.contains_key(p) && walkable(map[p].kind)
}

/// `route` leads from `start` to `target`: it lists, in order, the cells to
/// step on after `start`, each sharing an edge with the one before, all of
/// them walkable tiles, the last one being `target`. Nothing is asked of
/// `start` itself.
pub open spec fn is_route(
    map: Map<GridPosition, Tile>,
    start: GridPosition,
    target: GridPosition,
    route: Seq<GridPosition>,
) -> bool {
    &&& route.len() > 0
    &&& route.last() == target
    &&& adjacent(start, route[0])
    &&& forall|i: int| 0 <= i < route.len() ==> passable(map, #[trigger] route[i])
    &&& forall|i: int| 0 < i < route.len() ==> adjacent(route[i - 1], #[trigger] route[i])
}

/// Some route leads from `start` to `target`.
pub open spec fn reachable(
    map: Map<GridPosition, Tile>,
    start: GridPosition,
    target: GridPosition,
) -> bool {
    exists|route: Seq<GridPosition>| is_route(map, start, target, route)
}

/// `route` leads from `start` to `target` and no route is shorter.
pub open spec fn is_shortest_route(
    map: Map<GridPosition, Tile>,
    start: GridPosition,
    target: GridPosition,
    route: Seq<GridPosition>,
) -> bool {
    &&& is_route(map, start, target, route)
    &&& forall|other: Seq<GridPosition>| #[trigger]
        is_route(map, start, target, other) ==> route.len() <= other.len()
}

/// What routing answers when asked for the way from `start` to `target`: a
/// shortest route if the two differ and some route exists, else nothing.
pub open spec fn is_answer(
    map: Map<GridPosition, Tile>,
    start: GridPosition,
    target: GridPosition,
    path: Seq<GridPosition>,
) -> bool {
    if start != target && reachable(map, start, target) {
        is_shortest_route(map, start, target, path)
    } else {
        path.len() == 0
    }
}

/// What a search has found out about one cell.
#[derive(Copy, Clone, PartialEq, Eq, Structural, Debug)]
pub struct Visit {
    /// The cell from which this one was reached; none for the start.
    pub from: Option<GridPosition>,
    /// Cost of the way from the start to this cell.
    pub cost: u128,
    /// Whether the search has gone on from this cell.
    pub settled: bool,
}

/// The cells a search has reached form a tree rooted at `start`: every other
/// cell is a walkable tile one step away from the cell it was reached from,
/// and one step more expensive.
pub open spec fn is_search_tree(
    map: Map<GridPosition, Tile>,
    start: GridPosition,
    visits: Map<GridPosition, Visit>,
) -> bool {
    &&& visits.contains_key(start)
    &&& visits[start].from is None
    &&& visits[start].cost == 0
    &&& forall|p: GridPosition| #[trigger]
        visits.contains_key(p) && p != start ==> {
            &&& visits[p].from is Some
            &&& visits.contains_key(visits[p].from->0)
            &&& visits[visits[p].from->0].settled
            &&& adjacent(visits[p].from->0, p)
            &&& passable(map, p)
            &&& visits[p].cost == visits[visits[p].from->0].cost + STEP_COST
        }
}

/// The cell at place `i` of a route, the start standing at place -1.
pub open spec fn waypoint(start: GridPosition, route: Seq<GridPosition>, i: int) -> GridPosition {
    if i < 0 {
        start
    } else {
        route[i]
    }
}

/// The neighbour `n` of `p`, if it can be walked on, has been reached at no
/// more than one step beyond `p`.
pub open spec fn relaxed_toward(
    map: Map<GridPosition, Tile>,
    visits: Map<GridPosition, Visit>,
    p: GridPosition,
    n: GridPosition,
) -> bool {
    passable(map, n) && adjacent(p, n) ==> visits.contains_key(n) && visits[n].cost <= visits[p].cost
        + STEP_COST
}

/// What holds between two rounds of a search. `expanding` names the cell
/// whose neighbours are being looked at, if the search is in the middle of a
/// round.
#[verifier::opaque]
pub open spec fn search_inv(
    map: Map<GridPosition, Tile>,
    start: GridPosition,
    target: GridPosition,
    visits: Map<GridPosition, Visit>,
    frontier: Multiset<Movement>,
    settled: Set<GridPosition>,
    floor: int,
    expanding: Option<GridPosition>,
) -> bool {
    &&& is_search_tree(map, start, visits)
    &&& map.dom().finite()
    &&& settled.finite()
    &&& settled.subset_of(map.dom().insert(start))
    &&& expanding matches Some(c) ==> {
        &&& settled.contains(c)
        &&& floor == visits[c].cost + manhattan(c, target)
        &&& visits[c].cost + STEP_COST <= STEP_COST * settled.len()
    }
    &&& forall|p: GridPosition| #[trigger]
        settled.contains(p) <==> visits.contains_key(p) && visits[p].settled
    &&& forall|p: GridPosition| #[trigger]
        visits.contains_key(p) ==> visits[p].cost <= STEP_COST * settled.len()
    &&& forall|p: GridPosition, n: GridPosition|
        settled.contains(p) && Some(p) != expanding ==> #[trigger] relaxed_toward(
            map,
            visits,
            p,
            n,
        )
    &&& forall|p: GridPosition| #[trigger]
        visits.contains_key(p) && !visits[p].settled ==> exists|m: Movement|
            #[trigger] frontier.count(m) > 0 && m.pos == p && m.cost == visits[p].cost + manhattan(
                p,
                target,
            )
    &&& forall|m: Movement| #[trigger]
        frontier.count(m) > 0 ==> visits.contains_key(m.pos) && m.cost >= visits[m.pos].cost
            + manhattan(m.pos, target) && m.cost >= floor
    &&& forall|p: GridPosition| #[trigger]
        settled.contains(p) ==> visits[p].cost + manhattan(p, target) <= floor
}

/// Every route is at least as long as its two ends are apart.
pub proof fn lemma_route_length(
    map: Map<GridPosition, Tile>,
    start: GridPosition,
    target: GridPosition,
    route: Seq<GridPosition>,
    i: int,
)
    requires
        is_route(map, start, target, route),
        -1 <= i < route.len(),
    ensures
        manhattan(waypoint(start, route, i), target) <= route.len() - 1 - i,
    decreases route.len() - i,
{
    if i < route.len() - 1 {
        lemma_route_length(map, start, target, route, i + 1);
        assert(adjacent(waypoint(start, route, i), route[i + 1]));
    }
}

/// Along a route, either some cell up to place `i` is reached but not yet
/// settled, or the cell at place `i` is settled; in both cases at a cost of
/// no more than its place allows. The result is the place of the first cell
/// not settled, or `i + 1`.
proof fn lemma_route_progress(
    map: Map<GridPosition, Tile>,
    start: GridPosition,
    target: GridPosition,
    visits: Map<GridPosition, Visit>,
    frontier: Multiset<Movement>,
    settled: Set<GridPosition>,
    floor: int,
    route: Seq<GridPosition>,
    i: int,
) -> (j: int)
    requires
        search_inv(map, start, target, visits, frontier, settled, floor, None),
        is_route(map, start, target, route),
        -1 <= i < route.len(),
    ensures
        -1 <= j <= i + 1,
        j <= i ==> visits.contains_key(waypoint(start, route, j)) && !visits[waypoint(
            start,
            route,
            j,
        )].settled && visits[waypoint(start, route, j)].cost <= STEP_COST * (j + 1),
        j == i + 1 ==> visits.contains_key(waypoint(start, route, i)) && visits[waypoint(
            start,
            route,
            i,
        )].settled && visits[waypoint(start, route, i)].cost <= STEP_COST * (i + 1),
    decreases i + 1,
{
    reveal(search_inv);
    if i == -1 {
        if visits[start].settled {
            0
        } else {
            -1
        }
    } else {
        let j = lemma_route_progress(
            map,
            start,
            target,
            visits,
            frontier,
            settled,
            floor,
            route,
            i - 1,
        );
        if j <= i - 1 {
            j
        } else {
            let p = waypoint(start, route, i - 1);
            let n = route[i];
            assert(settled.contains(p));
            assert(relaxed_toward(map, visits, p, n));
            assert(passable(map, n));
            assert(adjacent(p, n));
            if visits[n].settled {
                i + 1
            } else {
                i
            }
        }
    }
}

/// When the search stops, the target has been reached at a cost that no
/// route undercuts: either nothing is left to explore, or the target has
/// just come out of the frontier ahead of everything else.
proof fn lemma_search_done(
    map: Map<GridPosition, Tile>,
    start: GridPosition,
    target: GridPosition,
    visits: Map<GridPosition, Visit>,
    frontier: Multiset<Movement>,
    settled: Set<GridPosition>,
    floor: int,
    popped: Option<Movement>,
    route: Seq<GridPosition>,
)
    requires
        search_inv(map, start, target, visits, frontier, settled, floor, None),
        is_route(map, start, target, route),
        match popped {
            None => frontier.len() == 0,
            Some(m) => m.pos == target && frontier.count(m) > 0 && forall|o: Movement|
                frontier.count(o) > 0 ==> !outranks(o, m),
        },
    ensures
        visits.contains_key(target),
        visits[target].cost <= STEP_COST * route.len(),
{
    reveal(search_inv);
    let last = route.len() - 1;
    let j = lemma_route_progress(map, start, target, visits, frontier, settled, floor, route, last);
    if j <= last {
        let p = waypoint(start, route, j);
        lemma_route_length(map, start, target, route, j);
        let e = choose|e: Movement| #[trigger]
            frontier.count(e) > 0 && e.pos == p && e.cost == visits[p].cost + manhattan(p, target);
        assert(e.cost <= STEP_COST * route.len()) by (nonlinear_arith)
            requires
                e.cost <= STEP_COST * (j + 1) + (route.len() - 1 - j),
                -1 <= j < route.len(),
                STEP_COST == 1000,
        ;
        match popped {
            None => {
                assert(frontier.len() > 0) by {
                    if frontier.len() == 0 {
                        assert(frontier =~= Multiset::empty());
                    }
                }
            },
            Some(m) => {
                assert(!outranks(e, m));
                assert(m.cost <= e.cost);
            },
        }
    }
}

/// Throwing away a movement whose cell is settled already changes nothing
/// that matters.
proof fn lemma_drop_stale(
    map: Map<GridPosition, Tile>,
    start: GridPosition,
    target: GridPosition,
    visits: Map<GridPosition, Visit>,
    frontier: Multiset<Movement>,
    settled: Set<GridPosition>,
    floor: int,
    m: Movement,
)
    requires
        search_inv(map, start, target, visits, frontier, settled, floor, None),
        frontier.count(m) > 0,
        visits[m.pos].settled,
    ensures
        search_inv(map, start, target, visits, frontier.remove(m), settled, floor, None),
        frontier.remove(m).len() < frontier.len(),
{
    reveal(search_inv);
    let rest = frontier.remove(m);
    assert forall|p: GridPosition| #[trigger]
        visits.contains_key(p) && !visits[p].settled implies exists|e: Movement|
        #[trigger] rest.count(e) > 0 && e.pos == p && e.cost == visits[p].cost + manhattan(
            p,
            target,
        ) by {
        let e = choose|e: Movement| #[trigger]
            frontier.count(e) > 0 && e.pos == p && e.cost == visits[p].cost + manhattan(p, target);
        assert(e != m);
        assert(rest.count(e) > 0);
    }
}

/// The settled version of a visit.
pub open spec fn settle(v: Visit) -> Visit {
    Visit { from: v.from, cost: v.cost, settled: true }
}

/// Taking the best movement out of the frontier and settling its cell, if it
/// was not settled before, keeps the search in order. The movement carries
/// the cell's current cost.
proof fn lemma_settle(
    map: Map<GridPosition, Tile>,
    start: GridPosition,
    target: GridPosition,
    visits: Map<GridPosition, Visit>,
    frontier: Multiset<Movement>,
    settled: Set<GridPosition>,
    floor: int,
    m: Movement,
)
    requires
        search_inv(map, start, target, visits, frontier, settled, floor, None),
        frontier.count(m) > 0,
        forall|o: Movement| frontier.count(o) > 0 ==> !outranks(o, m),
        !visits[m.pos].settled,
    ensures
        visits.contains_key(m.pos),
        !settled.contains(m.pos),
        settled.insert(m.pos).len() == settled.len() + 1,
        settled.insert(m.pos).len() <= map.dom().insert(start).len(),
        search_inv(
            map,
            start,
            target,
            visits.insert(m.pos, settle(visits[m.pos])),
            frontier.remove(m),
            settled.insert(m.pos),
            m.cost as int,
            Some(m.pos),
        ),
{
    reveal(search_inv);
    let c = m.pos;
    let after = visits.insert(c, settle(visits[c]));
    let rest = frontier.remove(m);
    let grown = settled.insert(c);
    let bound = map.dom().insert(start);
    assert(visits.contains_key(c));
    assert(!settled.contains(c));
    assert(bound.contains(c)) by {
        if c != start {
            assert(passable(map, c));
        }
    }
    assert(grown.subset_of(bound));
    vstd::set_lib::lemma_len_subset(grown, bound);
    let e = choose|e: Movement| #[trigger]
        frontier.count(e) > 0 && e.pos == c && e.cost == visits[c].cost + manhattan(c, target);
    assert(!outranks(e, m));
    assert(m.cost == visits[c].cost + manhattan(c, target));
    assert(STEP_COST * settled.len() + STEP_COST == STEP_COST * grown.len());
    assert(is_search_tree(map, start, after)) by {
        assert forall|p: GridPosition| #[trigger] after.contains_key(p) && p != start implies {
            &&& after[p].from is Some
            &&& after.contains_key(after[p].from->0)
            &&& after[after[p].from->0].settled
            &&& adjacent(after[p].from->0, p)
            &&& passable(map, p)
            &&& after[p].cost == after[after[p].from->0].cost + STEP_COST
        } by {
            assert(visits.contains_key(p));
        }
    }
    assert forall|p: GridPosition| #[trigger] grown.contains(p) <==> after.contains_key(p)
        && after[p].settled by {
        if p != c {
            assert(settled.contains(p) <==> visits.contains_key(p) && visits[p].settled);
        }
    }
    assert forall|p: GridPosition| #[trigger] after.contains_key(p) implies after[p].cost
        <= STEP_COST * grown.len() by {
        assert(visits.contains_key(p));
    }
    assert forall|p: GridPosition, n: GridPosition|
        grown.contains(p) && Some(p) != Some(c) implies #[trigger] relaxed_toward(
        map,
        after,
        p,
        n,
    ) by {
        assert(settled.contains(p));
        assert(relaxed_toward(map, visits, p, n));
    }
    assert forall|p: GridPosition| #[trigger]
        after.contains_key(p) && !after[p].settled implies exists|o: Movement|
        #[trigger] rest.count(o) > 0 && o.pos == p && o.cost == after[p].cost + manhattan(
            p,
            target,
        ) by {
        assert(visits.contains_key(p) && !visits[p].settled);
        let o = choose|o: Movement| #[trigger]
            frontier.count(o) > 0 && o.pos == p && o.cost == visits[p].cost + manhattan(p, target);
        assert(o != m);
        assert(rest.count(o) > 0);
    }
    assert forall|o: Movement| #[trigger] rest.count(o) > 0 implies after.contains_key(o.pos)
        && o.cost >= after[o.pos].cost + manhattan(o.pos, target) && o.cost >= m.cost by {
        assert(frontier.count(o) > 0);
        assert(!outranks(o, m));
    }
    assert forall|p: GridPosition| #[trigger] grown.contains(p) implies after[p].cost + manhattan(
        p,
        target,
    ) <= m.cost by {
        if p != c {
            assert(settled.contains(p));
        }
    }
}

/// The visit of a cell that has just been reached from `from`.
pub open spec fn reach(from: GridPosition, cost: u128) -> Visit {
    Visit { from: Some(from), cost, settled: false }
}

/// Recording a cheaper way to a walkable neighbour of the cell being
/// expanded, and queueing the neighbour at its new cost, keeps the search in
/// order. A settled neighbour never gets cheaper.
proof fn lemma_relax(
    map: Map<GridPosition, Tile>,
    start: GridPosition,
    target: GridPosition,
    visits: Map<GridPosition, Visit>,
    frontier: Multiset<Movement>,
    settled: Set<GridPosition>,
    floor: int,
    c: GridPosition,
    n: GridPosition,
    cost: u128,
    queued: Movement,
)
    requires
        search_inv(map, start, target, visits, frontier, settled, floor, Some(c)),
        passable(map, n),
        adjacent(c, n),
        cost == visits[c].cost + STEP_COST,
        !visits.contains_key(n) || cost < visits[n].cost,
        queued.pos == n,
        queued.cost == cost + manhattan(n, target),
    ensures
        n != c,
        search_inv(
            map,
            start,
            target,
            visits.insert(n, reach(c, cost)),
            frontier.insert(queued),
            settled,
            floor,
            Some(c),
        ),
        forall|x: GridPosition|
            relaxed_toward(map, visits, c, x) ==> relaxed_toward(
                map,
                visits.insert(n, reach(c, cost)),
                c,
                x,
            ),
        relaxed_toward(map, visits.insert(n, reach(c, cost)), c, n),
{
    reveal(search_inv);
    let after = visits.insert(n, reach(c, cost));
    let more = frontier.insert(queued);
    assert(visits.contains_key(c) && visits[c].settled);
    assert(!settled.contains(n)) by {
        if settled.contains(n) {
            assert(visits[n].cost + manhattan(n, target) <= floor);
        }
    }
    assert(n != start);
    assert(is_search_tree(map, start, after)) by {
        assert forall|p: GridPosition| #[trigger] after.contains_key(p) && p != start implies {
            &&& after[p].from is Some
            &&& after.contains_key(after[p].from->0)
            &&& after[after[p].from->0].settled
            &&& adjacent(after[p].from->0, p)
            &&& passable(map, p)
            &&& after[p].cost == after[after[p].from->0].cost + STEP_COST
        } by {
            if p != n {
                assert(visits.contains_key(p));
                let q = visits[p].from->0;
                assert(visits[q].settled);
                assert(settled.contains(q));
                assert(q != n);
            }
        }
    }
    assert forall|p: GridPosition| #[trigger] settled.contains(p) <==> after.contains_key(p)
        && after[p].settled by {
        if p != n {
            assert(settled.contains(p) <==> visits.contains_key(p) && visits[p].settled);
        }
    }
    assert forall|p: GridPosition| #[trigger] after.contains_key(p) implies after[p].cost
        <= STEP_COST * settled.len() by {
        if p != n {
            assert(visits.contains_key(p));
        }
    }
    assert forall|p: GridPosition, x: GridPosition|
        settled.contains(p) && Some(p) != Some(c) implies #[trigger] relaxed_toward(
        map,
        after,
        p,
        x,
    ) by {
        assert(relaxed_toward(map, visits, p, x));
    }
    assert forall|p: GridPosition| #[trigger]
        after.contains_key(p) && !after[p].settled implies exists|o: Movement|
        #[trigger] more.count(o) > 0 && o.pos == p && o.cost == after[p].cost + manhattan(
            p,
            target,
        ) by {
        if p == n {
            assert(more.count(queued) > 0);
        } else {
            assert(visits.contains_key(p) && !visits[p].settled);
            let o = choose|o: Movement| #[trigger]
                frontier.count(o) > 0 && o.pos == p && o.cost == visits[p].cost + manhattan(
                    p,
                    target,
                );
            assert(more.count(o) > 0);
        }
    }
    assert forall|o: Movement| #[trigger] more.count(o) > 0 implies after.contains_key(o.pos)
        && o.cost >= after[o.pos].cost + manhattan(o.pos, target) && o.cost >= floor by {
        if o != queued {
            assert(frontier.count(o) > 0);
        } else if frontier.count(o) > 0 {
        }
    }
    assert forall|p: GridPosition| #[trigger] settled.contains(p) implies after[p].cost
        + manhattan(p, target) <= floor by {
        assert(p != n);
    }
}

/// A search starts out in order.
proof fn lemma_search_begins(
    map: Map<GridPosition, Tile>,
    start: GridPosition,
    target: GridPosition,
    visits: Map<GridPosition, Visit>,
    frontier: Multiset<Movement>,
    first: Movement,
)
    requires
        map.dom().finite(),
        visits == Map::<GridPosition, Visit>::empty().insert(
            start,
            Visit { from: None, cost: 0, settled: false },
        ),
        frontier == Multiset::<Movement>::empty().insert(first),
        first.pos == start,
        first.cost == manhattan(start, target),
    ensures
        search_inv(map, start, target, visits, frontier, Set::empty(), 0, None),
{
    reveal(search_inv);
    assert(frontier.count(first) > 0);
    assert forall|m: Movement| #[trigger] frontier.count(m) > 0 implies m == first by {
        if m != first {
            assert(Multiset::<Movement>::empty().count(m) == 0);
        }
    }
}

/// What the search knows of a movement that waits in the frontier, and of
/// the tree it has built.
proof fn lemma_waiting(
    map: Map<GridPosition, Tile>,
    start: GridPosition,
    target: GridPosition,
    visits: Map<GridPosition, Visit>,
    frontier: Multiset<Movement>,
    settled: Set<GridPosition>,
    floor: int,
    m: Movement,
)
    requires
        search_inv(map, start, target, visits, frontier, settled, floor, None),
        frontier.count(m) > 0,
    ensures
        visits.contains_key(m.pos),
        is_search_tree(map, start, visits),
        settled.finite(),
        settled.subset_of(map.dom().insert(start)),
{
    reveal(search_inv);
}

/// What the search knows of the cell it is expanding.
proof fn lemma_expanding(
    map: Map<GridPosition, Tile>,
    start: GridPosition,
    target: GridPosition,
    visits: Map<GridPosition, Visit>,
    frontier: Multiset<Movement>,
    settled: Set<GridPosition>,
    floor: int,
    c: GridPosition,
)
    requires
        search_inv(map, start, target, visits, frontier, settled, floor, Some(c)),
    ensures
        visits.contains_key(c),
        visits[c].cost + STEP_COST <= STEP_COST * settled.len(),
        settled.finite(),
        settled.subset_of(map.dom().insert(start)),
{
    reveal(search_inv);
}

/// Once every neighbour of the cell being expanded has been looked at, the
/// round is over.
proof fn lemma_expanded(
    map: Map<GridPosition, Tile>,
    start: GridPosition,
    target: GridPosition,
    visits: Map<GridPosition, Visit>,
    frontier: Multiset<Movement>,
    settled: Set<GridPosition>,
    floor: int,
    c: GridPosition,
)
    requires
        search_inv(map, start, target, visits, frontier, settled, floor, Some(c)),
        forall|n: GridPosition| relaxed_toward(map, visits, c, n),
    ensures
        search_inv(map, start, target, visits, frontier, settled, floor, None),
{
    reveal(search_inv);
}

/// The cells that a search from one cell has reached, each with the cell it
/// was reached from and the cost of the way to it.
pub struct Reached {
    visits: GridMap<Visit>,
}

impl View for Reached {
    type V = Map<GridPosition, Visit>;

    closed spec fn view(&self) -> Map<GridPosition, Visit> {
        self.visits@
    }
}

impl Reached {
    /// How many cells were reached, the start among them.
    pub fn len(&self) -> (n: usize)
        ensures
            n == self@.dom().len(),
            self@.dom().finite(),
    {
        self.visits.len()
    }

    /// What the search found out about a cell that it reached.
    pub fn at(&self, pos: GridPosition) -> (visit: &Visit)
        requires
            self@.contains_key(pos),
        ensures
            *visit == self@[pos],
    {
        self.visits.at(pos)
    }

    /// What the search found out about a cell, if it reached it.
    pub fn get(&self, pos: GridPosition) -> (found: Option<&Visit>)
        ensures
            match found {
                Some(v) => self@.contains_key(pos) && *v == self@[pos],
                None => !self@.contains_key(pos),
            },
    {
        self.visits.get(pos)
    }
}

impl Station {
    /// Explores the station from `start` towards `target`, cheapest estimate
    /// first, and reports every cell reached on the way. Walls are never
    /// entered. The search ends when the target comes up for exploring or
    /// when nothing is left to explore.
    pub fn search(&self, start: GridPosition, target: GridPosition) -> (reached: Reached)
        requires
            self.well_formed(),
        ensures
            is_search_tree(self@, start, reached@),
            forall|route: Seq<GridPosition>| #[trigger]
                is_route(self@, start, target, route) ==> reached@.contains_key(target)
                    && reached@[target].cost <= STEP_COST * route.len(),
    {
        let tiles = self.num_tiles();
        let mut frontier = Frontier::new();
        let mut visits: GridMap<Visit> = GridMap::new();
        let first = Movement { cost: start.steps_to(target) as u128, pos: start };
        frontier.push(first);
        visits.insert(start, Visit { from: None, cost: 0, settled: false });
        let ghost mut settled = Set::<GridPosition>::empty();
        let ghost mut floor: int = 0;
        proof {
            lemma_search_begins(self@, start, target, visits@, frontier@, first);
        }
        loop
            invariant_except_break
                self.well_formed(),
                frontier.well_formed(),
                self@.dom().finite(),
                self@.dom().len() <= usize::MAX,
                search_inv(self@, start, target, visits@, frontier@, settled, floor, None),
            ensures
                is_search_tree(self@, start, visits@),
                forall|route: Seq<GridPosition>| #[trigger]
                    is_route(self@, start, target, route) ==> visits@.contains_key(target)
                        && visits@[target].cost <= STEP_COST * route.len(),
            decreases self@.dom().insert(start).len() - settled.len(), frontier@.len(),
        {
            let ghost waiting = frontier@;
            let popped = frontier.pop();
            let current = match popped {
                None => {
                    proof {
                        reveal(search_inv);
                        assert forall|route: Seq<GridPosition>| #[trigger]
                            is_route(self@, start, target, route) implies visits@.contains_key(
                            target,
                        ) && visits@[target].cost <= STEP_COST * route.len() by {
                            lemma_search_done(
                                self@,
                                start,
                                target,
                                visits@,
                                waiting,
                                settled,
                                floor,
                                None,
                                route,
                            );
                        }
                    }
                    break ;
                },
                Some(m) => m,
            };
            proof {
                lemma_waiting(self@, start, target, visits@, waiting, settled, floor, current);
                vstd::set_lib::lemma_len_subset(settled, self@.dom().insert(start));
            }
            if current.pos == target {
                proof {
                    assert forall|route: Seq<GridPosition>| #[trigger]
                        is_route(self@, start, target, route) implies visits@.contains_key(target)
                        && visits@[target].cost <= STEP_COST * route.len() by {
                        lemma_search_done(
                            self@,
                            start,
                            target,
                            visits@,
                            waiting,
                            settled,
                            floor,
                            Some(current),
                            route,
                        );
                    }
                }
                break ;
            }
            let c = current.pos;
            let here = *visits.at(c);
            if here.settled {
                proof {
                    lemma_drop_stale(self@, start, target, visits@, waiting, settled, floor, current);
                }
            } else {
                proof {
                    lemma_settle(self@, start, target, visits@, waiting, settled, floor, current);
                    settled = settled.insert(c);
                    floor = current.cost as int;
                }
                visits.insert(c, Visit { from: here.from, cost: here.cost, settled: true });
                let neighbors = self.get_neighbors(c);
                let ghost cells = neighbor_cells(self@, c);
                proof {
                    lemma_neighbor_cells(self@, c);
                    lemma_expanding(self@, start, target, visits@, frontier@, settled, floor, c);
                    vstd::set_lib::lemma_len_subset(settled, self@.dom().insert(start));
                }
                let cost: u128 = here.cost + STEP_COST;
                let mut i: usize = 0;
                while i < neighbors.len()
                    invariant
                        i <= neighbors@.len(),
                        neighbors@.len() == cells.len(),
                        cells == neighbor_cells(self@, c),
                        forall|k: int|
                            0 <= k < neighbors@.len() ==> self@.contains_key(#[trigger] cells[k])
                                && *neighbors@[k] == self@[cells[k]],
                        forall|k: int|
                            0 <= k < neighbors@.len() ==> (#[trigger] neighbors@[k]).pos
                                == cells[k],
                        forall|q: GridPosition| cells.contains(q) ==> adjacent(c, q),
                        search_inv(self@, start, target, visits@, frontier@, settled, floor, Some(c)),
                        frontier.well_formed(),
                        visits@.contains_key(c),
                        cost == visits@[c].cost + STEP_COST,
                        self@.dom().finite(),
                        self@.dom().len() <= usize::MAX,
                        forall|k: int|
                            0 <= k < i ==> relaxed_toward(self@, visits@, c, #[trigger] cells[k]),
                    decreases neighbors@.len() - i,
                {
                    proof {
                        lemma_expanding(self@, start, target, visits@, frontier@, settled, floor, c);
                        vstd::set_lib::lemma_len_subset(settled, self@.dom().insert(start));
                    }
                    let next: &Tile = neighbors[i];
                    let ghost n = cells[i as int];
                    assert(cells.contains(n));
                    assert(next.pos == n);
                    if is_walkable(next.kind) {
                        let better = match visits.get(next.pos) {
                            None => true,
                            Some(v) => cost < v.cost,
                        };
                        if better {
                            let queued = Movement {
                                cost: cost + next.pos.steps_to(target) as u128,
                                pos: next.pos,
                            };
                            proof {
                                lemma_relax(
                                    self@,
                                    start,
                                    target,
                                    visits@,
                                    frontier@,
                                    settled,
                                    floor,
                                    c,
                                    n,
                                    cost,
                                    queued,
                                );
                            }
                            visits.insert(
                                next.pos,
                                Visit { from: Some(c), cost, settled: false },
                            );
                            frontier.push(queued);
                        }
                    }
                    i = i + 1;
                }
                proof {
                    assert forall|n: GridPosition| relaxed_toward(self@, visits@, c, n) by {
                        if passable(self@, n) && adjacent(c, n) {
                            assert(cells.contains(n));
                            let k = choose|k: int| 0 <= k < cells.len() && cells[k] == n;
                            assert(relaxed_toward(self@, visits@, c, cells[k]));
                        }
                    }
                    lemma_expanded(self@, start, target, visits@, frontier@, settled, floor, c);
                }
            }
        }
        Reached { visits }
    }
}

/// The same cells in the opposite order.
pub fn reversed(cells: Vec<GridPosition>) -> (turned: Vec<GridPosition>)
    ensures
        turned@ == cells@.reverse(),
{
    let mut turned: Vec<GridPosition> = Vec::new();
    let mut i: usize = cells.len();
    while i > 0
        invariant
            i <= cells@.len(),
            turned@.len() == cells@.len() - i,
            forall|k: int| 0 <= k < turned@.len() ==> turned@[k] == cells@[cells@.len() - 1 - k],
        decreases i,
    {
        i = i - 1;
        turned.push(cells[i]);
    }
    assert(turned@ =~= cells@.reverse());
    turned
}

/// The way back from a reached cell to the start, as far as it has been
/// followed: `back` lists the cells from `target` down to the one that was
/// reached from `current`.
pub open spec fn is_way_back(
    map: Map<GridPosition, Tile>,
    visits: Map<GridPosition, Visit>,
    target: GridPosition,
    current: GridPosition,
    back: Seq<GridPosition>,
) -> bool {
    &&& visits.contains_key(current)
    &&& visits.contains_key(target)
    &&& back.len() * STEP_COST + visits[current].cost == visits[target].cost
    &&& forall|i: int| 0 <= i < back.len() ==> passable(map, #[trigger] back[i])
    &&& forall|i: int| 0 < i < back.len() ==> adjacent(#[trigger] back[i], back[i - 1])
    &&& back.len() == 0 ==> current == target
    &&& back.len() > 0 ==> back[0] == target && adjacent(current, back.last())
}

/// One more step of the way back.
proof fn lemma_way_back_step(
    map: Map<GridPosition, Tile>,
    start: GridPosition,
    visits: Map<GridPosition, Visit>,
    target: GridPosition,
    current: GridPosition,
    back: Seq<GridPosition>,
)
    requires
        is_search_tree(map, start, visits),
        is_way_back(map, visits, target, current, back),
        current != start,
    ensures
        visits[current].from is Some,
        is_way_back(map, visits, target, visits[current].from->0, back.push(current)),
        visits[visits[current].from->0].cost < visits[current].cost,
{
    let previous = visits[current].from->0;
    let longer = back.push(current);
    assert(longer.len() * STEP_COST == back.len() * STEP_COST + STEP_COST) by (nonlinear_arith)
        requires
            longer.len() == back.len() + 1,
    ;
    assert forall|i: int| 0 <= i < longer.len() implies passable(map, #[trigger] longer[i]) by {
        if i < back.len() {
            assert(longer[i] == back[i]);
        }
    }
    assert forall|i: int| 0 < i < longer.len() implies adjacent(
        #[trigger] longer[i],
        longer[i - 1],
    ) by {
        if i < back.len() {
            assert(longer[i] == back[i]);
            assert(longer[i - 1] == back[i - 1]);
        }
    }
}

/// A way back that has arrived at the start, turned round, is a route, and
/// as long as the cost of the target says.
proof fn lemma_way_back_done(
    map: Map<GridPosition, Tile>,
    start: GridPosition,
    visits: Map<GridPosition, Visit>,
    target: GridPosition,
    back: Seq<GridPosition>,
)
    requires
        is_search_tree(map, start, visits),
        is_way_back(map, visits, target, start, back),
    ensures
        back.len() * STEP_COST == visits[target].cost,
        back.len() == 0 ==> start == target,
        back.len() > 0 ==> is_route(map, start, target, back.reverse()),
{
    let len = back.len() as int;
    let path = back.reverse();
    if len > 0 {
        assert forall|i: int| 0 <= i < len implies passable(map, #[trigger] path[i]) by {
            assert(path[i] == back[len - 1 - i]);
        }
        assert forall|i: int| 0 < i < len implies adjacent(path[i - 1], #[trigger] path[i]) by {
            assert(path[i] == back[len - 1 - i]);
            assert(path[i - 1] == back[len - i]);
            assert(adjacent(back[len - i], back[len - i - 1]));
        }
        assert(path[0] == back[len - 1]);
        assert(path[len - 1] == back[0]);
    }
}

/// A way whose steps add up to a cost is no longer than a route that the
/// cost does not exceed.
proof fn lemma_shorter(len: nat, cost: u128, other: nat)
    requires
        len * STEP_COST == cost,
        cost <= STEP_COST * other,
    ensures
        len <= other,
{
    assert(len <= other) by (nonlinear_arith)
        requires
            len * 1000 <= 1000 * other,
    ;
}

impl Station {
    /// The cells to step on, in order, to get from `start` to `target`
    /// without entering a wall: a shortest such way if there is any, and
    /// nothing if there is none or if the two cells are the same. The start
    /// itself is not listed and may be any cell.
    pub fn path_to(&self, start: GridPosition, target: GridPosition) -> (path: Vec<GridPosition>)
        requires
            self.well_formed(),
        ensures
            is_answer(self@, start, target, path@),
    {
        let reached = self.search(start, target);
        let mut back: Vec<GridPosition> = Vec::new();
        if reached.get(target).is_none() {
            return back;
        }
        let mut current = target;
        while current != start
            invariant
                is_search_tree(self@, start, reached@),
                is_way_back(self@, reached@, target, current, back@),
            decreases reached@[current].cost,
        {
            proof {
                lemma_way_back_step(self@, start, reached@, target, current, back@);
            }
            let previous = reached.at(current).from.unwrap();
            back.push(current);
            current = previous;
        }
        let path = reversed(back);
        proof {
            lemma_way_back_done(self@, start, reached@, target, back@);
            assert forall|other: Seq<GridPosition>| #[trigger]
                is_route(self@, start, target, other) implies path@.len() <= other.len() by {
                lemma_shorter(back@.len(), reached@[target].cost, other.len());
            }
        }
        path
    }
}

/// Every cell of the rectangle between the corners `lo` and `hi`, the
/// corners included, is a walkable tile.
pub open spec fn is_open_room(
    map: Map<GridPosition, Tile>,
    lo: GridPosition,
    hi: GridPosition,
) -> bool {
    forall|p: GridPosition|
        lo.x <= p.x <= hi.x && lo.y <= p.y <= hi.y ==> #[trigger] passable(map, p)
}

/// `p` lies in the rectangle between the corners `lo` and `hi`.
pub open spec fn in_room(lo: GridPosition, hi: GridPosition, p: GridPosition) -> bool {
    lo.x <= p.x <= hi.x && lo.y <= p.y <= hi.y
}

/// The first step of the direct way from `a` to `b`: along the row first,
/// then along the column.
pub open spec fn toward(a: GridPosition, b: GridPosition) -> GridPosition {
    if a.x < b.x {
        GridPosition { x: (a.x + 1) as i32, y: a.y }
    } else if a.x > b.x {
        GridPosition { x: (a.x - 1) as i32, y: a.y }
    } else if a.y < b.y {
        GridPosition { x: a.x, y: (a.y + 1) as i32 }
    } else {
        GridPosition { x: a.x, y: (a.y - 1) as i32 }
    }
}

/// The direct way from `a` to `b`.
pub open spec fn direct_way(a: GridPosition, b: GridPosition) -> Seq<GridPosition>
    decreases manhattan(a, b),
{
    if a == b {
        Seq::empty()
    } else {
        seq![toward(a, b)] + direct_way(toward(a, b), b)
    }
}

/// In an open room the direct way between two of its cells is a route, and
/// as long as the two cells are apart.
pub proof fn lemma_direct_way(
    map: Map<GridPosition, Tile>,
    lo: GridPosition,
    hi: GridPosition,
    a: GridPosition,
    b: GridPosition,
)
    requires
        is_open_room(map, lo, hi),
        in_room(lo, hi, a),
        in_room(lo, hi, b),
        a != b,
    ensures
        is_route(map, a, b, direct_way(a, b)),
        direct_way(a, b).len() == manhattan(a, b),
    decreases manhattan(a, b),
{
    let n = toward(a, b);
    let way = direct_way(a, b);
    let rest = direct_way(n, b);
    assert(in_room(lo, hi, n));
    assert(passable(map, n));
    assert(adjacent(a, n));
    assert(manhattan(n, b) == manhattan(a, b) - 1);
    assert(way == seq![n] + rest);
    if n == b {
        assert(rest.len() == 0);
        assert(way =~= seq![n]);
    } else {
        lemma_direct_way(map, lo, hi, n, b);
        assert(way.len() == rest.len() + 1);
        assert(way[0] == n);
        assert forall|i: int| 0 <= i < way.len() implies passable(map, #[trigger] way[i]) by {
            if i > 0 {
                assert(way[i] == rest[i - 1]);
            }
        }
        assert forall|i: int| 0 < i < way.len() implies adjacent(way[i - 1], #[trigger] way[i]) by {
            assert(way[i] == rest[i - 1]);
            if i > 1 {
                assert(way[i - 1] == rest[i - 2]);
            }
        }
        assert(way.last() == rest.last());
    }
}

/// In an open rectangular room the way that routing gives from one cell of
/// the room to another has as many steps as the two cells are apart, row
/// and column distance added.
pub proof fn lemma_open_room_path_length(
    map: Map<GridPosition, Tile>,
    lo: GridPosition,
    hi: GridPosition,
    a: GridPosition,
    b: GridPosition,
    path: Seq<GridPosition>,
)
    requires
        is_open_room(map, lo, hi),
        in_room(lo, hi, a),
        in_room(lo, hi, b),
        is_answer(map, a, b, path),
    ensures
        path.len() == manhattan(a, b),
{
    if a != b {
        lemma_direct_way(map, lo, hi, a, b);
        assert(reachable(map, a, b));
        assert(is_route(map, a, b, path));
        lemma_route_length(map, a, b, path, -1);
    }
}

/// No walled cell is ever part of the way that routing gives.
pub proof fn lemma_path_avoids_walls(
    map: Map<GridPosition, Tile>,
    start: GridPosition,
    target: GridPosition,
    path: Seq<GridPosition>,
    i: int,
)
    requires
        is_answer(map, start, target, path),
        0 <= i < path.len(),
    ensures
        map.contains_key(path[i]),
        !(map[path[i]].kind is Wall),
{
    assert(is_route(map, start, target, path));
    assert(passable(map, path[i]));
}

/// A target with a wall on each of its four sides cannot be routed to from
/// any cell other than itself and those four walls: routing gives nothing.
pub proof fn lemma_walled_in_target(
    map: Map<GridPosition, Tile>,
    start: GridPosition,
    target: GridPosition,
    path: Seq<GridPosition>,
)
    requires
        forall|n: GridPosition|
            adjacent(n, target) ==> map.contains_key(n) && (#[trigger] map[n]).kind is Wall,
        !adjacent(start, target),
        is_answer(map, start, target, path),
    ensures
        path.len() == 0,
{
    assert forall|route: Seq<GridPosition>| !is_route(map, start, target, route) by {
        if is_route(map, start, target, route) {
            let last = route.len() - 1;
            if last == 0 {
                assert(adjacent(start, route[0]));
            } else {
                let n = route[last - 1];
                assert(adjacent(n, route[last]));
                assert(passable(map, n));
                assert(map[n].kind is Wall);
            }
        }
    }
}

/// Some shortest route from `a` to `b` takes `steps` steps.
pub open spec fn takes_steps(
    map: Map<GridPosition, Tile>,
    a: GridPosition,
    b: GridPosition,
    steps: nat,
) -> bool {
    exists|route: Seq<GridPosition>| #[trigger]
        is_shortest_route(map, a, b, route) && route.len() == steps
}

/// How many steps the shortest route from `a` to `b` takes; nothing if there
/// is no route or if the two are the same cell.
pub open spec fn route_length(map: Map<GridPosition, Tile>, a: GridPosition, b: GridPosition) -> nat {
    if a != b && reachable(map, a, b) {
        choose|steps: nat| takes_steps(map, a, b, steps)
    } else {
        0
    }
}

/// What routing answers is as long as the shortest route, and that is never
/// shorter than the two cells are apart.
pub proof fn lemma_answer_length(
    map: Map<GridPosition, Tile>,
    a: GridPosition,
    b: GridPosition,
    path: Seq<GridPosition>,
)
    requires
        is_answer(map, a, b, path),
    ensures
        path.len() == route_length(map, a, b),
        path.len() > 0 <==> a != b && reachable(map, a, b),
{
    if a != b && reachable(map, a, b) {
        assert(is_shortest_route(map, a, b, path));
        assert(takes_steps(map, a, b, path.len()));
        let n = route_length(map, a, b);
        assert(takes_steps(map, a, b, n));
        let other = choose|route: Seq<GridPosition>| #[trigger]
            is_shortest_route(map, a, b, route) && route.len() == n;
        assert(is_route(map, a, b, other));
        assert(is_route(map, a, b, path));
    }
}

/// Place of the nearest of the first `count` candidates: the one that the
/// shortest route leads to, the earliest of several equally near. Candidates
/// that cannot be reached, or that are the cell to start from, do not count.
pub open spec fn nearest_among(
    map: Map<GridPosition, Tile>,
    from: GridPosition,
    candidates: Seq<GridPosition>,
    count: int,
) -> Option<int>
    decreases count,
{
    if count <= 0 {
        None
    } else {
        let earlier = nearest_among(map, from, candidates, count - 1);
        let steps = route_length(map, from, candidates[count - 1]);
        if steps > 0 && (earlier is None || steps < route_length(
            map,
            from,
            candidates[earlier->0],
        )) {
            Some(count - 1)
        } else {
            earlier
        }
    }
}

/// The nearest candidate can be reached, no candidate that can be reached is
/// nearer, and none that comes before it is as near.
pub proof fn lemma_nearest_among(
    map: Map<GridPosition, Tile>,
    from: GridPosition,
    candidates: Seq<GridPosition>,
    count: int,
)
    requires
        0 <= count <= candidates.len(),
    ensures
        match nearest_among(map, from, candidates, count) {
            Some(i) => {
                &&& 0 <= i < count
                &&& route_length(map, from, candidates[i]) > 0
                &&& forall|k: int|
                    0 <= k < count && route_length(map, from, #[trigger] candidates[k]) > 0
                        ==> route_length(map, from, candidates[i]) <= route_length(
                        map,
                        from,
                        candidates[k],
                    )
                &&& forall|k: int|
                    0 <= k < i && route_length(map, from, #[trigger] candidates[k]) > 0
                        ==> route_length(map, from, candidates[i]) < route_length(
                        map,
                        from,
                        candidates[k],
                    )
            },
            None => forall|k: int|
                0 <= k < count ==> route_length(map, from, #[trigger] candidates[k]) == 0,
        },
    decreases count,
{
    if count > 0 {
        lemma_nearest_among(map, from, candidates, count - 1);
    }
}

impl Station {
    /// The candidate that the shortest route from `from` leads to, the
    /// earliest of several equally near; nothing if no candidate can be
    /// reached.
    pub fn nearest(&self, from: GridPosition, candidates: &Vec<GridPosition>) -> (best: Option<
        GridPosition,
    >)
        requires
            self.well_formed(),
        ensures
            match nearest_among(self@, from, candidates@, candidates@.len() as int) {
                Some(i) => 0 <= i < candidates@.len() && best == Some(candidates@[i]),
                None => best is None,
            },
    {
        let mut best: Option<GridPosition> = None;
        let mut best_steps: usize = 0;
        let mut k: usize = 0;
        while k < candidates.len()
            invariant
                k <= candidates@.len(),
                self.well_formed(),
                match nearest_among(self@, from, candidates@, k as int) {
                    Some(i) => 0 <= i < k && best == Some(candidates@[i]) && best_steps
                        == route_length(self@, from, candidates@[i]),
                    None => best is None,
                },
            decreases candidates@.len() - k,
        {
            let path = self.path_to(from, candidates[k]);
            proof {
                lemma_answer_length(self@, from, candidates@[k as int], path@);
            }
            let steps = path.len();
            if steps > 0 && (best.is_none() || steps < best_steps) {
                best = Some(candidates[k]);
                best_steps = steps;
            }
            k = k + 1;
        }
        best
    }
}

} // verus!
