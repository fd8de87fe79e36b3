use crate::item::{find_offering, holds_any, without_id, Item, ItemType};
use crate::random::rand_below;
use crate::station::gridmap::GridMap;
use crate::station::gridposition::{adjacent, GridPosition};
use crate::station::tile::{walkable, Tile, TileType};
use oorandom::Rand32;
use vstd::prelude::*;

verus! {

/// The four steps out of a cell, in the order in which routing tries them:
/// east, west, north, south, and the other way round on cells whose
/// coordinates add up to an even number. Alternating the order keeps routes
/// of equal length from zig-zagging.
pub open spec fn direction_offsets(pos: GridPosition) -> Seq<(int, int)> {
    if (pos.x + pos.y) % 2 == 0 {
        seq![(0, 1), (0, -1), (-1, 0), (1, 0)]
    } else {
        seq![(1, 0), (-1, 0), (0, -1), (0, 1)]
    }
}

/// The cell one step from `pos`, if the grid reaches that far.
pub open spec fn step_from(pos: GridPosition, offset: (int, int)) -> Option<GridPosition> {
    let x = pos.x + offset.0;
    let y = pos.y + offset.1;
    if i32::MIN <= x <= i32::MAX && i32::MIN <= y <= i32::MAX {
        Some(GridPosition { x: x as i32, y: y as i32 })
    } else {
        None
    }
}

/// The cells next to `pos` that hold a tile, among the first `count`
/// directions tried.
pub open spec fn neighbors_within(
    map: Map<GridPosition, Tile>,
    pos: GridPosition,
    count: int,
) -> Seq<GridPosition>
    decreases count,
{
    if count <= 0 {
        Seq::empty()
    } else {
        let earlier = neighbors_within(map, pos, count - 1);
        match step_from(pos, direction_offsets(pos)[count - 1]) {
            Some(q) => if map.contains_key(q) {
                earlier.push(q)
            } else {
                earlier
            },
            None => earlier,
        }
    }
}

/// The cells next to `pos` that hold a tile, in the order in which routing
/// tries them.
pub open spec fn neighbor_cells(map: Map<GridPosition, Tile>, pos: GridPosition) -> Seq<
    GridPosition,
> {
    neighbors_within(map, pos, 4)
}

/// The neighbours of a cell are exactly the tiles that share an edge with it.
pub proof fn lemma_neighbor_cells(map: Map<GridPosition, Tile>, pos: GridPosition)
    ensures
        forall|q: GridPosition|
            neighbor_cells(map, pos).contains(q) <==> map.contains_key(q) && adjacent(pos, q),
{
    let d = direction_offsets(pos);
    let n0 = neighbors_within(map, pos, 0);
    let n1 = neighbors_within(map, pos, 1);
    let n2 = neighbors_within(map, pos, 2);
    let n3 = neighbors_within(map, pos, 3);
    let n4 = neighbors_within(map, pos, 4);
    assert(n0.len() == 0);
    assert forall|q: GridPosition| n1.contains(q) <==> map.contains_key(q) && step_from(pos, d[0])
        == Some(q) by {
        lemma_push_contains(n0, q);
        lemma_grown(map, pos, 1, q);
    }
    assert forall|q: GridPosition|
        n2.contains(q) <==> n1.contains(q) || (map.contains_key(q) && step_from(pos, d[1]) == Some(
            q,
        )) by {
        lemma_grown(map, pos, 2, q);
    }
    assert forall|q: GridPosition|
        n3.contains(q) <==> n2.contains(q) || (map.contains_key(q) && step_from(pos, d[2]) == Some(
            q,
        )) by {
        lemma_grown(map, pos, 3, q);
    }
    assert forall|q: GridPosition|
        n4.contains(q) <==> n3.contains(q) || (map.contains_key(q) && step_from(pos, d[3]) == Some(
            q,
        )) by {
        lemma_grown(map, pos, 4, q);
    }
}

/// A cell is in a sequence with one more cell at its end if it was in the
/// sequence before or is that cell.
pub proof fn lemma_push_contains(s: Seq<GridPosition>, q: GridPosition)
    ensures
        forall|p: GridPosition| s.push(p).contains(q) <==> s.contains(q) || p == q,
{
    assert forall|p: GridPosition| s.push(p).contains(q) <==> s.contains(q) || p == q by {
        let t = s.push(p);
        if s.contains(q) {
            let i = choose|i: int| 0 <= i < s.len() && s[i] == q;
            assert(t[i] == q);
        }
        if p == q {
            assert(t[s.len() as int] == q);
        }
        if t.contains(q) {
            let i = choose|i: int| 0 <= i < t.len() && t[i] == q;
            if i < s.len() {
                assert(s[i] == q);
            }
        }
    }
}

proof fn lemma_grown(map: Map<GridPosition, Tile>, pos: GridPosition, count: int, q: GridPosition)
    requires
        1 <= count <= 4,
    ensures
        neighbors_within(map, pos, count).contains(q) <==> neighbors_within(
            map,
            pos,
            count - 1,
        ).contains(q) || (map.contains_key(q) && step_from(
            pos,
            direction_offsets(pos)[count - 1],
        ) == Some(q)),
{
    lemma_push_contains(neighbors_within(map, pos, count - 1), q);
}

fn offset_for(even: bool, turn: usize) -> (offset: (i64, i64))
    requires
        turn < 4,
    ensures
        -1 <= offset.0 <= 1,
        -1 <= offset.1 <= 1,
        forall|pos: GridPosition|
            even == ((pos.x + pos.y) % 2 == 0) ==> #[trigger] direction_offsets(pos)[turn as int]
                == (offset.0 as int, offset.1 as int),
{
    if even {
        if turn == 0 {
            (0, 1)
        } else if turn == 1 {
            (0, -1)
        } else if turn == 2 {
            (-1, 0)
        } else {
            (1, 0)
        }
    } else {
        if turn == 0 {
            (1, 0)
        } else if turn == 1 {
            (-1, 0)
        } else if turn == 2 {
            (0, -1)
        } else {
            (0, 1)
        }
    }
}

/// `order` without the cells that are in `gone`, the others in order.
pub open spec fn without_cells(order: Seq<GridPosition>, gone: Set<GridPosition>) -> Seq<
    GridPosition,
>
    decreases order.len(),
{
    if order.len() == 0 {
        order
    } else {
        let rest = without_cells(order.drop_last(), gone);
        if gone.contains(order.last()) {
            rest
        } else {
            rest.push(order.last())
        }
    }
}

/// `order` followed by those of `cells` that it does not list yet, each
/// once, in order.
pub open spec fn with_cells(order: Seq<GridPosition>, cells: Seq<GridPosition>) -> Seq<
    GridPosition,
>
    decreases cells.len(),
{
    if cells.len() == 0 {
        order
    } else {
        let earlier = with_cells(order, cells.drop_last());
        if earlier.contains(cells.last()) {
            earlier
        } else {
            earlier.push(cells.last())
        }
    }
}

/// Taking away cells that are not listed changes nothing.
pub proof fn lemma_without_strangers(order: Seq<GridPosition>, gone: Set<GridPosition>)
    requires
        forall|i: int| 0 <= i < order.len() ==> !gone.contains(#[trigger] order[i]),
    ensures
        without_cells(order, gone) == order,
    decreases order.len(),
{
    if order.len() > 0 {
        let front = order.drop_last();
        assert forall|i: int| 0 <= i < front.len() implies !gone.contains(#[trigger] front[i]) by {
            assert(front[i] == order[i]);
        }
        lemma_without_strangers(front, gone);
        assert(front.push(order.last()) =~= order);
    }
}

/// Taking away the one cell that stands at place `i` of a list without
/// repetitions leaves the list without that place.
pub proof fn lemma_without_one(order: Seq<GridPosition>, i: int)
    requires
        order.no_duplicates(),
        0 <= i < order.len(),
    ensures
        without_cells(order, set![order[i]]) == order.remove(i),
    decreases order.len(),
{
    let c = order[i];
    let front = order.drop_last();
    if i == order.len() - 1 {
        assert forall|k: int| 0 <= k < front.len() implies !set![c].contains(
            #[trigger] front[k],
        ) by {
            assert(front[k] == order[k]);
        }
        lemma_without_strangers(front, set![c]);
        assert(front =~= order.remove(i));
    } else {
        assert(front[i] == c);
        lemma_without_one(front, i);
        assert(order.last() != c);
        assert(front.remove(i).push(order.last()) =~= order.remove(i));
    }
}

/// Taking cells away in two goes is taking them away in one.
pub proof fn lemma_without_twice(
    order: Seq<GridPosition>,
    first: Set<GridPosition>,
    second: Set<GridPosition>,
)
    ensures
        without_cells(without_cells(order, first), second) == without_cells(
            order,
            first.union(second),
        ),
    decreases order.len(),
{
    if order.len() > 0 {
        let front = order.drop_last();
        lemma_without_twice(front, first, second);
        if !first.contains(order.last()) {
            let kept = without_cells(front, first).push(order.last());
            assert(kept.drop_last() =~= without_cells(front, first));
        }
    }
}

/// The station: every tile it is made of, each under its own cell, in the
/// order in which the cells were first built on.
pub struct Station {
    tiles: GridMap<Tile>,
    roster: Vec<GridPosition>,
}

impl View for Station {
    type V = Map<GridPosition, Tile>;

    closed spec fn view(&self) -> Map<GridPosition, Tile> {
        self.tiles@
    }
}

impl Station {
    /// The cells that hold a tile, oldest first.
    pub closed spec fn order(&self) -> Seq<GridPosition> {
        self.roster@
    }

    /// Every tile stands under its own position, and the order lists each
    /// built-on cell once.
    pub open spec fn well_formed(&self) -> bool {
        &&& forall|p: GridPosition| #[trigger] self@.contains_key(p) ==> self@[p].pos == p
        &&& self.order().no_duplicates()
        &&& forall|p: GridPosition| self@.contains_key(p) <==> #[trigger] self.order().contains(p)
    }

    /// A station without any tile.
    pub fn empty() -> (station: Station)
        ensures
            station.well_formed(),
            station@ == Map::<GridPosition, Tile>::empty(),
            station.order() == Seq::<GridPosition>::empty(),
    {
        Station { tiles: GridMap::new(), roster: Vec::new() }
    }

    /// Adds a tile to the station under the position that the tile names. A
    /// tile that already stands there is replaced and keeps its place in the
    /// order.
    pub fn add_tile(&mut self, tile: Tile)
        requires
            old(self).well_formed(),
        ensures
            final(self).well_formed(),
            final(self)@ == old(self)@.insert(tile.pos, tile),
            final(self).order() == if old(self)@.contains_key(tile.pos) {
                old(self).order()
            } else {
                old(self).order().push(tile.pos)
            },
    {
        let pos = tile.pos;
        let before = self.tiles.insert(pos, tile);
        if before.is_none() {
            self.roster.push(pos);
        }
        proof {
            let order = old(self).order();
            assert forall|p: GridPosition| self@.contains_key(p) <==> #[trigger] self.order().contains(
                p,
            ) by {
                lemma_push_contains(order, p);
                assert(order.contains(p) <==> old(self)@.contains_key(p));
            }
            assert(self.order().no_duplicates()) by {
                if before is None {
                    assert(!order.contains(pos));
                    assert forall|i: int, j: int|
                        0 <= i < order.len() + 1 && 0 <= j < order.len() + 1 && i != j implies order.push(
                        pos,
                    )[i] != order.push(pos)[j] by {
                        if i < order.len() {
                            assert(order.contains(order[i]));
                        }
                        if j < order.len() {
                            assert(order.contains(order[j]));
                        }
                    }
                }
            }
        }
    }

    /// The cells that hold a tile, oldest first.
    pub fn positions(&self) -> (cells: &Vec<GridPosition>)
        ensures
            cells@ == self.order(),
    {
        &self.roster
    }

    /// How many tiles the station has.
    pub fn num_tiles(&self) -> (n: usize)
        ensures
            n == self@.dom().len(),
            self@.dom().finite(),
    {
        self.tiles.len()
    }

    /// Whether a tile stands at the position.
    pub fn has_tile(&self, pos: GridPosition) -> (found: bool)
        ensures
            found == self@.contains_key(pos),
    {
        self.tiles.contains(pos)
    }

    /// The tile at the position, if any.
    pub fn get_tile(&self, pos: GridPosition) -> (found: Option<&Tile>)
        ensures
            match found {
                Some(tile) => self@.contains_key(pos) && *tile == self@[pos],
                None => !self@.contains_key(pos),
            },
    {
        self.tiles.get(pos)
    }

    /// Takes the tile at the position away, if there is one.
    pub fn remove_tile(&mut self, pos: GridPosition)
        requires
            old(self).well_formed(),
        ensures
            final(self).well_formed(),
            final(self)@ == old(self)@.remove(pos),
            final(self).order() == old(self).order().remove_value(pos),
            final(self).order() == without_cells(old(self).order(), set![pos]),
    {
        let before = self.tiles.remove(pos);
        let ghost order = self.roster@;
        proof {
            order.index_of_first_ensures(pos);
        }
        if before.is_some() {
            let mut i: usize = 0;
            while i < self.roster.len() && self.roster[i] != pos
                invariant
                    self.roster@ == order,
                    order.contains(pos),
                    i <= order.len(),
                    forall|k: int| 0 <= k < i ==> order[k] != pos,
                decreases order.len() - i,
            {
                i = i + 1;
            }
            assert(i < order.len() && order[i as int] == pos) by {
                let k = choose|k: int| 0 <= k < order.len() && order[k] == pos;
                assert(k >= i);
            }
            assert(order.index_of_first(pos) == Some(i as int));
            self.roster.remove(i);
            proof {
                let after = self.roster@;
                lemma_without_one(order, i as int);
                assert(after == order.remove(i as int));
                assert(after.no_duplicates());
                assert forall|p: GridPosition| self@.contains_key(p) <==> #[trigger] after.contains(
                    p,
                ) by {
                    if after.contains(p) {
                        let k = choose|k: int| 0 <= k < after.len() && after[k] == p;
                        if k < i {
                            assert(order[k] == p);
                        } else {
                            assert(order[k + 1] == p);
                        }
                        assert(order.contains(p));
                        assert(p != pos);
                    }
                    if self@.contains_key(p) {
                        assert(old(self)@.contains_key(p) && p != pos);
                        assert(order.contains(p));
                        let k = choose|k: int| 0 <= k < order.len() && order[k] == p;
                        if k < i {
                            assert(after[k] == p);
                        } else {
                            assert(after[k - 1] == p);
                        }
                    }
                }
            }
        } else {
            assert(order.index_of_first(pos) is None);
            proof {
                lemma_without_strangers(order, set![pos]);
            }
        }
    }

    fn tile_toward(&self, pos: GridPosition, offset: (i64, i64)) -> (found: Option<&Tile>)
        requires
            -1 <= offset.0 <= 1,
            -1 <= offset.1 <= 1,
        ensures
            match found {
                Some(tile) => step_from(pos, (offset.0 as int, offset.1 as int)) matches Some(q)
                    && self@.contains_key(q) && *tile == self@[q],
                None => step_from(pos, (offset.0 as int, offset.1 as int)) matches Some(q)
                    ==> !self@.contains_key(q),
            },
    {
        let x: i64 = pos.x as i64 + offset.0;
        let y: i64 = pos.y as i64 + offset.1;
        if x < -0x8000_0000 || x > 0x7fff_ffff || y < -0x8000_0000 || y > 0x7fff_ffff {
            return None;
        }
        self.get_tile(GridPosition::new(x as i32, y as i32))
    }

    /// The tiles next to a position, leaving out the diagonals, in the order
    /// in which routing tries them.
    pub fn get_neighbors(&self, pos: GridPosition) -> (neighbors: Vec<&Tile>)
        requires
            self.well_formed(),
        ensures
            neighbors@.len() == neighbor_cells(self@, pos).len(),
            forall|i: int|
                0 <= i < neighbors@.len() ==> self@.contains_key(
                    #[trigger] neighbor_cells(self@, pos)[i],
                ) && *neighbors@[i] == self@[neighbor_cells(self@, pos)[i]],
            forall|i: int|
                0 <= i < neighbors@.len() ==> (#[trigger] neighbors@[i]).pos == neighbor_cells(
                    self@,
                    pos,
                )[i],
    {
        let even = (pos.x as i64 + pos.y as i64) % 2 == 0;
        let mut neighbors: Vec<&Tile> = Vec::new();
        let mut turn: usize = 0;
        while turn < 4
            invariant
                turn <= 4,
                self.well_formed(),
                even == ((pos.x + pos.y) % 2 == 0),
                neighbors@.len() == neighbors_within(self@, pos, turn as int).len(),
                forall|i: int|
                    0 <= i < neighbors@.len() ==> self@.contains_key(
                        #[trigger] neighbors_within(self@, pos, turn as int)[i],
                    ) && *neighbors@[i] == self@[neighbors_within(self@, pos, turn as int)[i]],
            decreases 4 - turn,
        {
            let offset = offset_for(even, turn);
            assert(direction_offsets(pos)[turn as int] == (offset.0 as int, offset.1 as int));
            if let Some(tile) = self.tile_toward(pos, offset) {
                neighbors.push(tile);
            }
            turn = turn + 1;
        }
        neighbors
    }
}

/// The cells of `order` whose tile is of the given kind, in order.
pub open spec fn cells_of_kind(
    map: Map<GridPosition, Tile>,
    order: Seq<GridPosition>,
    kind: TileType,
) -> Seq<GridPosition> {
    order.filter(|p: GridPosition| map[p].kind == kind)
}

/// The cells of `order` on whose tile something counts as one of the given
/// kinds of item, in order.
pub open spec fn cells_offering(
    map: Map<GridPosition, Tile>,
    order: Seq<GridPosition>,
    kinds: Seq<ItemType>,
) -> Seq<GridPosition> {
    order.filter(|p: GridPosition| holds_any(map[p].items@, kinds))
}

/// Filtering one more cell either appends it or changes nothing.
pub proof fn lemma_filter_next(
    order: Seq<GridPosition>,
    keep: spec_fn(GridPosition) -> bool,
    i: int,
)
    requires
        0 <= i < order.len(),
    ensures
        order.take(i + 1).filter(keep) == if keep(order[i]) {
            order.take(i).filter(keep).push(order[i])
        } else {
            order.take(i).filter(keep)
        },
{
    reveal(Seq::filter);
    assert(order.take(i + 1).drop_last() =~= order.take(i));
}

/// A cell passes a filter if it was in the sequence and is kept.
pub proof fn lemma_filter_contains(
    order: Seq<GridPosition>,
    keep: spec_fn(GridPosition) -> bool,
    p: GridPosition,
)
    ensures
        order.filter(keep).contains(p) <==> order.contains(p) && keep(p),
{
    let kept = order.filter(keep);
    if kept.contains(p) {
        let i = choose|i: int| 0 <= i < kept.len() && kept[i] == p;
        order.lemma_filter_pred(keep, i);
        order.lemma_filter_contains_rev(keep, p);
    }
    if order.contains(p) && keep(p) {
        let i = choose|i: int| 0 <= i < order.len() && order[i] == p;
        order.lemma_filter_contains(keep, i);
    }
}

impl Station {
    /// Lays an item on the tile at the position, after what lies there
    /// already. Tells whether there was a tile to lay it on; without one the
    /// item is dropped.
    pub fn place_item(&mut self, pos: GridPosition, item: Item) -> (placed: bool)
        requires
            old(self).well_formed(),
        ensures
            final(self).well_formed(),
            final(self).order() == old(self).order(),
            placed == old(self)@.contains_key(pos),
            !placed ==> final(self)@ == old(self)@,
            final(self)@.dom() == old(self)@.dom(),
            forall|p: GridPosition|
                p != pos && old(self)@.contains_key(p) ==> final(self)@[p] == old(self)@[p],
            placed ==> {
                &&& final(self)@[pos].pos == pos
                &&& final(self)@[pos].kind == old(self)@[pos].kind
                &&& final(self)@[pos].items@ == old(self)@[pos].items@.push(item)
            },
    {
        match self.tiles.remove(pos) {
            Some(tile) => {
                let mut tile = tile;
                tile.add_item(item);
                self.tiles.insert(pos, tile);
                assert(self@.dom() =~= old(self)@.dom());
                true
            },
            None => {
                assert(self@ =~= old(self)@);
                false
            },
        }
    }

    /// Takes every item with the given identity off the tile at the
    /// position.
    pub fn remove_item(&mut self, pos: GridPosition, id: u128)
        requires
            old(self).well_formed(),
        ensures
            final(self).well_formed(),
            final(self).order() == old(self).order(),
            final(self)@.dom() == old(self)@.dom(),
            forall|p: GridPosition|
                p != pos && old(self)@.contains_key(p) ==> final(self)@[p] == old(self)@[p],
            old(self)@.contains_key(pos) ==> {
                &&& final(self)@[pos].pos == pos
                &&& final(self)@[pos].kind == old(self)@[pos].kind
                &&& final(self)@[pos].items@ == without_id(old(self)@[pos].items@, id)
            },
    {
        match self.tiles.remove(pos) {
            Some(tile) => {
                let mut tile = tile;
                tile.remove_item(id);
                self.tiles.insert(pos, tile);
                assert(self@.dom() =~= old(self)@.dom());
            },
            None => {
                assert(self@ =~= old(self)@);
            },
        }
    }

    /// The cells whose tile is of the given kind, oldest first.
    pub fn tiles_of_kind(&self, kind: TileType) -> (cells: Vec<GridPosition>)
        requires
            self.well_formed(),
        ensures
            cells@ == cells_of_kind(self@, self.order(), kind),
            forall|p: GridPosition|
                cells@.contains(p) <==> self@.contains_key(p) && self@[p].kind == kind,
    {
        let ghost keep = |p: GridPosition| self@[p].kind == kind;
        let mut cells: Vec<GridPosition> = Vec::new();
        let mut i: usize = 0;
        proof {
            reveal(Seq::filter);
            assert(self.order().take(0).filter(keep) =~= Seq::<GridPosition>::empty());
        }
        while i < self.roster.len()
            invariant
                i <= self.roster@.len(),
                self.well_formed(),
                keep == |p: GridPosition| self@[p].kind == kind,
                cells@ == self.order().take(i as int).filter(keep),
            decreases self.roster@.len() - i,
        {
            let pos = self.roster[i];
            proof {
                lemma_filter_next(self.order(), keep, i as int);
                assert(self.order().contains(pos));
            }
            let matches = match self.tiles.get(pos) {
                Some(tile) => tile.kind == kind,
                None => false,
            };
            if matches {
                cells.push(pos);
            }
            i = i + 1;
        }
        proof {
            assert(self.order().take(i as int) =~= self.order());
            assert forall|p: GridPosition|
                cells@.contains(p) <==> self@.contains_key(p) && self@[p].kind == kind by {
                lemma_filter_contains(self.order(), keep, p);
            }
        }
        cells
    }

    /// The tile of the given kind that comes at place `index` among all of
    /// that kind, oldest first.
    pub fn nth_of_kind(&self, kind: TileType, index: usize) -> (found: Option<&Tile>)
        requires
            self.well_formed(),
        ensures
            match found {
                Some(tile) => index < cells_of_kind(self@, self.order(), kind).len()
                    && self@.contains_key(cells_of_kind(self@, self.order(), kind)[index as int])
                    && *tile == self@[cells_of_kind(self@, self.order(), kind)[index as int]]
                    && tile.kind == kind,
                None => index >= cells_of_kind(self@, self.order(), kind).len(),
            },
    {
        let cells = self.tiles_of_kind(kind);
        if index < cells.len() {
            assert(cells@.contains(cells@[index as int]));
            self.get_tile(cells[index])
        } else {
            None
        }
    }

    /// A tile of the given kind picked by the generator, each with the same
    /// chance, or nothing if the station has no such tile.
    pub fn get_random_tile(&self, kind: TileType, rng: &mut Rand32) -> (found: Option<&Tile>)
        requires
            self.well_formed(),
        ensures
            match found {
                Some(tile) => self@.contains_key(tile.pos) && *tile == self@[tile.pos] && tile.kind
                    == kind,
                None => forall|p: GridPosition| self@.contains_key(p) ==> self@[p].kind != kind,
            },
    {
        let cells = self.tiles_of_kind(kind);
        if cells.len() == 0 {
            assert forall|p: GridPosition| self@.contains_key(p) implies self@[p].kind != kind by {
                assert(!cells@.contains(p));
            }
            return None;
        }
        let bound: u32 = if cells.len() > 0xffff_ffff {
            0xffff_ffff
        } else {
            cells.len() as u32
        };
        let index = rand_below(rng, bound) as usize;
        assert(cells@.contains(cells@[index as int]));
        self.get_tile(cells[index])
    }

    /// The cells on whose tile something counts as one of the given kinds of
    /// item, oldest first.
    pub fn find_items(&self, item_types: Vec<ItemType>) -> (cells: Vec<GridPosition>)
        requires
            self.well_formed(),
        ensures
            cells@ == cells_offering(self@, self.order(), item_types@),
            forall|p: GridPosition|
                cells@.contains(p) <==> self@.contains_key(p) && holds_any(
                    self@[p].items@,
                    item_types@,
                ),
    {
        self.cells_with(&item_types)
    }

    /// The cells on whose tile something counts as one of the given kinds of
    /// item, oldest first.
    pub fn cells_with(&self, item_types: &Vec<ItemType>) -> (cells: Vec<GridPosition>)
        requires
            self.well_formed(),
        ensures
            cells@ == cells_offering(self@, self.order(), item_types@),
            forall|p: GridPosition|
                cells@.contains(p) <==> self@.contains_key(p) && holds_any(
                    self@[p].items@,
                    item_types@,
                ),
    {
        let ghost keep = |p: GridPosition| holds_any(self@[p].items@, item_types@);
        let mut cells: Vec<GridPosition> = Vec::new();
        let mut i: usize = 0;
        proof {
            reveal(Seq::filter);
            assert(self.order().take(0).filter(keep) =~= Seq::<GridPosition>::empty());
        }
        while i < self.roster.len()
            invariant
                i <= self.roster@.len(),
                self.well_formed(),
                keep == |p: GridPosition| holds_any(self@[p].items@, item_types@),
                cells@ == self.order().take(i as int).filter(keep),
            decreases self.roster@.len() - i,
        {
            let pos = self.roster[i];
            proof {
                lemma_filter_next(self.order(), keep, i as int);
                assert(self.order().contains(pos));
            }
            let matches = match self.tiles.get(pos) {
                Some(tile) => find_offering(&tile.items, item_types) < tile.items.len(),
                None => false,
            };
            if matches {
                cells.push(pos);
            }
            i = i + 1;
        }
        proof {
            assert(self.order().take(i as int) =~= self.order());
            assert forall|p: GridPosition|
                cells@.contains(p) <==> self@.contains_key(p) && holds_any(
                    self@[p].items@,
                    item_types@,
                ) by {
                lemma_filter_contains(self.order(), keep, p);
            }
        }
        cells
    }
}

} // verus!
