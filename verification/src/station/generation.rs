use crate::item::{capacity_of, stock_of, ContainerType, Item, ItemType};
use crate::random::rand_below;
use crate::station::gridposition::{touching, GridPosition};
use crate::station::station::{
    lemma_push_contains, lemma_without_twice, step_from, with_cells, without_cells, Station,
};
use crate::station::tile::{Tile, TileType, WallDirection};
use oorandom::Rand32;
use vstd::prelude::*;

verus! {

/// Out of a hundred cells, how many start out as floor on average.
pub const FLOOR_CHANCE: u32 = 70;

/// `p` lies in the rectangle of the given width and height whose corner is
/// the origin.
pub open spec fn in_grid(p: GridPosition, width: int, height: int) -> bool {
    0 <= p.x < width && 0 <= p.y < height
}

/// A floor tile stands at `p`.
pub open spec fn is_floor(map: Map<GridPosition, Tile>, p: GridPosition) -> bool {
    map.contains_key(p) && map[p].kind == TileType::Floor
}

/// One if a floor tile stands at the coordinates, else zero. Coordinates
/// beyond the grid hold nothing.
pub open spec fn floor_at(map: Map<GridPosition, Tile>, x: int, y: int) -> int {
    if i32::MIN <= x <= i32::MAX && i32::MIN <= y <= i32::MAX && is_floor(
        map,
        GridPosition { x: x as i32, y: y as i32 },
    ) {
        1
    } else {
        0
    }
}

/// How many of the eight cells around `p` hold a floor tile.
pub open spec fn floor_neighbors(map: Map<GridPosition, Tile>, p: GridPosition) -> int {
    floor_at(map, p.x - 1, p.y - 1) + floor_at(map, p.x - 1, p.y as int) + floor_at(
        map,
        p.x - 1,
        p.y + 1,
    ) + floor_at(map, p.x as int, p.y - 1) + floor_at(map, p.x as int, p.y + 1) + floor_at(
        map,
        p.x + 1,
        p.y - 1,
    ) + floor_at(map, p.x + 1, p.y as int) + floor_at(map, p.x + 1, p.y + 1)
}

/// Smoothing takes this floor tile away: it has fewer than two floor tiles
/// around it.
pub open spec fn erodes(map: Map<GridPosition, Tile>, p: GridPosition) -> bool {
    is_floor(map, p) && floor_neighbors(map, p) < 2
}

/// Smoothing lays a floor tile on this empty cell: it has exactly three floor
/// tiles around it.
pub open spec fn fills(map: Map<GridPosition, Tile>, p: GridPosition) -> bool {
    !map.contains_key(p) && floor_neighbors(map, p) == 3
}

/// The tile at `p` is new, bare and of the given kind.
pub open spec fn is_new_tile(
    before: Map<GridPosition, Tile>,
    after: Map<GridPosition, Tile>,
    p: GridPosition,
    kind: TileType,
) -> bool {
    !before.contains_key(p) ==> after[p].pos == p && after[p].kind == kind && after[p].items@.len()
        == 0
}

/// `after` is `before` smoothed once over the grid: every cell of the grid
/// was judged by what stood around it in `before`, and nothing else changed.
pub open spec fn is_smoothed(
    before: Map<GridPosition, Tile>,
    after: Map<GridPosition, Tile>,
    width: int,
    height: int,
) -> bool {
    &&& forall|p: GridPosition| #[trigger]
        after.contains_key(p) <==> (before.contains_key(p) && !(in_grid(p, width, height)
            && erodes(before, p))) || (in_grid(p, width, height) && fills(before, p))
    &&& forall|p: GridPosition| #[trigger]
        after.contains_key(p) && before.contains_key(p) ==> after[p] == before[p]
    &&& forall|p: GridPosition| #[trigger]
        after.contains_key(p) ==> is_new_tile(before, after, p, TileType::Floor)
}

/// The empty cells that smoothing fills, in the order in which a sweep
/// comes by them until it stands at column `x`, row `y`.
pub open spec fn filled_cells(map: Map<GridPosition, Tile>, x: int, y: int, height: int) -> Seq<
    GridPosition,
>
    decreases x, y,
{
    if y > 0 {
        let cell = GridPosition { x: x as i32, y: (y - 1) as i32 };
        let earlier = filled_cells(map, x, y - 1, height);
        if fills(map, cell) {
            earlier.push(cell)
        } else {
            earlier
        }
    } else if x > 0 && height >= 0 {
        filled_cells(map, x - 1, height, height)
    } else {
        Seq::empty()
    }
}

/// The floor tiles of the grid that smoothing takes away.
pub open spec fn worn_cells(map: Map<GridPosition, Tile>, width: int, height: int) -> Set<
    GridPosition,
> {
    Set::new(|p: GridPosition| in_grid(p, width, height) && erodes(map, p))
}

/// `after`, with its tiles in the order `after_order`, is `before` smoothed
/// once over the grid. The tiles that stay keep their order; the new ones
/// follow in the order of the sweep.
pub open spec fn smoothed_to(
    before: Map<GridPosition, Tile>,
    before_order: Seq<GridPosition>,
    after: Map<GridPosition, Tile>,
    after_order: Seq<GridPosition>,
    width: int,
    height: int,
) -> bool {
    &&& is_smoothed(before, after, width, height)
    &&& after_order == with_cells(
        without_cells(before_order, worn_cells(before, width, height)),
        filled_cells(before, width, 0, height),
    )
}

/// Cells of the grid that a sweep has passed when it stands at column `x`,
/// row `y`: all of the columns before `x`, and the rows before `y` of column
/// `x`.
pub open spec fn swept(p: GridPosition, x: int, y: int, width: int, height: int) -> bool {
    in_grid(p, width, height) && (p.x < x || (p.x == x && p.y < y))
}

impl Station {
    /// Lays a floor tile on the cell if the roll of the hundred-sided die
    /// says so.
    pub fn seed_cell(&mut self, pos: GridPosition, roll: u32)
        requires
            old(self).well_formed(),
        ensures
            final(self).well_formed(),
            final(self).order() == if roll < FLOOR_CHANCE && !old(self)@.contains_key(pos) {
                old(self).order().push(pos)
            } else {
                old(self).order()
            },
            roll >= FLOOR_CHANCE ==> final(self)@ == old(self)@,
            roll < FLOOR_CHANCE ==> final(self)@.dom() == old(self)@.dom().insert(pos)
                && final(self)@[pos].pos == pos && final(self)@[pos].kind == TileType::Floor
                && final(self)@[pos].items@.len() == 0 && forall|p: GridPosition|
                p != pos && old(self)@.contains_key(p) ==> final(self)@[p] == old(self)@[p],
    {
        if roll < FLOOR_CHANCE {
            self.add_tile(Tile::new(pos, TileType::Floor));
            assert(self@.dom() =~= old(self)@.dom().insert(pos));
        }
    }

    fn floor_toward(&self, pos: GridPosition, dx: i64, dy: i64) -> (n: u8)
        requires
            -1 <= dx <= 1,
            -1 <= dy <= 1,
        ensures
            n == floor_at(self@, pos.x + dx, pos.y + dy),
            n <= 1,
    {
        let x: i64 = pos.x as i64 + dx;
        let y: i64 = pos.y as i64 + dy;
        if x < -0x8000_0000 || x > 0x7fff_ffff || y < -0x8000_0000 || y > 0x7fff_ffff {
            return 0;
        }
        match self.get_tile(GridPosition::new(x as i32, y as i32)) {
            Some(tile) => if tile.kind == TileType::Floor {
                1
            } else {
                0
            },
            None => 0,
        }
    }

    /// Counts the floor tiles on the eight cells around a cell.
    pub fn count_floor_neighbors(&self, pos: GridPosition) -> (n: u8)
        ensures
            n == floor_neighbors(self@, pos),
    {
        let mut n: u8 = self.floor_toward(pos, -1, -1);
        n = n + self.floor_toward(pos, -1, 0);
        n = n + self.floor_toward(pos, -1, 1);
        n = n + self.floor_toward(pos, 0, -1);
        n = n + self.floor_toward(pos, 0, 1);
        n = n + self.floor_toward(pos, 1, -1);
        n = n + self.floor_toward(pos, 1, 0);
        n = n + self.floor_toward(pos, 1, 1);
        n
    }
}

/// `q` has a floor tile on one of the eight cells around it, among the first
/// `upto` cells of `order`.
pub open spec fn borders_floor(
    map: Map<GridPosition, Tile>,
    order: Seq<GridPosition>,
    upto: int,
    q: GridPosition,
) -> bool {
    exists|j: int| 0 <= j < upto && is_floor(map, #[trigger] order[j]) && touching(order[j], q)
}

/// `q` holds no tile but has a floor tile on one of the eight cells around
/// it: the station is open there.
pub open spec fn is_gap(map: Map<GridPosition, Tile>, q: GridPosition) -> bool {
    !map.contains_key(q) && exists|p: GridPosition| #[trigger] is_floor(map, p) && touching(p, q)
}

/// `after` is `before` with a bare tile of the given kind on each of the
/// `cells` that held nothing.
pub open spec fn is_laid(
    before: Map<GridPosition, Tile>,
    after: Map<GridPosition, Tile>,
    cells: Set<GridPosition>,
    kind: TileType,
) -> bool {
    &&& forall|p: GridPosition| #[trigger]
        after.contains_key(p) <==> before.contains_key(p) || cells.contains(p)
    &&& forall|p: GridPosition| #[trigger]
        before.contains_key(p) ==> after[p] == before[p]
    &&& forall|p: GridPosition| #[trigger]
        after.contains_key(p) ==> is_new_tile(before, after, p, kind)
}

/// No floor tile borders on an empty cell.
pub open spec fn is_enclosed(map: Map<GridPosition, Tile>) -> bool {
    forall|p: GridPosition, q: GridPosition|
        is_floor(map, p) && #[trigger] touching(p, q) ==> map.contains_key(q)
}

impl Station {
    /// Takes away the tiles on the listed cells.
    fn clear_cells(&mut self, cells: &Vec<GridPosition>)
        requires
            old(self).well_formed(),
        ensures
            final(self).well_formed(),
            forall|p: GridPosition| #[trigger]
                final(self)@.contains_key(p) <==> old(self)@.contains_key(p) && !cells@.contains(p),
            forall|p: GridPosition| #[trigger]
                final(self)@.contains_key(p) ==> final(self)@[p] == old(self)@[p],
            final(self).order() == without_cells(old(self).order(), cells@.to_set()),
    {
        let mut k: usize = 0;
        proof {
            assert(cells@.take(0) =~= Seq::<GridPosition>::empty());
            assert(cells@.take(0).to_set() =~= Set::<GridPosition>::empty());
            crate::station::station::lemma_without_strangers(
                self.order(),
                Set::<GridPosition>::empty(),
            );
        }
        while k < cells.len()
            invariant
                k <= cells@.len(),
                self.well_formed(),
                forall|p: GridPosition| #[trigger]
                    self@.contains_key(p) <==> old(self)@.contains_key(p) && !cells@.take(
                        k as int,
                    ).contains(p),
                forall|p: GridPosition| #[trigger]
                    self@.contains_key(p) ==> self@[p] == old(self)@[p],
                self.order() == without_cells(old(self).order(), cells@.take(k as int).to_set()),
            decreases cells@.len() - k,
        {
            let ghost done = cells@.take(k as int);
            assert(cells@.take(k + 1) =~= done.push(cells@[k as int]));
            proof {
                assert forall|p: GridPosition|
                    done.push(cells@[k as int]).contains(p) <==> done.contains(p) || p
                        == cells@[k as int] by {
                    lemma_push_contains(done, p);
                }
                lemma_without_twice(old(self).order(), done.to_set(), set![cells@[k as int]]);
                assert(done.push(cells@[k as int]).to_set() =~= done.to_set().union(
                    set![cells@[k as int]],
                ));
            }
            self.remove_tile(cells[k]);
            k = k + 1;
        }
        assert(cells@.take(k as int) =~= cells@);
    }

    /// Lays a bare tile of the given kind on each listed cell that holds no
    /// tile yet.
    fn lay_tiles(&mut self, cells: &Vec<GridPosition>, kind: TileType)
        requires
            old(self).well_formed(),
        ensures
            final(self).well_formed(),
            is_laid(old(self)@, final(self)@, cells@.to_set(), kind),
            final(self).order() == with_cells(old(self).order(), cells@),
    {
        let mut k: usize = 0;
        assert(cells@.take(0) =~= Seq::<GridPosition>::empty());
        while k < cells.len()
            invariant
                k <= cells@.len(),
                self.well_formed(),
                self.order() == with_cells(old(self).order(), cells@.take(k as int)),
                forall|p: GridPosition| #[trigger]
                    self@.contains_key(p) <==> old(self)@.contains_key(p) || cells@.take(
                        k as int,
                    ).contains(p),
                forall|p: GridPosition| #[trigger]
                    old(self)@.contains_key(p) ==> self@[p] == old(self)@[p],
                forall|p: GridPosition| #[trigger]
                    self@.contains_key(p) ==> is_new_tile(old(self)@, self@, p, kind),
            decreases cells@.len() - k,
        {
            let ghost done = cells@.take(k as int);
            assert(cells@.take(k + 1) =~= done.push(cells@[k as int]));
            proof {
                assert forall|p: GridPosition|
                    done.push(cells@[k as int]).contains(p) <==> done.contains(p) || p
                        == cells@[k as int] by {
                    lemma_push_contains(done, p);
                }
            }
            assert(cells@.take(k + 1).drop_last() =~= done);
            if !self.has_tile(cells[k]) {
                self.add_tile(Tile::new(cells[k], kind));
            }
            k = k + 1;
        }
        assert(cells@.take(k as int) =~= cells@);
    }

    /// Smooths the floor plan once over the grid of the given size: a floor
    /// tile with fewer than two floor tiles around it goes, an empty cell
    /// with exactly three floor tiles around it becomes floor. Every cell is
    /// judged by the plan as it was before the sweep.
    pub fn smooth(&mut self, width: usize, height: usize)
        requires
            old(self).well_formed(),
            width <= i32::MAX,
            height <= i32::MAX,
        ensures
            final(self).well_formed(),
            smoothed_to(
                old(self)@,
                old(self).order(),
                final(self)@,
                final(self).order(),
                width as int,
                height as int,
            ),
    {
        let mut worn: Vec<GridPosition> = Vec::new();
        let mut filled: Vec<GridPosition> = Vec::new();
        let w: i32 = width as i32;
        let h: i32 = height as i32;
        let mut x: i32 = 0;
        while x < w
            invariant
                0 <= x <= w,
                0 <= h,
                w == width,
                h == height,
                forall|p: GridPosition|
                    worn@.contains(p) <==> swept(p, x as int, 0, w as int, h as int) && erodes(
                        self@,
                        p,
                    ),
                forall|p: GridPosition|
                    filled@.contains(p) <==> swept(p, x as int, 0, w as int, h as int) && fills(
                        self@,
                        p,
                    ),
                filled@ == filled_cells(self@, x as int, 0, h as int),
            decreases w - x,
        {
            let mut y: i32 = 0;
            while y < h
                invariant
                    0 <= x < w,
                    0 <= y <= h,
                    forall|p: GridPosition|
                        worn@.contains(p) <==> swept(p, x as int, y as int, w as int, h as int)
                            && erodes(self@, p),
                    forall|p: GridPosition|
                        filled@.contains(p) <==> swept(p, x as int, y as int, w as int, h as int)
                            && fills(self@, p),
                    filled@ == filled_cells(self@, x as int, y as int, h as int),
                decreases h - y,
            {
                let pos = GridPosition::new(x, y);
                let around = self.count_floor_neighbors(pos);
                let ghost worn_before = worn@;
                let ghost filled_before = filled@;
                match self.get_tile(pos) {
                    Some(tile) => {
                        if tile.kind == TileType::Floor && around < 2 {
                            worn.push(pos);
                        }
                    },
                    None => {
                        if around == 3 {
                            filled.push(pos);
                        }
                    },
                }
                proof {
                    assert forall|p: GridPosition|
                        worn@.contains(p) <==> swept(p, x as int, y + 1, w as int, h as int)
                            && erodes(self@, p) by {
                        lemma_push_contains(worn_before, p);
                    }
                    assert forall|p: GridPosition|
                        filled@.contains(p) <==> swept(p, x as int, y + 1, w as int, h as int)
                            && fills(self@, p) by {
                        lemma_push_contains(filled_before, p);
                    }
                }
                y = y + 1;
            }
            x = x + 1;
        }
        proof {
            assert(worn@.to_set() =~= worn_cells(self@, width as int, height as int));
        }
        self.clear_cells(&worn);
        let ghost cleared = self@;
        self.lay_tiles(&filled, TileType::Floor);
        proof {
            let before = old(self)@;
            let after = self@;
            assert forall|p: GridPosition| #[trigger]
                after.contains_key(p) <==> (before.contains_key(p) && !(in_grid(
                    p,
                    width as int,
                    height as int,
                ) && erodes(before, p))) || (in_grid(p, width as int, height as int) && fills(
                    before,
                    p,
                )) by {
                assert(cleared.contains_key(p) <==> before.contains_key(p) && !worn@.contains(p));
                assert(after.contains_key(p) <==> cleared.contains_key(p) || filled@.to_set().contains(
                    p,
                ));
            }
            assert forall|p: GridPosition| #[trigger]
                after.contains_key(p) && before.contains_key(p) implies after[p] == before[p] by {
                assert(!filled@.contains(p));
                assert(cleared.contains_key(p));
            }
            assert forall|p: GridPosition| #[trigger] after.contains_key(p) implies is_new_tile(
                before,
                after,
                p,
                TileType::Floor,
            ) by {
                if !before.contains_key(p) {
                    assert(!cleared.contains_key(p));
                    assert(is_new_tile(cleared, after, p, TileType::Floor));
                }
            }
        }
    }
}

/// The eight steps from a cell to the cells around it, column by column.
pub open spec fn around_offsets() -> Seq<(int, int)> {
    seq![(-1, -1), (-1, 0), (-1, 1), (0, -1), (0, 1), (1, -1), (1, 0), (1, 1)]
}

fn around_offset(turn: usize) -> (offset: (i64, i64))
    requires
        turn < 8,
    ensures
        -1 <= offset.0 <= 1,
        -1 <= offset.1 <= 1,
        around_offsets()[turn as int] == (offset.0 as int, offset.1 as int),
{
    if turn == 0 {
        (-1, -1)
    } else if turn == 1 {
        (-1, 0)
    } else if turn == 2 {
        (-1, 1)
    } else if turn == 3 {
        (0, -1)
    } else if turn == 4 {
        (0, 1)
    } else if turn == 5 {
        (1, -1)
    } else if turn == 6 {
        (1, 0)
    } else {
        (1, 1)
    }
}

/// The empty cells among the first `count` of the eight around `p`.
pub open spec fn gaps_within(map: Map<GridPosition, Tile>, p: GridPosition, count: int) -> Seq<
    GridPosition,
>
    decreases count,
{
    if count <= 0 {
        Seq::empty()
    } else {
        let earlier = gaps_within(map, p, count - 1);
        match step_from(p, around_offsets()[count - 1]) {
            Some(q) => if map.contains_key(q) {
                earlier
            } else {
                earlier.push(q)
            },
            None => earlier,
        }
    }
}

/// The empty cells among the eight around `p`.
pub open spec fn gaps_around(map: Map<GridPosition, Tile>, p: GridPosition) -> Seq<GridPosition> {
    gaps_within(map, p, 8)
}

/// The empty cells around the floor tiles among the first `upto` cells of
/// `order`, tile by tile. A cell next to several floor tiles comes up more
/// than once.
pub open spec fn rim_cells(map: Map<GridPosition, Tile>, order: Seq<GridPosition>, upto: int) -> Seq<
    GridPosition,
>
    decreases upto,
{
    if upto <= 0 {
        Seq::empty()
    } else {
        let earlier = rim_cells(map, order, upto - 1);
        if is_floor(map, order[upto - 1]) {
            earlier + gaps_around(map, order[upto - 1])
        } else {
            earlier
        }
    }
}

/// `after`, with its tiles in the order `after_order`, is `before` walled
/// in: a full wall stands on every cell that was open, and the walls follow
/// the old tiles in the order in which the floor tiles came to need them.
pub open spec fn walled_to(
    before: Map<GridPosition, Tile>,
    before_order: Seq<GridPosition>,
    after: Map<GridPosition, Tile>,
    after_order: Seq<GridPosition>,
) -> bool {
    &&& is_laid(
        before,
        after,
        Set::new(|q: GridPosition| is_gap(before, q)),
        TileType::Wall(WallDirection::Full),
    )
    &&& after_order == with_cells(
        before_order,
        rim_cells(before, before_order, before_order.len() as int),
    )
}

/// A cell is one of the eight around another exactly if one of the eight
/// steps leads to it.
pub proof fn lemma_touching_is_a_step(p: GridPosition, q: GridPosition)
    ensures
        touching(p, q) <==> exists|k: int|
            0 <= k < 8 && step_from(p, #[trigger] around_offsets()[k]) == Some(q),
{
    let d = around_offsets();
    if touching(p, q) {
        let dx = q.x - p.x;
        let dy = q.y - p.y;
        let k: int = if dx == -1 {
            dy + 1
        } else if dx == 0 {
            if dy == -1 {
                3
            } else {
                4
            }
        } else {
            dy + 6
        };
        assert(step_from(p, d[k]) == Some(q));
    }
    if exists|k: int| 0 <= k < 8 && step_from(p, #[trigger] d[k]) == Some(q) {
        let k = choose|k: int| 0 <= k < 8 && step_from(p, #[trigger] d[k]) == Some(q);
        assert(k == 0 || k == 1 || k == 2 || k == 3 || k == 4 || k == 5 || k == 6 || k == 7);
    }
}

/// The gaps noted around a cell so far are the empty cells that the steps
/// taken so far lead to.
pub proof fn lemma_gaps_within(
    map: Map<GridPosition, Tile>,
    p: GridPosition,
    count: int,
    q: GridPosition,
)
    requires
        0 <= count <= 8,
    ensures
        gaps_within(map, p, count).contains(q) <==> !map.contains_key(q) && exists|k: int|
            0 <= k < count && step_from(p, #[trigger] around_offsets()[k]) == Some(q),
    decreases count,
{
    if count > 0 {
        lemma_gaps_within(map, p, count - 1, q);
        let earlier = gaps_within(map, p, count - 1);
        lemma_push_contains(earlier, q);
        let here = step_from(p, around_offsets()[count - 1]);
        if exists|k: int| 0 <= k < count && step_from(p, #[trigger] around_offsets()[k]) == Some(q) {
            let k = choose|k: int|
                0 <= k < count && step_from(p, #[trigger] around_offsets()[k]) == Some(q);
            if k < count - 1 {
                assert(exists|k: int|
                    0 <= k < count - 1 && step_from(p, #[trigger] around_offsets()[k]) == Some(q));
            }
        }
    }
}

/// The gaps around a cell are the empty cells among the eight around it.
pub proof fn lemma_gaps_around(map: Map<GridPosition, Tile>, p: GridPosition, q: GridPosition)
    ensures
        gaps_around(map, p).contains(q) <==> touching(p, q) && !map.contains_key(q),
{
    lemma_gaps_within(map, p, 8, q);
    lemma_touching_is_a_step(p, q);
}

/// The cells noted as the rim of the station are the empty cells that
/// border on floor.
pub proof fn lemma_rim_cells(
    map: Map<GridPosition, Tile>,
    order: Seq<GridPosition>,
    upto: int,
    q: GridPosition,
)
    requires
        0 <= upto <= order.len(),
    ensures
        rim_cells(map, order, upto).contains(q) <==> !map.contains_key(q) && borders_floor(
            map,
            order,
            upto,
            q,
        ),
    decreases upto,
{
    if upto > 0 {
        lemma_rim_cells(map, order, upto - 1, q);
        let earlier = rim_cells(map, order, upto - 1);
        let p = order[upto - 1];
        let around = gaps_around(map, p);
        lemma_gaps_around(map, p, q);
        if is_floor(map, p) {
            let all = earlier + around;
            if earlier.contains(q) {
                let i = choose|i: int| 0 <= i < earlier.len() && earlier[i] == q;
                assert(all[i] == q);
            }
            if around.contains(q) {
                let i = choose|i: int| 0 <= i < around.len() && around[i] == q;
                assert(all[earlier.len() + i] == q);
            }
            if all.contains(q) {
                let i = choose|i: int| 0 <= i < all.len() && all[i] == q;
                if i < earlier.len() {
                    assert(earlier[i] == q);
                } else {
                    assert(around[i - earlier.len()] == q);
                }
            }
        }
        if borders_floor(map, order, upto, q) {
            let j = choose|j: int|
                0 <= j < upto && is_floor(map, #[trigger] order[j]) && touching(order[j], q);
            if j < upto - 1 {
                assert(borders_floor(map, order, upto - 1, q));
            }
        }
        if borders_floor(map, order, upto - 1, q) {
            let j = choose|j: int|
                0 <= j < upto - 1 && is_floor(map, #[trigger] order[j]) && touching(order[j], q);
            assert(borders_floor(map, order, upto, q));
        }
        if is_floor(map, p) && touching(p, q) {
            assert(borders_floor(map, order, upto, q));
        }
    }
}

/// Place in `order` of the first cell that holds a floor tile, or the length
/// of `order` if none does.
pub open spec fn first_floor(map: Map<GridPosition, Tile>, order: Seq<GridPosition>) -> int
    decreases order.len(),
{
    if order.len() == 0 {
        0
    } else if is_floor(map, order[0]) {
        0
    } else {
        1 + first_floor(map, order.skip(1))
    }
}

/// `first_floor` gives the least place of a floor tile.
pub proof fn lemma_first_floor(map: Map<GridPosition, Tile>, order: Seq<GridPosition>)
    ensures
        0 <= first_floor(map, order) <= order.len(),
        first_floor(map, order) < order.len() ==> is_floor(map, order[first_floor(map, order)]),
        forall|k: int| 0 <= k < first_floor(map, order) ==> !is_floor(map, #[trigger] order[k]),
    decreases order.len(),
{
    if order.len() > 0 && !is_floor(map, order[0]) {
        let rest = order.skip(1);
        lemma_first_floor(map, rest);
        assert forall|k: int| 0 <= k < first_floor(map, order) implies !is_floor(
            map,
            #[trigger] order[k],
        ) by {
            if k > 0 {
                assert(order[k] == rest[k - 1]);
            }
        }
    }
}

/// `item` is a fridge as it comes new: full, energy bars and water bottles
/// in turn.
pub open spec fn is_stocked_fridge(item: Item, pos: GridPosition) -> bool {
    let kind = ItemType::Container(ContainerType::Fridge);
    &&& item.kind() == kind
    &&& item.position() == pos
    &&& item.capacity() == capacity_of(kind)
    &&& item.contents().len() == stock_of(kind).len()
    &&& forall|i: int|
        0 <= i < item.contents().len() ==> (#[trigger] item.contents()[i]).kind() == stock_of(
            kind,
        )[i]
}

/// What is true of every station that generation turns out, whatever the
/// dice said: no floor borders on an empty cell, floor lies only inside the
/// grid, everything else is full wall that borders on floor, and the only
/// thing lying around is one stocked fridge on the oldest floor tile.
pub open spec fn is_generated(
    map: Map<GridPosition, Tile>,
    order: Seq<GridPosition>,
    width: int,
    height: int,
) -> bool {
    &&& is_enclosed(map)
    &&& forall|p: GridPosition| #[trigger]
        map.contains_key(p) ==> map[p].pos == p && (map[p].kind == TileType::Floor || map[p].kind
            == TileType::Wall(WallDirection::Full))
    &&& forall|p: GridPosition| #[trigger] is_floor(map, p) ==> in_grid(p, width, height)
    &&& forall|p: GridPosition| #[trigger]
        map.contains_key(p) && !is_floor(map, p) ==> exists|f: GridPosition| #[trigger]
            is_floor(map, f) && touching(f, p)
    &&& forall|p: GridPosition| #[trigger]
        map.contains_key(p) ==> {
            if first_floor(map, order) < order.len() && p == order[first_floor(map, order)] {
                map[p].items@.len() == 1 && is_stocked_fridge(map[p].items@[0], p)
            } else {
                map[p].items@.len() == 0
            }
        }
}

/// `after` is `before` furnished: a stocked fridge lies on the oldest floor
/// tile, after what lay there already, and nothing else has changed. Without
/// floor nothing changes at all.
pub open spec fn furnished_to(
    before: Map<GridPosition, Tile>,
    order: Seq<GridPosition>,
    after: Map<GridPosition, Tile>,
) -> bool {
    &&& after.dom() == before.dom()
    &&& first_floor(before, order) >= order.len() ==> after == before
    &&& first_floor(before, order) < order.len() ==> {
        let pos = order[first_floor(before, order)];
        &&& forall|p: GridPosition| p != pos && before.contains_key(p) ==> after[p] == before[p]
        &&& after[pos].pos == pos
        &&& after[pos].kind == TileType::Floor
        &&& after[pos].items@.len() == before[pos].items@.len() + 1
        &&& after[pos].items@.drop_last() == before[pos].items@
        &&& is_stocked_fridge(after[pos].items@.last(), pos)
    }
}

/// `map`, with its tiles in the order `order`, is what becomes of the floor
/// plan `plan`: smoothed twice, walled in and furnished.
pub open spec fn completed_to(
    plan: Map<GridPosition, Tile>,
    plan_order: Seq<GridPosition>,
    map: Map<GridPosition, Tile>,
    order: Seq<GridPosition>,
    width: int,
    height: int,
) -> bool {
    exists|
        once: Map<GridPosition, Tile>,
        once_order: Seq<GridPosition>,
        twice: Map<GridPosition, Tile>,
        twice_order: Seq<GridPosition>,
        walled: Map<GridPosition, Tile>,
    |
        #![trigger
            smoothed_to(once, once_order, twice, twice_order, width, height),
            walled_to(twice, twice_order, walled, order),
        ]
        {
            &&& smoothed_to(plan, plan_order, once, once_order, width, height)
            &&& smoothed_to(once, once_order, twice, twice_order, width, height)
            &&& walled_to(twice, twice_order, walled, order)
            &&& furnished_to(walled, order, map)
        }
}

/// A sweep over the grid, column by column, comes by `a` before `b`.
pub open spec fn comes_before(a: GridPosition, b: GridPosition) -> bool {
    a.x < b.x || (a.x == b.x && a.y < b.y)
}

/// The cells are listed as a sweep over the grid comes by them.
pub open spec fn is_swept_order(order: Seq<GridPosition>) -> bool {
    forall|i: int, j: int| 0 <= i < j < order.len() ==> comes_before(order[i], order[j])
}

/// Every tile is bare floor inside the grid.
pub open spec fn is_floor_plan(map: Map<GridPosition, Tile>, width: int, height: int) -> bool {
    forall|p: GridPosition| #[trigger]
        map.contains_key(p) ==> in_grid(p, width, height) && map[p].kind == TileType::Floor
            && map[p].items@.len() == 0
}

impl Station {
    /// Notes every empty cell among the eight around `pos`.
    fn note_gaps_around(&self, pos: GridPosition, rim: &mut Vec<GridPosition>)
        ensures
            final(rim)@ == old(rim)@ + gaps_around(self@, pos),
    {
        let mut turn: usize = 0;
        assert(rim@ =~= old(rim)@ + gaps_within(self@, pos, 0));
        while turn < 8
            invariant
                turn <= 8,
                rim@ == old(rim)@ + gaps_within(self@, pos, turn as int),
            decreases 8 - turn,
        {
            let offset = around_offset(turn);
            let x: i64 = pos.x as i64 + offset.0;
            let y: i64 = pos.y as i64 + offset.1;
            let ghost earlier = gaps_within(self@, pos, turn as int);
            if x >= -0x8000_0000 && x <= 0x7fff_ffff && y >= -0x8000_0000 && y <= 0x7fff_ffff {
                let cell = GridPosition::new(x as i32, y as i32);
                assert(step_from(pos, around_offsets()[turn as int]) == Some(cell));
                if !self.has_tile(cell) {
                    rim.push(cell);
                    assert(rim@ =~= old(rim)@ + earlier.push(cell));
                }
            } else {
                assert(step_from(pos, around_offsets()[turn as int]) is None);
            }
            turn = turn + 1;
        }
    }

    /// The look of the walls that close the station off around the floor
    /// tile at the position. Generated walls are all drawn full.
    pub fn get_wall_direction(&self, pos: GridPosition) -> (direction: WallDirection)
        ensures
            direction == WallDirection::Full,
    {
        WallDirection::Full
    }

    /// Closes the station off: every empty cell among the eight around a
    /// floor tile gets a wall.
    pub fn place_walls(&mut self)
        requires
            old(self).well_formed(),
        ensures
            final(self).well_formed(),
            walled_to(old(self)@, old(self).order(), final(self)@, final(self).order()),
            is_enclosed(final(self)@),
    {
        let mut rim: Vec<GridPosition> = Vec::new();
        let mut direction = WallDirection::Full;
        let mut i: usize = 0;
        let count = self.positions().len();
        while i < count
            invariant
                i <= count,
                direction == WallDirection::Full,
                count == self.order().len(),
                self.well_formed(),
                rim@ == rim_cells(self@, self.order(), i as int),
            decreases count - i,
        {
            let pos = self.positions()[i];
            assert(self.order().contains(pos));
            let is_floor_here = match self.get_tile(pos) {
                Some(tile) => tile.kind == TileType::Floor,
                None => false,
            };
            if is_floor_here {
                direction = self.get_wall_direction(pos);
                self.note_gaps_around(pos, &mut rim);
            }
            i = i + 1;
        }
        proof {
            let map = self@;
            let order = self.order();
            assert forall|q: GridPosition| rim@.to_set().contains(q) <==> is_gap(map, q) by {
                lemma_rim_cells(map, order, count as int, q);
                if is_gap(map, q) {
                    let p = choose|p: GridPosition| #[trigger] is_floor(map, p) && touching(p, q);
                    assert(order.contains(p));
                    let j = choose|j: int| 0 <= j < order.len() && order[j] == p;
                    assert(borders_floor(map, order, count as int, q));
                }
            }
            assert(rim@.to_set() =~= Set::new(|q: GridPosition| is_gap(map, q)));
        }
        self.lay_tiles(&rim, TileType::Wall(direction));
        proof {
            let before = old(self)@;
            let after = self@;
            assert forall|p: GridPosition, q: GridPosition|
                is_floor(after, p) && #[trigger] touching(p, q) implies after.contains_key(q) by {
                assert(after.contains_key(p));
                assert(is_new_tile(before, after, p, TileType::Wall(WallDirection::Full)));
                assert(is_floor(before, p));
                if !before.contains_key(q) {
                    assert(is_gap(before, q));
                }
            }
        }
    }
}

/// Smoothing a floor plan gives a floor plan.
pub proof fn lemma_smoothed_plan(
    before: Map<GridPosition, Tile>,
    after: Map<GridPosition, Tile>,
    width: int,
    height: int,
)
    requires
        is_floor_plan(before, width, height),
        is_smoothed(before, after, width, height),
    ensures
        is_floor_plan(after, width, height),
{
    assert forall|p: GridPosition| #[trigger] after.contains_key(p) implies in_grid(
        p,
        width,
        height,
    ) && after[p].kind == TileType::Floor && after[p].items@.len() == 0 by {
        assert(is_new_tile(before, after, p, TileType::Floor));
        if before.contains_key(p) {
            assert(after[p] == before[p]);
        }
    }
}

/// A floor plan walled in and furnished is a station as generation turns
/// them out.
pub proof fn lemma_generated(
    plan: Map<GridPosition, Tile>,
    walled: Map<GridPosition, Tile>,
    map: Map<GridPosition, Tile>,
    order: Seq<GridPosition>,
    width: int,
    height: int,
)
    requires
        is_floor_plan(plan, width, height),
        forall|p: GridPosition| #[trigger] plan.contains_key(p) ==> plan[p].pos == p,
        is_laid(
            plan,
            walled,
            Set::new(|q: GridPosition| is_gap(plan, q)),
            TileType::Wall(WallDirection::Full),
        ),
        furnished_to(walled, order, map),
    ensures
        is_generated(map, order, width, height),
{
    assert forall|p: GridPosition| #[trigger] walled.contains_key(p) implies walled[p].pos == p
        && walled[p].items@.len() == 0 && (if plan.contains_key(p) {
        walled[p].kind == TileType::Floor && in_grid(p, width, height)
    } else {
        walled[p].kind == TileType::Wall(WallDirection::Full) && is_gap(plan, p)
    }) by {
        assert(is_new_tile(plan, walled, p, TileType::Wall(WallDirection::Full)));
        if plan.contains_key(p) {
            assert(walled[p] == plan[p]);
        }
    }
    assert forall|p: GridPosition| is_floor(plan, p) implies is_floor(walled, p) by {
        assert(walled[p] == plan[p]);
    }
    lemma_first_floor(walled, order);
    assert forall|p: GridPosition| is_floor(walled, p) == is_floor(map, p) by {
        if walled.contains_key(p) {
            assert(map.contains_key(p));
        }
        if map.contains_key(p) {
            assert(walled.contains_key(p));
        }
    }
    lemma_first_floor_same(walled, map, order);
    assert forall|p: GridPosition| #[trigger] map.contains_key(p) && !is_floor(
        map,
        p,
    ) implies exists|f: GridPosition| #[trigger] is_floor(map, f) && touching(f, p) by {
        assert(walled.contains_key(p));
        assert(is_gap(plan, p));
        let f = choose|f: GridPosition| #[trigger] is_floor(plan, f) && touching(f, p);
        assert(is_floor(walled, f));
        assert(is_floor(map, f));
    }
    assert forall|p: GridPosition, q: GridPosition|
        is_floor(map, p) && #[trigger] touching(p, q) implies map.contains_key(q) by {
        assert(is_floor(walled, p));
        assert(walled.contains_key(p));
        assert(plan.contains_key(p));
        assert(walled[p] == plan[p]);
        assert(is_floor(plan, p));
        if !plan.contains_key(q) {
            assert(is_gap(plan, q));
        }
        assert(walled.contains_key(q));
    }
    assert forall|p: GridPosition| #[trigger] map.contains_key(p) implies map[p].pos == p && (
    map[p].kind == TileType::Floor || map[p].kind == TileType::Wall(WallDirection::Full)) by {
        assert(walled.contains_key(p));
    }
    assert forall|p: GridPosition| #[trigger] is_floor(map, p) implies in_grid(
        p,
        width,
        height,
    ) by {
        assert(is_floor(walled, p));
        assert(walled.contains_key(p));
    }
    assert forall|p: GridPosition| #[trigger] map.contains_key(p) implies {
        if first_floor(map, order) < order.len() && p == order[first_floor(map, order)] {
            map[p].items@.len() == 1 && is_stocked_fridge(map[p].items@[0], p)
        } else {
            map[p].items@.len() == 0
        }
    } by {
        assert(walled.contains_key(p));
    }
}

/// Which cell is the oldest floor tile depends only on where floor lies.
pub proof fn lemma_first_floor_same(
    a: Map<GridPosition, Tile>,
    b: Map<GridPosition, Tile>,
    order: Seq<GridPosition>,
)
    requires
        forall|p: GridPosition| is_floor(a, p) == is_floor(b, p),
    ensures
        first_floor(a, order) == first_floor(b, order),
    decreases order.len(),
{
    if order.len() > 0 {
        lemma_first_floor_same(a, b, order.skip(1));
    }
}

impl Station {
    /// Rolls the die once for every cell of the grid, column by column, and
    /// lays floor on the empty site where it says so.
    pub fn seed_floor(&mut self, width: usize, height: usize, rng: &mut Rand32)
        requires
            old(self).well_formed(),
            old(self)@ == Map::<GridPosition, Tile>::empty(),
            width <= i32::MAX,
            height <= i32::MAX,
        ensures
            final(self).well_formed(),
            is_floor_plan(final(self)@, width as int, height as int),
            is_swept_order(final(self).order()),
    {
        let w: i32 = width as i32;
        let h: i32 = height as i32;
        let mut x: i32 = 0;
        assert(self.order().len() == 0) by {
            if self.order().len() > 0 {
                assert(self.order().contains(self.order()[0]));
            }
        }
        while x < w
            invariant
                0 <= x <= w,
                0 <= h,
                w == width,
                h == height,
                self.well_formed(),
                is_floor_plan(self@, width as int, height as int),
                is_swept_order(self.order()),
                forall|p: GridPosition| #[trigger] self@.contains_key(p) ==> p.x < x,
            decreases w - x,
        {
            let mut y: i32 = 0;
            while y < h
                invariant
                    0 <= x < w,
                    0 <= y <= h,
                    w == width,
                    h == height,
                    self.well_formed(),
                    is_floor_plan(self@, width as int, height as int),
                    is_swept_order(self.order()),
                    forall|p: GridPosition| #[trigger]
                        self@.contains_key(p) ==> p.x < x || (p.x == x && p.y < y),
                decreases h - y,
            {
                let roll = rand_below(rng, 100);
                let ghost before = self.order();
                let cell = GridPosition::new(x, y);
                self.seed_cell(cell, roll);
                proof {
                    if roll < FLOOR_CHANCE {
                        assert forall|i: int, j: int|
                            0 <= i < j < self.order().len() implies comes_before(
                            self.order()[i],
                            self.order()[j],
                        ) by {
                            assert(before.contains(before[i]));
                            if j < before.len() {
                                assert(comes_before(before[i], before[j]));
                            }
                        }
                    }
                }
                y = y + 1;
            }
            x = x + 1;
        }
    }

    /// Puts a stocked fridge on the oldest floor tile, if the station has any
    /// floor.
    pub fn furnish(&mut self)
        requires
            old(self).well_formed(),
        ensures
            final(self).well_formed(),
            final(self).order() == old(self).order(),
            furnished_to(old(self)@, old(self).order(), final(self)@),
    {
        proof {
            lemma_first_floor(self@, self.order());
        }
        let mut i: usize = 0;
        assert(self.order().skip(0) =~= self.order());
        while i < self.positions().len()
            invariant
                i <= self.order().len(),
                self.well_formed(),
                self@ == old(self)@,
                self.order() == old(self).order(),
                first_floor(self@, self.order()) == i + first_floor(
                    self@,
                    self.order().skip(i as int),
                ),
            decreases self.order().len() - i,
        {
            let pos = self.positions()[i];
            assert(self.order().skip(i as int).skip(1) =~= self.order().skip(i + 1));
            assert(self.order().contains(pos));
            let is_floor_here = match self.get_tile(pos) {
                Some(tile) => tile.kind == TileType::Floor,
                None => false,
            };
            if is_floor_here {
                let fridge = Item::new(pos, ItemType::Container(ContainerType::Fridge));
                self.place_item(pos, fridge);
                assert(self@[pos].items@.drop_last() =~= old(self)@[pos].items@);
                return ;
            }
            i = i + 1;
        }
        assert(self@ =~= old(self)@);
    }

    /// Makes a station of a floor plan: smooths it twice, walls it in and
    /// furnishes it.
    pub fn complete(&mut self, width: usize, height: usize)
        requires
            old(self).well_formed(),
            width <= i32::MAX,
            height <= i32::MAX,
        ensures
            final(self).well_formed(),
            completed_to(
                old(self)@,
                old(self).order(),
                final(self)@,
                final(self).order(),
                width as int,
                height as int,
            ),
            is_floor_plan(old(self)@, width as int, height as int) ==> is_generated(
                final(self)@,
                final(self).order(),
                width as int,
                height as int,
            ),
    {
        self.smooth(width, height);
        let ghost once = self@;
        let ghost once_order = self.order();
        self.smooth(width, height);
        let ghost plan = self@;
        let ghost plan_order = self.order();
        self.place_walls();
        let ghost walled = self@;
        let ghost order = self.order();
        self.furnish();
        proof {
            assert(smoothed_to(once, once_order, plan, plan_order, width as int, height as int));
            assert(walled_to(plan, plan_order, walled, order));
            if is_floor_plan(old(self)@, width as int, height as int) {
                lemma_smoothed_plan(old(self)@, once, width as int, height as int);
                lemma_smoothed_plan(once, plan, width as int, height as int);
                lemma_generated(plan, walled, self@, order, width as int, height as int);
            }
        }
    }

    /// Builds a station on the empty site: floor seeded at random over the
    /// grid, then smoothed, walled in and furnished.
    fn generate(&mut self, width: usize, height: usize, rng: &mut Rand32)
        requires
            old(self).well_formed(),
            old(self)@ == Map::<GridPosition, Tile>::empty(),
            width <= i32::MAX,
            height <= i32::MAX,
        ensures
            final(self).well_formed(),
            is_generated(final(self)@, final(self).order(), width as int, height as int),
            exists|plan: Map<GridPosition, Tile>, plan_order: Seq<GridPosition>|
                is_floor_plan(plan, width as int, height as int) && #[trigger] completed_to(
                    plan,
                    plan_order,
                    final(self)@,
                    final(self).order(),
                    width as int,
                    height as int,
                ),
    {
        self.seed_floor(width, height, rng);
        let ghost plan = self@;
        let ghost plan_order = self.order();
        self.complete(width, height);
        assert(completed_to(
            plan,
            plan_order,
            self@,
            self.order(),
            width as int,
            height as int,
        ));
    }

    /// Creates a new station from scratch on a grid of the given size.
    pub fn new(width: usize, height: usize, rng: &mut Rand32) -> (station: Station)
        requires
            width <= i32::MAX,
            height <= i32::MAX,
        ensures
            station.well_formed(),
            is_generated(station@, station.order(), width as int, height as int),
            exists|plan: Map<GridPosition, Tile>, plan_order: Seq<GridPosition>|
                is_floor_plan(plan, width as int, height as int) && #[trigger] completed_to(
                    plan,
                    plan_order,
                    station@,
                    station.order(),
                    width as int,
                    height as int,
                ),
    {
        let mut station = Station::empty();
        station.generate(width, height, rng);
        station
    }
}

} // verus!
