use crate::item::{find_offering, first_offering, holds_any, remove_by_id, without_id, Item, ItemType};
use crate::station::gridposition::GridPosition;
use vstd::prelude::*;
use vstd::std_specs::cmp::PartialEqSpecImpl;

verus! {

/// What a wall looks like. Directions such as "top left" name the corner of a
/// square walled room that the wall stands in. Movement does not depend on
/// it: every wall blocks.
#[derive(Copy, Clone, PartialEq, Eq, Structural, Debug)]
pub enum WallDirection {
    InteriorVertical,
    InteriorHorizontal,
    InteriorCross,
    InteriorCornerTopLeft,
    InteriorCornerTopRight,
    InteriorCornerBottomLeft,
    InteriorCornerBottomRight,
    ExteriorTop,
    ExteriorBottom,
    ExteriorLeft,
    ExteriorRight,
    ExteriorCornerTopLeft,
    ExteriorCornerTopRight,
    ExteriorCornerBottomLeft,
    ExteriorCornerBottomRight,
    Full,
}

#[derive(Copy, Clone, PartialEq, Eq, Structural, Debug)]
pub enum TileType {
    Floor,
    Wall(WallDirection),
    Door(WallDirection),
}

/// A tile of this kind can be walked on: floors and doors can, walls cannot.
pub open spec fn walkable(kind: TileType) -> bool {
    !(kind is Wall)
}

pub fn is_walkable(kind: TileType) -> (w: bool)
    ensures
        w == walkable(kind),
{
    match kind {
        TileType::Wall(_) => false,
        TileType::Door(_) => true,
        TileType::Floor => true,
    }
}

/// One cell of the station, with what lies on it.
#[derive(Debug)]
pub struct Tile {
    pub pos: GridPosition,
    pub kind: TileType,
    pub items: Vec<Item>,
}

impl PartialEqSpecImpl for Tile {
    open spec fn obeys_eq_spec() -> bool {
        true
    }

    /// Tiles are equal if they are in the same spot.
    open spec fn eq_spec(&self, other: &Tile) -> bool {
        self.pos == other.pos
    }
}

impl PartialEq for Tile {
    fn eq(&self, other: &Tile) -> (r: bool) {
        self.pos == other.pos
    }
}

impl Eq for Tile {

}

impl Tile {
    pub fn new(pos: GridPosition, kind: TileType) -> (tile: Tile)
        ensures
            tile.pos == pos,
            tile.kind == kind,
            tile.items@ == Seq::<Item>::empty(),
    {
        Tile { pos, kind, items: Vec::new() }
    }

    /// Lays an item on the tile, after those already there.
    pub fn add_item(&mut self, item: Item)
        ensures
            final(self).items@ == old(self).items@.push(item),
            final(self).pos == old(self).pos,
            final(self).kind == old(self).kind,
    {
        self.items.push(item);
    }

    /// Whether something on the tile counts as one of the given kinds.
    pub fn has_item(&self, item_types: Vec<ItemType>) -> (found: bool)
        ensures
            found == holds_any(self.items@, item_types@),
    {
        find_offering(&self.items, &item_types) < self.items.len()
    }

    /// The first item on the tile that counts as one of the given kinds. For
    /// a container that holds such an item, this is the container.
    pub fn get_item(&self, item_types: Vec<ItemType>) -> (found: Option<&Item>)
        ensures
            match found {
                Some(item) => first_offering(self.items@, item_types@) < self.items@.len()
                    && *item == self.items@[first_offering(self.items@, item_types@)],
                None => first_offering(self.items@, item_types@) == self.items@.len(),
            },
            found is Some <==> holds_any(self.items@, item_types@),
    {
        let i = find_offering(&self.items, &item_types);
        if i < self.items.len() {
            Some(&self.items[i])
        } else {
            None
        }
    }

    /// Takes every item with the given identity off the tile.
    pub fn remove_item(&mut self, id: u128)
        ensures
            final(self).items@ == without_id(old(self).items@, id),
            final(self).pos == old(self).pos,
            final(self).kind == old(self).kind,
    {
        remove_by_id(&mut self.items, id);
    }
}

} // verus!
