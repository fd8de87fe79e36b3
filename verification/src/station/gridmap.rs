use crate::station::gridposition::GridPosition;
use std::collections::HashMap;
use vstd::prelude::*;
use vstd::std_specs::hash::*;

verus! {

broadcast use group_hash_axioms;

/// The table key of a cell: both coordinates shifted to be non-negative and
/// packed into one 64-bit number.
pub open spec fn key_of(pos: GridPosition) -> u64 {
    ((pos.x + 0x8000_0000) * 0x1_0000_0000 + (pos.y + 0x8000_0000)) as u64
}

/// The cell that a table key stands for.
pub open spec fn cell_of(key: u64) -> GridPosition {
    GridPosition {
        x: (key / 0x1_0000_0000 - 0x8000_0000) as i32,
        y: (key % 0x1_0000_0000 - 0x8000_0000) as i32,
    }
}

/// Keys and cells correspond one to one.
pub proof fn lemma_key_cell_inverse()
    ensures
        forall|pos: GridPosition| #[trigger] cell_of(key_of(pos)) == pos,
        forall|key: u64| #[trigger] key_of(cell_of(key)) == key,
{
}

fn make_key(pos: GridPosition) -> (key: u64)
    ensures
        key == key_of(pos),
{
    let hi: u64 = (pos.x as i64 + 0x8000_0000) as u64;
    let lo: u64 = (pos.y as i64 + 0x8000_0000) as u64;
    hi * 0x1_0000_0000 + lo
}

/// A finite map from grid cells to values with constant-time lookup.
pub struct GridMap<V> {
    table: HashMap<u64, V>,
}

impl<V> View for GridMap<V> {
    type V = Map<GridPosition, V>;

    closed spec fn view(&self) -> Map<GridPosition, V> {
        Map::new(
            |pos: GridPosition| self.table@.contains_key(key_of(pos)),
            |pos: GridPosition| self.table@[key_of(pos)],
        )
    }
}

impl<V> GridMap<V> {
    pub fn new() -> (m: GridMap<V>)
        ensures
            m@ == Map::<GridPosition, V>::empty(),
    {
        let m = GridMap { table: HashMap::new() };
        assert(m@ =~= Map::<GridPosition, V>::empty());
        m
    }

    /// The map always holds finitely many cells.
    pub proof fn lemma_finite(&self)
        ensures
            self@.dom().finite(),
    {
        self.lemma_same_size();
    }

    proof fn lemma_same_size(&self)
        ensures
            self@.dom().finite(),
            self@.dom().len() == self.table@.dom().len(),
    {
        lemma_key_cell_inverse();
        let keys = self.table@.dom();
        let cells = self@.dom();
        assert(keys.finite());
        let image = keys.map(|k: u64| cell_of(k));
        keys.lemma_map_finite(|k: u64| cell_of(k));
        assert(image =~= cells) by {
            assert forall|p: GridPosition| cells.contains(p) implies image.contains(p) by {
                assert(keys.contains(key_of(p)));
                assert(cell_of(key_of(p)) == p);
            }
        }
        vstd::set_lib::lemma_map_size(keys, cells, |k: u64| cell_of(k));
    }

    pub fn len(&self) -> (n: usize)
        ensures
            n == self@.dom().len(),
            self@.dom().finite(),
    {
        proof {
            self.lemma_same_size();
        }
        self.table.len()
    }

    pub fn contains(&self, pos: GridPosition) -> (found: bool)
        ensures
            found == self@.contains_key(pos),
    {
        let key = make_key(pos);
        self.table.contains_key(&key)
    }

    pub fn get(&self, pos: GridPosition) -> (found: Option<&V>)
        ensures
            match found {
                Some(v) => self@.contains_key(pos) && *v == self@[pos],
                None => !self@.contains_key(pos),
            },
    {
        let key = make_key(pos);
        self.table.get(&key)
    }

    /// What is stored at a cell that is known to be in the map.
    pub fn at(&self, pos: GridPosition) -> (value: &V)
        requires
            self@.contains_key(pos),
        ensures
            *value == self@[pos],
    {
        let key = make_key(pos);
        self.table.get(&key).unwrap()
    }

    /// Stores `value` at `pos` and hands back what stood there before.
    pub fn insert(&mut self, pos: GridPosition, value: V) -> (before: Option<V>)
        ensures
            final(self)@ == old(self)@.insert(pos, value),
            match before {
                Some(v) => old(self)@.contains_key(pos) && v == old(self)@[pos],
                None => !old(self)@.contains_key(pos),
            },
    {
        let key = make_key(pos);
        let before = self.table.insert(key, value);
        proof {
            lemma_key_cell_inverse();
            assert(self@ =~= old(self)@.insert(pos, value)) by {
                assert forall|p: GridPosition| p != pos implies key_of(p) != key by {
                    assert(cell_of(key_of(p)) == p);
                }
            }
        }
        before
    }

    /// Takes away what stands at `pos`, if anything, and hands it back.
    pub fn remove(&mut self, pos: GridPosition) -> (before: Option<V>)
        ensures
            final(self)@ == old(self)@.remove(pos),
            match before {
                Some(v) => old(self)@.contains_key(pos) && v == old(self)@[pos],
                None => !old(self)@.contains_key(pos),
            },
    {
        let key = make_key(pos);
        let before = self.table.remove(&key);
        proof {
            lemma_key_cell_inverse();
            assert(self@ =~= old(self)@.remove(pos)) by {
                assert forall|p: GridPosition| p != pos implies key_of(p) != key by {
                    assert(cell_of(key_of(p)) == p);
                }
            }
        }
        before
    }
}

} // verus!
