use core::cmp::Ordering;
use vstd::prelude::*;
use vstd::std_specs::cmp::PartialOrdSpecImpl;
use vstd::std_specs::convert::FromSpecImpl;

verus! {

/// A cell of the station grid.
#[derive(Clone, Copy, PartialEq, Eq, Structural, Debug, Hash)]
pub struct GridPosition {
    pub x: i32,
    pub y: i32,
}

/// Absolute value of a mathematical integer.
pub open spec fn abs(v: int) -> int {
    if v < 0 {
        -v
    } else {
        v
    }
}

/// Manhattan distance between two cells, without any machine bound.
pub open spec fn manhattan(a: GridPosition, b: GridPosition) -> int {
    abs(a.x - b.x) + abs(a.y - b.y)
}

/// Two cells share an edge.
pub open spec fn adjacent(a: GridPosition, b: GridPosition) -> bool {
    manhattan(a, b) == 1
}

/// Two distinct cells share an edge or a corner.
pub open spec fn touching(a: GridPosition, b: GridPosition) -> bool {
    a != b && abs(a.x - b.x) <= 1 && abs(a.y - b.y) <= 1
}

/// The tie-break order on cells: a smaller `x` ranks higher, and among equal
/// `x` a larger `y` ranks higher. It carries no spatial meaning.
pub open spec fn ranks_above(a: GridPosition, b: GridPosition) -> bool {
    a.x < b.x || (a.x == b.x && a.y > b.y)
}

impl GridPosition {
    pub fn new(x: i32, y: i32) -> (pos: GridPosition)
        ensures
            pos.x == x,
            pos.y == y,
    {
        GridPosition { x, y }
    }

    /// Manhattan distance on the square grid.
    pub fn distance(&self, other: GridPosition) -> (d: i32)
        requires
            manhattan(*self, other) <= i32::MAX,
        ensures
            d == manhattan(*self, other),
    {
        let dx: i64 = self.x as i64 - other.x as i64;
        let dy: i64 = self.y as i64 - other.y as i64;
        let ax: i64 = if dx < 0 { -dx } else { dx };
        let ay: i64 = if dy < 0 { -dy } else { dy };
        (ax + ay) as i32
    }

    /// Manhattan distance for any two cells: the sum always fits in 64 bits.
    pub fn steps_to(&self, other: GridPosition) -> (d: u64)
        ensures
            d == manhattan(*self, other),
    {
        let dx: i64 = self.x as i64 - other.x as i64;
        let dy: i64 = self.y as i64 - other.y as i64;
        let ax: i64 = if dx < 0 { -dx } else { dx };
        let ay: i64 = if dy < 0 { -dy } else { dy };
        (ax + ay) as u64
    }
}

impl PartialOrdSpecImpl for GridPosition {
    open spec fn obeys_partial_cmp_spec() -> bool {
        true
    }

    open spec fn partial_cmp_spec(&self, other: &GridPosition) -> Option<Ordering> {
        if ranks_above(*self, *other) {
            Some(Ordering::Greater)
        } else if ranks_above(*other, *self) {
            Some(Ordering::Less)
        } else {
            Some(Ordering::Equal)
        }
    }
}

impl PartialOrd for GridPosition {
    fn partial_cmp(&self, other: &GridPosition) -> (r: Option<Ordering>) {
        if self.x < other.x {
            Some(Ordering::Greater)
        } else if self.x > other.x {
            Some(Ordering::Less)
        } else if self.y > other.y {
            Some(Ordering::Greater)
        } else if self.y < other.y {
            Some(Ordering::Less)
        } else {
            Some(Ordering::Equal)
        }
    }
}

impl FromSpecImpl<(i32, i32)> for GridPosition {
    open spec fn obeys_from_spec() -> bool {
        true
    }

    open spec fn from_spec(pos: (i32, i32)) -> GridPosition {
        GridPosition { x: pos.0, y: pos.1 }
    }
}

impl From<(i32, i32)> for GridPosition {
    fn from(pos: (i32, i32)) -> (r: GridPosition) {
        GridPosition { x: pos.0, y: pos.1 }
    }
}

} // verus!
