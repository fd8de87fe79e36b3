use crate::station::gridposition::{ranks_above, GridPosition};
use core::cmp::Ordering;
use vstd::multiset::Multiset;
use vstd::prelude::*;
use vstd::seq_lib::group_to_multiset_ensures;
use vstd::std_specs::cmp::PartialOrdSpecImpl;

verus! {

/// A cell waiting to be explored, with the estimated cost of a route through
/// it.
#[derive(Copy, Clone, Eq, PartialEq, Structural, Debug)]
pub struct Movement {
    pub cost: u128,
    pub pos: GridPosition,
}

/// `a` is explored before `b`: it is cheaper, or as cheap and its cell ranks
/// higher in the tie-break order.
pub open spec fn outranks(a: Movement, b: Movement) -> bool {
    a.cost < b.cost || (a.cost == b.cost && ranks_above(a.pos, b.pos))
}

impl PartialOrdSpecImpl for Movement {
    open spec fn obeys_partial_cmp_spec() -> bool {
        true
    }

    /// The greater movement is the one explored first.
    open spec fn partial_cmp_spec(&self, other: &Movement) -> Option<Ordering> {
        if outranks(*self, *other) {
            Some(Ordering::Greater)
        } else if outranks(*other, *self) {
            Some(Ordering::Less)
        } else {
            Some(Ordering::Equal)
        }
    }
}

impl PartialOrd for Movement {
    fn partial_cmp(&self, other: &Movement) -> (r: Option<Ordering>) {
        if self.beats(other) {
            Some(Ordering::Greater)
        } else if other.beats(self) {
            Some(Ordering::Less)
        } else {
            Some(Ordering::Equal)
        }
    }
}

impl Movement {
    /// Whether this movement is explored before `other`.
    pub fn beats(&self, other: &Movement) -> (b: bool)
        ensures
            b == outranks(*self, *other),
    {
        if self.cost != other.cost {
            self.cost < other.cost
        } else if self.pos.x != other.pos.x {
            self.pos.x < other.pos.x
        } else {
            self.pos.y > other.pos.y
        }
    }
}

/// Place of the entry above place `i` in the heap.
pub open spec fn parent(i: int) -> int {
    (i - 1) / 2
}

/// No entry outranks the one above it, with the possible exception of the
/// entry at `loose` or, if `below` is set, of the entries right below it.
/// Even then the entries right below `loose` do not outrank the one above
/// it.
pub open spec fn is_heap_but(s: Seq<Movement>, loose: int, below: bool) -> bool {
    &&& forall|j: int|
        0 < j < s.len() && (if below {
            parent(j) != loose
        } else {
            j != loose
        }) ==> !outranks(#[trigger] s[j], s[parent(j)])
    &&& forall|j: int|
        0 < j < s.len() && parent(j) == loose && loose > 0 ==> !outranks(
            #[trigger] s[j],
            s[parent(loose)],
        )
}

/// No entry outranks the one above it.
pub open spec fn is_heap(s: Seq<Movement>) -> bool {
    forall|j: int| 0 < j < s.len() ==> !outranks(#[trigger] s[j], s[parent(j)])
}

/// In a heap nothing outranks the entry on top.
pub proof fn lemma_top_is_best(s: Seq<Movement>, j: int)
    requires
        is_heap(s),
        0 <= j < s.len(),
    ensures
        !outranks(s[j], s[0]),
    decreases j,
{
    if j > 0 {
        lemma_top_is_best(s, parent(j));
        assert(!outranks(s[j], s[parent(j)]));
    }
}

/// Two entries changing places leaves the same movements waiting.
proof fn lemma_swapped(s: Seq<Movement>, i: int, j: int)
    requires
        0 <= i < s.len(),
        0 <= j < s.len(),
    ensures
        s.update(i, s[j]).update(j, s[i]).to_multiset() == s.to_multiset(),
{
    broadcast use group_to_multiset_ensures;

    let t = s.update(i, s[j]);
    vstd::seq_lib::to_multiset_update(s, i, s[j]);
    vstd::seq_lib::to_multiset_update(t, j, s[i]);
    assert(s.to_multiset().count(s[i]) > 0) by {
        assert(s.contains(s[i]));
    }
    assert(s.to_multiset().count(s[j]) > 0) by {
        assert(s.contains(s[j]));
    }
    assert(t.update(j, s[i]).to_multiset() =~= s.to_multiset());
}

/// The movements still to be explored, kept as a binary heap. Taking one out
/// always gives the one that outranks all others, so the order of
/// exploration does not depend on the order of arrival.
pub struct Frontier {
    waiting: Vec<Movement>,
}

impl View for Frontier {
    type V = Multiset<Movement>;

    closed spec fn view(&self) -> Multiset<Movement> {
        self.waiting@.to_multiset()
    }
}

impl Frontier {
    /// The entries are in heap order.
    pub closed spec fn well_formed(&self) -> bool {
        is_heap(self.waiting@)
    }

    pub fn new() -> (frontier: Frontier)
        ensures
            frontier.well_formed(),
            frontier@ == Multiset::<Movement>::empty(),
    {
        let frontier = Frontier { waiting: Vec::new() };
        proof {
            broadcast use group_to_multiset_ensures;

            assert(frontier@.len() == 0);
            assert(frontier@ =~= Multiset::<Movement>::empty());
        }
        frontier
    }

    pub fn len(&self) -> (n: usize)
        ensures
            n == self@.len(),
    {
        proof {
            broadcast use group_to_multiset_ensures;

        }
        self.waiting.len()
    }

    pub fn is_empty(&self) -> (empty: bool)
        ensures
            empty == (self@.len() == 0),
    {
        proof {
            broadcast use group_to_multiset_ensures;

        }
        self.waiting.len() == 0
    }

    fn swap(&mut self, i: usize, j: usize)
        requires
            i < old(self).waiting@.len(),
            j < old(self).waiting@.len(),
        ensures
            final(self).waiting@ == old(self).waiting@.update(i as int, old(self).waiting@[j as int]).update(
                j as int,
                old(self).waiting@[i as int],
            ),
            final(self)@ == old(self)@,
    {
        proof {
            lemma_swapped(self.waiting@, i as int, j as int);
        }
        let a = self.waiting[i];
        let b = self.waiting[j];
        self.waiting.set(i, b);
        self.waiting.set(j, a);
    }

    /// Adds a movement to those waiting.
    pub fn push(&mut self, movement: Movement)
        requires
            old(self).well_formed(),
        ensures
            final(self).well_formed(),
            final(self)@ == old(self)@.insert(movement),
    {
        proof {
            broadcast use group_to_multiset_ensures;

        }
        self.waiting.push(movement);
        let mut i: usize = self.waiting.len() - 1;
        while i > 0 && self.waiting[i].beats(&self.waiting[(i - 1) / 2])
            invariant
                i < self.waiting@.len(),
                is_heap_but(self.waiting@, i as int, false),
                self@ == old(self)@.insert(movement),
            decreases i,
        {
            let above = (i - 1) / 2;
            let ghost before = self.waiting@;
            self.swap(i, above);
            proof {
                let after = self.waiting@;
                assert forall|j: int| 0 < j < after.len() && j != above implies !outranks(
                    #[trigger] after[j],
                    after[parent(j)],
                ) by {
                    if j != i {
                        assert(!outranks(before[j], before[parent(j)]));
                    }
                }
                assert forall|j: int|
                    0 < j < after.len() && parent(j) == above && above > 0 implies !outranks(
                    #[trigger] after[j],
                    after[parent(above as int)],
                ) by {
                    assert(!outranks(before[above as int], before[parent(above as int)]));
                    if j != i {
                        assert(!outranks(before[j], before[parent(j)]));
                    }
                }
            }
            i = above;
        }
    }

    /// Lets the entry on top sink to its place.
    fn settle(&mut self)
        requires
            is_heap_but(old(self).waiting@, 0, true),
        ensures
            final(self).well_formed(),
            final(self)@ == old(self)@,
    {
        let n = self.waiting.len();
        let mut i: usize = 0;
        while i < n / 2
            invariant_except_break
                is_heap_but(self.waiting@, i as int, true),
            invariant
                n == self.waiting@.len(),
                self@ == old(self)@,
            ensures
                is_heap(self.waiting@),
            decreases n - i,
        {
            let left = 2 * i + 1;
            let right = left + 1;
            let below = if right < n && self.waiting[right].beats(&self.waiting[left]) {
                right
            } else {
                left
            };
            if !self.waiting[below].beats(&self.waiting[i]) {
                proof {
                    let s = self.waiting@;
                    assert forall|j: int| 0 < j < s.len() implies !outranks(
                        #[trigger] s[j],
                        s[parent(j)],
                    ) by {
                        if parent(j) == i {
                            assert(j == left || j == right);
                        }
                    }
                }
                break ;
            }
            let ghost before = self.waiting@;
            self.swap(i, below);
            proof {
                let after = self.waiting@;
                assert forall|j: int|
                    0 < j < after.len() && parent(j) != below implies !outranks(
                    #[trigger] after[j],
                    after[parent(j)],
                ) by {
                    if parent(j) == i {
                        assert(j == left || j == right);
                    } else if j == i {
                        assert(!outranks(before[below as int], before[parent(i as int)]));
                    } else {
                        assert(!outranks(before[j], before[parent(j)]));
                    }
                }
                assert forall|j: int|
                    0 < j < after.len() && parent(j) == below && below > 0 implies !outranks(
                    #[trigger] after[j],
                    after[parent(below as int)],
                ) by {
                    assert(!outranks(before[j], before[parent(j)]));
                }
            }
            i = below;
        }
        proof {
            let s = self.waiting@;
            if i >= n / 2 {
                assert forall|j: int| 0 < j < s.len() implies !outranks(
                    #[trigger] s[j],
                    s[parent(j)],
                ) by {
                    assert(parent(j) != i);
                }
            }
        }
    }

    /// Takes out the movement that outranks all others, if any is waiting.
    pub fn pop(&mut self) -> (best: Option<Movement>)
        requires
            old(self).well_formed(),
        ensures
            final(self).well_formed(),
            match best {
                None => old(self)@.len() == 0 && final(self)@ == old(self)@,
                Some(m) => {
                    &&& old(self)@.contains(m)
                    &&& final(self)@ == old(self)@.remove(m)
                    &&& forall|o: Movement| old(self)@.contains(o) ==> !outranks(o, m)
                },
            },
    {
        proof {
            broadcast use group_to_multiset_ensures;

        }
        let ghost before = self.waiting@;
        let n = self.waiting.len();
        if n == 0 {
            return None;
        }
        let top = self.waiting[0];
        proof {
            assert(before.contains(top));
            assert forall|o: Movement| old(self)@.contains(o) implies !outranks(o, top) by {
                assert(before.contains(o));
                let k = choose|k: int| 0 <= k < before.len() && before[k] == o;
                lemma_top_is_best(before, k);
            }
        }
        let last = self.waiting.pop().unwrap();
        proof {
            assert(self.waiting@ =~= before.remove(n - 1));
            assert(last == before[n - 1]);
        }
        if n > 1 {
            let ghost shorter = self.waiting@;
            self.waiting.set(0, last);
            proof {
                vstd::seq_lib::to_multiset_update(shorter, 0, last);
                assert(self@ =~= old(self)@.remove(top));
                let s = self.waiting@;
                assert forall|j: int| 0 < j < s.len() && parent(j) != 0 implies !outranks(
                    #[trigger] s[j],
                    s[parent(j)],
                ) by {
                    assert(!outranks(before[j], before[parent(j)]));
                }
            }
            self.settle();
        } else {
            assert(self@ =~= old(self)@.remove(top));
        }
        Some(top)
    }
}

} // verus!
