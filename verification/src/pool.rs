//! The pool of released rooms, from which the smallest comes out first.

use vstd::prelude::*;
use vstd::multiset::Multiset;
use vstd::seq_lib::to_multiset_build;
use vstd::seq_lib::to_multiset_update;

verus! {

/// `id` is in `pool`, and nothing in `pool` is smaller.
pub open spec fn is_least(pool: Multiset<u32>, id: u32) -> bool {
    pool.count(id) > 0 && forall|other: u32| pool.count(other) > 0 ==> id <= other
}

/// The smallest room in a pool that is not empty.
pub open spec fn least(pool: Multiset<u32>) -> u32 {
    choose|id: u32| is_least(pool, id)
}

/// A pool has at most one smallest room.
pub proof fn lemma_least_unique(pool: Multiset<u32>, id: u32)
    requires
        is_least(pool, id),
    ensures
        least(pool) == id,
{
    let chosen = least(pool);
    assert(is_least(pool, chosen));
}

/// A pool that holds `id` has a smallest room.
proof fn lemma_least_below(pool: Multiset<u32>, id: u32)
    requires
        pool.count(id) > 0,
    ensures
        exists|low: u32| is_least(pool, low),
    decreases id,
{
    if exists|other: u32| pool.count(other) > 0 && other < id {
        let other = choose|other: u32| pool.count(other) > 0 && other < id;
        lemma_least_below(pool, other);
    } else {
        assert(is_least(pool, id));
    }
}

/// A pool that is not empty has a smallest room, and `least` names it.
pub proof fn lemma_least_exists(pool: Multiset<u32>)
    requires
        pool.len() > 0,
    ensures
        is_least(pool, least(pool)),
{
    broadcast use vstd::multiset::group_multiset_axioms;

    lemma_least_below(pool, pool.choose());
}

/// Every slot but the first is no smaller than the slot above it.
spec fn heap_ordered(slots: Seq<u32>) -> bool {
    forall|k: int| 1 <= k < slots.len() ==> slots[(k - 1) / 2] <= #[trigger] slots[k]
}

/// Like `heap_ordered`, but nothing is asked of the slots directly below
/// `hole`; they are no smaller than the slot above `hole`.
spec fn ordered_below(slots: Seq<u32>, hole: int) -> bool {
    &&& forall|k: int|
        1 <= k < slots.len() && (k - 1) / 2 != hole ==> slots[(k - 1) / 2] <= #[trigger] slots[k]
    &&& forall|k: int|
        1 <= k < slots.len() && (k - 1) / 2 == hole && hole > 0 ==> slots[(hole - 1) / 2]
            <= #[trigger] slots[k]
}

/// Like `heap_ordered`, but nothing is asked of `hole` against the slot
/// above it; the slots directly below `hole` are no smaller than that slot.
spec fn ordered_above(slots: Seq<u32>, hole: int) -> bool {
    &&& forall|k: int|
        1 <= k < slots.len() && k != hole ==> slots[(k - 1) / 2] <= #[trigger] slots[k]
    &&& forall|k: int|
        1 <= k < slots.len() && (k - 1) / 2 == hole && hole > 0 ==> slots[(hole - 1) / 2]
            <= #[trigger] slots[k]
}

/// In a heap the first slot is the smallest.
proof fn lemma_root_is_least(slots: Seq<u32>, k: int)
    requires
        heap_ordered(slots),
        0 <= k < slots.len(),
    ensures
        slots[0] <= slots[k],
    decreases k,
{
    if k > 0 {
        lemma_root_is_least(slots, (k - 1) / 2);
    }
}

/// Exchanges two slots.
fn exchange(slots: &mut Vec<u32>, a: usize, b: usize)
    requires
        a < old(slots).len(),
        b < old(slots).len(),
    ensures
        final(slots)@ == old(slots)@.update(a as int, old(slots)@[b as int]).update(
            b as int,
            old(slots)@[a as int],
        ),
        final(slots)@.to_multiset() == old(slots)@.to_multiset(),
{
    broadcast use vstd::multiset::group_multiset_axioms;
    broadcast use vstd::seq_lib::group_to_multiset_ensures;

    let x = slots[a];
    let y = slots[b];
    proof {
        let s = old(slots)@;
        to_multiset_update(s, a as int, y);
        to_multiset_update(s.update(a as int, y), b as int, x);
        assert(s.update(a as int, y).update(b as int, x).to_multiset() =~= s.to_multiset());
    }
    slots[a] = y;
    slots[b] = x;
}

/// The rooms that have been released and not handed out again. A room that
/// was released twice is in the pool twice.
pub struct FreePool {
    slots: Vec<u32>,
}

impl View for FreePool {
    type V = Multiset<u32>;

    closed spec fn view(&self) -> Multiset<u32> {
        self.slots@.to_multiset()
    }
}

impl FreePool {
    /// The slots form a binary heap with the smallest room in front.
    pub closed spec fn well_formed(&self) -> bool {
        heap_ordered(self.slots@)
    }

    /// An empty pool.
    pub fn new() -> (pool: Self)
        ensures
            pool.well_formed(),
            pool@ == Multiset::<u32>::empty(),
    {
        let pool = FreePool { slots: Vec::new() };
        assert(pool.slots@.to_multiset() =~= Multiset::<u32>::empty()) by {
            broadcast use vstd::multiset::group_multiset_axioms;
            broadcast use vstd::seq_lib::group_to_multiset_ensures;

        }
        pool
    }

    /// The number of rooms in the pool.
    pub fn len(&self) -> (n: usize)
        ensures
            n == self@.len(),
    {
        broadcast use vstd::seq_lib::group_to_multiset_ensures;

        self.slots.len()
    }

    /// Whether the pool holds no room.
    pub fn is_empty(&self) -> (b: bool)
        ensures
            b == (self@.len() == 0),
    {
        broadcast use vstd::seq_lib::group_to_multiset_ensures;

        self.slots.len() == 0
    }

    /// Puts a released room into the pool.
    pub fn push(&mut self, id: u32)
        requires
            old(self).well_formed(),
        ensures
            final(self).well_formed(),
            final(self)@ == old(self)@.insert(id),
    {
        self.slots.push(id);
        proof {
            to_multiset_build(old(self).slots@, id);
        }
        let mut i: usize = self.slots.len() - 1;
        while i > 0 && self.slots[(i - 1) / 2] > self.slots[i]
            invariant
                i < self.slots.len(),
                self.slots@.to_multiset() == old(self)@.insert(id),
                ordered_above(self.slots@, i as int),
            decreases i,
        {
            let above = (i - 1) / 2;
            exchange(&mut self.slots, above, i);
            i = above;
        }
    }

    /// Takes the smallest room out of the pool, if there is one.
    pub fn pop(&mut self) -> (r: Option<u32>)
        requires
            old(self).well_formed(),
        ensures
            final(self).well_formed(),
            match r {
                Some(id) => is_least(old(self)@, id) && final(self)@ == old(self)@.remove(id),
                None => old(self)@.len() == 0 && final(self)@ == old(self)@,
            },
    {
        broadcast use vstd::multiset::group_multiset_axioms;
        broadcast use vstd::seq_lib::group_to_multiset_ensures;

        let ghost before = self.slots@;
        if self.slots.len() == 0 {
            return None;
        }
        let top = self.slots[0];
        proof {
            assert forall|other: u32| before.to_multiset().count(other) > 0 implies top <= other by {
                let k = choose|k: int| 0 <= k < before.len() && before[k] == other;
                lemma_root_is_least(before, k);
            }
            assert(before.contains(top));
        }
        let last = self.slots.pop().unwrap();
        proof {
            let shorter = before.subrange(0, before.len() - 1);
            assert(shorter.push(last) =~= before);
            to_multiset_build(shorter, last);
        }
        let n = self.slots.len();
        if n == 0 {
            assert(self.slots@.to_multiset() =~= before.to_multiset().remove(top));
            return Some(top);
        }
        proof {
            to_multiset_update(self.slots@, 0, last);
        }
        self.slots[0] = last;
        assert(self.slots@.to_multiset() =~= before.to_multiset().remove(top));
        let mut i: usize = 0;
        while i < n / 2
            invariant
                n == self.slots.len(),
                i < n,
                self.slots@.to_multiset() == before.to_multiset().remove(top),
                ordered_below(self.slots@, i as int),
            ensures
                heap_ordered(self.slots@),
                self.slots@.to_multiset() == before.to_multiset().remove(top),
            decreases n - i,
        {
            let left = 2 * i + 1;
            let right = left + 1;
            let smaller = if right < n && self.slots[right] < self.slots[left] {
                right
            } else {
                left
            };
            if self.slots[i] <= self.slots[smaller] {
                break ;
            }
            exchange(&mut self.slots, i, smaller);
            i = smaller;
        }
        Some(top)
    }
}

} // verus!
