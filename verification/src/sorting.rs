//! Putting events into the order in which the sweep serves them.

use vstd::prelude::*;
use vstd::relations::sorted_by;
use vstd::seq_lib::lemma_multiset_commutative;
use vstd::seq_lib::lemma_sorted_unique;
use vstd::seq_lib::to_multiset_build;
use crate::coordinate::Coordinate;
use crate::event::Event;
use crate::event::lemma_mark_order_total;
use crate::event::mark_le;
use crate::event::mark_order;
use crate::event::marks;

verus! {

/// Whether `a` is served no later than `b`.
pub fn served_no_later<T: Coordinate>(a: &Event<T>, b: &Event<T>) -> (r: bool)
    ensures
        r == mark_le(a@, b@),
{
    if a.time.precedes(&b.time) {
        true
    } else if b.time.precedes(&a.time) {
        false
    } else if a.priority != b.priority {
        a.priority < b.priority
    } else {
        a.index <= b.index
    }
}

/// Merges two sorted runs into one.
fn merge<T: Coordinate>(left: &Vec<Event<T>>, right: &Vec<Event<T>>) -> (out: Vec<Event<T>>)
    requires
        sorted_by(marks(left@), mark_order()),
        sorted_by(marks(right@), mark_order()),
    ensures
        sorted_by(marks(out@), mark_order()),
        marks(out@).to_multiset() == marks(left@).to_multiset().add(marks(right@).to_multiset()),
{
    broadcast use vstd::seq_lib::group_to_multiset_ensures;
    broadcast use vstd::multiset::group_multiset_axioms;

    let mut out: Vec<Event<T>> = Vec::new();
    let mut i: usize = 0;
    let mut j: usize = 0;
    while i < left.len() || j < right.len()
        invariant
            i <= left.len(),
            j <= right.len(),
            sorted_by(marks(left@), mark_order()),
            sorted_by(marks(right@), mark_order()),
            sorted_by(marks(out@), mark_order()),
            marks(out@).to_multiset() == marks(left@).take(i as int).to_multiset().add(
                marks(right@).take(j as int).to_multiset(),
            ),
            forall|x: int, y: int|
                0 <= x < out.len() && i <= y < left.len() ==> mark_le(
                    #[trigger] marks(out@)[x],
                    #[trigger] marks(left@)[y],
                ),
            forall|x: int, y: int|
                0 <= x < out.len() && j <= y < right.len() ==> mark_le(
                    #[trigger] marks(out@)[x],
                    #[trigger] marks(right@)[y],
                ),
        decreases (left.len() - i) + (right.len() - j),
    {
        let ghost before = marks(out@);
        let from_left = if i == left.len() {
            false
        } else if j == right.len() {
            true
        } else {
            served_no_later(&left[i], &right[j])
        };
        if from_left {
            let e = left[i];
            out.push(e);
            proof {
                let l = marks(left@);
                let r = marks(right@);
                assert(marks(out@) =~= before.push(e@));
                assert(l.take(i + 1) =~= l.take(i as int).push(l[i as int]));
                assert(l[i as int] == e@);
                to_multiset_build(before, e@);
                to_multiset_build(l.take(i as int), e@);
                assert(marks(out@).to_multiset() =~= l.take(i + 1).to_multiset().add(
                    r.take(j as int).to_multiset(),
                ));
                assert forall|y: int| i < y < left.len() implies mark_le(e@, #[trigger] l[y]) by {
                    assert(mark_order()(l[i as int], l[y]));
                }
                assert forall|y: int| j <= y < right.len() implies mark_le(e@, #[trigger] r[y]) by {
                    assert(mark_le(l[i as int], r[j as int]));
                    if j < y {
                        assert(mark_order()(r[j as int], r[y]));
                    }
                }
                assert forall|x: int, y: int| 0 <= x < y < marks(out@).len() implies mark_order()(
                    marks(out@)[x],
                    marks(out@)[y],
                ) by {
                    if y < before.len() {
                        assert(mark_order()(before[x], before[y]));
                    } else {
                        assert(mark_le(before[x], l[i as int]));
                    }
                }
            }
            i += 1;
        } else {
            let e = right[j];
            out.push(e);
            proof {
                let l = marks(left@);
                let r = marks(right@);
                assert(marks(out@) =~= before.push(e@));
                assert(r.take(j + 1) =~= r.take(j as int).push(r[j as int]));
                assert(r[j as int] == e@);
                to_multiset_build(before, e@);
                to_multiset_build(r.take(j as int), e@);
                assert(marks(out@).to_multiset() =~= l.take(i as int).to_multiset().add(
                    r.take(j + 1).to_multiset(),
                ));
                assert forall|y: int| j < y < right.len() implies mark_le(e@, #[trigger] r[y]) by {
                    assert(mark_order()(r[j as int], r[y]));
                }
                assert forall|y: int| i <= y < left.len() implies mark_le(e@, #[trigger] l[y]) by {
                    assert(mark_le(r[j as int], l[i as int]));
                    if i < y {
                        assert(mark_order()(l[i as int], l[y]));
                    }
                }
                assert forall|x: int, y: int| 0 <= x < y < marks(out@).len() implies mark_order()(
                    marks(out@)[x],
                    marks(out@)[y],
                ) by {
                    if y < before.len() {
                        assert(mark_order()(before[x], before[y]));
                    } else {
                        assert(mark_le(before[x], r[j as int]));
                    }
                }
            }
            j += 1;
        }
    }
    proof {
        assert(marks(left@).take(i as int) =~= marks(left@));
        assert(marks(right@).take(j as int) =~= marks(right@));
    }
    out
}

/// Sorts the events at the places from `lo` up to `hi`.
fn merge_sort<T: Coordinate>(events: &Vec<Event<T>>, lo: usize, hi: usize) -> (out: Vec<Event<T>>)
    requires
        lo <= hi <= events.len(),
    ensures
        sorted_by(marks(out@), mark_order()),
        marks(out@).to_multiset() == marks(events@).subrange(lo as int, hi as int).to_multiset(),
    decreases hi - lo,
{
    let ghost part = marks(events@).subrange(lo as int, hi as int);
    if hi - lo <= 1 {
        let mut out: Vec<Event<T>> = Vec::new();
        if hi - lo == 1 {
            out.push(events[lo]);
        }
        assert(marks(out@) =~= part);
        out
    } else {
        let mid = lo + (hi - lo) / 2;
        let left = merge_sort(events, lo, mid);
        let right = merge_sort(events, mid, hi);
        proof {
            let a = marks(events@).subrange(lo as int, mid as int);
            let b = marks(events@).subrange(mid as int, hi as int);
            assert(part =~= a + b);
            lemma_multiset_commutative(a, b);
        }
        merge(&left, &right)
    }
}

/// Sorts events by time, then by priority, then by the interval's index.
pub fn sort_events<T: Coordinate>(events: Vec<Event<T>>) -> (sorted: Vec<Event<T>>)
    ensures
        marks(sorted@) == marks(events@).sort_by(mark_order()),
{
    let sorted = merge_sort(&events, 0, events.len());
    proof {
        let given = marks(events@);
        assert(given.subrange(0, events.len() as int) =~= given);
        lemma_mark_order_total();
        given.lemma_sort_by_ensures(mark_order());
        lemma_sorted_unique(marks(sorted@), given.sort_by(mark_order()), mark_order());
    }
    sorted
}

} // verus!
