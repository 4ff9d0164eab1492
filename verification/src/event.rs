//! Events: the endpoints of the intervals, tagged and ordered for the sweep.

use vstd::prelude::*;
use crate::coordinate::Coordinate;
use crate::error::AssignError;
use crate::error::ShapeFault;

verus! {

/// The mathematical content of an event: when it happens, how early it is
/// served among the events of the same instant, and which interval it
/// belongs to.
pub struct Mark {
    pub time: int,
    pub priority: int,
    pub index: int,
}

/// One endpoint of one interval.
#[derive(Debug)]
pub struct Event<T> {
    pub time: T,
    pub priority: u8,
    pub index: usize,
}

impl<T: Copy> Clone for Event<T> {
    fn clone(&self) -> (copy: Self)
        ensures
            copy == *self,
    {
        *self
    }
}

impl<T: Copy> Copy for Event<T> {

}

impl<T: Coordinate> View for Event<T> {
    type V = Mark;

    open spec fn view(&self) -> Mark {
        Mark { time: self.time.position(), priority: self.priority as int, index: self.index as int }
    }
}

/// The marks of a sequence of events, in the same order.
pub open spec fn marks<T: Coordinate>(events: Seq<Event<T>>) -> Seq<Mark> {
    events.map_values(|e: Event<T>| e@)
}

/// The positions of a column of optional coordinates.
pub open spec fn positions<T: Coordinate>(column: Seq<Option<T>>) -> Seq<Option<int>> {
    column.map_values(
        |c: Option<T>|
            match c {
                Some(t) => Some(t.position()),
                None => None,
            },
    )
}

/// The priority of an arrival. When touching intervals conflict, arrivals
/// are served first at an instant; otherwise departures are.
pub open spec fn arrival_priority(overlapping: bool) -> int {
    if overlapping {
        0
    } else {
        1
    }
}

/// The priority of a departure: the other one of 0 and 1.
pub open spec fn departure_priority(overlapping: bool) -> int {
    if overlapping {
        1
    } else {
        0
    }
}

/// Interval `i` exists and has both of its endpoints.
pub open spec fn is_present(starts: Seq<Option<int>>, ends: Seq<Option<int>>, i: int) -> bool {
    &&& 0 <= i < starts.len()
    &&& i < ends.len()
    &&& starts[i] is Some
    &&& ends[i] is Some
}

/// Interval `i` has both endpoints and ends before it starts.
pub open spec fn is_reversed(starts: Seq<Option<int>>, ends: Seq<Option<int>>, i: int) -> bool {
    is_present(starts, ends, i) && ends[i]->0 < starts[i]->0
}

/// Some interval ends before it starts.
pub open spec fn has_reversed(starts: Seq<Option<int>>, ends: Seq<Option<int>>) -> bool {
    exists|i: int| is_reversed(starts, ends, i)
}

/// The mark of the arrival of interval `i`.
pub open spec fn arrival(starts: Seq<Option<int>>, overlapping: bool, i: int) -> Mark {
    Mark { time: starts[i]->0, priority: arrival_priority(overlapping), index: i }
}

/// The mark of the departure of interval `i`.
pub open spec fn departure(ends: Seq<Option<int>>, overlapping: bool, i: int) -> Mark {
    Mark { time: ends[i]->0, priority: departure_priority(overlapping), index: i }
}

/// The marks of the first `n` intervals in the order of emission: for each
/// interval with both endpoints its arrival, then its departure; nothing for
/// the others.
pub open spec fn emitted(
    starts: Seq<Option<int>>,
    ends: Seq<Option<int>>,
    overlapping: bool,
    n: nat,
) -> Seq<Mark>
    decreases n,
{
    if n == 0 {
        Seq::empty()
    } else {
        let earlier = emitted(starts, ends, overlapping, (n - 1) as nat);
        if is_present(starts, ends, n - 1) {
            earlier.push(arrival(starts, overlapping, n - 1)).push(
                departure(ends, overlapping, n - 1),
            )
        } else {
            earlier
        }
    }
}

/// `a` is served no later than `b`: by time, then by priority, then by the
/// interval's index.
pub open spec fn mark_le(a: Mark, b: Mark) -> bool {
    ||| a.time < b.time
    ||| a.time == b.time && a.priority < b.priority
    ||| a.time == b.time && a.priority == b.priority && a.index <= b.index
}

/// The order of service as a relation.
pub open spec fn mark_order() -> spec_fn(Mark, Mark) -> bool {
    |a: Mark, b: Mark| mark_le(a, b)
}

/// The order of service is a total order.
pub proof fn lemma_mark_order_total()
    ensures
        vstd::relations::total_ordering(mark_order()),
{
}

/// The marks of all intervals in the order in which the sweep serves them.
pub open spec fn agenda(starts: Seq<Option<int>>, ends: Seq<Option<int>>, overlapping: bool) -> Seq<
    Mark,
> {
    emitted(starts, ends, overlapping, starts.len()).sort_by(mark_order())
}

/// Builds the events of a batch of intervals, two for each interval that has
/// both endpoints, and refuses the batch if the columns differ in length or
/// one of those intervals ends before it starts.
pub fn build_events<T: Coordinate>(starts: &[Option<T>], ends: &[Option<T>], overlapping: bool) -> (r:
    Result<Vec<Event<T>>, AssignError>)
    ensures
        match r {
            Ok(events) => {
                &&& starts.len() == ends.len()
                &&& !has_reversed(positions(starts@), positions(ends@))
                &&& marks(events@) == emitted(
                    positions(starts@),
                    positions(ends@),
                    overlapping,
                    starts.len() as nat,
                )
            },
            Err(AssignError::ArgumentShape(fault)) => {
                &&& fault == ShapeFault::LengthMismatch
                &&& starts.len() != ends.len()
            },
            Err(AssignError::InvalidInterval) => {
                &&& starts.len() == ends.len()
                &&& has_reversed(positions(starts@), positions(ends@))
            },
        },
{
    let n = starts.len();
    if ends.len() != n {
        return Err(AssignError::ArgumentShape(ShapeFault::LengthMismatch));
    }
    let arriving: u8 = if overlapping { 0 } else { 1 };
    let departing: u8 = if overlapping { 1 } else { 0 };
    let ghost ps = positions(starts@);
    let ghost pe = positions(ends@);
    let mut events: Vec<Event<T>> = Vec::new();
    let mut i: usize = 0;
    while i < n
        invariant
            i <= n,
            n == starts.len(),
            n == ends.len(),
            ps == positions(starts@),
            pe == positions(ends@),
            arriving == arrival_priority(overlapping),
            departing == departure_priority(overlapping),
            forall|j: int| 0 <= j < i ==> !is_reversed(ps, pe, j),
            marks(events@) == emitted(ps, pe, overlapping, i as nat),
        decreases n - i,
    {
        let ghost before = events@;
        match (starts[i], ends[i]) {
            (Some(s), Some(e)) => {
                if e.precedes(&s) {
                    assert(is_reversed(ps, pe, i as int));
                    return Err(AssignError::InvalidInterval);
                }
                events.push(Event { time: s, priority: arriving, index: i });
                events.push(Event { time: e, priority: departing, index: i });
                assert(is_present(ps, pe, i as int));
                assert(marks(events@) =~= marks(before).push(arrival(ps, overlapping, i as int)).push(
                    departure(pe, overlapping, i as int),
                ));
            },
            _ => {
                assert(!is_present(ps, pe, i as int));
            },
        }
        i += 1;
    }
    Ok(events)
}

} // verus!
