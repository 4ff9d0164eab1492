//! The sweep: serving the agenda mark by mark, handing out rooms on arrival
//! and taking them back on departure.

use vstd::prelude::*;
use vstd::multiset::Multiset;
use vstd::set_lib::lemma_int_range;
use vstd::set_lib::lemma_len_subset;
use vstd::set_lib::set_int_range;
use crate::agenda::is_mark_of;
use crate::agenda::lemma_agenda;
use crate::coordinate::Coordinate;
use crate::error::AssignError;
use crate::error::ShapeFault;
use crate::event::Event;
use crate::event::Mark;
use crate::event::agenda;
use crate::event::arrival_priority;
use crate::event::build_events;
use crate::event::has_reversed;
use crate::event::is_present;
use crate::event::marks;
use crate::event::positions;
use crate::guarantees::has_empty;
use crate::guarantees::is_conflict_free;
use crate::guarantees::lemma_rooms_are_conflict_free;
use crate::guarantees::lemma_rooms_equal_peak;
use crate::guarantees::uses_fewest_rooms;
use crate::pool::FreePool;
use crate::pool::least;
use crate::pool::lemma_least_unique;
use crate::sorting::sort_events;

verus! {

/// The state of a sweep between two marks.
pub struct Sweep {
    /// The room of each interval; 0 as long as it has none.
    pub rooms: Seq<u32>,
    /// The rooms that were released and not handed out again.
    pub free: Multiset<u32>,
    /// How many rooms have been opened so far; they are 1 up to `minted`.
    pub minted: nat,
}

/// The state before the first mark: `n` intervals without a room, no room
/// released, none opened.
pub open spec fn start_of_sweep(n: nat) -> Sweep {
    Sweep { rooms: Seq::new(n, |i: int| 0u32), free: Multiset::empty(), minted: 0 }
}

/// The state after serving one mark. An arrival takes the smallest released
/// room, or opens the next room if none is released. A departure releases
/// the room that its interval holds at that moment.
pub open spec fn serve(s: Sweep, m: Mark, overlapping: bool) -> Sweep {
    if m.priority == arrival_priority(overlapping) {
        if s.free.len() > 0 {
            let id = least(s.free);
            Sweep { rooms: s.rooms.update(m.index, id), free: s.free.remove(id), minted: s.minted }
        } else {
            let id = (s.minted + 1) as u32;
            Sweep { rooms: s.rooms.update(m.index, id), free: s.free, minted: s.minted + 1 }
        }
    } else {
        Sweep { rooms: s.rooms, free: s.free.insert(s.rooms[m.index]), minted: s.minted }
    }
}

/// The state after serving the first `k` marks of `agenda` for `n` intervals.
pub open spec fn sweep_after(agenda: Seq<Mark>, n: nat, overlapping: bool, k: nat) -> Sweep
    decreases k,
{
    if k == 0 {
        start_of_sweep(n)
    } else {
        serve(sweep_after(agenda, n, overlapping, (k - 1) as nat), agenda[k - 1], overlapping)
    }
}

/// The room of each interval after the whole agenda has been served.
pub open spec fn assignment(starts: Seq<Option<int>>, ends: Seq<Option<int>>, overlapping: bool) -> Seq<
    u32,
> {
    let a = agenda(starts, ends, overlapping);
    sweep_after(a, starts.len(), overlapping, a.len()).rooms
}

/// What an assignment comes to: the refusal of a batch whose columns differ
/// in length or in which an interval ends before it starts, and else the
/// rooms.
pub open spec fn outcome(starts: Seq<Option<int>>, ends: Seq<Option<int>>, overlapping: bool) -> Result<
    Seq<u32>,
    AssignError,
> {
    if starts.len() != ends.len() {
        Err(AssignError::ArgumentShape(ShapeFault::LengthMismatch))
    } else if has_reversed(starts, ends) {
        Err(AssignError::InvalidInterval)
    } else {
        Ok(assignment(starts, ends, overlapping))
    }
}

/// No more rooms are opened than marks are served, whatever the marks.
pub proof fn lemma_opened_at_most_served(agenda: Seq<Mark>, n: nat, overlapping: bool, k: nat)
    ensures
        sweep_after(agenda, n, overlapping, k).minted <= k,
    decreases k,
{
    if k > 0 {
        lemma_opened_at_most_served(agenda, n, overlapping, (k - 1) as nat);
    }
}

/// Interval `i` has its arrival among the first `k` marks of `agenda`.
pub open spec fn has_arrived(agenda: Seq<Mark>, overlapping: bool, k: nat, i: int) -> bool {
    exists|j: int|
        0 <= j < k && j < agenda.len() && (#[trigger] agenda[j]).priority == arrival_priority(
            overlapping,
        ) && agenda[j].index == i
}

/// The intervals that have their arrival among the first `k` marks.
pub open spec fn arrived(agenda: Seq<Mark>, overlapping: bool, k: nat) -> Set<int> {
    Set::new(|i: int| has_arrived(agenda, overlapping, k, i))
}

/// While the agenda is served every interval keeps a place in `rooms`, and
/// no more rooms are opened than intervals have arrived.
pub proof fn lemma_sweep_bounds(
    starts: Seq<Option<int>>,
    ends: Seq<Option<int>>,
    overlapping: bool,
    k: nat,
)
    requires
        k <= agenda(starts, ends, overlapping).len(),
    ensures
        sweep_after(agenda(starts, ends, overlapping), starts.len(), overlapping, k).rooms.len()
            == starts.len(),
        arrived(agenda(starts, ends, overlapping), overlapping, k).finite(),
        sweep_after(agenda(starts, ends, overlapping), starts.len(), overlapping, k).minted
            <= arrived(agenda(starts, ends, overlapping), overlapping, k).len(),
        arrived(agenda(starts, ends, overlapping), overlapping, k).len() <= starts.len(),
    decreases k,
{
    let a = agenda(starts, ends, overlapping);
    let n = starts.len();
    let now = arrived(a, overlapping, k);
    lemma_agenda(starts, ends, overlapping);
    lemma_int_range(0, n as int);
    assert(now.subset_of(set_int_range(0, n as int))) by {
        assert forall|i: int| now.contains(i) implies set_int_range(0, n as int).contains(i) by {
            let j = choose|j: int|
                0 <= j < k && j < a.len() && (#[trigger] a[j]).priority == arrival_priority(
                    overlapping,
                ) && a[j].index == i;
            assert(a.contains(a[j]));
            assert(is_mark_of(starts, ends, overlapping, a[j]));
        }
    }
    lemma_len_subset(now, set_int_range(0, n as int));
    if k == 0 {
        assert(now =~= Set::<int>::empty());
    } else {
        let before = arrived(a, overlapping, (k - 1) as nat);
        lemma_sweep_bounds(starts, ends, overlapping, (k - 1) as nat);
        let m = a[k - 1];
        assert(a.contains(m));
        assert(is_mark_of(starts, ends, overlapping, m));
        if m.priority == arrival_priority(overlapping) {
            assert(!before.contains(m.index)) by {
                if before.contains(m.index) {
                    let j = choose|j: int|
                        0 <= j < k - 1 && j < a.len() && (#[trigger] a[j]).priority
                            == arrival_priority(overlapping) && a[j].index == m.index;
                    assert(a.contains(a[j]));
                    assert(is_mark_of(starts, ends, overlapping, a[j]));
                    assert(a[j] == m);
                }
            }
            assert(now =~= before.insert(m.index)) by {
                assert forall|i: int| now.contains(i) <==> before.insert(m.index).contains(i) by {
                    if now.contains(i) {
                        let j = choose|j: int|
                            0 <= j < k && j < a.len() && (#[trigger] a[j]).priority
                                == arrival_priority(overlapping) && a[j].index == i;
                        if j < k - 1 {
                            assert(has_arrived(a, overlapping, (k - 1) as nat, i));
                        }
                    }
                    if before.contains(i) {
                        let j = choose|j: int|
                            0 <= j < k - 1 && j < a.len() && (#[trigger] a[j]).priority
                                == arrival_priority(overlapping) && a[j].index == i;
                        assert(has_arrived(a, overlapping, k, i));
                    }
                    if i == m.index {
                        assert(a[k - 1].index == i);
                        assert(has_arrived(a, overlapping, k, i));
                    }
                }
            }
        } else {
            assert(now =~= before) by {
                assert forall|i: int| now.contains(i) <==> before.contains(i) by {
                    if now.contains(i) {
                        let j = choose|j: int|
                            0 <= j < k && j < a.len() && (#[trigger] a[j]).priority
                                == arrival_priority(overlapping) && a[j].index == i;
                        assert(has_arrived(a, overlapping, (k - 1) as nat, i));
                    }
                    if before.contains(i) {
                        let j = choose|j: int|
                            0 <= j < k - 1 && j < a.len() && (#[trigger] a[j]).priority
                                == arrival_priority(overlapping) && a[j].index == i;
                        assert(has_arrived(a, overlapping, k, i));
                    }
                }
            }
        }
    }
}

/// While the agenda is served, an interval that lacks an endpoint has no
/// room.
proof fn lemma_absent_stays_out(
    starts: Seq<Option<int>>,
    ends: Seq<Option<int>>,
    overlapping: bool,
    k: nat,
    i: int,
)
    requires
        k <= agenda(starts, ends, overlapping).len(),
        0 <= i < starts.len(),
        !is_present(starts, ends, i),
    ensures
        sweep_after(agenda(starts, ends, overlapping), starts.len(), overlapping, k).rooms[i] == 0,
    decreases k,
{
    if k > 0 {
        let a = agenda(starts, ends, overlapping);
        lemma_absent_stays_out(starts, ends, overlapping, (k - 1) as nat, i);
        lemma_sweep_bounds(starts, ends, overlapping, (k - 1) as nat);
        lemma_agenda(starts, ends, overlapping);
        assert(a.contains(a[k - 1]));
        assert(is_mark_of(starts, ends, overlapping, a[k - 1]));
    }
}

/// An interval that lacks an endpoint gets room 0.
pub proof fn lemma_absent_interval_has_no_room(
    starts: Seq<Option<int>>,
    ends: Seq<Option<int>>,
    overlapping: bool,
    i: int,
)
    requires
        0 <= i < starts.len(),
        !is_present(starts, ends, i),
    ensures
        assignment(starts, ends, overlapping)[i] == 0,
{
    lemma_absent_stays_out(
        starts,
        ends,
        overlapping,
        agenda(starts, ends, overlapping).len(),
        i,
    );
}

/// `n` intervals without a room.
fn no_rooms(n: usize) -> (rooms: Vec<u32>)
    ensures
        rooms@ == start_of_sweep(n as nat).rooms,
{
    let mut rooms: Vec<u32> = Vec::new();
    let mut i: usize = 0;
    while i < n
        invariant
            i <= n,
            rooms@ == Seq::new(i as nat, |j: int| 0u32),
        decreases n - i,
    {
        rooms.push(0);
        assert(rooms@ =~= Seq::new((i + 1) as nat, |j: int| 0u32));
        i += 1;
    }
    rooms
}

/// Serves events in the order in which they are given, for `n` intervals,
/// and returns the room of each interval.
///
/// Every event names one of the `n` intervals, and the rooms that the sweep
/// opens can be counted in 32 bits.
pub fn sweep<T: Coordinate>(events: &[Event<T>], n: usize, overlapping: bool) -> (rooms: Vec<u32>)
    requires
        forall|k: int| 0 <= k < events.len() ==> (#[trigger] events[k]).index < n,
        forall|k: nat|
            k <= events.len() ==> (#[trigger] sweep_after(
                marks(events@),
                n as nat,
                overlapping,
                k,
            )).minted <= u32::MAX,
    ensures
        rooms@ == sweep_after(marks(events@), n as nat, overlapping, events.len() as nat).rooms,
{
    let arriving: u8 = if overlapping { 0 } else { 1 };
    let ghost a = marks(events@);
    let mut rooms = no_rooms(n);
    let mut pool = FreePool::new();
    let mut minted: u32 = 0;
    let mut k: usize = 0;
    while k < events.len()
        invariant
            k <= events.len(),
            a == marks(events@),
            forall|k: int| 0 <= k < events.len() ==> (#[trigger] events[k]).index < n,
            forall|k: nat|
                k <= events.len() ==> (#[trigger] sweep_after(a, n as nat, overlapping, k)).minted
                    <= u32::MAX,
            arriving == arrival_priority(overlapping),
            pool.well_formed(),
            rooms.len() == n,
            rooms@ == sweep_after(a, n as nat, overlapping, k as nat).rooms,
            pool@ == sweep_after(a, n as nat, overlapping, k as nat).free,
            minted == sweep_after(a, n as nat, overlapping, k as nat).minted,
        decreases events.len() - k,
    {
        broadcast use vstd::multiset::group_multiset_axioms;

        let e = events[k];
        proof {
            assert(a[k as int] == e@);
            assert(sweep_after(a, n as nat, overlapping, (k + 1) as nat).minted <= u32::MAX);
        }
        if e.priority == arriving {
            let id = match pool.pop() {
                Some(id) => {
                    proof {
                        lemma_least_unique(
                            sweep_after(a, n as nat, overlapping, k as nat).free,
                            id,
                        );
                    }
                    id
                },
                None => {
                    minted += 1;
                    minted
                },
            };
            rooms[e.index] = id;
        } else {
            pool.push(rooms[e.index]);
        }
        k += 1;
    }
    rooms
}

/// Assigns a room to every interval that has both endpoints, so that the
/// rooms are those that the sweep hands out: at each arrival the smallest
/// released room, or the next new room if none is released.
///
/// Intervals that lack an endpoint get room 0. The batch is refused as a
/// whole if the columns differ in length or an interval with both endpoints
/// ends before it starts. The result depends on nothing but the arguments.
///
/// Unless touching intervals share a room and some interval is empty, no two
/// intervals that conflict get the same room, and no more rooms are used
/// than intervals are open at the busiest instant.
pub fn assign<T: Coordinate>(starts: &[Option<T>], ends: &[Option<T>], overlapping: bool) -> (r:
    Result<Vec<u32>, AssignError>)
    requires
        starts.len() <= u32::MAX,
    ensures
        match r {
            Ok(rooms) => outcome(positions(starts@), positions(ends@), overlapping) == Ok::<
                Seq<u32>,
                AssignError,
            >(rooms@),
            Err(e) => outcome(positions(starts@), positions(ends@), overlapping) == Err::<
                Seq<u32>,
                AssignError,
            >(e),
        },
        r matches Ok(rooms) ==> {
            &&& rooms.len() == starts.len()
            &&& forall|i: int|
                0 <= i < rooms.len() && !is_present(positions(starts@), positions(ends@), i)
                    ==> #[trigger] rooms[i] == 0
            &&& overlapping || !has_empty(positions(starts@), positions(ends@)) ==> {
                &&& is_conflict_free(positions(starts@), positions(ends@), overlapping, rooms@)
                &&& uses_fewest_rooms(positions(starts@), positions(ends@), overlapping, rooms@)
            }
        },
{
    match build_events(starts, ends, overlapping) {
        Err(e) => Err(e),
        Ok(events) => {
            let sorted = sort_events(events);
            proof {
                let ps = positions(starts@);
                let pe = positions(ends@);
                let a = agenda(ps, pe, overlapping);
                lemma_agenda(ps, pe, overlapping);
                assert forall|k: int| 0 <= k < sorted.len() implies (#[trigger] sorted[k]).index
                    < starts.len() by {
                    assert(a[k] == sorted[k]@);
                    assert(a.contains(a[k]));
                    assert(is_mark_of(ps, pe, overlapping, a[k]));
                }
                assert forall|k: nat| k <= sorted.len() implies (#[trigger] sweep_after(
                    a,
                    starts.len() as nat,
                    overlapping,
                    k,
                )).minted <= u32::MAX by {
                    lemma_sweep_bounds(ps, pe, overlapping, k);
                }
                lemma_sweep_bounds(ps, pe, overlapping, a.len());
                assert forall|i: int|
                    0 <= i < starts.len() && !is_present(ps, pe, i) implies #[trigger] assignment(
                    ps,
                    pe,
                    overlapping,
                )[i] == 0 by {
                    lemma_absent_interval_has_no_room(ps, pe, overlapping, i);
                }
                if overlapping || !has_empty(ps, pe) {
                    lemma_rooms_are_conflict_free(ps, pe, overlapping);
                    lemma_rooms_equal_peak(ps, pe, overlapping);
                }
            }
            let rooms = sweep(sorted.as_slice(), starts.len(), overlapping);
            Ok(rooms)
        },
    }
}

} // verus!
