//! What the sweep guarantees of the rooms it hands out.

use vstd::prelude::*;
use vstd::set_lib::lemma_int_range;
use vstd::set_lib::lemma_len_subset;
use vstd::set_lib::lemma_map_size;
use vstd::set_lib::set_int_range;
use crate::agenda::is_mark_of;
use crate::agenda::lemma_agenda;
use crate::agenda::lemma_agenda_places;
use crate::agenda::mark_lt;
use crate::event::agenda;
use crate::event::arrival;
use crate::event::arrival_priority;
use crate::event::departure;
use crate::event::has_reversed;
use crate::event::is_present;
use crate::event::is_reversed;
use crate::pool::is_least;
use crate::pool::least;
use crate::pool::lemma_least_exists;
use crate::sweep::Sweep;
use crate::sweep::assignment;
use crate::sweep::lemma_sweep_bounds;
use crate::sweep::sweep_after;

verus! {

/// The later of two instants.
pub open spec fn later(a: int, b: int) -> int {
    if a >= b {
        a
    } else {
        b
    }
}

/// The earlier of two instants.
pub open spec fn earlier(a: int, b: int) -> int {
    if a <= b {
        a
    } else {
        b
    }
}

/// Intervals `i` and `j` are two intervals with both endpoints that cannot
/// share a room: the later start lies before the earlier end, or, where
/// touching intervals conflict, not after it.
pub open spec fn conflict(
    starts: Seq<Option<int>>,
    ends: Seq<Option<int>>,
    overlapping: bool,
    i: int,
    j: int,
) -> bool {
    &&& is_present(starts, ends, i)
    &&& is_present(starts, ends, j)
    &&& i != j
    &&& if overlapping {
        later(starts[i]->0, starts[j]->0) <= earlier(ends[i]->0, ends[j]->0)
    } else {
        later(starts[i]->0, starts[j]->0) < earlier(ends[i]->0, ends[j]->0)
    }
}

/// Some interval with both endpoints starts and ends at the same instant.
pub open spec fn has_empty(starts: Seq<Option<int>>, ends: Seq<Option<int>>) -> bool {
    exists|i: int| is_present(starts, ends, i) && starts[i]->0 == ends[i]->0
}

/// Interval `i` has both endpoints and is open at instant `t`: from its
/// start up to its end, the end itself included only where touching
/// intervals conflict.
pub open spec fn covers(
    starts: Seq<Option<int>>,
    ends: Seq<Option<int>>,
    overlapping: bool,
    i: int,
    t: int,
) -> bool {
    &&& is_present(starts, ends, i)
    &&& starts[i]->0 <= t
    &&& if overlapping {
        t <= ends[i]->0
    } else {
        t < ends[i]->0
    }
}

/// The intervals that are open at instant `t`.
pub open spec fn open_at(
    starts: Seq<Option<int>>,
    ends: Seq<Option<int>>,
    overlapping: bool,
    t: int,
) -> Set<int> {
    Set::new(|i: int| covers(starts, ends, overlapping, i, t))
}

/// The rooms that hold at least one interval with both endpoints.
pub open spec fn rooms_used(starts: Seq<Option<int>>, ends: Seq<Option<int>>, rooms: Seq<u32>) -> Set<
    u32,
> {
    Set::new(|id: u32| exists|i: int| is_present(starts, ends, i) && #[trigger] rooms[i] == id)
}

/// No two intervals that conflict share a room, and every interval with
/// both endpoints has a room from 1 on.
pub open spec fn is_conflict_free(
    starts: Seq<Option<int>>,
    ends: Seq<Option<int>>,
    overlapping: bool,
    rooms: Seq<u32>,
) -> bool {
    &&& forall|i: int| is_present(starts, ends, i) ==> #[trigger] rooms[i] >= 1
    &&& forall|i: int, j: int|
        #![trigger rooms[i], rooms[j]]
        conflict(starts, ends, overlapping, i, j) ==> rooms[i] != rooms[j]
}

/// The number of rooms in use is the largest number of intervals that are
/// open at one instant: at no instant are more intervals open than rooms
/// are in use, and at some instant as many are.
pub open spec fn uses_fewest_rooms(
    starts: Seq<Option<int>>,
    ends: Seq<Option<int>>,
    overlapping: bool,
    rooms: Seq<u32>,
) -> bool {
    &&& rooms_used(starts, ends, rooms).finite()
    &&& forall|t: int|
        #![trigger open_at(starts, ends, overlapping, t)]
        open_at(starts, ends, overlapping, t).finite() && open_at(
            starts,
            ends,
            overlapping,
            t,
        ).len() <= rooms_used(starts, ends, rooms).len()
    &&& exists|t: int|
        #![trigger open_at(starts, ends, overlapping, t)]
        open_at(starts, ends, overlapping, t).len() == rooms_used(starts, ends, rooms).len()
}

/// The batch is one on which every interval arrives before it departs: the
/// columns are equally long, short enough for the rooms to be counted, no
/// interval is reversed, and none is empty unless touching intervals
/// conflict.
pub open spec fn is_orderly(
    starts: Seq<Option<int>>,
    ends: Seq<Option<int>>,
    overlapping: bool,
) -> bool {
    &&& starts.len() == ends.len()
    &&& starts.len() <= u32::MAX
    &&& !has_reversed(starts, ends)
    &&& overlapping || !has_empty(starts, ends)
}

spec fn state(starts: Seq<Option<int>>, ends: Seq<Option<int>>, overlapping: bool, k: nat) -> Sweep {
    sweep_after(agenda(starts, ends, overlapping), starts.len(), overlapping, k)
}

spec fn arrival_place(
    starts: Seq<Option<int>>,
    ends: Seq<Option<int>>,
    overlapping: bool,
    i: int,
) -> int {
    agenda(starts, ends, overlapping).index_of(arrival(starts, overlapping, i))
}

spec fn departure_place(
    starts: Seq<Option<int>>,
    ends: Seq<Option<int>>,
    overlapping: bool,
    i: int,
) -> int {
    agenda(starts, ends, overlapping).index_of(departure(ends, overlapping, i))
}

/// Interval `i` has arrived among the first `k` marks.
spec fn has_room(
    starts: Seq<Option<int>>,
    ends: Seq<Option<int>>,
    overlapping: bool,
    k: nat,
    i: int,
) -> bool {
    is_present(starts, ends, i) && arrival_place(starts, ends, overlapping, i) < k
}

/// Interval `i` has arrived among the first `k` marks and not departed.
spec fn is_open_after(
    starts: Seq<Option<int>>,
    ends: Seq<Option<int>>,
    overlapping: bool,
    k: nat,
    i: int,
) -> bool {
    &&& is_present(starts, ends, i)
    &&& arrival_place(starts, ends, overlapping, i) < k
    &&& k <= departure_place(starts, ends, overlapping, i)
}

/// After `k` marks some open interval holds room `id`.
spec fn is_held(
    starts: Seq<Option<int>>,
    ends: Seq<Option<int>>,
    overlapping: bool,
    k: nat,
    id: u32,
) -> bool {
    exists|i: int|
        is_open_after(starts, ends, overlapping, k, i) && #[trigger] state(
            starts,
            ends,
            overlapping,
            k,
        ).rooms[i] == id
}

/// After `k` marks some interval that has arrived has room `id`.
spec fn is_given(
    starts: Seq<Option<int>>,
    ends: Seq<Option<int>>,
    overlapping: bool,
    k: nat,
    id: u32,
) -> bool {
    exists|i: int|
        has_room(starts, ends, overlapping, k, i) && #[trigger] state(
            starts,
            ends,
            overlapping,
            k,
        ).rooms[i] == id
}

/// At some instant at least `count` intervals are open.
spec fn reaches(
    starts: Seq<Option<int>>,
    ends: Seq<Option<int>>,
    overlapping: bool,
    count: nat,
) -> bool {
    exists|t: int| #[trigger] open_at(starts, ends, overlapping, t).len() >= count
}

/// What holds of the state of the sweep after `k` marks of an orderly batch.
spec fn steady(starts: Seq<Option<int>>, ends: Seq<Option<int>>, overlapping: bool, k: nat) -> bool {
    let st = state(starts, ends, overlapping, k);
    &&& st.rooms.len() == starts.len()
    &&& st.minted <= starts.len()
    &&& forall|i: int|
        #![trigger st.rooms[i]]
        0 <= i < starts.len() ==> if has_room(starts, ends, overlapping, k, i) {
            1 <= st.rooms[i] <= st.minted
        } else {
            st.rooms[i] == 0
        }
    &&& forall|i: int, j: int|
        #![trigger st.rooms[i], st.rooms[j]]
        is_open_after(starts, ends, overlapping, k, i) && is_open_after(
            starts,
            ends,
            overlapping,
            k,
            j,
        ) && i != j ==> st.rooms[i] != st.rooms[j]
    &&& forall|i: int, j: int|
        #![trigger st.rooms[i], st.rooms[j]]
        has_room(starts, ends, overlapping, k, i) && has_room(starts, ends, overlapping, k, j)
            && conflict(starts, ends, overlapping, i, j) ==> st.rooms[i] != st.rooms[j]
    &&& forall|id: u32|
        #![trigger st.free.count(id)]
        st.free.count(id) == if 1 <= id <= st.minted && !is_held(
            starts,
            ends,
            overlapping,
            k,
            id,
        ) {
            1nat
        } else {
            0nat
        }
    &&& forall|id: u32|
        1 <= id <= st.minted ==> #[trigger] is_given(starts, ends, overlapping, k, id)
    &&& reaches(starts, ends, overlapping, st.minted)
}

/// In an orderly batch the arrival of an interval has its place in the
/// agenda before the place of its departure.
proof fn lemma_places(starts: Seq<Option<int>>, ends: Seq<Option<int>>, overlapping: bool, i: int)
    requires
        is_orderly(starts, ends, overlapping),
        is_present(starts, ends, i),
    ensures
        0 <= arrival_place(starts, ends, overlapping, i) < departure_place(
            starts,
            ends,
            overlapping,
            i,
        ) < agenda(starts, ends, overlapping).len(),
        agenda(starts, ends, overlapping)[arrival_place(starts, ends, overlapping, i)] == arrival(
            starts,
            overlapping,
            i,
        ),
        agenda(starts, ends, overlapping)[departure_place(starts, ends, overlapping, i)]
            == departure(ends, overlapping, i),
{
    let a = agenda(starts, ends, overlapping);
    let arr = arrival(starts, overlapping, i);
    let dep = departure(ends, overlapping, i);
    lemma_agenda(starts, ends, overlapping);
    assert(is_mark_of(starts, ends, overlapping, arr));
    assert(is_mark_of(starts, ends, overlapping, dep));
    assert(a.contains(arr));
    assert(a.contains(dep));
    assert(!is_reversed(starts, ends, i));
    assert(mark_lt(arr, dep));
    lemma_agenda_places(
        starts,
        ends,
        overlapping,
        arrival_place(starts, ends, overlapping, i),
        departure_place(starts, ends, overlapping, i),
    );
}

/// The place of a mark in the agenda is the only place that holds it.
proof fn lemma_place_unique(
    starts: Seq<Option<int>>,
    ends: Seq<Option<int>>,
    overlapping: bool,
    i: int,
    k: int,
)
    requires
        is_orderly(starts, ends, overlapping),
        is_present(starts, ends, i),
        0 <= k < agenda(starts, ends, overlapping).len(),
    ensures
        agenda(starts, ends, overlapping)[k] == arrival(starts, overlapping, i) <==> k
            == arrival_place(starts, ends, overlapping, i),
        agenda(starts, ends, overlapping)[k] == departure(ends, overlapping, i) <==> k
            == departure_place(starts, ends, overlapping, i),
{
    lemma_places(starts, ends, overlapping, i);
    lemma_agenda(starts, ends, overlapping);
}

/// Two intervals that conflict are open together: each arrives before the
/// other departs.
proof fn lemma_conflict_places(
    starts: Seq<Option<int>>,
    ends: Seq<Option<int>>,
    overlapping: bool,
    i: int,
    j: int,
)
    requires
        is_orderly(starts, ends, overlapping),
        conflict(starts, ends, overlapping, i, j),
    ensures
        arrival_place(starts, ends, overlapping, i) < departure_place(starts, ends, overlapping, j),
{
    lemma_places(starts, ends, overlapping, i);
    lemma_places(starts, ends, overlapping, j);
    assert(mark_lt(arrival(starts, overlapping, i), departure(ends, overlapping, j)));
    lemma_agenda_places(
        starts,
        ends,
        overlapping,
        arrival_place(starts, ends, overlapping, i),
        departure_place(starts, ends, overlapping, j),
    );
}

/// What serving the mark at place `k` changes about who has arrived and who
/// is open.
proof fn lemma_step_effect(
    starts: Seq<Option<int>>,
    ends: Seq<Option<int>>,
    overlapping: bool,
    k: nat,
)
    requires
        is_orderly(starts, ends, overlapping),
        k < agenda(starts, ends, overlapping).len(),
    ensures
        ({
            let m = agenda(starts, ends, overlapping)[k as int];
            let next = (k + 1) as nat;
            &&& is_present(starts, ends, m.index)
            &&& m.priority == arrival_priority(overlapping) ==> {
                &&& m == arrival(starts, overlapping, m.index)
                &&& !has_room(starts, ends, overlapping, k, m.index)
                &&& forall|i: int|
                    #[trigger] has_room(starts, ends, overlapping, next, i) == (has_room(
                        starts,
                        ends,
                        overlapping,
                        k,
                        i,
                    ) || i == m.index)
                &&& forall|i: int|
                    #[trigger] is_open_after(starts, ends, overlapping, next, i) == (is_open_after(
                        starts,
                        ends,
                        overlapping,
                        k,
                        i,
                    ) || i == m.index)
                &&& forall|i: int|
                    #[trigger] is_open_after(starts, ends, overlapping, next, i) ==> covers(
                        starts,
                        ends,
                        overlapping,
                        i,
                        m.time,
                    )
            }
            &&& m.priority != arrival_priority(overlapping) ==> {
                &&& m == departure(ends, overlapping, m.index)
                &&& is_open_after(starts, ends, overlapping, k, m.index)
                &&& forall|i: int|
                    #[trigger] has_room(starts, ends, overlapping, next, i) == has_room(
                        starts,
                        ends,
                        overlapping,
                        k,
                        i,
                    )
                &&& forall|i: int|
                    #[trigger] is_open_after(starts, ends, overlapping, next, i) == (is_open_after(
                        starts,
                        ends,
                        overlapping,
                        k,
                        i,
                    ) && i != m.index)
            }
        }),
{
    let a = agenda(starts, ends, overlapping);
    let m = a[k as int];
    let next = (k + 1) as nat;
    lemma_agenda(starts, ends, overlapping);
    assert(a.contains(m));
    assert(is_mark_of(starts, ends, overlapping, m));
    lemma_places(starts, ends, overlapping, m.index);
    lemma_place_unique(starts, ends, overlapping, m.index, k as int);
    if m.priority == arrival_priority(overlapping) {
        assert forall|i: int|
            #[trigger] has_room(starts, ends, overlapping, next, i) == (has_room(
                starts,
                ends,
                overlapping,
                k,
                i,
            ) || i == m.index) by {
            if is_present(starts, ends, i) {
                lemma_place_unique(starts, ends, overlapping, i, k as int);
            }
        }
        assert forall|i: int|
            #[trigger] is_open_after(starts, ends, overlapping, next, i) == (is_open_after(
                starts,
                ends,
                overlapping,
                k,
                i,
            ) || i == m.index) by {
            if is_present(starts, ends, i) {
                lemma_place_unique(starts, ends, overlapping, i, k as int);
                lemma_places(starts, ends, overlapping, i);
            }
        }
        assert forall|i: int| #[trigger]
            is_open_after(starts, ends, overlapping, next, i) implies covers(
            starts,
            ends,
            overlapping,
            i,
            m.time,
        ) by {
            lemma_places(starts, ends, overlapping, i);
            let p = arrival_place(starts, ends, overlapping, i);
            let q = departure_place(starts, ends, overlapping, i);
            if p < k {
                lemma_agenda_places(starts, ends, overlapping, p, k as int);
            }
            lemma_agenda_places(starts, ends, overlapping, k as int, q);
        }
    } else {
        assert forall|i: int|
            #[trigger] has_room(starts, ends, overlapping, next, i) == has_room(
                starts,
                ends,
                overlapping,
                k,
                i,
            ) by {
            if is_present(starts, ends, i) {
                lemma_place_unique(starts, ends, overlapping, i, k as int);
            }
        }
        assert forall|i: int|
            #[trigger] is_open_after(starts, ends, overlapping, next, i) == (is_open_after(
                starts,
                ends,
                overlapping,
                k,
                i,
            ) && i != m.index) by {
            if is_present(starts, ends, i) {
                lemma_place_unique(starts, ends, overlapping, i, k as int);
                lemma_places(starts, ends, overlapping, i);
            }
        }
    }
}

/// The intervals open at an instant are finitely many.
proof fn lemma_open_at_finite(
    starts: Seq<Option<int>>,
    ends: Seq<Option<int>>,
    overlapping: bool,
    t: int,
)
    ensures
        open_at(starts, ends, overlapping, t).finite(),
        open_at(starts, ends, overlapping, t).len() <= starts.len(),
{
    let all = set_int_range(0, starts.len() as int);
    lemma_int_range(0, starts.len() as int);
    assert(open_at(starts, ends, overlapping, t).subset_of(all));
    lemma_len_subset(open_at(starts, ends, overlapping, t), all);
}

/// If after `k` marks every room opened so far is held by an open interval,
/// and all open intervals are open at instant `t`, then at `t` at least as
/// many intervals are open as rooms were opened.
proof fn lemma_all_rooms_held(
    starts: Seq<Option<int>>,
    ends: Seq<Option<int>>,
    overlapping: bool,
    k: nat,
    t: int,
)
    requires
        state(starts, ends, overlapping, k).minted <= u32::MAX,
        forall|id: u32|
            1 <= id <= state(starts, ends, overlapping, k).minted ==> #[trigger] is_held(
                starts,
                ends,
                overlapping,
                k,
                id,
            ),
        forall|i: int|
            #[trigger] is_open_after(starts, ends, overlapping, k, i) ==> covers(
                starts,
                ends,
                overlapping,
                i,
                t,
            ),
    ensures
        open_at(starts, ends, overlapping, t).len() >= state(starts, ends, overlapping, k).minted,
{
    let st = state(starts, ends, overlapping, k);
    let ids = set_int_range(1, st.minted as int + 1);
    let holder = |v: int|
        choose|i: int|
            is_open_after(starts, ends, overlapping, k, i) && #[trigger] state(
                starts,
                ends,
                overlapping,
                k,
            ).rooms[i] == v as u32;
    let holders = ids.map(holder);
    lemma_int_range(1, st.minted as int + 1);
    lemma_open_at_finite(starts, ends, overlapping, t);
    assert forall|v: int| ids.contains(v) implies is_open_after(
        starts,
        ends,
        overlapping,
        k,
        #[trigger] holder(v),
    ) && st.rooms[holder(v)] == v as u32 by {
        assert(is_held(starts, ends, overlapping, k, v as u32));
    }
    assert forall|v: int, w: int|
        ids.contains(v) && ids.contains(w) && #[trigger] holder(v) == #[trigger] holder(
            w,
        ) implies v == w by {
        assert(st.rooms[holder(v)] == v as u32);
        assert(st.rooms[holder(w)] == w as u32);
    }
    lemma_map_size(ids, holders, holder);
    assert(holders.subset_of(open_at(starts, ends, overlapping, t))) by {
        assert forall|i: int| holders.contains(i) implies open_at(
            starts,
            ends,
            overlapping,
            t,
        ).contains(i) by {
            let v = choose|v: int| ids.contains(v) && i == holder(v);
            assert(is_open_after(starts, ends, overlapping, k, holder(v)));
        }
    }
    lemma_len_subset(holders, open_at(starts, ends, overlapping, t));
}

/// Serving an arrival keeps the sweep steady.
proof fn lemma_steady_arrival(
    starts: Seq<Option<int>>,
    ends: Seq<Option<int>>,
    overlapping: bool,
    k: nat,
)
    requires
        is_orderly(starts, ends, overlapping),
        k < agenda(starts, ends, overlapping).len(),
        steady(starts, ends, overlapping, k),
        agenda(starts, ends, overlapping)[k as int].priority == arrival_priority(overlapping),
    ensures
        steady(starts, ends, overlapping, (k + 1) as nat),
{
    broadcast use vstd::multiset::group_multiset_axioms;

    let a = agenda(starts, ends, overlapping);
    let n = starts.len();
    let m = a[k as int];
    let i0 = m.index;
    let next = (k + 1) as nat;
    let s0 = state(starts, ends, overlapping, k);
    let s1 = state(starts, ends, overlapping, next);
    assert(s1 == crate::sweep::serve(s0, m, overlapping));
    lemma_step_effect(starts, ends, overlapping, k);
    lemma_sweep_bounds(starts, ends, overlapping, next);
    let id = s1.rooms[i0];
    let popped = s0.free.len() > 0;
    if popped {
        lemma_least_exists(s0.free);
        assert(id == least(s0.free));
        assert(is_least(s0.free, id));
        assert(s0.free.count(id) > 0);
        assert(1 <= id <= s0.minted);
        assert(!is_held(starts, ends, overlapping, k, id));
        assert(s1.minted == s0.minted);
        assert(s1.free == s0.free.remove(id));
    } else {
        assert(s1.minted == s0.minted + 1);
        assert(id == s0.minted + 1);
        assert(s1.free == s0.free);
        assert forall|x: u32| s0.free.count(x) == 0 by {
            assert(s0.free.count(x) <= s0.free.len());
        }
    }
    assert(1 <= id <= s1.minted);
    assert forall|j: int| 0 <= j < n && j != i0 implies #[trigger] s1.rooms[j] == s0.rooms[j] by {}
    assert forall|j: int| is_open_after(starts, ends, overlapping, k, j) implies #[trigger] s0.rooms[j]
        != id by {
        if popped {
            if s0.rooms[j] == id {
                assert(is_held(starts, ends, overlapping, k, id));
            }
        } else {
            assert(has_room(starts, ends, overlapping, k, j));
            assert(s0.rooms[j] <= s0.minted);
        }
    }
    assert forall|i: int| 0 <= i < n implies if has_room(starts, ends, overlapping, next, i) {
        1 <= #[trigger] s1.rooms[i] <= s1.minted
    } else {
        s1.rooms[i] == 0
    } by {
        if i != i0 {
            assert(s1.rooms[i] == s0.rooms[i]);
            assert(has_room(starts, ends, overlapping, next, i) == has_room(
                starts,
                ends,
                overlapping,
                k,
                i,
            ));
        } else {
            assert(has_room(starts, ends, overlapping, next, i));
        }
    }
    assert forall|i: int, j: int|
        #![trigger s1.rooms[i], s1.rooms[j]]
        is_open_after(starts, ends, overlapping, next, i) && is_open_after(
            starts,
            ends,
            overlapping,
            next,
            j,
        ) && i != j implies s1.rooms[i] != s1.rooms[j] by {
        if i == i0 {
            assert(is_open_after(starts, ends, overlapping, k, j));
            assert(s0.rooms[j] != id);
        } else if j == i0 {
            assert(is_open_after(starts, ends, overlapping, k, i));
            assert(s0.rooms[i] != id);
        } else {
            assert(is_open_after(starts, ends, overlapping, k, i));
            assert(is_open_after(starts, ends, overlapping, k, j));
            assert(s0.rooms[i] != s0.rooms[j]);
        }
    }
    assert forall|i: int, j: int|
        #![trigger s1.rooms[i], s1.rooms[j]]
        has_room(starts, ends, overlapping, next, i) && has_room(starts, ends, overlapping, next, j)
            && conflict(starts, ends, overlapping, i, j) implies s1.rooms[i] != s1.rooms[j] by {
        lemma_places(starts, ends, overlapping, i0);
        lemma_place_unique(starts, ends, overlapping, i0, k as int);
        if i == i0 {
            assert(has_room(starts, ends, overlapping, k, j));
            lemma_conflict_places(starts, ends, overlapping, i, j);
            assert(is_open_after(starts, ends, overlapping, k, j));
            assert(s0.rooms[j] != id);
        } else if j == i0 {
            assert(has_room(starts, ends, overlapping, k, i));
            lemma_conflict_places(starts, ends, overlapping, j, i);
            assert(is_open_after(starts, ends, overlapping, k, i));
            assert(s0.rooms[i] != id);
        } else {
            assert(has_room(starts, ends, overlapping, k, i));
            assert(has_room(starts, ends, overlapping, k, j));
            assert(s0.rooms[i] != s0.rooms[j]);
        }
    }
    assert forall|x: u32|
        #[trigger] is_held(starts, ends, overlapping, next, x) == (is_held(
            starts,
            ends,
            overlapping,
            k,
            x,
        ) || x == id) by {
        if is_held(starts, ends, overlapping, next, x) {
            let i = choose|i: int|
                is_open_after(starts, ends, overlapping, next, i) && #[trigger] state(
                    starts,
                    ends,
                    overlapping,
                    next,
                ).rooms[i] == x;
            if i != i0 {
                assert(is_open_after(starts, ends, overlapping, k, i));
                assert(s0.rooms[i] == x);
                assert(is_held(starts, ends, overlapping, k, x));
            }
        }
        if is_held(starts, ends, overlapping, k, x) {
            let i = choose|i: int|
                is_open_after(starts, ends, overlapping, k, i) && #[trigger] state(
                    starts,
                    ends,
                    overlapping,
                    k,
                ).rooms[i] == x;
            assert(i != i0);
            assert(is_open_after(starts, ends, overlapping, next, i));
            assert(s1.rooms[i] == x);
        }
        if x == id {
            assert(is_open_after(starts, ends, overlapping, next, i0));
            assert(s1.rooms[i0] == x);
        }
    }
    assert forall|x: u32|
        #![trigger s1.free.count(x)]
        s1.free.count(x) == if 1 <= x <= s1.minted && !is_held(
            starts,
            ends,
            overlapping,
            next,
            x,
        ) {
            1nat
        } else {
            0nat
        } by {
        assert(is_held(starts, ends, overlapping, next, x) == (is_held(
            starts,
            ends,
            overlapping,
            k,
            x,
        ) || x == id));
        assert(s0.free.count(x) == if 1 <= x <= s0.minted && !is_held(
            starts,
            ends,
            overlapping,
            k,
            x,
        ) {
            1nat
        } else {
            0nat
        });
    }
    assert forall|x: u32| 1 <= x <= s1.minted implies #[trigger] is_given(
        starts,
        ends,
        overlapping,
        next,
        x,
    ) by {
        if x == id {
            assert(has_room(starts, ends, overlapping, next, i0));
            assert(s1.rooms[i0] == x);
        } else {
            assert(is_given(starts, ends, overlapping, k, x));
            let i = choose|i: int|
                has_room(starts, ends, overlapping, k, i) && #[trigger] state(
                    starts,
                    ends,
                    overlapping,
                    k,
                ).rooms[i] == x;
            assert(i != i0);
            assert(has_room(starts, ends, overlapping, next, i));
            assert(s1.rooms[i] == x);
        }
    }
    if !popped {
        assert forall|x: u32| 1 <= x <= s1.minted implies #[trigger] is_held(
            starts,
            ends,
            overlapping,
            next,
            x,
        ) by {
            assert(s1.free.count(x) == 0);
        }
        lemma_all_rooms_held(starts, ends, overlapping, next, m.time);
        assert(open_at(starts, ends, overlapping, m.time).len() >= s1.minted);
    }
}

/// Serving a departure keeps the sweep steady.
proof fn lemma_steady_departure(
    starts: Seq<Option<int>>,
    ends: Seq<Option<int>>,
    overlapping: bool,
    k: nat,
)
    requires
        is_orderly(starts, ends, overlapping),
        k < agenda(starts, ends, overlapping).len(),
        steady(starts, ends, overlapping, k),
        agenda(starts, ends, overlapping)[k as int].priority != arrival_priority(overlapping),
    ensures
        steady(starts, ends, overlapping, (k + 1) as nat),
{
    broadcast use vstd::multiset::group_multiset_axioms;

    let a = agenda(starts, ends, overlapping);
    let n = starts.len();
    let m = a[k as int];
    let i0 = m.index;
    let next = (k + 1) as nat;
    let s0 = state(starts, ends, overlapping, k);
    let s1 = state(starts, ends, overlapping, next);
    assert(s1 == crate::sweep::serve(s0, m, overlapping));
    lemma_step_effect(starts, ends, overlapping, k);
    let id = s0.rooms[i0];
    assert(s1.rooms == s0.rooms);
    assert(s1.minted == s0.minted);
    assert(s1.free == s0.free.insert(id));
    assert(has_room(starts, ends, overlapping, k, i0));
    assert(1 <= id <= s0.minted);
    assert(is_held(starts, ends, overlapping, k, id));
    assert forall|i: int| 0 <= i < n implies if has_room(starts, ends, overlapping, next, i) {
        1 <= #[trigger] s1.rooms[i] <= s1.minted
    } else {
        s1.rooms[i] == 0
    } by {
        assert(has_room(starts, ends, overlapping, next, i) == has_room(
            starts,
            ends,
            overlapping,
            k,
            i,
        ));
        assert(s1.rooms[i] == s0.rooms[i]);
    }
    assert forall|i: int, j: int|
        #![trigger s1.rooms[i], s1.rooms[j]]
        is_open_after(starts, ends, overlapping, next, i) && is_open_after(
            starts,
            ends,
            overlapping,
            next,
            j,
        ) && i != j implies s1.rooms[i] != s1.rooms[j] by {
        assert(is_open_after(starts, ends, overlapping, k, i));
        assert(is_open_after(starts, ends, overlapping, k, j));
        assert(s0.rooms[i] != s0.rooms[j]);
    }
    assert forall|i: int, j: int|
        #![trigger s1.rooms[i], s1.rooms[j]]
        has_room(starts, ends, overlapping, next, i) && has_room(starts, ends, overlapping, next, j)
            && conflict(starts, ends, overlapping, i, j) implies s1.rooms[i] != s1.rooms[j] by {
        assert(has_room(starts, ends, overlapping, k, i));
        assert(has_room(starts, ends, overlapping, k, j));
        assert(s0.rooms[i] != s0.rooms[j]);
    }
    assert forall|x: u32|
        #[trigger] is_held(starts, ends, overlapping, next, x) == (is_held(
            starts,
            ends,
            overlapping,
            k,
            x,
        ) && x != id) by {
        if is_held(starts, ends, overlapping, next, x) {
            let i = choose|i: int|
                is_open_after(starts, ends, overlapping, next, i) && #[trigger] state(
                    starts,
                    ends,
                    overlapping,
                    next,
                ).rooms[i] == x;
            assert(is_open_after(starts, ends, overlapping, k, i));
            assert(i != i0);
            assert(s0.rooms[i] == x);
            assert(s0.rooms[i] != s0.rooms[i0]);
            assert(is_held(starts, ends, overlapping, k, x));
        }
        if is_held(starts, ends, overlapping, k, x) && x != id {
            let i = choose|i: int|
                is_open_after(starts, ends, overlapping, k, i) && #[trigger] state(
                    starts,
                    ends,
                    overlapping,
                    k,
                ).rooms[i] == x;
            assert(i != i0);
            assert(is_open_after(starts, ends, overlapping, next, i));
            assert(s1.rooms[i] == x);
        }
    }
    assert forall|x: u32|
        #![trigger s1.free.count(x)]
        s1.free.count(x) == if 1 <= x <= s1.minted && !is_held(
            starts,
            ends,
            overlapping,
            next,
            x,
        ) {
            1nat
        } else {
            0nat
        } by {
        assert(is_held(starts, ends, overlapping, next, x) == (is_held(
            starts,
            ends,
            overlapping,
            k,
            x,
        ) && x != id));
        assert(s0.free.count(x) == if 1 <= x <= s0.minted && !is_held(
            starts,
            ends,
            overlapping,
            k,
            x,
        ) {
            1nat
        } else {
            0nat
        });
    }
    assert forall|x: u32| 1 <= x <= s1.minted implies #[trigger] is_given(
        starts,
        ends,
        overlapping,
        next,
        x,
    ) by {
        assert(is_given(starts, ends, overlapping, k, x));
        let i = choose|i: int|
            has_room(starts, ends, overlapping, k, i) && #[trigger] state(
                starts,
                ends,
                overlapping,
                k,
            ).rooms[i] == x;
        assert(has_room(starts, ends, overlapping, next, i));
        assert(s1.rooms[i] == x);
    }
}

/// The sweep of an orderly batch is steady throughout.
proof fn lemma_steady(starts: Seq<Option<int>>, ends: Seq<Option<int>>, overlapping: bool, k: nat)
    requires
        is_orderly(starts, ends, overlapping),
        k <= agenda(starts, ends, overlapping).len(),
    ensures
        steady(starts, ends, overlapping, k),
    decreases k,
{
    broadcast use vstd::multiset::group_multiset_axioms;

    if k == 0 {
        let st = state(starts, ends, overlapping, 0);
        assert(st == crate::sweep::start_of_sweep(starts.len()));
        assert forall|i: int| !has_room(starts, ends, overlapping, 0, i) by {
            if is_present(starts, ends, i) {
                lemma_places(starts, ends, overlapping, i);
            }
        }
        assert forall|i: int|
            #![trigger st.rooms[i]]
            0 <= i < starts.len() implies if has_room(starts, ends, overlapping, 0, i) {
            1 <= st.rooms[i] <= st.minted
        } else {
            st.rooms[i] == 0
        } by {}
        assert forall|i: int, j: int|
            #![trigger st.rooms[i], st.rooms[j]]
            is_open_after(starts, ends, overlapping, 0, i) && is_open_after(
                starts,
                ends,
                overlapping,
                0,
                j,
            ) && i != j implies st.rooms[i] != st.rooms[j] by {
            assert(!has_room(starts, ends, overlapping, 0, i));
        }
        assert forall|i: int, j: int|
            #![trigger st.rooms[i], st.rooms[j]]
            has_room(starts, ends, overlapping, 0, i) && has_room(starts, ends, overlapping, 0, j)
                && conflict(starts, ends, overlapping, i, j) implies st.rooms[i] != st.rooms[j] by {
        }
        assert forall|id: u32|
            #![trigger st.free.count(id)]
            st.free.count(id) == if 1 <= id <= st.minted && !is_held(
                starts,
                ends,
                overlapping,
                0,
                id,
            ) {
                1nat
            } else {
                0nat
            } by {}
        assert(open_at(starts, ends, overlapping, 0).len() >= 0);
        assert(reaches(starts, ends, overlapping, 0));
    } else {
        let before = (k - 1) as nat;
        lemma_steady(starts, ends, overlapping, before);
        if agenda(starts, ends, overlapping)[before as int].priority == arrival_priority(
            overlapping,
        ) {
            lemma_steady_arrival(starts, ends, overlapping, before);
        } else {
            lemma_steady_departure(starts, ends, overlapping, before);
        }
    }
}

/// Two intervals that are open at one instant conflict.
proof fn lemma_open_together_conflict(
    starts: Seq<Option<int>>,
    ends: Seq<Option<int>>,
    overlapping: bool,
    t: int,
    i: int,
    j: int,
)
    requires
        covers(starts, ends, overlapping, i, t),
        covers(starts, ends, overlapping, j, t),
        i != j,
    ensures
        conflict(starts, ends, overlapping, i, j),
{
}

/// After the sweep of an orderly batch, every interval with both endpoints
/// has a room, and the rooms start at 1.
pub proof fn lemma_present_interval_has_room(
    starts: Seq<Option<int>>,
    ends: Seq<Option<int>>,
    overlapping: bool,
    i: int,
)
    requires
        is_orderly(starts, ends, overlapping),
        is_present(starts, ends, i),
    ensures
        assignment(starts, ends, overlapping)[i] >= 1,
{
    let a = agenda(starts, ends, overlapping);
    lemma_steady(starts, ends, overlapping, a.len());
    lemma_places(starts, ends, overlapping, i);
    assert(has_room(starts, ends, overlapping, a.len(), i));
    assert(state(starts, ends, overlapping, a.len()).rooms[i] >= 1);
}

/// In an orderly batch, two intervals that share a room do not conflict.
pub proof fn lemma_shared_room_means_no_conflict(
    starts: Seq<Option<int>>,
    ends: Seq<Option<int>>,
    overlapping: bool,
    i: int,
    j: int,
)
    requires
        is_orderly(starts, ends, overlapping),
        is_present(starts, ends, i),
        is_present(starts, ends, j),
        i != j,
        assignment(starts, ends, overlapping)[i] == assignment(starts, ends, overlapping)[j],
    ensures
        !conflict(starts, ends, overlapping, i, j),
{
    let a = agenda(starts, ends, overlapping);
    let st = state(starts, ends, overlapping, a.len());
    lemma_steady(starts, ends, overlapping, a.len());
    lemma_places(starts, ends, overlapping, i);
    lemma_places(starts, ends, overlapping, j);
    assert(has_room(starts, ends, overlapping, a.len(), i));
    assert(has_room(starts, ends, overlapping, a.len(), j));
    if conflict(starts, ends, overlapping, i, j) {
        assert(st.rooms[i] != st.rooms[j]);
    }
}

/// In an orderly batch, the rooms in use are exactly the rooms from 1 up to
/// the number of rooms that the sweep opened.
proof fn lemma_rooms_used(starts: Seq<Option<int>>, ends: Seq<Option<int>>, overlapping: bool)
    requires
        is_orderly(starts, ends, overlapping),
    ensures
        rooms_used(starts, ends, assignment(starts, ends, overlapping)).finite(),
        rooms_used(starts, ends, assignment(starts, ends, overlapping)).len() == state(
            starts,
            ends,
            overlapping,
            agenda(starts, ends, overlapping).len(),
        ).minted,
        forall|id: u32|
            rooms_used(starts, ends, assignment(starts, ends, overlapping)).contains(id) <==> 1
                <= id <= rooms_used(starts, ends, assignment(starts, ends, overlapping)).len(),
{
    let a = agenda(starts, ends, overlapping);
    let st = state(starts, ends, overlapping, a.len());
    let used = rooms_used(starts, ends, assignment(starts, ends, overlapping));
    let ids = set_int_range(1, st.minted as int + 1);
    let room = |v: int| v as u32;
    lemma_steady(starts, ends, overlapping, a.len());
    lemma_int_range(1, st.minted as int + 1);
    assert forall|id: u32| used.contains(id) <==> ids.map(room).contains(id) by {
        if used.contains(id) {
            let i = choose|i: int|
                is_present(starts, ends, i) && #[trigger] assignment(starts, ends, overlapping)[i]
                    == id;
            lemma_places(starts, ends, overlapping, i);
            assert(has_room(starts, ends, overlapping, a.len(), i));
            assert(1 <= st.rooms[i] <= st.minted);
            assert(ids.contains(id as int));
            assert(room(id as int) == id);
        }
        if ids.map(room).contains(id) {
            let v = choose|v: int| ids.contains(v) && id == room(v);
            assert(is_given(starts, ends, overlapping, a.len(), id));
            let i = choose|i: int|
                has_room(starts, ends, overlapping, a.len(), i) && #[trigger] state(
                    starts,
                    ends,
                    overlapping,
                    a.len(),
                ).rooms[i] == id;
            assert(assignment(starts, ends, overlapping)[i] == id);
        }
    }
    assert(ids.map(room) =~= used);
    lemma_map_size(ids, used, room);
    assert forall|id: u32| used.contains(id) <==> 1 <= id <= used.len() by {
        if 1 <= id <= used.len() {
            assert(ids.contains(id as int));
            assert(room(id as int) == id);
            assert(ids.map(room).contains(id));
        }
    }
}

/// In an orderly batch, the rooms in use are consecutive and start at 1:
/// a room is in use exactly if it lies between 1 and the number of rooms in
/// use.
pub proof fn lemma_rooms_are_consecutive(
    starts: Seq<Option<int>>,
    ends: Seq<Option<int>>,
    overlapping: bool,
)
    requires
        is_orderly(starts, ends, overlapping),
    ensures
        rooms_used(starts, ends, assignment(starts, ends, overlapping)).finite(),
        forall|id: u32|
            rooms_used(starts, ends, assignment(starts, ends, overlapping)).contains(id) <==> 1
                <= id <= rooms_used(starts, ends, assignment(starts, ends, overlapping)).len(),
{
    lemma_rooms_used(starts, ends, overlapping);
}

/// In an orderly batch, the number of rooms in use is the largest number of
/// intervals that are open at one instant: at no instant are more intervals
/// open than rooms are in use, and at some instant as many are.
pub proof fn lemma_rooms_equal_peak(
    starts: Seq<Option<int>>,
    ends: Seq<Option<int>>,
    overlapping: bool,
)
    requires
        is_orderly(starts, ends, overlapping),
    ensures
        uses_fewest_rooms(starts, ends, overlapping, assignment(starts, ends, overlapping)),
{
    let a = agenda(starts, ends, overlapping);
    let st = state(starts, ends, overlapping, a.len());
    let used = rooms_used(starts, ends, assignment(starts, ends, overlapping));
    let room = |i: int| assignment(starts, ends, overlapping)[i];
    lemma_steady(starts, ends, overlapping, a.len());
    lemma_rooms_used(starts, ends, overlapping);
    assert forall|t: int|
        #![trigger open_at(starts, ends, overlapping, t)]
        open_at(starts, ends, overlapping, t).finite() && open_at(
            starts,
            ends,
            overlapping,
            t,
        ).len() <= used.len() by {
        let open = open_at(starts, ends, overlapping, t);
        lemma_open_at_finite(starts, ends, overlapping, t);
        assert forall|i: int, j: int|
            open.contains(i) && open.contains(j) && #[trigger] room(i) == #[trigger] room(
                j,
            ) implies i == j by {
            if i != j {
                lemma_open_together_conflict(starts, ends, overlapping, t, i, j);
                lemma_shared_room_means_no_conflict(starts, ends, overlapping, i, j);
            }
        }
        lemma_map_size(open, open.map(room), room);
        assert(open.map(room).subset_of(used)) by {
            assert forall|id: u32| open.map(room).contains(id) implies used.contains(id) by {
                let i = choose|i: int| open.contains(i) && id == room(i);
                assert(is_present(starts, ends, i));
                assert(assignment(starts, ends, overlapping)[i] == id);
            }
        }
        lemma_len_subset(open.map(room), used);
    }
    let t = choose|t: int| #[trigger] open_at(starts, ends, overlapping, t).len() >= st.minted;
    assert(open_at(starts, ends, overlapping, t).len() == used.len());
}

/// In an orderly batch, no two intervals that conflict share a room, and
/// every interval with both endpoints has a room from 1 on.
pub proof fn lemma_rooms_are_conflict_free(
    starts: Seq<Option<int>>,
    ends: Seq<Option<int>>,
    overlapping: bool,
)
    requires
        is_orderly(starts, ends, overlapping),
    ensures
        is_conflict_free(starts, ends, overlapping, assignment(starts, ends, overlapping)),
{
    let rooms = assignment(starts, ends, overlapping);
    assert forall|i: int| is_present(starts, ends, i) implies #[trigger] rooms[i] >= 1 by {
        lemma_present_interval_has_room(starts, ends, overlapping, i);
    }
    assert forall|i: int, j: int|
        #![trigger rooms[i], rooms[j]]
        conflict(starts, ends, overlapping, i, j) implies rooms[i] != rooms[j] by {
        if rooms[i] == rooms[j] {
            lemma_shared_room_means_no_conflict(starts, ends, overlapping, i, j);
        }
    }
}

/// Interval `j` is open at the moment at which interval `i` arrives: it has
/// arrived before `i`, and departs after the arrival of `i`.
pub open spec fn meets(
    starts: Seq<Option<int>>,
    ends: Seq<Option<int>>,
    overlapping: bool,
    i: int,
    j: int,
) -> bool {
    &&& is_present(starts, ends, i)
    &&& is_present(starts, ends, j)
    &&& i != j
    &&& mark_lt(arrival(starts, overlapping, j), arrival(starts, overlapping, i))
    &&& mark_lt(arrival(starts, overlapping, i), departure(ends, overlapping, j))
}

/// Room `id` is held by an interval that is open at the moment at which
/// interval `i` arrives.
pub open spec fn is_taken(
    starts: Seq<Option<int>>,
    ends: Seq<Option<int>>,
    overlapping: bool,
    i: int,
    id: u32,
) -> bool {
    exists|j: int|
        meets(starts, ends, overlapping, i, j) && #[trigger] assignment(
            starts,
            ends,
            overlapping,
        )[j] == id
}

/// Once an interval has arrived, its room stays as it is.
proof fn lemma_room_settled(
    starts: Seq<Option<int>>,
    ends: Seq<Option<int>>,
    overlapping: bool,
    k: nat,
    j: int,
)
    requires
        is_orderly(starts, ends, overlapping),
        is_present(starts, ends, j),
        arrival_place(starts, ends, overlapping, j) < k <= agenda(starts, ends, overlapping).len(),
    ensures
        state(starts, ends, overlapping, k).rooms[j] == assignment(starts, ends, overlapping)[j],
    decreases agenda(starts, ends, overlapping).len() - k,
{
    let a = agenda(starts, ends, overlapping);
    if k < a.len() {
        let next = (k + 1) as nat;
        let m = a[k as int];
        lemma_agenda(starts, ends, overlapping);
        lemma_sweep_bounds(starts, ends, overlapping, k);
        lemma_place_unique(starts, ends, overlapping, j, k as int);
        assert(a.contains(m));
        assert(is_mark_of(starts, ends, overlapping, m));
        assert(state(starts, ends, overlapping, next) == crate::sweep::serve(
            state(starts, ends, overlapping, k),
            m,
            overlapping,
        ));
        assert(state(starts, ends, overlapping, next).rooms[j] == state(
            starts,
            ends,
            overlapping,
            k,
        ).rooms[j]);
        lemma_room_settled(starts, ends, overlapping, next, j);
    }
}

/// In an orderly batch every interval gets the first room that fits: the
/// smallest room from 1 on that no interval holds which is open at the
/// moment of its arrival.
pub proof fn lemma_first_fit(
    starts: Seq<Option<int>>,
    ends: Seq<Option<int>>,
    overlapping: bool,
    i: int,
)
    requires
        is_orderly(starts, ends, overlapping),
        is_present(starts, ends, i),
    ensures
        assignment(starts, ends, overlapping)[i] >= 1,
        !is_taken(starts, ends, overlapping, i, assignment(starts, ends, overlapping)[i]),
        forall|id: u32|
            1 <= id < assignment(starts, ends, overlapping)[i] ==> #[trigger] is_taken(
                starts,
                ends,
                overlapping,
                i,
                id,
            ),
{
    broadcast use vstd::multiset::group_multiset_axioms;

    let a = agenda(starts, ends, overlapping);
    let rooms = assignment(starts, ends, overlapping);
    lemma_places(starts, ends, overlapping, i);
    let p = arrival_place(starts, ends, overlapping, i) as nat;
    let next = (p + 1) as nat;
    let s0 = state(starts, ends, overlapping, p);
    let s1 = state(starts, ends, overlapping, next);
    let m = a[p as int];
    lemma_steady(starts, ends, overlapping, p);
    lemma_steady(starts, ends, overlapping, next);
    lemma_step_effect(starts, ends, overlapping, p);
    lemma_sweep_bounds(starts, ends, overlapping, next);
    lemma_room_settled(starts, ends, overlapping, next, i);
    assert(s1 == crate::sweep::serve(s0, m, overlapping));
    let id = s1.rooms[i];
    assert(id == rooms[i]);
    assert forall|j: int|
        is_open_after(starts, ends, overlapping, p, j) <==> meets(
            starts,
            ends,
            overlapping,
            i,
            j,
        ) by {
        if is_present(starts, ends, j) && j != i {
            lemma_places(starts, ends, overlapping, j);
            lemma_place_unique(starts, ends, overlapping, j, p as int);
            lemma_agenda_places(
                starts,
                ends,
                overlapping,
                arrival_place(starts, ends, overlapping, j),
                p as int,
            );
            lemma_agenda_places(
                starts,
                ends,
                overlapping,
                p as int,
                departure_place(starts, ends, overlapping, j),
            );
        }
    }
    assert forall|j: int| is_open_after(starts, ends, overlapping, p, j) implies s0.rooms[j]
        == #[trigger] rooms[j] by {
        lemma_room_settled(starts, ends, overlapping, p, j);
    }
    if s0.free.len() > 0 {
        lemma_least_exists(s0.free);
        assert(is_least(s0.free, id));
    } else {
        assert forall|x: u32| s0.free.count(x) == 0 by {
            assert(s0.free.count(x) <= s0.free.len());
        }
    }
    assert forall|j: int| meets(starts, ends, overlapping, i, j) implies #[trigger] rooms[j]
        != rooms[i] by {
        assert(is_open_after(starts, ends, overlapping, p, j));
        assert(has_room(starts, ends, overlapping, p, j));
        assert(s0.rooms[j] == rooms[j]);
        if s0.rooms[j] == id {
            assert(is_held(starts, ends, overlapping, p, id));
        }
    }
    assert forall|x: u32| 1 <= x < rooms[i] implies #[trigger] is_taken(
        starts,
        ends,
        overlapping,
        i,
        x,
    ) by {
        assert(s0.free.count(x) == 0);
        assert(is_held(starts, ends, overlapping, p, x));
        let j = choose|j: int|
            is_open_after(starts, ends, overlapping, p, j) && #[trigger] state(
                starts,
                ends,
                overlapping,
                p,
            ).rooms[j] == x;
        assert(meets(starts, ends, overlapping, i, j));
        assert(rooms[j] == x);
    }
}

} // verus!
