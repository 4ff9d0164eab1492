//! An interval that lacks an endpoint leaves the other intervals alone.

use vstd::prelude::*;
use vstd::relations::sorted_by;
use vstd::seq_lib::lemma_sorted_unique;
use crate::agenda::is_mark_of;
use crate::agenda::lemma_agenda;
use crate::event::Mark;
use crate::event::agenda;
use crate::event::is_present;
use crate::event::lemma_mark_order_total;
use crate::event::mark_order;
use crate::sweep::assignment;
use crate::sweep::lemma_sweep_bounds;
use crate::sweep::serve;
use crate::sweep::start_of_sweep;
use crate::sweep::sweep_after;

verus! {

/// The mark `m` as it reads once interval `p` is taken out of the batch:
/// the intervals behind `p` move up by one.
pub open spec fn without(m: Mark, p: int) -> Mark {
    Mark {
        time: m.time,
        priority: m.priority,
        index: if m.index > p {
            m.index - 1
        } else {
            m.index
        },
    }
}

/// The mark `m` as it reads once an interval is put into the batch at `p`.
spec fn restored(m: Mark, p: int) -> Mark {
    Mark {
        time: m.time,
        priority: m.priority,
        index: if m.index >= p {
            m.index + 1
        } else {
            m.index
        },
    }
}

/// Two sequences of marks that hold the same marks, each once, hold them
/// equally often.
proof fn lemma_same_marks(x: Seq<Mark>, y: Seq<Mark>)
    requires
        x.no_duplicates(),
        y.no_duplicates(),
        forall|m: Mark| x.contains(m) <==> y.contains(m),
    ensures
        x.to_multiset() == y.to_multiset(),
{
    broadcast use vstd::seq_lib::group_to_multiset_ensures;
    broadcast use vstd::multiset::group_multiset_axioms;

    x.lemma_multiset_has_no_duplicates();
    y.lemma_multiset_has_no_duplicates();
    assert forall|m: Mark| x.to_multiset().count(m) == y.to_multiset().count(m) by {
        assert(x.contains(m) <==> x.to_multiset().count(m) > 0);
        assert(y.contains(m) <==> y.to_multiset().count(m) > 0);
    }
    assert(x.to_multiset() =~= y.to_multiset());
}

/// Taking an interval that lacks an endpoint out of a batch takes nothing
/// out of its agenda: the marks stay, in their order, and only name the
/// intervals by their new places.
pub proof fn lemma_agenda_without(
    starts: Seq<Option<int>>,
    ends: Seq<Option<int>>,
    overlapping: bool,
    p: int,
)
    requires
        starts.len() == ends.len(),
        0 <= p < starts.len(),
        !is_present(starts, ends, p),
    ensures
        agenda(starts.remove(p), ends.remove(p), overlapping) == agenda(
            starts,
            ends,
            overlapping,
        ).map_values(|m: Mark| without(m, p)),
{
    let full = agenda(starts, ends, overlapping);
    let fewer_starts = starts.remove(p);
    let fewer_ends = ends.remove(p);
    let fewer = agenda(fewer_starts, fewer_ends, overlapping);
    let moved = full.map_values(|m: Mark| without(m, p));
    lemma_agenda(starts, ends, overlapping);
    lemma_agenda(fewer_starts, fewer_ends, overlapping);
    lemma_mark_order_total();
    assert forall|k: int| 0 <= k < full.len() implies is_mark_of(
        starts,
        ends,
        overlapping,
        #[trigger] full[k],
    ) by {
        assert(full.contains(full[k]));
    }
    assert forall|m: Mark| is_mark_of(starts, ends, overlapping, m) implies is_mark_of(
        fewer_starts,
        fewer_ends,
        overlapping,
        #[trigger] without(m, p),
    ) by {}
    assert forall|m: Mark|
        is_mark_of(fewer_starts, fewer_ends, overlapping, m) implies is_mark_of(
        starts,
        ends,
        overlapping,
        #[trigger] restored(m, p),
    ) && without(restored(m, p), p) == m by {}
    assert forall|m: Mark| moved.contains(m) <==> fewer.contains(m) by {
        if moved.contains(m) {
            let k = choose|k: int| 0 <= k < moved.len() && moved[k] == m;
            assert(is_mark_of(starts, ends, overlapping, full[k]));
            assert(m == without(full[k], p));
        }
        if fewer.contains(m) {
            assert(is_mark_of(starts, ends, overlapping, restored(m, p)));
            assert(full.contains(restored(m, p)));
            let k = choose|k: int| 0 <= k < full.len() && full[k] == restored(m, p);
            assert(moved[k] == m);
        }
    }
    assert forall|j: int, k: int| 0 <= j < moved.len() && 0 <= k < moved.len() && j != k implies moved[j]
        != moved[k] by {
        assert(is_mark_of(starts, ends, overlapping, full[j]));
        assert(is_mark_of(starts, ends, overlapping, full[k]));
        assert(full[j] != full[k]);
    }
    assert forall|j: int, k: int| 0 <= j < k < moved.len() implies mark_order()(
        moved[j],
        moved[k],
    ) by {
        assert(is_mark_of(starts, ends, overlapping, full[j]));
        assert(is_mark_of(starts, ends, overlapping, full[k]));
        assert(mark_order()(full[j], full[k]));
    }
    assert(sorted_by(moved, mark_order()));
    lemma_same_marks(moved, fewer);
    lemma_sorted_unique(moved, fewer, mark_order());
}

/// The sweep of a batch without an interval that lacks an endpoint goes
/// through the same states as the sweep of the whole batch, but for the
/// place of that interval.
proof fn lemma_sweep_without(
    starts: Seq<Option<int>>,
    ends: Seq<Option<int>>,
    overlapping: bool,
    p: int,
    k: nat,
)
    requires
        starts.len() == ends.len(),
        0 <= p < starts.len(),
        !is_present(starts, ends, p),
        k <= agenda(starts, ends, overlapping).len(),
    ensures
        ({
            let whole = sweep_after(agenda(starts, ends, overlapping), starts.len(), overlapping, k);
            let rest = sweep_after(
                agenda(starts.remove(p), ends.remove(p), overlapping),
                starts.remove(p).len(),
                overlapping,
                k,
            );
            &&& rest.rooms == whole.rooms.remove(p)
            &&& rest.free == whole.free
            &&& rest.minted == whole.minted
        }),
    decreases k,
{
    let full = agenda(starts, ends, overlapping);
    let fewer = agenda(starts.remove(p), ends.remove(p), overlapping);
    let n = starts.len();
    let whole = sweep_after(full, n, overlapping, k);
    let rest = sweep_after(fewer, starts.remove(p).len(), overlapping, k);
    lemma_agenda_without(starts, ends, overlapping, p);
    if k == 0 {
        assert(rest.rooms =~= whole.rooms.remove(p));
    } else {
        let before = (k - 1) as nat;
        lemma_sweep_without(starts, ends, overlapping, p, before);
        lemma_sweep_bounds(starts, ends, overlapping, before);
        lemma_agenda(starts, ends, overlapping);
        let whole0 = sweep_after(full, n, overlapping, before);
        let rest0 = sweep_after(fewer, starts.remove(p).len(), overlapping, before);
        let m = full[k - 1];
        assert(full.contains(m));
        assert(is_mark_of(starts, ends, overlapping, m));
        assert(fewer[k - 1] == without(m, p));
        assert(whole == serve(whole0, m, overlapping));
        assert(rest == serve(rest0, without(m, p), overlapping));
        assert(rest0.rooms[without(m, p).index] == whole0.rooms[m.index]);
        assert(rest.rooms =~= whole.rooms.remove(p));
    }
}

/// An interval that lacks an endpoint does not change the rooms of the
/// others: without it, each of them gets the room that it gets with it.
pub proof fn lemma_absent_interval_changes_nothing(
    starts: Seq<Option<int>>,
    ends: Seq<Option<int>>,
    overlapping: bool,
    p: int,
)
    requires
        starts.len() == ends.len(),
        0 <= p < starts.len(),
        !is_present(starts, ends, p),
    ensures
        assignment(starts.remove(p), ends.remove(p), overlapping) == assignment(
            starts,
            ends,
            overlapping,
        ).remove(p),
{
    lemma_agenda_without(starts, ends, overlapping, p);
    lemma_sweep_without(starts, ends, overlapping, p, agenda(starts, ends, overlapping).len());
}

} // verus!
