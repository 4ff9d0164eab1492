//! What the agenda of a batch holds, and in which order.

use vstd::prelude::*;
use vstd::relations::sorted_by;
use crate::event::Mark;
use crate::event::agenda;
use crate::event::arrival;
use crate::event::departure;
use crate::event::emitted;
use crate::event::is_present;
use crate::event::lemma_mark_order_total;
use crate::event::mark_le;
use crate::event::mark_order;

verus! {

/// `m` is the arrival or the departure of an interval that has both
/// endpoints.
pub open spec fn is_mark_of(
    starts: Seq<Option<int>>,
    ends: Seq<Option<int>>,
    overlapping: bool,
    m: Mark,
) -> bool {
    &&& is_present(starts, ends, m.index)
    &&& (m == arrival(starts, overlapping, m.index) || m == departure(ends, overlapping, m.index))
}

/// `a` is served strictly before `b`.
pub open spec fn mark_lt(a: Mark, b: Mark) -> bool {
    mark_le(a, b) && a != b
}

/// The marks emitted for the first `n` intervals are the arrivals and
/// departures of those among them that have both endpoints, each once.
pub proof fn lemma_emitted(
    starts: Seq<Option<int>>,
    ends: Seq<Option<int>>,
    overlapping: bool,
    n: nat,
)
    ensures
        forall|m: Mark|
            #[trigger] emitted(starts, ends, overlapping, n).contains(m) <==> (is_mark_of(
                starts,
                ends,
                overlapping,
                m,
            ) && m.index < n),
        emitted(starts, ends, overlapping, n).no_duplicates(),
    decreases n,
{
    if n > 0 {
        lemma_emitted(starts, ends, overlapping, (n - 1) as nat);
        let prev = emitted(starts, ends, overlapping, (n - 1) as nat);
        let cur = emitted(starts, ends, overlapping, n);
        if is_present(starts, ends, n - 1) {
            let a = arrival(starts, overlapping, n - 1);
            let d = departure(ends, overlapping, n - 1);
            assert(cur == prev.push(a).push(d));
            assert(cur[prev.len() as int] == a);
            assert(cur[prev.len() as int + 1] == d);
            assert forall|m: Mark| #[trigger] cur.contains(m) <==> (is_mark_of(
                starts,
                ends,
                overlapping,
                m,
            ) && m.index < n) by {
                if cur.contains(m) {
                    let k = choose|k: int| 0 <= k < cur.len() && cur[k] == m;
                    if k < prev.len() {
                        assert(prev[k] == m);
                        assert(prev.contains(m));
                    }
                }
                if is_mark_of(starts, ends, overlapping, m) && m.index < n {
                    if m.index < n - 1 {
                        assert(prev.contains(m));
                        let k = choose|k: int| 0 <= k < prev.len() && prev[k] == m;
                        assert(cur[k] == m);
                    }
                }
            }
            assert forall|i: int, j: int| 0 <= i < cur.len() && 0 <= j < cur.len() && i != j implies cur[i]
                != cur[j] by {
                if i < prev.len() {
                    assert(prev.contains(prev[i]));
                }
                if j < prev.len() {
                    assert(prev.contains(prev[j]));
                }
            }
        } else {
            assert(cur == prev);
        }
    }
}

/// The agenda is sorted, holds nothing twice, and holds exactly the arrivals
/// and departures of the intervals that have both endpoints.
pub proof fn lemma_agenda(starts: Seq<Option<int>>, ends: Seq<Option<int>>, overlapping: bool)
    ensures
        sorted_by(agenda(starts, ends, overlapping), mark_order()),
        agenda(starts, ends, overlapping).no_duplicates(),
        forall|m: Mark|
            #[trigger] agenda(starts, ends, overlapping).contains(m) <==> is_mark_of(
                starts,
                ends,
                overlapping,
                m,
            ),
{
    broadcast use vstd::seq_lib::group_to_multiset_ensures;

    let raw = emitted(starts, ends, overlapping, starts.len());
    let a = agenda(starts, ends, overlapping);
    lemma_mark_order_total();
    raw.lemma_sort_by_ensures(mark_order());
    lemma_emitted(starts, ends, overlapping, starts.len());
    raw.lemma_multiset_has_no_duplicates();
    a.lemma_multiset_has_no_duplicates_conv();
    assert forall|m: Mark| #[trigger] a.contains(m) <==> is_mark_of(starts, ends, overlapping, m) by {
        assert(a.contains(m) <==> a.to_multiset().count(m) > 0);
        assert(raw.contains(m) <==> raw.to_multiset().count(m) > 0);
    }
}

/// In the agenda, an earlier place holds a mark that is served strictly
/// earlier, and the other way round.
pub proof fn lemma_agenda_places(
    starts: Seq<Option<int>>,
    ends: Seq<Option<int>>,
    overlapping: bool,
    j: int,
    k: int,
)
    requires
        0 <= j < agenda(starts, ends, overlapping).len(),
        0 <= k < agenda(starts, ends, overlapping).len(),
    ensures
        j < k <==> mark_lt(
            agenda(starts, ends, overlapping)[j],
            agenda(starts, ends, overlapping)[k],
        ),
{
    let a = agenda(starts, ends, overlapping);
    lemma_agenda(starts, ends, overlapping);
    if j < k {
        assert(mark_order()(a[j], a[k]));
    } else if k < j {
        assert(mark_order()(a[k], a[j]));
    }
}

} // verus!
