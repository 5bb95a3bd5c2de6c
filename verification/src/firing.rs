//! What is scheduled fires: each event once, at its own instant, in an order that the
//! scheduling settles.

use crate::runtime::{self, Item};
use crate::scheduler::{EndReason, Scheduler, VirtualInstant};
use vstd::prelude::*;

verus! {

/// `fires` leads from scheduler to scheduler by firing one event at a time.
pub open spec fn is_firing<M>(fires: Seq<Scheduler<M>>) -> bool {
    &&& fires.len() > 0
    &&& forall|i: int|
        0 <= i < fires.len() - 1 ==> #[trigger] fires[i].fired_to(fires[i + 1])
}

/// When an event asked for at `at` fires that is scheduled at `now`.
pub open spec fn instant_of(at: VirtualInstant, now: VirtualInstant) -> VirtualInstant {
    if at.0 < now.0 {
        now
    } else {
        at
    }
}

/// Whether what is pending in `s` are the first `k` items, each once, under the numbers
/// from `first` on and at their own instants.
pub open spec fn holds_items<M>(
    s: Scheduler<M>,
    items: Seq<Item<M>>,
    k: int,
    first: u64,
    now: VirtualInstant,
) -> bool {
    let p = s.pending();
    &&& p.len() == k
    &&& forall|i: int|
        0 <= i < k ==> {
            let number = (#[trigger] p[i]).tie_break.seq - first;
            &&& 0 <= number < k
            &&& p[i].event == items[number].1
            &&& p[i].at == instant_of(items[number].0, now)
        }
    &&& forall|i: int, j: int|
        0 <= i < j < k ==> (#[trigger] p[i]).tie_break.seq != (#[trigger] p[j]).tie_break.seq
    &&& forall|number: int| first <= number < first + k ==> #[trigger] has_number(s, number)
}

/// Whether an event with this number is pending.
pub open spec fn has_number<M>(s: Scheduler<M>, number: int) -> bool {
    exists|i: int|
        0 <= i < s.pending().len() && (#[trigger] s.pending()[i]).tie_break.seq == number
}

/// Whether the event with this number is one of the first `n` to fire.
pub open spec fn fires_number<M>(fires: Seq<Scheduler<M>>, n: int, number: int) -> bool {
    exists|i: int|
        0 <= i < n && (#[trigger] fires[i]).pending()[0].tie_break.seq == number
}

proof fn lemma_holds_next<M>(
    s: Scheduler<M>,
    t: Scheduler<M>,
    items: Seq<Item<M>>,
    k: int,
    first: u64,
    now: VirtualInstant,
)
    requires
        0 <= k < items.len(),
        s.time() == now,
        s.scheduled_count() == first + k,
        holds_items(s, items, k, first, now),
        s.scheduled_to(t, items[k].0, items[k].1),
    ensures
        holds_items(t, items, k + 1, first, now),
{
    let p = s.pending();
    let q = t.pending();
    let e = s.entry(items[k].0, items[k].1);
    let x = choose|x: int| 0 <= x <= p.len() && #[trigger] p.insert(x, e) == q;
    assert forall|i: int| 0 <= i < q.len() implies q[i] == (if i < x {
        p[i]
    } else if i == x {
        e
    } else {
        p[i - 1]
    }) by {}
    assert(e.tie_break.seq == first + k);
    assert forall|i: int| 0 <= i < k + 1 implies {
        let number = (#[trigger] q[i]).tie_break.seq - first;
        &&& 0 <= number < k + 1
        &&& q[i].event == items[number].1
        &&& q[i].at == instant_of(items[number].0, now)
    } by {
        if i < x {
            assert(q[i] == p[i]);
        } else if i > x {
            assert(q[i] == p[i - 1]);
        }
    }
    assert forall|i: int, j: int| 0 <= i < j < k + 1 implies (#[trigger] q[i]).tie_break.seq != (
    #[trigger] q[j]).tie_break.seq by {
        let a = if i < x {
            i
        } else {
            i - 1
        };
        let b = if j < x {
            j
        } else {
            j - 1
        };
        if i == x {
            assert(q[j] == p[b]);
        } else if j == x {
            assert(q[i] == p[a]);
        } else {
            assert(q[i] == p[a] && q[j] == p[b]);
        }
    }
    assert forall|number: int| first <= number < first + k + 1 implies #[trigger] has_number(
        t,
        number,
    ) by {
        if number == first + k {
            assert(q[x].tie_break.seq == number);
        } else {
            assert(has_number(s, number));
            let i = choose|i: int|
                0 <= i < p.len() && (#[trigger] p[i]).tie_break.seq == number;
            if i < x {
                assert(q[i] == p[i]);
            } else {
                assert(q[i + 1] == p[i]);
            }
        }
    }
}

proof fn lemma_chain_holds<M>(chain: Seq<Scheduler<M>>, items: Seq<Item<M>>, k: nat)
    requires
        runtime::chained(chain, items),
        chain[0].pending().len() == 0,
        k <= items.len(),
    ensures
        chain[k as int].time() == chain[0].time(),
        chain[k as int].fired() == chain[0].fired(),
        chain[k as int].limits() == chain[0].limits(),
        chain[k as int].scheduled_count() == chain[0].scheduled_count() + k,
        holds_items(
            chain[k as int],
            items,
            k as int,
            chain[0].scheduled_count(),
            chain[0].time(),
        ),
    decreases k,
{
    if k > 0 {
        let l = k - 1;
        lemma_chain_holds(chain, items, l as nat);
        assert(chain[l].scheduled_to(chain[l + 1], items[l].0, items[l].1));
        lemma_holds_next(
            chain[l],
            chain[l + 1],
            items,
            l,
            chain[0].scheduled_count(),
            chain[0].time(),
        );
    }
}

/// Firing takes the pending events away one by one, from the front.
proof fn lemma_fires<M>(fires: Seq<Scheduler<M>>, i: nat)
    requires
        is_firing(fires),
        i < fires.len(),
        i <= fires[0].pending().len(),
    ensures
        fires[i as int].pending() == fires[0].pending().skip(i as int),
        fires[i as int].fired() == fires[0].fired() + i,
        fires[i as int].limits() == fires[0].limits(),
        i > 0 ==> fires[i as int].time() == fires[0].pending()[i - 1].at,
    decreases i,
{
    let p = fires[0].pending();
    if i == 0 {
        assert(p.skip(0) =~= p);
    } else {
        let l = i - 1;
        lemma_fires(fires, l as nat);
        assert(fires[l].fired_to(fires[l + 1]));
        assert(p.skip(l).drop_first() =~= p.skip(i as int));
        assert(p.skip(l)[0] == p[l]);
    }
}

/// What was scheduled on an empty queue fires: each event once, at the instant it was
/// asked for or at once where that had passed, at instants that do not fall; and once
/// all have fired the run is over. Neither bound of the budget may be reached before.
pub proof fn law_all_that_is_scheduled_fires<M>(
    start: Scheduler<M>,
    full: Scheduler<M>,
    items: Seq<Item<M>>,
    fires: Seq<Scheduler<M>>,
)
    requires
        start.pending().len() == 0,
        runtime::all_scheduled(start, full, items),
        start.fired() + items.len() <= start.limits().max_events,
        start.time().0 < start.limits().max_virtual_nanos,
        forall|i: int|
            0 <= i < items.len() ==> (#[trigger] items[i]).0.0 < start.limits().max_virtual_nanos,
        is_firing(fires),
        fires[0] == full,
        fires.len() == items.len() + 1,
    ensures
        forall|i: int|
            0 <= i < items.len() ==> {
                let fired = (#[trigger] fires[i]).pending()[0];
                let number = fired.tie_break.seq - start.scheduled_count();
                &&& fires[i].ending() is None
                &&& 0 <= number < items.len()
                &&& fired.event == items[number].1
                &&& fired.at == instant_of(items[number].0, start.time())
                &&& fires[i + 1].time() == fired.at
            },
        forall|number: int|
            start.scheduled_count() <= number < start.scheduled_count() + items.len()
                ==> #[trigger] fires_number(fires, items.len() as int, number),
        forall|i: int, j: int|
            0 <= i < j < items.len() ==> {
                let one = (#[trigger] fires[i]).pending()[0];
                let two = (#[trigger] fires[j]).pending()[0];
                &&& one.at.0 <= two.at.0
                &&& one.tie_break.seq != two.tie_break.seq
            },
        fires.last().ending() == Some(
            if start.fired() + items.len() == start.limits().max_events {
                EndReason::EventBudget
            } else {
                EndReason::Quiescent
            },
        ),
{
    let n = items.len();
    let p = full.pending();
    let first = start.scheduled_count();
    let now = start.time();
    let chain = choose|chain: Seq<Scheduler<M>>| #[trigger]
        runtime::chained(chain, items) && chain[0] == start && chain.last() == full;
    lemma_chain_holds(chain, items, n);
    assert(chain[n as int] == full);
    assert(full.wf());
    assert forall|i: int| 0 <= i < n implies {
        let fired = (#[trigger] fires[i]).pending()[0];
        let number = fired.tie_break.seq - first;
        &&& fired == p[i]
        &&& fires[i].ending() is None
        &&& 0 <= number < n
        &&& fired.event == items[number].1
        &&& fired.at == instant_of(items[number].0, now)
        &&& fires[i + 1].time() == fired.at
    } by {
        lemma_fires(fires, i as nat);
        lemma_fires(fires, (i + 1) as nat);
        assert(fires[i].pending()[0] == p[i]);
        let number = p[i].tie_break.seq - first;
        assert(items[number].0.0 < start.limits().max_virtual_nanos);
        if i > 0 {
            let before = p[i - 1].tie_break.seq - first;
            assert(items[before].0.0 < start.limits().max_virtual_nanos);
        }
    }
    assert forall|number: int| first <= number < first + n implies #[trigger] fires_number(
        fires,
        n as int,
        number,
    ) by {
        assert(has_number(full, number));
        let i = choose|i: int| 0 <= i < p.len() && (#[trigger] p[i]).tie_break.seq == number;
        assert(fires[i].pending()[0] == p[i]);
    }
    assert forall|i: int, j: int| 0 <= i < j < n implies {
        let one = (#[trigger] fires[i]).pending()[0];
        let two = (#[trigger] fires[j]).pending()[0];
        &&& one.at.0 <= two.at.0
        &&& one.tie_break.seq != two.tie_break.seq
    } by {
        assert(fires[i].pending()[0] == p[i]);
        assert(fires[j].pending()[0] == p[j]);
        assert(p[i].before(p[j]));
    }
    lemma_fires(fires, n);
    if n > 0 {
        let number = p[n - 1].tie_break.seq - first;
        assert(items[number].0.0 < start.limits().max_virtual_nanos);
    }
}

proof fn lemma_chains_agree<M>(
    c: Seq<Scheduler<M>>,
    d: Seq<Scheduler<M>>,
    items: Seq<Item<M>>,
    k: nat,
)
    requires
        runtime::chained(c, items),
        runtime::chained(d, items),
        c[0].same_queue(d[0]),
        k <= items.len(),
    ensures
        c[k as int].same_queue(d[k as int]),
    decreases k,
{
    if k > 0 {
        let l = k - 1;
        lemma_chains_agree(c, d, items, l as nat);
        assert(c[l].scheduled_to(c[l + 1], items[l].0, items[l].1));
        assert(d[l].scheduled_to(d[l + 1], items[l].0, items[l].1));
        crate::scheduler::law_scheduling_is_deterministic(
            c[l],
            d[l],
            c[l + 1],
            d[l + 1],
            items[l].0,
            items[l].1,
        );
    }
}

/// The order of firing is settled by the stream of tie-breaks and by what is scheduled:
/// two schedulers alike on which the same is scheduled fire the same in the same order.
pub proof fn law_firing_order_is_settled<M>(
    start: Scheduler<M>,
    other: Scheduler<M>,
    one: Scheduler<M>,
    two: Scheduler<M>,
    items: Seq<Item<M>>,
    fires: Seq<Scheduler<M>>,
    others: Seq<Scheduler<M>>,
    i: int,
)
    requires
        start.same_queue(other),
        runtime::all_scheduled(start, one, items),
        runtime::all_scheduled(other, two, items),
        is_firing(fires),
        is_firing(others),
        fires[0] == one,
        others[0] == two,
        0 <= i < one.pending().len(),
        i < fires.len(),
        i < others.len(),
    ensures
        fires[i].pending()[0] == others[i].pending()[0],
{
    let c = choose|chain: Seq<Scheduler<M>>| #[trigger]
        runtime::chained(chain, items) && chain[0] == start && chain.last() == one;
    let d = choose|chain: Seq<Scheduler<M>>| #[trigger]
        runtime::chained(chain, items) && chain[0] == other && chain.last() == two;
    lemma_chains_agree(c, d, items, items.len());
    assert(c[items.len() as int] == one && d[items.len() as int] == two);
    lemma_fires(fires, i as nat);
    lemma_fires(others, i as nat);
    assert(fires[i].pending()[0] == one.pending()[i]);
    assert(others[i].pending()[0] == two.pending()[i]);
}

} // verus!
