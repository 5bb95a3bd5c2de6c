//! The records of a run stay in time with its clock: whatever happens, the history stays
//! in the order of invocations, and no answer comes before its operation or after now.

use crate::course::{self, Move};
use crate::dispatch;
use crate::history;
use crate::runtime::{self, Action, FaultNote, SimRuntime};
use crate::scheduler::{Event, VirtualInstant};
use crate::timeline::{self, Replica};
use crate::workload::ClientOperationView;
use vstd::prelude::*;

verus! {

/// Whether a proposal that `m` takes in was invoked by then.
pub open spec fn kept_in_time<M>(before: SimRuntime<M>, m: Move<M>) -> bool {
    m matches Move::Keep { op } ==> op.invoked_at.0 <= before.scheduler.time().0
}

/// Where time goes on and the records stay, they stay in time.
proof fn lemma_records_stay<M>(a: SimRuntime<M>, b: SimRuntime<M>)
    requires
        a.timely(),
        b.history == a.history,
        b.pending == a.pending,
        a.scheduler.time().0 <= b.scheduler.time().0,
    ensures
        b.timely(),
{
}

proof fn lemma_issue_in_time<M>(
    a: SimRuntime<M>,
    b: SimRuntime<M>,
    action: Action<M>,
    op: ClientOperationView,
)
    requires
        a.timely(),
        a.issues(b, action, op),
    ensures
        b.timely(),
{
    dispatch::law_client_op_is_answered_or_proposed(a, b, action, op);
    if action is Propose {
        lemma_records_stay(a, b);
    } else {
        let now = a.scheduler.time();
        runtime::lemma_gained_in_time(a.history, b.history, b.history.ops@.last()@, now);
    }
}

proof fn lemma_fire_in_time<M>(a: SimRuntime<M>, b: SimRuntime<M>, action: Action<M>)
    requires
        a.wf(),
        a.timely(),
        a.scheduler.ending() is None,
        a.turned_to(b, action),
    ensures
        b.timely(),
{
    let event = a.scheduler.pending()[0].event;
    let s = choose|s: SimRuntime<M>| #[trigger] a.fired_to(s) && s.dispatched_to(b, action, event);
    assert(a.scheduler.pending()[0].at.0 >= a.scheduler.time().0);
    lemma_records_stay(a, s);
    match event {
        Event::ClientOp(op) => {
            if op.seq < s.workload.ops@.len() {
                lemma_issue_in_time(s, b, action, s.workload.ops@[op.seq as int]@);
            }
        },
        _ => {
            lemma_records_stay(s, b);
        },
    }
}

proof fn lemma_check_in_time<M>(
    a: SimRuntime<M>,
    b: SimRuntime<M>,
    note: FaultNote,
    at: Seq<VirtualInstant>,
)
    requires
        a.timely(),
        a.upkept_at(b, note, at),
    ensures
        b.timely(),
{
    let (mid, list) = choose|mid: SimRuntime<M>, list: Seq<Replica>| #[trigger]
        a.kept_up(b, mid, note, list, at);
    if list.len() > 0 {
        runtime::law_scheduling_is_not_firing(
            mid.scheduler,
            b.scheduler,
            runtime::timer_items(
                mid.cluster.clock.pending@ + timeline::seed_timers(
                    mid.cluster.clock,
                    mid.cluster.nodes@,
                    list,
                    at,
                ),
            ),
        );
    }
    lemma_records_stay(a, b);
}

/// A run whose records are in time has them in time one move later, where a proposal that
/// is taken in was invoked by then.
pub proof fn law_moves_keep_time<M: Clone>(a: SimRuntime<M>, b: SimRuntime<M>, m: Move<M>)
    requires
        a.wf(),
        a.timely(),
        course::moved(a, b, m),
        kept_in_time(a, m),
    ensures
        b.timely(),
{
    match m {
        Move::Fire { action } => {
            lemma_fire_in_time(a, b, action);
        },
        Move::Output { index, group, sends } => {
            let now = a.scheduler.time();
            let n = a.pending@.len();
            let nodes = a.cluster.nodes@;
            let (sent, timers) = choose|
                sent: crate::network::SimNetwork<M>,
                timers: crate::scheduler::Scheduler<M>,
            |
                #[trigger] a.output_done(b, sent, timers) && runtime::sent_from(
                    a.cluster.network,
                    sent,
                    a.cluster.sender(index, group),
                    sends,
                );
            runtime::law_scheduling_is_not_firing(
                a.scheduler,
                timers,
                runtime::timer_items(a.cluster.clock.pending@),
            );
            runtime::law_scheduling_is_not_firing(
                timers,
                b.scheduler,
                runtime::delivery_items(sent.pending@),
            );
            runtime::lemma_settled_in_time(nodes, a.pending@, now, n);
            history::law_all_placed_keeps_order(
                history::op_views(a.history.ops@),
                runtime::settled(nodes, a.pending@, now, n),
                now,
            );
        },
        Move::Keep { op } => {
            assert forall|i: int| 0 <= i < b.pending@.len() implies (
            #[trigger] b.pending@[i]).invoked_at.0 <= b.scheduler.time().0 by {
                if i < a.pending@.len() {
                    assert(b.pending@[i] == a.pending@[i]);
                }
            }
        },
        Move::Check { note, at } => {
            lemma_check_in_time(a, b, note, at);
        },
        _ => {
            lemma_records_stay(a, b);
        },
    }
}

/// Over a whole course the records stay in time.
pub proof fn law_courses_keep_time<M: Clone>(
    runs: Seq<SimRuntime<M>>,
    moves: Seq<Move<M>>,
    n: nat,
)
    requires
        course::is_course(runs, moves),
        runs[0].timely(),
        forall|i: int| 0 <= i < moves.len() ==> kept_in_time(runs[i], #[trigger] moves[i]),
        n <= moves.len(),
    ensures
        runs[n as int].timely(),
    decreases n,
{
    if n > 0 {
        let l = n - 1;
        law_courses_keep_time(runs, moves, l as nat);
        assert(course::moved(runs[l], runs[l + 1], moves[l]));
        assert(kept_in_time(runs[l], moves[l]));
        law_moves_keep_time(runs[l], runs[l + 1], moves[l]);
    }
}

} // verus!
