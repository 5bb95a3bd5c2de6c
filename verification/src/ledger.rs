//! The books of a course: every client operation that is issued is recorded exactly
//! once, with what was asked for and when.

use crate::client::Pending;
use crate::course::{self, Move};
use crate::drive::Checkers;
use crate::history::{self, OpArgsView, RecordedOpView};
use crate::runtime::{self, Action, Outcome, SimRuntime};
use crate::scheduler::{Event, VirtualInstant};
use crate::timekeeping;
use crate::workload::ClientOperationView;
use vstd::multiset::Multiset;
use vstd::prelude::*;

verus! {

/// What stays the same of an operation from its issue to its record: what was asked for,
/// and when.
pub struct Ticket {
    pub args: OpArgsView,
    pub at: VirtualInstant,
}

/// What was asked for. Where a consume starts is left out, for the leader moves the
/// start into its log.
pub open spec fn asked(args: OpArgsView) -> OpArgsView {
    match args {
        OpArgsView::Consume { topic, partition, start_offset, max_records } => {
            OpArgsView::Consume { topic, partition, start_offset: 0, max_records }
        },
        _ => args,
    }
}

/// What an operation of the workload asks for.
pub open spec fn args_of(op: ClientOperationView) -> OpArgsView {
    match op {
        ClientOperationView::CreateTopic { name, partition_count, replication_factor } => {
            OpArgsView::CreateTopic {
                topic: name,
                partitions: partition_count,
                replication_factor: replication_factor as u32,
            }
        },
        ClientOperationView::DeleteTopic { name } => OpArgsView::DeleteTopic { topic: name },
        ClientOperationView::Produce { topic, partition, key, value } => OpArgsView::Produce {
            topic,
            partition,
            key,
            value,
        },
        ClientOperationView::Consume { topic, partition, start_offset, max_records } => {
            OpArgsView::Consume { topic, partition, start_offset, max_records }
        },
    }
}

/// The ticket of an operation of the workload that is issued at `at`.
pub open spec fn issue_ticket(op: ClientOperationView, at: VirtualInstant) -> Ticket {
    Ticket { args: asked(args_of(op)), at }
}

pub open spec fn record_ticket(op: RecordedOpView) -> Ticket {
    Ticket { args: asked(op.args), at: op.invoked_at }
}

pub open spec fn pending_ticket(op: Pending) -> Ticket {
    Ticket { args: asked(op.args@), at: op.invoked_at }
}

/// The tickets of what is recorded.
pub open spec fn recorded(ops: Seq<RecordedOpView>) -> Multiset<Ticket> {
    Seq::new(ops.len(), |i: int| record_ticket(ops[i])).to_multiset()
}

/// The tickets of what waits for its commit.
pub open spec fn waiting(ops: Seq<Pending>) -> Multiset<Ticket> {
    Seq::new(ops.len(), |i: int| pending_ticket(ops[i])).to_multiset()
}

/// What a move issues: the operation whose event fires.
pub open spec fn issued_by<M>(before: SimRuntime<M>, after: SimRuntime<M>, m: Move<M>) -> Multiset<
    Ticket,
> {
    match (m, before.scheduler.pending()[0].event) {
        (Move::Fire { action }, Event::ClientOp(op)) => if op.seq < before.workload.ops@.len() {
            Multiset::singleton(
                issue_ticket(before.workload.ops@[op.seq as int]@, after.scheduler.time()),
            )
        } else {
            Multiset::empty()
        },
        _ => Multiset::empty(),
    }
}

/// What a move hands out to be proposed.
pub open spec fn proposed_by<M>(m: Move<M>) -> Multiset<Ticket> {
    match m {
        Move::Fire { action: Action::Propose { index, group, payload, op } } => {
            Multiset::singleton(pending_ticket(op))
        },
        _ => Multiset::empty(),
    }
}

/// What a move takes in that was proposed.
pub open spec fn kept_by<M>(m: Move<M>) -> Multiset<Ticket> {
    match m {
        Move::Keep { op } => Multiset::singleton(pending_ticket(op)),
        _ => Multiset::empty(),
    }
}

/// What the first `n` moves issue.
pub open spec fn issued<M>(runs: Seq<SimRuntime<M>>, moves: Seq<Move<M>>, n: nat) -> Multiset<
    Ticket,
>
    decreases n,
{
    if n == 0 {
        Multiset::empty()
    } else {
        issued(runs, moves, (n - 1) as nat).add(issued_by(runs[n - 1], runs[n as int], moves[n - 1]))
    }
}

/// What the first `n` moves hand out to be proposed.
pub open spec fn proposed<M>(moves: Seq<Move<M>>, n: nat) -> Multiset<Ticket>
    decreases n,
{
    if n == 0 {
        Multiset::empty()
    } else {
        proposed(moves, (n - 1) as nat).add(proposed_by(moves[n - 1]))
    }
}

/// What the first `n` moves take in that was proposed.
pub open spec fn kept<M>(moves: Seq<Move<M>>, n: nat) -> Multiset<Ticket>
    decreases n,
{
    if n == 0 {
        Multiset::empty()
    } else {
        kept(moves, (n - 1) as nat).add(kept_by(moves[n - 1]))
    }
}

/// An item more, wherever it is put, counts once more.
proof fn lemma_insert_counts(s: Seq<Ticket>, p: int, t: Ticket)
    requires
        0 <= p <= s.len(),
    ensures
        s.insert(p, t).to_multiset() == s.to_multiset().insert(t),
{
    let after = s.insert(p, t);
    assert(after.remove(p) =~= s);
    assert(after[p] == t);
    vstd::seq_lib::to_multiset_remove(after, p);
    after.to_multiset_ensures();
    assert(after.contains(t));
    assert(after.to_multiset().count(t) > 0);
    assert(after.to_multiset() =~= after.to_multiset().remove(t).insert(t));
}

proof fn lemma_recorded_placed(ops: Seq<RecordedOpView>, op: RecordedOpView)
    ensures
        recorded(history::placed(ops, op)) == recorded(ops).insert(record_ticket(op)),
{
    let p = history::place_of(ops, op.invoked_at);
    history::lemma_place_is_within(ops, op.invoked_at);
    let s = Seq::new(ops.len(), |i: int| record_ticket(ops[i]));
    let after = history::placed(ops, op);
    assert(Seq::new(after.len(), |i: int| record_ticket(after[i])) =~= s.insert(
        p,
        record_ticket(op),
    ));
    lemma_insert_counts(s, p, record_ticket(op));
}

proof fn lemma_recorded_push(ops: Seq<RecordedOpView>, op: RecordedOpView)
    ensures
        recorded(ops.push(op)) == recorded(ops).insert(record_ticket(op)),
{
    let s = Seq::new(ops.len(), |i: int| record_ticket(ops[i]));
    let after = ops.push(op);
    assert(Seq::new(after.len(), |i: int| record_ticket(after[i])) =~= s.push(record_ticket(op)));
    vstd::seq_lib::to_multiset_build(s, record_ticket(op));
}

proof fn lemma_waiting_push(ops: Seq<Pending>, op: Pending)
    ensures
        waiting(ops.push(op)) == waiting(ops).insert(pending_ticket(op)),
{
    let s = Seq::new(ops.len(), |i: int| pending_ticket(ops[i]));
    let after = ops.push(op);
    assert(Seq::new(after.len(), |i: int| pending_ticket(after[i])) =~= s.push(pending_ticket(op)));
    vstd::seq_lib::to_multiset_build(s, pending_ticket(op));
}

proof fn lemma_recorded_all_placed(ops: Seq<RecordedOpView>, more: Seq<RecordedOpView>)
    ensures
        recorded(history::all_placed(ops, more)) == recorded(ops).add(recorded(more)),
    decreases more.len(),
{
    if more.len() == 0 {
        lemma_nothing_recorded(more);
        assert(recorded(ops) =~= recorded(ops).add(recorded(more)));
    } else {
        let rest = more.drop_last();
        let last = more.last();
        lemma_recorded_all_placed(ops, rest);
        lemma_recorded_placed(history::all_placed(ops, rest), last);
        assert(rest.push(last) =~= more);
        lemma_recorded_push(rest, last);
        assert(recorded(history::all_placed(ops, more)) =~= recorded(ops).add(recorded(more)));
    }
}

proof fn lemma_nothing_recorded(ops: Seq<RecordedOpView>)
    requires
        ops.len() == 0,
    ensures
        recorded(ops) == Multiset::<Ticket>::empty(),
{
    let s = Seq::new(ops.len(), |i: int| record_ticket(ops[i]));
    s.to_multiset_ensures();
    assert(s.to_multiset() =~= Multiset::<Ticket>::empty());
}

proof fn lemma_nothing_waiting(ops: Seq<Pending>)
    requires
        ops.len() == 0,
    ensures
        waiting(ops) == Multiset::<Ticket>::empty(),
{
    let s = Seq::new(ops.len(), |i: int| pending_ticket(ops[i]));
    s.to_multiset_ensures();
    assert(s.to_multiset() =~= Multiset::<Ticket>::empty());
}

/// What waits is answered or goes on waiting, each once.
proof fn lemma_settling(
    nodes: Seq<crate::cluster::SimNode>,
    ops: Seq<Pending>,
    now: VirtualInstant,
    n: nat,
)
    requires
        n <= ops.len(),
    ensures
        waiting(ops.take(n as int)) == waiting(runtime::still_pending(nodes, ops, now, n)).add(
            recorded(runtime::settled(nodes, ops, now, n)),
        ),
    decreases n,
{
    let all = waiting(ops.take(n as int));
    let both = waiting(runtime::still_pending(nodes, ops, now, n)).add(
        recorded(runtime::settled(nodes, ops, now, n)),
    );
    if n == 0 {
        lemma_nothing_waiting(ops.take(0));
        lemma_nothing_waiting(runtime::still_pending(nodes, ops, now, n));
        lemma_nothing_recorded(runtime::settled(nodes, ops, now, n));
        assert(all =~= both);
    } else {
        let l = (n - 1) as nat;
        let op = ops[n - 1];
        lemma_settling(nodes, ops, now, l);
        assert(ops.take(n as int) =~= ops.take(l as int).push(op));
        lemma_waiting_push(ops.take(l as int), op);
        lemma_waiting_push(runtime::still_pending(nodes, ops, now, l), op);
        match crate::client::settlement(nodes, op, now) {
            Some(view) => {
                lemma_recorded_push(runtime::settled(nodes, ops, now, l), view);
            },
            None => {},
        }
        assert(all =~= both);
    }
}

/// What is given up on was waiting.
proof fn lemma_abandoning(ops: Seq<Pending>, now: VirtualInstant)
    ensures
        recorded(runtime::all_abandoned(ops, now)) == waiting(ops),
{
    let lost = runtime::all_abandoned(ops, now);
    assert(Seq::new(lost.len(), |i: int| record_ticket(lost[i])) =~= Seq::new(
        ops.len(),
        |i: int| pending_ticket(ops[i]),
    ));
}

/// Whether the books of one move balance: what is there before it and comes in by it is
/// what is there after it and went out by it.
spec fn balanced<M>(a: SimRuntime<M>, b: SimRuntime<M>, m: Move<M>) -> bool {
    recorded(history::op_views(a.history.ops@)).add(waiting(a.pending@)).add(
        issued_by(a, b, m),
    ).add(kept_by(m)) == recorded(history::op_views(b.history.ops@)).add(waiting(b.pending@)).add(
        proposed_by(m),
    )
}

proof fn lemma_records_kept<M>(a: SimRuntime<M>, b: SimRuntime<M>, m: Move<M>)
    requires
        a.history == b.history,
        a.pending == b.pending,
        issued_by(a, b, m).add(kept_by(m)) == proposed_by(m),
    ensures
        balanced(a, b, m),
{
    let r = recorded(history::op_views(a.history.ops@));
    let w = waiting(a.pending@);
    assert(r.add(w).add(issued_by(a, b, m)).add(kept_by(m)) =~= r.add(w).add(
        issued_by(a, b, m).add(kept_by(m)),
    ));
}

proof fn lemma_recording_balances<M>(
    a: SimRuntime<M>,
    b: SimRuntime<M>,
    m: Move<M>,
    op: RecordedOpView,
)
    requires
        a.history.gained(b.history, op),
        a.pending == b.pending,
        issued_by(a, b, m) == Multiset::singleton(record_ticket(op)),
        kept_by(m) == Multiset::<Ticket>::empty(),
        proposed_by(m) == Multiset::<Ticket>::empty(),
    ensures
        balanced(a, b, m),
{
    let r = recorded(history::op_views(a.history.ops@));
    let w = waiting(a.pending@);
    runtime::lemma_gained_views(a.history, b.history, op);
    lemma_recorded_push(history::op_views(a.history.ops@), op);
    assert(r.add(w).add(issued_by(a, b, m)).add(kept_by(m)) =~= r.insert(record_ticket(op)).add(
        w,
    ).add(proposed_by(m)));
}

proof fn lemma_fire_balances<M: Clone>(a: SimRuntime<M>, b: SimRuntime<M>, action: Action<M>)
    requires
        a.turned_to(b, action),
    ensures
        balanced(a, b, Move::Fire { action }),
{
    let m = Move::Fire { action };
    let event = a.scheduler.pending()[0].event;
    let s = choose|s: SimRuntime<M>| #[trigger] a.fired_to(s) && s.dispatched_to(b, action, event);
    let none = Multiset::<Ticket>::empty();
    assert(kept_by(m) == none);
    match event {
        Event::ClientOp(op) => {
            if op.seq < a.workload.ops@.len() {
                let view = a.workload.ops@[op.seq as int]@;
                lemma_issue_balances(a, s, b, action, view);
            } else {
                assert(none.add(none) =~= none);
                lemma_records_kept(a, b, m);
            }
        },
        _ => {
            assert(none.add(none) =~= none);
            lemma_records_kept(a, b, m);
        },
    }
}

proof fn lemma_issue_balances<M: Clone>(
    a: SimRuntime<M>,
    s: SimRuntime<M>,
    b: SimRuntime<M>,
    action: Action<M>,
    op: ClientOperationView,
)
    requires
        a.fired_to(s),
        s.issues(b, action, op),
        issued_by(a, b, Move::Fire { action }) == Multiset::singleton(
            issue_ticket(op, b.scheduler.time()),
        ),
    ensures
        balanced(a, b, Move::Fire { action }),
{
    let m = Move::Fire { action };
    let none = Multiset::<Ticket>::empty();
    let now = s.scheduler.time();
    assert(kept_by(m) == none);
    match action {
        Action::Propose { index, group, payload, op: p } => {
            assert(p.args@ == args_of(op));
            assert(p.invoked_at == now && b.scheduler.time() == now);
            assert(issued_by(a, b, m).add(none) =~= proposed_by(m));
            lemma_records_kept(a, b, m);
        },
        _ => {
            let last = b.history.ops@.last()@;
            assert(asked(last.args) == asked(args_of(op)));
            assert(last.invoked_at == now && b.scheduler.time() == now);
            lemma_recording_balances(a, b, m, last);
        },
    }
}

proof fn lemma_move_balances<M: Clone>(a: SimRuntime<M>, b: SimRuntime<M>, m: Move<M>)
    requires
        a.wf(),
        course::moved(a, b, m),
    ensures
        balanced(a, b, m),
{
    let none = Multiset::<Ticket>::empty();
    assert(none.add(none) =~= none);
    match m {
        Move::Fire { action } => {
            lemma_fire_balances(a, b, action);
        },
        Move::Output { index, group, sends } => {
            let now = a.scheduler.time();
            let n = a.pending@.len();
            let nodes = a.cluster.nodes@;
            lemma_settling(nodes, a.pending@, now, n);
            assert(a.pending@.take(n as int) =~= a.pending@);
            let answers = runtime::settled(nodes, a.pending@, now, n);
            let views = history::op_views(a.history.ops@);
            lemma_recorded_all_placed(views, answers);
            assert(recorded(views).add(waiting(a.pending@)).add(none).add(none) =~= recorded(
                views,
            ).add(recorded(answers)).add(waiting(b.pending@)).add(none));
        },
        Move::Keep { op } => {
            let r = recorded(history::op_views(a.history.ops@));
            lemma_waiting_push(a.pending@, op);
            assert(r.add(waiting(a.pending@)).add(none).add(kept_by(m)) =~= r.add(
                waiting(b.pending@),
            ).add(none));
        },
        _ => {
            lemma_records_kept(a, b, m);
        },
    }
}

/// At every moment of a course the books balance: what was there at the start and was
/// issued since is recorded, waits for its commit, or was handed out to be proposed and
/// not taken in again.
pub proof fn law_books_balance<M: Clone>(runs: Seq<SimRuntime<M>>, moves: Seq<Move<M>>, n: nat)
    requires
        course::is_course(runs, moves),
        n <= moves.len(),
    ensures
        recorded(history::op_views(runs[0].history.ops@)).add(waiting(runs[0].pending@)).add(
            issued(runs, moves, n),
        ).add(kept(moves, n)) == recorded(history::op_views(runs[n as int].history.ops@)).add(
            waiting(runs[n as int].pending@),
        ).add(proposed(moves, n)),
    decreases n,
{
    let start = recorded(history::op_views(runs[0].history.ops@)).add(waiting(runs[0].pending@));
    let none = Multiset::<Ticket>::empty();
    if n == 0 {
        assert(start.add(none).add(none) =~= start.add(none));
    } else {
        let l = n - 1;
        law_books_balance(runs, moves, l as nat);
        let a = runs[l];
        let b = runs[n as int];
        let m = moves[l];
        assert(course::moved(runs[l], runs[l + 1], moves[l]));
        lemma_move_balances(a, b, m);
        let x = recorded(history::op_views(a.history.ops@)).add(waiting(a.pending@));
        let y = recorded(history::op_views(b.history.ops@)).add(waiting(b.pending@));
        let i = issued(runs, moves, l as nat);
        let k = kept(moves, l as nat);
        let p = proposed(moves, l as nat);
        assert(start.add(i).add(k) == x.add(p));
        assert(x.add(issued_by(a, b, m)).add(kept_by(m)) == y.add(proposed_by(m)));
        assert forall|t: Ticket|
            start.add(i.add(issued_by(a, b, m))).add(k.add(kept_by(m))).count(t) == y.add(
                p.add(proposed_by(m)),
            ).count(t) by {
            assert(start.add(i).add(k).count(t) == x.add(p).count(t));
            assert(x.add(issued_by(a, b, m)).add(kept_by(m)).count(t) == y.add(
                proposed_by(m),
            ).count(t));
        }
        assert(start.add(i.add(issued_by(a, b, m))).add(k.add(kept_by(m))) =~= y.add(
            p.add(proposed_by(m)),
        ));
    }
}

/// Once a run is over, every operation that it issued is recorded exactly once, and
/// nothing else is, where each proposal handed out was taken in again, in time; and the record is
/// in the order of invocations.
pub proof fn law_every_operation_is_recorded_once<M: Clone>(
    runs: Seq<SimRuntime<M>>,
    moves: Seq<Move<M>>,
    checkers: Checkers,
    after: SimRuntime<M>,
    outcome: Outcome,
)
    requires
        course::is_course(runs, moves),
        runs[0].history.ops@.len() == 0,
        runs[0].pending@.len() == 0,
        kept(moves, moves.len()) == proposed(moves, moves.len()),
        forall|i: int|
            0 <= i < moves.len() ==> timekeeping::kept_in_time(runs[i], #[trigger] moves[i]),
        runs.last().ended_to(after, checkers, outcome),
    ensures
        recorded(history::op_views(after.history.ops@)) == issued(runs, moves, moves.len()),
        history::timely(history::op_views(after.history.ops@), runs.last().scheduler.time()),
{
    let n = moves.len();
    let last = runs[n as int];
    let now = last.scheduler.time();
    timekeeping::law_courses_keep_time(runs, moves, n);
    law_books_balance(runs, moves, n);
    lemma_nothing_recorded(history::op_views(runs[0].history.ops@));
    lemma_nothing_waiting(runs[0].pending@);
    let views = history::op_views(last.history.ops@);
    let lost = runtime::all_abandoned(last.pending@, now);
    lemma_abandoning(last.pending@, now);
    lemma_recorded_all_placed(views, lost);
    history::law_all_placed_keeps_order(views, lost, now);
    let none = Multiset::<Ticket>::empty();
    let i = issued(runs, moves, n);
    let k = kept(moves, n);
    assert forall|t: Ticket| i.count(t) == recorded(views).add(waiting(last.pending@)).count(t) by {
        assert(none.add(none).add(i).add(k).count(t) == recorded(views).add(
            waiting(last.pending@),
        ).add(k).count(t));
    }
    assert(i =~= recorded(views).add(waiting(last.pending@)));
}

} // verus!
