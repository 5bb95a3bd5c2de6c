//! What follows from a replica's step: committed commands, answers to clients, sent
//! messages and armed timers.

use crate::clock::SimClock;
use crate::cluster::SimulatedCluster;
use crate::codec;
use crate::history;
use crate::model::{
    self, ClusterCommand, CommandView, GroupKey, GroupView, LogEntry, PayloadKind, RaftNodeId,
};
use crate::network::{SimNetwork, SimTransport};
use crate::runtime::{self, SimRuntime};
use crate::scheduler::Scheduler;
use vstd::prelude::*;

verus! {

/// The commands in the first `n` entries.
pub open spec fn commands_in(entries: Seq<LogEntry>, n: nat) -> Seq<CommandView>
    decreases n,
{
    if n == 0 {
        Seq::empty()
    } else {
        let rest = commands_in(entries, (n - 1) as nat);
        let payload = entries[n - 1].payload;
        if payload.kind == PayloadKind::Cluster {
            rest.push(codec::parsed(payload.bytes@)->0)
        } else {
            rest
        }
    }
}

/// The commands among the entries that a step of a replica of `group` committed.
pub open spec fn committed_in(group: GroupView, committed: Seq<LogEntry>) -> Seq<CommandView> {
    if group == model::meta_group() {
        commands_in(committed, committed.len())
    } else {
        Seq::empty()
    }
}

/// The topics that the commands delete, in order.
pub open spec fn deletions(commands: Seq<CommandView>) -> Seq<Seq<char>>
    decreases commands.len(),
{
    if commands.len() == 0 {
        Seq::empty()
    } else {
        let rest = deletions(commands.drop_last());
        match commands.last() {
            CommandView::DeleteTopic { name } => rest.push(name),
            _ => rest,
        }
    }
}

/// Texts as mathematical values.
pub open spec fn texts(names: Seq<String>) -> Seq<Seq<char>> {
    Seq::new(names.len(), |i: int| names[i]@)
}

/// Commands as mathematical values.
pub open spec fn command_views(commands: Seq<ClusterCommand>) -> Seq<CommandView> {
    Seq::new(commands.len(), |i: int| commands[i]@)
}

/// Whether every command among the entries can be read.
pub open spec fn readable(entries: Seq<LogEntry>) -> bool {
    forall|i: int|
        0 <= i < entries.len() && (#[trigger] entries[i]).payload.kind == PayloadKind::Cluster
            ==> codec::parsed(entries[i].payload.bytes@) is Some
}

/// Send the messages through `transport`, in order.
fn send_all<M: Clone>(
    transport: &SimTransport,
    network: &mut SimNetwork<M>,
    mut sends: Vec<(RaftNodeId, M)>,
)
    requires
        transport.peers.wf(),
        old(network).wf(),
    ensures
        final(network).wf(),
        runtime::all_sent(*old(network), *final(network), *transport, sends@),
        final(network).pending@.len() <= old(network).pending@.len() + 2 * sends@.len(),
{
    let ghost all = sends@;
    let ghost mut chain = seq![*network];
    let n: usize = sends.len();
    let mut i: usize = 0;
    assert(all.skip(0) =~= all);
    assert(all.take(0) =~= Seq::empty());
    while i < n
        invariant
            i <= n,
            n == all.len(),
            sends@ == all.skip(i as int),
            transport.peers.wf(),
            network.wf(),
            runtime::sends_chained(chain, *transport, all.take(i as int)),
            chain[0] == *old(network),
            chain.last() == *network,
            network.pending@.len() <= old(network).pending@.len() + 2 * i,
        decreases n - i,
    {
        let ghost done = all.take(i as int);
        let (to, msg) = sends.remove(0);
        assert((to, msg) == all[i as int]);
        assert(sends@ =~= all.skip(i + 1));
        transport.send(network, to, msg);
        proof {
            let longer = chain.push(*network);
            let more = all.take(i + 1);
            assert(more =~= done.push(all[i as int]));
            assert forall|k: int| 0 <= k < more.len() implies #[trigger] runtime::sent_one(
                longer[k],
                longer[k + 1],
                *transport,
                more[k].0,
                more[k].1,
            ) by {
                if k < done.len() {
                    assert(runtime::sent_one(
                        chain[k],
                        chain[k + 1],
                        *transport,
                        done[k].0,
                        done[k].1,
                    ));
                }
            }
            assert(runtime::sends_chained(longer, *transport, more));
            chain = longer;
        }
        i += 1;
    }
    assert(all.take(i as int) =~= all);
    assert(runtime::sends_chained(chain, *transport, all));
}

impl<M> SimRuntime<M> {
    /// `after` is this run once the topics were noted that `committed` deletes.
    pub open spec fn noted_to(
        self,
        after: SimRuntime<M>,
        group: GroupView,
        committed: Seq<LogEntry>,
    ) -> bool {
        &&& texts(after.deleted_topics@) == texts(self.deleted_topics@) + deletions(
            committed_in(group, committed),
        )
        &&& after == (SimRuntime { deleted_topics: after.deleted_topics, ..self })
    }

    /// The commands that a step committed: those in the entries of the metadata group,
    /// in order. The topics that they delete are noted.
    pub fn committed_commands(&mut self, group: &GroupKey, committed: &[LogEntry]) -> (r: Vec<
        ClusterCommand,
    >)
        requires
            old(self).wf(),
            group@ == model::meta_group() ==> readable(committed@),
        ensures
            final(self).wf(),
            command_views(r@) == committed_in(group@, committed@),
            old(self).noted_to(*final(self), group@, committed@),
    {
        let mut commands: Vec<ClusterCommand> = Vec::new();
        let ghost past = texts(self.deleted_topics@);
        assert(command_views(commands@) =~= Seq::<CommandView>::empty());
        assert(past + deletions(command_views(commands@)) =~= past);
        if !model::is_metadata_group(group) {
            return commands;
        }
        let mut i: usize = 0;
        while i < committed.len()
            invariant
                i <= committed@.len(),
                readable(committed@),
                command_views(commands@) == commands_in(committed@, i as nat),
                texts(self.deleted_topics@) == past + deletions(command_views(commands@)),
                *self == (SimRuntime { deleted_topics: self.deleted_topics, ..*old(self) }),
            decreases committed@.len() - i,
        {
            if committed[i].payload.kind == PayloadKind::Cluster {
                let command = codec::decode_cluster_command(committed[i].payload.bytes.as_slice());
                let ghost earlier = command_views(commands@);
                let ghost noted = texts(self.deleted_topics@);
                match &command {
                    ClusterCommand::DeleteTopic { name } => {
                        let topic = name.clone();
                        self.deleted_topics.push(topic);
                        assert(texts(self.deleted_topics@) =~= noted.push(name@));
                    },
                    _ => {},
                }
                commands.push(command);
                proof {
                    let views = command_views(commands@);
                    assert(views =~= earlier.push(command@));
                    assert(views.drop_last() =~= earlier);
                    assert(texts(self.deleted_topics@) =~= past + deletions(views));
                }
            }
            i += 1;
        }
        commands
    }

    /// `after` is this run once a step of the replica of `group` at `index` that sent
    /// `sends` is done with: what is committed is answered; the messages went through
    /// the network, which leaves it as `sent`; the timers that were armed are
    /// scheduled, which leaves the scheduler as `timers`; and after them the
    /// deliveries.
    pub open spec fn output_done(
        self,
        after: SimRuntime<M>,
        sent: SimNetwork<M>,
        timers: Scheduler<M>,
    ) -> bool {
        let now = self.scheduler.time();
        let n = self.pending@.len();
        &&& after.workload == self.workload
        &&& after.seeded == self.seeded
        &&& after.deleted_topics == self.deleted_topics
        &&& after.pending@ == runtime::still_pending(self.cluster.nodes@, self.pending@, now, n)
        &&& history::op_views(after.history.ops@) == history::all_placed(
            history::op_views(self.history.ops@),
            runtime::settled(self.cluster.nodes@, self.pending@, now, n),
        )
        &&& runtime::all_scheduled(
            self.scheduler,
            timers,
            runtime::timer_items(self.cluster.clock.pending@),
        )
        &&& runtime::all_scheduled(
            timers,
            after.scheduler,
            runtime::delivery_items(sent.pending@),
        )
        &&& after.cluster.network.pending@.len() == 0
        &&& after.cluster.clock.pending@.len() == 0
        &&& after.cluster == (SimulatedCluster {
            network: SimNetwork { pending: after.cluster.network.pending, ..sent },
            clock: SimClock {
                active: None,
                pending: after.cluster.clock.pending,
                ..self.cluster.clock
            },
            ..self.cluster
        })
    }
}

impl<M: Clone> SimRuntime<M> {
    /// Send the messages of the replica of `group` on the node at `index`.
    fn send(&mut self, index: usize, group: &GroupKey, sends: Vec<(RaftNodeId, M)>)
        requires
            old(self).wf(),
        ensures
            final(self).wf(),
            old(self).same_records(*final(self)),
            final(self).scheduler == old(self).scheduler,
            final(self).cluster == (SimulatedCluster {
                network: final(self).cluster.network,
                ..old(self).cluster
            }),
            runtime::sent_from(
                old(self).cluster.network,
                final(self).cluster.network,
                old(self).cluster.sender(index as int, group@),
                sends@,
            ),
            final(self).cluster.network.pending@.len()
                <= old(self).cluster.network.pending@.len() + 2 * sends@.len(),
    {
        if index >= self.cluster.nodes.len() {
            return;
        }
        if model::is_metadata_group(group) {
            assert(crate::cluster::is_transport(
                self.cluster.meta_transports@[index as int],
                self.cluster.topology.nodes@[index as int],
                model::meta_group(),
                self.cluster.topology,
            ));
            send_all(&self.cluster.meta_transports[index], &mut self.cluster.network, sends);
        } else {
            assert(self.cluster.nodes@[index as int].wf(self.cluster.topology));
            match self.cluster.nodes[index].transports.get(group) {
                Some(transport) => send_all(transport, &mut self.cluster.network, sends),
                None => {},
            }
        }
    }

    /// `after` is this run once a step of the replica of `group` on the node at `index`
    /// that sent `sends` is done with.
    pub open spec fn finished_to(
        self,
        after: SimRuntime<M>,
        index: int,
        group: GroupView,
        sends: Seq<(RaftNodeId, M)>,
    ) -> bool {
        exists|sent: SimNetwork<M>, timers: Scheduler<M>| #[trigger]
            self.output_done(after, sent, timers) && runtime::sent_from(
                self.cluster.network,
                sent,
                self.cluster.sender(index, group),
                sends,
            )
    }

    /// Finish the handling of a step of the replica of `group` on the node at `index`:
    /// answer what is committed, send the messages, and schedule the timers and the
    /// deliveries.
    pub fn finish_output(&mut self, index: usize, group: &GroupKey, sends: Vec<(RaftNodeId, M)>)
        requires
            old(self).wf(),
            old(self).scheduler.has_room(
                (old(self).cluster.clock.pending@.len() + old(self).cluster.network.pending@.len()
                    + 2 * sends@.len()) as int,
            ),
        ensures
            final(self).wf(),
            old(self).finished_to(*final(self), index as int, group@, sends@),
    {
        self.resolve_pending();
        self.send(index, group, sends);
        let ghost sent = self.cluster.network;
        let ghost armed = self.cluster.clock.pending@;
        let ghost start = self.scheduler;
        self.schedule_armed();
        self.cluster.clock.clear_active();
        let ghost timers = self.scheduler;
        proof {
            runtime::law_scheduling_is_not_firing(
                start,
                timers,
                runtime::timer_items::<M>(armed),
            );
        }
        self.schedule_deliveries();
        assert(old(self).output_done(*self, sent, timers));
    }
}

} // verus!
