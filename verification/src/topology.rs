//! The fixed shape of a simulated cluster: its nodes and their replica sets.

use crate::keyed::KeyedMap;
use crate::model::{self, GroupKey, GroupView, NodeId, PartitionIndex, RaftNodeId};
use crate::scenario::ScenarioParameters;
use crate::text;
use vstd::prelude::*;

verus! {

/// The name of the node numbered `index`.
pub open spec fn node_name(index: nat) -> Seq<char> {
    "node-"@ + text::decimal(index)
}

fn node_id_for_index(index: usize) -> (r: NodeId)
    ensures
        r@ == node_name(index as nat),
{
    let mut name = "node-".to_owned();
    text::push_decimal(&mut name, index as u64);
    NodeId(name)
}

/// Different nodes have different names.
pub proof fn law_node_names_are_distinct(i: nat, j: nat)
    requires
        node_name(i) == node_name(j),
    ensures
        i == j,
{
    let p = "node-"@;
    let n = p.len() as int;
    assert(text::decimal(i) =~= node_name(i).skip(n));
    assert(text::decimal(j) =~= node_name(j).skip(n));
    text::law_decimal_injective(i, j);
}

/// The nodes of a cluster and the replica set of each partition index.
#[derive(Debug, PartialEq, Eq)]
pub struct Topology {
    pub nodes: Vec<NodeId>,
    pub replication: usize,
    pub partitions: u32,
    pub replica_sets: Vec<Vec<NodeId>>,
}

impl Clone for Topology {
    fn clone(&self) -> (r: Self)
        ensures
            r.nodes@ == self.nodes@,
            r.replication == self.replication,
            r.partitions == self.partitions,
            r.replica_sets@.len() == self.replica_sets@.len(),
            forall|p: int|
                0 <= p < self.replica_sets@.len() ==> (#[trigger] r.replica_sets@[p])@
                    == self.replica_sets@[p]@,
    {
        let mut sets: Vec<Vec<NodeId>> = Vec::new();
        let mut i: usize = 0;
        while i < self.replica_sets.len()
            invariant
                i <= self.replica_sets@.len(),
                sets@.len() == i,
                forall|p: int| 0 <= p < i ==> (#[trigger] sets@[p])@ == self.replica_sets@[p]@,
            decreases self.replica_sets@.len() - i,
        {
            sets.push(model::clone_nodes(self.replica_sets[i].as_slice()));
            i += 1;
        }
        Topology {
            nodes: model::clone_nodes(self.nodes.as_slice()),
            replication: self.replication,
            partitions: self.partitions,
            replica_sets: sets,
        }
    }
}

impl Topology {
    /// Nodes are named in order, and partition `p` is replicated by the nodes `p`,
    /// `p + 1`, ... , wrapping round.
    pub open spec fn wf(self) -> bool {
        &&& forall|i: int|
            0 <= i < self.nodes@.len() ==> (#[trigger] self.nodes@[i])@ == node_name(i as nat)
        &&& self.replica_sets@.len() == self.partitions
        &&& self.partitions > 0 && self.replication > 0 ==> self.nodes@.len() > 0
        &&& forall|p: int|
            0 <= p < self.partitions ==> self.is_set_of(#[trigger] self.replica_sets@[p]@, p)
        &&& self.nodes@.len() <= u64::MAX
    }

    /// Whether `set` is the replica set of partition `p`.
    pub open spec fn is_set_of(self, set: Seq<NodeId>, p: int) -> bool {
        &&& set.len() == self.replication
        &&& forall|k: int|
            0 <= k < set.len() ==> #[trigger] set[k] == self.nodes@[(p + k) % (
            self.nodes@.len() as int)]
    }

    /// The replica set of a group, if it has one.
    pub open spec fn set_of(self, group: GroupView) -> Option<Seq<NodeId>> {
        if group == model::meta_group() {
            Some(self.nodes@)
        } else if group.1.0 < self.partitions {
            Some(self.replica_sets@[group.1.0 as int]@)
        } else {
            None
        }
    }

    /// The number of the node named `node`.
    pub open spec fn number_of(self, node: Seq<char>) -> Option<RaftNodeId> {
        if model::names(self.nodes@, node) {
            Some(RaftNodeId(self.index_named(node) as u64))
        } else {
            None
        }
    }

    /// The position of the node named `node`.
    pub open spec fn index_named(self, node: Seq<char>) -> int {
        choose|i: int| 0 <= i < self.nodes@.len() && (#[trigger] self.nodes@[i])@ == node
    }

    /// The numbers below `n` of the members of `set` but for `node`, in order.
    pub open spec fn peers_below(self, set: Seq<NodeId>, node: Seq<char>, n: nat) -> Seq<
        RaftNodeId,
    >
        decreases n,
    {
        if n == 0 {
            Seq::empty()
        } else {
            let rest = self.peers_below(set, node, (n - 1) as nat);
            let id = RaftNodeId((n - 1) as u64);
            if self.is_peer(set, node, id) {
                rest.push(id)
            } else {
                rest
            }
        }
    }

    /// The numbers of the members of `set` but for `node`, in order.
    pub open spec fn peers(self, set: Seq<NodeId>, node: Seq<char>) -> Seq<RaftNodeId> {
        self.peers_below(set, node, self.nodes@.len())
    }

    /// Node positions are determined by names.
    pub proof fn lemma_index(self, i: int)
        requires
            self.wf(),
            0 <= i < self.nodes@.len(),
        ensures
            model::names(self.nodes@, self.nodes@[i]@),
            self.index_named(self.nodes@[i]@) == i,
    {
        let name = self.nodes@[i]@;
        assert(model::names(self.nodes@, name));
        let j = self.index_named(name);
        assert(0 <= j < self.nodes@.len() && self.nodes@[j]@ == name);
        law_node_names_are_distinct(i as nat, j as nat);
    }

    /// The cluster shape of `params`.
    pub fn from_params(params: &ScenarioParameters) -> (r: Self)
        requires
            params.replication_factor > 0 && params.partition_count > 0 ==> params.node_count > 0,
        ensures
            r.wf(),
            r.nodes@.len() == params.node_count,
            r.replication == params.replication_factor,
            r.partitions == params.partition_count,
    {
        let mut nodes: Vec<NodeId> = Vec::new();
        let n: usize = params.node_count;
        let mut i: usize = 0;
        while i < n
            invariant
                i <= n,
                nodes@.len() == i,
                forall|k: int|
                    0 <= k < i ==> (#[trigger] nodes@[k])@ == node_name(k as nat),
            decreases n - i,
        {
            nodes.push(node_id_for_index(i));
            i += 1;
        }
        let replication: usize = params.replication_factor;
        let partitions: u32 = params.partition_count;
        let mut replica_sets: Vec<Vec<NodeId>> = Vec::new();
        let mut p: u32 = 0;
        while p < partitions
            invariant
                p <= partitions,
                n == nodes@.len(),
                replication > 0 && partitions > 0 ==> n > 0,
                replica_sets@.len() == p,
                forall|q: int|
                    0 <= q < p ==> {
                        &&& (#[trigger] replica_sets@[q])@.len() == replication
                        &&& forall|k: int|
                            0 <= k < replication ==> #[trigger] replica_sets@[q]@[k] == nodes@[(q + k)
                                % (n as int)]
                    },
            decreases partitions - p,
        {
            let mut set: Vec<NodeId> = Vec::new();
            let mut k: usize = 0;
            while k < replication
                invariant
                    k <= replication,
                    n == nodes@.len(),
                    replication > 0 ==> n > 0,
                    set@.len() == k,
                    forall|j: int|
                        0 <= j < k ==> #[trigger] set@[j] == nodes@[(p + j) % (n as int)],
                decreases replication - k,
            {
                let wide: u128 = (p as u128 + k as u128) % (n as u128);
                let idx: usize = wide as usize;
                set.push(nodes[idx].clone());
                k += 1;
            }
            replica_sets.push(set);
            p += 1;
        }
        Topology { nodes, replication, partitions, replica_sets }
    }

    pub fn nodes(&self) -> (r: &[NodeId])
        ensures
            r@ == self.nodes@,
    {
        self.nodes.as_slice()
    }

    pub fn node_count(&self) -> (r: usize)
        ensures
            r == self.nodes@.len(),
    {
        self.nodes.len()
    }

    pub fn replication_factor(&self) -> (r: usize)
        ensures
            r == self.replication,
    {
        self.replication
    }

    pub fn partition_count(&self) -> (r: u32)
        ensures
            r == self.partitions,
    {
        self.partitions
    }

    /// The replica set of a partition index, if it is in range.
    pub fn replica_set_for(&self, partition: PartitionIndex) -> (r: Option<&[NodeId]>)
        requires
            self.wf(),
        ensures
            match r {
                Some(set) => partition.0 < self.partitions && set@
                    == self.replica_sets@[partition.0 as int]@,
                None => partition.0 >= self.partitions,
            },
    {
        if partition.0 < self.partitions {
            Some(self.replica_sets[partition.0 as usize].as_slice())
        } else {
            None
        }
    }

    /// The replica set of a group: every node for the metadata group, and that of
    /// its partition index for any other.
    pub fn replica_set_for_group(&self, group: &GroupKey) -> (r: Option<&[NodeId]>)
        requires
            self.wf(),
        ensures
            match r {
                Some(set) => self.set_of(group@) == Some(set@),
                None => self.set_of(group@) is None,
            },
    {
        if model::is_metadata_group(group) {
            Some(self.nodes.as_slice())
        } else {
            self.replica_set_for(group.1)
        }
    }

    /// Whether `node` is in the replica set of `group`.
    pub fn group_contains(&self, group: &GroupKey, node: &NodeId) -> (r: bool)
        requires
            self.wf(),
        ensures
            r == (self.set_of(group@) matches Some(set) && model::names(set, node@)),
    {
        match self.replica_set_for_group(group) {
            Some(set) => model::contains_node(set, node),
            None => false,
        }
    }

    /// The number of the node named `node`, if it is in the cluster.
    pub fn raft_id(&self, node: &NodeId) -> (r: Option<RaftNodeId>)
        requires
            self.wf(),
        ensures
            r == self.number_of(node@),
            r matches Some(id) ==> id.0 < self.nodes@.len() && self.nodes@[id.0 as int]@ == node@,
    {
        let mut i: usize = 0;
        while i < self.nodes.len()
            invariant
                self.wf(),
                i <= self.nodes@.len(),
                forall|k: int| 0 <= k < i ==> #[trigger] self.nodes@[k]@ != node@,
            decreases self.nodes@.len() - i,
        {
            if self.nodes[i].same(node) {
                proof {
                    self.lemma_index(i as int);
                }
                return Some(RaftNodeId(i as u64));
            }
            i += 1;
        }
        None
    }

    /// The name of the node numbered `raft`, if there is one.
    pub fn domain_id(&self, raft: RaftNodeId) -> (r: Option<&NodeId>)
        ensures
            match r {
                Some(node) => raft.0 < self.nodes@.len() && *node == self.nodes@[raft.0 as int],
                None => raft.0 >= self.nodes@.len(),
            },
    {
        if raft.0 < self.nodes.len() as u64 {
            Some(&self.nodes[raft.0 as usize])
        } else {
            None
        }
    }

    /// The numbers of the other members of `group`, in order; nothing for a node that is
    /// no member.
    pub fn peers_for(&self, node: &NodeId, group: &GroupKey) -> (r: Vec<RaftNodeId>)
        requires
            self.wf(),
        ensures
            r@ == (match self.set_of(group@) {
                Some(set) => if model::names(set, node@) {
                    self.peers(set, node@)
                } else {
                    Seq::empty()
                },
                None => Seq::empty(),
            }),
            forall|i: int, j: int|
                0 <= i < j < r@.len() ==> (#[trigger] r@[i]).0 < (#[trigger] r@[j]).0,
    {
        let mut out: Vec<RaftNodeId> = Vec::new();
        let set = match self.replica_set_for_group(group) {
            Some(set) => set,
            None => {
                return out;
            },
        };
        if !model::contains_node(set, node) {
            return out;
        }
        let mut i: usize = 0;
        while i < self.nodes.len()
            invariant
                self.wf(),
                i <= self.nodes@.len(),
                out@ == self.peers_below(set@, node@, i as nat),
            decreases self.nodes@.len() - i,
        {
            if !self.nodes[i].same(node) && model::contains_node(set, &self.nodes[i]) {
                out.push(RaftNodeId(i as u64));
            }
            i += 1;
        }
        proof {
            law_peers_are_the_others(*self, node@, set@, self.nodes@.len());
        }
        out
    }

    /// Whether the node numbered `id` is a member of `set` other than `node`.
    pub open spec fn is_peer(self, set: Seq<NodeId>, node: Seq<char>, id: RaftNodeId) -> bool {
        &&& id.0 < self.nodes@.len()
        &&& self.nodes@[id.0 as int]@ != node
        &&& model::names(set, self.nodes@[id.0 as int]@)
    }

    /// The other members of a group by their numbers.
    pub open spec fn peers_map(self, node: Seq<char>, group: GroupView) -> Map<RaftNodeId, NodeId> {
        match self.set_of(group) {
            Some(set) => Map::new(
                |id: RaftNodeId| self.is_peer(set, node, id),
                |id: RaftNodeId| self.nodes@[id.0 as int],
            ),
            None => Map::empty(),
        }
    }

    /// Every member of a replica set is a node of the cluster.
    pub proof fn lemma_members_are_nodes(self, group: GroupView, k: int)
        requires
            self.wf(),
            self.set_of(group) is Some,
            0 <= k < self.set_of(group)->0.len(),
        ensures
            exists|i: int|
                0 <= i < self.nodes@.len() && self.set_of(group)->0[k] == #[trigger] self.nodes@[i],
    {
        let set = self.set_of(group)->0;
        if group == model::meta_group() {
            assert(set[k] == self.nodes@[k]);
        } else {
            let p = group.1.0 as int;
            let n = self.nodes@.len() as int;
            assert(self.is_set_of(self.replica_sets@[p]@, p));
            assert(set[k] == self.nodes@[(p + k) % n]);
            assert(0 <= (p + k) % n < n);
        }
    }
}

/// The other members of `group` by their numbers: what a sender in the group needs.
pub fn peers_map_for(topology: &Topology, node: &NodeId, group: &GroupKey) -> (r: KeyedMap<
    RaftNodeId,
    NodeId,
>)
    requires
        topology.wf(),
    ensures
        r.wf(),
        r@ == topology.peers_map(node@, group@),
{
    let mut out: KeyedMap<RaftNodeId, NodeId> = KeyedMap::new();
    let set = match topology.replica_set_for_group(group) {
        Some(set) => set,
        None => {
            return out;
        },
    };
    let mut i: usize = 0;
    while i < set.len()
        invariant
            topology.wf(),
            topology.set_of(group@) == Some(set@),
            i <= set@.len(),
            out.wf(),
            forall|id: RaftNodeId| #[trigger]
                out@.contains_key(id) ==> topology.is_peer(set@, node@, id) && out@[id]
                    == topology.nodes@[id.0 as int],
            forall|k: int, id: RaftNodeId|
                0 <= k < i && id.0 < topology.nodes@.len() && #[trigger] topology.nodes@[id.0 as int]@
                    != node@ && (#[trigger] set@[k])@ == topology.nodes@[id.0 as int]@
                    ==> out@.contains_key(id),
        decreases set@.len() - i,
    {
        let peer = &set[i];
        if !peer.same(node) {
            match topology.raft_id(peer) {
                Some(id) => {
                    out.insert(id, peer.clone());
                    proof {
                        topology.lemma_members_are_nodes(group@, i as int);
                        let j = choose|j: int|
                            0 <= j < topology.nodes@.len() && set@[i as int]
                                == #[trigger] topology.nodes@[j];
                        topology.lemma_index(j);
                        assert forall|k: int, other: RaftNodeId|
                            0 <= k < i + 1 && other.0 < topology.nodes@.len()
                                && #[trigger] topology.nodes@[other.0 as int]@ != node@ && (
                            #[trigger] set@[k])@ == topology.nodes@[other.0 as int]@ implies out@.contains_key(
                        other) by {
                            if k == i {
                                topology.lemma_index(other.0 as int);
                                assert(other == id);
                            }
                        }
                    }
                },
                None => {
                    proof {
                        topology.lemma_members_are_nodes(group@, i as int);
                        let j = choose|j: int|
                            0 <= j < topology.nodes@.len() && set@[i as int]
                                == #[trigger] topology.nodes@[j];
                        topology.lemma_index(j);
                        assert(false);
                    }
                },
            }
        }
        i += 1;
    }
    assert(out@ =~= topology.peers_map(node@, group@)) by {
        assert forall|id: RaftNodeId| topology.is_peer(set@, node@, id) implies out@.contains_key(
            id,
        ) by {
            let k = choose|k: int|
                0 <= k < set@.len() && #[trigger] set@[k]@ == topology.nodes@[id.0 as int]@;
            assert(0 <= k < i);
        }
    }
    out
}

/// Where replicas do not outnumber nodes, a partition's replicas are on different
/// nodes.
pub proof fn law_replicas_are_distinct(topology: Topology, p: int, j: int, k: int)
    requires
        topology.wf(),
        topology.replication <= topology.nodes@.len(),
        0 <= p < topology.partitions,
        0 <= j < k < topology.replication,
    ensures
        topology.replica_sets@[p]@.len() == topology.replication,
        topology.replica_sets@[p]@[j]@ != topology.replica_sets@[p]@[k]@,
{
    let n = topology.nodes@.len() as int;
    let set = topology.replica_sets@[p]@;
    assert(topology.is_set_of(set, p));
    let a = (p + j) % n;
    let b = (p + k) % n;
    assert(set[j] == topology.nodes@[a]);
    assert(set[k] == topology.nodes@[b]);
    assert(0 <= a < n && 0 <= b < n);
    if set[j]@ == set[k]@ {
        law_node_names_are_distinct(a as nat, b as nat);
        vstd::arithmetic::div_mod::lemma_fundamental_div_mod(p + j, n);
        vstd::arithmetic::div_mod::lemma_fundamental_div_mod(p + k, n);
        let qa = (p + j) / n;
        let qb = (p + k) / n;
        assert(n * qb - n * qa == k - j);
        assert(n * (qb - qa) == n * qb - n * qa) by (nonlinear_arith);
        assert(0 < n * (qb - qa) < n);
        assert(qb - qa >= 1 ==> n * (qb - qa) >= n) by (nonlinear_arith)
            requires
                n > 0,
        ;
        assert(qb - qa <= 0 ==> n * (qb - qa) <= 0) by (nonlinear_arith)
            requires
                n > 0,
        ;
    }
}

/// A node's number leads back to its name, and a name's number to the node.
pub proof fn law_numbers_and_names_are_inverse(topology: Topology, i: int)
    requires
        topology.wf(),
        0 <= i < topology.nodes@.len(),
    ensures
        topology.number_of(topology.nodes@[i]@) == Some(RaftNodeId(i as u64)),
{
    topology.lemma_index(i);
}

/// The peers of a node are the other members, each once and in the order of their
/// numbers.
pub proof fn law_peers_are_the_others(
    topology: Topology,
    node: Seq<char>,
    set: Seq<NodeId>,
    n: nat,
)
    requires
        topology.wf(),
        n <= topology.nodes@.len(),
    ensures
        forall|id: RaftNodeId| #[trigger]
            topology.peers_below(set, node, n).contains(id) == (id.0 < n && topology.is_peer(
                set,
                node,
                id,
            )),
        forall|i: int, j: int|
            0 <= i < j < topology.peers_below(set, node, n).len() ==> (
            #[trigger] topology.peers_below(set, node, n)[i]).0 < (
            #[trigger] topology.peers_below(set, node, n)[j]).0,
    decreases n,
{
    if n > 0 {
        let m = (n - 1) as nat;
        law_peers_are_the_others(topology, node, set, m);
        let rest = topology.peers_below(set, node, m);
        let all = topology.peers_below(set, node, n);
        let last = RaftNodeId(m as u64);
        assert forall|id: RaftNodeId| #[trigger]
            all.contains(id) == (id.0 < n && topology.is_peer(set, node, id)) by {
            assert(rest.contains(id) == (id.0 < m && topology.is_peer(set, node, id)));
            if rest.contains(id) {
                let k = choose|k: int| 0 <= k < rest.len() && rest[k] == id;
                assert(all[k] == id);
            }
            if all.contains(id) {
                let k = choose|k: int| 0 <= k < all.len() && all[k] == id;
                if k < rest.len() {
                    assert(rest[k] == id);
                }
            }
            if id == last && topology.is_peer(set, node, id) {
                assert(all[rest.len() as int] == id);
            }
        }
        assert forall|i: int, j: int| 0 <= i < j < all.len() implies (#[trigger] all[i]).0 < (
        #[trigger] all[j]).0 by {
            assert(rest.contains(rest[i]));
            if j < rest.len() {
                assert(all[i] == rest[i] && all[j] == rest[j]);
            }
        }
    }
}

} // verus!
