//! The state of the cluster as the tend loop keeps it: seeds, nodes, the
//! alias table and the partition table; and the decisions that tending
//! makes on it.

use vstd::prelude::*;

use crate::errors::{Error, ErrorKind, Result};
use crate::node::{ClientPolicy, Host, HostView, Node};
use crate::partition::{PartitionForNamespace, Replica, PARTITIONS};
use crate::wire::str_eq;

verus! {

/// What validating a host found: the name that the server gave itself,
/// and the addresses it answers on.
#[derive(Debug)]
pub struct NodeValidator {
    pub name: String,
    pub aliases: Vec<Host>,
}

/// The membership and partition state of a cluster.
#[derive(Debug)]
pub struct Cluster {
    /// Hosts to start from when no node is known.
    pub seeds: Vec<Host>,
    /// Each known address, with the id of the node that answers on it.
    pub aliases: Vec<(Host, u64)>,
    /// The live nodes.
    pub nodes: Vec<Node>,
    /// The partition map of each namespace.
    pub partition_write_map: Vec<(String, PartitionForNamespace)>,
    /// The position of the next round-robin pick.
    pub node_index: usize,
    pub client_policy: ClientPolicy,
    pub closed: bool,
    /// The id that the next node to join will get.
    pub next_node_id: u64,
}

/// Whether some node of `nodes` has id `id`.
pub open spec fn has_node(nodes: Seq<Node>, id: u64) -> bool {
    exists|i: int| 0 <= i < nodes.len() && (#[trigger] nodes[i]).id == id
}

/// Whether some node of `nodes` has the name `name`.
pub open spec fn has_name(nodes: Seq<Node>, name: Seq<char>) -> bool {
    exists|i: int| 0 <= i < nodes.len() && (#[trigger] nodes[i]).name@ == name
}

/// The node that the alias table `t` sends the address `h` to.
pub open spec fn alias_lookup(t: Seq<(Host, u64)>, h: HostView) -> Option<u64> {
    if exists|i: int| 0 <= i < t.len() && (#[trigger] t[i]).0@ == h {
        let i = choose|i: int| 0 <= i < t.len() && (#[trigger] t[i]).0@ == h;
        Some(t[i].1)
    } else {
        None
    }
}

/// The aliases of node `id`: the addresses that the table sends to it.
pub open spec fn aliases_of_spec(t: Seq<(Host, u64)>, id: u64) -> Seq<HostView>
    decreases t.len(),
{
    if t.len() == 0 {
        Seq::empty()
    } else {
        let r = aliases_of_spec(t.drop_last(), id);
        if t.last().1 == id {
            r.push(t.last().0@)
        } else {
            r
        }
    }
}

/// The elements of `v` in reverse order.
pub fn reversed<T>(v: Vec<T>) -> (r: Vec<T>)
    ensures
        r@.len() == v@.len(),
        forall|i: int| 0 <= i < v@.len() ==> r@[i] == v@[v@.len() - 1 - i],
{
    let ghost v0 = v@;
    let mut v = v;
    let mut r: Vec<T> = Vec::new();
    while v.len() > 0
        invariant
            v@.len() + r@.len() == v0.len(),
            forall|i: int| 0 <= i < v@.len() ==> v@[i] == v0[i],
            forall|i: int| 0 <= i < r@.len() ==> r@[i] == v0[v0.len() - 1 - i],
        decreases v@.len(),
    {
        let x = v.pop().unwrap();
        r.push(x);
    }
    r
}

/// Whether node `id` serves some rank of some partition in `pm`.
pub open spec fn in_partition_map(pm: Seq<(String, PartitionForNamespace)>, id: u64) -> bool {
    exists|n: int, k: int|
        0 <= n < pm.len() && 0 <= k < pm[n].1.nodes@.len() && (#[trigger] pm[n].1.nodes@[k]).1 == Some(id)
}

/// The number of failed refreshes after which a lone node is replaced
/// when reseeding finds another.
pub const SINGLETON_MAX_FAILURES: u64 = 5;

/// Whether tending evicts node `i` of `nodes`, given the number of
/// successful refreshes of this iteration (a lone node is handled apart:
/// see [`RemovalPlan`]).
pub open spec fn should_evict(nodes: Seq<Node>, i: int, refresh_count: int, pm: Seq<(String, PartitionForNamespace)>) -> bool {
    let n = nodes[i];
    ||| !n.active
    ||| (nodes.len() == 2 && refresh_count == 1 && n.reference_count == 0 && n.failures > 0)
    ||| (nodes.len() >= 3 && refresh_count >= 2 && n.reference_count == 0 && (n.failures > 0 || !in_partition_map(
        pm,
        n.id,
    )))
}

/// The ids of the nodes among the first `upto` that tending evicts, in
/// order.
pub open spec fn evict_ids(nodes: Seq<Node>, upto: int, refresh_count: int, pm: Seq<(String, PartitionForNamespace)>) -> Seq<u64>
    decreases upto,
{
    if upto <= 0 {
        Seq::empty()
    } else {
        let r = evict_ids(nodes, upto - 1, refresh_count, pm);
        if should_evict(nodes, upto - 1, refresh_count, pm) {
            r.push(nodes[upto - 1].id)
        } else {
            r
        }
    }
}

/// The position of the first map of `pm` for namespace `ns` from
/// position `i` on, if any.
pub open spec fn namespace_index_from(pm: Seq<(String, PartitionForNamespace)>, ns: Seq<char>, i: int) -> Option<int>
    decreases pm.len() - i,
{
    if i < 0 || i >= pm.len() {
        None
    } else if pm[i].0@ == ns {
        Some(i)
    } else {
        namespace_index_from(pm, ns, i + 1)
    }
}

/// A position that the search finds holds the namespace searched for.
pub proof fn lemma_namespace_index_found(pm: Seq<(String, PartitionForNamespace)>, ns: Seq<char>, j: int)
    ensures
        namespace_index_from(pm, ns, j) matches Some(i) ==> 0 <= i < pm.len() && pm[i].0@ == ns,
        namespace_index_from(pm, ns, j) is None ==> forall|i: int| 0 <= j <= i < pm.len() ==> (#[trigger] pm[i]).0@ != ns,
    decreases pm.len() - j,
{
    if 0 <= j < pm.len() && pm[j].0@ != ns {
        lemma_namespace_index_found(pm, ns, j + 1);
    }
}

/// The position of the first map of `pm` for namespace `ns`, if any.
pub open spec fn namespace_index(pm: Seq<(String, PartitionForNamespace)>, ns: Seq<char>) -> Option<int> {
    namespace_index_from(pm, ns, 0)
}

/// The ids, in order, of the nodes whose rack for `ns` is one of `rack_ids`.
pub open spec fn rack_members(nodes: Seq<Node>, ns: Seq<char>, rack_ids: Seq<i64>) -> Seq<u64>
    decreases nodes.len(),
{
    if nodes.len() == 0 {
        Seq::empty()
    } else {
        let r = rack_members(nodes.drop_last(), ns, rack_ids);
        if crate::node::in_rack(nodes.last().racks@, ns, rack_ids) {
            r.push(nodes.last().id)
        } else {
            r
        }
    }
}

/// The partitions (below `upto`) whose rank-0 slot in `entries` is node `id`.
pub open spec fn partitions_of(entries: Seq<(u32, Option<u64>)>, id: u64, upto: int) -> Seq<u16>
    decreases upto,
{
    if upto <= 0 {
        Seq::empty()
    } else {
        let r = partitions_of(entries, id, upto - 1);
        if entries[upto - 1].1 == Some(id) {
            r.push((upto - 1) as u16)
        } else {
            r
        }
    }
}

/// Position `j` of a walk round `len` slots that starts just after `start`.
pub open spec fn ring_index(start: int, j: int, len: int) -> int {
    if start + 1 + j >= len {
        start + 1 + j - len
    } else {
        start + 1 + j
    }
}

/// The node that replica selection finds for partition `pid` of
/// namespace `ns` in cluster `c`, if any.
pub open spec fn cluster_node_for(c: Cluster, ns: Seq<char>, pid: int, replica: Replica, last: Option<u64>) -> Option<u64> {
    match namespace_index(c.partition_write_map@, ns) {
        None => None,
        Some(i) => {
            let keep = match c.client_policy.rack_ids {
                Some(ids) => Some(rack_members(c.nodes@, ns, ids@)),
                None => None,
            };
            match crate::partition::select_replica(c.partition_write_map@[i].1.replicas_of(pid), replica, last, keep) {
                Ok(Some(n)) => Some(n),
                _ => None,
            }
        },
    }
}

/// Whether some node of `nodes` is active.
pub open spec fn any_active(nodes: Seq<Node>) -> bool {
    exists|i: int| 0 <= i < nodes.len() && (#[trigger] nodes[i]).active
}

/// The nodes of `nodes` whose ids are not in `ids`, in order.
pub open spec fn kept_nodes(nodes: Seq<Node>, ids: Seq<u64>) -> Seq<Node>
    decreases nodes.len(),
{
    if nodes.len() == 0 {
        Seq::empty()
    } else {
        let r = kept_nodes(nodes.drop_last(), ids);
        if ids.contains(nodes.last().id) {
            r
        } else {
            r.push(nodes.last())
        }
    }
}

/// Whether some host of `hs` is the address `h`.
pub open spec fn mentions(hs: Seq<Host>, h: HostView) -> bool {
    exists|i: int| 0 <= i < hs.len() && (#[trigger] hs[i])@ == h
}

/// The validators of `vs` that add a node to `nodes`: those whose name no
/// node has and no earlier one of them has, in order.
pub open spec fn fresh_validators(nodes: Seq<Node>, vs: Seq<NodeValidator>) -> Seq<NodeValidator>
    decreases vs.len(),
{
    if vs.len() == 0 {
        Seq::empty()
    } else {
        let r = fresh_validators(nodes, vs.drop_last());
        let v = vs.last();
        if has_name(nodes, v.name@) || exists|k: int| 0 <= k < r.len() && (#[trigger] r[k]).name@ == v.name@ {
            r
        } else {
            r.push(v)
        }
    }
}

/// Whether a validator after the `k`th of `fv` lists the address `h`.
pub open spec fn mentioned_after(fv: Seq<NodeValidator>, k: int, h: HostView) -> bool {
    exists|k2: int| k < k2 < fv.len() && mentions((#[trigger] fv[k2]).aliases@, h)
}

/// The id of the node of `nodes` named `name`, if any.
pub open spec fn name_id(nodes: Seq<Node>, name: Seq<char>) -> Option<u64> {
    if has_name(nodes, name) {
        Some(nodes[choose|j: int| 0 <= j < nodes.len() && (#[trigger] nodes[j]).name@ == name].id)
    } else {
        None
    }
}

/// Whether an entry of `fs` after the `i`th names the address `h`, as its
/// host or among what validating it found.
pub open spec fn found_after(fs: Seq<(Host, NodeValidator)>, i: int, h: HostView) -> bool {
    exists|j: int| i < j < fs.len() && ((#[trigger] fs[j]).0@ == h || mentions(fs[j].1.aliases@, h))
}

/// Whether the host of entry `i` of `fs` leads to the live node named as
/// its validation found, unless a later entry names that address too.
pub open spec fn host_recorded(nodes: Seq<Node>, t: Seq<(Host, u64)>, fs: Seq<(Host, NodeValidator)>, i: int) -> bool {
    match name_id(nodes, fs[i].1.name@) {
        Some(id) => alias_lookup(t, fs[i].0@) == Some(id) || found_after(fs, i, fs[i].0@),
        None => false,
    }
}

/// Where node names are unique, the node at `j` is the one its name finds.
pub proof fn lemma_name_id(nodes: Seq<Node>, j: int)
    requires
        0 <= j < nodes.len(),
        forall|a: int, b: int|
            0 <= a < nodes.len() && 0 <= b < nodes.len() && a != b ==> (#[trigger] nodes[a]).name@ != (#[trigger] nodes[b]).name@,
    ensures
        name_id(nodes, nodes[j].name@) == Some(nodes[j].id),
{
    assert(has_name(nodes, nodes[j].name@));
}

/// The active nodes of `nodes` that have an address, each with its first
/// address, in order: the nodes that tending refreshes.
pub open spec fn refresh_targets_spec(nodes: Seq<Node>, t: Seq<(Host, u64)>) -> Seq<(u64, HostView)>
    decreases nodes.len(),
{
    if nodes.len() == 0 {
        Seq::empty()
    } else {
        let r = refresh_targets_spec(nodes.drop_last(), t);
        let n = nodes.last();
        if n.active && aliases_of_spec(t, n.id).len() > 0 {
            r.push((n.id, aliases_of_spec(t, n.id)[0]))
        } else {
            r
        }
    }
}

/// What tending removes: the nodes to evict now, and a lone node that has
/// failed too often, to be evicted only if reseeding adds another node.
pub struct RemovalPlan {
    pub remove: Vec<u64>,
    pub reseed_candidate: Option<u64>,
}

impl Cluster {
    /// The invariants of the membership state.
    pub open spec fn wf(&self) -> bool {
        let nodes = self.nodes@;
        let t = self.aliases@;
        &&& forall|i: int, j: int|
            0 <= i < nodes.len() && 0 <= j < nodes.len() && i != j ==> (#[trigger] nodes[i]).id != (#[trigger] nodes[j]).id
        &&& forall|i: int, j: int|
            0 <= i < nodes.len() && 0 <= j < nodes.len() && i != j ==> (#[trigger] nodes[i]).name@ != (
            #[trigger] nodes[j]).name@
        &&& forall|i: int| 0 <= i < nodes.len() ==> (#[trigger] nodes[i]).id < self.next_node_id
        &&& forall|i: int, j: int| 0 <= i < t.len() && 0 <= j < t.len() && i != j ==> (#[trigger] t[i]).0@ != (#[trigger] t[j]).0@
        &&& forall|i: int| 0 <= i < t.len() ==> has_node(nodes, (#[trigger] t[i]).1)
        &&& forall|n: int, k: int|
            0 <= n < self.partition_write_map@.len() && 0 <= k < self.partition_write_map@[n].1.nodes@.len()
                ==> ((#[trigger] self.partition_write_map@[n].1.nodes@[k]).1 matches Some(id) ==> has_node(nodes, id))
        &&& forall|i: int, j: int|
            0 <= i < self.partition_write_map@.len() && 0 <= j < self.partition_write_map@.len() && i != j
                ==> (#[trigger] self.partition_write_map@[i]).0@ != (#[trigger] self.partition_write_map@[j]).0@
    }

    /// A cluster that knows only its seeds.
    pub fn new(policy: ClientPolicy, hosts: &Vec<Host>) -> (r: Cluster)
        ensures
            r.wf(),
            r.nodes@.len() == 0,
            r.aliases@.len() == 0,
            r.seeds@.len() == hosts@.len(),
            forall|i: int| 0 <= i < hosts@.len() ==> (#[trigger] r.seeds@[i])@ == hosts@[i]@,
            !r.closed,
    {
        let mut seeds: Vec<Host> = Vec::new();
        let mut i: usize = 0;
        while i < hosts.len()
            invariant
                i <= hosts@.len(),
                seeds@.len() == i,
                forall|j: int| 0 <= j < i ==> (#[trigger] seeds@[j])@ == hosts@[j]@,
            decreases hosts@.len() - i,
        {
            seeds.push(hosts[i].duplicate());
            i = i + 1;
        }
        Cluster {
            seeds,
            aliases: Vec::new(),
            nodes: Vec::new(),
            partition_write_map: Vec::new(),
            node_index: 0,
            client_policy: policy,
            closed: false,
            next_node_id: 0,
        }
    }

    /// The expected cluster name, if any.
    pub fn cluster_name(&self) -> (r: &Option<String>)
        ensures
            r == &self.client_policy.cluster_name,
    {
        &self.client_policy.cluster_name
    }

    /// The client policy.
    pub fn client_policy(&self) -> (r: &ClientPolicy)
        ensures
            r == &self.client_policy,
    {
        &self.client_policy
    }

    /// Adds hosts to the seed list.
    pub fn add_seeds(&mut self, new_seeds: &Vec<Host>) -> (r: Result<()>)
        ensures
            r is Ok,
            final(self).seeds@.len() == old(self).seeds@.len() + new_seeds@.len(),
            forall|i: int| 0 <= i < old(self).seeds@.len() ==> (#[trigger] final(self).seeds@[i]) == old(self).seeds@[i],
            forall|i: int|
                0 <= i < new_seeds@.len() ==> (#[trigger] final(self).seeds@[old(self).seeds@.len() + i])@ == new_seeds@[i]@,
            final(self).nodes == old(self).nodes,
            final(self).aliases == old(self).aliases,
            final(self).partition_write_map == old(self).partition_write_map,
            final(self).next_node_id == old(self).next_node_id,
    {
        let ghost n0 = self.seeds@.len();
        let mut i: usize = 0;
        while i < new_seeds.len()
            invariant
                i <= new_seeds@.len(),
                self.seeds@.len() == n0 + i,
                forall|j: int| 0 <= j < n0 ==> (#[trigger] self.seeds@[j]) == old(self).seeds@[j],
                forall|j: int| 0 <= j < i ==> (#[trigger] self.seeds@[n0 + j])@ == new_seeds@[j]@,
                self.nodes == old(self).nodes,
                self.aliases == old(self).aliases,
                self.partition_write_map == old(self).partition_write_map,
                self.next_node_id == old(self).next_node_id,
            decreases new_seeds@.len() - i,
        {
            self.seeds.push(new_seeds[i].duplicate());
            i = i + 1;
        }
        Ok(())
    }

    /// The position of `host` in the alias table, if it is there.
    pub fn alias_position(&self, host: &Host) -> (r: Option<usize>)
        ensures
            r matches Some(i) ==> i < self.aliases@.len() && self.aliases@[i as int].0@ == host@,
            r is None ==> forall|i: int| 0 <= i < self.aliases@.len() ==> (#[trigger] self.aliases@[i]).0@ != host@,
    {
        let mut i: usize = 0;
        while i < self.aliases.len()
            invariant
                i <= self.aliases@.len(),
                forall|j: int| 0 <= j < i ==> (#[trigger] self.aliases@[j]).0@ != host@,
            decreases self.aliases@.len() - i,
        {
            if self.aliases[i].0.same_as(host) {
                return Some(i);
            }
            i = i + 1;
        }
        None
    }

    /// Whether `host` is a known address of some node.
    pub fn alias_exists(&self, host: &Host) -> (r: Result<bool>)
        ensures
            r == Ok::<bool, Error>(alias_lookup(self.aliases@, host@) is Some),
    {
        let p = self.alias_position(host);
        proof {
            if let Some(i) = p {
                assert(self.aliases@[i as int].0@ == host@);
            }
        }
        Ok(p.is_some())
    }

    /// The node that answers on `host`, if it is known.
    pub fn alias_target(&self, host: &Host) -> (r: Option<u64>)
        requires
            self.wf(),
        ensures
            r == alias_lookup(self.aliases@, host@),
    {
        match self.alias_position(host) {
            Some(i) => {
                proof {
                    let t = self.aliases@;
                    assert(t[i as int].0@ == host@);
                    let c = choose|c: int| 0 <= c < t.len() && (#[trigger] t[c]).0@ == host@;
                    if c != i {
                        assert(t[c].0@ != t[i as int].0@);
                    }
                }
                Some(self.aliases[i].1)
            },
            None => None,
        }
    }

    /// The addresses of node `id`, in the order they became known.
    pub fn aliases_of(&self, id: u64) -> (r: Vec<Host>)
        ensures
            r@.len() == aliases_of_spec(self.aliases@, id).len(),
            forall|i: int| 0 <= i < r@.len() ==> (#[trigger] r@[i])@ == aliases_of_spec(self.aliases@, id)[i],
    {
        let mut r: Vec<Host> = Vec::new();
        let mut i: usize = 0;
        while i < self.aliases.len()
            invariant
                i <= self.aliases@.len(),
                r@.len() == aliases_of_spec(self.aliases@.subrange(0, i as int), id).len(),
                forall|j: int| 0 <= j < r@.len() ==> (#[trigger] r@[j])@ == aliases_of_spec(self.aliases@.subrange(0, i as int), id)[j],
            decreases self.aliases@.len() - i,
        {
            assert(self.aliases@.subrange(0, i + 1).drop_last() =~= self.aliases@.subrange(0, i as int));
            if self.aliases[i].1 == id {
                r.push(self.aliases[i].0.duplicate());
            }
            i = i + 1;
        }
        assert(self.aliases@.subrange(0, i as int) =~= self.aliases@);
        r
    }

    /// The position of the node with id `id`, if it is live.
    pub fn node_position(&self, id: u64) -> (r: Option<usize>)
        ensures
            r matches Some(i) ==> i < self.nodes@.len() && self.nodes@[i as int].id == id,
            r is None ==> !has_node(self.nodes@, id),
    {
        let mut i: usize = 0;
        while i < self.nodes.len()
            invariant
                i <= self.nodes@.len(),
                forall|j: int| 0 <= j < i ==> (#[trigger] self.nodes@[j]).id != id,
            decreases self.nodes@.len() - i,
        {
            if self.nodes[i].id == id {
                return Some(i);
            }
            i = i + 1;
        }
        None
    }

    /// The position of the node named `name`, if it is live.
    pub fn name_position(&self, name: &str) -> (r: Option<usize>)
        ensures
            r matches Some(i) ==> i < self.nodes@.len() && self.nodes@[i as int].name@ == name@,
            r is None ==> !has_name(self.nodes@, name@),
    {
        let mut i: usize = 0;
        while i < self.nodes.len()
            invariant
                i <= self.nodes@.len(),
                forall|j: int| 0 <= j < i ==> (#[trigger] self.nodes@[j]).name@ != name@,
            decreases self.nodes@.len() - i,
        {
            if str_eq(self.nodes[i].name.as_str(), name) {
                return Some(i);
            }
            i = i + 1;
        }
        None
    }

    /// Records that node `id` answers on `host`, taking the address away
    /// from any node that had it before.
    pub fn add_alias(&mut self, host: Host, id: u64)
        requires
            old(self).wf(),
            has_node(old(self).nodes@, id),
        ensures
            final(self).wf(),
            alias_lookup(final(self).aliases@, host@) == Some(id),
            forall|h: HostView| h != host@ ==> alias_lookup(final(self).aliases@, h) == alias_lookup(old(self).aliases@, h),
            final(self).nodes == old(self).nodes,
            final(self).partition_write_map == old(self).partition_write_map,
            final(self).next_node_id == old(self).next_node_id,
            final(self).seeds == old(self).seeds,
    {
        let ghost t0 = self.aliases@;
        let ghost hv = host@;
        let pos = self.alias_position(&host);
        let ghost k: int = match pos {
            Some(i) => i as int,
            None => t0.len() as int,
        };
        match pos {
            Some(i) => {
                self.aliases.set(i, (host, id));
            },
            None => {
                self.aliases.push((host, id));
            },
        }
        assert(self.aliases@[k].0@ == hv);
        proof {
            let t = self.aliases@;
            assert forall|h: HostView| #[trigger] alias_lookup(t, h) == if h == host@ {
                Some(id)
            } else {
                alias_lookup(t0, h)
            } by {
                if exists|i: int| 0 <= i < t.len() && (#[trigger] t[i]).0@ == h {
                    let c = choose|c: int| 0 <= c < t.len() && (#[trigger] t[c]).0@ == h;
                    if h != host@ {
                        assert(0 <= c < t0.len() && t0[c] == t[c]);
                        let c0 = choose|c0: int| 0 <= c0 < t0.len() && (#[trigger] t0[c0]).0@ == h;
                        assert(t[c0] == t0[c0]);
                    }
                } else if h != host@ {
                    assert forall|i: int| 0 <= i < t0.len() implies (#[trigger] t0[i]).0@ != h by {
                        assert(t[i] == t0[i] || t[i].0@ == host@);
                    }
                } else {
                    assert(t[k].0@ == h);
                }
            }
        }
    }

    /// Adds a node for what `nv` found, with a fresh id, and records its
    /// addresses. Returns the new node's id.
    pub fn add_node(&mut self, nv: NodeValidator) -> (r: u64)
        requires
            old(self).wf(),
            !has_name(old(self).nodes@, nv.name@),
            old(self).next_node_id < u64::MAX,
        ensures
            final(self).wf(),
            r == old(self).next_node_id,
            final(self).next_node_id == r + 1,
            final(self).nodes@ == old(self).nodes@.push(final(self).nodes@.last()),
            final(self).nodes@.last().id == r,
            final(self).nodes@.last().name@ == nv.name@,
            forall|i: int| 0 <= i < nv.aliases@.len() ==> alias_lookup(final(self).aliases@, (#[trigger] nv.aliases@[i])@) == Some(r),
            forall|h: HostView| !mentions(nv.aliases@, h) ==> #[trigger] alias_lookup(final(self).aliases@, h) == alias_lookup(old(self).aliases@, h),
            final(self).partition_write_map == old(self).partition_write_map,
            final(self).seeds == old(self).seeds,
    {
        let id = self.next_node_id;
        let NodeValidator { name, aliases } = nv;
        let ghost hosts = aliases@;
        let ghost name_v = name@;
        let node = Node::new(id, name);
        self.nodes.push(node);
        self.next_node_id = id + 1;
        proof {
            let nodes = self.nodes@;
            assert(nodes[nodes.len() - 1].id == id);
            assert forall|i: int| 0 <= i < self.aliases@.len() implies has_node(self.nodes@, (#[trigger] self.aliases@[i]).1) by {
                let j = choose|j: int| 0 <= j < old(self).nodes@.len() && (#[trigger] old(self).nodes@[j]).id == self.aliases@[i].1;
                assert(self.nodes@[j] == old(self).nodes@[j]);
            }
            assert forall|n: int, k: int|
                0 <= n < self.partition_write_map@.len() && 0 <= k < self.partition_write_map@[n].1.nodes@.len() implies
                ((#[trigger] self.partition_write_map@[n].1.nodes@[k]).1 matches Some(x) ==> has_node(self.nodes@, x)) by {
                if let Some(x) = self.partition_write_map@[n].1.nodes@[k].1 {
                    let j = choose|j: int| 0 <= j < old(self).nodes@.len() && (#[trigger] old(self).nodes@[j]).id == x;
                    assert(self.nodes@[j] == old(self).nodes@[j]);
                }
            }
            assert(has_node(self.nodes@, id));
        }
        let mut rest = reversed(aliases);
        let ghost n_all = hosts.len();
        let ghost nodes_now = self.nodes@;
        while rest.len() > 0
            invariant
                self.wf(),
                self.nodes@ == nodes_now,
                self.next_node_id == id + 1,
                has_node(self.nodes@, id),
                rest@.len() <= n_all,
                n_all == hosts.len(),
                forall|i: int| 0 <= i < rest@.len() ==> (#[trigger] rest@[i])@ == hosts[n_all - 1 - i]@,
                forall|i: int| 0 <= i < n_all - rest@.len() ==> alias_lookup(self.aliases@, (#[trigger] hosts[i])@) == Some(id),
                forall|h: HostView|
                    !mentions(hosts.subrange(0, n_all - rest@.len()), h) ==> #[trigger] alias_lookup(self.aliases@, h) == alias_lookup(
                        old(self).aliases@,
                        h,
                    ),
                self.partition_write_map == old(self).partition_write_map,
                self.seeds == old(self).seeds,
            decreases rest@.len(),
        {
            let h = rest.pop().unwrap();
            let ghost hv = h@;
            let ghost done_before = hosts.subrange(0, n_all - rest@.len() - 1);
            assert(hv == hosts[n_all - rest@.len() - 1]@);
            self.add_alias(h, id);
            proof {
                let done_now = hosts.subrange(0, n_all - rest@.len());
                assert forall|h2: HostView| !mentions(done_now, h2) implies #[trigger] alias_lookup(self.aliases@, h2)
                    == alias_lookup(old(self).aliases@, h2) by {
                    assert(done_now[done_now.len() - 1] == hosts[n_all - rest@.len() - 1]);
                    if mentions(done_before, h2) {
                        let i = choose|i: int| 0 <= i < done_before.len() && (#[trigger] done_before[i])@ == h2;
                        assert(done_now[i] == done_before[i]);
                    }
                }
            }
        }
        assert(hosts.subrange(0, n_all as int) =~= hosts);
        id
    }

    /// Adds a node for each validated seed whose name no live node has
    /// (the first such seed of each name), appended in order with fresh
    /// ids, and records its addresses. Returns whether a node was added.
    pub fn seed_nodes(&mut self, validated: Vec<NodeValidator>) -> (r: bool)
        requires
            old(self).wf(),
            old(self).next_node_id + validated@.len() < u64::MAX,
        ensures
            ({
                let fv = fresh_validators(old(self).nodes@, validated@);
                let n0 = old(self).nodes@.len();
                let id0 = old(self).next_node_id;
                &&& final(self).wf()
                &&& r <==> fv.len() > 0
                &&& final(self).nodes@.len() == n0 + fv.len()
                &&& final(self).next_node_id == id0 + fv.len()
                &&& forall|i: int| 0 <= i < n0 ==> (#[trigger] final(self).nodes@[i]) == old(self).nodes@[i]
                &&& forall|k: int|
                    0 <= k < fv.len() ==> (#[trigger] final(self).nodes@[n0 + k]).name@ == fv[k].name@
                        && final(self).nodes@[n0 + k].id == id0 + k
                &&& forall|k: int, a: int|
                    0 <= k < fv.len() && 0 <= a < fv[k].aliases@.len() ==> alias_lookup(
                        final(self).aliases@,
                        (#[trigger] fv[k].aliases@[a])@,
                    ) == Some((id0 + k) as u64) || mentioned_after(fv, k, fv[k].aliases@[a]@)
            }),
            forall|i: int| 0 <= i < validated@.len() ==> has_name(final(self).nodes@, (#[trigger] validated@[i]).name@),
            final(self).partition_write_map == old(self).partition_write_map,
            final(self).seeds == old(self).seeds,
    {
        let ghost vs = validated@;
        let ghost n0 = self.nodes@.len();
        let ghost id0 = self.next_node_id as int;
        let n = validated.len();
        let mut rest = reversed(validated);
        let mut added = false;
        while rest.len() > 0
            invariant
                self.wf(),
                rest@.len() <= n,
                n == vs.len(),
                n0 == old(self).nodes@.len(),
                id0 == old(self).next_node_id,
                forall|i: int| 0 <= i < rest@.len() ==> rest@[i] == vs[n - 1 - i],
                ({
                    let fv = fresh_validators(old(self).nodes@, vs.subrange(0, n - rest@.len()));
                    &&& added <==> fv.len() > 0
                    &&& self.nodes@.len() == n0 + fv.len()
                    &&& self.next_node_id == id0 + fv.len()
                    &&& self.next_node_id + rest@.len() < u64::MAX
                    &&& forall|i: int| 0 <= i < n0 ==> (#[trigger] self.nodes@[i]) == old(self).nodes@[i]
                    &&& forall|k: int|
                        0 <= k < fv.len() ==> (#[trigger] self.nodes@[n0 + k]).name@ == fv[k].name@ && self.nodes@[n0 + k].id
                            == id0 + k
                    &&& forall|k: int, a: int|
                        0 <= k < fv.len() && 0 <= a < fv[k].aliases@.len() ==> alias_lookup(
                            self.aliases@,
                            (#[trigger] fv[k].aliases@[a])@,
                        ) == Some((id0 + k) as u64) || mentioned_after(fv, k, fv[k].aliases@[a]@)
                }),
                forall|i: int| 0 <= i < n - rest@.len() ==> has_name(self.nodes@, (#[trigger] vs[i]).name@),
                self.partition_write_map == old(self).partition_write_map,
                self.seeds == old(self).seeds,
            decreases rest@.len(),
        {
            let nv = rest.pop().unwrap();
            let ghost p = n - rest@.len() - 1;
            assert(nv == vs[p]);
            let ghost fv = fresh_validators(old(self).nodes@, vs.subrange(0, p));
            assert(vs.subrange(0, p + 1).drop_last() =~= vs.subrange(0, p));
            assert(vs.subrange(0, p + 1).last() == nv);
            let ghost before = self.nodes@;
            let ghost t_before = self.aliases@;
            // a name is live exactly when an old node or an earlier fresh validator has it
            proof {
                assert(has_name(before, nv.name@) <==> (has_name(old(self).nodes@, nv.name@) || exists|k: int|
                    0 <= k < fv.len() && (#[trigger] fv[k]).name@ == nv.name@)) by {
                    if has_name(before, nv.name@) {
                        let j = choose|j: int| 0 <= j < before.len() && (#[trigger] before[j]).name@ == nv.name@;
                        if j < n0 {
                            assert(old(self).nodes@[j] == before[j]);
                        } else {
                            assert(fv[j - n0].name@ == before[n0 + (j - n0)].name@);
                        }
                    }
                    if has_name(old(self).nodes@, nv.name@) {
                        let j = choose|j: int| 0 <= j < n0 && (#[trigger] old(self).nodes@[j]).name@ == nv.name@;
                        assert(before[j] == old(self).nodes@[j]);
                    }
                    if exists|k: int| 0 <= k < fv.len() && (#[trigger] fv[k]).name@ == nv.name@ {
                        let k = choose|k: int| 0 <= k < fv.len() && (#[trigger] fv[k]).name@ == nv.name@;
                        assert(before[n0 + k].name@ == nv.name@);
                    }
                }
            }
            if self.name_position(nv.name.as_str()).is_none() {
                let ghost v = nv;
                self.add_node(nv);
                added = true;
                proof {
                    let fv2 = fv.push(v);
                    assert(fresh_validators(old(self).nodes@, vs.subrange(0, p + 1)) == fv2);
                    assert forall|k: int| 0 <= k < fv2.len() implies (#[trigger] self.nodes@[n0 + k]).name@ == fv2[k].name@
                        && self.nodes@[n0 + k].id == id0 + k by {
                        if k < fv.len() {
                            assert(self.nodes@[n0 + k] == before[n0 + k]);
                        }
                    }
                    assert forall|i: int| 0 <= i < n0 implies (#[trigger] self.nodes@[i]) == old(self).nodes@[i] by {
                        assert(self.nodes@[i] == before[i]);
                    }
                    assert forall|k: int, a: int|
                        0 <= k < fv2.len() && 0 <= a < fv2[k].aliases@.len() implies alias_lookup(
                            self.aliases@,
                            (#[trigger] fv2[k].aliases@[a])@,
                        ) == Some((id0 + k) as u64) || mentioned_after(fv2, k, fv2[k].aliases@[a]@) by {
                        let h = fv2[k].aliases@[a]@;
                        if k == fv.len() {
                            assert(v.aliases@[a] == fv2[k].aliases@[a]);
                        } else if mentions(v.aliases@, h) {
                            assert(fv2[fv.len() as int] == v);
                        } else {
                            assert(fv2[k] == fv[k]);
                            if mentioned_after(fv, k, h) {
                                let k2 = choose|k2: int| k < k2 < fv.len() && mentions((#[trigger] fv[k2]).aliases@, h);
                                assert(fv2[k2] == fv[k2]);
                            }
                        }
                    }
                    assert forall|i: int| 0 <= i < n - rest@.len() implies has_name(self.nodes@, (#[trigger] vs[i]).name@) by {
                        if i < p {
                            let j = choose|j: int| 0 <= j < before.len() && (#[trigger] before[j]).name@ == vs[i].name@;
                            assert(self.nodes@[j] == before[j]);
                        } else {
                            assert(self.nodes@[self.nodes@.len() - 1].name@ == vs[i].name@);
                        }
                    }
                }
            } else {
                proof {
                    assert(fresh_validators(old(self).nodes@, vs.subrange(0, p + 1)) == fv);
                }
            }
        }
        assert(vs.subrange(0, n as int) =~= vs);
        added
    }

    /// Takes in the hosts that refreshing found, each with what validating
    /// it found: a host whose server name a live node already has becomes
    /// one more alias of that node; any other gets a new node, which the
    /// host and the addresses validation found lead to. Returns how many
    /// nodes were added.
    pub fn find_new_nodes_to_add(&mut self, found: Vec<(Host, NodeValidator)>) -> (r: usize)
        requires
            old(self).wf(),
            old(self).next_node_id + found@.len() < u64::MAX,
        ensures
            final(self).wf(),
            final(self).nodes@.len() == old(self).nodes@.len() + r,
            forall|i: int| 0 <= i < found@.len() ==> has_name(final(self).nodes@, (#[trigger] found@[i]).1.name@),
            forall|i: int| 0 <= i < found@.len() ==> #[trigger] host_recorded(final(self).nodes@, final(self).aliases@, found@, i),
            forall|i: int| 0 <= i < old(self).nodes@.len() ==> (#[trigger] final(self).nodes@[i]) == old(self).nodes@[i],
            forall|i: int|
                old(self).nodes@.len() <= i < final(self).nodes@.len() ==> !has_name(old(self).nodes@, (#[trigger] final(self).nodes@[i]).name@),
            final(self).partition_write_map == old(self).partition_write_map,
            final(self).seeds == old(self).seeds,
    {
        let ghost fs = found@;
        let n = found.len();
        let mut rest = reversed(found);
        let mut added: usize = 0;
        let ghost n0 = self.nodes@.len();
        while rest.len() > 0
            invariant
                self.wf(),
                rest@.len() <= n,
                n == fs.len(),
                self.next_node_id + rest@.len() < u64::MAX,
                forall|i: int| 0 <= i < rest@.len() ==> rest@[i] == fs[n - 1 - i],
                forall|i: int| 0 <= i < n - rest@.len() ==> has_name(self.nodes@, (#[trigger] fs[i]).1.name@),
                self.nodes@.len() == n0 + added,
                added <= n - rest@.len(),
                n0 == old(self).nodes@.len(),
                forall|i: int| 0 <= i < n0 ==> (#[trigger] self.nodes@[i]) == old(self).nodes@[i],
                forall|i: int| n0 <= i < self.nodes@.len() ==> !has_name(old(self).nodes@, (#[trigger] self.nodes@[i]).name@),
                forall|i: int|
                    0 <= i < n - rest@.len() ==> #[trigger] host_recorded(self.nodes@, self.aliases@, fs.subrange(0, n - rest@.len()), i),
                self.partition_write_map == old(self).partition_write_map,
                self.seeds == old(self).seeds,
            decreases rest@.len(),
        {
            let (host, nv) = rest.pop().unwrap();
            let ghost k = n - rest@.len() - 1;
            assert((host, nv) == fs[k]);
            let ghost before = self.nodes@;
            let ghost t_before = self.aliases@;
            let ghost hv = host@;
            let ghost v = nv;
            let ghost prev = fs.subrange(0, k);
            let ghost now = fs.subrange(0, k + 1);
            assert(now[k] == fs[k]);
            match self.name_position(nv.name.as_str()) {
                Some(p) => {
                    let id = self.nodes[p].id;
                    self.add_alias(host, id);
                    proof {
                        lemma_name_id(self.nodes@, p as int);
                        assert forall|i: int| 0 <= i < k + 1 implies #[trigger] host_recorded(self.nodes@, self.aliases@, now, i) by {
                            assert(now[i] == fs[i]);
                            if i < k {
                                assert(prev[i] == fs[i]);
                                assert(host_recorded(before, t_before, prev, i));
                                if fs[i].0@ == hv {
                                    assert(now[k].0@ == hv);
                                    assert(found_after(now, i, fs[i].0@));
                                } else if found_after(prev, i, fs[i].0@) {
                                    let j = choose|j: int| i < j < prev.len() && ((#[trigger] prev[j]).0@ == fs[i].0@ || mentions(prev[j].1.aliases@, fs[i].0@));
                                    assert(now[j] == prev[j]);
                                    assert(found_after(now, i, fs[i].0@));
                                }
                            } else {
                                assert(fs[i].1.name@ == self.nodes@[p as int].name@);
                            }
                        }
                    }
                },
                None => {
                    let id = self.add_node(nv);
                    self.add_alias(host, id);
                    added = added + 1;
                    proof {
                        lemma_name_id(self.nodes@, self.nodes@.len() - 1);
                        assert forall|i: int| n0 <= i < self.nodes@.len() implies !has_name(old(self).nodes@, (#[trigger] self.nodes@[i]).name@) by {
                            if i < before.len() {
                                assert(self.nodes@[i] == before[i]);
                            } else if has_name(old(self).nodes@, self.nodes@[i].name@) {
                                let j = choose|j: int| 0 <= j < old(self).nodes@.len() && (#[trigger] old(self).nodes@[j]).name@ == self.nodes@[i].name@;
                                assert(before[j] == old(self).nodes@[j]);
                            }
                        }
                        assert forall|i: int| 0 <= i < k + 1 implies #[trigger] host_recorded(self.nodes@, self.aliases@, now, i) by {
                            assert(now[i] == fs[i]);
                            if i < k {
                                assert(prev[i] == fs[i]);
                                assert(host_recorded(before, t_before, prev, i));
                                let j0 = choose|j0: int| 0 <= j0 < before.len() && (#[trigger] before[j0]).name@ == fs[i].1.name@;
                                lemma_name_id(before, j0);
                                assert(self.nodes@[j0] == before[j0]);
                                lemma_name_id(self.nodes@, j0);
                                if fs[i].0@ == hv || mentions(v.aliases@, fs[i].0@) {
                                    assert(now[k].0@ == hv && now[k].1 == v);
                                    assert(found_after(now, i, fs[i].0@));
                                } else if found_after(prev, i, fs[i].0@) {
                                    let j = choose|j: int| i < j < prev.len() && ((#[trigger] prev[j]).0@ == fs[i].0@ || mentions(prev[j].1.aliases@, fs[i].0@));
                                    assert(now[j] == prev[j]);
                                    assert(found_after(now, i, fs[i].0@));
                                }
                            } else {
                                assert(fs[i].1.name@ == self.nodes@[self.nodes@.len() - 1].name@);
                            }
                        }
                    }
                    proof {
                        assert forall|i: int| 0 <= i < n - rest@.len() implies has_name(self.nodes@, (#[trigger] fs[i]).1.name@) by {
                            if i < k {
                                let j = choose|j: int| 0 <= j < before.len() && (#[trigger] before[j]).name@ == fs[i].1.name@;
                                assert(self.nodes@[j] == before[j]);
                            } else {
                                assert(self.nodes@[self.nodes@.len() - 1].name@ == fs[i].1.name@);
                            }
                        }
                    }
                },
            }
        }
        assert(fs.subrange(0, n as int) =~= fs);
        assert forall|i: int| 0 <= i < fs.len() implies #[trigger] host_recorded(self.nodes@, self.aliases@, fs, i) by {
            assert(host_recorded(self.nodes@, self.aliases@, fs.subrange(0, n as int), i));
        }
        added
    }

    /// Ends a tend iteration's removals: a lone node that has failed too
    /// often (the plan's reseed candidate) goes only if reseeding, with
    /// what validating the seeds found, adds a node of another name; then
    /// the planned nodes go. Returns the ids removed.
    pub fn remove_after_reseed(&mut self, plan: RemovalPlan, reseeded: Vec<NodeValidator>) -> (r: Vec<u64>)
        requires
            old(self).wf(),
            old(self).next_node_id + reseeded@.len() < u64::MAX,
            forall|i: int| 0 <= i < plan.remove@.len() ==> has_node(old(self).nodes@, #[trigger] plan.remove@[i]),
            plan.reseed_candidate matches Some(id) ==> has_node(old(self).nodes@, id),
        ensures
            ({
                let fv = fresh_validators(old(self).nodes@, reseeded@);
                let evict_lone = plan.reseed_candidate is Some && fv.len() > 0;
                &&& final(self).wf()
                &&& r@ == if evict_lone {
                    plan.remove@.push(plan.reseed_candidate->0)
                } else {
                    plan.remove@
                }
                &&& forall|i: int|
                    0 <= i < old(self).nodes@.len() ==> ((exists|j: int|
                        0 <= j < final(self).nodes@.len() && final(self).nodes@[j] == #[trigger] old(self).nodes@[i])
                        <==> !r@.contains(old(self).nodes@[i].id))
                &&& plan.reseed_candidate is Some ==> forall|k: int| 0 <= k < fv.len() ==> has_name(final(self).nodes@, (#[trigger] fv[k]).name@)
                &&& plan.reseed_candidate is None ==> final(self).nodes@ == kept_nodes(old(self).nodes@, r@)
            }),
            final(self).seeds == old(self).seeds,
    {
        let ghost fv = fresh_validators(self.nodes@, reseeded@);
        let ghost n0 = self.nodes@.len();
        let mut remove = plan.remove;
        let ghost mid = self.nodes@;
        if let Some(lone) = plan.reseed_candidate {
            let ghost id0 = self.next_node_id;
            if self.seed_nodes(reseeded) {
                remove.push(lone);
            }
            proof {
                assert forall|i: int| 0 <= i < remove@.len() implies (#[trigger] remove@[i]) < id0 by {
                    let x = remove@[i];
                    let j = choose|j: int| 0 <= j < old(self).nodes@.len() && (#[trigger] old(self).nodes@[j]).id == x;
                }
            }
            let ghost mid2 = self.nodes@;
            self.remove_nodes_and_aliases(&remove);
            proof {
                assert forall|k: int| 0 <= k < fv.len() implies has_name(self.nodes@, (#[trigger] fv[k]).name@) by {
                    let node = mid2[n0 + k];
                    assert(node.id == id0 + k);
                    if remove@.contains(node.id) {
                        let i = choose|i: int| 0 <= i < remove@.len() && remove@[i] == node.id;
                        assert(remove@[i] < id0);
                    }
                    let j = choose|j: int| 0 <= j < self.nodes@.len() && self.nodes@[j] == mid2[n0 + k];
                    assert(self.nodes@[j].name@ == fv[k].name@);
                }
                assert forall|i: int| 0 <= i < old(self).nodes@.len() implies ((exists|j: int|
                    0 <= j < self.nodes@.len() && self.nodes@[j] == #[trigger] old(self).nodes@[i])
                    <==> !remove@.contains(old(self).nodes@[i].id)) by {
                    assert(mid2[i] == old(self).nodes@[i]);
                    if exists|j: int| 0 <= j < self.nodes@.len() && self.nodes@[j] == old(self).nodes@[i] {
                        let j = choose|j: int| 0 <= j < self.nodes@.len() && self.nodes@[j] == old(self).nodes@[i];
                        assert(!remove@.contains(self.nodes@[j].id));
                    }
                }
            }
        } else {
            self.remove_nodes_and_aliases(&remove);
            proof {
                assert forall|i: int| 0 <= i < old(self).nodes@.len() implies ((exists|j: int|
                    0 <= j < self.nodes@.len() && self.nodes@[j] == #[trigger] old(self).nodes@[i])
                    <==> !remove@.contains(old(self).nodes@[i].id)) by {
                    if exists|j: int| 0 <= j < self.nodes@.len() && self.nodes@[j] == old(self).nodes@[i] {
                        let j = choose|j: int| 0 <= j < self.nodes@.len() && self.nodes@[j] == old(self).nodes@[i];
                        assert(!remove@.contains(self.nodes@[j].id));
                    }
                }
            }
        }
        remove
    }

    /// The addresses among `hosts` that lead to no known node.
    pub fn unknown_friends(&self, hosts: &Vec<Host>) -> (r: Vec<Host>)
        ensures
            forall|i: int| 0 <= i < r@.len() ==> alias_lookup(self.aliases@, (#[trigger] r@[i])@) is None && mentions(hosts@, r@[i]@),
            forall|i: int| 0 <= i < hosts@.len() && alias_lookup(self.aliases@, (#[trigger] hosts@[i])@) is None ==> mentions(r@, hosts@[i]@),
    {
        let mut r: Vec<Host> = Vec::new();
        let mut i: usize = 0;
        while i < hosts.len()
            invariant
                i <= hosts@.len(),
                forall|j: int| 0 <= j < r@.len() ==> alias_lookup(self.aliases@, (#[trigger] r@[j])@) is None && mentions(hosts@, r@[j]@),
                forall|j: int| 0 <= j < i && alias_lookup(self.aliases@, (#[trigger] hosts@[j])@) is None ==> mentions(r@, hosts@[j]@),
            decreases hosts@.len() - i,
        {
            let p = self.alias_position(&hosts[i]);
            proof {
                if let Some(q) = p {
                    assert(self.aliases@[q as int].0@ == hosts@[i as int]@);
                }
            }
            if p.is_none() {
                let ghost before = r@;
                r.push(hosts[i].duplicate());
                proof {
                    assert(r@[r@.len() - 1]@ == hosts@[i as int]@);
                    assert forall|j: int| 0 <= j < i + 1 && alias_lookup(self.aliases@, (#[trigger] hosts@[j])@) is None implies mentions(r@, hosts@[j]@) by {
                        if j < i {
                            let q = choose|q: int| 0 <= q < before.len() && (#[trigger] before[q])@ == hosts@[j]@;
                            assert(r@[q] == before[q]);
                        } else {
                            assert(r@[r@.len() - 1]@ == hosts@[j]@);
                        }
                    }
                }
            }
            i = i + 1;
        }
        r
    }

    /// The nodes that tending refreshes: each active node that has an
    /// address, with its first address.
    pub fn refresh_targets(&self) -> (r: Vec<(u64, Host)>)
        ensures
            r@.len() == refresh_targets_spec(self.nodes@, self.aliases@).len(),
            forall|i: int|
                0 <= i < r@.len() ==> (#[trigger] r@[i]).0 == refresh_targets_spec(self.nodes@, self.aliases@)[i].0
                    && r@[i].1@ == refresh_targets_spec(self.nodes@, self.aliases@)[i].1,
    {
        let mut r: Vec<(u64, Host)> = Vec::new();
        let mut i: usize = 0;
        while i < self.nodes.len()
            invariant
                i <= self.nodes@.len(),
                r@.len() == refresh_targets_spec(self.nodes@.subrange(0, i as int), self.aliases@).len(),
                forall|j: int|
                    0 <= j < r@.len() ==> (#[trigger] r@[j]).0 == refresh_targets_spec(self.nodes@.subrange(0, i as int), self.aliases@)[j].0
                        && r@[j].1@ == refresh_targets_spec(self.nodes@.subrange(0, i as int), self.aliases@)[j].1,
            decreases self.nodes@.len() - i,
        {
            assert(self.nodes@.subrange(0, i + 1).drop_last() =~= self.nodes@.subrange(0, i as int));
            let id = self.nodes[i].id;
            if self.nodes[i].active {
                let hosts = self.aliases_of(id);
                if hosts.len() > 0 {
                    r.push((id, hosts[0].duplicate()));
                }
            }
            i = i + 1;
        }
        assert(self.nodes@.subrange(0, i as int) =~= self.nodes@);
        r
    }

    /// Whether node `id` serves some rank of some partition.
    pub fn find_node_in_partition_map(&self, id: u64) -> (r: bool)
        ensures
            r == in_partition_map(self.partition_write_map@, id),
    {
        let pm = &self.partition_write_map;
        let mut n: usize = 0;
        while n < pm.len()
            invariant
                pm@ == self.partition_write_map@,
                n <= pm@.len(),
                forall|a: int, k: int| 0 <= a < n && 0 <= k < pm@[a].1.nodes@.len() ==> (#[trigger] pm@[a].1.nodes@[k]).1 != Some(id),
            decreases pm@.len() - n,
        {
            let entries = &pm[n].1.nodes;
            let mut k: usize = 0;
            while k < entries.len()
                invariant
                    pm@ == self.partition_write_map@,
                    n < pm@.len(),
                    entries@ == pm@[n as int].1.nodes@,
                    k <= entries@.len(),
                    forall|a: int, b: int| 0 <= a < n && 0 <= b < pm@[a].1.nodes@.len() ==> (#[trigger] pm@[a].1.nodes@[b]).1 != Some(id),
                    forall|b: int| 0 <= b < k ==> (#[trigger] entries@[b]).1 != Some(id),
                decreases entries@.len() - k,
            {
                if entries[k].1 == Some(id) {
                    assert(pm@[n as int].1.nodes@[k as int].1 == Some(id));
                    return true;
                }
                k = k + 1;
            }
            n = n + 1;
        }
        false
    }

    /// The nodes that tending removes after refreshing, `refresh_count`
    /// of which succeeded.
    pub fn find_nodes_to_remove(&self, refresh_count: usize) -> (r: RemovalPlan)
        ensures
            r.remove@ == evict_ids(self.nodes@, self.nodes@.len() as int, refresh_count as int, self.partition_write_map@),
            r.reseed_candidate == if self.nodes@.len() == 1 && self.nodes@[0].active && self.nodes@[0].failures
                >= SINGLETON_MAX_FAILURES {
                Some(self.nodes@[0].id)
            } else {
                None
            },
    {
        let size = self.nodes.len();
        let mut remove: Vec<u64> = Vec::new();
        let mut i: usize = 0;
        while i < size
            invariant
                size == self.nodes@.len(),
                i <= size,
                remove@ == evict_ids(self.nodes@, i as int, refresh_count as int, self.partition_write_map@),
            decreases size - i,
        {
            let node = &self.nodes[i];
            let evict = if !node.active {
                true
            } else if size == 2 {
                refresh_count == 1 && node.reference_count == 0 && node.failures > 0
            } else if size >= 3 {
                refresh_count >= 2 && node.reference_count == 0 && (node.failures > 0
                    || !self.find_node_in_partition_map(node.id))
            } else {
                false
            };
            if evict {
                remove.push(node.id);
            }
            i = i + 1;
        }
        let reseed_candidate = if size == 1 && self.nodes[0].active && self.nodes[0].failures >= SINGLETON_MAX_FAILURES {
            Some(self.nodes[0].id)
        } else {
            None
        };
        RemovalPlan { remove, reseed_candidate }
    }

    /// Removes the nodes whose ids are in `ids`: first every address that
    /// sends to one of them, then the nodes themselves, and every slot of
    /// the partition table that names one of them.
    pub fn remove_nodes_and_aliases(&mut self, ids: &Vec<u64>)
        requires
            old(self).wf(),
        ensures
            final(self).wf(),
            final(self).nodes@ == kept_nodes(old(self).nodes@, ids@),
            forall|i: int| 0 <= i < final(self).nodes@.len() ==> !ids@.contains((#[trigger] final(self).nodes@[i]).id),
            forall|i: int|
                0 <= i < old(self).nodes@.len() && !ids@.contains((#[trigger] old(self).nodes@[i]).id) ==> exists|j: int|
                    0 <= j < final(self).nodes@.len() && final(self).nodes@[j] == old(self).nodes@[i],
            forall|i: int| 0 <= i < final(self).nodes@.len() ==> has_node(old(self).nodes@, (#[trigger] final(self).nodes@[i]).id),
            forall|h: HostView|
                #[trigger] alias_lookup(final(self).aliases@, h) == match alias_lookup(old(self).aliases@, h) {
                    Some(id) => if ids@.contains(id) {
                        None
                    } else {
                        Some(id)
                    },
                    None => None,
                },
            final(self).seeds == old(self).seeds,
            final(self).next_node_id == old(self).next_node_id,
    {
        let ghost old_nodes = self.nodes@;
        let ghost old_t = self.aliases@;
        // the alias table
        let mut table: Vec<(Host, u64)> = Vec::new();
        std::mem::swap(&mut table, &mut self.aliases);
        let n_t = table.len();
        let mut rest = reversed(table);
        let mut kept: Vec<(Host, u64)> = Vec::new();
        let ghost mut pos: Seq<int> = Seq::empty();
        while rest.len() > 0
            invariant
                n_t == old_t.len(),
                rest@.len() <= n_t,
                forall|i: int| 0 <= i < rest@.len() ==> rest@[i] == old_t[n_t - 1 - i],
                pos.len() == kept@.len(),
                forall|a: int| 0 <= a < kept@.len() ==> 0 <= #[trigger] pos[a] < n_t - rest@.len() && kept@[a] == old_t[pos[a]]
                    && !ids@.contains(old_t[pos[a]].1),
                forall|a: int, b: int| 0 <= a < b < kept@.len() ==> pos[a] < pos[b],
                forall|k: int| 0 <= k < n_t - rest@.len() && !ids@.contains((#[trigger] old_t[k]).1) ==> exists|a: int| 0 <= a < kept@.len() && pos[a] == k,
            decreases rest@.len(),
        {
            let e = rest.pop().unwrap();
            let ghost k = n_t - rest@.len() - 1;
            assert(e == old_t[k]);
            let ghost pos0 = pos;
            let ghost kept0 = kept@;
            if !crate::partition::contains(ids, e.1) {
                kept.push(e);
                proof {
                    pos = pos.push(k);
                }
            }
            proof {
                assert forall|k2: int| 0 <= k2 < n_t - rest@.len() && !ids@.contains((#[trigger] old_t[k2]).1) implies exists|a: int|
                    0 <= a < kept@.len() && pos[a] == k2 by {
                    if k2 < k {
                        let a = choose|a: int| 0 <= a < kept0.len() && pos0[a] == k2;
                        assert(pos[a] == k2);
                    } else {
                        assert(pos[kept@.len() - 1] == k2);
                    }
                }
            }
        }
        self.aliases = kept;
        // the node list
        let mut list: Vec<Node> = Vec::new();
        std::mem::swap(&mut list, &mut self.nodes);
        let n_n = list.len();
        let mut rest_n = reversed(list);
        let mut live: Vec<Node> = Vec::new();
        let ghost mut npos: Seq<int> = Seq::empty();
        while rest_n.len() > 0
            invariant
                n_n == old_nodes.len(),
                rest_n@.len() <= n_n,
                forall|i: int| 0 <= i < rest_n@.len() ==> rest_n@[i] == old_nodes[n_n - 1 - i],
                npos.len() == live@.len(),
                forall|a: int| 0 <= a < live@.len() ==> 0 <= #[trigger] npos[a] < n_n - rest_n@.len() && live@[a] == old_nodes[npos[a]]
                    && !ids@.contains(old_nodes[npos[a]].id),
                forall|a: int, b: int| 0 <= a < b < live@.len() ==> npos[a] < npos[b],
                forall|k: int| 0 <= k < n_n - rest_n@.len() && !ids@.contains((#[trigger] old_nodes[k]).id) ==> exists|a: int| 0 <= a < live@.len() && npos[a] == k,
                live@ == kept_nodes(old_nodes.subrange(0, n_n - rest_n@.len()), ids@),
            decreases rest_n@.len(),
        {
            let node = rest_n.pop().unwrap();
            let ghost k = n_n - rest_n@.len() - 1;
            assert(node == old_nodes[k]);
            assert(old_nodes.subrange(0, k + 1).drop_last() =~= old_nodes.subrange(0, k));
            let ghost npos0 = npos;
            let ghost live0 = live@;
            if !crate::partition::contains(ids, node.id) {
                live.push(node);
                proof {
                    npos = npos.push(k);
                }
            }
            proof {
                assert forall|k2: int| 0 <= k2 < n_n - rest_n@.len() && !ids@.contains((#[trigger] old_nodes[k2]).id) implies exists|a: int|
                    0 <= a < live@.len() && npos[a] == k2 by {
                    if k2 < k {
                        let a = choose|a: int| 0 <= a < live0.len() && npos0[a] == k2;
                        assert(npos[a] == k2);
                    } else {
                        assert(npos[live@.len() - 1] == k2);
                    }
                }
            }
        }
        assert(old_nodes.subrange(0, n_n as int) =~= old_nodes);
        self.nodes = live;
        // the partition table
        let ghost old_pm = self.partition_write_map@;
        let mut n: usize = 0;
        while n < self.partition_write_map.len()
            invariant
                self.partition_write_map@.len() == old_pm.len(),
                n <= old_pm.len(),
                forall|a: int| 0 <= a < old_pm.len() ==> (#[trigger] self.partition_write_map@[a]).1.nodes@.len() == old_pm[a].1.nodes@.len()
                    && self.partition_write_map@[a].0 == old_pm[a].0,
                forall|a: int, k: int|
                    0 <= a < old_pm.len() && 0 <= k < old_pm[a].1.nodes@.len() ==> {
                        let e = #[trigger] self.partition_write_map@[a].1.nodes@[k];
                        let e0 = old_pm[a].1.nodes@[k];
                        if a < n && (e0.1 matches Some(x) && ids@.contains(x)) {
                            e == (e0.0, None::<u64>)
                        } else {
                            e == e0
                        }
                    },
                self.nodes@ == live@,
                self.aliases@ == kept@,
                self.seeds == old(self).seeds,
                self.next_node_id == old(self).next_node_id,
            decreases old_pm.len() - n,
        {
            let len = self.partition_write_map[n].1.nodes.len();
            let mut k: usize = 0;
            while k < len
                invariant
                    n < old_pm.len(),
                    self.partition_write_map@.len() == old_pm.len(),
                    len == old_pm[n as int].1.nodes@.len(),
                    k <= len,
                    forall|a: int| 0 <= a < old_pm.len() ==> (#[trigger] self.partition_write_map@[a]).1.nodes@.len() == old_pm[a].1.nodes@.len()
                    && self.partition_write_map@[a].0 == old_pm[a].0,
                    forall|a: int, b: int|
                        0 <= a < old_pm.len() && 0 <= b < old_pm[a].1.nodes@.len() ==> {
                            let e = #[trigger] self.partition_write_map@[a].1.nodes@[b];
                            let e0 = old_pm[a].1.nodes@[b];
                            if (a < n || (a == n && b < k)) && (e0.1 matches Some(x) && ids@.contains(x)) {
                                e == (e0.0, None::<u64>)
                            } else {
                                e == e0
                            }
                        },
                    self.nodes@ == live@,
                    self.aliases@ == kept@,
                    self.seeds == old(self).seeds,
                    self.next_node_id == old(self).next_node_id,
                decreases len - k,
            {
                let (regime, slot) = self.partition_write_map[n].1.nodes[k];
                if let Some(x) = slot {
                    if crate::partition::contains(ids, x) {
                        self.partition_write_map[n].1.nodes.set(k, (regime, None));
                    }
                }
                k = k + 1;
            }
            n = n + 1;
        }
        proof {
            let nodes = self.nodes@;
            let t = self.aliases@;
            assert forall|i: int| 0 <= i < nodes.len() implies !ids@.contains((#[trigger] nodes[i]).id) by {
                assert(nodes[i] == old_nodes[npos[i]]);
            }
            assert forall|k: int| 0 <= k < old_nodes.len() && !ids@.contains(old_nodes[k].id) implies has_node(nodes, old_nodes[k].id) by {
                let a = choose|a: int| 0 <= a < live@.len() && npos[a] == k;
                assert(nodes[a] == old_nodes[k]);
            }
            assert forall|i: int, j: int| 0 <= i < nodes.len() && 0 <= j < nodes.len() && i != j implies (#[trigger] nodes[i]).id
                != (#[trigger] nodes[j]).id && nodes[i].name@ != nodes[j].name@ by {
                assert(npos[i] != npos[j]);
            }
            assert forall|i: int, j: int| 0 <= i < t.len() && 0 <= j < t.len() && i != j implies (#[trigger] t[i]).0@ != (#[trigger] t[j]).0@ by {
                assert(pos[i] != pos[j]);
            }
            assert forall|i: int| 0 <= i < t.len() implies has_node(nodes, (#[trigger] t[i]).1) by {
                assert(t[i] == old_t[pos[i]]);
                let j = choose|j: int| 0 <= j < old_nodes.len() && (#[trigger] old_nodes[j]).id == t[i].1;
            }
            let pm = self.partition_write_map@;
            assert forall|a: int, k: int| 0 <= a < pm.len() && 0 <= k < pm[a].1.nodes@.len() implies
                ((#[trigger] pm[a].1.nodes@[k]).1 matches Some(x) ==> has_node(nodes, x)) by {
                if let Some(x) = pm[a].1.nodes@[k].1 {
                    let e0 = old_pm[a].1.nodes@[k];
                    assert(e0.1 == Some(x));
                    let j = choose|j: int| 0 <= j < old_nodes.len() && (#[trigger] old_nodes[j]).id == x;
                }
            }
            assert forall|i: int| 0 <= i < nodes.len() implies has_node(old_nodes, (#[trigger] nodes[i]).id) by {
                assert(nodes[i] == old_nodes[npos[i]]);
            }
            assert forall|i: int|
                0 <= i < old_nodes.len() && !ids@.contains((#[trigger] old_nodes[i]).id) implies exists|j: int|
                    0 <= j < nodes.len() && nodes[j] == old_nodes[i] by {
                let a = choose|a: int| 0 <= a < live@.len() && npos[a] == i;
                assert(nodes[a] == old_nodes[i]);
            }
            assert forall|h: HostView|
                #[trigger] alias_lookup(t, h) == match alias_lookup(old_t, h) {
                    Some(id) => if ids@.contains(id) {
                        None
                    } else {
                        Some(id)
                    },
                    None => None,
                } by {
                if exists|i: int| 0 <= i < t.len() && (#[trigger] t[i]).0@ == h {
                    let c = choose|c: int| 0 <= c < t.len() && (#[trigger] t[c]).0@ == h;
                    let c0 = choose|c0: int| 0 <= c0 < old_t.len() && (#[trigger] old_t[c0]).0@ == h;
                    assert(old_t[pos[c]].0@ == h);
                    if c0 != pos[c] {
                        assert(old_t[c0].0@ != old_t[pos[c]].0@);
                    }
                } else if exists|i: int| 0 <= i < old_t.len() && (#[trigger] old_t[i]).0@ == h {
                    let c0 = choose|c0: int| 0 <= c0 < old_t.len() && (#[trigger] old_t[c0]).0@ == h;
                    if !ids@.contains(old_t[c0].1) {
                        let a = choose|a: int| 0 <= a < kept@.len() && pos[a] == c0;
                        assert(t[a].0@ == h);
                    }
                }
            }
        }
    }

    /// Whether some node is live and the cluster is not closed.
    pub fn is_connected(&self) -> (r: bool)
        ensures
            r == (self.nodes@.len() > 0 && !self.closed),
    {
        self.nodes.len() > 0 && !self.closed
    }

    /// The alias table.
    pub fn aliases(&self) -> (r: &Vec<(Host, u64)>)
        ensures
            r@ == self.aliases@,
    {
        &self.aliases
    }

    /// The live nodes.
    pub fn nodes(&self) -> (r: &Vec<Node>)
        ensures
            r@ == self.nodes@,
    {
        &self.nodes
    }

    /// Stops the cluster; closing twice is the same as closing once.
    pub fn close(&mut self) -> (r: Result<()>)
        ensures
            r is Ok,
            final(self).closed,
            final(self).next_node_id == old(self).next_node_id,
            final(self).seeds == old(self).seeds,
            final(self).client_policy == old(self).client_policy,
            final(self).node_index == old(self).node_index,
            final(self).nodes == old(self).nodes,
            final(self).aliases == old(self).aliases,
            final(self).partition_write_map == old(self).partition_write_map,
    {
        if !self.closed {
            self.closed = true;
        }
        Ok(())
    }

    /// The position of the map of namespace `ns`, if there is one.
    pub fn namespace_position(&self, ns: &str) -> (r: Option<usize>)
        ensures
            r matches Some(i) ==> i < self.partition_write_map@.len() && namespace_index(self.partition_write_map@, ns@) == Some(
                i as int,
            ),
            r is None ==> namespace_index(self.partition_write_map@, ns@) is None,
    {
        let pm = &self.partition_write_map;
        let mut i: usize = 0;
        while i < pm.len()
            invariant
                pm@ == self.partition_write_map@,
                i <= pm@.len(),
                namespace_index(pm@, ns@) == namespace_index_from(pm@, ns@, i as int),
            decreases pm@.len() - i,
        {
            if str_eq(pm[i].0.as_str(), ns) {
                return Some(i);
            }
            i = i + 1;
        }
        None
    }

    /// The nodes whose rack for `ns` is one of `rack_ids`.
    pub fn rack_local_nodes(&self, ns: &str, rack_ids: &Vec<i64>) -> (r: Vec<u64>)
        ensures
            r@ == rack_members(self.nodes@, ns@, rack_ids@),
    {
        let mut r: Vec<u64> = Vec::new();
        let mut i: usize = 0;
        while i < self.nodes.len()
            invariant
                i <= self.nodes@.len(),
                r@ == rack_members(self.nodes@.subrange(0, i as int), ns@, rack_ids@),
            decreases self.nodes@.len() - i,
        {
            assert(self.nodes@.subrange(0, i + 1).drop_last() =~= self.nodes@.subrange(0, i as int));
            if self.nodes[i].is_in_rack(ns, rack_ids) {
                r.push(self.nodes[i].id);
            }
            i = i + 1;
        }
        assert(self.nodes@.subrange(0, i as int) =~= self.nodes@);
        r
    }

    /// The node for partition `partition_id` of namespace `namespace` under
    /// `replica`, after `last_tried` on a retry.
    pub fn get_node(&self, namespace: &str, partition_id: usize, replica: Replica, last_tried: Option<u64>) -> (r: Result<u64>)
        ensures
            match cluster_node_for(*self, namespace@, partition_id as int, replica, last_tried) {
                Some(n) => r == Ok::<u64, Error>(n),
                None => r is Err,
            },
            match namespace_index(self.partition_write_map@, namespace@) {
                None => r matches Err(e) && e.0 is InvalidNode,
                Some(i) => {
                    let keep = match self.client_policy.rack_ids {
                        Some(ids) => Some(rack_members(self.nodes@, namespace@, ids@)),
                        None => None,
                    };
                    match crate::partition::select_replica(
                        self.partition_write_map@[i].1.replicas_of(partition_id as int),
                        replica,
                        last_tried,
                        keep,
                    ) {
                        Ok(Some(n)) => r == Ok::<u64, Error>(n),
                        Ok(None) => r matches Err(e) && e.0 is InvalidNode,
                        Err(()) => r matches Err(e) && e.0 is InvalidArgument,
                    }
                },
            },
    {
        match self.namespace_position(namespace) {
            None => Err(
                Error::from_kind(ErrorKind::InvalidNode("Cannot get appropriate node for namespace".to_owned())),
            ),
            Some(i) => {
                let map = &self.partition_write_map[i].1;
                match &self.client_policy.rack_ids {
                    Some(ids) => {
                        let local = self.rack_local_nodes(namespace, ids);
                        map.get_node(partition_id, replica, last_tried, Some(&local))
                    },
                    None => map.get_node(partition_id, replica, last_tried, None),
                }
            },
        }
    }

    /// The next active node in round-robin order.
    ///
    /// Fails with `Connection` where no node is active, an empty cluster
    /// included.
    pub fn get_random_node(&mut self) -> (r: Result<u64>)
        ensures
            r matches Ok(id) ==> exists|i: int| 0 <= i < old(self).nodes@.len() && (#[trigger] old(self).nodes@[i]).id == id
                && old(self).nodes@[i].active,
            r is Err <==> !any_active(old(self).nodes@),
            r matches Err(e) ==> e.0 is Connection,
            final(self).nodes == old(self).nodes,
            final(self).aliases == old(self).aliases,
            final(self).partition_write_map == old(self).partition_write_map,
            final(self).next_node_id == old(self).next_node_id,
            final(self).seeds == old(self).seeds,
    {
        let len = self.nodes.len();
        if len == 0 {
            return Err(Error::from_kind(ErrorKind::Connection("No active node".to_owned())));
        }
        let start = self.node_index % len;
        let mut k: usize = 0;
        while k < len
            invariant
                len == self.nodes@.len(),
                start < len,
                k <= len,
                self.nodes == old(self).nodes,
                self.aliases == old(self).aliases,
                self.partition_write_map == old(self).partition_write_map,
                self.next_node_id == old(self).next_node_id,
                self.seeds == old(self).seeds,
                forall|j: int| 0 <= j < k ==> !self.nodes@[#[trigger] ring_index(start as int, j, len as int)].active,
            decreases len - k,
        {
            let idx = if k >= len - 1 - start { k - (len - 1 - start) } else { start + 1 + k };
            assert(idx == ring_index(start as int, k as int, len as int));
            if self.nodes[idx].active {
                self.node_index = idx;
                return Ok(self.nodes[idx].id);
            }
            k = k + 1;
        }
        proof {
            assert forall|i: int| 0 <= i < len implies !(#[trigger] self.nodes@[i]).active by {
                let j = if i > start { i - start - 1 } else { len - start - 1 + i };
                assert(0 <= j < len);
                assert(ring_index(start as int, j, len as int) == i);
            }
        }
        Err(Error::from_kind(ErrorKind::Connection("No active node".to_owned())))
    }

    /// The node named `name`.
    pub fn get_node_by_name(&self, name: &str) -> (r: Result<u64>)
        ensures
            r matches Ok(id) ==> exists|i: int| 0 <= i < self.nodes@.len() && (#[trigger] self.nodes@[i]).id == id
                && self.nodes@[i].name@ == name@,
            r is Err <==> !has_name(self.nodes@, name@),
            r matches Err(e) ==> e.0 is InvalidNode,
    {
        match self.name_position(name) {
            Some(i) => Ok(self.nodes[i].id),
            None => Err(Error::from_kind(ErrorKind::InvalidNode("Requested node not found".to_owned()))),
        }
    }

    /// The partitions of namespace `namespace` whose master is node `id`,
    /// in increasing order.
    pub fn node_partitions(&self, id: u64, namespace: &str) -> (r: Vec<u16>)
        ensures
            match namespace_index(self.partition_write_map@, namespace@) {
                None => r@.len() == 0,
                Some(i) => {
                    let entries = self.partition_write_map@[i].1.nodes@;
                    r@ == partitions_of(entries, id, if entries.len() < PARTITIONS { entries.len() as int } else { PARTITIONS as int })
                },
            },
    {
        let mut r: Vec<u16> = Vec::new();
        match self.namespace_position(namespace) {
            None => r,
            Some(n) => {
                let entries = &self.partition_write_map[n].1.nodes;
                let upto = if entries.len() < PARTITIONS { entries.len() } else { PARTITIONS };
                let mut p: usize = 0;
                while p < upto
                    invariant
                        upto <= entries@.len(),
                        upto <= PARTITIONS,
                        p <= upto,
                        r@ == partitions_of(entries@, id, p as int),
                    decreases upto - p,
                {
                    if entries[p].1 == Some(id) {
                        r.push(p as u16);
                    }
                    p = p + 1;
                }
                r
            },
        }
    }

    /// Records what refreshing node `id` gave: its partition and rebalance
    /// generations, or `None` for a failed refresh. Returns whether the
    /// partition map and whether the racks of the node must be fetched
    /// again.
    pub fn apply_refresh(&mut self, id: u64, outcome: Option<(i64, i64)>) -> (r: (bool, bool))
        requires
            old(self).wf(),
        ensures
            final(self).wf(),
            final(self).nodes@.len() == old(self).nodes@.len(),
            forall|i: int| 0 <= i < old(self).nodes@.len() && (#[trigger] old(self).nodes@[i]).id != id ==> final(self).nodes@[i] == old(self).nodes@[i],
            forall|i: int|
                0 <= i < old(self).nodes@.len() && (#[trigger] old(self).nodes@[i]).id == id ==> match outcome {
                    Some((pg, rg)) => final(self).nodes@[i].failures == 0 && final(self).nodes@[i].partition_generation == pg
                        && final(self).nodes@[i].rebalance_generation == rg && r == (
                        pg != old(self).nodes@[i].partition_generation,
                        rg != old(self).nodes@[i].rebalance_generation,
                    ),
                    None => final(self).nodes@[i].failures == (if old(self).nodes@[i].failures < u64::MAX {
                        (old(self).nodes@[i].failures + 1) as u64
                    } else {
                        old(self).nodes@[i].failures
                    }) && final(self).nodes@[i].partition_generation == old(self).nodes@[i].partition_generation
                        && final(self).nodes@[i].rebalance_generation == old(self).nodes@[i].rebalance_generation
                        && final(self).nodes@[i].racks == old(self).nodes@[i].racks && r == (false, false),
                },
            final(self).aliases == old(self).aliases,
            final(self).partition_write_map == old(self).partition_write_map,
            final(self).next_node_id == old(self).next_node_id,
            final(self).seeds == old(self).seeds,
    {
        match self.node_position(id) {
            None => (false, false),
            Some(i) => {
                let ghost before = self.nodes@;
                let result = match outcome {
                    Some((pg, rg)) => {
                        let changed = (pg != self.nodes[i].partition_generation, rg != self.nodes[i].rebalance_generation);
                        self.nodes[i].failures = 0;
                        self.nodes[i].partition_generation = pg;
                        self.nodes[i].rebalance_generation = rg;
                        changed
                    },
                    None => {
                        self.nodes[i].increase_failures();
                        (false, false)
                    },
                };
                proof {
                    assert forall|a: int| 0 <= a < self.aliases@.len() implies has_node(self.nodes@, (#[trigger] self.aliases@[a]).1) by {
                        let j = choose|j: int| 0 <= j < before.len() && (#[trigger] before[j]).id == self.aliases@[a].1;
                        assert(self.nodes@[j].id == before[j].id);
                    }
                    let pm = self.partition_write_map@;
                    assert forall|a: int, k: int| 0 <= a < pm.len() && 0 <= k < pm[a].1.nodes@.len() implies
                        ((#[trigger] pm[a].1.nodes@[k]).1 matches Some(x) ==> has_node(self.nodes@, x)) by {
                        if let Some(x) = pm[a].1.nodes@[k].1 {
                            let j = choose|j: int| 0 <= j < before.len() && (#[trigger] before[j]).id == x;
                            assert(self.nodes@[j].id == before[j].id);
                        }
                    }
                    assert forall|a: int| 0 <= a < before.len() && (#[trigger] before[a]).id == id implies a == i by {
                        if a != i {
                            assert(before[a].id != before[i as int].id);
                        }
                    }
                }
                result
            },
        }
    }
}

/// How many of the addresses `seen` the alias table `t` sends to node `id`.
pub open spec fn references(t: Seq<(Host, u64)>, seen: Seq<HostView>, id: u64) -> nat
    decreases seen.len(),
{
    if seen.len() == 0 {
        0
    } else {
        references(t, seen.drop_last(), id) + if alias_lookup(t, seen.last()) == Some(id) {
            1nat
        } else {
            0nat
        }
    }
}

/// The views of a list of hosts.
pub open spec fn host_views(hs: Seq<Host>) -> Seq<HostView> {
    Seq::new(hs.len(), |i: int| hs[i]@)
}

impl Cluster {
    /// Sets each node's reference count to the number of addresses in
    /// `seen` (the friends that refreshing reported) that lead to it.
    pub fn count_references(&mut self, seen: &Vec<Host>)
        requires
            old(self).wf(),
            seen@.len() < u64::MAX,
        ensures
            final(self).wf(),
            final(self).nodes@.len() == old(self).nodes@.len(),
            forall|i: int|
                0 <= i < final(self).nodes@.len() ==> (#[trigger] final(self).nodes@[i]).reference_count == references(
                    old(self).aliases@,
                    host_views(seen@),
                    old(self).nodes@[i].id,
                ) && final(self).nodes@[i].id == old(self).nodes@[i].id && final(self).nodes@[i].name == old(self).nodes@[i].name
                    && final(self).nodes@[i].active == old(self).nodes@[i].active && final(self).nodes@[i].failures
                    == old(self).nodes@[i].failures,
            final(self).aliases == old(self).aliases,
            final(self).partition_write_map == old(self).partition_write_map,
            final(self).next_node_id == old(self).next_node_id,
            final(self).seeds == old(self).seeds,
    {
        let ghost hv = host_views(seen@);
        let n = self.nodes.len();
        let mut i: usize = 0;
        while i < n
            invariant
                n == self.nodes@.len(),
                n == old(self).nodes@.len(),
                i <= n,
                self.wf(),
                seen@.len() < u64::MAX,
                hv == host_views(seen@),
                forall|a: int|
                    0 <= a < n ==> (#[trigger] self.nodes@[a]).id == old(self).nodes@[a].id && self.nodes@[a].name
                        == old(self).nodes@[a].name && self.nodes@[a].active == old(self).nodes@[a].active
                        && self.nodes@[a].failures == old(self).nodes@[a].failures,
                forall|a: int| 0 <= a < i ==> (#[trigger] self.nodes@[a]).reference_count == references(old(self).aliases@, hv, old(self).nodes@[a].id),
                self.aliases == old(self).aliases,
                self.partition_write_map == old(self).partition_write_map,
                self.next_node_id == old(self).next_node_id,
                self.seeds == old(self).seeds,
            decreases n - i,
        {
            let id = self.nodes[i].id;
            let mut count: u64 = 0;
            let mut j: usize = 0;
            while j < seen.len()
                invariant
                    j <= seen@.len(),
                    seen@.len() < u64::MAX,
                    self.wf(),
                    hv == host_views(seen@),
                    count as nat == references(self.aliases@, hv.subrange(0, j as int), id),
                    count <= j,
                decreases seen@.len() - j,
            {
                assert(hv.subrange(0, j + 1).drop_last() =~= hv.subrange(0, j as int));
                if self.alias_target(&seen[j]) == Some(id) {
                    count = count + 1;
                }
                j = j + 1;
            }
            assert(hv.subrange(0, j as int) =~= hv);
            let ghost before = self.nodes@;
            self.nodes[i].reference_count = count;
            proof {
                assert forall|a: int| 0 <= a < self.aliases@.len() implies has_node(self.nodes@, (#[trigger] self.aliases@[a]).1) by {
                    let j2 = choose|j2: int| 0 <= j2 < before.len() && (#[trigger] before[j2]).id == self.aliases@[a].1;
                    assert(self.nodes@[j2].id == before[j2].id);
                }
                let pm = self.partition_write_map@;
                assert forall|a: int, k: int| 0 <= a < pm.len() && 0 <= k < pm[a].1.nodes@.len() implies
                    ((#[trigger] pm[a].1.nodes@[k]).1 matches Some(x) ==> has_node(self.nodes@, x)) by {
                    if let Some(x) = pm[a].1.nodes@[k].1 {
                        let j2 = choose|j2: int| 0 <= j2 < before.len() && (#[trigger] before[j2]).id == x;
                        assert(self.nodes@[j2].id == before[j2].id);
                    }
                }
            }
            i = i + 1;
        }
    }
}

/// Whether the first tending has settled: two iterations in a row saw the
/// same number of nodes.
pub fn tend_count_stable(previous: Option<usize>, current: usize) -> (r: bool)
    ensures
        r == (previous == Some(current)),
{
    match previous {
        Some(p) => p == current,
        None => false,
    }
}

proof fn lemma_in_aliases_of(t: Seq<(Host, u64)>, id: u64, h: HostView)
    requires
        aliases_of_spec(t, id).contains(h),
    ensures
        exists|i: int| 0 <= i < t.len() && (#[trigger] t[i]).1 == id && t[i].0@ == h,
    decreases t.len(),
{
    let r = aliases_of_spec(t.drop_last(), id);
    if t.last().1 == id && t.last().0@ == h {
        assert(t[t.len() - 1].1 == id);
    } else {
        if t.last().1 == id {
            let k = choose|k: int| 0 <= k < aliases_of_spec(t, id).len() && aliases_of_spec(t, id)[k] == h;
            assert(r.contains(h)) by {
                assert(k < r.len());
                assert(r[k] == h);
            }
        }
        lemma_in_aliases_of(t.drop_last(), id, h);
        let i = choose|i: int| 0 <= i < t.drop_last().len() && (#[trigger] t.drop_last()[i]).1 == id && t.drop_last()[i].0@ == h;
        assert(t[i] == t.drop_last()[i]);
    }
}

/// Every alias of a node leads back to it: in a well-formed cluster, each
/// address that `aliases_of` lists for a node is sent to that node by the
/// alias table.
pub proof fn lemma_aliases_map_back(c: Cluster, id: u64, h: HostView)
    requires
        c.wf(),
        aliases_of_spec(c.aliases@, id).contains(h),
    ensures
        alias_lookup(c.aliases@, h) == Some(id),
{
    lemma_in_aliases_of(c.aliases@, id, h);
    let t = c.aliases@;
    let i = choose|i: int| 0 <= i < t.len() && (#[trigger] t[i]).1 == id && t[i].0@ == h;
    let c0 = choose|c0: int| 0 <= c0 < t.len() && (#[trigger] t[c0]).0@ == h;
    if c0 != i {
        assert(t[c0].0@ != t[i].0@);
    }
}

/// Every node in the partition table is a live node: in a well-formed
/// cluster, each slot that names a node names one of the node list.
pub proof fn lemma_partition_nodes_are_live(c: Cluster, n: int, k: int)
    requires
        c.wf(),
        0 <= n < c.partition_write_map@.len(),
        0 <= k < c.partition_write_map@[n].1.nodes@.len(),
    ensures
        c.partition_write_map@[n].1.nodes@[k].1 matches Some(id) ==> has_node(c.nodes@, id),
{
    assert(c.partition_write_map@[n].1.nodes@[k] == c.partition_write_map@[n].1.nodes@[k]);
}

/// No two live nodes share a server name in a well-formed cluster; every
/// step of tending (`seed_nodes`, `find_new_nodes_to_add`, `add_alias`,
/// `apply_refresh`, `remove_nodes_and_aliases`) keeps the cluster
/// well-formed.
pub proof fn lemma_node_names_distinct(c: Cluster, i: int, j: int)
    requires
        c.wf(),
        0 <= i < c.nodes@.len(),
        0 <= j < c.nodes@.len(),
        i != j,
    ensures
        c.nodes@[i].name@ != c.nodes@[j].name@,
{
    assert(c.nodes@[i].name@ != c.nodes@[j].name@);
}

} // verus!
