//! Hosts, nodes and the client policy that the cluster logic reads.

use vstd::prelude::*;

use crate::wire::str_eq;

verus! {

/// A network address of a server: name, port, and the name to check its
/// TLS certificate against, if any.
#[derive(Debug, Clone)]
pub struct Host {
    pub name: String,
    pub port: u16,
    pub tls_name: Option<String>,
}

/// What identifies a host.
pub type HostView = (Seq<char>, u16, Option<Seq<char>>);

impl View for Host {
    type V = HostView;

    open spec fn view(&self) -> HostView {
        (
            self.name@,
            self.port,
            match self.tls_name {
                Some(t) => Some(t@),
                None => None,
            },
        )
    }
}

impl Host {
    /// A host without a TLS name.
    pub fn new(name: String, port: u16) -> (r: Host)
        ensures
            r@ == (name@, port, None::<Seq<char>>),
    {
        Host { name, port, tls_name: None }
    }

    /// A copy of this host.
    pub fn duplicate(&self) -> (r: Host)
        ensures
            r@ == self@,
    {
        Host {
            name: self.name.clone(),
            port: self.port,
            tls_name: match &self.tls_name {
                Some(t) => Some(t.clone()),
                None => None,
            },
        }
    }

    /// Whether two hosts are the same address.
    pub fn same_as(&self, other: &Host) -> (r: bool)
        ensures
            r == (self@ == other@),
    {
        if self.port != other.port || self.name != other.name {
            return false;
        }
        match (&self.tls_name, &other.tls_name) {
            (Some(a), Some(b)) => *a == *b,
            (None, None) => true,
            _ => false,
        }
    }
}

/// Settings of the client that the cluster logic reads.
#[derive(Debug, Clone)]
pub struct ClientPolicy {
    /// The racks that `Replica::PreferRack` prefers, if any.
    pub rack_ids: Option<Vec<i64>>,
    /// Whether creating a cluster fails when no node could be reached.
    pub fail_if_not_connected: bool,
    /// The expected name of the cluster, if any.
    pub cluster_name: Option<String>,
    /// How long the first tending may take, in milliseconds.
    pub timeout_ms: Option<u64>,
    /// The pause between two tend iterations, in milliseconds.
    pub tend_interval_ms: u64,
}

/// One server of the cluster, known by the name the server gave itself.
#[derive(Debug)]
pub struct Node {
    /// The identity that this client gave the node when it joined.
    pub id: u64,
    /// The server's own name.
    pub name: String,
    /// The rack of the node in each namespace.
    pub racks: Vec<(String, i64)>,
    pub partition_generation: i64,
    pub rebalance_generation: i64,
    /// Refreshes that failed since the last one that succeeded.
    pub failures: u64,
    /// How many other nodes name this one among their friends.
    pub reference_count: u64,
    pub active: bool,
}

/// Whether `racks` puts the node in one of `rack_ids` for `namespace`.
pub open spec fn in_rack(racks: Seq<(String, i64)>, namespace: Seq<char>, rack_ids: Seq<i64>) -> bool {
    exists|i: int| 0 <= i < racks.len() && (#[trigger] racks[i]).0@ == namespace && rack_ids.contains(racks[i].1)
}

impl Node {
    /// A fresh, active node with no failures and no racks.
    pub fn new(id: u64, name: String) -> (r: Node)
        ensures
            r.id == id,
            r.name@ == name@,
            r.racks@.len() == 0,
            r.failures == 0,
            r.reference_count == 0,
            r.active,
            r.partition_generation == -1,
            r.rebalance_generation == -1,
    {
        Node {
            id,
            name,
            racks: Vec::new(),
            partition_generation: -1,
            rebalance_generation: -1,
            failures: 0,
            reference_count: 0,
            active: true,
        }
    }

    /// Whether the node's rack for `namespace` is one of `rack_ids`.
    pub fn is_in_rack(&self, namespace: &str, rack_ids: &Vec<i64>) -> (r: bool)
        ensures
            r == in_rack(self.racks@, namespace@, rack_ids@),
    {
        let mut i: usize = 0;
        while i < self.racks.len()
            invariant
                i <= self.racks@.len(),
                forall|j: int|
                    0 <= j < i ==> !((#[trigger] self.racks@[j]).0@ == namespace@ && rack_ids@.contains(
                        self.racks@[j].1,
                    )),
            decreases self.racks@.len() - i,
        {
            let (ns, rack) = &self.racks[i];
            if str_eq(ns.as_str(), namespace) && contains_i64(rack_ids, *rack) {
                return true;
            }
            i = i + 1;
        }
        false
    }

    /// Counts one more failed refresh.
    pub fn increase_failures(&mut self)
        ensures
            final(self).failures == if old(self).failures < u64::MAX {
                (old(self).failures + 1) as u64
            } else {
                old(self).failures
            },
            final(self).id == old(self).id,
            final(self).name@ == old(self).name@,
            final(self).active == old(self).active,
            final(self).reference_count == old(self).reference_count,
            final(self).partition_generation == old(self).partition_generation,
            final(self).rebalance_generation == old(self).rebalance_generation,
            final(self).racks == old(self).racks,
    {
        if self.failures < u64::MAX {
            self.failures = self.failures + 1;
        }
    }
}

/// Whether `x` is in `s`.
pub fn contains_i64(s: &Vec<i64>, x: i64) -> (r: bool)
    ensures
        r == s@.contains(x),
{
    let mut i: usize = 0;
    while i < s.len()
        invariant
            i <= s@.len(),
            forall|j: int| 0 <= j < i ==> s@[j] != x,
        decreases s@.len() - i,
    {
        if s[i] == x {
            return true;
        }
        i = i + 1;
    }
    false
}

} // verus!
