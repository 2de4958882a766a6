//! The partition map of one namespace, and the choice of a replica for a
//! partition.

use vstd::prelude::*;

use crate::errors::{Error, ErrorKind, Result};

verus! {

/// The number of partitions of every namespace.
pub const PARTITIONS: usize = 4096;

/// How to pick the node that serves a request.
#[derive(Debug, Clone, Copy, PartialEq, Eq, Structural)]
pub enum Replica {
    /// Always the node of rank 0.
    Master,
    /// The ranks in order; on a retry, the rank after the one last tried.
    Sequence,
    /// As `Sequence`, but nodes in the caller's racks first.
    PreferRack,
}

/// For one namespace, the node of each replica rank of each partition.
///
/// Entry `r * PARTITIONS + p` of `nodes` holds the regime and the node (by
/// its id) that serves rank `r` of partition `p`, if any.
#[derive(Debug)]
pub struct PartitionForNamespace {
    pub nodes: Vec<(u32, Option<u64>)>,
    pub replicas: usize,
}

/// The populated entries of `s`, in order.
pub open spec fn flatten(s: Seq<Option<u64>>) -> Seq<u64>
    decreases s.len(),
{
    if s.len() == 0 {
        Seq::empty()
    } else {
        let r = flatten(s.drop_last());
        match s.last() {
            Some(n) => r.push(n),
            None => r,
        }
    }
}

/// The entries of `s` that are in `keep`, in order.
pub open spec fn keep_only(s: Seq<u64>, keep: Seq<u64>) -> Seq<u64>
    decreases s.len(),
{
    if s.len() == 0 {
        Seq::empty()
    } else {
        let r = keep_only(s.drop_last(), keep);
        if keep.contains(s.last()) {
            r.push(s.last())
        } else {
            r
        }
    }
}

/// Scanning `s` from `i` for `x`: `None` if it does not occur; otherwise
/// the entry after its first occurrence, if there is one.
pub open spec fn after_first(s: Seq<u64>, x: u64, i: int) -> Option<Option<u64>>
    decreases s.len() - i,
{
    if i < 0 || i >= s.len() {
        None
    } else if s[i] == x {
        Some(
            if i + 1 < s.len() {
                Some(s[i + 1])
            } else {
                None
            },
        )
    } else {
        after_first(s, x, i + 1)
    }
}

/// The first entry of `s`, if any.
pub open spec fn first_of(s: Seq<u64>) -> Option<u64> {
    if s.len() > 0 {
        Some(s[0])
    } else {
        None
    }
}

/// The node to try in the sequence `s` after `last`: the entry after the
/// first occurrence of `last`; or, where `last` is unset, absent or at the
/// end, the first entry.
pub open spec fn next_in_sequence(s: Seq<u64>, last: Option<u64>) -> Option<u64> {
    match last {
        Some(l) => match after_first(s, l, 0) {
            Some(Some(n)) => Some(n),
            _ => first_of(s),
        },
        None => first_of(s),
    }
}

/// What replica selection gives: `Ok(Some(n))` for node `n`, `Ok(None)`
/// where no node fits, `Err(())` where rack preference was asked for
/// without racks.
pub open spec fn select_replica(
    reps: Seq<Option<u64>>,
    replica: Replica,
    last: Option<u64>,
    rack_local: Option<Seq<u64>>,
) -> core::result::Result<Option<u64>, ()> {
    match replica {
        Replica::Master => Ok(
            if reps.len() > 0 {
                reps[0]
            } else {
                None
            },
        ),
        Replica::Sequence => Ok(next_in_sequence(flatten(reps), last)),
        Replica::PreferRack => match rack_local {
            None => Err(()),
            Some(keep) => match next_in_sequence(keep_only(flatten(reps), keep), last) {
                Some(n) => Ok(Some(n)),
                None => Ok(next_in_sequence(flatten(reps), last)),
            },
        },
    }
}

impl PartitionForNamespace {
    /// The node serving replica rank `i` of partition `index`, if any.
    pub open spec fn replica_at(&self, i: int, index: int) -> Option<u64> {
        let k = i * PARTITIONS + index;
        if 0 <= index < PARTITIONS && 0 <= k < self.nodes@.len() {
            self.nodes@[k].1
        } else {
            None
        }
    }

    /// The nodes of ranks `0 .. replicas` of partition `index`.
    pub open spec fn replicas_of(&self, index: int) -> Seq<Option<u64>> {
        Seq::new(self.replicas as nat, |i: int| self.replica_at(i, index))
    }

    /// An empty map.
    pub fn new() -> (r: PartitionForNamespace)
        ensures
            r.nodes@.len() == 0,
            r.replicas == 0,
    {
        PartitionForNamespace { nodes: Vec::new(), replicas: 0 }
    }

    /// The node (if any) of each replica rank of partition `index`, rank 0
    /// first.
    pub fn all_replicas(&self, index: usize) -> (r: Vec<Option<u64>>)
        ensures
            r@ == self.replicas_of(index as int),
    {
        let mut r: Vec<Option<u64>> = Vec::new();
        let mut i: usize = 0;
        while i < self.replicas
            invariant
                i <= self.replicas,
                r@ == Seq::new(i as nat, |j: int| self.replica_at(j, index as int)),
            decreases self.replicas - i,
        {
            let k: u128 = i as u128 * PARTITIONS as u128 + index as u128;
            let entry = if index < PARTITIONS && k < self.nodes.len() as u128 {
                self.nodes[k as usize].1
            } else {
                None
            };
            r.push(entry);
            i = i + 1;
            assert(r@ =~= Seq::new(i as nat, |j: int| self.replica_at(j, index as int)));
        }
        r
    }

    /// Chooses the node for partition `partition_id` under `replica`.
    ///
    /// `last_tried` is the node that the previous attempt used, if any.
    /// `rack_local` lists the nodes in the caller's racks for this
    /// namespace, or is `None` where the caller configured no racks.
    pub fn get_node(
        &self,
        partition_id: usize,
        replica: Replica,
        last_tried: Option<u64>,
        rack_local: Option<&Vec<u64>>,
    ) -> (r: Result<u64>)
        ensures
            ({
                let keep = match rack_local {
                    Some(v) => Some(v@),
                    None => None,
                };
                match select_replica(self.replicas_of(partition_id as int), replica, last_tried, keep) {
                    Ok(Some(n)) => r == Ok::<u64, Error>(n),
                    Ok(None) => r matches Err(e) && e.0 is InvalidNode,
                    Err(()) => r matches Err(e) && e.0 is InvalidArgument,
                }
            }),
    {
        let reps = self.all_replicas(partition_id);
        let found = match replica {
            Replica::Master => if reps.len() > 0 {
                reps[0]
            } else {
                None
            },
            Replica::Sequence => next_in(&populated(&reps), last_tried),
            Replica::PreferRack => match rack_local {
                None => {
                    return Err(
                        Error::from_kind(
                            ErrorKind::InvalidArgument(
                                "Attempted to use Replica::PreferRack without configuring racks in client policy".to_owned(),
                            ),
                        ),
                    );
                },
                Some(keep) => {
                    let all = populated(&reps);
                    match next_in(&filter_in(&all, keep), last_tried) {
                        Some(n) => Some(n),
                        None => next_in(&all, last_tried),
                    }
                },
            },
        };
        match found {
            Some(n) => Ok(n),
            None => Err(
                Error::from_kind(ErrorKind::InvalidNode("Cannot get appropriate node for partition".to_owned())),
            ),
        }
    }
}

/// The populated entries of `reps`, in order.
pub fn populated(reps: &Vec<Option<u64>>) -> (r: Vec<u64>)
    ensures
        r@ == flatten(reps@),
{
    let mut r: Vec<u64> = Vec::new();
    let mut i: usize = 0;
    while i < reps.len()
        invariant
            i <= reps@.len(),
            r@ == flatten(reps@.subrange(0, i as int)),
        decreases reps@.len() - i,
    {
        assert(reps@.subrange(0, i + 1).drop_last() =~= reps@.subrange(0, i as int));
        match reps[i] {
            Some(n) => r.push(n),
            None => {},
        }
        i = i + 1;
    }
    assert(reps@.subrange(0, i as int) =~= reps@);
    r
}

/// The entries of `s` that are in `keep`, in order.
pub fn filter_in(s: &Vec<u64>, keep: &Vec<u64>) -> (r: Vec<u64>)
    ensures
        r@ == keep_only(s@, keep@),
{
    let mut r: Vec<u64> = Vec::new();
    let mut i: usize = 0;
    while i < s.len()
        invariant
            i <= s@.len(),
            r@ == keep_only(s@.subrange(0, i as int), keep@),
        decreases s@.len() - i,
    {
        assert(s@.subrange(0, i + 1).drop_last() =~= s@.subrange(0, i as int));
        if contains(keep, s[i]) {
            r.push(s[i]);
        }
        i = i + 1;
    }
    assert(s@.subrange(0, i as int) =~= s@);
    r
}

/// Whether `x` is in `s`.
pub fn contains(s: &Vec<u64>, x: u64) -> (r: bool)
    ensures
        r == s@.contains(x),
{
    let mut i: usize = 0;
    while i < s.len()
        invariant
            i <= s@.len(),
            forall|j: int| 0 <= j < i ==> s@[j] != x,
        decreases s@.len() - i,
    {
        if s[i] == x {
            return true;
        }
        i = i + 1;
    }
    false
}

/// Scans `s` for `x`, as [`after_first`] says.
fn scan_after(s: &Vec<u64>, x: u64) -> (r: Option<Option<u64>>)
    ensures
        r == after_first(s@, x, 0),
{
    let mut i: usize = 0;
    while i < s.len()
        invariant
            i <= s@.len(),
            after_first(s@, x, 0) == after_first(s@, x, i as int),
        decreases s@.len() - i,
    {
        if s[i] == x {
            if i + 1 < s.len() {
                return Some(Some(s[i + 1]));
            }
            return Some(None);
        }
        i = i + 1;
    }
    None
}

/// The node after `last` in `s`, as [`next_in_sequence`] says.
pub fn next_in(s: &Vec<u64>, last: Option<u64>) -> (r: Option<u64>)
    ensures
        r == next_in_sequence(s@, last),
{
    if let Some(l) = last {
        if let Some(Some(n)) = scan_after(s, l) {
            return Some(n);
        }
    }
    if s.len() > 0 {
        Some(s[0])
    } else {
        None
    }
}

proof fn lemma_after_first_found(s: Seq<u64>, x: u64, i: int, k: int)
    requires
        0 <= i <= k < s.len(),
        s[k] == x,
        forall|j: int| i <= j < k ==> s[j] != x,
    ensures
        after_first(s, x, i) == Some(
            if k + 1 < s.len() {
                Some(s[k + 1])
            } else {
                None
            },
        ),
    decreases k - i,
{
    if i < k {
        lemma_after_first_found(s, x, i + 1, k);
    }
}

/// A retry in sequence moves on: where the populated ranks of a partition
/// name no node twice and the node last tried is among them, selection
/// under `Sequence` finds a node, and finds the node last tried only when
/// it is the one populated rank.
pub proof fn lemma_sequence_moves_on(reps: Seq<Option<u64>>, last: u64)
    requires
        flatten(reps).no_duplicates(),
        flatten(reps).contains(last),
    ensures
        select_replica(reps, Replica::Sequence, Some(last), None) matches Ok(Some(n)) && (n == last
            ==> flatten(reps) == seq![last]),
{
    let s = flatten(reps);
    let k = choose|k: int| 0 <= k < s.len() && s[k] == last;
    assert forall|j: int| 0 <= j < k implies s[j] != last by {
        if s[j] == last {
            assert(s[j] == s[k]);
        }
    }
    lemma_after_first_found(s, last, 0, k);
    if k + 1 >= s.len() && s[0] == last {
        assert(k == 0);
        assert(s =~= seq![last]);
    }
}

} // verus!
