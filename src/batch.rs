//! Sharding a batch of reads into per-node jobs, and putting the results
//! back in the caller's order.

use std::collections::hash_map::RandomState;
use std::collections::HashMap;
use vstd::prelude::*;
use vstd::std_specs::hash::{builds_valid_hashers, obeys_key_model};

use crate::cluster::{cluster_node_for, Cluster};
use crate::command::OperateRecord;
use crate::errors::{Error, ErrorKind, Result};
use crate::key::{partition_of, Key};
use crate::partition::Replica;

verus! {

/// The most reads that one job sends to one node.
pub const MAX_BATCH_REQUEST_SIZE: usize = 5000;

/// The reads that go to one node, each with its position in the caller's
/// list.
pub struct BatchJob<T> {
    pub node: u64,
    pub batch_reads: Vec<T>,
    pub original_indexes: Vec<usize>,
}

/// Job `j` of `jobs` has between one and the maximum number of reads, each
/// paired with one index.
pub open spec fn job_sizes_ok<T>(jobs: Seq<BatchJob<T>>) -> bool {
    forall|j: int|
        0 <= j < jobs.len() ==> 1 <= (#[trigger] jobs[j]).batch_reads@.len() <= MAX_BATCH_REQUEST_SIZE
            && jobs[j].batch_reads@.len() == jobs[j].original_indexes@.len()
}

/// Each read of each job is the input read at its index, below `n`, and
/// is owned by the job's node.
pub open spec fn jobs_match_input<T>(jobs: Seq<BatchJob<T>>, input: Seq<T>, owners: Seq<u64>, n: int) -> bool {
    forall|j: int, k: int|
        0 <= j < jobs.len() && 0 <= k < jobs[j].original_indexes@.len() ==> {
            let m = #[trigger] jobs[j].original_indexes@[k] as int;
            &&& m < n
            &&& m < input.len()
            &&& m < owners.len()
            &&& owners[m] == jobs[j].node
            &&& k < jobs[j].batch_reads@.len()
            &&& jobs[j].batch_reads@[k] == input[m]
        }
}

/// The index `m` stands somewhere in the jobs.
pub open spec fn index_in_jobs<T>(jobs: Seq<BatchJob<T>>, m: int) -> bool {
    exists|j: int, k: int|
        0 <= j < jobs.len() && 0 <= k < jobs[j].original_indexes@.len() && #[trigger] jobs[j].original_indexes@[k]
            == m
}

/// Each index below `n` stands in exactly one place of the jobs.
pub open spec fn jobs_cover<T>(jobs: Seq<BatchJob<T>>, n: int) -> bool {
    &&& forall|m: int| 0 <= m < n ==> #[trigger] index_in_jobs(jobs, m)
    &&& forall|j1: int, k1: int, j2: int, k2: int|
        0 <= j1 < jobs.len() && 0 <= k1 < jobs[j1].original_indexes@.len() && 0 <= j2 < jobs.len() && 0 <= k2
            < jobs[j2].original_indexes@.len() && #[trigger] jobs[j1].original_indexes@[k1]
            == #[trigger] jobs[j2].original_indexes@[k2] ==> j1 == j2 && k1 == k2
}

/// Of the jobs of one node, all but at most one are full.
pub open spec fn jobs_packed<T>(jobs: Seq<BatchJob<T>>) -> bool {
    forall|j1: int, j2: int|
        0 <= j1 < jobs.len() && 0 <= j2 < jobs.len() && j1 != j2 && (#[trigger] jobs[j1]).node == (
        #[trigger] jobs[j2]).node ==> jobs[j1].batch_reads@.len() == MAX_BATCH_REQUEST_SIZE
            || jobs[j2].batch_reads@.len() == MAX_BATCH_REQUEST_SIZE
}

/// `jobs` is a sharding of the reads `input`, whose owners are `owners`.
pub open spec fn is_sharding<T>(jobs: Seq<BatchJob<T>>, input: Seq<T>, owners: Seq<u64>) -> bool {
    &&& job_sizes_ok(jobs)
    &&& jobs_match_input(jobs, input, owners, input.len() as int)
    &&& jobs_cover(jobs, input.len() as int)
    &&& jobs_packed(jobs)
    &&& jobs_ascending(jobs)
}

/// Within each job, the indexes ascend: reads keep their input order.
pub open spec fn jobs_ascending<T>(jobs: Seq<BatchJob<T>>) -> bool {
    forall|j: int, k1: int, k2: int|
        0 <= j < jobs.len() && 0 <= k1 < k2 < jobs[j].original_indexes@.len() ==> #[trigger] jobs[j].original_indexes@[k1]
            < #[trigger] jobs[j].original_indexes@[k2]
}

/// Groups `reads` into jobs by owning node, `owners[i]` owning `reads[i]`.
///
/// A node's reads go into jobs of at most [`MAX_BATCH_REQUEST_SIZE`]
/// reads; a new job is started for the node only when its current one is
/// full. Each read keeps its index in `reads`, and jobs keep the reads in
/// input order.
pub fn shard_reads<T>(reads: Vec<T>, owners: &Vec<u64>) -> (r: Vec<BatchJob<T>>)
    requires
        reads@.len() == owners@.len(),
    ensures
        is_sharding(r@, reads@, owners@),
        reads@.len() == 0 ==> r@.len() == 0,
{
    let ghost input = reads@;
    let n = reads.len();
    let mut reads = reads;
    let mut rev: Vec<T> = Vec::new();
    while reads.len() > 0
        invariant
            reads@.len() + rev@.len() == n,
            n == input.len(),
            forall|k: int| 0 <= k < reads@.len() ==> reads@[k] == input[k],
            forall|k: int| 0 <= k < rev@.len() ==> rev@[k] == input[n - 1 - k],
        decreases reads@.len(),
    {
        let x = reads.pop().unwrap();
        rev.push(x);
    }
    let mut jobs: Vec<BatchJob<T>> = Vec::new();
    // the job that each node's next read goes to
    let mut open: HashMap<u64, usize> = HashMap::new();
    let ghost mut loc: Seq<(int, int)> = Seq::empty();
    proof {
        broadcast use vstd::std_specs::hash::group_hash_axioms;
        assert(obeys_key_model::<u64>());
        assert(builds_valid_hashers::<RandomState>());
    }
    let mut i: usize = 0;
    while i < n
        invariant
            obeys_key_model::<u64>(),
            builds_valid_hashers::<RandomState>(),
            n == input.len(),
            n == owners@.len(),
            i <= n,
            jobs@.len() <= i,
            rev@.len() == n - i,
            forall|k: int| 0 <= k < rev@.len() ==> rev@[k] == input[n - 1 - k],
            job_sizes_ok(jobs@),
            jobs_match_input(jobs@, input, owners@, i as int),
            jobs_ascending(jobs@),
            loc.len() == i,
            forall|m: int|
                0 <= m < i ==> {
                    let (j, k) = #[trigger] loc[m];
                    0 <= j < jobs@.len() && 0 <= k < jobs@[j].original_indexes@.len()
                        && jobs@[j].original_indexes@[k] == m
                },
            forall|j: int, k: int|
                0 <= j < jobs@.len() && 0 <= k < jobs@[j].original_indexes@.len() ==> loc[#[trigger] jobs@[j].original_indexes@[k] as int]
                    == (j, k),
            forall|x: u64| #[trigger] open@.contains_key(x) ==> open@[x] < jobs@.len() && jobs@[open@[x] as int].node == x,
            forall|j: int|
                0 <= j < jobs@.len() && (#[trigger] jobs@[j]).batch_reads@.len() < MAX_BATCH_REQUEST_SIZE ==> open@.contains_key(
                    jobs@[j].node,
                ) && open@[jobs@[j].node] == j,
        decreases n - i,
    {
        let x = rev.pop().unwrap();
        let node = owners[i];
        let ghost old_open = open@;
        let ghost old_jobs = jobs@;
        let current = match open.get(&node) {
            Some(j) => Some(*j),
            None => None,
        };
        match current {
            Some(j) if jobs[j].batch_reads.len() < MAX_BATCH_REQUEST_SIZE => {
                let ghost k = jobs@[j as int].original_indexes@.len();
                jobs[j].batch_reads.push(x);
                jobs[j].original_indexes.push(i);
                proof {
                    loc = loc.push((j as int, k as int));
                    assert forall|jj: int|
                        0 <= jj < jobs@.len() && (#[trigger] jobs@[jj]).batch_reads@.len() < MAX_BATCH_REQUEST_SIZE implies open@.contains_key(
                            jobs@[jj].node,
                        ) && open@[jobs@[jj].node] == jj by {
                        if jj != j {
                            assert(old_jobs[jj] == jobs@[jj]);
                        }
                    }
                }
            },
            _ => {
                let mut br: Vec<T> = Vec::new();
                br.push(x);
                let mut oi: Vec<usize> = Vec::new();
                oi.push(i);
                jobs.push(BatchJob { node, batch_reads: br, original_indexes: oi });
                open.insert(node, jobs.len() - 1);
                proof {
                    loc = loc.push(((jobs@.len() - 1) as int, 0int));
                    assert forall|jj: int|
                        0 <= jj < jobs@.len() && (#[trigger] jobs@[jj]).batch_reads@.len() < MAX_BATCH_REQUEST_SIZE implies open@.contains_key(
                            jobs@[jj].node,
                        ) && open@[jobs@[jj].node] == jj by {
                        if jj < old_jobs.len() {
                            assert(old_jobs[jj] == jobs@[jj]);
                            if jobs@[jj].node == node {
                                assert(old_open.contains_key(node) && old_open[node] == jj);
                            }
                        }
                    }
                    assert forall|y: u64| #[trigger] open@.contains_key(y) implies open@[y] < jobs@.len() && jobs@[open@[y] as int].node == y by {
                        if y != node {
                            assert(old_jobs[old_open[y] as int] == jobs@[old_open[y] as int]);
                        }
                    }
                }
            },
        }
        i = i + 1;
    }
    proof {
        assert forall|m: int| 0 <= m < n implies #[trigger] index_in_jobs(jobs@, m) by {
            let (j, k) = loc[m];
            assert(jobs@[j].original_indexes@[k] == m);
        }
        assert forall|j1: int, j2: int|
            0 <= j1 < jobs@.len() && 0 <= j2 < jobs@.len() && j1 != j2 && (#[trigger] jobs@[j1]).node == (
            #[trigger] jobs@[j2]).node implies jobs@[j1].batch_reads@.len() == MAX_BATCH_REQUEST_SIZE
            || jobs@[j2].batch_reads@.len() == MAX_BATCH_REQUEST_SIZE by {
            if jobs@[j1].batch_reads@.len() < MAX_BATCH_REQUEST_SIZE && jobs@[j2].batch_reads@.len() < MAX_BATCH_REQUEST_SIZE {
                assert(open@[jobs@[j1].node] == j1);
            }
        }
    }
    jobs
}

/// Each job pairs every read with one index, every index is below
/// `total`, and each index below `total` stands in exactly one place.
pub open spec fn is_placement<T>(jobs: Seq<BatchJob<T>>, total: int) -> bool {
    &&& forall|j: int| 0 <= j < jobs.len() ==> (#[trigger] jobs[j]).batch_reads@.len() == jobs[j].original_indexes@.len()
    &&& forall|j: int, k: int|
        0 <= j < jobs.len() && 0 <= k < jobs[j].original_indexes@.len() ==> #[trigger] jobs[j].original_indexes@[k] < total
    &&& jobs_cover(jobs, total)
}

/// `r` holds each read of each job at the read's index.
pub open spec fn placed<T>(r: Seq<T>, jobs: Seq<BatchJob<T>>) -> bool {
    forall|j: int, k: int|
        0 <= j < jobs.len() && 0 <= k < jobs[j].original_indexes@.len() ==> r[#[trigger] jobs[j].original_indexes@[k] as int]
            == jobs[j].batch_reads@[k]
}

spec fn done(j: int, k: int, cur: int, left: int) -> bool {
    j > cur || (j == cur && k >= left)
}

fn bad_indexes() -> (r: Error)
    ensures
        r.0 is BadResponse,
{
    Error::from_kind(ErrorKind::BadResponse("Batch indexes do not match the request".to_owned()))
}

/// Puts the reads of all jobs back in the caller's order: the read paired
/// with index `i` lands at position `i` of a list of `total` reads.
///
/// Fails where the indexes do not place exactly one read at each position.
#[verifier::loop_isolation(false)]
pub fn reassemble<T>(finished: Vec<BatchJob<T>>, total: usize) -> (r: Result<Vec<T>>)
    ensures
        r is Ok <==> is_placement(finished@, total as int),
        r matches Ok(v) ==> v@.len() == total && placed(v@, finished@),
{
    let ghost jobs0 = finished@;
    let mut jobs = finished;
    let mut slots: Vec<Option<T>> = Vec::new();
    while slots.len() < total
        invariant
            slots@.len() <= total,
            forall|m: int| 0 <= m < slots@.len() ==> slots@[m] is None,
        decreases total - slots@.len(),
    {
        slots.push(None);
    }
    while jobs.len() > 0
        invariant
            jobs@.len() <= jobs0.len(),
            forall|j: int| 0 <= j < jobs@.len() ==> jobs@[j] == jobs0[j],
            slots@.len() == total,
            forall|j: int| jobs@.len() <= j < jobs0.len() ==> (#[trigger] jobs0[j]).batch_reads@.len()
                == jobs0[j].original_indexes@.len(),
            forall|j: int, k: int|
                jobs@.len() <= j < jobs0.len() && 0 <= k < jobs0[j].original_indexes@.len() ==> {
                    let m = #[trigger] jobs0[j].original_indexes@[k] as int;
                    m < total && slots@[m] == Some(jobs0[j].batch_reads@[k])
                },
            forall|m: int|
                0 <= m < total && (#[trigger] slots@[m]) is Some ==> exists|j: int, k: int|
                    jobs@.len() <= j < jobs0.len() && 0 <= k < jobs0[j].original_indexes@.len()
                        && #[trigger] jobs0[j].original_indexes@[k] == m,
            forall|j1: int, k1: int, j2: int, k2: int|
                jobs@.len() <= j1 < jobs0.len() && 0 <= k1 < jobs0[j1].original_indexes@.len() && jobs@.len() <= j2 < jobs0.len()
                    && 0 <= k2 < jobs0[j2].original_indexes@.len() && #[trigger] jobs0[j1].original_indexes@[k1]
                    == #[trigger] jobs0[j2].original_indexes@[k2] ==> j1 == j2 && k1 == k2,
        decreases jobs@.len(),
    {
        let job = jobs.pop().unwrap();
        let ghost cur = jobs@.len() as int;
        assert(job == jobs0[cur]);
        let BatchJob { node: _, batch_reads, original_indexes } = job;
        let mut br = batch_reads;
        let mut oi = original_indexes;
        if br.len() != oi.len() {
            proof {
                assert(jobs0[cur].batch_reads@.len() != jobs0[cur].original_indexes@.len());
                assert(!is_placement(jobs0, total as int));
            }
            return Err(bad_indexes());
        }
        while br.len() > 0
            invariant
                0 <= cur < jobs0.len(),
                jobs@.len() == cur,
                forall|j: int| 0 <= j < jobs@.len() ==> jobs@[j] == jobs0[j],
                br@.len() == oi@.len(),
                br@.len() <= jobs0[cur].batch_reads@.len(),
                jobs0[cur].batch_reads@.len() == jobs0[cur].original_indexes@.len(),
                forall|k: int| 0 <= k < br@.len() ==> br@[k] == jobs0[cur].batch_reads@[k],
                forall|k: int| 0 <= k < oi@.len() ==> oi@[k] == jobs0[cur].original_indexes@[k],
                slots@.len() == total,
                forall|j: int| cur < j < jobs0.len() ==> (#[trigger] jobs0[j]).batch_reads@.len()
                    == jobs0[j].original_indexes@.len(),
                forall|j: int, k: int|
                    0 <= j < jobs0.len() && 0 <= k < jobs0[j].original_indexes@.len() && done(j, k, cur, br@.len() as int) ==> {
                        let m = #[trigger] jobs0[j].original_indexes@[k] as int;
                        m < total && slots@[m] == Some(jobs0[j].batch_reads@[k])
                    },
                forall|m: int|
                    0 <= m < total && (#[trigger] slots@[m]) is Some ==> exists|j: int, k: int|
                        0 <= j < jobs0.len() && 0 <= k < jobs0[j].original_indexes@.len() && done(j, k, cur, br@.len() as int)
                            && #[trigger] jobs0[j].original_indexes@[k] == m,
                forall|j1: int, k1: int, j2: int, k2: int|
                    0 <= j1 < jobs0.len() && 0 <= k1 < jobs0[j1].original_indexes@.len() && done(j1, k1, cur, br@.len() as int)
                        && 0 <= j2 < jobs0.len() && 0 <= k2 < jobs0[j2].original_indexes@.len() && done(j2, k2, cur, br@.len() as int)
                        && #[trigger] jobs0[j1].original_indexes@[k1] == #[trigger] jobs0[j2].original_indexes@[k2] ==> j1 == j2
                        && k1 == k2,
            decreases br@.len(),
        {
            let x = br.pop().unwrap();
            let m = oi.pop().unwrap();
            let ghost k = br@.len() as int;
            if m >= total {
                proof {
                    assert(jobs0[cur].original_indexes@[k] >= total);
                    assert(!is_placement(jobs0, total as int));
                }
                return Err(bad_indexes());
            }
            if slots[m].is_some() {
                proof {
                    let (j2, k2) = choose|j2: int, k2: int|
                        0 <= j2 < jobs0.len() && 0 <= k2 < jobs0[j2].original_indexes@.len() && done(j2, k2, cur, k + 1)
                            && #[trigger] jobs0[j2].original_indexes@[k2] == m as int;
                    assert(jobs0[cur].original_indexes@[k] == m);
                    assert(!jobs_cover(jobs0, total as int));
                    assert(!is_placement(jobs0, total as int));
                }
                return Err(bad_indexes());
            }
            slots.set(m, Some(x));
        }
    }
    let mut r: Vec<T> = Vec::new();
    let mut slots = slots;
    let ghost full = slots@;
    let mut rev: Vec<T> = Vec::new();
    while slots.len() > 0
        invariant
            slots@.len() + rev@.len() == total,
            full.len() == total,
            forall|j: int, k: int|
                0 <= j < jobs0.len() && 0 <= k < jobs0[j].original_indexes@.len() ==> {
                    let m = #[trigger] jobs0[j].original_indexes@[k] as int;
                    m < total && full[m] == Some(jobs0[j].batch_reads@[k])
                },
            forall|m: int| 0 <= m < slots@.len() ==> slots@[m] == full[m],
            forall|k: int| 0 <= k < rev@.len() ==> Some(rev@[k]) == full[total - 1 - k],
        decreases slots@.len(),
    {
        match slots.pop().unwrap() {
            Some(x) => rev.push(x),
            None => {
                proof {
                    let m = slots@.len() as int;
                    assert(full[m] is None);
                    if index_in_jobs(jobs0, m) {
                        let (j, k) = choose|j: int, k: int|
                            0 <= j < jobs0.len() && 0 <= k < jobs0[j].original_indexes@.len()
                                && #[trigger] jobs0[j].original_indexes@[k] == m;
                        assert(jobs0[j].original_indexes@[k] == m);
                    }
                    assert(!is_placement(jobs0, total as int));
                }
                return Err(bad_indexes());
            },
        }
    }
    while rev.len() > 0
        invariant
            r@.len() + rev@.len() == total,
            full.len() == total,
            forall|k: int| 0 <= k < rev@.len() ==> Some(rev@[k]) == full[total - 1 - k],
            forall|m: int| 0 <= m < r@.len() ==> Some(r@[m]) == full[m],
        decreases rev@.len(),
    {
        let x = rev.pop().unwrap();
        r.push(x);
    }
    proof {
        assert forall|m: int| 0 <= m < total implies #[trigger] index_in_jobs(jobs0, m) by {
            assert(full[m] == Some(r@[m]));
        }
        assert forall|j: int, k: int|
            0 <= j < jobs0.len() && 0 <= k < jobs0[j].original_indexes@.len() implies r@[
            #[trigger] jobs0[j].original_indexes@[k] as int] == jobs0[j].batch_reads@[k] by {
            let m = jobs0[j].original_indexes@[k] as int;
            assert(full[m] == Some(r@[m]));
        }
    }
    Ok(r)
}

/// Reassembly restores the caller's order: putting back the reads of any
/// sharding of `input` (each read placed at its index) gives `input`
/// again, so the read at position `i` is the caller's read `i`.
pub proof fn lemma_reassembly_restores_order<T>(
    jobs: Seq<BatchJob<T>>,
    input: Seq<T>,
    owners: Seq<u64>,
    r: Seq<T>,
)
    requires
        is_sharding(jobs, input, owners),
        r.len() == input.len(),
        placed(r, jobs),
    ensures
        r == input,
{
    assert forall|m: int| 0 <= m < input.len() implies r[m] == input[m] by {
        assert(index_in_jobs(jobs, m));
        let (j, k) = choose|j: int, k: int|
            0 <= j < jobs.len() && 0 <= k < jobs[j].original_indexes@.len() && #[trigger] jobs[j].original_indexes@[k]
                == m;
        assert(jobs[j].original_indexes@[k] == m);
    }
    assert(r =~= input);
}

/// A sharding is a placement: what `shard_reads` produces, `reassemble`
/// accepts.
pub proof fn lemma_sharding_is_placement<T>(jobs: Seq<BatchJob<T>>, input: Seq<T>, owners: Seq<u64>)
    requires
        is_sharding(jobs, input, owners),
    ensures
        is_placement(jobs, input.len() as int),
{
    assert forall|j: int, k: int|
        0 <= j < jobs.len() && 0 <= k < jobs[j].original_indexes@.len() implies #[trigger] jobs[j].original_indexes@[k]
        < input.len() by {
        assert(jobs_match_input(jobs, input, owners, input.len() as int));
    }
}

/// One read of a batch: the key, the bins to read (all where `None`), and
/// the record once read.
#[derive(Debug)]
pub struct BatchRead {
    pub key: Key,
    pub bins: Option<Vec<String>>,
    pub record: Option<OperateRecord>,
}

/// The owner of each read's key under `replica`, where every key has one.
pub open spec fn owners_ok(c: Cluster, reads: Seq<BatchRead>, owners: Seq<u64>, replica: Replica) -> bool {
    &&& owners.len() == reads.len()
    &&& forall|i: int|
        0 <= i < reads.len() ==> cluster_node_for(c, (#[trigger] reads[i]).key.namespace@, partition_of(reads[i].key.digest@), replica, None)
            == Some(owners[i])
}

/// Runs batches of reads against a cluster.
pub struct BatchExecutor {
    pub cluster: Cluster,
}

impl BatchExecutor {
    /// An executor for `cluster`.
    pub fn new(cluster: Cluster) -> (r: BatchExecutor)
        ensures
            r.cluster == cluster,
    {
        BatchExecutor { cluster }
    }

    /// The node that owns `key` under `replica`.
    pub fn node_for_key(&self, key: &Key, replica: Replica) -> (r: Result<u64>)
        ensures
            match cluster_node_for(self.cluster, key.namespace@, partition_of(key.digest@), replica, None) {
                Some(n) => r == Ok::<u64, Error>(n),
                None => r is Err,
            },
    {
        self.cluster.get_node(key.namespace.as_str(), key.partition_id(), replica, None)
    }

    /// Groups `batch_reads` into per-node jobs, each of at most
    /// [`MAX_BATCH_REQUEST_SIZE`] reads. Fails where some key has no node.
    pub fn get_batch_nodes(&self, replica: Replica, batch_reads: Vec<BatchRead>) -> (r: Result<Vec<BatchJob<BatchRead>>>)
        ensures
            r is Ok <==> forall|i: int|
                0 <= i < batch_reads@.len() ==> cluster_node_for(
                    self.cluster,
                    (#[trigger] batch_reads@[i]).key.namespace@,
                    partition_of(batch_reads@[i].key.digest@),
                    replica,
                    None,
                ) is Some,
            r matches Ok(jobs) ==> exists|owners: Seq<u64>|
                #[trigger] owners_ok(self.cluster, batch_reads@, owners, replica) && is_sharding(jobs@, batch_reads@, owners),
            batch_reads@.len() == 0 ==> (r matches Ok(jobs) && jobs@.len() == 0),
    {
        let mut owners: Vec<u64> = Vec::new();
        let mut i: usize = 0;
        while i < batch_reads.len()
            invariant
                i <= batch_reads@.len(),
                owners@.len() == i,
                forall|j: int|
                    0 <= j < i ==> cluster_node_for(
                        self.cluster,
                        (#[trigger] batch_reads@[j]).key.namespace@,
                        partition_of(batch_reads@[j].key.digest@),
                        replica,
                        None,
                    ) == Some(owners@[j]),
            decreases batch_reads@.len() - i,
        {
            match self.node_for_key(&batch_reads[i].key, replica) {
                Ok(n) => owners.push(n),
                Err(e) => {
                    return Err(e);
                },
            }
            i = i + 1;
        }
        let ghost input = batch_reads@;
        let jobs = shard_reads(batch_reads, &owners);
        proof {
            assert(owners_ok(self.cluster, input, owners@, replica));
            assert(is_sharding(jobs@, input, owners@));
            assert(owners_ok(self.cluster, input, owners@, replica) && is_sharding(jobs@, input, owners@));
        }
        Ok(jobs)
    }
}

} // verus!
