use aerospike_core::batch::{reassemble, shard_reads, BatchJob, MAX_BATCH_REQUEST_SIZE};

const X: u64 = 1;
const Y: u64 = 2;

#[test]
fn batch_reassembly() {
    let reads = vec!["k0", "k1", "k2", "k3"];
    let owners = vec![X, Y, X, Y];
    let jobs = shard_reads(reads, &owners);
    assert_eq!(jobs.len(), 2);
    for job in &jobs {
        for (read, idx) in job.batch_reads.iter().zip(job.original_indexes.iter()) {
            assert_eq!(*read, ["k0", "k1", "k2", "k3"][*idx]);
            assert_eq!(owners[*idx], job.node);
        }
    }
    // the jobs answer in either order, and each turns its reads into results
    let mut answered: Vec<BatchJob<String>> = jobs
        .into_iter()
        .map(|j| BatchJob {
            node: j.node,
            batch_reads: j.batch_reads.iter().map(|k| k.replace('k', "r")).collect(),
            original_indexes: j.original_indexes,
        })
        .collect();
    answered.reverse();
    let out = reassemble(answered, 4).unwrap();
    assert_eq!(out, vec!["r0", "r1", "r2", "r3"]);
}

#[test]
fn empty_batch() {
    let jobs = shard_reads(Vec::<u32>::new(), &vec![]);
    assert!(jobs.is_empty());
    let out = reassemble(jobs, 0).unwrap();
    assert!(out.is_empty());
}

#[test]
fn batch_split_at_max_size() {
    let n = MAX_BATCH_REQUEST_SIZE;
    let jobs = shard_reads((0..n).collect::<Vec<usize>>(), &vec![X; n]);
    assert_eq!(jobs.len(), 1);
    assert_eq!(jobs[0].batch_reads.len(), n);
    let jobs = shard_reads((0..n + 1).collect::<Vec<usize>>(), &vec![X; n + 1]);
    assert_eq!(jobs.len(), 2);
    assert_eq!(jobs[0].batch_reads.len(), n);
    assert_eq!(jobs[1].batch_reads.len(), 1);
    assert_eq!(jobs[1].original_indexes, vec![n]);
}

#[test]
fn reassembly_rejects_bad_indexes() {
    let dup = vec![BatchJob { node: X, batch_reads: vec![1, 2], original_indexes: vec![0, 0] }];
    assert!(reassemble(dup, 2).is_err());
    let missing = vec![BatchJob { node: X, batch_reads: vec![1], original_indexes: vec![0] }];
    assert!(reassemble(missing, 2).is_err());
    let out_of_range = vec![BatchJob { node: X, batch_reads: vec![1], original_indexes: vec![5] }];
    assert!(reassemble(out_of_range, 1).is_err());
    let ragged = vec![BatchJob { node: X, batch_reads: vec![1, 2], original_indexes: vec![0] }];
    assert!(reassemble(ragged, 1).is_err());
}

#[test]
fn indexes_ascend_within_jobs() {
    let owners: Vec<u64> = (0..12).map(|i| if i % 3 == 0 { X } else { Y }).collect();
    let jobs = shard_reads((0..12).collect::<Vec<usize>>(), &owners);
    for job in &jobs {
        assert!(job.original_indexes.windows(2).all(|w| w[0] < w[1]));
    }
    let n = MAX_BATCH_REQUEST_SIZE;
    let jobs = shard_reads((0..n).collect::<Vec<usize>>(), &vec![X; n]);
    assert_eq!(jobs[0].original_indexes, (0..n).collect::<Vec<usize>>());
}
