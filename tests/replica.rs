use aerospike_core::errors::ErrorKind;
use aerospike_core::partition::{PartitionForNamespace, Replica, PARTITIONS};

const A: u64 = 10;
const B: u64 = 11;
const C: u64 = 12;

fn map_with(p: usize, ranks: &[Option<u64>]) -> PartitionForNamespace {
    let mut nodes = vec![(0u32, None); ranks.len() * PARTITIONS];
    for (r, n) in ranks.iter().enumerate() {
        nodes[r * PARTITIONS + p] = (0, *n);
    }
    PartitionForNamespace { nodes, replicas: ranks.len() }
}

#[test]
fn sequence_retry() {
    let p = 7;
    let map = map_with(p, &[Some(A), Some(B), Some(C)]);
    assert_eq!(map.get_node(p, Replica::Sequence, None, None).unwrap(), A);
    assert_eq!(map.get_node(p, Replica::Sequence, Some(A), None).unwrap(), B);
    assert_eq!(map.get_node(p, Replica::Sequence, Some(B), None).unwrap(), C);
    assert_eq!(map.get_node(p, Replica::Sequence, Some(C), None).unwrap(), A);
    let map = map_with(p, &[None, Some(B), Some(C)]);
    assert_eq!(map.get_node(p, Replica::Sequence, None, None).unwrap(), B);
}

#[test]
fn sequence_never_repeats_the_node_last_tried() {
    let p = 4095;
    let map = map_with(p, &[Some(A), None, Some(C)]);
    for last in [A, C] {
        assert_ne!(map.get_node(p, Replica::Sequence, Some(last), None).unwrap(), last);
    }
    let lone = map_with(p, &[None, Some(B)]);
    assert_eq!(lone.get_node(p, Replica::Sequence, Some(B), None).unwrap(), B);
    // a node that has left the map counts as never tried
    assert_eq!(map.get_node(p, Replica::Sequence, Some(99), None).unwrap(), A);
}

#[test]
fn master_takes_rank_zero_only() {
    let p = 1;
    let map = map_with(p, &[Some(A), Some(B)]);
    assert_eq!(map.get_node(p, Replica::Master, Some(A), None).unwrap(), A);
    let map = map_with(p, &[None, Some(B)]);
    assert!(matches!(map.get_node(p, Replica::Master, None, None).unwrap_err().0, ErrorKind::InvalidNode(_)));
}

#[test]
fn prefer_rack_fallback() {
    let p = 3;
    let map = map_with(p, &[Some(A), Some(B)]);
    // A is in rack 2, B in rack 1
    let rack1 = vec![B];
    let rack3: Vec<u64> = vec![];
    assert_eq!(map.get_node(p, Replica::PreferRack, None, Some(&rack1)).unwrap(), B);
    assert_eq!(map.get_node(p, Replica::PreferRack, None, Some(&rack3)).unwrap(), A);
    assert!(matches!(
        map.get_node(p, Replica::PreferRack, None, None).unwrap_err().0,
        ErrorKind::InvalidArgument(_)
    ));
}

#[test]
fn empty_map_has_no_node() {
    let map = PartitionForNamespace::new();
    assert!(matches!(map.get_node(0, Replica::Sequence, None, None).unwrap_err().0, ErrorKind::InvalidNode(_)));
    assert!(map.all_replicas(0).is_empty());
    let map = map_with(5, &[Some(A), None]);
    assert_eq!(map.all_replicas(5), vec![Some(A), None]);
    assert_eq!(map.all_replicas(6), vec![None, None]);
}
