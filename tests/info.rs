use aerospike_core::cluster::{Cluster, NodeValidator};
use aerospike_core::errors::ErrorKind;
use aerospike_core::info::{parse_decimal, split_bytes};
use aerospike_core::node::{ClientPolicy, Host, Node};
use aerospike_core::partition::{Replica, PARTITIONS};

fn cluster_with(names: &[&str]) -> Cluster {
    let policy = ClientPolicy {
        rack_ids: None,
        fail_if_not_connected: false,
        cluster_name: None,
        timeout_ms: None,
        tend_interval_ms: 1000,
    };
    let mut c = Cluster::new(policy, &vec![]);
    c.seed_nodes(
        names
            .iter()
            .map(|n| NodeValidator { name: n.to_string(), aliases: vec![Host::new(n.to_lowercase(), 3000)] })
            .collect(),
    );
    c
}

fn bitmap(parts: &[usize]) -> String {
    let mut b = vec![0u8; PARTITIONS / 8];
    for p in parts {
        b[p / 8] |= 0x80 >> (p % 8);
    }
    base64::encode(b)
}

#[test]
fn splitting_and_numbers() {
    assert_eq!(split_bytes(b"a;b;;c", b';'), vec![b"a".to_vec(), b"b".to_vec(), vec![], b"c".to_vec()]);
    assert_eq!(split_bytes(b"", b';'), vec![Vec::<u8>::new()]);
    assert_eq!(parse_decimal(b"42").unwrap(), 42);
    assert_eq!(parse_decimal(b"-7").unwrap(), -7);
    assert_eq!(parse_decimal(b"9223372036854775807").unwrap(), i64::MAX);
    assert_eq!(parse_decimal(b"-9223372036854775808").unwrap(), i64::MIN);
    assert!(matches!(parse_decimal(b"9223372036854775808").unwrap_err().0, ErrorKind::ParseInt));
    assert!(parse_decimal(b"99999999999999999999999").is_err());
    assert!(parse_decimal(b"").is_err());
    assert!(parse_decimal(b"-").is_err());
    assert!(parse_decimal(b"4x").is_err());
}

#[test]
fn racks_are_parsed() {
    let mut n = Node::new(1, "A".to_string());
    n.parse_rack("test:1;bar:22;").unwrap();
    assert_eq!(n.racks, vec![("test".to_string(), 1), ("bar".to_string(), 22)]);
    assert!(n.is_in_rack("bar", &vec![5, 22]));
    assert!(!n.is_in_rack("test", &vec![22]));
    assert!(n.parse_rack("test-1").is_err());
    assert!(n.parse_rack("test:x").is_err());
    assert_eq!(n.racks.len(), 2);
}

#[test]
fn replicas_bitmaps_fill_the_partition_map() {
    let mut c = cluster_with(&["A", "B"]);
    let a = c.get_node_by_name("A").unwrap();
    let b = c.get_node_by_name("B").unwrap();
    let info_a = format!("test,2,{},{}", bitmap(&[0, 9, 4095]), bitmap(&[1]));
    c.update_partitions(a, &info_a).unwrap();
    let info_b = format!("test,2,{},{};other,1,{}", bitmap(&[1]), bitmap(&[0, 9]), bitmap(&[3]));
    c.update_partitions(b, &info_b).unwrap();
    assert_eq!(c.get_node("test", 0, Replica::Master, None).unwrap(), a);
    assert_eq!(c.get_node("test", 1, Replica::Master, None).unwrap(), b);
    assert_eq!(c.get_node("test", 9, Replica::Sequence, Some(a)).unwrap(), b);
    assert_eq!(c.get_node("test", 4095, Replica::Master, None).unwrap(), a);
    assert_eq!(c.get_node("other", 3, Replica::Master, None).unwrap(), b);
    assert!(c.get_node("test", 2, Replica::Master, None).is_err());
    assert_eq!(c.node_partitions(a, "test"), vec![0, 9, 4095]);
    assert!(c.find_node_in_partition_map(b));
}

#[test]
fn unreadable_replicas_change_nothing() {
    let mut c = cluster_with(&["A"]);
    let a = c.get_node_by_name("A").unwrap();
    assert!(matches!(c.update_partitions(a, "test,1,@@@@").unwrap_err().0, ErrorKind::Base64));
    assert!(c.update_partitions(a, "test,2,AAAA").is_err());
    assert!(c.update_partitions(a, "test,1,AAAA").is_err());
    let ok = format!("test,1,{};broken", bitmap(&[0]));
    assert!(c.update_partitions(a, &ok).is_err());
    assert!(c.partition_write_map.is_empty());
}

#[test]
fn rack_ids_update_a_live_node() {
    let mut c = cluster_with(&["A"]);
    let a = c.get_node_by_name("A").unwrap();
    c.update_rack_ids(a, "test:4", Some(12)).unwrap();
    assert_eq!(c.nodes()[0].racks, vec![("test".to_string(), 4)]);
    assert_eq!(c.nodes()[0].rebalance_generation, 12);
    assert!(c.update_rack_ids(a, "test", Some(13)).is_err());
    assert_eq!(c.nodes()[0].rebalance_generation, 12);
    assert!(matches!(c.update_rack_ids(77, "test:1", None).unwrap_err().0, ErrorKind::InvalidNode(_)));
}

#[test]
fn info_request_layout() {
    let req = aerospike_core::info::info_request(&vec!["node".to_string(), "services".to_string()]).unwrap();
    assert_eq!(&req[..2], &[2, 1]);
    assert_eq!(&req[2..8], &[0, 0, 0, 0, 0, 14]);
    assert_eq!(&req[8..], b"node\nservices\n");
    let empty = aerospike_core::info::info_request(&vec![]).unwrap();
    assert_eq!(empty, vec![2, 1, 0, 0, 0, 0, 0, 0]);
}

#[test]
fn partition_updates_keep_namespace_positions() {
    let mut c = cluster_with(&["A", "B"]);
    let a = c.get_node_by_name("A").unwrap();
    let b = c.get_node_by_name("B").unwrap();
    c.update_partitions(a, &format!("one,1,{};two,1,{}", bitmap(&[0]), bitmap(&[1]))).unwrap();
    c.update_partitions(b, &format!("two,1,{};one,1,{}", bitmap(&[2]), bitmap(&[0]))).unwrap();
    assert_eq!(c.partition_write_map[0].0, "one");
    assert_eq!(c.partition_write_map[1].0, "two");
    assert_eq!(c.partition_write_map.len(), 2);
    assert_eq!(c.get_node("one", 0, Replica::Master, None).unwrap(), b);
    assert_eq!(c.get_node("two", 1, Replica::Master, None).unwrap(), a);
    assert_eq!(c.get_node("two", 2, Replica::Master, None).unwrap(), b);
}
