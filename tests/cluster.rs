use aerospike_core::cluster::{Cluster, NodeValidator};
use aerospike_core::errors::ErrorKind;
use aerospike_core::node::{ClientPolicy, Host};
use aerospike_core::partition::{PartitionForNamespace, Replica, PARTITIONS};

fn policy(rack_ids: Option<Vec<i64>>) -> ClientPolicy {
    ClientPolicy {
        rack_ids,
        fail_if_not_connected: true,
        cluster_name: None,
        timeout_ms: None,
        tend_interval_ms: 1000,
    }
}

fn host(name: &str) -> Host {
    Host::new(name.to_string(), 3000)
}

fn nv(name: &str, aliases: &[&str]) -> NodeValidator {
    NodeValidator { name: name.to_string(), aliases: aliases.iter().map(|a| host(a)).collect() }
}

fn check_invariants(c: &Cluster) {
    for n in c.nodes() {
        for h in c.aliases_of(n.id) {
            assert_eq!(c.alias_target(&h), Some(n.id));
        }
    }
    for (_, map) in &c.partition_write_map {
        for (_, slot) in &map.nodes {
            if let Some(id) = slot {
                assert!(c.nodes().iter().any(|n| n.id == *id));
            }
        }
    }
    for (i, a) in c.nodes().iter().enumerate() {
        for b in &c.nodes()[i + 1..] {
            assert_ne!(a.name, b.name);
        }
    }
}

#[test]
fn singleton_eviction() {
    let mut c = Cluster::new(policy(None), &vec![host("seed")]);
    assert!(c.seed_nodes(vec![nv("A", &["seed"])]));
    let a = c.get_node_by_name("A").unwrap();
    for _ in 0..4 {
        c.apply_refresh(a, None);
        assert_eq!(c.find_nodes_to_remove(0).reseed_candidate, None);
    }
    c.apply_refresh(a, None);
    let plan = c.find_nodes_to_remove(0);
    assert_eq!(plan.reseed_candidate, Some(a));
    // reseeding finds the same server again: it stays
    assert!(c.remove_after_reseed(plan, vec![nv("A", &["seed"])]).is_empty());
    assert_eq!(c.nodes().len(), 1);
    assert_eq!(c.nodes()[0].id, a);
    // reseeding finds another server: the old node goes, the new one stays
    let plan = c.find_nodes_to_remove(0);
    assert_eq!(c.remove_after_reseed(plan, vec![nv("B", &["seed2"])]), vec![a]);
    assert_eq!(c.nodes().len(), 1);
    assert_eq!(c.nodes()[0].name, "B");
    assert!(c.get_node_by_name("A").is_err());
    assert_eq!(c.alias_exists(&host("seed")).unwrap(), false);
    check_invariants(&c);
}

#[test]
fn random_node_on_empty_cluster_fails() {
    let mut c = Cluster::new(policy(None), &vec![]);
    assert!(matches!(c.get_random_node().unwrap_err().0, ErrorKind::Connection(_)));
    assert!(!c.is_connected());
}

#[test]
fn random_node_goes_round() {
    let mut c = Cluster::new(policy(None), &vec![]);
    c.seed_nodes(vec![nv("A", &["a"]), nv("B", &["b"]), nv("C", &["c"])]);
    let first = c.get_random_node().unwrap();
    let second = c.get_random_node().unwrap();
    let third = c.get_random_node().unwrap();
    assert_ne!(first, second);
    assert_ne!(second, third);
    assert_ne!(first, third);
    c.nodes[1].active = false;
    for _ in 0..6 {
        assert_ne!(c.get_random_node().unwrap(), c.nodes()[1].id);
    }
}

#[test]
fn friends_become_aliases_or_nodes() {
    let mut c = Cluster::new(policy(None), &vec![host("a")]);
    c.seed_nodes(vec![nv("A", &["a"])]);
    let added = c.find_new_nodes_to_add(vec![
        (host("a2"), nv("A", &["a2"])),
        (host("b"), nv("B", &["b"])),
        (host("b2"), nv("B", &["b2"])),
        (host("c"), nv("C", &["c"])),
    ]);
    assert_eq!(added, 2);
    assert_eq!(c.alias_target(&host("c")), Some(c.get_node_by_name("C").unwrap()));
    assert_eq!(c.nodes().len(), 3);
    let a = c.get_node_by_name("A").unwrap();
    let b = c.get_node_by_name("B").unwrap();
    assert_eq!(c.alias_target(&host("a2")), Some(a));
    assert_eq!(c.alias_target(&host("b2")), Some(b));
    assert_eq!(c.aliases_of(a).len(), 2);
    check_invariants(&c);
}

#[test]
fn eviction_rules_by_cluster_size() {
    let mut c = Cluster::new(policy(None), &vec![]);
    c.seed_nodes(vec![nv("A", &["a"]), nv("B", &["b"])]);
    let b = c.get_node_by_name("B").unwrap();
    c.apply_refresh(b, None);
    assert_eq!(c.find_nodes_to_remove(1).remove, vec![b]);
    assert!(c.find_nodes_to_remove(2).remove.is_empty());
    c.seed_nodes(vec![nv("C", &["c"])]);
    let a = c.get_node_by_name("A").unwrap();
    // three nodes: a healthy node that owns no partition goes too
    let mut ids = c.find_nodes_to_remove(2).remove;
    ids.sort();
    assert_eq!(ids.len(), 3);
    let mut map = PartitionForNamespace::new();
    map.replicas = 1;
    map.nodes = vec![(0, None); PARTITIONS];
    map.nodes[0] = (0, Some(a));
    c.partition_write_map.push(("test".to_string(), map));
    assert!(!c.find_nodes_to_remove(2).remove.contains(&a));
    assert!(c.find_nodes_to_remove(1).remove.is_empty());
    c.nodes[0].reference_count = 1;
    c.nodes[2].reference_count = 1;
    assert_eq!(c.find_nodes_to_remove(2).remove, vec![b]);
    c.nodes[0].active = false;
    assert!(c.find_nodes_to_remove(0).remove.contains(&a));
}

#[test]
fn removal_clears_partition_slots() {
    let mut c = Cluster::new(policy(None), &vec![]);
    c.seed_nodes(vec![nv("A", &["a"]), nv("B", &["b"])]);
    let a = c.get_node_by_name("A").unwrap();
    let b = c.get_node_by_name("B").unwrap();
    let mut map = PartitionForNamespace::new();
    map.replicas = 1;
    map.nodes = vec![(0, Some(a)); PARTITIONS];
    map.nodes[9] = (0, Some(b));
    c.partition_write_map.push(("test".to_string(), map));
    assert_eq!(c.node_partitions(b, "test"), vec![9]);
    assert_eq!(c.node_partitions(a, "test").len(), PARTITIONS - 1);
    assert!(c.node_partitions(a, "other").is_empty());
    c.remove_nodes_and_aliases(&vec![a]);
    assert!(c.node_partitions(a, "test").is_empty());
    assert_eq!(c.get_node("test", 9, Replica::Sequence, None).unwrap(), b);
    assert!(c.get_node("test", 10, Replica::Sequence, None).is_err());
    assert!(matches!(
        c.get_node("nope", 9, Replica::Sequence, None).unwrap_err().0,
        ErrorKind::InvalidNode(_)
    ));
    check_invariants(&c);
}

#[test]
fn prefer_rack_through_the_cluster() {
    let mut c = Cluster::new(policy(Some(vec![1])), &vec![]);
    c.seed_nodes(vec![nv("A", &["a"]), nv("B", &["b"])]);
    let a = c.get_node_by_name("A").unwrap();
    let b = c.get_node_by_name("B").unwrap();
    c.nodes[0].racks = vec![("test".to_string(), 2)];
    c.nodes[1].racks = vec![("test".to_string(), 1)];
    let mut map = PartitionForNamespace::new();
    map.replicas = 2;
    map.nodes = vec![(0, None); 2 * PARTITIONS];
    map.nodes[5] = (0, Some(a));
    map.nodes[PARTITIONS + 5] = (0, Some(b));
    c.partition_write_map.push(("test".to_string(), map));
    assert_eq!(c.get_node("test", 5, Replica::PreferRack, None).unwrap(), b);
    c.client_policy.rack_ids = Some(vec![3]);
    assert_eq!(c.get_node("test", 5, Replica::PreferRack, None).unwrap(), a);
    c.client_policy.rack_ids = None;
    assert!(matches!(
        c.get_node("test", 5, Replica::PreferRack, None).unwrap_err().0,
        ErrorKind::InvalidArgument(_)
    ));
}

#[test]
fn seeds_and_closing() {
    let mut c = Cluster::new(policy(None), &vec![host("a")]);
    c.add_seeds(&vec![host("b"), host("c")]).unwrap();
    assert_eq!(c.seeds.len(), 3);
    assert_eq!(c.seeds[2].name, "c");
    c.seed_nodes(vec![nv("A", &["a"])]);
    assert!(c.is_connected());
    c.close().unwrap();
    c.close().unwrap();
    assert!(!c.is_connected());
}

#[test]
fn refresh_targets_skip_inactive_nodes() {
    let mut c = Cluster::new(policy(None), &vec![]);
    c.seed_nodes(vec![nv("A", &["a", "a2"]), nv("B", &["b"])]);
    let a = c.get_node_by_name("A").unwrap();
    let t = c.refresh_targets();
    assert_eq!(t.len(), 2);
    assert_eq!(t[0].0, a);
    assert_eq!(t[0].1.name, "a");
    c.nodes[0].active = false;
    let t = c.refresh_targets();
    assert_eq!(t.len(), 1);
    assert_eq!(t[0].1.name, "b");
    let unknown = c.unknown_friends(&vec![host("a2"), host("z")]);
    assert_eq!(unknown.len(), 1);
    assert_eq!(unknown[0].name, "z");
}
