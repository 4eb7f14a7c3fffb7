use sled_topo_advisor::advisor::{
    cpulist_to_range_str, recommend, recommend_all, LOCAL_DISTANCE, UNREACHABLE_DISTANCE,
};
use sled_topo_advisor::fixtures::{
    cpu_range, slit_row, topo_accel_no_affinity, topo_dual_node_gpu_remote,
    topo_quad_node_two_gpu, topo_single_socket,
};
use sled_topo_advisor::text::{chars_of, push_decimal, trimmed};
use sled_topo_advisor::topology::{
    accel_from_sysfs, is_accelerator_class, node_id_from_dir_name, numa_affinity_from_sysfs,
    numa_node_from_sysfs, parse_cpulist, parse_distance_row, AccelDevice, NumaNode, Topology,
};
use std::collections::BTreeMap;

fn node(id: u32, cpus: Vec<u32>, row: &[(u32, u32)]) -> NumaNode {
    let mut distance = BTreeMap::new();
    for &(k, d) in row {
        distance.insert(k, d);
    }
    NumaNode { id, cpus, distance }
}

fn device(bdf: &str, numa_node: Option<u32>) -> AccelDevice {
    AccelDevice {
        bdf: bdf.into(),
        class: "0x030200".into(),
        numa_node,
        vendor: "0x10de".into(),
        device: "0x2331".into(),
    }
}

fn topo(nodes: Vec<NumaNode>, accelerators: Vec<AccelDevice>) -> Topology {
    let mut map = BTreeMap::new();
    for n in nodes {
        map.insert(n.id, n);
    }
    Topology { nodes: map, accelerators }
}

// ---------------------------------------------------------------- ranking

#[test]
fn ranking_lists_every_node_nearest_first() {
    let t = topo_quad_node_two_gpu();
    let p = recommend(&t, &t.accelerators[1]);
    assert_eq!(p.ranked_nodes, vec![(3, 10), (2, 21), (0, 31), (1, 31)]);
    assert_eq!(p.recommended_cpus, (48..64).collect::<Vec<u32>>());
    assert_eq!(p.verdict(), "local: pin here, no cross-node hop");
}

#[test]
fn equal_distances_keep_key_order() {
    let t = topo(
        vec![
            node(0, vec![0], &[(0, 10), (1, 20), (2, 20)]),
            node(1, vec![1], &[]),
            node(2, vec![2], &[]),
        ],
        vec![],
    );
    let p = recommend(&t, &device("0000:01:00.0", Some(0)));
    assert_eq!(p.ranked_nodes, vec![(0, 10), (1, 20), (2, 20)]);
}

#[test]
fn missing_slit_entries_fall_back() {
    // Home node 1 has no SLIT row at all: itself counts as local, the rest
    // as unreachable.
    let t = topo(vec![node(0, vec![0, 1], &[]), node(1, vec![2, 3], &[])], vec![]);
    let p = recommend(&t, &device("0000:01:00.0", Some(1)));
    assert_eq!(p.ranked_nodes, vec![(1, LOCAL_DISTANCE), (0, UNREACHABLE_DISTANCE)]);
    assert_eq!(p.recommended_cpus, vec![2, 3]);
}

#[test]
fn home_node_absent_from_topology() {
    let t = topo(vec![node(0, vec![0], &[(0, 10)]), node(1, vec![1], &[(1, 10)])], vec![]);
    let p = recommend(&t, &device("0000:01:00.0", Some(7)));
    assert_eq!(p.ranked_nodes, vec![(0, 255), (1, 255)]);
    assert_eq!(p.recommended_cpus, vec![0]);
    assert_eq!(p.verdict(), "far: cross-socket, expect a real bandwidth/latency tax");
}

#[test]
fn empty_topology_gives_empty_placement() {
    let t = Topology::default();
    let p = recommend(&t, &device("0000:01:00.0", Some(0)));
    assert!(p.ranked_nodes.is_empty());
    assert!(p.recommended_cpus.is_empty());
    assert_eq!(p.verdict(), "unknown: accelerator has no NUMA affinity reported");
}

#[test]
fn verdict_thresholds() {
    let t = topo(vec![node(0, vec![0], &[(0, 20)]), node(1, vec![1], &[(1, 21)])], vec![]);
    let near = recommend(&t, &device("a", Some(0)));
    assert_eq!(near.verdict(), "near: one hop, acceptable for most training loads");
    let far = recommend(&t, &device("b", Some(1)));
    assert_eq!(far.ranked_nodes[0], (1, 21));
    assert_eq!(far.verdict(), "far: cross-socket, expect a real bandwidth/latency tax");
}

#[test]
fn placement_keeps_the_accelerator() {
    let t = topo_dual_node_gpu_remote();
    let p = recommend(&t, &t.accelerators[0]);
    assert_eq!(p.accelerator.bdf, "0000:81:00.0");
    assert_eq!(p.accelerator.class, "0x030200");
    assert_eq!(p.accelerator.numa_node, Some(1));
    assert_eq!(p.accelerator.vendor, "0x10de");
    assert_eq!(p.accelerator.device, "0x2331");
    assert_eq!(p.ranked_nodes, vec![(1, 10), (0, 21)]);
    assert_eq!(p.recommended_cpus, (32..64).collect::<Vec<u32>>());
}

#[test]
fn recommend_all_in_scan_order() {
    let t = topo_quad_node_two_gpu();
    let ps = recommend_all(&t);
    assert_eq!(ps.len(), 2);
    assert_eq!(ps[0].accelerator.bdf, "0000:41:00.0");
    assert_eq!(ps[0].ranked_nodes[0], (1, 10));
    assert_eq!(ps[1].accelerator.bdf, "0000:c1:00.0");
    assert_eq!(ps[1].ranked_nodes[0], (3, 10));
    assert!(recommend_all(&topo_single_socket()).is_empty());
}

#[test]
fn no_affinity_fixture_is_unknown() {
    let t = topo_accel_no_affinity();
    let ps = recommend_all(&t);
    assert_eq!(ps.len(), 1);
    assert!(ps[0].ranked_nodes.is_empty());
    assert!(ps[0].recommended_cpus.is_empty());
    assert_eq!(ps[0].verdict(), "unknown: accelerator has no NUMA affinity reported");
}

#[test]
fn node_for_cpu_finds_the_owner() {
    let t = topo_dual_node_gpu_remote();
    assert_eq!(t.node_for_cpu(5), Some(0));
    assert_eq!(t.node_for_cpu(40), Some(1));
    assert_eq!(t.node_for_cpu(64), None);
    // Overlapping CPU lists: the smallest key answers.
    let o = topo(vec![node(4, vec![1, 2], &[]), node(9, vec![2, 3], &[])], vec![]);
    assert_eq!(o.node_for_cpu(2), Some(4));
    assert_eq!(o.node_for_cpu(3), Some(9));
}

// ------------------------------------------------------------- cpulists

#[test]
fn range_string_edge_cases() {
    assert_eq!(cpulist_to_range_str(&[1, 1, 2]), "1,1-2");
    assert_eq!(cpulist_to_range_str(&[7, 5]), "5,7");
    assert_eq!(cpulist_to_range_str(&[4294967295, 4294967294]), "4294967294-4294967295");
    assert_eq!(cpulist_to_range_str(&[4294967295, 4294967295]), "4294967295,4294967295");
    assert_eq!(cpulist_to_range_str(&[10, 0, 9, 11]), "0,9-11");
    let evens: Vec<u32> = (0u32..8).filter(|x| x % 2 == 0).collect();
    assert_eq!(cpulist_to_range_str(&evens), "0,2,4,6");
}

#[test]
fn range_string_ignores_order() {
    assert_eq!(cpulist_to_range_str(&[9, 3, 8, 2, 1]), cpulist_to_range_str(&[1, 2, 3, 8, 9]));
}

#[test]
fn parse_cpulist_reads_kernel_lists() {
    assert_eq!(parse_cpulist("0-3,8,10-11"), vec![0, 1, 2, 3, 8, 10, 11]);
    assert_eq!(parse_cpulist("  4-5\n"), vec![4, 5]);
    assert_eq!(parse_cpulist(""), Vec::<u32>::new());
    assert_eq!(parse_cpulist("1,,2,"), vec![1, 2]);
    assert_eq!(parse_cpulist("+5"), vec![5]);
    assert_eq!(parse_cpulist("5-3"), Vec::<u32>::new());
    assert_eq!(parse_cpulist("a,1"), vec![1]);
    assert_eq!(parse_cpulist("1-2-3"), Vec::<u32>::new());
    assert_eq!(parse_cpulist("-4"), Vec::<u32>::new());
    assert_eq!(parse_cpulist("1, 2"), vec![1]);
    assert_eq!(parse_cpulist("4294967296,7"), vec![7]);
    assert_eq!(parse_cpulist("4294967294-4294967295"), vec![4294967294, 4294967295]);
}

#[test]
fn range_string_reads_back() {
    let cpus = [9u32, 1, 2, 3, 0, 3];
    let s = cpulist_to_range_str(&cpus);
    assert_eq!(s, "0-3,3,9");
    assert_eq!(parse_cpulist(&s), vec![0, 1, 2, 3, 3, 9]);
}

// ---------------------------------------------------------- sysfs texts

#[test]
fn accelerator_classes() {
    assert!(is_accelerator_class("0x030200"));
    assert!(is_accelerator_class("0x030000"));
    assert!(is_accelerator_class("0x120000"));
    assert!(is_accelerator_class("0x1200"));
    assert!(is_accelerator_class("0x0x030000"));
    assert!(is_accelerator_class("03"));
    assert!(!is_accelerator_class("0x020000"));
    assert!(!is_accelerator_class("0x1201"));
    assert!(!is_accelerator_class(""));
    assert!(!is_accelerator_class("0x"));
}

#[test]
fn node_directory_names() {
    assert_eq!(node_id_from_dir_name("node0"), Some(0));
    assert_eq!(node_id_from_dir_name("node12"), Some(12));
    assert_eq!(node_id_from_dir_name("node+3"), Some(3));
    assert_eq!(node_id_from_dir_name("node"), None);
    assert_eq!(node_id_from_dir_name("nodes"), None);
    assert_eq!(node_id_from_dir_name("cpu0"), None);
    assert_eq!(node_id_from_dir_name("possible"), None);
}

#[test]
fn distance_rows() {
    let m = parse_distance_row("10 21  31\n");
    assert_eq!(m.into_iter().collect::<Vec<_>>(), vec![(0, 10), (1, 21), (2, 31)]);
    let m = parse_distance_row("10 x 21");
    assert_eq!(m.into_iter().collect::<Vec<_>>(), vec![(0, 10), (2, 21)]);
    assert!(parse_distance_row("   ").is_empty());
}

#[test]
fn numa_affinity_values() {
    assert_eq!(numa_affinity_from_sysfs("-1\n"), None);
    assert_eq!(numa_affinity_from_sysfs("1\n"), Some(1));
    assert_eq!(numa_affinity_from_sysfs(" +2 "), Some(2));
    assert_eq!(numa_affinity_from_sysfs("-0"), Some(0));
    assert_eq!(numa_affinity_from_sysfs("4294967297"), Some(1));
    assert_eq!(numa_affinity_from_sysfs("9223372036854775807"), Some(4294967295));
    assert_eq!(numa_affinity_from_sysfs("9223372036854775808"), None);
    assert_eq!(numa_affinity_from_sysfs("-9223372036854775808"), None);
    assert_eq!(numa_affinity_from_sysfs("x"), None);
    assert_eq!(numa_affinity_from_sysfs(""), None);
}

#[test]
fn trimming_uses_unicode_whitespace() {
    assert_eq!(trimmed("  a b \n"), "a b");
    assert_eq!(trimmed("\u{a0}x\u{3000}"), "x");
    assert_eq!(trimmed(" \t "), "");
    assert_eq!(chars_of("héllo"), vec!['h', 'é', 'l', 'l', 'o']);
}

#[test]
fn decimal_spelling() {
    let mut s = String::from("n=");
    push_decimal(&mut s, 0);
    push_decimal(&mut s, 4294967295);
    assert_eq!(s, "n=04294967295");
}

#[test]
fn accelerators_from_sysfs() {
    assert!(accel_from_sysfs("0000:00:02.0", None, Some("0"), None, None).is_none());
    assert!(accel_from_sysfs("0000:00:1f.6", Some("0x020000\n"), Some("0"), None, None).is_none());
    let a = accel_from_sysfs(
        "0000:41:00.0",
        Some("0x030200\n"),
        Some("1\n"),
        Some("0x10de\n"),
        None,
    )
    .unwrap();
    assert_eq!(a.bdf, "0000:41:00.0");
    assert_eq!(a.class, "0x030200");
    assert_eq!(a.numa_node, Some(1));
    assert_eq!(a.vendor, "0x10de");
    assert_eq!(a.device, "");
    let b = accel_from_sysfs("0000:c1:00.0", Some("0x120000"), Some("-1\n"), None, None).unwrap();
    assert_eq!(b.numa_node, None);
}

#[test]
fn nodes_from_sysfs() {
    assert!(numa_node_from_sysfs("has_cpu", Some("0-3"), None).is_none());
    let n = numa_node_from_sysfs("node1", Some("4-7\n"), Some("21 10\n")).unwrap();
    assert_eq!(n.id, 1);
    assert_eq!(n.cpus, vec![4, 5, 6, 7]);
    assert_eq!(n.distance.get(&0), Some(&21));
    assert_eq!(n.distance.get(&1), Some(&10));
    let bare = numa_node_from_sysfs("node2", None, None).unwrap();
    assert!(bare.cpus.is_empty() && bare.distance.is_empty());
}

#[test]
fn scan_assembly_sorts_and_keys() {
    let t = Topology::from_scan(
        vec![node(1, vec![4], &[]), node(0, vec![0], &[])],
        vec![device("0000:c1:00.0", Some(1)), device("0000:41:00.0", Some(0))],
    );
    assert_eq!(t.nodes.keys().copied().collect::<Vec<_>>(), vec![0, 1]);
    assert_eq!(t.nodes[&1].cpus, vec![4]);
    assert_eq!(t.accelerators[0].bdf, "0000:41:00.0");
    assert_eq!(t.accelerators[1].bdf, "0000:c1:00.0");
}

#[test]
fn fixture_helpers() {
    assert_eq!(cpu_range(3, 6), vec![3, 4, 5]);
    assert!(cpu_range(2, 2).is_empty());
    let r = slit_row(&[10, 21]);
    assert_eq!(r.into_iter().collect::<Vec<_>>(), vec![(0, 10), (1, 21)]);
    let q = topo_quad_node_two_gpu();
    assert_eq!(q.nodes[&2].distance.get(&3), Some(&21));
    assert_eq!(q.nodes[&3].cpus, (48..64).collect::<Vec<u32>>());
}

#[test]
fn surrounding_whitespace_does_not_matter() {
    assert_eq!(parse_cpulist("\n 0-1,5 \n"), parse_cpulist("0-1,5"));
    assert_eq!(parse_cpulist("\t3\u{2028}"), vec![3]);
}

#[test]
fn later_scanned_node_with_same_id_wins() {
    let t = Topology::from_scan(vec![node(2, vec![0], &[]), node(2, vec![9], &[])], vec![]);
    assert_eq!(t.nodes.len(), 1);
    assert_eq!(t.nodes[&2].cpus, vec![9]);
}

#[test]
fn canonical_cpulist_round_trips() {
    for s in ["", "0-3,8-9", "0,2-5,7", "4294967294-4294967295", "12"] {
        assert_eq!(cpulist_to_range_str(&parse_cpulist(s)), s);
    }
}

#[test]
fn empty_cpu_range_when_reversed() {
    assert!(cpu_range(5, 2).is_empty());
}
