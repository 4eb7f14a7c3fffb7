//! Synthetic machines for exercising and timing the advisor without real
//! sysfs: one socket with no accelerator, two nodes with a GPU on the
//! remote one, four nodes with a GPU and a processing accelerator, and two
//! nodes with an accelerator that reports no affinity.
use std::collections::BTreeMap;
use vstd::prelude::*;

use crate::topology::{AccelDevice, AccelDeviceView, NumaNode, Topology};

verus! {

/// The CPU ids `lo, lo + 1, ..., hi - 1` (none when `lo >= hi`).
pub open spec fn cpu_span(lo: int, hi: int) -> Seq<u32> {
    if lo <= hi {
        Seq::new((hi - lo) as nat, |i: int| (lo + i) as u32)
    } else {
        Seq::empty()
    }
}

/// The CPUs `lo..hi` as a list.
pub fn cpu_range(lo: u32, hi: u32) -> (v: Vec<u32>)
    ensures
        v@ == cpu_span(lo as int, hi as int),
{
    let mut v: Vec<u32> = Vec::new();
    if hi < lo {
        return v;
    }
    let mut c: u32 = lo;
    assert(v@ =~= cpu_span(lo as int, lo as int));
    while c < hi
        invariant
            lo <= c <= hi,
            v@ == cpu_span(lo as int, c as int),
        decreases hi - c,
    {
        v.push(c);
        c = c + 1;
        assert(v@ =~= cpu_span(lo as int, c as int));
    }
    v
}

/// A SLIT row from its entries, entry `j` being the distance to node `j`.
pub open spec fn row_map(row: Seq<u32>) -> Map<u32, u32> {
    Map::new(|j: u32| j < row.len(), |j: u32| row[j as int])
}

/// The SLIT row with the given entries.
pub fn slit_row(row: &[u32]) -> (m: BTreeMap<u32, u32>)
    requires
        row.len() <= u32::MAX,
    ensures
        m@ == row_map(row@),
{
    let mut m: BTreeMap<u32, u32> = BTreeMap::new();
    let mut j: usize = 0;
    while j < row.len()
        invariant
            j <= row.len() <= u32::MAX,
            m@ == Map::new(|k: u32| k < j, |k: u32| row@[k as int]),
        decreases row.len() - j,
    {
        m.insert(j as u32, row[j]);
        j = j + 1;
        assert(m@ =~= Map::new(|k: u32| k < j, |k: u32| row@[k as int]));
    }
    assert(m@ =~= row_map(row@));
    m
}

/// The view of an accelerator built from text fields.
pub open spec fn accel_view(
    bdf: &str,
    class: &str,
    numa_node: Option<u32>,
    vendor: &str,
    device: &str,
) -> AccelDeviceView {
    AccelDeviceView { bdf: bdf@, class: class@, numa_node, vendor: vendor@, device: device@ }
}

fn accel(bdf: &str, class: &str, numa_node: Option<u32>, vendor: &str, device: &str) -> (a:
    AccelDevice)
    ensures
        a@ == accel_view(bdf, class, numa_node, vendor, device),
{
    AccelDevice {
        bdf: bdf.to_owned(),
        class: class.to_owned(),
        numa_node,
        vendor: vendor.to_owned(),
        device: device.to_owned(),
    }
}

/// One socket, 64 CPUs, no accelerator.
pub fn topo_single_socket() -> (t: Topology)
    ensures
        t.nodes@.dom() == set![0u32],
        t.nodes@[0].id == 0,
        t.nodes@[0].cpus@ == cpu_span(0, 64),
        t.nodes@[0].distance@ == row_map(seq![10u32]),
        t.accelerators@.len() == 0,
{
    let mut nodes: BTreeMap<u32, NumaNode> = BTreeMap::new();
    nodes.insert(0, NumaNode { id: 0, cpus: cpu_range(0, 64), distance: slit_row(&[10]) });
    assert(nodes@.dom() =~= set![0u32]);
    Topology { nodes, accelerators: Vec::new() }
}

/// Two nodes of 32 CPUs at distance 21 from each other.
fn two_nodes() -> (m: BTreeMap<u32, NumaNode>)
    ensures
        m@.dom() == set![0u32, 1u32],
        m@[0].id == 0,
        m@[0].cpus@ == cpu_span(0, 32),
        m@[0].distance@ == row_map(seq![10u32, 21u32]),
        m@[1].id == 1,
        m@[1].cpus@ == cpu_span(32, 64),
        m@[1].distance@ == row_map(seq![21u32, 10u32]),
{
    let mut nodes: BTreeMap<u32, NumaNode> = BTreeMap::new();
    nodes.insert(0, NumaNode { id: 0, cpus: cpu_range(0, 32), distance: slit_row(&[10, 21]) });
    nodes.insert(1, NumaNode { id: 1, cpus: cpu_range(32, 64), distance: slit_row(&[21, 10]) });
    assert(nodes@.dom() =~= set![0u32, 1u32]);
    nodes
}

/// Two nodes, a GPU on node 1.
pub fn topo_dual_node_gpu_remote() -> (t: Topology)
    ensures
        t.nodes@.dom() == set![0u32, 1u32],
        t.nodes@[0].id == 0,
        t.nodes@[0].cpus@ == cpu_span(0, 32),
        t.nodes@[0].distance@ == row_map(seq![10u32, 21u32]),
        t.nodes@[1].id == 1,
        t.nodes@[1].cpus@ == cpu_span(32, 64),
        t.nodes@[1].distance@ == row_map(seq![21u32, 10u32]),
        t.accelerators@.len() == 1,
        t.accelerators@[0]@ == accel_view("0000:81:00.0", "0x030200", Some(1), "0x10de", "0x2331"),
{
    let nodes = two_nodes();
    let mut accelerators: Vec<AccelDevice> = Vec::new();
    accelerators.push(accel("0000:81:00.0", "0x030200", Some(1), "0x10de", "0x2331"));
    Topology { nodes, accelerators }
}

/// The SLIT table of the four-node machine: two sockets of two nodes.
pub open spec fn quad_slit(i: int, j: int) -> u32 {
    if i == j {
        10
    } else if i / 2 == j / 2 {
        21
    } else {
        31
    }
}

/// Four nodes of 16 CPUs, a GPU on node 1 and a processing accelerator on
/// node 3.
pub fn topo_quad_node_two_gpu() -> (t: Topology)
    ensures
        t.nodes@.dom() == set![0u32, 1u32, 2u32, 3u32],
        forall|k: u32|
            #![trigger t.nodes@[k]]
            k < 4 ==> {
                &&& t.nodes@[k].id == k
                &&& t.nodes@[k].cpus@ == cpu_span(16 * k, 16 * k + 16)
                &&& t.nodes@[k].distance@ == row_map(
                    seq![
                        quad_slit(k as int, 0),
                        quad_slit(k as int, 1),
                        quad_slit(k as int, 2),
                        quad_slit(k as int, 3),
                    ],
                )
            },
        t.accelerators@.len() == 2,
        t.accelerators@[0]@ == accel_view("0000:41:00.0", "0x030200", Some(1), "0x10de", "0x2330"),
        t.accelerators@[1]@ == accel_view("0000:c1:00.0", "0x1200", Some(3), "0x1d87", "0x0100"),
{
    let mut nodes: BTreeMap<u32, NumaNode> = BTreeMap::new();
    let mut id: u32 = 0;
    while id < 4
        invariant
            id <= 4,
            nodes@.dom() == Set::new(|k: u32| k < id),
            forall|k: u32|
                #![trigger nodes@[k]]
                k < id ==> {
                    &&& nodes@[k].id == k
                    &&& nodes@[k].cpus@ == cpu_span(16 * k, 16 * k + 16)
                    &&& nodes@[k].distance@ == row_map(
                        seq![
                            quad_slit(k as int, 0),
                            quad_slit(k as int, 1),
                            quad_slit(k as int, 2),
                            quad_slit(k as int, 3),
                        ],
                    )
                },
        decreases 4 - id,
    {
        let row: [u32; 4] = if id == 0 {
            [10, 21, 31, 31]
        } else if id == 1 {
            [21, 10, 31, 31]
        } else if id == 2 {
            [31, 31, 10, 21]
        } else {
            [31, 31, 21, 10]
        };
        assert(row@ =~= seq![
            quad_slit(id as int, 0),
            quad_slit(id as int, 1),
            quad_slit(id as int, 2),
            quad_slit(id as int, 3),
        ]);
        let node = NumaNode { id, cpus: cpu_range(id * 16, id * 16 + 16), distance: slit_row(&row) };
        nodes.insert(id, node);
        id = id + 1;
        assert(nodes@.dom() =~= Set::new(|k: u32| k < id));
    }
    assert(nodes@.dom() =~= set![0u32, 1u32, 2u32, 3u32]);
    let mut accelerators: Vec<AccelDevice> = Vec::new();
    accelerators.push(accel("0000:41:00.0", "0x030200", Some(1), "0x10de", "0x2330"));
    accelerators.push(accel("0000:c1:00.0", "0x1200", Some(3), "0x1d87", "0x0100"));
    Topology { nodes, accelerators }
}

/// Two nodes, an accelerator that reports no NUMA affinity.
pub fn topo_accel_no_affinity() -> (t: Topology)
    ensures
        t.nodes@.dom() == set![0u32, 1u32],
        t.nodes@[0].id == 0,
        t.nodes@[0].cpus@ == cpu_span(0, 32),
        t.nodes@[0].distance@ == row_map(seq![10u32, 21u32]),
        t.nodes@[1].id == 1,
        t.nodes@[1].cpus@ == cpu_span(32, 64),
        t.nodes@[1].distance@ == row_map(seq![21u32, 10u32]),
        t.accelerators@.len() == 1,
        t.accelerators@[0]@ == accel_view("0000:03:00.0", "0x030200", None, "0x10de", "0x2200"),
{
    let nodes = two_nodes();
    let mut accelerators: Vec<AccelDevice> = Vec::new();
    accelerators.push(accel("0000:03:00.0", "0x030200", None, "0x10de", "0x2200"));
    Topology { nodes, accelerators }
}

} // verus!
