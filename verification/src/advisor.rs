//! Turns raw topology into an actual answer: "if my workload is talking to
//! this accelerator, which cores should I pin it to, and how bad would it
//! be if I didn't."
//!
//! The scoring is a direct reading of the kernel's SLIT distance table:
//! every NUMA node is ranked by its distance to the accelerator's home
//! node, nearest first.
use std::collections::BTreeMap;
use vstd::prelude::*;
use vstd::std_specs::btree::spec_btree_map_iter;
use vstd::std_specs::iter::IteratorSpec;

use vstd::string::StringExecFns;

use crate::cpulist::{cpu_runs, join_ranges, lemma_insert_sorted_at, range_string, range_text, sort_cpus};
use crate::text::{push_char, push_decimal};
use crate::topology::{AccelDevice, NumaNode, Topology};

verus! {

/// Local-node distance in the kernel's SLIT convention.
pub const LOCAL_DISTANCE: u32 = 10;

/// Distance up to which a node counts as one hop away.
pub const NEAR_DISTANCE: u32 = 20;

/// Distance assumed for a node that the home node's SLIT row does not
/// mention (the largest value a SLIT entry can take).
pub const UNREACHABLE_DISTANCE: u32 = 255;

/// The placement advice for one accelerator.
#[derive(Debug, Clone)]
pub struct Placement {
    pub accelerator: AccelDevice,
    /// NUMA node id, ranked nearest-first, with its SLIT distance to the
    /// accelerator's home node (10 = local, higher = farther). Empty when
    /// the accelerator reported no NUMA affinity at all.
    pub ranked_nodes: Vec<(u32, u32)>,
    pub recommended_cpus: Vec<u32>,
}

/// The distance from node `home` to node `id`: the entry for `id` in the
/// SLIT row of the node stored under `home`; where there is no such row or
/// entry, 10 for the home node itself and 255 for any other.
pub open spec fn slit_distance(nodes: Map<u32, NumaNode>, home: u32, id: u32) -> u32 {
    if nodes.contains_key(home) && nodes[home].distance@.contains_key(id) {
        nodes[home].distance@[id]
    } else if id == home {
        LOCAL_DISTANCE
    } else {
        UNREACHABLE_DISTANCE
    }
}

/// The distance by which the node stored under key `k` is ranked.
pub open spec fn key_distance(nodes: Map<u32, NumaNode>, home: u32, k: u32) -> u32 {
    slit_distance(nodes, home, nodes[k].id)
}

/// Whether the node under key `k1` ranks strictly before the one under
/// `k2`: it is nearer, or equally near and stored under a smaller key (the
/// ranking is a stable sort by distance of the nodes in key order).
pub open spec fn ranks_before(nodes: Map<u32, NumaNode>, home: u32, k1: u32, k2: u32) -> bool {
    let d1 = key_distance(nodes, home, k1);
    let d2 = key_distance(nodes, home, k2);
    d1 < d2 || (d1 == d2 && k1 < k2)
}

/// `ks` lists every key of `nodes` exactly once, in rank order.
pub open spec fn is_rank_order(nodes: Map<u32, NumaNode>, home: u32, ks: Seq<u32>) -> bool {
    &&& forall|k: u32| nodes.contains_key(k) <==> ks.contains(k)
    &&& forall|i: int, j: int|
        0 <= i < j < ks.len() ==> ranks_before(nodes, home, #[trigger] ks[i], #[trigger] ks[j])
}

/// The keys of `nodes` in rank order (see [`is_rank_order`]; that order is
/// unique, see [`lemma_rank_order_unique`]).
pub open spec fn rank_order(nodes: Map<u32, NumaNode>, home: u32) -> Seq<u32> {
    choose|ks: Seq<u32>| is_rank_order(nodes, home, ks)
}

/// The ranking entry for the node under key `k`: its id and its distance.
pub open spec fn rank_entry(nodes: Map<u32, NumaNode>, home: u32, k: u32) -> (u32, u32) {
    (nodes[k].id, key_distance(nodes, home, k))
}

/// Every node as (id, distance to `home`), nearest first.
pub open spec fn ranking(nodes: Map<u32, NumaNode>, home: u32) -> Seq<(u32, u32)> {
    rank_order(nodes, home).map_values(|k: u32| rank_entry(nodes, home, k))
}

/// The ranking owed for an accelerator with NUMA affinity `affinity`:
/// empty when it reported none.
pub open spec fn expected_ranking(nodes: Map<u32, NumaNode>, affinity: Option<u32>) -> Seq<(u32, u32)> {
    match affinity {
        Some(home) => ranking(nodes, home),
        None => Seq::empty(),
    }
}

/// The CPUs recommended for a ranking: those of the node whose key is the
/// first-ranked id, or none when the ranking is empty or no node is stored
/// under that id.
pub open spec fn recommended_for(nodes: Map<u32, NumaNode>, ranked: Seq<(u32, u32)>) -> Seq<u32> {
    if ranked.len() > 0 && nodes.contains_key(ranked[0].0) {
        nodes[ranked[0].0].cpus@
    } else {
        Seq::empty()
    }
}

/// Two sequences that hold the same keys, each strictly increasing in rank
/// order, are equal.
proof fn lemma_rank_sorted_unique(nodes: Map<u32, NumaNode>, home: u32, a: Seq<u32>, b: Seq<u32>)
    requires
        forall|k: u32| a.contains(k) <==> b.contains(k),
        forall|i: int, j: int|
            0 <= i < j < a.len() ==> ranks_before(nodes, home, #[trigger] a[i], #[trigger] a[j]),
        forall|i: int, j: int|
            0 <= i < j < b.len() ==> ranks_before(nodes, home, #[trigger] b[i], #[trigger] b[j]),
    ensures
        a == b,
    decreases a.len(),
{
    if a.len() == 0 {
        if b.len() > 0 {
            assert(b.contains(b[0]));
            assert(a.contains(b[0]) == b.contains(b[0]));
            assert(!a.contains(b[0]));
        }
        assert(a =~= b);
    } else {
        assert(a.contains(a[0]));
        assert(b.len() > 0);
        assert(b.contains(b[0]));
        let j = choose|j: int| 0 <= j < b.len() && b[j] == a[0];
        let i = choose|i: int| 0 <= i < a.len() && a[i] == b[0];
        if j > 0 {
            assert(ranks_before(nodes, home, b[0], b[j]));
            if i > 0 {
                assert(ranks_before(nodes, home, a[0], a[i]));
            }
            assert(false);
        }
        assert(a[0] == b[0]);
        let a1 = a.drop_first();
        let b1 = b.drop_first();
        assert forall|k: u32| a1.contains(k) <==> b1.contains(k) by {
            if a1.contains(k) {
                let p = choose|p: int| 0 <= p < a1.len() && a1[p] == k;
                assert(ranks_before(nodes, home, a[0], a[p + 1]));
                assert(b.contains(k));
                let q = choose|q: int| 0 <= q < b.len() && b[q] == k;
                assert(q != 0);
                assert(b1[q - 1] == k);
            }
            if b1.contains(k) {
                let p = choose|p: int| 0 <= p < b1.len() && b1[p] == k;
                assert(ranks_before(nodes, home, b[0], b[p + 1]));
                assert(a.contains(k));
                let q = choose|q: int| 0 <= q < a.len() && a[q] == k;
                assert(q != 0);
                assert(a1[q - 1] == k);
            }
        }
        assert forall|i: int, j: int| 0 <= i < j < a1.len() implies ranks_before(
            nodes,
            home,
            #[trigger] a1[i],
            #[trigger] a1[j],
        ) by {
            assert(a1[i] == a[i + 1] && a1[j] == a[j + 1]);
        }
        assert forall|i: int, j: int| 0 <= i < j < b1.len() implies ranks_before(
            nodes,
            home,
            #[trigger] b1[i],
            #[trigger] b1[j],
        ) by {
            assert(b1[i] == b[i + 1] && b1[j] == b[j + 1]);
        }
        lemma_rank_sorted_unique(nodes, home, a1, b1);
        assert(a.len() == b.len());
        assert forall|i: int| 0 <= i < a.len() implies a[i] == b[i] by {
            if i > 0 {
                assert(a[i] == a1[i - 1] && b[i] == b1[i - 1]);
            }
        }
        assert(a =~= b);
    }
}

/// `ks` with `x` inserted before the first key that `x` ranks before.
spec fn insert_ranked(nodes: Map<u32, NumaNode>, home: u32, ks: Seq<u32>, x: u32) -> Seq<u32>
    decreases ks.len(),
{
    if ks.len() == 0 {
        seq![x]
    } else if ranks_before(nodes, home, x, ks[0]) {
        seq![x] + ks
    } else {
        seq![ks[0]] + insert_ranked(nodes, home, ks.drop_first(), x)
    }
}

/// Whether `ks` is strictly increasing in rank order.
spec fn strictly_ranked(nodes: Map<u32, NumaNode>, home: u32, ks: Seq<u32>) -> bool {
    forall|i: int, j: int|
        0 <= i < j < ks.len() ==> ranks_before(nodes, home, #[trigger] ks[i], #[trigger] ks[j])
}

proof fn lemma_insert_ranked(nodes: Map<u32, NumaNode>, home: u32, ks: Seq<u32>, x: u32)
    requires
        strictly_ranked(nodes, home, ks),
        !ks.contains(x),
    ensures
        strictly_ranked(nodes, home, insert_ranked(nodes, home, ks, x)),
        forall|k: u32| #[trigger] insert_ranked(nodes, home, ks, x).contains(k) <==> (ks.contains(k) || k == x),
    decreases ks.len(),
{
    let r = insert_ranked(nodes, home, ks, x);
    if ks.len() == 0 {
        assert(r =~= seq![x]);
        assert forall|k: u32| #[trigger] r.contains(k) <==> (ks.contains(k) || k == x) by {
            if r.contains(k) {
                assert(r[0] == x);
            }
            if k == x {
                assert(r[0] == x);
            }
        }
    } else if ranks_before(nodes, home, x, ks[0]) {
        assert forall|i: int, j: int| 0 <= i < j < r.len() implies ranks_before(
            nodes,
            home,
            #[trigger] r[i],
            #[trigger] r[j],
        ) by {
            if i == 0 {
                assert(r[j] == ks[j - 1]);
                if j > 1 {
                    assert(ranks_before(nodes, home, ks[0], ks[j - 1]));
                }
            } else {
                assert(r[i] == ks[i - 1] && r[j] == ks[j - 1]);
            }
        }
        assert forall|k: u32| #[trigger] r.contains(k) <==> (ks.contains(k) || k == x) by {
            if r.contains(k) {
                let i = choose|i: int| 0 <= i < r.len() && r[i] == k;
                if i > 0 {
                    assert(ks[i - 1] == k);
                }
            }
            if ks.contains(k) {
                let i = choose|i: int| 0 <= i < ks.len() && ks[i] == k;
                assert(r[i + 1] == k);
            }
            if k == x {
                assert(r[0] == x);
            }
        }
    } else {
        let t = ks.drop_first();
        assert forall|i: int, j: int| 0 <= i < j < t.len() implies ranks_before(
            nodes,
            home,
            #[trigger] t[i],
            #[trigger] t[j],
        ) by {
            assert(t[i] == ks[i + 1] && t[j] == ks[j + 1]);
        }
        assert(!t.contains(x)) by {
            if t.contains(x) {
                let i = choose|i: int| 0 <= i < t.len() && t[i] == x;
                assert(ks[i + 1] == x);
            }
        }
        lemma_insert_ranked(nodes, home, t, x);
        let rt = insert_ranked(nodes, home, t, x);
        assert(ks.contains(ks[0]));
        assert(ks[0] != x);
        assert(ranks_before(nodes, home, ks[0], x));
        assert forall|i: int, j: int| 0 <= i < j < r.len() implies ranks_before(
            nodes,
            home,
            #[trigger] r[i],
            #[trigger] r[j],
        ) by {
            if i == 0 {
                assert(r[j] == rt[j - 1]);
                assert(rt.contains(rt[j - 1]));
                if rt[j - 1] != x {
                    assert(t.contains(rt[j - 1]));
                    let q = choose|q: int| 0 <= q < t.len() && t[q] == rt[j - 1];
                    assert(ranks_before(nodes, home, ks[0], ks[q + 1]));
                }
            } else {
                assert(r[i] == rt[i - 1] && r[j] == rt[j - 1]);
            }
        }
        assert forall|k: u32| #[trigger] r.contains(k) <==> (ks.contains(k) || k == x) by {
            if r.contains(k) {
                let i = choose|i: int| 0 <= i < r.len() && r[i] == k;
                if i > 0 {
                    assert(rt[i - 1] == k);
                    assert(rt.contains(k));
                    if t.contains(k) {
                        let q = choose|q: int| 0 <= q < t.len() && t[q] == k;
                        assert(ks[q + 1] == k);
                    }
                } else {
                    assert(ks[0] == k);
                }
            }
            if ks.contains(k) {
                let i = choose|i: int| 0 <= i < ks.len() && ks[i] == k;
                if i > 0 {
                    assert(t[i - 1] == k);
                    assert(rt.contains(k));
                    let q = choose|q: int| 0 <= q < rt.len() && rt[q] == k;
                    assert(r[q + 1] == k);
                } else {
                    assert(r[0] == k);
                }
            }
            if k == x {
                assert(rt.contains(x));
                let q = choose|q: int| 0 <= q < rt.len() && rt[q] == x;
                assert(r[q + 1] == x);
            }
        }
    }
}

proof fn lemma_rank_keys_exist(nodes: Map<u32, NumaNode>, home: u32, keys: Set<u32>)
    requires
        keys.finite(),
    ensures
        exists|ks: Seq<u32>|
            (forall|k: u32| keys.contains(k) <==> #[trigger] ks.contains(k)) && strictly_ranked(
                nodes,
                home,
                ks,
            ),
    decreases keys.len(),
{
    if keys.len() == 0 {
        let ks = Seq::<u32>::empty();
        assert forall|k: u32| keys.contains(k) <==> #[trigger] ks.contains(k) by {
            if keys.contains(k) {
                assert(keys.remove(k).len() < keys.len());
            }
        }
        assert(strictly_ranked(nodes, home, ks));
    } else {
        let x = keys.choose();
        let rest = keys.remove(x);
        lemma_rank_keys_exist(nodes, home, rest);
        let ks0 = choose|ks: Seq<u32>|
            (forall|k: u32| rest.contains(k) <==> #[trigger] ks.contains(k)) && strictly_ranked(
                nodes,
                home,
                ks,
            );
        lemma_insert_ranked(nodes, home, ks0, x);
        let ks = insert_ranked(nodes, home, ks0, x);
        assert forall|k: u32| keys.contains(k) <==> #[trigger] ks.contains(k) by {}
    }
}

/// Every finite set of nodes has a rank order.
pub proof fn lemma_rank_order_exists(nodes: Map<u32, NumaNode>, home: u32)
    requires
        nodes.dom().finite(),
    ensures
        is_rank_order(nodes, home, rank_order(nodes, home)),
{
    lemma_rank_keys_exist(nodes, home, nodes.dom());
    let ks = choose|ks: Seq<u32>|
        (forall|k: u32| nodes.dom().contains(k) <==> #[trigger] ks.contains(k)) && strictly_ranked(
            nodes,
            home,
            ks,
        );
    assert(is_rank_order(nodes, home, ks));
}

/// The rank order of a set of nodes is unique.
pub proof fn lemma_rank_order_unique(nodes: Map<u32, NumaNode>, home: u32, a: Seq<u32>, b: Seq<u32>)
    requires
        is_rank_order(nodes, home, a),
        is_rank_order(nodes, home, b),
    ensures
        a == b,
{
    lemma_rank_sorted_unique(nodes, home, a, b);
}

/// The distance from `home` to `id`, read from the home node's SLIT row.
fn distance_to(nodes: &BTreeMap<u32, NumaNode>, home: u32, id: u32) -> (d: u32)
    ensures
        d == slit_distance(nodes@, home, id),
{
    match nodes.get(&home) {
        Some(home_node) => match home_node.distance.get(&id) {
            Some(d) => *d,
            None => if id == home {
                LOCAL_DISTANCE
            } else {
                UNREACHABLE_DISTANCE
            },
        },
        None => if id == home {
            LOCAL_DISTANCE
        } else {
            UNREACHABLE_DISTANCE
        },
    }
}

/// Whether entry `(d1, k1, _)` sorts strictly before `(d2, k2, _)`.
fn entry_before(a: (u32, u32, u32), b: (u32, u32, u32)) -> (r: bool)
    ensures
        r == (a.0 < b.0 || (a.0 == b.0 && a.1 < b.1)),
{
    a.0 < b.0 || (a.0 == b.0 && a.1 < b.1)
}

/// The keys of a list of (distance, key, id) entries.
spec fn entry_keys(s: Seq<(u32, u32, u32)>) -> Seq<u32> {
    s.map_values(|e: (u32, u32, u32)| e.1)
}

/// Ranks every node of `nodes` by distance to `home`.
fn rank_nodes(nodes: &BTreeMap<u32, NumaNode>, home: u32) -> (ranked: Vec<(u32, u32)>)
    ensures
        ranked@ == ranking(nodes@, home),
{
    // Entries (distance, key, id), kept sorted by (distance, key).
    let mut entries: Vec<(u32, u32, u32)> = Vec::new();
    let ghost all = spec_btree_map_iter(nodes).remaining();
    for (k, n) in it: nodes.iter()
        invariant
            it.seq() == all,
            it.seq().no_duplicates(),
            forall|i: int|
                0 <= i < entries.len() ==> {
                    &&& nodes@.contains_key(#[trigger] entries@[i].1)
                    &&& entries@[i].2 == nodes@[entries@[i].1].id
                    &&& entries@[i].0 == key_distance(nodes@, home, entries@[i].1)
                },
            forall|i: int, j: int|
                0 <= i < j < entries.len() ==> ranks_before(
                    nodes@,
                    home,
                    #[trigger] entries@[i].1,
                    #[trigger] entries@[j].1,
                ),
            forall|k: u32|
                entry_keys(entries@).contains(k) <==> exists|j: int|
                    0 <= j < it.index() && *(#[trigger] it.seq()[j]).0 == k,
    {
        let ghost idx = it.index();
        let d = distance_to(nodes, home, n.id);
        let e = (d, *k, n.id);
        proof {
            assert(*it.seq()[idx].0 == *k);
            if entry_keys(entries@).contains(*k) {
                let j = choose|j: int| 0 <= j < idx && *(#[trigger] it.seq()[j]).0 == *k;
                assert(it.seq()[j] == it.seq()[idx]);
                assert(false);
            }
        }
        let mut pos: usize = 0;
        while pos < entries.len() && entry_before(entries[pos], e)
            invariant
                pos <= entries.len(),
                e.0 == key_distance(nodes@, home, e.1),
                forall|i: int|
                    0 <= i < entries.len() ==> entries@[i].0 == key_distance(
                        nodes@,
                        home,
                        #[trigger] entries@[i].1,
                    ),
                forall|i: int| 0 <= i < pos ==> ranks_before(nodes@, home, #[trigger] entries@[i].1, e.1),
            decreases entries.len() - pos,
        {
            pos = pos + 1;
        }
        proof {
            assert(!entry_keys(entries@).contains(e.1));
            assert forall|j: int| pos <= j < entries.len() implies ranks_before(
                nodes@,
                home,
                e.1,
                #[trigger] entries@[j].1,
            ) by {
                assert(entry_keys(entries@)[j] == entries@[j].1);
                if j > pos {
                    assert(ranks_before(nodes@, home, entries@[pos as int].1, entries@[j].1));
                }
                assert(entry_keys(entries@)[pos as int] == entries@[pos as int].1);
            }
        }
        let ghost old_entries = entries@;
        entries.insert(pos, e);
        proof {
            assert forall|k2: u32|
                entry_keys(entries@).contains(k2) <==> exists|j: int|
                    0 <= j < idx + 1 && *(#[trigger] it.seq()[j]).0 == k2 by {
                if entry_keys(entries@).contains(k2) {
                    let p = choose|p: int| 0 <= p < entries.len() && entry_keys(entries@)[p] == k2;
                    if p != pos {
                        let q = if p < pos { p } else { p - 1 };
                        assert(entry_keys(old_entries)[q] == k2);
                        assert(entry_keys(old_entries).contains(k2));
                        let j = choose|j: int| 0 <= j < idx && *(#[trigger] it.seq()[j]).0 == k2;
                        assert(*it.seq()[j].0 == k2);
                    } else {
                        assert(*it.seq()[idx].0 == k2);
                    }
                }
                if exists|j: int| 0 <= j < idx + 1 && *(#[trigger] it.seq()[j]).0 == k2 {
                    let j = choose|j: int| 0 <= j < idx + 1 && *(#[trigger] it.seq()[j]).0 == k2;
                    if j == idx {
                        assert(entry_keys(entries@)[pos as int] == k2);
                    } else {
                        assert(entry_keys(old_entries).contains(k2));
                        let p = choose|p: int|
                            0 <= p < old_entries.len() && entry_keys(old_entries)[p] == k2;
                        if p < pos {
                            assert(entry_keys(entries@)[p] == k2);
                        } else {
                            assert(entry_keys(entries@)[p + 1] == k2);
                        }
                    }
                }
            }
        }
    }
    let ghost ks = entry_keys(entries@);
    proof {
        assert forall|k2: u32| nodes@.contains_key(k2) <==> ks.contains(k2) by {
            if nodes@.contains_key(k2) {
                assert(all.contains((&k2, &nodes@[k2])));
                let j = choose|j: int| 0 <= j < all.len() && all[j] == (&k2, &nodes@[k2]);
                assert(*all[j].0 == k2);
            }
            if ks.contains(k2) {
                let p = choose|p: int| 0 <= p < ks.len() && ks[p] == k2;
                assert(ks[p] == entries@[p].1);
            }
        }
        assert forall|i: int, j: int| 0 <= i < j < ks.len() implies ranks_before(
            nodes@,
            home,
            #[trigger] ks[i],
            #[trigger] ks[j],
        ) by {
            assert(ks[i] == entries@[i].1 && ks[j] == entries@[j].1);
        }
        assert(is_rank_order(nodes@, home, ks));
        lemma_rank_order_unique(nodes@, home, ks, rank_order(nodes@, home));
    }
    let mut ranked: Vec<(u32, u32)> = Vec::new();
    let mut i: usize = 0;
    while i < entries.len()
        invariant
            i <= entries.len(),
            ks == entry_keys(entries@),
            ks == rank_order(nodes@, home),
            forall|p: int|
                0 <= p < entries.len() ==> {
                    &&& nodes@.contains_key(#[trigger] entries@[p].1)
                    &&& entries@[p].2 == nodes@[entries@[p].1].id
                    &&& entries@[p].0 == key_distance(nodes@, home, entries@[p].1)
                },
            ranked@ == ranking(nodes@, home).take(i as int),
        decreases entries.len() - i,
    {
        let e = entries[i];
        ranked.push((e.2, e.0));
        proof {
            assert(ks[i as int] == e.1);
            assert(ranked@ =~= ranking(nodes@, home).take(i + 1));
        }
        i = i + 1;
    }
    assert(ranked@ =~= ranking(nodes@, home));
    ranked
}

/// What `verdict` says of a ranking: judged by the distance of the
/// nearest node.
pub open spec fn verdict_text(ranked: Seq<(u32, u32)>) -> Seq<char> {
    if ranked.len() == 0 {
        "unknown: accelerator has no NUMA affinity reported"@
    } else if ranked[0].1 <= LOCAL_DISTANCE {
        "local: pin here, no cross-node hop"@
    } else if ranked[0].1 <= NEAR_DISTANCE {
        "near: one hop, acceptable for most training loads"@
    } else {
        "far: cross-socket, expect a real bandwidth/latency tax"@
    }
}

/// `p` is the placement owed for an accelerator whose value is `accel` on
/// a machine whose nodes are `nodes`.
pub open spec fn is_placement_for(nodes: Map<u32, NumaNode>, accel: crate::topology::AccelDeviceView, p: Placement) -> bool {
    &&& p.accelerator@ == accel
    &&& p.ranked_nodes@ == expected_ranking(nodes, accel.numa_node)
    &&& p.recommended_cpus@ == recommended_for(nodes, p.ranked_nodes@)
}

impl Placement {
    /// A human-readable verdict, because "distance: 21" means nothing to
    /// someone deciding whether to bother with `taskset`.
    pub fn verdict(&self) -> (v: &'static str)
        ensures
            v@ == verdict_text(self.ranked_nodes@),
    {
        if self.ranked_nodes.len() == 0 {
            "unknown: accelerator has no NUMA affinity reported"
        } else {
            let d = self.ranked_nodes[0].1;
            if d <= LOCAL_DISTANCE {
                "local: pin here, no cross-node hop"
            } else if d <= NEAR_DISTANCE {
                "near: one hop, acceptable for most training loads"
            } else {
                "far: cross-socket, expect a real bandwidth/latency tax"
            }
        }
    }
}

/// A copy of a CPU list.
fn copy_cpus(v: &Vec<u32>) -> (r: Vec<u32>)
    ensures
        r@ == v@,
{
    let mut r: Vec<u32> = Vec::new();
    let mut i: usize = 0;
    while i < v.len()
        invariant
            i <= v.len(),
            r@ == v@.take(i as int),
        decreases v.len() - i,
    {
        r.push(v[i]);
        i = i + 1;
        assert(r@ =~= v@.take(i as int));
    }
    assert(r@ =~= v@);
    r
}

/// Rank every NUMA node by distance to `accel`'s home node, and hand back
/// the CPU list of the winner. An accelerator that reports no NUMA
/// affinity gets an empty ranking and no CPUs: that is a distinct, honest
/// answer, not "assume everything is equally far".
pub fn recommend(topo: &Topology, accel: &AccelDevice) -> (p: Placement)
    ensures
        is_placement_for(topo.nodes@, accel@, p),
{
    let accelerator = accel.duplicate();
    match accel.numa_node {
        None => Placement { accelerator, ranked_nodes: Vec::new(), recommended_cpus: Vec::new() },
        Some(home) => {
            let ranked_nodes = rank_nodes(&topo.nodes, home);
            let recommended_cpus = if ranked_nodes.len() > 0 {
                match topo.nodes.get(&ranked_nodes[0].0) {
                    Some(n) => copy_cpus(&n.cpus),
                    None => Vec::new(),
                }
            } else {
                Vec::new()
            };
            Placement { accelerator, ranked_nodes, recommended_cpus }
        },
    }
}

/// Recommendations for every accelerator found on the machine, in scan
/// order.
pub fn recommend_all(topo: &Topology) -> (ps: Vec<Placement>)
    ensures
        ps.len() == topo.accelerators.len(),
        forall|i: int|
            0 <= i < ps.len() ==> is_placement_for(topo.nodes@, topo.accelerators@[i]@, #[trigger] ps@[i]),
{
    let mut ps: Vec<Placement> = Vec::new();
    let mut i: usize = 0;
    while i < topo.accelerators.len()
        invariant
            i <= topo.accelerators.len(),
            ps.len() == i,
            forall|j: int|
                0 <= j < i ==> is_placement_for(topo.nodes@, topo.accelerators@[j]@, #[trigger] ps@[j]),
        decreases topo.accelerators.len() - i,
    {
        let p = recommend(topo, &topo.accelerators[i]);
        ps.push(p);
        i = i + 1;
    }
    ps
}

/// The CPUs of `cpus` in non-decreasing order.
fn sort_cpu_list(cpus: &[u32]) -> (sorted: Vec<u32>)
    ensures
        sorted@ == sort_cpus(cpus@),
{
    let mut v: Vec<u32> = Vec::new();
    let mut i: usize = 0;
    while i < cpus.len()
        invariant
            i <= cpus.len(),
            v@ == sort_cpus(cpus@.take(i as int)),
        decreases cpus.len() - i,
    {
        let x = cpus[i];
        let mut pos: usize = 0;
        while pos < v.len() && v[pos] < x
            invariant
                pos <= v.len(),
                forall|j: int| 0 <= j < pos ==> v@[j] < x,
            decreases v.len() - pos,
        {
            pos = pos + 1;
        }
        proof {
            lemma_insert_sorted_at(v@, x, pos as int);
            assert(cpus@.take(i + 1).drop_last() =~= cpus@.take(i as int));
        }
        v.insert(pos, x);
        i = i + 1;
    }
    assert(cpus@.take(cpus.len() as int) =~= cpus@);
    v
}

/// A run as text: "5" for a single CPU, "0-3" for a range.
fn fmt_range(start: u32, end: u32) -> (s: String)
    ensures
        s@ == range_text((start, end)),
{
    let mut s = String::new();
    push_decimal(&mut s, start);
    if start != end {
        push_char(&mut s, '-');
        push_decimal(&mut s, end);
    }
    assert(s@ =~= range_text((start, end)));
    s
}

/// The text of all runs but the last, each followed by a comma.
spec fn runs_prefix(rs: Seq<(u32, u32)>) -> Seq<char> {
    if rs.len() <= 1 {
        Seq::empty()
    } else {
        join_ranges(rs.drop_last()) + seq![',']
    }
}

proof fn lemma_join_ranges_last(rs: Seq<(u32, u32)>)
    requires
        rs.len() >= 1,
    ensures
        join_ranges(rs) == runs_prefix(rs) + range_text(rs.last()),
{
    if rs.len() == 1 {
        assert(join_ranges(rs) =~= runs_prefix(rs) + range_text(rs.last()));
    }
}

/// Renders the CPU list as a `taskset -c` / `numactl --physcpubind` style
/// range string: the CPUs sorted and collapsed into runs, so that
/// [0, 1, 2, 3, 8, 9] reads "0-3,8-9".
pub fn cpulist_to_range_str(cpus: &[u32]) -> (s: String)
    ensures
        s@ == range_string(cpus@),
{
    if cpus.len() == 0 {
        return String::new();
    }
    let sorted = sort_cpu_list(cpus);
    let ghost t = sorted@;
    let mut out = String::new();
    let mut start = sorted[0];
    let mut prev = sorted[0];
    let ghost mut rs = cpu_runs(t.take(1));
    proof {
        assert(t.take(1).drop_last() =~= Seq::<u32>::empty());
        assert(cpu_runs(t.take(1).drop_last()).len() == 0);
        assert(t.take(1).last() == start);
        assert(rs =~= seq![(start, prev)]);
    }
    let mut i: usize = 1;
    while i < sorted.len()
        invariant
            1 <= i <= sorted.len(),
            t == sorted@,
            rs == cpu_runs(t.take(i as int)),
            rs.len() >= 1,
            rs.last() == (start, prev),
            out@ == runs_prefix(rs),
        decreases sorted.len() - i,
    {
        let c = sorted[i];
        let ghost old_rs = rs;
        proof {
            assert(t.take(i + 1).drop_last() =~= t.take(i as int));
            lemma_join_ranges_last(old_rs);
        }
        if prev < c && c - prev == 1 {
            prev = c;
            proof {
                rs = cpu_runs(t.take(i + 1));
                assert(rs.drop_last() =~= old_rs.drop_last());
            }
        } else {
            let piece = fmt_range(start, prev);
            out.append(piece.as_str());
            push_char(&mut out, ',');
            start = c;
            prev = c;
            proof {
                rs = cpu_runs(t.take(i + 1));
                assert(rs.drop_last() =~= old_rs);
                assert(out@ =~= runs_prefix(rs));
            }
        }
        i = i + 1;
    }
    let piece = fmt_range(start, prev);
    out.append(piece.as_str());
    proof {
        lemma_join_ranges_last(rs);
        assert(t.take(sorted.len() as int) =~= t);
    }
    out
}

} // verus!
