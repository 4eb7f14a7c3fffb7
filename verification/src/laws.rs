//! What holds of the library across its functions.
use vstd::prelude::*;

use crate::cpulist::{
    canonical_runs, cpu_runs, cpulist_cpus, expand_runs, is_sorted, join_ranges,
    lemma_cpu_runs_expand, lemma_cpulist_of_joined, lemma_expand_canonical, lemma_sort_cpus,
    lemma_sorted_unique, range_string, sort_cpus,
};
use crate::advisor::{
    expected_ranking, key_distance, lemma_rank_order_exists, rank_order,
    recommended_for, ranking, slit_distance, verdict_text, LOCAL_DISTANCE,
};
use crate::cpulist::{all_digits, digits_value, inclusive_range, lemma_decimal, parse_u32};
use crate::text::{decimal, is_digit, is_whitespace, lemma_trim_idempotent, trim, trim_end, trim_start};
use crate::topology::{
    accelerator_class, node_dir_id, numa_affinity, text_lt,
    bdf_sorted, lemma_nodes_by_id, lemma_sort_by_bdf, nodes_by_id, sort_by_bdf, AccelDevice, NumaNode,
};

verus! {

/// A range string, read back as a kernel cpulist, names exactly the CPUs
/// it was rendered from, in sorted order: what `cpulist_to_range_str`
/// prints can be handed to anything that reads cpulists (`taskset -c`,
/// `numactl --physcpubind`, `parse_cpulist`) without losing or adding a
/// CPU. The CPUs come back in increasing order, each as often as it was
/// given.
pub proof fn law_range_string_reads_back(cpus: Seq<u32>)
    ensures
        cpulist_cpus(range_string(cpus)) == sort_cpus(cpus),
        is_sorted(cpulist_cpus(range_string(cpus))),
        cpulist_cpus(range_string(cpus)).to_multiset() == cpus.to_multiset(),
{
    lemma_sort_cpus(cpus);
    let t = sort_cpus(cpus);
    let rs = cpu_runs(t);
    lemma_cpu_runs_expand(t);
    lemma_cpulist_of_joined(rs);
}

/// The range string of a CPU list does not depend on the order in which
/// the CPUs are listed, only on which CPUs are listed and how often.
pub proof fn law_range_string_ignores_order(a: Seq<u32>, b: Seq<u32>)
    requires
        a.to_multiset() == b.to_multiset(),
    ensures
        range_string(a) == range_string(b),
{
    lemma_sort_cpus(a);
    lemma_sort_cpus(b);
    lemma_sorted_unique(sort_cpus(a), sort_cpus(b));
}

/// The ranking lists every node exactly once, as its id and its SLIT
/// distance to the home node, nearest first; so its first entry is at
/// least as near as any node.
pub proof fn law_ranking_nearest_first(nodes: Map<u32, NumaNode>, home: u32)
    requires
        nodes.dom().finite(),
    ensures
        ranking(nodes, home).len() == nodes.dom().len(),
        forall|i: int|
            0 <= i < ranking(nodes, home).len() ==> {
                let k = rank_order(nodes, home)[i];
                &&& nodes.contains_key(k)
                &&& #[trigger] ranking(nodes, home)[i] == (
                    nodes[k].id,
                    slit_distance(nodes, home, nodes[k].id),
                )
            },
        forall|i: int, j: int|
            0 <= i <= j < ranking(nodes, home).len() ==> #[trigger] ranking(nodes, home)[i].1
                <= #[trigger] ranking(nodes, home)[j].1,
        forall|k: u32|
            #[trigger] nodes.contains_key(k) ==> ranking(nodes, home).len() > 0 && ranking(
                nodes,
                home,
            )[0].1 <= key_distance(nodes, home, k),
{
    lemma_rank_order_exists(nodes, home);
    let ks = rank_order(nodes, home);
    let r = ranking(nodes, home);
    assert(ks.no_duplicates()) by {
        assert forall|i: int, j: int| 0 <= i < ks.len() && 0 <= j < ks.len() && i != j implies ks[i]
            != ks[j] by {
            if i < j {
                assert(crate::advisor::ranks_before(nodes, home, ks[i], ks[j]));
            } else {
                assert(crate::advisor::ranks_before(nodes, home, ks[j], ks[i]));
            }
        }
    }
    ks.unique_seq_to_set();
    assert(ks.to_set() =~= nodes.dom());
    assert forall|i: int, j: int| 0 <= i <= j < r.len() implies #[trigger] r[i].1 <= #[trigger] r[j].1 by {
        if i < j {
            assert(crate::advisor::ranks_before(nodes, home, ks[i], ks[j]));
        }
    }
    assert forall|k: u32| #[trigger] nodes.contains_key(k) implies r.len() > 0 && r[0].1
        <= key_distance(nodes, home, k) by {
        assert(ks.contains(k));
        let i = choose|i: int| 0 <= i < ks.len() && ks[i] == k;
        assert(r[0].1 <= r[i].1);
    }
}

/// When the accelerator's home node is stored under its own id and is
/// strictly nearer to itself than every other node, the home node ranks
/// first and its CPUs are the ones recommended; and when its SLIT entry for
/// itself is the local distance (10), the verdict is "local".
pub proof fn law_home_node_ranks_first(nodes: Map<u32, NumaNode>, home: u32)
    requires
        nodes.dom().finite(),
        nodes.contains_key(home),
        nodes[home].id == home,
        forall|k: u32|
            #[trigger] nodes.contains_key(k) && k != home ==> key_distance(nodes, home, k)
                > key_distance(nodes, home, home),
    ensures
        ranking(nodes, home)[0] == (home, slit_distance(nodes, home, home)),
        recommended_for(nodes, ranking(nodes, home)) == nodes[home].cpus@,
        slit_distance(nodes, home, home) <= LOCAL_DISTANCE ==> verdict_text(ranking(nodes, home))
            == "local: pin here, no cross-node hop"@,
{
    law_ranking_nearest_first(nodes, home);
    let ks = rank_order(nodes, home);
    let r = ranking(nodes, home);
    assert(nodes.contains_key(home));
    assert(r.len() > 0);
    let k0 = ks[0];
    assert(nodes.contains_key(k0));
    if k0 != home {
        assert(r[0].1 <= key_distance(nodes, home, home));
        assert(false);
    }
}

/// An accelerator that reports no NUMA affinity gets no ranking, no CPUs,
/// and the "unknown" verdict, whatever the machine looks like.
pub proof fn law_no_affinity_is_unknown(nodes: Map<u32, NumaNode>)
    ensures
        expected_ranking(nodes, None) == Seq::<(u32, u32)>::empty(),
        recommended_for(nodes, expected_ranking(nodes, None)) == Seq::<u32>::empty(),
        verdict_text(expected_ranking(nodes, None))
            == "unknown: accelerator has no NUMA affinity reported"@,
{
}

/// A scanned topology lists its accelerators in PCI address order and
/// loses or adds none; every scanned node is found under its id, holding
/// the last node scanned with that id.
pub proof fn law_scan_is_ordered_and_complete(ns: Seq<NumaNode>, accels: Seq<AccelDevice>)
    ensures
        bdf_sorted(sort_by_bdf(accels)),
        sort_by_bdf(accels).to_multiset() == accels.to_multiset(),
        forall|i: int| 0 <= i < ns.len() ==> nodes_by_id(ns).contains_key(#[trigger] ns[i].id),
        forall|k: u32|
            #[trigger] nodes_by_id(ns).contains_key(k) ==> exists|i: int|
                {
                    &&& 0 <= i < ns.len()
                    &&& #[trigger] ns[i].id == k
                    &&& nodes_by_id(ns)[k] == ns[i]
                    &&& forall|j: int| i < j < ns.len() ==> ns[j].id != k
                },
{
    lemma_sort_by_bdf(accels);
    lemma_nodes_by_id(ns);
}

/// Whitespace around a cpulist (the newline that ends a sysfs file)
/// changes nothing about what it reads as.
pub proof fn law_cpulist_ignores_surrounding_whitespace(s: Seq<char>)
    ensures
        cpulist_cpus(trim(s)) == cpulist_cpus(s),
{
    lemma_trim_idempotent(s);
}

/// A cpulist in the kernel's canonical form ("0-3,8-9": runs in
/// increasing order, none mergeable with the next, each written "a" or
/// "a-b" with `a < b`, numbers in plain decimal), parsed and rendered again,
/// comes back as the same text.
pub proof fn law_canonical_cpulist_round_trips(rs: Seq<(u32, u32)>)
    requires
        canonical_runs(rs),
    ensures
        range_string(cpulist_cpus(join_ranges(rs))) == join_ranges(rs),
{
    lemma_cpulist_of_joined(rs);
    lemma_expand_canonical(rs);
    let t = expand_runs(rs);
    lemma_sort_cpus(t);
    lemma_sorted_unique(sort_cpus(t), t);
}

// ------------------------------------------------------------ sysfs texts

/// Which PCI classes are accelerators: any class whose hex digits begin
/// with "03" (display/3D controllers of every subclass: VGA, 3D, other)
/// or with "1200" (processing accelerators), whatever follows; any number
/// of leading "0x" is skipped; nothing else is an accelerator.
pub proof fn law_accelerator_classes(t: Seq<char>)
    ensures
        accelerator_class(seq!['0', '3'] + t),
        accelerator_class(seq!['1', '2', '0', '0'] + t),
        accelerator_class(seq!['0', 'x'] + t) == accelerator_class(t),
        !(t.len() >= 2 && t[0] == '0' && (t[1] == 'x' || t[1] == '3')) && !(t.len() >= 4
            && t.take(4) == seq!['1', '2', '0', '0']) ==> !accelerator_class(t),
{
    let g = seq!['0', '3'] + t;
    assert(g[0] == '0' && g[1] == '3');
    assert(g.take(2) =~= seq!['0', '3']);
    let a = seq!['1', '2', '0', '0'] + t;
    assert(a[0] == '1');
    assert(a.take(4) =~= seq!['1', '2', '0', '0']);
    let x = seq!['0', 'x'] + t;
    assert(x[0] == '0' && x[1] == 'x');
    assert(x.skip(2) =~= t);
    if t.len() >= 2 && t.take(2) == seq!['0', '3'] {
        assert(t[0] == t.take(2)[0] && t[1] == t.take(2)[1]);
    }
}

/// Digits are not whitespace.
proof fn lemma_digits_not_whitespace(d: Seq<char>)
    requires
        all_digits(d),
    ensures
        forall|i: int| 0 <= i < d.len() ==> !is_whitespace(#[trigger] d[i]),
{
    assert forall|i: int| 0 <= i < d.len() implies !is_whitespace(#[trigger] d[i]) by {
        assert(is_digit(d[i]));
    }
}

/// What a `numa_node` file reads as: a non-negative number written in
/// decimal is that node (taken modulo 2^32, as `as u32` does), whether or
/// not the kernel's trailing newline follows; a negative number (the
/// kernel writes -1) is no affinity.
pub proof fn law_numa_affinity_reads_decimal(n: nat)
    requires
        n <= 0x7fff_ffff_ffff_ffff,
    ensures
        numa_affinity(decimal(n)) == Some((n % 0x1_0000_0000) as u32),
        numa_affinity(decimal(n).push('\n')) == Some((n % 0x1_0000_0000) as u32),
        n > 0 ==> numa_affinity(seq!['-'] + decimal(n)) is None,
        n < 0x1_0000_0000 ==> numa_affinity(decimal(n)) == Some(n as u32),
{
    lemma_decimal(n);
    let d = decimal(n);
    lemma_digits_not_whitespace(d);
    crate::cpulist::lemma_trim_unchanged(d);
    assert(is_digit(d[0]));
    // With a trailing newline.
    let dn = d.push('\n');
    assert(dn[0] == d[0]);
    assert(trim_start(dn) == dn);
    assert(dn.drop_last() =~= d);
    assert(trim_end(d) == d) by {
        assert(!is_whitespace(d[d.len() - 1]));
    }
    assert(trim(dn) == d);
    // With a minus sign.
    let m = seq!['-'] + d;
    assert(m[0] == '-');
    assert forall|i: int| 0 <= i < m.len() implies !is_whitespace(#[trigger] m[i]) by {
        if i > 0 {
            assert(m[i] == d[i - 1]);
            assert(is_digit(d[i - 1]));
        }
    }
    crate::cpulist::lemma_trim_unchanged(m);
    assert(m.drop_first() =~= d);
}

/// Every node directory "node<n>" names node `n`; a name that does not
/// begin with "node" names no node.
pub proof fn law_node_directories(n: u32, name: Seq<char>)
    ensures
        node_dir_id(seq!['n', 'o', 'd', 'e'] + decimal(n as nat)) == Some(n),
        !(name.len() >= 4 && name.take(4) == seq!['n', 'o', 'd', 'e']) ==> node_dir_id(name) is None,
{
    crate::cpulist::lemma_parse_decimal(n);
    let s = seq!['n', 'o', 'd', 'e'] + decimal(n as nat);
    assert(s.take(4) =~= seq!['n', 'o', 'd', 'e']);
    assert(s.skip(4) =~= decimal(n as nat));
}

/// The order in which PCI addresses are sorted is `str`'s: `a` sorts
/// before `b` exactly when `a` is a proper prefix of `b`, or at the first
/// position where they differ `a`'s character is the smaller.
pub proof fn law_address_order(a: Seq<char>, b: Seq<char>)
    ensures
        text_lt(a, b) <==> ((a.len() < b.len() && b.take(a.len() as int) == a) || exists|i: int|
            0 <= i < a.len() && i < b.len() && a.take(i) == b.take(i) && #[trigger] a[i] < b[i]),
    decreases a.len(),
{
    if a.len() == 0 {
        assert(b.take(0) =~= a);
    } else if b.len() == 0 {
    } else if a[0] != b[0] {
        if a[0] < b[0] {
            assert(a.take(0) =~= b.take(0));
            assert(0 < a.len() && 0 < b.len() && a.take(0) == b.take(0) && a[0] < b[0]);
        } else {
            if a.len() < b.len() && b.take(a.len() as int) == a {
                assert(b.take(a.len() as int)[0] == b[0]);
            }
            if exists|i: int|
                0 <= i < a.len() && i < b.len() && a.take(i) == b.take(i) && #[trigger] a[i] < b[i] {
                let i = choose|i: int|
                    0 <= i < a.len() && i < b.len() && a.take(i) == b.take(i) && #[trigger] a[i]
                        < b[i];
                if i > 0 {
                    assert(a.take(i)[0] == a[0] && b.take(i)[0] == b[0]);
                }
            }
        }
    } else {
        let a1 = a.drop_first();
        let b1 = b.drop_first();
        law_address_order(a1, b1);
        // Prefix case.
        if a.len() < b.len() && b.take(a.len() as int) == a {
            assert(b1.take(a1.len() as int) =~= a1) by {
                assert forall|k: int| 0 <= k < a1.len() implies b1.take(a1.len() as int)[k]
                    == a1[k] by {
                    assert(b.take(a.len() as int)[k + 1] == a[k + 1]);
                }
            }
        }
        if a1.len() < b1.len() && b1.take(a1.len() as int) == a1 {
            assert(b.take(a.len() as int) =~= a) by {
                assert forall|k: int| 0 <= k < a.len() implies b.take(a.len() as int)[k]
                    == a[k] by {
                    if k > 0 {
                        assert(b1.take(a1.len() as int)[k - 1] == a1[k - 1]);
                    }
                }
            }
        }
        // First-difference case.
        if exists|i: int|
            0 <= i < a.len() && i < b.len() && a.take(i) == b.take(i) && #[trigger] a[i] < b[i] {
            let i = choose|i: int|
                0 <= i < a.len() && i < b.len() && a.take(i) == b.take(i) && #[trigger] a[i] < b[i];
            assert(i > 0);
            assert(a1.take(i - 1) =~= b1.take(i - 1)) by {
                assert forall|k: int| 0 <= k < i - 1 implies #[trigger] a1.take(i - 1)[k] == b1.take(
                    i - 1,
                )[k] by {
                    assert(a.take(i)[k + 1] == b.take(i)[k + 1]);
                }
            }
            assert(a1[i - 1] == a[i] && b1[i - 1] == b[i]);
        }
        if exists|i: int|
            0 <= i < a1.len() && i < b1.len() && a1.take(i) == b1.take(i) && #[trigger] a1[i]
                < b1[i] {
            let i = choose|i: int|
                0 <= i < a1.len() && i < b1.len() && a1.take(i) == b1.take(i) && #[trigger] a1[i]
                    < b1[i];
            assert(a.take(i + 1) =~= b.take(i + 1)) by {
                assert forall|k: int| 0 <= k < i + 1 implies #[trigger] a.take(i + 1)[k] == b.take(i + 1)[k] by {
                    if k > 0 {
                        assert(a1.take(i)[k - 1] == b1.take(i)[k - 1]);
                    }
                }
            }
            assert(a[i + 1] == a1[i] && b[i + 1] == b1[i]);
        }
    }
}

/// How a CPU number is read: its plain decimal text, with or without a
/// leading `+` or leading zeros, reads as that number; the empty text, a
/// lone `+`, a negative number and a number above `u32::MAX` read as
/// nothing.
pub proof fn law_cpu_numbers(n: u32, big: nat)
    requires
        big > u32::MAX,
    ensures
        parse_u32(decimal(n as nat)) == Some(n),
        parse_u32(seq!['+'] + decimal(n as nat)) == Some(n),
        parse_u32(seq!['0'] + decimal(n as nat)) == Some(n),
        parse_u32(Seq::empty()) is None,
        parse_u32(seq!['+']) is None,
        parse_u32(seq!['-'] + decimal(n as nat)) is None,
        parse_u32(decimal(big)) is None,
{
    lemma_decimal(n as nat);
    lemma_decimal(big);
    let d = decimal(n as nat);
    assert(is_digit(d[0]));
    assert(is_digit(decimal(big)[0]));
    let p = seq!['+'] + d;
    assert(p[0] == '+');
    assert(p.drop_first() =~= d);
    let z = seq!['0'] + d;
    assert(z[0] == '0');
    assert(all_digits(z)) by {
        assert forall|i: int| 0 <= i < z.len() implies is_digit(#[trigger] z[i]) by {
            if i > 0 {
                assert(z[i] == d[i - 1]);
            }
        }
    }
    lemma_leading_zero_value(d);
    let m = seq!['-'] + d;
    assert(m[0] == '-');
    assert(!is_digit(m[0]));
    assert(!all_digits(m));
    assert(seq!['+'].drop_first() =~= Seq::<char>::empty());
}

/// A leading zero does not change what digits are worth.
proof fn lemma_leading_zero_value(d: Seq<char>)
    ensures
        digits_value(seq!['0'] + d) == digits_value(d),
    decreases d.len(),
{
    let z = seq!['0'] + d;
    if d.len() == 0 {
        assert(z.drop_last() =~= Seq::<char>::empty());
        assert(z.last() == '0');
        assert(crate::text::digit_value('0') == 0);
        assert(digits_value(z.drop_last()) == 0);
    } else {
        lemma_leading_zero_value(d.drop_last());
        assert(z.drop_last() =~= seq!['0'] + d.drop_last());
        assert(z.last() == d.last());
    }
}

/// The text "a-b" reads as `inclusive_range(a, b)`.
proof fn lemma_dash_text(a: u32, b: u32)
    ensures
        cpulist_cpus(decimal(a as nat) + seq!['-'] + decimal(b as nat)) == inclusive_range(a, b),
{
    lemma_decimal(a as nat);
    lemma_decimal(b as nat);
    let da = decimal(a as nat);
    let db = decimal(b as nat);
    let p = da + seq!['-'] + db;
    assert forall|i: int| 0 <= i < p.len() implies !is_whitespace(#[trigger] p[i]) && p[i] != ',' by {
        if i < da.len() {
            assert(p[i] == da[i]);
            assert(is_digit(da[i]));
        } else if i > da.len() {
            assert(p[i] == db[i - da.len() - 1]);
            assert(is_digit(db[i - da.len() - 1]));
        }
    }
    crate::cpulist::lemma_trim_unchanged(p);
    crate::cpulist::lemma_split_single(p, ',');
    crate::text::lemma_first_index_of(p, '-');
    let m = da.len() as int;
    assert(p[m] == '-');
    match crate::text::first_index_of(p, '-') {
        Some(i) => {
            if i < m {
                assert(p[i] == da[i]);
                assert(is_digit(da[i]));
            }
        },
        None => {},
    }
    assert(p.take(m) =~= da);
    assert(p.skip(m + 1) =~= db);
    crate::cpulist::lemma_parse_decimal(a);
    crate::cpulist::lemma_parse_decimal(b);
    assert(seq![p].drop_last() =~= Seq::<Seq<char>>::empty());
    assert(seq![p].last() == p);
    assert(crate::cpulist::pieces_cpus(seq![p].drop_last()) =~= Seq::<u32>::empty());
    assert(crate::cpulist::pieces_cpus(seq![p]) =~= crate::cpulist::piece_cpus(p));
}

/// A cpulist range "a-b" names the CPUs a, a + 1, ..., b, and nothing when
/// `a > b`; a single number "a" names just `a`.
pub proof fn law_cpulist_ranges(a: u32, b: u32)
    ensures
        a <= b ==> {
            let cpus = cpulist_cpus(decimal(a as nat) + seq!['-'] + decimal(b as nat));
            &&& cpus.len() == b - a + 1
            &&& forall|i: int| 0 <= i < cpus.len() ==> #[trigger] cpus[i] == a + i
        },
        a > b ==> cpulist_cpus(decimal(a as nat) + seq!['-'] + decimal(b as nat)).len() == 0,
        cpulist_cpus(decimal(a as nat)) == seq![a],
{
    lemma_dash_text(a, b);
    let rs1 = seq![(a, a)];
    assert(rs1[0] == (a, a));
    assert(crate::cpulist::runs_ordered(rs1));
    lemma_cpulist_of_joined(rs1);
    assert(rs1.drop_last() =~= Seq::<(u32, u32)>::empty());
    assert(expand_runs(rs1.drop_last()) =~= Seq::<u32>::empty());
    assert(inclusive_range(a, a) =~= seq![a]);
    assert(expand_runs(rs1) =~= seq![a]);
}

/// Which characters are trimmed: exactly those with Unicode's White_Space
/// property (tab through carriage return, space, next line, no-break
/// space, ogham space mark, the spaces U+2000 to U+200A, line and
/// paragraph separators, narrow no-break space, medium mathematical space,
/// ideographic space).
pub proof fn law_whitespace_set(c: char, s: Seq<char>)
    ensures
        (('\u{9}' <= c && c <= '\u{d}') || c == ' ' || c == '\u{85}' || c == '\u{a0}' || c
            == '\u{1680}' || ('\u{2000}' <= c && c <= '\u{200a}') || c == '\u{2028}' || c
            == '\u{2029}' || c == '\u{202f}' || c == '\u{205f}' || c == '\u{3000}') ==> trim_start(
            seq![c] + s,
        ) == trim_start(s),
        !(('\u{9}' <= c && c <= '\u{d}') || c == ' ' || c == '\u{85}' || c == '\u{a0}' || c
            == '\u{1680}' || ('\u{2000}' <= c && c <= '\u{200a}') || c == '\u{2028}' || c
            == '\u{2029}' || c == '\u{202f}' || c == '\u{205f}' || c == '\u{3000}') ==> trim_start(
            seq![c] + s,
        ) == seq![c] + s,
{
    let t = seq![c] + s;
    assert(t[0] == c);
    assert(t.drop_first() =~= s);
}

/// The verdict goes by the distance of the nearest node: up to 10 is
/// local, 11 to 20 is one hop, above 20 is cross-socket; no ranking at all
/// is unknown.
pub proof fn law_verdict_thresholds(ranked: Seq<(u32, u32)>)
    ensures
        ranked.len() == 0 ==> verdict_text(ranked)
            == "unknown: accelerator has no NUMA affinity reported"@,
        ranked.len() > 0 && ranked[0].1 <= 10 ==> verdict_text(ranked)
            == "local: pin here, no cross-node hop"@,
        ranked.len() > 0 && 10 < ranked[0].1 <= 20 ==> verdict_text(ranked)
            == "near: one hop, acceptable for most training loads"@,
        ranked.len() > 0 && ranked[0].1 > 20 ==> verdict_text(ranked)
            == "far: cross-socket, expect a real bandwidth/latency tax"@,
{
}

/// Distances come from the home node's SLIT row; where the row is missing
/// or has no entry, the home node itself counts as local (10) and any other
/// node as unreachable (255).
pub proof fn law_slit_fallbacks(nodes: Map<u32, NumaNode>, home: u32, id: u32)
    ensures
        nodes.contains_key(home) && nodes[home].distance@.contains_key(id) ==> slit_distance(
            nodes,
            home,
            id,
        ) == nodes[home].distance@[id],
        !(nodes.contains_key(home) && nodes[home].distance@.contains_key(id)) ==> slit_distance(
            nodes,
            home,
            id,
        ) == (if id == home {
            10u32
        } else {
            255u32
        }),
{
}

} // verus!
