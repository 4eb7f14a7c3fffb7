//! The machine's topology as the kernel reports it: NUMA nodes with their
//! CPUs and SLIT distance rows, and the PCIe accelerators with their
//! reported NUMA affinity.
use std::collections::BTreeMap;
use vstd::prelude::*;

use crate::cpulist::{
    all_digits, cpulist_cpus, digits_value, lemma_digits_value_prefix, parse_u32, parse_u32_at,
    pieces_cpus, push_piece_cpus,
};
use crate::text::{
    char_is_whitespace, chars_of, is_digit, is_whitespace, nonempty_pieces, split_on,
    split_whitespace_all, starts_with, trim, trim_bounds, trimmed, whitespace_words,
};

verus! {

/// One NUMA node: which logical CPUs live on it, and its distance to every
/// other node (SLIT table, as exposed by the kernel).
#[derive(Debug, Clone)]
pub struct NumaNode {
    pub id: u32,
    pub cpus: Vec<u32>,
    /// distance[node_id] = relative memory-access cost, 10 == local
    pub distance: BTreeMap<u32, u32>,
}

/// A PCIe function that looks like it matters for AI workloads: GPUs,
/// other 3D/display controllers, and anything in the "processing
/// accelerator" PCI class (0x1200).
#[derive(Debug, Clone)]
pub struct AccelDevice {
    /// PCI address, e.g. "0000:41:00.0".
    pub bdf: String,
    pub class: String,
    pub numa_node: Option<u32>,
    pub vendor: String,
    pub device: String,
}

/// The abstract value of an [`AccelDevice`]: its text fields as character
/// sequences.
pub struct AccelDeviceView {
    pub bdf: Seq<char>,
    pub class: Seq<char>,
    pub numa_node: Option<u32>,
    pub vendor: Seq<char>,
    pub device: Seq<char>,
}

impl View for AccelDevice {
    type V = AccelDeviceView;

    open spec fn view(&self) -> AccelDeviceView {
        AccelDeviceView {
            bdf: self.bdf@,
            class: self.class@,
            numa_node: self.numa_node,
            vendor: self.vendor@,
            device: self.device@,
        }
    }
}

impl AccelDevice {
    /// A field-by-field copy of this device.
    pub fn duplicate(&self) -> (r: AccelDevice)
        ensures
            r@ == self@,
    {
        AccelDevice {
            bdf: self.bdf.clone(),
            class: self.class.clone(),
            numa_node: self.numa_node,
            vendor: self.vendor.clone(),
            device: self.device.clone(),
        }
    }
}

/// NUMA nodes keyed by node id, and the accelerators in scan order.
#[derive(Debug, Clone)]
pub struct Topology {
    pub nodes: BTreeMap<u32, NumaNode>,
    pub accelerators: Vec<AccelDevice>,
}

impl Default for Topology {
    /// The empty topology: no nodes, no accelerators.
    fn default() -> (t: Self)
        ensures
            t.nodes@ == Map::<u32, NumaNode>::empty(),
            t.accelerators@ == Seq::<AccelDevice>::empty(),
    {
        Topology { nodes: BTreeMap::new(), accelerators: Vec::new() }
    }
}

/// Whether the node stored under key `k` lists `cpu` among its CPUs.
pub open spec fn node_holds_cpu(nodes: Map<u32, NumaNode>, k: u32, cpu: u32) -> bool {
    nodes.contains_key(k) && nodes[k].cpus@.contains(cpu)
}

/// Whether `v` holds `x`.
fn vec_contains(v: &Vec<u32>, x: u32) -> (r: bool)
    ensures
        r == v@.contains(x),
{
    let mut i: usize = 0;
    while i < v.len()
        invariant
            i <= v.len(),
            forall|j: int| 0 <= j < i ==> v@[j] != x,
        decreases v.len() - i,
    {
        if v[i] == x {
            return true;
        }
        i = i + 1;
    }
    false
}

impl Topology {
    /// The id of the NUMA node that holds `cpu`. Nodes are consulted in
    /// increasing key order, so when several nodes list the same CPU the
    /// one with the smallest key answers.
    pub fn node_for_cpu(&self, cpu: u32) -> (res: Option<u32>)
        ensures
            res is None <==> !exists|k: u32| node_holds_cpu(self.nodes@, k, cpu),
            res matches Some(id) ==> exists|k: u32|
                {
                    &&& node_holds_cpu(self.nodes@, k, cpu)
                    &&& self.nodes@[k].id == id
                    &&& forall|k2: u32| #[trigger] node_holds_cpu(self.nodes@, k2, cpu) ==> k <= k2
                },
    {
        let mut best: Option<(u32, u32)> = None;
        for (k, n) in it: self.nodes.iter()
            invariant
                best matches Some(b) ==> {
                    &&& node_holds_cpu(self.nodes@, b.0, cpu)
                    &&& self.nodes@[b.0].id == b.1
                },
                forall|j: int|
                    0 <= j < it.index() && node_holds_cpu(self.nodes@, *it.seq()[j].0, cpu)
                        ==> (best matches Some(b) && b.0 <= *it.seq()[j].0),
        {
            if vec_contains(&n.cpus, cpu) {
                let better = match best {
                    None => true,
                    Some(b) => *k < b.0,
                };
                if better {
                    best = Some((*k, n.id));
                }
            }
        }
        match best {
            None => None,
            Some(b) => Some(b.1),
        }
    }
}

/// Parses a kernel cpulist like "0-3,8,10-11" into individual CPU ids.
/// Pieces that do not read as a CPU or a range of CPUs are skipped.
pub fn parse_cpulist(s: &str) -> (cpus: Vec<u32>)
    ensures
        cpus@ == cpulist_cpus(s@),
{
    let cs = chars_of(s);
    let (lo, hi) = trim_bounds(&cs);
    let ghost t = cs@.subrange(lo as int, hi as int);
    let mut out: Vec<u32> = Vec::new();
    let mut piece_start: usize = lo;
    let ghost mut done: Seq<Seq<char>> = Seq::empty();
    let mut i: usize = lo;
    assert(t.take(0) =~= Seq::<char>::empty());
    assert(cs@.subrange(lo as int, lo as int) =~= Seq::<char>::empty());
    while i < hi
        invariant
            lo <= piece_start <= i <= hi <= cs.len(),
            t == cs@.subrange(lo as int, hi as int),
            split_on(t.take(i - lo), ',') == done.push(cs@.subrange(piece_start as int, i as int)),
            out@ == pieces_cpus(done),
        decreases hi - i,
    {
        let ghost k = i - lo;
        assert(t.take(k + 1).drop_last() =~= t.take(k));
        assert(t.take(k + 1).last() == cs@[i as int]);
        if cs[i] == ',' {
            let ghost piece = cs@.subrange(piece_start as int, i as int);
            push_piece_cpus(&mut out, &cs, piece_start, i);
            proof {
                assert(pieces_cpus(done.push(piece)).len() >= 0);
                assert(done.push(piece).drop_last() =~= done);
                done = done.push(piece);
            }
            piece_start = i + 1;
            assert(cs@.subrange(piece_start as int, i + 1) =~= Seq::<char>::empty());
        } else {
            assert(cs@.subrange(piece_start as int, i + 1) =~= cs@.subrange(
                piece_start as int,
                i as int,
            ).push(cs@[i as int]));
        }
        i = i + 1;
    }
    let ghost last = cs@.subrange(piece_start as int, hi as int);
    push_piece_cpus(&mut out, &cs, piece_start, hi);
    proof {
        assert(t.take(hi - lo) =~= t);
        assert(done.push(last).drop_last() =~= done);
    }
    out
}

// ------------------------------------------------------ PCI class codes

/// `s` without any number of leading "0x" (`trim_start_matches("0x")`).
pub open spec fn strip_hex_prefixes(s: Seq<char>) -> Seq<char>
    decreases s.len(),
{
    if s.len() >= 2 && s[0] == '0' && s[1] == 'x' {
        strip_hex_prefixes(s.skip(2))
    } else {
        s
    }
}

/// PCI class codes worth flagging as "an AI workload probably cares about
/// this device": 0x03xx (display/3D controllers, i.e. GPUs) and 0x1200
/// (processing accelerators).
pub open spec fn accelerator_class(class_hex: Seq<char>) -> bool {
    let c = strip_hex_prefixes(class_hex);
    starts_with(c, seq!['0', '3']) || starts_with(c, seq!['1', '2', '0', '0'])
}

/// Whether `class_hex` is the class of a device an AI workload cares about
/// (see [`accelerator_class`]).
pub fn is_accelerator_class(class_hex: &str) -> (r: bool)
    ensures
        r == accelerator_class(class_hex@),
{
    let cs = chars_of(class_hex);
    let mut i: usize = 0;
    assert(cs@.skip(0) =~= cs@);
    while cs.len() - i >= 2 && cs[i] == '0' && cs[i + 1] == 'x'
        invariant
            i <= cs.len(),
            strip_hex_prefixes(cs@) == strip_hex_prefixes(cs@.skip(i as int)),
        decreases cs.len() - i,
    {
        let ghost u = cs@.skip(i as int);
        assert(u[0] == cs@[i as int] && u[1] == cs@[i + 1]);
        assert(u.skip(2) =~= cs@.skip(i + 2));
        i = i + 2;
    }
    let ghost c = cs@.skip(i as int);
    proof {
        if c.len() >= 2 {
            assert(c[0] == cs@[i as int] && c[1] == cs@[i + 1]);
        }
        assert(strip_hex_prefixes(c) == c);
    }
    let n = cs.len() - i;
    let gpu = n >= 2 && cs[i] == '0' && cs[i + 1] == '3';
    let accel = n >= 4 && cs[i] == '1' && cs[i + 1] == '2' && cs[i + 2] == '0' && cs[i + 3] == '0';
    proof {
        if n >= 2 {
            assert(gpu == (c.take(2) =~= seq!['0', '3']));
        }
        if n >= 4 {
            assert(accel == (c.take(4) =~= seq!['1', '2', '0', '0']));
        }
    }
    gpu || accel
}

// ------------------------------------------------------- NUMA node dirs

/// The node id named by a sysfs node directory name such as "node3".
pub open spec fn node_dir_id(name: Seq<char>) -> Option<u32> {
    if starts_with(name, seq!['n', 'o', 'd', 'e']) {
        parse_u32(name.skip(4))
    } else {
        None
    }
}

/// The node id of a sysfs node directory ("node<id>"), or `None` for any
/// other entry.
pub fn node_id_from_dir_name(name: &str) -> (r: Option<u32>)
    ensures
        r == node_dir_id(name@),
{
    let cs = chars_of(name);
    if cs.len() >= 4 && cs[0] == 'n' && cs[1] == 'o' && cs[2] == 'd' && cs[3] == 'e' {
        assert(cs@.take(4) =~= seq!['n', 'o', 'd', 'e']);
        assert(cs@.subrange(4, cs.len() as int) =~= cs@.skip(4));
        parse_u32_at(&cs, 4, cs.len())
    } else {
        proof {
            if cs.len() >= 4 {
                assert(cs@.take(4)[0] == cs@[0] && cs@.take(4)[1] == cs@[1]);
                assert(cs@.take(4)[2] == cs@[2] && cs@.take(4)[3] == cs@[3]);
                assert(seq!['n', 'o', 'd', 'e'][3] == 'e');
            }
        }
        None
    }
}

/// The SLIT row read from a node's `distance` file: the i-th word, when it
/// reads as a `u32`, is the distance to node `i` (the index cast to `u32`).
pub open spec fn distance_row(words: Seq<Seq<char>>) -> Map<u32, u32>
    decreases words.len(),
{
    if words.len() == 0 {
        Map::empty()
    } else {
        let m = distance_row(words.drop_last());
        match parse_u32(words.last()) {
            Some(d) => m.insert((words.len() - 1) as u32, d),
            None => m,
        }
    }
}

/// One more character of a text: how its whitespace-separated pieces
/// grow.
proof fn lemma_split_whitespace_step(cs: Seq<char>, i: int, start: int, done: Seq<Seq<char>>)
    requires
        0 <= start <= i < cs.len(),
        split_whitespace_all(cs.take(i)) == done.push(cs.subrange(start, i)),
    ensures
        is_whitespace(cs[i]) ==> split_whitespace_all(cs.take(i + 1)) == done.push(
            cs.subrange(start, i),
        ).push(cs.subrange(i + 1, i + 1)),
        !is_whitespace(cs[i]) ==> split_whitespace_all(cs.take(i + 1)) == done.push(
            cs.subrange(start, i + 1),
        ),
{
    assert(cs.take(i + 1).drop_last() =~= cs.take(i));
    assert(cs.take(i + 1).last() == cs[i]);
    assert(cs.subrange(i + 1, i + 1) =~= Seq::<char>::empty());
    assert(cs.subrange(start, i + 1) =~= cs.subrange(start, i).push(cs[i]));
    assert(done.push(cs.subrange(start, i + 1)) =~= done.push(cs.subrange(start, i)).update(
        done.len() as int,
        cs.subrange(start, i).push(cs[i]),
    ));
}

/// The words after one more piece, and the row they read as.
proof fn lemma_words_push(done: Seq<Seq<char>>, p: Seq<char>)
    ensures
        nonempty_pieces(done.push(p)) == (if p.len() > 0 {
            nonempty_pieces(done).push(p)
        } else {
            nonempty_pieces(done)
        }),
        p.len() > 0 ==> distance_row(nonempty_pieces(done).push(p)) == match parse_u32(p) {
            Some(d) => distance_row(nonempty_pieces(done)).insert(
                nonempty_pieces(done).len() as u32,
                d,
            ),
            None => distance_row(nonempty_pieces(done)),
        },
{
    assert(done.push(p).drop_last() =~= done);
    let w = nonempty_pieces(done);
    assert(w.push(p).drop_last() =~= w);
}

/// Records the word `cs[start..end]`, if it is one, as the next entry of
/// the row `m` being built from the words `ws` read so far.
fn record_word(
    m: &mut BTreeMap<u32, u32>,
    count: &mut usize,
    cs: &Vec<char>,
    start: usize,
    end: usize,
    Ghost(ws): Ghost<Seq<Seq<char>>>,
)
    requires
        start <= end <= cs.len(),
        *old(count) <= start,
        *old(count) == ws.len(),
        old(m)@ == distance_row(ws),
    ensures
        ({
            let p = cs@.subrange(start as int, end as int);
            let ws2 = if p.len() > 0 {
                ws.push(p)
            } else {
                ws
            };
            &&& final(m)@ == distance_row(ws2)
            &&& *final(count) == ws2.len()
            &&& *final(count) <= end
        }),
{
    let ghost p = cs@.subrange(start as int, end as int);
    if start < end {
        let d = parse_u32_at(cs, start, end);
        assert(ws.push(p).drop_last() =~= ws);
        match d {
            Some(d) => {
                m.insert(*count as u32, d);
            },
            None => {},
        }
        *count = *count + 1;
    }
}

/// Parses a node's SLIT row ("10 21 31 31") into node id -> distance.
pub fn parse_distance_row(s: &str) -> (m: BTreeMap<u32, u32>)
    ensures
        m@ == distance_row(whitespace_words(s@)),
{
    let cs = chars_of(s);
    let mut m: BTreeMap<u32, u32> = BTreeMap::new();
    let mut count: usize = 0;
    let mut start: usize = 0;
    let ghost mut done: Seq<Seq<char>> = Seq::empty();
    let mut i: usize = 0;
    assert(cs@.take(0) =~= Seq::<char>::empty());
    assert(cs@.subrange(0, 0) =~= Seq::<char>::empty());
    while i < cs.len()
        invariant
            start <= i <= cs.len(),
            split_whitespace_all(cs@.take(i as int)) == done.push(cs@.subrange(start as int, i as int)),
            count == nonempty_pieces(done).len(),
            count <= start,
            m@ == distance_row(nonempty_pieces(done)),
        decreases cs.len() - i,
    {
        proof {
            lemma_split_whitespace_step(cs@, i as int, start as int, done);
        }
        if char_is_whitespace(cs[i]) {
            let ghost piece = cs@.subrange(start as int, i as int);
            proof {
                lemma_words_push(done, piece);
            }
            record_word(&mut m, &mut count, &cs, start, i, Ghost(nonempty_pieces(done)));
            proof {
                done = done.push(piece);
            }
            start = i + 1;
        }
        i = i + 1;
    }
    let ghost piece = cs@.subrange(start as int, cs.len() as int);
    proof {
        lemma_words_push(done, piece);
    }
    record_word(&mut m, &mut count, &cs, start, cs.len(), Ghost(nonempty_pieces(done)));
    assert(cs@.take(cs.len() as int) =~= cs@);
    m
}

// --------------------------------------------------------- NUMA affinity

/// `s` read as a decimal `i64` the way `i64`'s `FromStr` reads it: an
/// optional sign, then one or more digits, the value within `i64`'s range.
pub open spec fn parse_i64(s: Seq<char>) -> Option<int> {
    let neg = s.len() > 0 && s[0] == '-';
    let d = if s.len() > 0 && (s[0] == '+' || s[0] == '-') {
        s.drop_first()
    } else {
        s
    };
    if d.len() > 0 && all_digits(d) && digits_value(d) <= (if neg {
        0x8000_0000_0000_0000int
    } else {
        0x7fff_ffff_ffff_ffffint
    }) {
        Some(
            if neg {
                -digits_value(d)
            } else {
                digits_value(d)
            },
        )
    } else {
        None
    }
}

/// The NUMA affinity a device's `numa_node` file reports: the trimmed
/// text read as an `i64`; a negative value (the kernel writes -1) means
/// none, a non-negative one is taken modulo 2^32 (cast to `u32`).
pub open spec fn numa_affinity(raw: Seq<char>) -> Option<u32> {
    match parse_i64(trim(raw)) {
        Some(v) => if v >= 0 {
            Some((v % 0x1_0000_0000) as u32)
        } else {
            None
        },
        None => None,
    }
}

/// Reads `cs[lo..hi]` as an `i64` (see [`parse_i64`]), as a sign and a
/// magnitude.
fn parse_i64_at(cs: &Vec<char>, lo: usize, hi: usize) -> (r: Option<(bool, u64)>)
    requires
        lo <= hi <= cs.len(),
    ensures
        match r {
            Some((neg, mag)) => parse_i64(cs@.subrange(lo as int, hi as int)) == Some(
                if neg {
                    -(mag as int)
                } else {
                    mag as int
                },
            ),
            None => parse_i64(cs@.subrange(lo as int, hi as int)) is None,
        },
{
    let ghost s = cs@.subrange(lo as int, hi as int);
    let neg = lo < hi && cs[lo] == '-';
    let mut start: usize = lo;
    if lo < hi && (cs[lo] == '+' || cs[lo] == '-') {
        start = start + 1;
    }
    let ghost d = cs@.subrange(start as int, hi as int);
    assert(d =~= if s.len() > 0 && (s[0] == '+' || s[0] == '-') {
        s.drop_first()
    } else {
        s
    });
    if start == hi {
        return None;
    }
    let limit: u64 = if neg {
        0x8000_0000_0000_0000u64
    } else {
        0x7fff_ffff_ffff_ffffu64
    };
    let mut acc: u64 = 0;
    let mut i: usize = start;
    while i < hi
        invariant
            start <= i <= hi <= cs.len(),
            d == cs@.subrange(start as int, hi as int),
            s == cs@.subrange(lo as int, hi as int),
            d == (if s.len() > 0 && (s[0] == '+' || s[0] == '-') {
                s.drop_first()
            } else {
                s
            }),
            neg == (s.len() > 0 && s[0] == '-'),
            limit == (if neg {
                0x8000_0000_0000_0000int
            } else {
                0x7fff_ffff_ffff_ffffint
            }),
            d.len() > 0,
            all_digits(d.take(i - start)),
            acc == digits_value(d.take(i - start)),
            acc <= limit,
        decreases hi - i,
    {
        let c = cs[i];
        let ghost k = i - start;
        if !('0' <= c && c <= '9') {
            assert(d[k] == c);
            assert(!all_digits(d));
            return None;
        }
        let v: u64 = ((c as u32) - 48) as u64;
        assert(d.take(k + 1).drop_last() =~= d.take(k));
        assert(d.take(k + 1).last() == c);
        assert(all_digits(d.take(k + 1))) by {
            assert forall|j: int| 0 <= j < k + 1 implies is_digit(#[trigger] d.take(k + 1)[j]) by {
                if j < k {
                    assert(d.take(k + 1)[j] == d.take(k)[j]);
                }
            }
        }
        if acc > (limit - v) / 10 {
            proof {
                assert(acc * 10 + v > limit) by (nonlinear_arith)
                    requires
                        acc > (limit - v) / 10,
                        v <= 9,
                        limit >= 9,
                ;
                if all_digits(d) {
                    lemma_digits_value_prefix(d, k + 1);
                }
            }
            return None;
        }
        assert(acc * 10 + v <= limit) by (nonlinear_arith)
            requires
                acc <= (limit - v) / 10,
                v <= 9,
                limit >= 9,
        ;
        acc = acc * 10 + v;
        i = i + 1;
    }
    assert(d.take(d.len() as int) =~= d);
    Some((neg, acc))
}

/// The NUMA affinity a device's `numa_node` file reports (see
/// [`numa_affinity`]).
pub fn numa_affinity_from_sysfs(raw: &str) -> (r: Option<u32>)
    ensures
        r == numa_affinity(raw@),
{
    let cs = chars_of(raw);
    let (lo, hi) = trim_bounds(&cs);
    match parse_i64_at(&cs, lo, hi) {
        Some((neg, mag)) => {
            if neg && mag != 0 {
                None
            } else if neg {
                Some(0)
            } else {
                Some((mag % 0x1_0000_0000u64) as u32)
            }
        },
        None => None,
    }
}

// ------------------------------------------------------ assembling a scan

/// A node as sysfs describes it: from its directory name, and the texts
/// of its `cpulist` and `distance` files where they could be read. Any
/// directory entry that is not "node<id>" describes no node.
pub fn numa_node_from_sysfs(dir_name: &str, cpulist: Option<&str>, distance: Option<&str>) -> (r:
    Option<NumaNode>)
    ensures
        match node_dir_id(dir_name@) {
            None => r is None,
            Some(id) => r matches Some(n) && {
                &&& n.id == id
                &&& n.cpus@ == match cpulist {
                    Some(c) => cpulist_cpus(trim(c@)),
                    None => Seq::empty(),
                }
                &&& n.distance@ == match distance {
                    Some(d) => distance_row(whitespace_words(trim(d@))),
                    None => Map::empty(),
                }
            },
        },
{
    let id = match node_id_from_dir_name(dir_name) {
        Some(id) => id,
        None => return None,
    };
    let cpus = match cpulist {
        Some(c) => {
            let t = trimmed(c);
            parse_cpulist(t.as_str())
        },
        None => Vec::new(),
    };
    let distance = match distance {
        Some(d) => {
            let t = trimmed(d);
            parse_distance_row(t.as_str())
        },
        None => BTreeMap::new(),
    };
    Some(NumaNode { id, cpus, distance })
}

/// The trimmed text of an optional file, or the empty text.
pub open spec fn trimmed_or_empty(t: Option<&str>) -> Seq<char> {
    match t {
        Some(t) => trim(t@),
        None => Seq::empty(),
    }
}

fn trimmed_or_default(t: Option<&str>) -> (r: String)
    ensures
        r@ == trimmed_or_empty(t),
{
    match t {
        Some(t) => trimmed(t),
        None => String::new(),
    }
}

/// A PCI function as sysfs describes it: from its address (the directory
/// name) and the texts of its `class`, `numa_node`, `vendor` and `device`
/// files where they could be read. Devices whose class is unreadable or
/// not an accelerator class are skipped.
pub fn accel_from_sysfs(
    bdf: &str,
    class: Option<&str>,
    numa_node: Option<&str>,
    vendor: Option<&str>,
    device: Option<&str>,
) -> (r: Option<AccelDevice>)
    ensures
        match class {
            None => r is None,
            Some(c) => if accelerator_class(trim(c@)) {
                r matches Some(a) && a@ == (AccelDeviceView {
                    bdf: bdf@,
                    class: trim(c@),
                    numa_node: match numa_node {
                        Some(n) => numa_affinity(n@),
                        None => None,
                    },
                    vendor: trimmed_or_empty(vendor),
                    device: trimmed_or_empty(device),
                })
            } else {
                r is None
            },
        },
{
    let class = match class {
        Some(c) => trimmed(c),
        None => return None,
    };
    if !is_accelerator_class(class.as_str()) {
        return None;
    }
    let numa_node = match numa_node {
        Some(n) => numa_affinity_from_sysfs(n),
        None => None,
    };
    Some(
        AccelDevice {
            bdf: bdf.to_owned(),
            class,
            numa_node,
            vendor: trimmed_or_default(vendor),
            device: trimmed_or_default(device),
        },
    )
}

/// Whether text `a` sorts strictly before text `b`: lexicographically by
/// code point, which is the order `str`'s `Ord` gives (UTF-8 byte order
/// and code point order agree).
pub open spec fn text_lt(a: Seq<char>, b: Seq<char>) -> bool
    decreases a.len(),
{
    if a.len() == 0 {
        b.len() > 0
    } else if b.len() == 0 {
        false
    } else if a[0] != b[0] {
        a[0] < b[0]
    } else {
        text_lt(a.drop_first(), b.drop_first())
    }
}

/// `s` with `x` inserted after every device whose address does not sort
/// after `x`'s.
pub open spec fn insert_by_bdf(s: Seq<AccelDevice>, x: AccelDevice) -> Seq<AccelDevice>
    decreases s.len(),
{
    if s.len() == 0 {
        seq![x]
    } else if text_lt(x.bdf@, s[0].bdf@) {
        seq![x] + s
    } else {
        seq![s[0]] + insert_by_bdf(s.drop_first(), x)
    }
}

/// The devices stably sorted by address: by address, devices with equal
/// addresses in their original order.
pub open spec fn sort_by_bdf(s: Seq<AccelDevice>) -> Seq<AccelDevice>
    decreases s.len(),
{
    if s.len() == 0 {
        Seq::empty()
    } else {
        insert_by_bdf(sort_by_bdf(s.drop_last()), s.last())
    }
}

proof fn lemma_insert_by_bdf_at(s: Seq<AccelDevice>, x: AccelDevice, pos: int)
    requires
        0 <= pos <= s.len(),
        forall|j: int| 0 <= j < pos ==> !text_lt(x.bdf@, #[trigger] s[j].bdf@),
        pos < s.len() ==> text_lt(x.bdf@, s[pos].bdf@),
    ensures
        insert_by_bdf(s, x) == s.insert(pos, x),
    decreases s.len(),
{
    if s.len() == 0 {
        assert(s.insert(pos, x) =~= seq![x]);
    } else if pos == 0 {
        assert(s.insert(pos, x) =~= seq![x] + s);
    } else {
        let r = s.drop_first();
        assert forall|j: int| 0 <= j < pos - 1 implies !text_lt(x.bdf@, #[trigger] r[j].bdf@) by {
            assert(r[j] == s[j + 1]);
        }
        assert(!text_lt(x.bdf@, s[0].bdf@));
        lemma_insert_by_bdf_at(r, x, pos - 1);
        assert(s.insert(pos, x) =~= seq![s[0]] + r.insert(pos - 1, x));
    }
}

/// No text sorts before itself.
pub proof fn lemma_text_lt_irreflexive(a: Seq<char>)
    ensures
        !text_lt(a, a),
    decreases a.len(),
{
    if a.len() > 0 {
        lemma_text_lt_irreflexive(a.drop_first());
    }
}

/// Sorting before is transitive.
pub proof fn lemma_text_lt_transitive(a: Seq<char>, b: Seq<char>, c: Seq<char>)
    requires
        text_lt(a, b),
        text_lt(b, c),
    ensures
        text_lt(a, c),
    decreases a.len(),
{
    if a.len() > 0 && b.len() > 0 && c.len() > 0 && a[0] == b[0] && b[0] == c[0] {
        lemma_text_lt_transitive(a.drop_first(), b.drop_first(), c.drop_first());
    }
}

/// Whether the devices are in address order (no device sorts before one
/// listed earlier).
pub open spec fn bdf_sorted(s: Seq<AccelDevice>) -> bool {
    forall|i: int, j: int| 0 <= i < j < s.len() ==> !text_lt(s[j].bdf@, s[i].bdf@)
}

/// Where `insert_by_bdf` puts `x`.
pub open spec fn bdf_insert_position(s: Seq<AccelDevice>, x: AccelDevice) -> int
    decreases s.len(),
{
    if s.len() == 0 || text_lt(x.bdf@, s[0].bdf@) {
        0
    } else {
        1 + bdf_insert_position(s.drop_first(), x)
    }
}

proof fn lemma_bdf_insert_position(s: Seq<AccelDevice>, x: AccelDevice)
    ensures
        0 <= bdf_insert_position(s, x) <= s.len(),
        forall|j: int|
            0 <= j < bdf_insert_position(s, x) ==> !text_lt(x.bdf@, #[trigger] s[j].bdf@),
        bdf_insert_position(s, x) < s.len() ==> text_lt(x.bdf@, s[bdf_insert_position(s, x)].bdf@),
    decreases s.len(),
{
    if s.len() > 0 && !text_lt(x.bdf@, s[0].bdf@) {
        let r = s.drop_first();
        lemma_bdf_insert_position(r, x);
        let p = bdf_insert_position(s, x);
        assert forall|j: int| 0 <= j < p implies !text_lt(x.bdf@, #[trigger] s[j].bdf@) by {
            if j > 0 {
                assert(s[j] == r[j - 1]);
            }
        }
        if p < s.len() {
            assert(s[p] == r[p - 1]);
        }
    }
}

/// Inserting `x` at its place in a list in address order keeps the list
/// in order.
proof fn lemma_insert_at_keeps_bdf_order(s: Seq<AccelDevice>, x: AccelDevice, p: int)
    requires
        bdf_sorted(s),
        0 <= p <= s.len(),
        forall|j: int| 0 <= j < p ==> !text_lt(x.bdf@, #[trigger] s[j].bdf@),
        p < s.len() ==> text_lt(x.bdf@, s[p].bdf@),
    ensures
        bdf_sorted(s.insert(p, x)),
{
    let t = s.insert(p, x);
    s.insert_ensures(p, x);
    assert forall|i: int, j: int| 0 <= i < j < t.len() implies !text_lt(t[j].bdf@, t[i].bdf@) by {
        if j < p {
        } else if i > p {
            assert(t[i] == s[i - 1] && t[j] == s[j - 1]);
        } else if i == p {
            assert(t[j] == s[j - 1]);
            if text_lt(s[j - 1].bdf@, x.bdf@) {
                if j - 1 > p {
                    lemma_text_lt_transitive(s[j - 1].bdf@, x.bdf@, s[p].bdf@);
                } else {
                    lemma_text_lt_transitive(x.bdf@, s[p].bdf@, x.bdf@);
                    lemma_text_lt_irreflexive(x.bdf@);
                }
            }
        } else if j == p {
            assert(t[i] == s[i]);
        } else {
            assert(t[i] == s[i] && t[j] == s[j - 1]);
        }
    }
}

/// Inserting into a list in address order keeps it in order and adds just
/// `x`.
proof fn lemma_insert_by_bdf(s: Seq<AccelDevice>, x: AccelDevice)
    requires
        bdf_sorted(s),
    ensures
        bdf_sorted(insert_by_bdf(s, x)),
        insert_by_bdf(s, x).to_multiset() == s.to_multiset().insert(x),
{
    let p = bdf_insert_position(s, x);
    lemma_bdf_insert_position(s, x);
    lemma_insert_by_bdf_at(s, x, p);
    lemma_insert_at_keeps_bdf_order(s, x, p);
    let t = s.insert(p, x);
    assert(t.to_multiset() =~= s.to_multiset().insert(x)) by {
        broadcast use vstd::seq_lib::group_to_multiset_ensures;

        s.insert_ensures(p, x);
        assert(t.remove(p) =~= s);
        assert(t[p] == x);
        assert(t.contains(x));
    }
}

/// `sort_by_bdf` sorts: its result is in address order and holds the same
/// devices, each as often, as its argument.
pub proof fn lemma_sort_by_bdf(s: Seq<AccelDevice>)
    ensures
        bdf_sorted(sort_by_bdf(s)),
        sort_by_bdf(s).to_multiset() == s.to_multiset(),
    decreases s.len(),
{
    broadcast use vstd::seq_lib::group_to_multiset_ensures;

    if s.len() == 0 {
        assert(sort_by_bdf(s) =~= Seq::<AccelDevice>::empty());
        assert(s =~= Seq::<AccelDevice>::empty());
    } else {
        let d = s.drop_last();
        lemma_sort_by_bdf(d);
        lemma_insert_by_bdf(sort_by_bdf(d), s.last());
        assert(d.push(s.last()) =~= s);
    }
}

/// Whether `a` sorts strictly before `b` (see [`text_lt`]).
fn text_less(a: &Vec<char>, b: &Vec<char>) -> (r: bool)
    ensures
        r == text_lt(a@, b@),
{
    let mut i: usize = 0;
    assert(a@.skip(0) =~= a@ && b@.skip(0) =~= b@);
    while i < a.len() && i < b.len() && a[i] == b[i]
        invariant
            i <= a.len() && i <= b.len(),
            text_lt(a@, b@) == text_lt(a@.skip(i as int), b@.skip(i as int)),
        decreases a.len() - i,
    {
        let ghost (x, y) = (a@.skip(i as int), b@.skip(i as int));
        assert(x[0] == a@[i as int] && y[0] == b@[i as int]);
        assert(x.drop_first() =~= a@.skip(i + 1) && y.drop_first() =~= b@.skip(i + 1));
        i = i + 1;
    }
    let ghost (x, y) = (a@.skip(i as int), b@.skip(i as int));
    if i < a.len() && i < b.len() {
        assert(x[0] == a@[i as int] && y[0] == b@[i as int]);
        a[i] < b[i]
    } else {
        i == a.len() && i < b.len()
    }
}

/// The keyed view of a list of nodes: each node under its id, a later node
/// replacing an earlier one with the same id.
pub open spec fn nodes_by_id(ns: Seq<NumaNode>) -> Map<u32, NumaNode>
    decreases ns.len(),
{
    if ns.len() == 0 {
        Map::empty()
    } else {
        nodes_by_id(ns.drop_last()).insert(ns.last().id, ns.last())
    }
}

/// Every scanned node is found under its id, and what is found under an
/// id is the last node scanned with that id.
pub proof fn lemma_nodes_by_id(ns: Seq<NumaNode>)
    ensures
        forall|i: int| 0 <= i < ns.len() ==> nodes_by_id(ns).contains_key(#[trigger] ns[i].id),
        forall|k: u32|
            #[trigger] nodes_by_id(ns).contains_key(k) ==> exists|i: int|
                {
                    &&& 0 <= i < ns.len()
                    &&& #[trigger] ns[i].id == k
                    &&& nodes_by_id(ns)[k] == ns[i]
                    &&& forall|j: int| i < j < ns.len() ==> ns[j].id != k
                },
    decreases ns.len(),
{
    if ns.len() > 0 {
        let d = ns.drop_last();
        lemma_nodes_by_id(d);
        let m = nodes_by_id(ns);
        let last = ns.last();
        assert forall|i: int| 0 <= i < ns.len() implies m.contains_key(#[trigger] ns[i].id) by {
            if i < ns.len() - 1 {
                assert(d[i] == ns[i]);
            }
        }
        assert forall|k: u32| #[trigger] m.contains_key(k) implies exists|i: int|
            {
                &&& 0 <= i < ns.len()
                &&& #[trigger] ns[i].id == k
                &&& m[k] == ns[i]
                &&& forall|j: int| i < j < ns.len() ==> ns[j].id != k
            } by {
            if k == last.id {
                let i = ns.len() - 1;
                assert(ns[i].id == k && m[k] == ns[i]);
            } else {
                assert(nodes_by_id(d).contains_key(k));
                let i = choose|i: int|
                    {
                        &&& 0 <= i < d.len()
                        &&& #[trigger] d[i].id == k
                        &&& nodes_by_id(d)[k] == d[i]
                        &&& forall|j: int| i < j < d.len() ==> d[j].id != k
                    };
                assert(ns[i] == d[i]);
                assert forall|j: int| i < j < ns.len() implies ns[j].id != k by {
                    if j < ns.len() - 1 {
                        assert(ns[j] == d[j]);
                    }
                }
                assert(ns[i].id == k);
            }
        }
    }
}

impl Topology {
    /// The topology made of scanned nodes and accelerators: nodes keyed by
    /// id, accelerators sorted by PCI address.
    pub fn from_scan(nodes: Vec<NumaNode>, accelerators: Vec<AccelDevice>) -> (t: Topology)
        ensures
            t.nodes@ == nodes_by_id(nodes@),
            t.accelerators@ == sort_by_bdf(accelerators@),
    {
        let ghost all_nodes = nodes@;
        let mut map: BTreeMap<u32, NumaNode> = BTreeMap::new();
        for n in it: nodes
            invariant
                it.seq() == all_nodes,
                map@ == nodes_by_id(all_nodes.take(it.index())),
        {
            let ghost idx = it.index();
            assert(all_nodes.take(idx + 1).drop_last() =~= all_nodes.take(idx));
            map.insert(n.id, n);
        }
        assert(all_nodes.take(all_nodes.len() as int) =~= all_nodes);
        let ghost all_accels = accelerators@;
        let mut sorted: Vec<AccelDevice> = Vec::new();
        for a in it: accelerators
            invariant
                it.seq() == all_accels,
                sorted@ == sort_by_bdf(all_accels.take(it.index())),
        {
            let ghost idx = it.index();
            let key = chars_of(a.bdf.as_str());
            let mut pos: usize = 0;
            while pos < sorted.len() && !text_less(&key, &chars_of(sorted[pos].bdf.as_str()))
                invariant
                    pos <= sorted.len(),
                    key@ == a.bdf@,
                    forall|j: int| 0 <= j < pos ==> !text_lt(a.bdf@, #[trigger] sorted@[j].bdf@),
                decreases sorted.len() - pos,
            {
                pos = pos + 1;
            }
            proof {
                lemma_insert_by_bdf_at(sorted@, a, pos as int);
                assert(all_accels.take(idx + 1).drop_last() =~= all_accels.take(idx));
            }
            sorted.insert(pos, a);
        }
        assert(all_accels.take(all_accels.len() as int) =~= all_accels);
        Topology { nodes: map, accelerators: sorted }
    }
}

} // verus!
