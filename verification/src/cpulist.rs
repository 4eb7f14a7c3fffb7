//! The kernel's cpulist notation ("0-3,8,10-11"): what a list of CPUs
//! renders to, and what a cpulist string reads as.
use vstd::prelude::*;

use crate::text::{decimal, digit_char, digit_value, is_whitespace, find_char, first_index_of, is_digit, split_on, trim};

verus! {

// ---------------------------------------------------------------- sorting

/// `s` with `x` inserted before the first element that is not smaller
/// than `x`.
pub open spec fn insert_sorted(s: Seq<u32>, x: u32) -> Seq<u32>
    decreases s.len(),
{
    if s.len() == 0 {
        seq![x]
    } else if x <= s[0] {
        seq![x] + s
    } else {
        seq![s[0]] + insert_sorted(s.drop_first(), x)
    }
}

/// The elements of `s` in non-decreasing order (duplicates kept).
pub open spec fn sort_cpus(s: Seq<u32>) -> Seq<u32>
    decreases s.len(),
{
    if s.len() == 0 {
        Seq::empty()
    } else {
        insert_sorted(sort_cpus(s.drop_last()), s.last())
    }
}

/// Whether `s` is in non-decreasing order.
pub open spec fn is_sorted(s: Seq<u32>) -> bool {
    forall|i: int, j: int| 0 <= i <= j < s.len() ==> s[i] <= s[j]
}

// ------------------------------------------------------------ rendering

/// The maximal runs of consecutive values in `s`, read left to right: a
/// value that is one more than the end of the current run extends it,
/// any other value starts a new run.
pub open spec fn cpu_runs(s: Seq<u32>) -> Seq<(u32, u32)>
    decreases s.len(),
{
    if s.len() == 0 {
        Seq::empty()
    } else {
        let r = cpu_runs(s.drop_last());
        let c = s.last();
        if r.len() > 0 && c == r.last().1 + 1 {
            r.update(r.len() - 1, (r.last().0, c))
        } else {
            r.push((c, c))
        }
    }
}

/// A run as text: "a" when it holds one value, "a-b" otherwise.
pub open spec fn range_text(r: (u32, u32)) -> Seq<char> {
    if r.0 == r.1 {
        decimal(r.0 as nat)
    } else {
        decimal(r.0 as nat) + seq!['-'] + decimal(r.1 as nat)
    }
}

/// The runs as text, separated by commas.
pub open spec fn join_ranges(rs: Seq<(u32, u32)>) -> Seq<char>
    decreases rs.len(),
{
    if rs.len() == 0 {
        Seq::empty()
    } else if rs.len() == 1 {
        range_text(rs[0])
    } else {
        join_ranges(rs.drop_last()) + seq![','] + range_text(rs.last())
    }
}

/// The range string of a CPU list: its CPUs sorted, collapsed into runs,
/// e.g. [3, 1, 2, 0, 8, 9] renders as "0-3,8-9".
pub open spec fn range_string(cpus: Seq<u32>) -> Seq<char> {
    join_ranges(cpu_runs(sort_cpus(cpus)))
}

// -------------------------------------------------------------- parsing

/// The value of a sequence of decimal digits.
pub open spec fn digits_value(d: Seq<char>) -> int
    decreases d.len(),
{
    if d.len() == 0 {
        0
    } else {
        digits_value(d.drop_last()) * 10 + digit_value(d.last())
    }
}

/// Whether every character of `d` is a decimal digit.
pub open spec fn all_digits(d: Seq<char>) -> bool {
    forall|i: int| 0 <= i < d.len() ==> is_digit(#[trigger] d[i])
}

/// `s` read as an unsigned decimal number the way `u32`'s `FromStr` reads
/// it: an optional `+`, then one or more digits, the value at most
/// `u32::MAX`.
pub open spec fn parse_u32(s: Seq<char>) -> Option<u32> {
    let d = if s.len() > 0 && s[0] == '+' {
        s.drop_first()
    } else {
        s
    };
    if d.len() > 0 && all_digits(d) && digits_value(d) <= u32::MAX {
        Some(digits_value(d) as u32)
    } else {
        None
    }
}

/// `a, a + 1, ..., b` (empty when `a > b`).
pub open spec fn inclusive_range(a: u32, b: u32) -> Seq<u32> {
    Seq::new(if a <= b { (b - a + 1) as nat } else { 0 }, |i: int| (a + i) as u32)
}

/// The CPUs one comma-separated piece names: "a-b" (split at the first
/// `-`) names `a..=b`, "a" names `a`; anything that does not read as that
/// names nothing.
pub open spec fn piece_cpus(p: Seq<char>) -> Seq<u32> {
    match first_index_of(p, '-') {
        Some(i) => match (parse_u32(p.take(i)), parse_u32(p.skip(i + 1))) {
            (Some(a), Some(b)) => inclusive_range(a, b),
            _ => Seq::empty(),
        },
        None => match parse_u32(p) {
            Some(v) => seq![v],
            None => Seq::empty(),
        },
    }
}

/// The CPUs of all pieces, in order.
pub open spec fn pieces_cpus(ps: Seq<Seq<char>>) -> Seq<u32>
    decreases ps.len(),
{
    if ps.len() == 0 {
        Seq::empty()
    } else {
        pieces_cpus(ps.drop_last()) + piece_cpus(ps.last())
    }
}

/// What a kernel cpulist such as "0-3,8,10-11" reads as: the string
/// trimmed of whitespace, split at commas, each piece read on its own.
pub open spec fn cpulist_cpus(s: Seq<char>) -> Seq<u32> {
    pieces_cpus(split_on(trim(s), ','))
}

// ----------------------------------------------------- executable parts

/// A prefix of a digit string is worth no more than the whole of it.
pub proof fn lemma_digits_value_prefix(d: Seq<char>, k: int)
    requires
        all_digits(d),
        0 <= k <= d.len(),
    ensures
        0 <= digits_value(d.take(k)) <= digits_value(d),
    decreases d.len(),
{
    if k == d.len() {
        assert(d.take(k) =~= d);
        lemma_digits_value_nonneg(d);
    } else {
        let r = d.drop_last();
        assert forall|i: int| 0 <= i < r.len() implies is_digit(#[trigger] r[i]) by {
            assert(r[i] == d[i]);
        }
        lemma_digits_value_prefix(r, k);
        assert(r.take(k) =~= d.take(k));
        assert(is_digit(d[d.len() - 1]));
    }
}

/// Digit strings have non-negative values.
pub proof fn lemma_digits_value_nonneg(d: Seq<char>)
    requires
        all_digits(d),
    ensures
        digits_value(d) >= 0,
    decreases d.len(),
{
    if d.len() > 0 {
        let r = d.drop_last();
        assert forall|i: int| 0 <= i < r.len() implies is_digit(#[trigger] r[i]) by {
            assert(r[i] == d[i]);
        }
        lemma_digits_value_nonneg(r);
        assert(is_digit(d[d.len() - 1]));
    }
}

/// Reads `cs[lo..hi]` as a `u32` (see [`parse_u32`]).
pub fn parse_u32_at(cs: &Vec<char>, lo: usize, hi: usize) -> (r: Option<u32>)
    requires
        lo <= hi <= cs.len(),
    ensures
        r == parse_u32(cs@.subrange(lo as int, hi as int)),
{
    let ghost s = cs@.subrange(lo as int, hi as int);
    let mut start: usize = lo;
    if start < hi && cs[start] == '+' {
        start = start + 1;
    }
    let ghost d = cs@.subrange(start as int, hi as int);
    assert(d =~= if s.len() > 0 && s[0] == '+' {
        s.drop_first()
    } else {
        s
    });
    if start == hi {
        return None;
    }
    let mut acc: u64 = 0;
    let mut i: usize = start;
    while i < hi
        invariant
            start <= i <= hi <= cs.len(),
            d == cs@.subrange(start as int, hi as int),
            s == cs@.subrange(lo as int, hi as int),
            d == (if s.len() > 0 && s[0] == '+' {
                s.drop_first()
            } else {
                s
            }),
            d.len() > 0,
            all_digits(d.take(i - start)),
            acc == digits_value(d.take(i - start)),
            acc <= u32::MAX,
        decreases hi - i,
    {
        let c = cs[i];
        let ghost k = i - start;
        if !('0' <= c && c <= '9') {
            assert(d[k] == c);
            assert(!all_digits(d));
            return None;
        }
        let v: u32 = (c as u32) - 48;
        assert(d.take(k + 1).drop_last() =~= d.take(k));
        assert(d.take(k + 1).last() == c);
        acc = acc * 10 + (v as u64);
        assert(all_digits(d.take(k + 1))) by {
            assert forall|j: int| 0 <= j < k + 1 implies is_digit(#[trigger] d.take(k + 1)[j]) by {
                if j < k {
                    assert(d.take(k + 1)[j] == d.take(k)[j]);
                }
            }
        }
        if acc > 4294967295u64 {
            proof {
                if all_digits(d) {
                    lemma_digits_value_prefix(d, k + 1);
                }
            }
            return None;
        }
        i = i + 1;
    }
    assert(d.take(d.len() as int) =~= d);
    Some(acc as u32)
}

/// Appends `a, a + 1, ..., b` to `out`.
fn push_inclusive_range(out: &mut Vec<u32>, a: u32, b: u32)
    ensures
        final(out)@ == old(out)@ + inclusive_range(a, b),
{
    let mut v: u64 = a as u64;
    while v <= b as u64
        invariant
            a <= v <= b as u64 + 1 || (v == a && a > b),
            out@ == old(out)@ + inclusive_range(a, b).take(v - a),
        decreases b as u64 + 1 - v,
    {
        let ghost before = out@;
        out.push(v as u32);
        v = v + 1;
        assert(out@ =~= old(out)@ + inclusive_range(a, b).take(v - a));
    }
    assert(inclusive_range(a, b).take(v - a) =~= inclusive_range(a, b));
}

/// Appends the CPUs that the piece `cs[lo..hi]` names (see
/// [`piece_cpus`]).
pub fn push_piece_cpus(out: &mut Vec<u32>, cs: &Vec<char>, lo: usize, hi: usize)
    requires
        lo <= hi <= cs.len(),
    ensures
        final(out)@ == old(out)@ + piece_cpus(cs@.subrange(lo as int, hi as int)),
{
    let ghost p = cs@.subrange(lo as int, hi as int);
    proof {
        crate::text::lemma_first_index_of(p, '-');
    }
    match find_char(cs, lo, hi, '-') {
        Some(off) => {
            let m = lo + off;
            assert(p.take(off as int) =~= cs@.subrange(lo as int, m as int));
            assert(p.skip(off + 1) =~= cs@.subrange(m + 1, hi as int));
            let a = parse_u32_at(cs, lo, m);
            let b = parse_u32_at(cs, m + 1, hi);
            match (a, b) {
                (Some(a), Some(b)) => push_inclusive_range(out, a, b),
                _ => {
                    assert(out@ =~= old(out)@ + piece_cpus(p));
                },
            }
        },
        None => {
            match parse_u32_at(cs, lo, hi) {
                Some(v) => {
                    out.push(v);
                    assert(out@ =~= old(out)@ + piece_cpus(p));
                },
                None => {
                    assert(out@ =~= old(out)@ + piece_cpus(p));
                },
            }
        },
    }
}

// ------------------------------------------------ reading back a rendering

/// Every character of the decimal spelling of `n` is a digit, and the
/// digits are worth `n`.
pub proof fn lemma_decimal(n: nat)
    ensures
        decimal(n).len() > 0,
        all_digits(decimal(n)),
        digits_value(decimal(n)) == n,
    decreases n,
{
    if n < 10 {
        let d = decimal(n);
        assert(d.drop_last() =~= Seq::<char>::empty());
        assert(digit_char(n as int) as int == 48 + n);
        assert(is_digit(d[0]));
        assert(digits_value(d.drop_last()) == 0);
    } else {
        lemma_decimal(n / 10);
        let d = decimal(n);
        let p = decimal(n / 10);
        assert(d.drop_last() =~= p);
        assert forall|i: int| 0 <= i < d.len() implies is_digit(#[trigger] d[i]) by {
            if i < p.len() {
                assert(d[i] == p[i]);
            }
        }
        assert(digit_char((n % 10) as int) as int == 48 + n % 10);
        assert(n == (n / 10) * 10 + n % 10) by (nonlinear_arith);
    }
}

/// A `u32`'s decimal spelling reads back as that `u32`.
pub proof fn lemma_parse_decimal(n: u32)
    ensures
        parse_u32(decimal(n as nat)) == Some(n),
{
    lemma_decimal(n as nat);
    assert(is_digit(decimal(n as nat)[0]));
}

/// Every character of a run's text is a digit or `-`.
pub open spec fn range_chars_only(s: Seq<char>) -> bool {
    forall|i: int| 0 <= i < s.len() ==> is_digit(#[trigger] s[i]) || s[i] == '-'
}

/// A run's text reads back as the run.
pub proof fn lemma_piece_of_range_text(a: u32, b: u32)
    requires
        a <= b,
    ensures
        piece_cpus(range_text((a, b))) == inclusive_range(a, b),
        range_chars_only(range_text((a, b))),
        range_text((a, b)).len() > 0,
{
    lemma_decimal(a as nat);
    lemma_decimal(b as nat);
    lemma_parse_decimal(a);
    lemma_parse_decimal(b);
    let da = decimal(a as nat);
    let db = decimal(b as nat);
    let p = range_text((a, b));
    crate::text::lemma_first_index_of(p, '-');
    if a == b {
        if let Some(i) = first_index_of(p, '-') {
            assert(is_digit(da[i]));
        }
        assert(inclusive_range(a, b) =~= seq![a]);
    } else {
        let m = da.len() as int;
        assert(p[m] == '-');
        match first_index_of(p, '-') {
            Some(i) => {
                if i < m {
                    assert(p[i] == da[i]);
                    assert(is_digit(da[i]));
                }
                assert(i == m);
            },
            None => {},
        }
        assert(p.take(m) =~= da);
        assert(p.skip(m + 1) =~= db);
        assert forall|i: int| 0 <= i < p.len() implies is_digit(#[trigger] p[i]) || p[i] == '-' by {
            if i < m {
                assert(p[i] == da[i]);
            } else if i > m {
                assert(p[i] == db[i - m - 1]);
            }
        }
    }
}

/// The values that a list of runs spans, run after run.
pub open spec fn expand_runs(rs: Seq<(u32, u32)>) -> Seq<u32>
    decreases rs.len(),
{
    if rs.len() == 0 {
        Seq::empty()
    } else {
        expand_runs(rs.drop_last()) + inclusive_range(rs.last().0, rs.last().1)
    }
}

/// Every run has its start no later than its end.
pub open spec fn runs_ordered(rs: Seq<(u32, u32)>) -> bool {
    forall|i: int| 0 <= i < rs.len() ==> (#[trigger] rs[i]).0 <= rs[i].1
}

/// Collapsing a list into runs loses nothing: the runs span exactly the
/// list, in order.
pub proof fn lemma_cpu_runs_expand(t: Seq<u32>)
    ensures
        runs_ordered(cpu_runs(t)),
        expand_runs(cpu_runs(t)) == t,
    decreases t.len(),
{
    if t.len() > 0 {
        let u = t.drop_last();
        lemma_cpu_runs_expand(u);
        let r = cpu_runs(u);
        let c = t.last();
        let rs = cpu_runs(t);
        if r.len() > 0 && c == r.last().1 + 1 {
            let (a, b) = r.last();
            assert(rs.drop_last() =~= r.drop_last());
            assert(inclusive_range(a, c) =~= inclusive_range(a, b).push(c));
            assert(expand_runs(r) == expand_runs(r.drop_last()) + inclusive_range(a, b));
            assert(expand_runs(rs) =~= expand_runs(r).push(c));
            assert(t =~= u.push(c));
        } else {
            assert(rs.drop_last() =~= r);
            assert(inclusive_range(c, c) =~= seq![c]);
            assert(t =~= u.push(c));
        }
    }
}

/// A text without the separator is one piece.
pub proof fn lemma_split_single(y: Seq<char>, sep: char)
    requires
        forall|i: int| 0 <= i < y.len() ==> y[i] != sep,
    ensures
        split_on(y, sep) == seq![y],
    decreases y.len(),
{
    if y.len() == 0 {
        assert(y =~= Seq::<char>::empty());
    } else {
        let u = y.drop_last();
        lemma_split_single(u, sep);
        assert(y.last() == y[y.len() - 1]);
        assert(u.push(y.last()) =~= y);
        assert(split_on(y, sep) =~= seq![y]);
    }
}

/// Appending a separator and a text without separators adds one piece.
pub proof fn lemma_split_append(x: Seq<char>, y: Seq<char>, sep: char)
    requires
        forall|i: int| 0 <= i < y.len() ==> y[i] != sep,
    ensures
        split_on(x.push(sep) + y, sep) == split_on(x, sep).push(y),
    decreases y.len(),
{
    if y.len() == 0 {
        assert(x.push(sep) + y =~= x.push(sep));
        assert((x.push(sep)).drop_last() =~= x);
        assert(y =~= Seq::<char>::empty());
    } else {
        let u = y.drop_last();
        lemma_split_append(x, u, sep);
        let w = x.push(sep) + y;
        assert(w.drop_last() =~= x.push(sep) + u);
        assert(w.last() == y.last());
        assert(y.last() == y[y.len() - 1]);
        assert(u.push(y.last()) =~= y);
        assert(split_on(w, sep) =~= split_on(x, sep).push(y));
    }
}

/// Joined run texts split back at the commas into the run texts.
pub proof fn lemma_split_join_ranges(rs: Seq<(u32, u32)>)
    requires
        rs.len() > 0,
        runs_ordered(rs),
    ensures
        split_on(join_ranges(rs), ',') == rs.map_values(|r: (u32, u32)| range_text(r)),
        forall|i: int|
            0 <= i < join_ranges(rs).len() ==> !is_whitespace(#[trigger] join_ranges(rs)[i]),
    decreases rs.len(),
{
    let last = rs.last();
    assert(rs[rs.len() - 1] == last);
    lemma_piece_of_range_text(last.0, last.1);
    let y = range_text(last);
    assert forall|i: int| 0 <= i < y.len() implies y[i] != ',' by {
        assert(is_digit(y[i]) || y[i] == '-');
    }
    if rs.len() == 1 {
        lemma_split_single(y, ',');
        assert(rs.map_values(|r: (u32, u32)| range_text(r)) =~= seq![y]);
        assert forall|i: int| 0 <= i < join_ranges(rs).len() implies !is_whitespace(
            #[trigger] join_ranges(rs)[i],
        ) by {
            assert(is_digit(y[i]) || y[i] == '-');
        }
    } else {
        let q = rs.drop_last();
        assert forall|i: int| 0 <= i < q.len() implies (#[trigger] q[i]).0 <= q[i].1 by {
            assert(q[i] == rs[i]);
        }
        lemma_split_join_ranges(q);
        let x = join_ranges(q);
        assert(join_ranges(rs) == x + seq![','] + y);
        assert(x + seq![','] + y =~= x.push(',') + y);
        lemma_split_append(x, y, ',');
        assert(rs.map_values(|r: (u32, u32)| range_text(r)) =~= q.map_values(
            |r: (u32, u32)| range_text(r),
        ).push(y));
        let j = join_ranges(rs);
        assert forall|i: int| 0 <= i < j.len() implies !is_whitespace(#[trigger] j[i]) by {
            if i < x.len() {
                assert(j[i] == x[i]);
            } else if i > x.len() {
                assert(j[i] == y[i - x.len() - 1]);
                assert(is_digit(y[i - x.len() - 1]) || y[i - x.len() - 1] == '-');
            }
        }
    }
}

/// Reading the run texts one by one gives back what the runs span.
pub proof fn lemma_pieces_of_runs(rs: Seq<(u32, u32)>)
    requires
        runs_ordered(rs),
    ensures
        pieces_cpus(rs.map_values(|r: (u32, u32)| range_text(r))) == expand_runs(rs),
    decreases rs.len(),
{
    if rs.len() > 0 {
        let q = rs.drop_last();
        assert forall|i: int| 0 <= i < q.len() implies (#[trigger] q[i]).0 <= q[i].1 by {
            assert(q[i] == rs[i]);
        }
        lemma_pieces_of_runs(q);
        let ps = rs.map_values(|r: (u32, u32)| range_text(r));
        assert(ps.drop_last() =~= q.map_values(|r: (u32, u32)| range_text(r)));
        assert(rs[rs.len() - 1] == rs.last());
        lemma_piece_of_range_text(rs.last().0, rs.last().1);
    }
}

/// A text that neither starts nor ends with whitespace is its own trim.
pub proof fn lemma_trim_unchanged(s: Seq<char>)
    requires
        forall|i: int| 0 <= i < s.len() ==> !is_whitespace(#[trigger] s[i]),
    ensures
        trim(s) == s,
{
    if s.len() > 0 {
        assert(!is_whitespace(s[0]));
        assert(!is_whitespace(s[s.len() - 1]));
    }
}

/// Inserting `x` at `pos`, the first place whose element is not smaller
/// than `x`, is what `insert_sorted` does.
pub proof fn lemma_insert_sorted_at(s: Seq<u32>, x: u32, pos: int)
    requires
        0 <= pos <= s.len(),
        forall|j: int| 0 <= j < pos ==> s[j] < x,
        pos < s.len() ==> x <= s[pos],
    ensures
        insert_sorted(s, x) == s.insert(pos, x),
    decreases s.len(),
{
    if s.len() == 0 {
        assert(s.insert(pos, x) =~= seq![x]);
    } else if pos == 0 {
        assert(s.insert(pos, x) =~= seq![x] + s);
    } else {
        let r = s.drop_first();
        assert forall|j: int| 0 <= j < pos - 1 implies r[j] < x by {
            assert(r[j] == s[j + 1]);
        }
        lemma_insert_sorted_at(r, x, pos - 1);
        assert(s.insert(pos, x) =~= seq![s[0]] + r.insert(pos - 1, x));
    }
}

/// Where `insert_sorted` puts `x`: before the first element that is not
/// smaller than it.
pub open spec fn insert_position(s: Seq<u32>, x: u32) -> int
    decreases s.len(),
{
    if s.len() == 0 || x <= s[0] {
        0
    } else {
        1 + insert_position(s.drop_first(), x)
    }
}

/// Inserting into a sorted list keeps it sorted and adds just `x`.
pub proof fn lemma_insert_sorted(s: Seq<u32>, x: u32)
    requires
        is_sorted(s),
    ensures
        is_sorted(insert_sorted(s, x)),
        insert_sorted(s, x).to_multiset() == s.to_multiset().insert(x),
    decreases s.len(),
{
    broadcast use vstd::seq_lib::group_to_multiset_ensures;

    let p = insert_position(s, x);
    lemma_insert_position(s, x);
    lemma_insert_sorted_at(s, x, p);
    let t = s.insert(p, x);
    s.insert_ensures(p, x);
    assert forall|i: int, j: int| 0 <= i <= j < t.len() implies t[i] <= t[j] by {
        if i < p && j > p {
            assert(t[j] == s[j - 1]);
        } else if i > p {
            assert(t[i] == s[i - 1] && t[j] == s[j - 1]);
        } else if i < p && j < p {
        } else if i == p && j > p {
            assert(t[j] == s[j - 1]);
        }
    }
    assert(t.remove(p) =~= s);
    assert(t.to_multiset().count(x) > 0) by {
        assert(t[p] == x);
        assert(t.contains(x));
    }
    assert(t.to_multiset() =~= s.to_multiset().insert(x));
}

proof fn lemma_insert_position(s: Seq<u32>, x: u32)
    requires
        is_sorted(s),
    ensures
        0 <= insert_position(s, x) <= s.len(),
        forall|j: int| 0 <= j < insert_position(s, x) ==> s[j] < x,
        insert_position(s, x) < s.len() ==> x <= s[insert_position(s, x)],
    decreases s.len(),
{
    if s.len() > 0 && !(x <= s[0]) {
        let r = s.drop_first();
        assert forall|i: int, j: int| 0 <= i <= j < r.len() implies r[i] <= r[j] by {
            assert(r[i] == s[i + 1] && r[j] == s[j + 1]);
        }
        lemma_insert_position(r, x);
        let p = insert_position(s, x);
        assert forall|j: int| 0 <= j < p implies s[j] < x by {
            if j > 0 {
                assert(s[j] == r[j - 1]);
            }
        }
        if p < s.len() {
            assert(s[p] == r[p - 1]);
        }
    }
}

/// `sort_cpus` sorts: its result is in order and holds the same CPUs, each
/// as often, as its argument.
pub proof fn lemma_sort_cpus(s: Seq<u32>)
    ensures
        is_sorted(sort_cpus(s)),
        sort_cpus(s).to_multiset() == s.to_multiset(),
    decreases s.len(),
{
    broadcast use vstd::seq_lib::group_to_multiset_ensures;

    if s.len() == 0 {
        assert(sort_cpus(s) =~= Seq::<u32>::empty());
        assert(s =~= Seq::<u32>::empty());
    } else {
        let d = s.drop_last();
        lemma_sort_cpus(d);
        lemma_insert_sorted(sort_cpus(d), s.last());
        assert(d.push(s.last()) =~= s);
    }
}

/// Two sorted lists that hold the same values, each as often, are equal.
pub proof fn lemma_sorted_unique(a: Seq<u32>, b: Seq<u32>)
    requires
        is_sorted(a),
        is_sorted(b),
        a.to_multiset() == b.to_multiset(),
    ensures
        a == b,
    decreases a.len(),
{
    broadcast use vstd::seq_lib::group_to_multiset_ensures;

    assert(a.len() == a.to_multiset().len());
    assert(b.len() == b.to_multiset().len());
    if a.len() == 0 {
        assert(a =~= b);
    } else {
        assert(a.contains(a[0]));
        assert(b.contains(b[0]));
        assert(a.to_multiset().count(a[0]) > 0);
        assert(b.to_multiset().count(b[0]) > 0);
        assert(b.contains(a[0]));
        assert(a.contains(b[0]));
        let i = choose|i: int| 0 <= i < a.len() && a[i] == b[0];
        let j = choose|j: int| 0 <= j < b.len() && b[j] == a[0];
        assert(a[0] <= a[i]);
        assert(b[0] <= b[j]);
        assert(a[0] == b[0]);
        let a1 = a.remove(0);
        let b1 = b.remove(0);
        assert(a1.to_multiset() =~= a.to_multiset().remove(a[0]));
        assert(b1.to_multiset() =~= b.to_multiset().remove(b[0]));
        assert forall|p: int, q: int| 0 <= p <= q < a1.len() implies a1[p] <= a1[q] by {
            assert(a1[p] == a[p + 1] && a1[q] == a[q + 1]);
        }
        assert forall|p: int, q: int| 0 <= p <= q < b1.len() implies b1[p] <= b1[q] by {
            assert(b1[p] == b[p + 1] && b1[q] == b[q + 1]);
        }
        lemma_sorted_unique(a1, b1);
        assert forall|k: int| 0 <= k < a.len() implies a[k] == b[k] by {
            if k > 0 {
                assert(a[k] == a1[k - 1] && b[k] == b1[k - 1]);
            }
        }
        assert(a =~= b);
    }
}

/// Runs as the kernel writes a cpulist: each with its start no later than
/// its end, each starting more than one past the end of any run before it
/// (so no two runs could be merged and they are in increasing order).
pub open spec fn canonical_runs(rs: Seq<(u32, u32)>) -> bool {
    &&& runs_ordered(rs)
    &&& forall|i: int, j: int| 0 <= i < j < rs.len() ==> #[trigger] rs[i].1 + 1 < #[trigger] rs[j].0
}

/// Appending the values `a..=c` to a list whose last run does not end at
/// `a - 1` adds the run `(a, c)`.
proof fn lemma_runs_extend(x: Seq<u32>, a: u32, c: u32)
    requires
        a <= c,
        cpu_runs(x).len() == 0 || cpu_runs(x).last().1 + 1 != a,
    ensures
        cpu_runs(x + inclusive_range(a, c)) == cpu_runs(x).push((a, c)),
    decreases c - a,
{
    if c == a {
        let y = x + inclusive_range(a, c);
        assert(y =~= x.push(a));
        assert(y.drop_last() =~= x);
    } else {
        let c1 = (c - 1) as u32;
        lemma_runs_extend(x, a, c1);
        let y = x + inclusive_range(a, c1);
        let z = x + inclusive_range(a, c);
        assert(z =~= y.push(c));
        assert(z.drop_last() =~= y);
        assert(cpu_runs(z) =~= cpu_runs(x).push((a, c)));
    }
}

/// The values spanned by canonical runs are in increasing order, bounded
/// by the end of the last run, and collapse back into the same runs.
pub proof fn lemma_expand_canonical(rs: Seq<(u32, u32)>)
    requires
        canonical_runs(rs),
    ensures
        is_sorted(expand_runs(rs)),
        rs.len() > 0 ==> forall|i: int|
            0 <= i < expand_runs(rs).len() ==> #[trigger] expand_runs(rs)[i] <= rs.last().1,
        cpu_runs(expand_runs(rs)) == rs,
    decreases rs.len(),
{
    if rs.len() == 0 {
        assert(cpu_runs(Seq::<u32>::empty()) =~= rs);
    } else {
        let q = rs.drop_last();
        assert forall|i: int| 0 <= i < q.len() implies (#[trigger] q[i]).0 <= q[i].1 by {
            assert(q[i] == rs[i]);
        }
        assert forall|i: int, j: int| 0 <= i < j < q.len() implies #[trigger] q[i].1 + 1
            < #[trigger] q[j].0 by {
            assert(q[i] == rs[i] && q[j] == rs[j]);
        }
        lemma_expand_canonical(q);
        let x = expand_runs(q);
        let last = rs.last();
        assert(rs[rs.len() - 1] == last);
        let (a, b) = last;
        assert(a <= b);
        if q.len() > 0 {
            assert(q.last() == rs[q.len() - 1]);
            assert(rs[q.len() - 1].1 + 1 < rs[rs.len() - 1].0);
        }
        lemma_runs_extend(x, a, b);
        assert(q.push(last) =~= rs);
        let e = expand_runs(rs);
        let r = inclusive_range(a, b);
        assert(e == x + r);
        assert forall|i: int| 0 <= i < e.len() implies #[trigger] e[i] <= b by {
            if i >= x.len() {
                assert(e[i] == r[i - x.len()]);
            } else {
                assert(e[i] == x[i]);
            }
        }
        assert forall|i: int, j: int| 0 <= i <= j < e.len() implies e[i] <= e[j] by {
            if j < x.len() {
                assert(e[i] == x[i] && e[j] == x[j]);
            } else if i >= x.len() {
                assert(e[i] == r[i - x.len()] && e[j] == r[j - x.len()]);
            } else {
                assert(e[i] == x[i] && x[i] <= q.last().1);
                assert(e[j] == r[j - x.len()]);
            }
        }
    }
}

/// Joined run texts read back as the values the runs span.
pub proof fn lemma_cpulist_of_joined(rs: Seq<(u32, u32)>)
    requires
        runs_ordered(rs),
    ensures
        cpulist_cpus(join_ranges(rs)) == expand_runs(rs),
{
    let j = join_ranges(rs);
    if rs.len() == 0 {
        assert(j =~= Seq::<char>::empty());
        assert(trim(j) =~= Seq::<char>::empty());
        let e = Seq::<char>::empty();
        assert(split_on(e, ',') =~= seq![e]);
        crate::text::lemma_first_index_of(e, '-');
        assert(seq![e].drop_last() =~= Seq::<Seq<char>>::empty());
        assert(seq![e].last() == e);
        assert(parse_u32(e) is None);
        assert(piece_cpus(e) =~= Seq::<u32>::empty());
        assert(pieces_cpus(seq![e].drop_last()) =~= Seq::<u32>::empty());
        assert(pieces_cpus(seq![e]) =~= Seq::<u32>::empty());
    } else {
        lemma_split_join_ranges(rs);
        lemma_trim_unchanged(j);
        lemma_pieces_of_runs(rs);
    }
}

} // verus!
