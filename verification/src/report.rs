//! The aggregate report: its data, the builder that compiles it from raw
//! tallies, and human-readable sizes.
use vstd::prelude::*;
use std::collections::HashMap;
use crate::name_map::{lookup, NameMap};
use crate::sorting::{insert_desc, law_sort_desc_ordered, law_sort_desc_permutes, lemma_insert_desc_at, sort_desc};
use crate::text::{decimal, digit, digit_char, push_decimal};

verus! {

// ── Human-readable sizes ──────────────────────────────────────────────────────

/// 2^53: every integer below it has an exact `f64` (53-bit significand).
pub open spec fn significand_limit() -> nat {
    9007199254740992
}

/// Halve `m` (doubling the scale `p` and collecting the bits shifted out in
/// `r`) until it fits in an `f64` significand.
pub open spec fn fit_significand(m: nat, p: nat, r: nat) -> (nat, nat, nat)
    decreases m,
{
    if m < significand_limit() {
        (m, p, r)
    } else {
        fit_significand(m / 2, p * 2, r + (m % 2) * p)
    }
}

/// The value of `b as f64`: `b` rounded to the nearest number with a 53-bit
/// significand, ties to an even significand.
pub open spec fn f64_value(b: nat) -> nat {
    let (m, p, r) = fit_significand(b, 1, 0);
    (if r * 2 > p || (r * 2 == p && m % 2 == 1) {
        m + 1
    } else {
        m
    }) * p
}

/// `f / unit` in tenths, rounded to nearest with ties to even (as `{:.1}`
/// formats a float).
pub open spec fn round_tenths(f: nat, unit: nat) -> nat {
    let q = f * 10 / unit;
    let rem = f * 10 % unit;
    if rem * 2 > unit || (rem * 2 == unit && q % 2 == 1) {
        q + 1
    } else {
        q
    }
}

/// A count of tenths written with one decimal place.
pub open spec fn one_decimal(t: nat) -> Seq<char> {
    decimal(t / 10) + seq!['.', digit_char(t % 10)]
}

/// `bytes` as text: whole bytes below 1 KiB, otherwise KiB, MiB or GiB with
/// one decimal place.
pub open spec fn size_text(b: nat) -> Seq<char> {
    if b >= 1073741824 {
        one_decimal(round_tenths(f64_value(b), 1073741824)) + seq![' ', 'G', 'B']
    } else if b >= 1048576 {
        one_decimal(round_tenths(b, 1048576)) + seq![' ', 'M', 'B']
    } else if b >= 1024 {
        one_decimal(round_tenths(b, 1024)) + seq![' ', 'K', 'B']
    } else {
        decimal(b) + seq![' ', 'B']
    }
}

/// `t` tenths of `unit` lie within half a tenth of `b` units.
pub open spec fn within_half_tenth(t: nat, unit: nat, b: nat) -> bool {
    let diff = t * unit - 10 * b;
    2 * (if diff >= 0 { diff } else { -diff }) <= unit
}

proof fn lemma_round_tenths_close(b: nat, unit: nat)
    requires
        unit > 0,
    ensures
        within_half_tenth(round_tenths(b, unit), unit, b),
{
    let x = 10 * b;
    let q = x / unit;
    let rem = x % unit;
    assert(x == q * unit + rem && 0 <= rem < unit) by (nonlinear_arith)
        requires unit > 0, q == x / unit, rem == x % unit;
    assert((q + 1) * unit == q * unit + unit) by (nonlinear_arith);
}

/// Sizes below 1 KiB are whole bytes; from 1 KiB the unit is the largest of
/// KiB, MiB and GiB not above the size, and the one-decimal number shown is
/// within 0.05 of the size in that unit. (From 2^53 bytes up the size is
/// first rounded to an `f64`, which can move it further: 9007199308428083
/// bytes show as 8388608.1 GB.)
pub proof fn law_format_size_close(b: nat)
    requires
        b < significand_limit(),
    ensures
        b < 1024 ==> size_text(b) == decimal(b) + seq![' ', 'B'],
        1024 <= b < 1048576 ==> size_text(b) == one_decimal(round_tenths(b, 1024)) + seq![' ', 'K', 'B']
            && within_half_tenth(round_tenths(b, 1024), 1024, b),
        1048576 <= b < 1073741824 ==> size_text(b) == one_decimal(round_tenths(b, 1048576)) + seq![' ', 'M', 'B']
            && within_half_tenth(round_tenths(b, 1048576), 1048576, b),
        1073741824 <= b ==> size_text(b) == one_decimal(round_tenths(b, 1073741824)) + seq![' ', 'G', 'B']
            && within_half_tenth(round_tenths(b, 1073741824), 1073741824, b),
{
    assert(fit_significand(b, 1, 0) == (b, 1nat, 0nat));
    assert(f64_value(b) == b);
    lemma_round_tenths_close(b, 1024);
    lemma_round_tenths_close(b, 1048576);
    lemma_round_tenths_close(b, 1073741824);
}

/// The value of `b as f64`, exactly.
fn f64_of(b: u64) -> (r: u128)
    ensures
        r as nat == f64_value(b as nat),
        r <= 73786976294838206464,
{
    let mut m: u128 = b as u128;
    let mut p: u128 = 1;
    let mut r: u128 = 0;
    while m >= 9007199254740992
        invariant
            fit_significand(b as nat, 1, 0) == fit_significand(m as nat, p as nat, r as nat),
            m * p + r == b as nat,
            r < p,
            1 <= p <= 4096,
        decreases m,
    {
        assert(p * 9007199254740992 <= m * p) by (nonlinear_arith)
            requires m >= 9007199254740992, p >= 0;
        assert(p < 2048);
        let bit = m % 2;
        assert(bit * p <= p) by (nonlinear_arith)
            requires bit <= 1, p >= 0;
        assert((m / 2) * (2 * p) + (r + bit * p) == m * p + r) by (nonlinear_arith)
            requires m == 2 * (m / 2) + bit;
        r = r + bit * p;
        m = m / 2;
        p = p * 2;
    }
    let up = r * 2 > p || (r * 2 == p && m % 2 == 1);
    let m2: u128 = if up { m + 1 } else { m };
    assert(m2 * p <= 9007199254740992 * 4096) by (nonlinear_arith)
        requires m2 <= 9007199254740992, p <= 4096;
    m2 * p
}

/// Appends `f / unit` with one decimal place.
fn push_tenths(v: &mut Vec<char>, f: u128, unit: u128)
    requires
        1024 <= unit <= 1073741824,
        f <= 73786976294838206464,
    ensures
        final(v)@ == old(v)@ + one_decimal(round_tenths(f as nat, unit as nat)),
{
    let x = f * 10;
    let q = x / unit;
    let rem = x % unit;
    assert(q * 1024 <= x) by (nonlinear_arith)
        requires q == x / unit, unit >= 1024, x >= 0;
    assert(rem < unit);
    let t = if rem * 2 > unit || (rem * 2 == unit && q % 2 == 1) { q + 1 } else { q };
    assert(t == round_tenths(f as nat, unit as nat));
    let t64 = t as u64;
    push_decimal(v, t64 / 10);
    v.push('.');
    v.push(digit(t64 % 10));
    assert(final(v)@ =~= old(v)@ + one_decimal(round_tenths(f as nat, unit as nat)));
}

/// Format a byte count as a human-readable size (`512 B`, `2.0 KB`, `1.0 MB`).
pub fn format_size(bytes: u64) -> (r: String)
    ensures
        r@ == size_text(bytes as nat),
{
    let mut v: Vec<char> = Vec::new();
    if bytes >= 1073741824 {
        let f = f64_of(bytes);
        push_tenths(&mut v, f, 1073741824);
        v.push(' ');
        v.push('G');
        v.push('B');
    } else if bytes >= 1048576 {
        push_tenths(&mut v, bytes as u128, 1048576);
        v.push(' ');
        v.push('M');
        v.push('B');
    } else if bytes >= 1024 {
        push_tenths(&mut v, bytes as u128, 1024);
        v.push(' ');
        v.push('K');
        v.push('B');
    } else {
        push_decimal(&mut v, bytes);
        v.push(' ');
        v.push('B');
    }
    assert(v@ =~= size_text(bytes as nat));
    crate::text::string_of(&v)
}

} // verus!

verus! {

// ── Report data ───────────────────────────────────────────────────────────────

/// A single folder's aggregate numbers.
#[derive(Debug, PartialEq)]
pub struct FolderStat {
    pub name: String,
    pub count: usize,
    pub size_bytes: u64,
}

/// Everything the report needs, independent of CLI args or parsing internals.
#[derive(Debug)]
pub struct Report {
    pub total_emails: usize,
    pub parse_errors: usize,
    pub total_size_bytes: u64,
    pub avg_size_bytes: u64,
    /// Inclusive date range as pre-formatted strings (e.g. "2020-01-01").
    pub date_range: Option<(String, String)>,
    /// Top senders sorted descending by count. Each entry: (address, count, total_bytes).
    pub top_senders: Vec<(String, usize, u64)>,
    pub top_senders_limit: usize,
    /// Emails per calendar year, sorted ascending.
    pub emails_by_year: Vec<(i32, usize)>,
    pub emails_without_date: usize,
    /// Size-bucket distribution in display order.
    pub size_buckets: Vec<(&'static str, usize)>,
    /// Per-folder breakdown — omitted (empty) when only one root was scanned.
    pub folders: Vec<FolderStat>,
    pub show_all_folders: bool,
}

/// The raw tallies a report is compiled from.
pub struct ReportBuilder {
    pub total_emails: usize,
    pub parse_errors: usize,
    pub total_size_bytes: u64,
    pub avg_size_bytes: u64,
    pub date_range: Option<(String, String)>,
    pub sender_counts: NameMap<usize>,
    pub sender_sizes: NameMap<u64>,
    pub year_counts: HashMap<i32, usize>,
    pub emails_without_date: usize,
    pub size_bucket_counts: NameMap<usize>,
    pub folder_counts: NameMap<usize>,
    pub folder_sizes: NameMap<u64>,
    pub top_senders_limit: usize,
    pub show_all_folders: bool,
    /// Omit the folder section when `false` (i.e. only one root dir was scanned).
    pub include_folders: bool,
}

/// Size-bucket labels in display order.
pub const SIZE_BUCKET_ORDER: [&'static str; 6] = [
    "< 1 KB",
    "1–10 KB",
    "10–100 KB",
    "100 KB–1 MB",
    "1–10 MB",
    "> 10 MB",
];

/// The value stored under a name, or zero.
pub open spec fn value_or_zero<T>(entries: Seq<(Seq<char>, T)>, k: Seq<char>, zero: T) -> T {
    match lookup(entries, k) {
        Some(v) => v,
        None => zero,
    }
}

/// The sort key of a (name, count, bytes) row: its count.
pub open spec fn by_count() -> spec_fn((Seq<char>, usize, u64)) -> int {
    |e: (Seq<char>, usize, u64)| e.1 as int
}

/// Each counted name with its count and its size (zero when none is recorded),
/// in the counts' order.
pub open spec fn tally_rows(counts: Seq<(Seq<char>, usize)>, sizes: Seq<(Seq<char>, u64)>) -> Seq<(Seq<char>, usize, u64)> {
    Seq::new(counts.len(), |i: int| (counts[i].0, counts[i].1, value_or_zero(sizes, counts[i].0, 0u64)))
}

/// The rows stably sorted by descending count.
pub open spec fn ranked_rows(counts: Seq<(Seq<char>, usize)>, sizes: Seq<(Seq<char>, u64)>) -> Seq<(Seq<char>, usize, u64)> {
    sort_desc(tally_rows(counts, sizes), by_count())
}

pub open spec fn sender_view(v: Seq<(String, usize, u64)>) -> Seq<(Seq<char>, usize, u64)> {
    Seq::new(v.len(), |i: int| (v[i].0@, v[i].1, v[i].2))
}

pub open spec fn folder_view(v: Seq<FolderStat>) -> Seq<(Seq<char>, usize, u64)> {
    Seq::new(v.len(), |i: int| (v[i].name@, v[i].count, v[i].size_bytes))
}

/// Rank `rows[i]` into `out` (sorted by descending count) at its stable place.
fn rank_sender(out: &mut Vec<(String, usize, u64)>, row: (String, usize, u64))
    ensures
        sender_view(final(out)@) == insert_desc(
            sender_view(old(out)@),
            (row.0@, row.1, row.2),
            by_count(),
        ),
{
    let ghost key = by_count();
    let ghost x = (row.0@, row.1, row.2);
    let mut j: usize = out.len();
    while j > 0 && out[j - 1].1 < row.1
        invariant
            j <= out@.len(),
            forall|i: int| j <= i < out@.len() ==> (#[trigger] out@[i]).1 < row.1,
        decreases j,
    {
        j = j - 1;
    }
    let ghost before = sender_view(out@);
    proof {
        assert forall|i: int| j <= i < before.len() implies key(#[trigger] before[i]) < key(x) by {
            assert(before[i].1 == out@[i].1);
        }
        if j > 0 {
            assert(before[j - 1].1 == out@[j - 1].1);
        }
        lemma_insert_desc_at(before, x, key, j as int);
    }
    out.insert(j, row);
    assert(sender_view(out@) =~= before.take(j as int) + seq![x] + before.skip(j as int));
}

/// Rank a folder into `out` (sorted by descending count) at its stable place.
fn rank_folder(out: &mut Vec<FolderStat>, row: FolderStat)
    ensures
        folder_view(final(out)@) == insert_desc(
            folder_view(old(out)@),
            (row.name@, row.count, row.size_bytes),
            by_count(),
        ),
{
    let ghost key = by_count();
    let ghost x = (row.name@, row.count, row.size_bytes);
    let mut j: usize = out.len();
    while j > 0 && out[j - 1].count < row.count
        invariant
            j <= out@.len(),
            forall|i: int| j <= i < out@.len() ==> (#[trigger] out@[i]).count < row.count,
        decreases j,
    {
        j = j - 1;
    }
    let ghost before = folder_view(out@);
    proof {
        assert forall|i: int| j <= i < before.len() implies key(#[trigger] before[i]) < key(x) by {
            assert(before[i].1 == out@[i].count);
        }
        if j > 0 {
            assert(before[j - 1].1 == out@[j - 1].count);
        }
        lemma_insert_desc_at(before, x, key, j as int);
    }
    out.insert(j, row);
    assert(folder_view(out@) =~= before.take(j as int) + seq![x] + before.skip(j as int));
}

} // verus!

verus! {

broadcast use vstd::std_specs::hash::group_hash_axioms;

/// Per-year counts in ascending year order: exactly the map's entries.
pub open spec fn years_listed(v: Seq<(i32, usize)>, m: Map<i32, usize>) -> bool {
    &&& forall|a: int, b: int| 0 <= a < b < v.len() ==> (#[trigger] v[a]).0 < (#[trigger] v[b]).0
    &&& v.len() == m.len()
    &&& forall|t: int| 0 <= t < v.len() ==> m.contains_key((#[trigger] v[t]).0) && m[v[t].0] == v[t].1
    &&& forall|k: i32| #[trigger] m.contains_key(k) ==> exists|t: int| 0 <= t < v.len() && (#[trigger] v[t]).0 == k
}

/// The years of a map, ascending.
fn sorted_years(m: &HashMap<i32, usize>) -> (r: Vec<(i32, usize)>)
    ensures
        years_listed(r@, m@),
{
    let mut out: Vec<(i32, usize)> = Vec::new();
    let ghost all = m@;
    for pair in it: m.iter()
        invariant
            all == m@,
            it.seq().no_duplicates(),
            it.seq().len() == all.len(),
            forall|q: int| 0 <= q < it.seq().len() ==> all.contains_key(*(#[trigger] it.seq()[q]).0) && all[*it.seq()[q].0] == *it.seq()[q].1,
            forall|k: i32| #[trigger] all.contains_key(k) ==> it.seq().contains((&k, &all[k])),
            forall|a: int, b: int| 0 <= a < b < out@.len() ==> (#[trigger] out@[a]).0 < (#[trigger] out@[b]).0,
            out@.len() == it.index(),
            forall|t: int| 0 <= t < out@.len() ==> all.contains_key((#[trigger] out@[t]).0) && all[out@[t].0] == out@[t].1,
            forall|t: int, q: int| 0 <= t < out@.len() && it.index() <= q < it.seq().len() ==> (#[trigger] out@[t]).0 != *(#[trigger] it.seq()[q]).0,
            forall|k: i32| #[trigger] all.contains_key(k) ==> (exists|t: int| 0 <= t < out@.len() && (#[trigger] out@[t]).0 == k) || (exists|q: int| it.index() <= q < it.seq().len() && *(#[trigger] it.seq()[q]).0 == k),
    {
        let ghost idx = it.index();
        assert(pair == it.seq()[idx]);
        let (k, v) = pair;
        let k = *k;
        let v = *v;
        let ghost sq = it.seq();
        proof {
            assert forall|q: int| 0 <= q < sq.len() && q != idx implies *(#[trigger] sq[q]).0 != k by {
                if *sq[q].0 == k {
                    assert(sq[q] != sq[idx]);
                    assert(all[k] == *sq[q].1 && all[k] == *sq[idx].1);
                }
            }
        }
        let mut j: usize = out.len();
        while j > 0 && out[j - 1].0 > k
            invariant
                j <= out@.len(),
                forall|i: int| j <= i < out@.len() ==> (#[trigger] out@[i]).0 > k,
            decreases j,
        {
            j = j - 1;
        }
        let ghost before = out@;
        proof {
            if j > 0 {
                assert(before[j - 1].0 != *sq[idx].0);
            }
        }
        out.insert(j, (k, v));
        assert forall|t: int| 0 <= t < out@.len() implies all.contains_key((#[trigger] out@[t]).0) && all[out@[t].0] == out@[t].1 by {
            if t < j {
                assert(out@[t] == before[t]);
            } else if t > j {
                assert(out@[t] == before[t - 1]);
            }
        }
        assert forall|t: int, q: int| 0 <= t < out@.len() && idx + 1 <= q < sq.len() implies (#[trigger] out@[t]).0 != *(#[trigger] it.seq()[q]).0 by {
            if t < j {
                assert(out@[t] == before[t]);
            } else if t > j {
                assert(out@[t] == before[t - 1]);
            }
        }
        assert forall|kk: i32| #[trigger] all.contains_key(kk) implies (exists|t: int| 0 <= t < out@.len() && (#[trigger] out@[t]).0 == kk) || (exists|q: int| idx + 1 <= q < sq.len() && *(#[trigger] sq[q]).0 == kk) by {
            if exists|t: int| 0 <= t < before.len() && (#[trigger] before[t]).0 == kk {
                let t = choose|t: int| 0 <= t < before.len() && (#[trigger] before[t]).0 == kk;
                if t < j {
                    assert(out@[t] == before[t]);
                } else {
                    assert(out@[t + 1] == before[t]);
                }
            } else if kk == k {
                assert(out@[j as int].0 == kk);
            } else {
                let q = choose|q: int| idx <= q < sq.len() && *(#[trigger] sq[q]).0 == kk;
                assert(q != idx);
                assert(idx + 1 <= q);
            }
        }
    }
    out
}

} // verus!

verus! {

/// The size-bucket labels in display order.
pub open spec fn bucket_labels() -> Seq<&'static str> {
    SIZE_BUCKET_ORDER@
}

/// The rows of ranked names, sorted stably by descending count.
fn ranked_senders(counts: &NameMap<usize>, sizes: &NameMap<u64>) -> (r: Vec<(String, usize, u64)>)
    ensures
        sender_view(r@) == ranked_rows(counts@, sizes@),
{
    let ghost key = by_count();
    let ghost rows = tally_rows(counts@, sizes@);
    let mut out: Vec<(String, usize, u64)> = Vec::new();
    let mut i: usize = 0;
    assert(sender_view(out@) =~= sort_desc(rows.take(0), key));
    while i < counts.len()
        invariant
            i <= counts@.len(),
            rows == tally_rows(counts@, sizes@),
            key == by_count(),
            sender_view(out@) == sort_desc(rows.take(i as int), key),
        decreases counts@.len() - i,
    {
        let (name, count) = counts.entry(i);
        let size = match sizes.get(name) {
            Some(s) => s,
            None => 0,
        };
        assert(rows.take(i + 1).drop_last() =~= rows.take(i as int));
        assert(rows.take(i + 1).last() == (name@, count, size));
        assert(sort_desc(rows.take(i + 1), key) == insert_desc(sort_desc(rows.take(i as int), key), (name@, count, size), key));
        let owned = name.clone();
        assert(owned@ == name@);
        rank_sender(&mut out, (owned, count, size));
        i = i + 1;
    }
    assert(rows.take(counts@.len() as int) =~= rows);
    out
}

fn ranked_folders(counts: &NameMap<usize>, sizes: &NameMap<u64>) -> (r: Vec<FolderStat>)
    ensures
        folder_view(r@) == ranked_rows(counts@, sizes@),
{
    let ghost key = by_count();
    let ghost rows = tally_rows(counts@, sizes@);
    let mut out: Vec<FolderStat> = Vec::new();
    let mut i: usize = 0;
    assert(folder_view(out@) =~= sort_desc(rows.take(0), key));
    while i < counts.len()
        invariant
            i <= counts@.len(),
            rows == tally_rows(counts@, sizes@),
            key == by_count(),
            folder_view(out@) == sort_desc(rows.take(i as int), key),
        decreases counts@.len() - i,
    {
        let (name, count) = counts.entry(i);
        let size_bytes = match sizes.get(name) {
            Some(s) => s,
            None => 0,
        };
        assert(rows.take(i + 1).drop_last() =~= rows.take(i as int));
        assert(rows.take(i + 1).last() == (name@, count, size_bytes));
        assert(sort_desc(rows.take(i + 1), key) == insert_desc(sort_desc(rows.take(i as int), key), (name@, count, size_bytes), key));
        let owned = name.clone();
        assert(owned@ == name@);
        rank_folder(&mut out, FolderStat { name: owned, count, size_bytes });
        i = i + 1;
    }
    assert(rows.take(counts@.len() as int) =~= rows);
    out
}

/// Each display-order size label with its count (zero when none is recorded).
fn bucket_rows(counts: &NameMap<usize>) -> (r: Vec<(&'static str, usize)>)
    ensures
        r@.len() == 6,
        forall|i: int| 0 <= i < 6 ==> (#[trigger] r@[i]).0 == bucket_labels()[i] && r@[i].1
            == value_or_zero(counts@, bucket_labels()[i]@, 0usize),
{
    let mut out: Vec<(&'static str, usize)> = Vec::new();
    let mut i: usize = 0;
    while i < 6
        invariant
            i <= 6,
            out@.len() == i,
            forall|t: int| 0 <= t < i ==> (#[trigger] out@[t]).0 == bucket_labels()[t] && out@[t].1
                == value_or_zero(counts@, bucket_labels()[t]@, 0usize),
        decreases 6 - i,
    {
        let label: &'static str = SIZE_BUCKET_ORDER[i];
        let key = crate::text::string_of(&crate::text::chars_of(label));
        let count = match counts.get(&key) {
            Some(c) => c,
            None => 0,
        };
        out.push((label, count));
        i = i + 1;
    }
    out
}

impl ReportBuilder {
    /// Compile the report: senders ranked by descending count (ties keep
    /// their first-seen order), years ascending, size buckets in display
    /// order, folders ranked like senders or omitted, totals carried over.
    pub fn build(self) -> (r: Report)
        ensures
            compiled_from(r, self.tallies()),
            r.date_range == self.date_range,
    {
        let top_senders = ranked_senders(&self.sender_counts, &self.sender_sizes);
        let emails_by_year = sorted_years(&self.year_counts);
        let size_buckets = bucket_rows(&self.size_bucket_counts);
        let folders = if self.include_folders {
            ranked_folders(&self.folder_counts, &self.folder_sizes)
        } else {
            Vec::new()
        };
        Report {
            total_emails: self.total_emails,
            parse_errors: self.parse_errors,
            total_size_bytes: self.total_size_bytes,
            avg_size_bytes: self.avg_size_bytes,
            date_range: self.date_range,
            top_senders,
            top_senders_limit: self.top_senders_limit,
            emails_by_year,
            emails_without_date: self.emails_without_date,
            size_buckets,
            folders,
            show_all_folders: self.show_all_folders,
        }
    }
}

} // verus!

verus! {

/// The raw tallies of a report builder, as values.
pub struct Tallies {
    pub total_emails: usize,
    pub parse_errors: usize,
    pub total_size_bytes: u64,
    pub avg_size_bytes: u64,
    pub date_range: Option<(Seq<char>, Seq<char>)>,
    pub sender_counts: Seq<(Seq<char>, usize)>,
    pub sender_sizes: Seq<(Seq<char>, u64)>,
    pub year_counts: Map<i32, usize>,
    pub emails_without_date: usize,
    pub size_bucket_counts: Seq<(Seq<char>, usize)>,
    pub folder_counts: Seq<(Seq<char>, usize)>,
    pub folder_sizes: Seq<(Seq<char>, u64)>,
    pub top_senders_limit: usize,
    pub show_all_folders: bool,
    pub include_folders: bool,
}

pub open spec fn range_view(r: Option<(String, String)>) -> Option<(Seq<char>, Seq<char>)> {
    match r {
        Some((a, b)) => Some((a@, b@)),
        None => None,
    }
}

impl ReportBuilder {
    pub open spec fn tallies(&self) -> Tallies {
        Tallies {
            total_emails: self.total_emails,
            parse_errors: self.parse_errors,
            total_size_bytes: self.total_size_bytes,
            avg_size_bytes: self.avg_size_bytes,
            date_range: range_view(self.date_range),
            sender_counts: self.sender_counts@,
            sender_sizes: self.sender_sizes@,
            year_counts: self.year_counts@,
            emails_without_date: self.emails_without_date,
            size_bucket_counts: self.size_bucket_counts@,
            folder_counts: self.folder_counts@,
            folder_sizes: self.folder_sizes@,
            top_senders_limit: self.top_senders_limit,
            show_all_folders: self.show_all_folders,
            include_folders: self.include_folders,
        }
    }
}

/// `r` is the report compiled from `t`: senders ranked by descending count
/// (ties in first-seen order), years ascending, size buckets in display order,
/// folders ranked like senders when included, everything else carried over.
pub open spec fn compiled_from(r: Report, t: Tallies) -> bool {
    &&& r.total_emails == t.total_emails
    &&& r.parse_errors == t.parse_errors
    &&& r.total_size_bytes == t.total_size_bytes
    &&& r.avg_size_bytes == t.avg_size_bytes
    &&& range_view(r.date_range) == t.date_range
    &&& sender_view(r.top_senders@) == ranked_rows(t.sender_counts, t.sender_sizes)
    &&& r.top_senders_limit == t.top_senders_limit
    &&& years_listed(r.emails_by_year@, t.year_counts)
    &&& r.emails_without_date == t.emails_without_date
    &&& r.size_buckets@.len() == 6
    &&& forall|i: int| 0 <= i < 6 ==> (#[trigger] r.size_buckets@[i]).0 == bucket_labels()[i]
        && r.size_buckets@[i].1 == value_or_zero(t.size_bucket_counts, bucket_labels()[i]@, 0usize)
    &&& t.include_folders ==> folder_view(r.folders@) == ranked_rows(t.folder_counts, t.folder_sizes)
    &&& !t.include_folders ==> r.folders@.len() == 0
    &&& r.show_all_folders == t.show_all_folders
}

/// A compiled report lists senders from most to fewest messages and holds
/// exactly the tallied senders (each with its count and size); folders,
/// when included, likewise; years strictly ascending.
pub proof fn law_report_ordering(r: Report, t: Tallies)
    requires
        compiled_from(r, t),
    ensures
        forall|i: int, j: int|
            0 <= i <= j < r.top_senders@.len() ==> (#[trigger] r.top_senders@[i]).1 >= (#[trigger] r.top_senders@[j]).1,
        sender_view(r.top_senders@).to_multiset() == tally_rows(t.sender_counts, t.sender_sizes).to_multiset(),
        forall|i: int, j: int|
            0 <= i < j < r.emails_by_year@.len() ==> (#[trigger] r.emails_by_year@[i]).0 < (#[trigger] r.emails_by_year@[j]).0,
        t.include_folders ==> forall|i: int, j: int|
            0 <= i <= j < r.folders@.len() ==> (#[trigger] r.folders@[i]).count >= (#[trigger] r.folders@[j]).count,
        t.include_folders ==> folder_view(r.folders@).to_multiset() == tally_rows(t.folder_counts, t.folder_sizes).to_multiset(),
{
    let senders = tally_rows(t.sender_counts, t.sender_sizes);
    law_sort_desc_ordered(senders, by_count());
    law_sort_desc_permutes(senders, by_count());
    let sv = sender_view(r.top_senders@);
    assert forall|i: int, j: int|
        0 <= i <= j < r.top_senders@.len() implies (#[trigger] r.top_senders@[i]).1 >= (#[trigger] r.top_senders@[j]).1 by {
        assert(sv[i].1 == r.top_senders@[i].1);
        assert(sv[j].1 == r.top_senders@[j].1);
    }
    let folders = tally_rows(t.folder_counts, t.folder_sizes);
    law_sort_desc_ordered(folders, by_count());
    law_sort_desc_permutes(folders, by_count());
    if t.include_folders {
        let fv = folder_view(r.folders@);
        assert forall|i: int, j: int|
            0 <= i <= j < r.folders@.len() implies (#[trigger] r.folders@[i]).count >= (#[trigger] r.folders@[j]).count by {
            assert(fv[i].1 == r.folders@[i].count);
            assert(fv[j].1 == r.folders@[j].count);
        }
    }
}

} // verus!
