//! Aggregation of parsed messages into report tallies, with the folder,
//! size-bucket and date-range rules the report uses.
use vstd::prelude::*;
use crate::emlx::{DateStamp, Email};
use crate::name_map::{law_get_after_insert, law_insert_keeps_names_distinct, lemma_position, lookup, names_distinct, position, stored};
use std::collections::HashMap;
use crate::name_map::NameMap;
use crate::render::{bars_fit, min_nat};
use crate::report::{compiled_from, folder_view, sender_view, tally_rows, value_or_zero, Report, ReportBuilder, Tallies, SIZE_BUCKET_ORDER};
use crate::text::{append, chars_of, decimal, last_index_of, push_decimal, rfind_char, seq_eq, slice_of, string_of};

verus! {

// ── Paths ─────────────────────────────────────────────────────────────────────

/// One component of a filesystem path, as `std::path::Path::components`
/// yields it (a normal component's name converted lossily to text).
#[derive(Debug)]
pub enum PathPart {
    Prefix(String),
    Root,
    Current,
    Parent,
    Normal(String),
}

/// A path by its components, with its full text for display.
#[derive(Debug)]
pub struct ScanPath {
    pub parts: Vec<PathPart>,
    pub text: String,
}

/// A component as a tag and its text.
pub open spec fn part_view(p: PathPart) -> (int, Seq<char>) {
    match p {
        PathPart::Prefix(s) => (0, s@),
        PathPart::Root => (1, seq![]),
        PathPart::Current => (2, seq![]),
        PathPart::Parent => (3, seq![]),
        PathPart::Normal(s) => (4, s@),
    }
}

pub open spec fn parts_view(p: Seq<PathPart>) -> Seq<(int, Seq<char>)> {
    Seq::new(p.len(), |i: int| part_view(p[i]))
}

/// `path` starts with the components of `base` (`Path::starts_with`).
pub open spec fn path_starts_with(path: ScanPath, base: ScanPath) -> bool {
    let p = parts_view(path.parts@);
    let b = parts_view(base.parts@);
    b.len() <= p.len() && p.take(b.len() as int) == b
}

/// A root's label: its final component when that is a normal name
/// (`Path::file_name`), otherwise its whole text.
pub open spec fn path_name(root: ScanPath) -> Seq<char> {
    let parts = root.parts@;
    if parts.len() > 0 && parts.last() is Normal {
        part_view(parts.last()).1
    } else {
        root.text@
    }
}

pub open spec fn unknown_folder() -> Seq<char> {
    seq!['(', 'u', 'n', 'k', 'n', 'o', 'w', 'n', ')']
}

/// The label of the first root that contains `path`, or `(unknown)`.
pub open spec fn folder_of(path: ScanPath, roots: Seq<ScanPath>) -> Seq<char>
    decreases roots.len(),
{
    if roots.len() == 0 {
        unknown_folder()
    } else if path_starts_with(path, roots[0]) {
        path_name(roots[0])
    } else {
        folder_of(path, roots.drop_first())
    }
}

fn part_eq(a: &PathPart, b: &PathPart) -> (r: bool)
    ensures
        r == (part_view(*a) == part_view(*b)),
{
    match (a, b) {
        (PathPart::Prefix(x), PathPart::Prefix(y)) => *x == *y,
        (PathPart::Normal(x), PathPart::Normal(y)) => *x == *y,
        (PathPart::Root, PathPart::Root) => true,
        (PathPart::Current, PathPart::Current) => true,
        (PathPart::Parent, PathPart::Parent) => true,
        _ => false,
    }
}

fn starts_with_path(path: &ScanPath, base: &ScanPath) -> (r: bool)
    ensures
        r == path_starts_with(*path, *base),
{
    let ghost p = parts_view(path.parts@);
    let ghost b = parts_view(base.parts@);
    if base.parts.len() > path.parts.len() {
        return false;
    }
    let mut i: usize = 0;
    while i < base.parts.len()
        invariant
            i <= base.parts@.len() <= path.parts@.len(),
            p == parts_view(path.parts@),
            b == parts_view(base.parts@),
            forall|j: int| 0 <= j < i ==> p[j] == b[j],
        decreases base.parts@.len() - i,
    {
        if !part_eq(&path.parts[i], &base.parts[i]) {
            assert(p.take(b.len() as int)[i as int] != b[i as int]);
            return false;
        }
        i = i + 1;
    }
    assert(p.take(b.len() as int) =~= b);
    true
}

/// The display name of a root directory.
pub fn root_name(root: &ScanPath) -> (r: String)
    ensures
        r@ == path_name(*root),
{
    let n = root.parts.len();
    if n > 0 {
        match &root.parts[n - 1] {
            PathPart::Normal(s) => {
                return s.clone();
            },
            _ => {},
        }
    }
    root.text.clone()
}

/// Return the command-line root directory name that contains `path`.
pub fn folder_label(path: &ScanPath, roots: &[ScanPath]) -> (r: String)
    ensures
        r@ == folder_of(*path, roots@),
{
    let mut i: usize = 0;
    assert(roots@.skip(0) =~= roots@);
    while i < roots.len()
        invariant
            i <= roots@.len(),
            folder_of(*path, roots@) == folder_of(*path, roots@.skip(i as int)),
        decreases roots@.len() - i,
    {
        assert(roots@.skip(i as int)[0] == roots@[i as int]);
        assert(roots@.skip(i as int).drop_first() =~= roots@.skip(i + 1));
        if starts_with_path(path, &roots[i]) {
            return root_name(&roots[i]);
        }
        i = i + 1;
    }
    assert(roots@.skip(i as int).len() == 0);
    let mut v: Vec<char> = Vec::new();
    v.push('(');
    v.push('u');
    v.push('n');
    v.push('k');
    v.push('n');
    v.push('o');
    v.push('w');
    v.push('n');
    v.push(')');
    assert(v@ =~= unknown_folder());
    string_of(&v)
}

/// The file name has the extension `emlx` (`Path::extension`): the text
/// after its last dot, where that dot is not the name's first character.
pub open spec fn is_emlx_name(name: Seq<char>) -> bool {
    match last_index_of(name, '.') {
        Some(k) => k > 0 && name.skip(k + 1) == seq!['e', 'm', 'l', 'x'],
        None => false,
    }
}

/// Whether a file with this name is an Apple Mail message file.
pub fn has_emlx_extension(file_name: &str) -> (r: bool)
    ensures
        r == is_emlx_name(file_name@),
{
    let v = chars_of(file_name);
    match rfind_char(&v, '.') {
        Some(k) => {
            if k == 0 {
                return false;
            }
            let ext = slice_of(&v, k + 1, v.len());
            let mut want: Vec<char> = Vec::new();
            want.push('e');
            want.push('m');
            want.push('l');
            want.push('x');
            assert(v@.skip(k + 1) =~= ext@);
            assert(want@ =~= seq!['e', 'm', 'l', 'x']);
            seq_eq(&ext, &want)
        },
        None => false,
    }
}

// ── Size buckets ──────────────────────────────────────────────────────────────

/// The index in `SIZE_BUCKET_ORDER` of the bucket a size falls in.
pub open spec fn bucket_of(size: u64) -> int {
    if size <= 1023 {
        0
    } else if size <= 9999 {
        1
    } else if size <= 99999 {
        2
    } else if size <= 999999 {
        3
    } else if size <= 9999999 {
        4
    } else {
        5
    }
}

pub fn bucket_index(size: u64) -> (r: usize)
    ensures
        r == bucket_of(size),
{
    if size <= 1023 {
        0
    } else if size <= 9999 {
        1
    } else if size <= 99999 {
        2
    } else if size <= 999999 {
        3
    } else if size <= 9999999 {
        4
    } else {
        5
    }
}

// ── Dates ─────────────────────────────────────────────────────────────────────

/// `n` written with at least `w` digits, padded with leading zeros.
pub open spec fn zero_padded(n: nat, w: nat) -> Seq<char> {
    let d = decimal(n);
    if d.len() < w {
        Seq::new((w - d.len()) as nat, |i: int| '0') + d
    } else {
        d
    }
}

/// A year as chrono's `%Y` writes it: four digits for years 0 to 9999,
/// otherwise an explicit sign and at least four digits.
pub open spec fn year_text(y: i32) -> Seq<char> {
    if 0 <= y <= 9999 {
        zero_padded(y as nat, 4)
    } else if y < 0 {
        seq!['-'] + zero_padded((-(y as int)) as nat, 4)
    } else {
        seq!['+'] + zero_padded(y as nat, 4)
    }
}

/// A date as chrono's `%Y-%m-%d` writes it.
pub open spec fn ymd_text(d: DateStamp) -> Seq<char> {
    year_text(d.year) + seq!['-'] + zero_padded(d.month as nat, 2) + seq!['-'] + zero_padded(
        d.day as nat,
        2,
    )
}

fn push_padded(v: &mut Vec<char>, n: u64, w: usize)
    requires
        w <= 4,
    ensures
        final(v)@ == old(v)@ + zero_padded(n as nat, w as nat),
{
    let mut digits: Vec<char> = Vec::new();
    push_decimal(&mut digits, n);
    let mut k: usize = digits.len();
    let ghost start = v@;
    while k < w
        invariant
            digits.len() <= k <= w || (w < digits.len() && k == digits.len()),
            v@ == start + Seq::new((k - digits@.len()) as nat, |i: int| '0'),
            digits@ == decimal(n as nat),
        decreases w - k,
    {
        v.push('0');
        k = k + 1;
        assert(v@ =~= start + Seq::new((k - digits@.len()) as nat, |i: int| '0'));
    }
    append(v, &digits);
    assert(final(v)@ =~= start + zero_padded(n as nat, w as nat));
}

/// Format a parsed date as `YYYY-MM-DD` (local date).
pub fn format_ymd(d: &DateStamp) -> (r: String)
    requires
        1 <= d.month <= 12,
        1 <= d.day <= 31,
    ensures
        r@ == ymd_text(*d),
{
    let mut v: Vec<char> = Vec::new();
    if d.year >= 0 && d.year <= 9999 {
        push_padded(&mut v, d.year as u64, 4);
    } else if d.year < 0 {
        v.push('-');
        let magnitude: u64 = (-(d.year as i64)) as u64;
        push_padded(&mut v, magnitude, 4);
    } else {
        v.push('+');
        push_padded(&mut v, d.year as u64, 4);
    }
    v.push('-');
    push_padded(&mut v, d.month as u64, 2);
    v.push('-');
    push_padded(&mut v, d.day as u64, 2);
    assert(v@ =~= ymd_text(*d));
    string_of(&v)
}

/// `a` is an earlier instant than `b`.
pub open spec fn before(a: DateStamp, b: DateStamp) -> bool {
    a.timestamp < b.timestamp || (a.timestamp == b.timestamp && a.nanosecond < b.nanosecond)
}

pub fn is_before(a: &DateStamp, b: &DateStamp) -> (r: bool)
    ensures
        r == before(*a, *b),
{
    a.timestamp < b.timestamp || (a.timestamp == b.timestamp && a.nanosecond < b.nanosecond)
}

} // verus!

verus! {

// ── Aggregation ───────────────────────────────────────────────────────────────

/// `entries` with one more counted under `k`.
pub open spec fn add_count(entries: Seq<(Seq<char>, usize)>, k: Seq<char>) -> Seq<(Seq<char>, usize)> {
    stored(entries, k, (value_or_zero(entries, k, 0usize) + 1) as usize)
}

/// `entries` with `n` more bytes recorded under `k`.
pub open spec fn add_size(entries: Seq<(Seq<char>, u64)>, k: Seq<char>, n: u64) -> Seq<(Seq<char>, u64)> {
    stored(entries, k, (value_or_zero(entries, k, 0u64) + n) as u64)
}

/// Messages per sender address, in first-seen order.
pub open spec fn sender_counts_of(es: Seq<(ScanPath, Email)>) -> Seq<(Seq<char>, usize)>
    decreases es.len(),
{
    if es.len() == 0 {
        seq![]
    } else {
        add_count(sender_counts_of(es.drop_last()), es.last().1.from@)
    }
}

/// Bytes per sender address, in first-seen order.
pub open spec fn sender_sizes_of(es: Seq<(ScanPath, Email)>) -> Seq<(Seq<char>, u64)>
    decreases es.len(),
{
    if es.len() == 0 {
        seq![]
    } else {
        add_size(sender_sizes_of(es.drop_last()), es.last().1.from@, es.last().1.size_bytes)
    }
}

/// Messages per size-bucket label.
pub open spec fn bucket_counts_of(es: Seq<(ScanPath, Email)>) -> Seq<(Seq<char>, usize)>
    decreases es.len(),
{
    if es.len() == 0 {
        seq![]
    } else {
        add_count(
            bucket_counts_of(es.drop_last()),
            SIZE_BUCKET_ORDER@[bucket_of(es.last().1.size_bytes)]@,
        )
    }
}

/// Messages per folder label.
pub open spec fn folder_counts_of(es: Seq<(ScanPath, Email)>, roots: Seq<ScanPath>) -> Seq<(Seq<char>, usize)>
    decreases es.len(),
{
    if es.len() == 0 {
        seq![]
    } else {
        add_count(folder_counts_of(es.drop_last(), roots), folder_of(es.last().0, roots))
    }
}

/// Bytes per folder label.
pub open spec fn folder_sizes_of(es: Seq<(ScanPath, Email)>, roots: Seq<ScanPath>) -> Seq<(Seq<char>, u64)>
    decreases es.len(),
{
    if es.len() == 0 {
        seq![]
    } else {
        add_size(
            folder_sizes_of(es.drop_last(), roots),
            folder_of(es.last().0, roots),
            es.last().1.size_bytes,
        )
    }
}

/// Dated messages per calendar year.
pub open spec fn year_counts_of(es: Seq<(ScanPath, Email)>) -> Map<i32, usize>
    decreases es.len(),
{
    if es.len() == 0 {
        Map::empty()
    } else {
        let m = year_counts_of(es.drop_last());
        match es.last().1.date {
            Some(d) => m.insert(
                d.year,
                ((if m.contains_key(d.year) { m[d.year] as int } else { 0 }) + 1) as usize,
            ),
            None => m,
        }
    }
}

/// Messages without a parsed date.
pub open spec fn undated_of(es: Seq<(ScanPath, Email)>) -> nat
    decreases es.len(),
{
    if es.len() == 0 {
        0
    } else {
        undated_of(es.drop_last()) + if es.last().1.date is None { 1nat } else { 0nat }
    }
}

/// Total bytes of all messages.
pub open spec fn total_size_of(es: Seq<(ScanPath, Email)>) -> nat
    decreases es.len(),
{
    if es.len() == 0 {
        0
    } else {
        total_size_of(es.drop_last()) + (es.last().1.size_bytes as nat)
    }
}

/// The earliest date (the first of equally early ones).
pub open spec fn earliest_of(es: Seq<(ScanPath, Email)>) -> Option<DateStamp>
    decreases es.len(),
{
    if es.len() == 0 {
        None
    } else {
        let acc = earliest_of(es.drop_last());
        match es.last().1.date {
            Some(d) => match acc {
                Some(a) => if before(d, a) { Some(d) } else { acc },
                None => Some(d),
            },
            None => acc,
        }
    }
}

/// The latest date (the last of equally late ones).
pub open spec fn latest_of(es: Seq<(ScanPath, Email)>) -> Option<DateStamp>
    decreases es.len(),
{
    if es.len() == 0 {
        None
    } else {
        let acc = latest_of(es.drop_last());
        match es.last().1.date {
            Some(d) => match acc {
                Some(a) => if before(d, a) { acc } else { Some(d) },
                None => Some(d),
            },
            None => acc,
        }
    }
}

/// The inclusive date range, formatted `YYYY-MM-DD`.
pub open spec fn date_range_of(es: Seq<(ScanPath, Email)>) -> Option<(Seq<char>, Seq<char>)> {
    match (earliest_of(es), latest_of(es)) {
        (Some(a), Some(b)) => Some((ymd_text(a), ymd_text(b))),
        _ => None,
    }
}

/// Every date is a calendar date.
pub open spec fn dates_valid(es: Seq<(ScanPath, Email)>) -> bool {
    forall|i: int| 0 <= i < es.len() ==> ((#[trigger] es[i]).1.date matches Some(d) ==> 1 <= d.month <= 12 && 1 <= d.day <= 31)
}

/// The tallies a set of parsed messages yields.
pub open spec fn tallies_of(
    es: Seq<(ScanPath, Email)>,
    parse_errors: usize,
    roots: Seq<ScanPath>,
    top_n: usize,
    show_all_folders: bool,
) -> Tallies {
    Tallies {
        total_emails: es.len() as usize,
        parse_errors,
        total_size_bytes: total_size_of(es) as u64,
        avg_size_bytes: if es.len() > 0 { (total_size_of(es) / es.len()) as u64 } else { 0 },
        date_range: date_range_of(es),
        sender_counts: sender_counts_of(es),
        sender_sizes: sender_sizes_of(es),
        year_counts: year_counts_of(es),
        emails_without_date: undated_of(es) as usize,
        size_bucket_counts: bucket_counts_of(es),
        folder_counts: folder_counts_of(es, roots),
        folder_sizes: folder_sizes_of(es, roots),
        top_senders_limit: top_n,
        show_all_folders,
        include_folders: roots.len() > 1,
    }
}

pub open spec fn values_at_most<T>(entries: Seq<(Seq<char>, T)>, bound: int, as_int: spec_fn(T) -> int) -> bool {
    forall|j: int| 0 <= j < entries.len() ==> as_int((#[trigger] entries[j]).1) <= bound
}

proof fn lemma_add_count(entries: Seq<(Seq<char>, usize)>, k: Seq<char>, n: int)
    requires
        forall|j: int| 0 <= j < entries.len() ==> (#[trigger] entries[j]).1 <= n,
        0 <= n < usize::MAX,
    ensures
        value_or_zero(entries, k, 0usize) <= n,
        forall|j: int| 0 <= j < add_count(entries, k).len() ==> (#[trigger] add_count(entries, k)[j]).1 <= n + 1,
{
    lemma_position(entries, k);
    match position(entries, k) {
        Some(p) => {
            assert(entries[p].1 <= n);
            assert(value_or_zero(entries, k, 0usize) == entries[p].1);
        },
        None => {},
    }
    let s = add_count(entries, k);
    assert forall|j: int| 0 <= j < s.len() implies (#[trigger] s[j]).1 <= n + 1 by {
        match position(entries, k) {
            Some(p) => {
                if j != p {
                    assert(s[j] == entries[j]);
                }
            },
            None => {
                if j < entries.len() {
                    assert(s[j] == entries[j]);
                }
            },
        }
    }
}

proof fn lemma_add_size(entries: Seq<(Seq<char>, u64)>, k: Seq<char>, n: u64, total: int)
    requires
        forall|j: int| 0 <= j < entries.len() ==> (#[trigger] entries[j]).1 <= total,
        0 <= total,
        total + n <= u64::MAX,
    ensures
        value_or_zero(entries, k, 0u64) <= total,
        forall|j: int| 0 <= j < add_size(entries, k, n).len() ==> (#[trigger] add_size(entries, k, n)[j]).1 <= total + n,
{
    lemma_position(entries, k);
    match position(entries, k) {
        Some(p) => {
            assert(entries[p].1 <= total);
            assert(value_or_zero(entries, k, 0u64) == entries[p].1);
        },
        None => {},
    }
    let s = add_size(entries, k, n);
    assert forall|j: int| 0 <= j < s.len() implies (#[trigger] s[j]).1 <= total + n by {
        match position(entries, k) {
            Some(p) => {
                if j != p {
                    assert(s[j] == entries[j]);
                }
            },
            None => {
                if j < entries.len() {
                    assert(s[j] == entries[j]);
                }
            },
        }
    }
}

proof fn lemma_total_prefix(es: Seq<(ScanPath, Email)>, i: int)
    requires
        0 <= i <= es.len(),
    ensures
        total_size_of(es.take(i)) <= total_size_of(es),
    decreases es.len() - i,
{
    if i < es.len() {
        lemma_total_prefix(es, i + 1);
        assert(es.take(i + 1).drop_last() =~= es.take(i));
    } else {
        assert(es.take(i) =~= es);
    }
}

} // verus!

verus! {

broadcast use vstd::std_specs::hash::group_hash_axioms;

/// Aggregate parsed messages into a report: per-sender, per-year, per-size
/// and per-folder tallies, totals, the average size and the date range.
pub fn build_report(
    emails: &[(ScanPath, Email)],
    parse_errors: usize,
    dirs: &[ScanPath],
    top_n: usize,
    show_all_folders: bool,
) -> (r: Report)
    requires
        total_size_of(emails@) <= u64::MAX,
        dates_valid(emails@),
    ensures
        compiled_from(r, tallies_of(emails@, parse_errors, dirs@, top_n, show_all_folders)),
{
    let mut sender_counts: NameMap<usize> = NameMap::new();
    let mut sender_sizes: NameMap<u64> = NameMap::new();
    let mut bucket_counts: NameMap<usize> = NameMap::new();
    let mut folder_counts: NameMap<usize> = NameMap::new();
    let mut folder_sizes: NameMap<u64> = NameMap::new();
    let mut years: HashMap<i32, usize> = HashMap::new();
    let mut undated: usize = 0;
    let mut total: u64 = 0;
    let mut earliest: Option<DateStamp> = None;
    let mut latest: Option<DateStamp> = None;
    let mut i: usize = 0;
    assert(emails@.take(0) =~= Seq::<(ScanPath, Email)>::empty());
    while i < emails.len()
        invariant
            i <= emails@.len(),
            total_size_of(emails@) <= u64::MAX,
            dates_valid(emails@),
            sender_counts@ == sender_counts_of(emails@.take(i as int)),
            sender_sizes@ == sender_sizes_of(emails@.take(i as int)),
            bucket_counts@ == bucket_counts_of(emails@.take(i as int)),
            folder_counts@ == folder_counts_of(emails@.take(i as int), dirs@),
            folder_sizes@ == folder_sizes_of(emails@.take(i as int), dirs@),
            years@ == year_counts_of(emails@.take(i as int)),
            undated as nat == undated_of(emails@.take(i as int)),
            total as nat == total_size_of(emails@.take(i as int)),
            earliest == earliest_of(emails@.take(i as int)),
            latest == latest_of(emails@.take(i as int)),
            undated <= i,
            forall|j: int| 0 <= j < sender_counts@.len() ==> (#[trigger] sender_counts@[j]).1 <= i,
            forall|j: int| 0 <= j < bucket_counts@.len() ==> (#[trigger] bucket_counts@[j]).1 <= i,
            forall|j: int| 0 <= j < folder_counts@.len() ==> (#[trigger] folder_counts@[j]).1 <= i,
            forall|j: int| 0 <= j < sender_sizes@.len() ==> (#[trigger] sender_sizes@[j]).1 <= total,
            forall|j: int| 0 <= j < folder_sizes@.len() ==> (#[trigger] folder_sizes@[j]).1 <= total,
            forall|k: i32| #[trigger] years@.contains_key(k) ==> years@[k] <= i,
            earliest matches Some(d) ==> 1 <= d.month <= 12 && 1 <= d.day <= 31,
            latest matches Some(d) ==> 1 <= d.month <= 12 && 1 <= d.day <= 31,
        decreases emails@.len() - i,
    {
        let entry = &emails[i];
        let path = &entry.0;
        let email = &entry.1;
        let ghost pre = emails@.take(i as int);
        let ghost cur = emails@.take(i + 1);
        assert(cur.drop_last() =~= pre);
        assert(cur.last() == emails@[i as int]);
        proof {
            lemma_total_prefix(emails@, i + 1);
            lemma_add_count(sender_counts@, email.from@, i as int);
            lemma_add_size(sender_sizes@, email.from@, email.size_bytes, total as int);
        }
        // senders
        let c = match sender_counts.get(&email.from) {
            Some(c) => c,
            None => 0,
        };
        let key = email.from.clone();
        let ghost old_counts = sender_counts@;
        sender_counts.insert(key, c + 1);
        assert(sender_counts@ == add_count(old_counts, email.from@));
        let s = match sender_sizes.get(&email.from) {
            Some(s) => s,
            None => 0,
        };
        let key = email.from.clone();
        let ghost old_sizes = sender_sizes@;
        sender_sizes.insert(key, s + email.size_bytes);
        assert(sender_sizes@ == add_size(old_sizes, email.from@, email.size_bytes));
        // years
        match email.date {
            Some(d) => {
                let y = match years.get(&d.year) {
                    Some(n) => *n,
                    None => 0,
                };
                years.insert(d.year, y + 1);
                match earliest {
                    Some(a) => {
                        if is_before(&d, &a) {
                            earliest = Some(d);
                        }
                    },
                    None => {
                        earliest = Some(d);
                    },
                }
                match latest {
                    Some(a) => {
                        if !is_before(&d, &a) {
                            latest = Some(d);
                        }
                    },
                    None => {
                        latest = Some(d);
                    },
                }
            },
            None => {
                undated = undated + 1;
            },
        }
        // size buckets
        let b = bucket_index(email.size_bytes);
        let label: &'static str = SIZE_BUCKET_ORDER[b];
        let bucket_key = string_of(&chars_of(label));
        proof { lemma_add_count(bucket_counts@, bucket_key@, i as int); }
        let n = match bucket_counts.get(&bucket_key) {
            Some(n) => n,
            None => 0,
        };
        let ghost old_buckets = bucket_counts@;
        let ghost bk = bucket_key@;
        bucket_counts.insert(bucket_key, n + 1);
        assert(bucket_counts@ == add_count(old_buckets, bk));
        // folders
        let folder = folder_label(path, dirs);
        proof {
            lemma_add_count(folder_counts@, folder@, i as int);
            lemma_add_size(folder_sizes@, folder@, email.size_bytes, total as int);
        }
        let n = match folder_counts.get(&folder) {
            Some(n) => n,
            None => 0,
        };
        let key = folder.clone();
        let ghost old_folders = folder_counts@;
        folder_counts.insert(key, n + 1);
        assert(folder_counts@ == add_count(old_folders, folder@));
        let s = match folder_sizes.get(&folder) {
            Some(s) => s,
            None => 0,
        };
        let ghost old_fsizes = folder_sizes@;
        let ghost fk = folder@;
        folder_sizes.insert(folder, s + email.size_bytes);
        assert(folder_sizes@ == add_size(old_fsizes, fk, email.size_bytes));
        total = total + email.size_bytes;
        i = i + 1;
    }
    assert(emails@.take(emails@.len() as int) =~= emails@);
    let total_emails = emails.len();
    let avg_size_bytes = if total_emails > 0 {
        total / (total_emails as u64)
    } else {
        0
    };
    let date_range = match (earliest, latest) {
        (Some(a), Some(b)) => Some((format_ymd(&a), format_ymd(&b))),
        _ => None,
    };
    let builder = ReportBuilder {
        total_emails,
        parse_errors,
        total_size_bytes: total,
        avg_size_bytes,
        date_range,
        sender_counts,
        sender_sizes,
        year_counts: years,
        emails_without_date: undated,
        size_bucket_counts: bucket_counts,
        folder_counts,
        folder_sizes,
        top_senders_limit: top_n,
        show_all_folders,
        include_folders: dirs.len() > 1,
    };
    assert(builder.tallies() == tallies_of(emails@, parse_errors, dirs@, top_n, show_all_folders));
    builder.build()
}

} // verus!

verus! {

// ── Laws of the tallies ───────────────────────────────────────────────────────

/// The sum of the counts in a table.
pub open spec fn count_total(entries: Seq<(Seq<char>, usize)>) -> nat
    decreases entries.len(),
{
    if entries.len() == 0 {
        0
    } else {
        count_total(entries.drop_last()) + (entries.last().1 as nat)
    }
}

/// The sum of the byte totals in a table.
pub open spec fn size_total(entries: Seq<(Seq<char>, u64)>) -> nat
    decreases entries.len(),
{
    if entries.len() == 0 {
        0
    } else {
        size_total(entries.drop_last()) + (entries.last().1 as nat)
    }
}

proof fn lemma_count_total_update(entries: Seq<(Seq<char>, usize)>, p: int, e: (Seq<char>, usize))
    requires
        0 <= p < entries.len(),
    ensures
        count_total(entries.update(p, e)) + entries[p].1 == count_total(entries) + e.1,
    decreases entries.len(),
{
    let u = entries.update(p, e);
    if p == entries.len() - 1 {
        assert(u.drop_last() =~= entries.drop_last());
    } else {
        assert(u.drop_last() =~= entries.drop_last().update(p, e));
        lemma_count_total_update(entries.drop_last(), p, e);
    }
}

proof fn lemma_size_total_update(entries: Seq<(Seq<char>, u64)>, p: int, e: (Seq<char>, u64))
    requires
        0 <= p < entries.len(),
    ensures
        size_total(entries.update(p, e)) + entries[p].1 == size_total(entries) + e.1,
    decreases entries.len(),
{
    let u = entries.update(p, e);
    if p == entries.len() - 1 {
        assert(u.drop_last() =~= entries.drop_last());
    } else {
        assert(u.drop_last() =~= entries.drop_last().update(p, e));
        lemma_size_total_update(entries.drop_last(), p, e);
    }
}

proof fn lemma_count_total_add(entries: Seq<(Seq<char>, usize)>, k: Seq<char>)
    requires
        value_or_zero(entries, k, 0usize) < usize::MAX,
    ensures
        count_total(add_count(entries, k)) == count_total(entries) + 1,
{
    lemma_position(entries, k);
    match position(entries, k) {
        Some(p) => {
            lemma_count_total_update(entries, p, (k, (entries[p].1 + 1) as usize));
        },
        None => {
            assert(add_count(entries, k).drop_last() =~= entries);
        },
    }
}

proof fn lemma_size_total_add(entries: Seq<(Seq<char>, u64)>, k: Seq<char>, n: u64)
    requires
        value_or_zero(entries, k, 0u64) + n <= u64::MAX,
    ensures
        size_total(add_size(entries, k, n)) == size_total(entries) + n,
{
    lemma_position(entries, k);
    match position(entries, k) {
        Some(p) => {
            lemma_size_total_update(entries, p, (k, (entries[p].1 + n) as u64));
        },
        None => {
            assert(add_size(entries, k, n).drop_last() =~= entries);
        },
    }
}

/// Every count in a table of `n` messages is at most `n`, and the counts add up to `n`.
proof fn lemma_counts_of(
    es: Seq<(ScanPath, Email)>,
    roots: Seq<ScanPath>,
)
    requires
        es.len() <= usize::MAX,
    ensures
        count_total(sender_counts_of(es)) == es.len(),
        count_total(bucket_counts_of(es)) == es.len(),
        count_total(folder_counts_of(es, roots)) == es.len(),
        values_at_most(sender_counts_of(es), es.len() as int, |c: usize| c as int),
        values_at_most(bucket_counts_of(es), es.len() as int, |c: usize| c as int),
        values_at_most(folder_counts_of(es, roots), es.len() as int, |c: usize| c as int),
    decreases es.len(),
{
    if es.len() > 0 {
        let pre = es.drop_last();
        let n = pre.len() as int;
        lemma_counts_of(pre, roots);
        let e = es.last();
        lemma_add_count(sender_counts_of(pre), e.1.from@, n);
        lemma_count_total_add(sender_counts_of(pre), e.1.from@);
        let bk = SIZE_BUCKET_ORDER@[bucket_of(e.1.size_bytes)]@;
        lemma_add_count(bucket_counts_of(pre), bk, n);
        lemma_count_total_add(bucket_counts_of(pre), bk);
        lemma_add_count(folder_counts_of(pre, roots), folder_of(e.0, roots), n);
        lemma_count_total_add(folder_counts_of(pre, roots), folder_of(e.0, roots));
    }
}

/// Every byte total in a table is at most the total size, and they add up to it.
proof fn lemma_sizes_of(es: Seq<(ScanPath, Email)>, roots: Seq<ScanPath>)
    requires
        total_size_of(es) <= u64::MAX,
    ensures
        size_total(sender_sizes_of(es)) == total_size_of(es),
        size_total(folder_sizes_of(es, roots)) == total_size_of(es),
        values_at_most(sender_sizes_of(es), total_size_of(es) as int, |c: u64| c as int),
        values_at_most(folder_sizes_of(es, roots), total_size_of(es) as int, |c: u64| c as int),
    decreases es.len(),
{
    if es.len() > 0 {
        let pre = es.drop_last();
        let t = total_size_of(pre) as int;
        lemma_sizes_of(pre, roots);
        let e = es.last();
        lemma_add_size(sender_sizes_of(pre), e.1.from@, e.1.size_bytes, t);
        lemma_size_total_add(sender_sizes_of(pre), e.1.from@, e.1.size_bytes);
        lemma_add_size(folder_sizes_of(pre, roots), folder_of(e.0, roots), e.1.size_bytes, t);
        lemma_size_total_add(folder_sizes_of(pre, roots), folder_of(e.0, roots), e.1.size_bytes);
    }
}

/// How many messages are dated in year `y`.
pub open spec fn dated_in(es: Seq<(ScanPath, Email)>, y: i32) -> nat
    decreases es.len(),
{
    if es.len() == 0 {
        0
    } else {
        dated_in(es.drop_last(), y) + if es.last().1.date matches Some(d) && d.year == y { 1nat } else { 0nat }
    }
}

proof fn lemma_dated_in_le(es: Seq<(ScanPath, Email)>, y: i32)
    ensures
        dated_in(es, y) <= es.len(),
    decreases es.len(),
{
    if es.len() > 0 {
        lemma_dated_in_le(es.drop_last(), y);
    }
}

/// The year table lists exactly the years some message is dated in, each
/// with the number of messages dated in it.
pub proof fn law_years_count_dated_messages(es: Seq<(ScanPath, Email)>, y: i32)
    requires
        es.len() <= usize::MAX,
    ensures
        year_counts_of(es).contains_key(y) <==> dated_in(es, y) > 0,
        year_counts_of(es).contains_key(y) ==> year_counts_of(es)[y] == dated_in(es, y),
    decreases es.len(),
{
    if es.len() > 0 {
        let pre = es.drop_last();
        law_years_count_dated_messages(pre, y);
        lemma_dated_in_le(pre, y);
    }
}

/// The date range spans every dated message: the earliest date is no later
/// than any message's date, the latest no earlier, so the range never runs
/// backwards; and there is a range exactly when some message is dated.
pub proof fn law_date_range_spans_dates(es: Seq<(ScanPath, Email)>)
    ensures
        (earliest_of(es) is Some) == (latest_of(es) is Some),
        earliest_of(es) is Some <==> exists|i: int| 0 <= i < es.len() && (#[trigger] es[i]).1.date is Some,
        forall|i: int| 0 <= i < es.len() && (#[trigger] es[i]).1.date is Some ==> !before(
            es[i].1.date->0,
            earliest_of(es)->0,
        ) && !before(latest_of(es)->0, es[i].1.date->0),
        earliest_of(es) is Some ==> !before(latest_of(es)->0, earliest_of(es)->0),
        earliest_of(es) is Some ==> exists|i: int| 0 <= i < es.len() && (#[trigger] es[i]).1.date == earliest_of(es),
        latest_of(es) is Some ==> exists|i: int| 0 <= i < es.len() && (#[trigger] es[i]).1.date == latest_of(es),
    decreases es.len(),
{
    if es.len() > 0 {
        let pre = es.drop_last();
        law_date_range_spans_dates(pre);
        if earliest_of(es) is Some && earliest_of(es) == earliest_of(pre) {
            let i = choose|i: int| 0 <= i < pre.len() && (#[trigger] pre[i]).1.date == earliest_of(pre);
            assert(es[i] == pre[i]);
        }
        if latest_of(es) is Some && latest_of(es) == latest_of(pre) {
            let i = choose|i: int| 0 <= i < pre.len() && (#[trigger] pre[i]).1.date == latest_of(pre);
            assert(es[i] == pre[i]);
        }
        assert forall|i: int| 0 <= i < pre.len() implies #[trigger] pre[i] == es[i] by {}
        let last = es.len() - 1;
        assert(es[last] == es.last());
        assert forall|i: int| 0 <= i < es.len() && (#[trigger] es[i]).1.date is Some implies !before(
            es[i].1.date->0,
            earliest_of(es)->0,
        ) && !before(latest_of(es)->0, es[i].1.date->0) by {
            if i < last {
                assert(es[i] == pre[i]);
                assert(pre[i].1.date is Some);
            }
        }
        if earliest_of(es) is Some {
            if es.last().1.date is None {
                let i = choose|i: int| 0 <= i < pre.len() && (#[trigger] pre[i]).1.date is Some;
                assert(es[i] == pre[i]);
            }
        } else {
            assert forall|i: int| 0 <= i < es.len() implies (#[trigger] es[i]).1.date is None by {
                if i < last {
                    assert(es[i] == pre[i]);
                }
            }
        }
    }
}

/// Each message is counted exactly once under its sender, once under its
/// size bucket and once under its folder; and each table of byte totals
/// adds up to the total size.
pub proof fn law_each_message_counted_once(es: Seq<(ScanPath, Email)>, roots: Seq<ScanPath>)
    requires
        es.len() <= usize::MAX,
        total_size_of(es) <= u64::MAX,
    ensures
        count_total(sender_counts_of(es)) == es.len(),
        count_total(bucket_counts_of(es)) == es.len(),
        count_total(folder_counts_of(es, roots)) == es.len(),
        size_total(sender_sizes_of(es)) == total_size_of(es),
        size_total(folder_sizes_of(es, roots)) == total_size_of(es),
{
    lemma_counts_of(es, roots);
    lemma_sizes_of(es, roots);
}

} // verus!

verus! {

// ── Per-message totals of the report tables ──────────────────────────────────

/// The six size-bucket labels are different texts.
proof fn lemma_bucket_labels_distinct()
    ensures
        forall|i: int, j: int|
            0 <= i < 6 && 0 <= j < 6 && i != j ==> (#[trigger] SIZE_BUCKET_ORDER@[i])@
                != (#[trigger] SIZE_BUCKET_ORDER@[j])@,
{
    reveal_strlit("< 1 KB");
    reveal_strlit("1–10 KB");
    reveal_strlit("10–100 KB");
    reveal_strlit("100 KB–1 MB");
    reveal_strlit("1–10 MB");
    reveal_strlit("> 10 MB");
    assert(SIZE_BUCKET_ORDER@[0] == "< 1 KB");
    assert(SIZE_BUCKET_ORDER@[1] == "1–10 KB");
    assert(SIZE_BUCKET_ORDER@[2] == "10–100 KB");
    assert(SIZE_BUCKET_ORDER@[3] == "100 KB–1 MB");
    assert(SIZE_BUCKET_ORDER@[4] == "1–10 MB");
    assert(SIZE_BUCKET_ORDER@[5] == "> 10 MB");
    assert("< 1 KB"@.len() == 6);
    assert("1–10 KB"@.len() == 7 && "1–10 KB"@[0] == '1' && "1–10 KB"@[5] == 'K');
    assert("10–100 KB"@.len() == 9);
    assert("100 KB–1 MB"@.len() == 11);
    assert("1–10 MB"@.len() == 7 && "1–10 MB"@[0] == '1' && "1–10 MB"@[5] == 'M');
    assert("> 10 MB"@.len() == 7 && "> 10 MB"@[0] == '>');
}

/// The counts a table holds under the first `n` size-bucket labels, added up.
pub open spec fn labelled_total(entries: Seq<(Seq<char>, usize)>, n: nat) -> nat
    decreases n,
{
    if n == 0 {
        0
    } else {
        labelled_total(entries, (n - 1) as nat) + (value_or_zero(
            entries,
            SIZE_BUCKET_ORDER@[n - 1]@,
            0usize,
        ) as nat)
    }
}

proof fn lemma_value_after_add(entries: Seq<(Seq<char>, usize)>, k: Seq<char>, other: Seq<char>)
    requires
        value_or_zero(entries, k, 0usize) < usize::MAX,
    ensures
        value_or_zero(add_count(entries, k), other, 0usize) == if other == k {
            value_or_zero(entries, k, 0usize) + 1
        } else {
            value_or_zero(entries, other, 0usize) as int
        },
{
    law_get_after_insert(entries, k, (value_or_zero(entries, k, 0usize) + 1) as usize, other);
}

proof fn lemma_labelled_total_add(entries: Seq<(Seq<char>, usize)>, b: int, n: nat)
    requires
        0 <= b < 6,
        n <= 6,
        value_or_zero(entries, SIZE_BUCKET_ORDER@[b]@, 0usize) < usize::MAX,
    ensures
        labelled_total(add_count(entries, SIZE_BUCKET_ORDER@[b]@), n) == labelled_total(entries, n) + if b
            < n {
            1nat
        } else {
            0nat
        },
    decreases n,
{
    if n > 0 {
        lemma_labelled_total_add(entries, b, (n - 1) as nat);
        lemma_bucket_labels_distinct();
        let i = n - 1;
        assert(i == b || SIZE_BUCKET_ORDER@[i]@ != SIZE_BUCKET_ORDER@[b]@);
        lemma_value_after_add(entries, SIZE_BUCKET_ORDER@[b]@, SIZE_BUCKET_ORDER@[i]@);
    }
}

/// Every message falls in exactly one size bucket.
pub proof fn law_buckets_count_every_message(es: Seq<(ScanPath, Email)>)
    requires
        es.len() <= usize::MAX,
    ensures
        labelled_total(bucket_counts_of(es), 6) == es.len(),
    decreases es.len(),
{
    if es.len() > 0 {
        let pre = es.drop_last();
        law_buckets_count_every_message(pre);
        lemma_counts_of(pre, seq![]);
        let b = bucket_of(es.last().1.size_bytes);
        let k = SIZE_BUCKET_ORDER@[b]@;
        lemma_add_count(bucket_counts_of(pre), k, pre.len() as int);
        lemma_labelled_total_add(bucket_counts_of(pre), b, 6);
        assert(bucket_counts_of(es) == add_count(bucket_counts_of(pre), k));
    } else {
        lemma_labelled_total_empty(bucket_counts_of(es), 6);
    }
}

proof fn lemma_labelled_total_empty(entries: Seq<(Seq<char>, usize)>, n: nat)
    requires
        entries.len() == 0,
    ensures
        labelled_total(entries, n) == 0,
    decreases n,
{
    if n > 0 {
        lemma_labelled_total_empty(entries, (n - 1) as nat);
    }
}

/// Messages with a date.
pub open spec fn dated_count(es: Seq<(ScanPath, Email)>) -> nat
    decreases es.len(),
{
    if es.len() == 0 {
        0
    } else {
        dated_count(es.drop_last()) + if es.last().1.date is Some { 1nat } else { 0nat }
    }
}

/// Every message is dated or undated.
proof fn lemma_dated_undated(es: Seq<(ScanPath, Email)>)
    ensures
        dated_count(es) + undated_of(es) == es.len(),
    decreases es.len(),
{
    if es.len() > 0 {
        lemma_dated_undated(es.drop_last());
    }
}

/// The messages dated in the years `ys`, added up year by year.
pub open spec fn year_sum(es: Seq<(ScanPath, Email)>, ys: Seq<i32>) -> nat
    decreases ys.len(),
{
    if ys.len() == 0 {
        0
    } else {
        year_sum(es, ys.drop_last()) + dated_in(es, ys.last())
    }
}

/// How often `y` occurs in `ys`.
pub open spec fn occurrences(ys: Seq<i32>, y: i32) -> nat
    decreases ys.len(),
{
    if ys.len() == 0 {
        0
    } else {
        occurrences(ys.drop_last(), y) + if ys.last() == y { 1nat } else { 0nat }
    }
}

proof fn lemma_year_sum_step(es: Seq<(ScanPath, Email)>, ys: Seq<i32>)
    requires
        es.len() > 0,
    ensures
        year_sum(es, ys) == year_sum(es.drop_last(), ys) + match es.last().1.date {
            Some(d) => occurrences(ys, d.year),
            None => 0,
        },
    decreases ys.len(),
{
    if ys.len() > 0 {
        lemma_year_sum_step(es, ys.drop_last());
    }
}

proof fn lemma_occurrences_distinct(ys: Seq<i32>, y: i32)
    requires
        ys.no_duplicates(),
    ensures
        occurrences(ys, y) == if ys.contains(y) { 1nat } else { 0nat },
    decreases ys.len(),
{
    if ys.len() > 0 {
        let d = ys.drop_last();
        assert(d.no_duplicates()) by {
            assert forall|i: int, j: int| 0 <= i < d.len() && 0 <= j < d.len() && i != j implies d[i] != d[j] by {
                assert(d[i] == ys[i] && d[j] == ys[j]);
            }
        }
        lemma_occurrences_distinct(d, y);
        if ys.contains(y) {
            let k = choose|k: int| 0 <= k < ys.len() && ys[k] == y;
            if ys.last() == y {
                if d.contains(y) {
                    let m = choose|m: int| 0 <= m < d.len() && d[m] == y;
                    assert(ys[m] == y && m != ys.len() - 1);
                }
            } else {
                assert(k < ys.len() - 1);
                assert(d[k] == y);
            }
        } else {
            if d.contains(y) {
                let m = choose|m: int| 0 <= m < d.len() && d[m] == y;
                assert(ys[m] == y);
            }
        }
    }
}

/// Over distinct years that include every message's year, the per-year
/// counts add up to the number of dated messages.
proof fn lemma_year_sum_dated(es: Seq<(ScanPath, Email)>, ys: Seq<i32>)
    requires
        ys.no_duplicates(),
        forall|i: int| 0 <= i < es.len() ==> ((#[trigger] es[i]).1.date matches Some(d) ==> ys.contains(d.year)),
    ensures
        year_sum(es, ys) == dated_count(es),
    decreases es.len(),
{
    if es.len() == 0 {
        assert(year_sum(es, ys) == 0) by {
            lemma_year_sum_empty(es, ys);
        }
    } else {
        let pre = es.drop_last();
        assert forall|i: int| 0 <= i < pre.len() implies ((#[trigger] pre[i]).1.date matches Some(d) ==> ys.contains(d.year)) by {
            assert(pre[i] == es[i]);
        }
        lemma_year_sum_dated(pre, ys);
        lemma_year_sum_step(es, ys);
        assert(es[es.len() - 1] == es.last());
        match es.last().1.date {
            Some(d) => {
                lemma_occurrences_distinct(ys, d.year);
            },
            None => {},
        }
    }
}

proof fn lemma_year_sum_empty(es: Seq<(ScanPath, Email)>, ys: Seq<i32>)
    requires
        es.len() == 0,
    ensures
        year_sum(es, ys) == 0,
    decreases ys.len(),
{
    if ys.len() > 0 {
        lemma_year_sum_empty(es, ys.drop_last());
    }
}

/// The counts of a table's rows, added up.
pub open spec fn row_total<K>(rows: Seq<(K, usize)>) -> nat
    decreases rows.len(),
{
    if rows.len() == 0 {
        0
    } else {
        row_total(rows.drop_last()) + (rows.last().1 as nat)
    }
}

proof fn lemma_year_rows_total(es: Seq<(ScanPath, Email)>, rows: Seq<(i32, usize)>)
    requires
        es.len() <= usize::MAX,
        forall|t: int| 0 <= t < rows.len() ==> (#[trigger] rows[t]).1 == dated_in(es, rows[t].0),
    ensures
        row_total(rows) == year_sum(es, Seq::new(rows.len(), |t: int| rows[t].0)),
    decreases rows.len(),
{
    if rows.len() > 0 {
        let d = rows.drop_last();
        assert forall|t: int| 0 <= t < d.len() implies (#[trigger] d[t]).1 == dated_in(es, d[t].0) by {
            assert(d[t] == rows[t]);
        }
        lemma_year_rows_total(es, d);
        let ys = Seq::new(rows.len(), |t: int| rows[t].0);
        assert(ys.drop_last() =~= Seq::new(d.len(), |t: int| d[t].0));
        assert(rows[rows.len() - 1] == rows.last());
    }
}

/// A report compiled from a set of messages counts each of them once in the
/// size table, and once in the year table or as undated.
pub proof fn law_report_tables_count_every_message(
    r: Report,
    es: Seq<(ScanPath, Email)>,
    parse_errors: usize,
    roots: Seq<ScanPath>,
    top_n: usize,
    show_all_folders: bool,
)
    requires
        es.len() <= usize::MAX,
        compiled_from(r, tallies_of(es, parse_errors, roots, top_n, show_all_folders)),
    ensures
        row_total(r.size_buckets@) == es.len(),
        row_total(r.emails_by_year@) + r.emails_without_date == es.len(),
{
    let t = tallies_of(es, parse_errors, roots, top_n, show_all_folders);
    // size buckets
    law_buckets_count_every_message(es);
    lemma_size_rows(r.size_buckets@, bucket_counts_of(es), 6);
    assert(r.size_buckets@.take(6) =~= r.size_buckets@);
    // years
    let rows = r.emails_by_year@;
    let m = year_counts_of(es);
    assert forall|k: int| 0 <= k < rows.len() implies (#[trigger] rows[k]).1 == dated_in(es, rows[k].0) by {
        law_years_count_dated_messages(es, rows[k].0);
    }
    lemma_year_rows_total(es, rows);
    let ys = Seq::new(rows.len(), |k: int| rows[k].0);
    assert(ys.no_duplicates()) by {
        assert forall|i: int, j: int| 0 <= i < ys.len() && 0 <= j < ys.len() && i != j implies ys[i] != ys[j] by {
            if i < j {
                assert(rows[i].0 < rows[j].0);
            } else {
                assert(rows[j].0 < rows[i].0);
            }
        }
    }
    assert forall|i: int| 0 <= i < es.len() implies ((#[trigger] es[i]).1.date matches Some(d) ==> ys.contains(d.year)) by {
        if es[i].1.date is Some {
            let y = es[i].1.date->0.year;
            lemma_dated_in_positive(es, i);
            law_years_count_dated_messages(es, y);
            assert(m.contains_key(y));
            let k = choose|k: int| 0 <= k < rows.len() && (#[trigger] rows[k]).0 == y;
            assert(ys[k] == y);
        }
    }
    lemma_year_sum_dated(es, ys);
    lemma_dated_undated(es);
}

proof fn lemma_dated_in_positive(es: Seq<(ScanPath, Email)>, i: int)
    requires
        0 <= i < es.len(),
        es[i].1.date is Some,
    ensures
        dated_in(es, es[i].1.date->0.year) > 0,
    decreases es.len(),
{
    if i < es.len() - 1 {
        assert(es.drop_last()[i] == es[i]);
        lemma_dated_in_positive(es.drop_last(), i);
    } else {
        assert(es[i] == es.last());
    }
}

proof fn lemma_size_rows(rows: Seq<(&'static str, usize)>, counts: Seq<(Seq<char>, usize)>, n: nat)
    requires
        n <= 6,
        rows.len() == 6,
        forall|i: int| 0 <= i < 6 ==> (#[trigger] rows[i]).0 == SIZE_BUCKET_ORDER@[i] && rows[i].1
            == value_or_zero(counts, SIZE_BUCKET_ORDER@[i]@, 0usize),
    ensures
        row_total(rows.take(n as int)) == labelled_total(counts, n),
    decreases n,
{
    if n > 0 {
        lemma_size_rows(rows, counts, (n - 1) as nat);
        assert(rows.take(n as int).drop_last() =~= rows.take(n - 1));
        assert(rows.take(n as int).last() == rows[n - 1]);
    }
}

} // verus!

verus! {

// ── Tallies by key ────────────────────────────────────────────────────────────

/// How many messages have the key `a`.
pub open spec fn key_count(es: Seq<(ScanPath, Email)>, key: spec_fn((ScanPath, Email)) -> Seq<char>, a: Seq<char>) -> nat
    decreases es.len(),
{
    if es.len() == 0 {
        0
    } else {
        key_count(es.drop_last(), key, a) + if key(es.last()) == a { 1nat } else { 0nat }
    }
}

/// The total size of the messages with the key `a`.
pub open spec fn key_size(es: Seq<(ScanPath, Email)>, key: spec_fn((ScanPath, Email)) -> Seq<char>, a: Seq<char>) -> nat
    decreases es.len(),
{
    if es.len() == 0 {
        0
    } else {
        key_size(es.drop_last(), key, a) + if key(es.last()) == a { es.last().1.size_bytes as nat } else { 0nat }
    }
}

/// Messages counted per key, in first-seen order.
pub open spec fn counts_by(es: Seq<(ScanPath, Email)>, key: spec_fn((ScanPath, Email)) -> Seq<char>) -> Seq<(Seq<char>, usize)>
    decreases es.len(),
{
    if es.len() == 0 {
        seq![]
    } else {
        add_count(counts_by(es.drop_last(), key), key(es.last()))
    }
}

/// Bytes per key, in first-seen order.
pub open spec fn sizes_by(es: Seq<(ScanPath, Email)>, key: spec_fn((ScanPath, Email)) -> Seq<char>) -> Seq<(Seq<char>, u64)>
    decreases es.len(),
{
    if es.len() == 0 {
        seq![]
    } else {
        add_size(sizes_by(es.drop_last(), key), key(es.last()), es.last().1.size_bytes)
    }
}

/// A message's sender address.
pub open spec fn sender_key() -> spec_fn((ScanPath, Email)) -> Seq<char> {
    |e: (ScanPath, Email)| e.1.from@
}

/// A message's folder label.
pub open spec fn folder_key(roots: Seq<ScanPath>) -> spec_fn((ScanPath, Email)) -> Seq<char> {
    |e: (ScanPath, Email)| folder_of(e.0, roots)
}

proof fn lemma_tables_by_key(es: Seq<(ScanPath, Email)>, roots: Seq<ScanPath>)
    ensures
        sender_counts_of(es) == counts_by(es, sender_key()),
        sender_sizes_of(es) == sizes_by(es, sender_key()),
        folder_counts_of(es, roots) == counts_by(es, folder_key(roots)),
        folder_sizes_of(es, roots) == sizes_by(es, folder_key(roots)),
    decreases es.len(),
{
    if es.len() > 0 {
        lemma_tables_by_key(es.drop_last(), roots);
    }
}

proof fn lemma_key_count_le(es: Seq<(ScanPath, Email)>, key: spec_fn((ScanPath, Email)) -> Seq<char>, a: Seq<char>)
    ensures
        key_count(es, key, a) <= es.len(),
        key_size(es, key, a) <= total_size_of(es),
    decreases es.len(),
{
    if es.len() > 0 {
        lemma_key_count_le(es.drop_last(), key, a);
    }
}

/// Each key is stored once, with the number of messages that have it.
proof fn lemma_counts_by_exact(es: Seq<(ScanPath, Email)>, key: spec_fn((ScanPath, Email)) -> Seq<char>)
    requires
        es.len() <= usize::MAX,
    ensures
        names_distinct(counts_by(es, key)),
        forall|a: Seq<char>| #[trigger] lookup(counts_by(es, key), a) == if key_count(es, key, a) > 0 {
            Some(key_count(es, key, a) as usize)
        } else {
            None
        },
    decreases es.len(),
{
    if es.len() > 0 {
        let pre = es.drop_last();
        lemma_counts_by_exact(pre, key);
        let k = key(es.last());
        let old_t = counts_by(pre, key);
        lemma_key_count_le(pre, key, k);
        let v = (value_or_zero(old_t, k, 0usize) + 1) as usize;
        law_insert_keeps_names_distinct(old_t, k, v);
        assert forall|a: Seq<char>| #[trigger] lookup(counts_by(es, key), a) == if key_count(es, key, a) > 0 {
            Some(key_count(es, key, a) as usize)
        } else {
            None
        } by {
            law_get_after_insert(old_t, k, v, a);
            assert(lookup(old_t, a) == if key_count(pre, key, a) > 0 {
                Some(key_count(pre, key, a) as usize)
            } else {
                None
            });
        }
    } else {
        assert(names_distinct(counts_by(es, key)));
    }
}

/// The bytes stored under each key are the total size of its messages.
proof fn lemma_sizes_by_exact(es: Seq<(ScanPath, Email)>, key: spec_fn((ScanPath, Email)) -> Seq<char>)
    requires
        total_size_of(es) <= u64::MAX,
    ensures
        forall|a: Seq<char>| #[trigger] value_or_zero(sizes_by(es, key), a, 0u64) == key_size(es, key, a),
    decreases es.len(),
{
    if es.len() > 0 {
        let pre = es.drop_last();
        lemma_sizes_by_exact(pre, key);
        let k = key(es.last());
        let old_t = sizes_by(pre, key);
        lemma_key_count_le(pre, key, k);
        let v = (value_or_zero(old_t, k, 0u64) + es.last().1.size_bytes) as u64;
        assert forall|a: Seq<char>| #[trigger] value_or_zero(sizes_by(es, key), a, 0u64) == key_size(es, key, a) by {
            law_get_after_insert(old_t, k, v, a);
            assert(value_or_zero(old_t, a, 0u64) == key_size(pre, key, a));
        }
    }
}

/// The rows of exact tallies: each row is a distinct key with its message
/// count (positive) and total size, and every key of a message has a row.
pub open spec fn exact_rows(rows: Seq<(Seq<char>, usize, u64)>, es: Seq<(ScanPath, Email)>, key: spec_fn((ScanPath, Email)) -> Seq<char>) -> bool {
    &&& forall|i: int| 0 <= i < rows.len() ==> (#[trigger] rows[i]).1 == key_count(es, key, rows[i].0)
        && rows[i].2 == key_size(es, key, rows[i].0) && key_count(es, key, rows[i].0) > 0
    &&& forall|i: int, j: int| 0 <= i < rows.len() && 0 <= j < rows.len() && i != j ==> (#[trigger] rows[i]).0
        != (#[trigger] rows[j]).0
    &&& forall|k: int| 0 <= k < es.len() ==> exists|i: int| 0 <= i < rows.len() && (#[trigger] rows[i]).0 == key(
        #[trigger] es[k],
    )
}

proof fn lemma_key_count_positive(es: Seq<(ScanPath, Email)>, key: spec_fn((ScanPath, Email)) -> Seq<char>, k: int)
    requires
        0 <= k < es.len(),
    ensures
        key_count(es, key, key(es[k])) > 0,
    decreases es.len(),
{
    if k < es.len() - 1 {
        assert(es.drop_last()[k] == es[k]);
        lemma_key_count_positive(es.drop_last(), key, k);
    } else {
        assert(es[k] == es.last());
    }
}

/// A permutation of the tally rows of exact tables is exact.
proof fn lemma_ranked_rows_exact(
    sorted: Seq<(Seq<char>, usize, u64)>,
    es: Seq<(ScanPath, Email)>,
    key: spec_fn((ScanPath, Email)) -> Seq<char>,
)
    requires
        es.len() <= usize::MAX,
        total_size_of(es) <= u64::MAX,
        sorted.to_multiset() == tally_rows(counts_by(es, key), sizes_by(es, key)).to_multiset(),
    ensures
        exact_rows(sorted, es, key),
{
    broadcast use vstd::seq_lib::group_to_multiset_ensures;

    let counts = counts_by(es, key);
    let rows = tally_rows(counts, sizes_by(es, key));
    lemma_counts_by_exact(es, key);
    lemma_sizes_by_exact(es, key);
    assert forall|i: int| 0 <= i < rows.len() implies (#[trigger] rows[i]).1 == key_count(es, key, rows[i].0)
        && rows[i].2 == key_size(es, key, rows[i].0) && key_count(es, key, rows[i].0) > 0 by {
        lemma_position(counts, counts[i].0);
        let p = position(counts, counts[i].0)->0;
        assert(p == i) by {
            if p != i {
                assert(counts[p].0 == counts[i].0);
            }
        }
        assert(lookup(counts, rows[i].0) == Some(counts[i].1));
        lemma_key_count_le(es, key, rows[i].0);
    }
    assert(rows.no_duplicates()) by {
        assert forall|i: int, j: int| 0 <= i < rows.len() && 0 <= j < rows.len() && i != j implies rows[i] != rows[j] by {
            assert(counts[i].0 != counts[j].0);
        }
    }
    rows.lemma_multiset_has_no_duplicates();
    assert forall|x: (Seq<char>, usize, u64)| sorted.to_multiset().contains(x) implies sorted.to_multiset().count(x) == 1 by {}
    sorted.lemma_multiset_has_no_duplicates_conv();
    assert forall|i: int| 0 <= i < sorted.len() implies (#[trigger] sorted[i]).1 == key_count(es, key, sorted[i].0)
        && sorted[i].2 == key_size(es, key, sorted[i].0) && key_count(es, key, sorted[i].0) > 0 by {
        assert(sorted.contains(sorted[i]));
        assert(sorted.to_multiset().count(sorted[i]) > 0);
        assert(rows.to_multiset().count(sorted[i]) > 0);
        assert(rows.contains(sorted[i]));
        let q = choose|q: int| 0 <= q < rows.len() && rows[q] == sorted[i];
        assert(rows[q] == sorted[i]);
    }
    assert forall|i: int, j: int| 0 <= i < sorted.len() && 0 <= j < sorted.len() && i != j implies (#[trigger] sorted[i]).0
        != (#[trigger] sorted[j]).0 by {
        if sorted[i].0 == sorted[j].0 {
            assert(sorted[i] == sorted[j]);
        }
    }
    assert forall|k: int| 0 <= k < es.len() implies exists|i: int| 0 <= i < sorted.len() && (#[trigger] sorted[i]).0 == key(
        #[trigger] es[k],
    ) by {
        let a = key(es[k]);
        lemma_key_count_positive(es, key, k);
        lemma_position(counts, a);
        let p = position(counts, a)->0;
        assert(rows[p].0 == a);
        assert(rows.contains(rows[p]));
        assert(rows.to_multiset().count(rows[p]) > 0);
        assert(sorted.to_multiset().count(rows[p]) > 0);
        assert(sorted.contains(rows[p]));
        let i = choose|i: int| 0 <= i < sorted.len() && sorted[i] == rows[p];
        assert(sorted[i].0 == a);
    }
}

/// A report compiled from a set of messages lists every sender once, with
/// the number and total size of their messages, most messages first; and,
/// when folders are included, every folder label likewise.
pub proof fn law_report_tallies_exact(
    r: Report,
    es: Seq<(ScanPath, Email)>,
    parse_errors: usize,
    roots: Seq<ScanPath>,
    top_n: usize,
    show_all_folders: bool,
)
    requires
        es.len() <= usize::MAX,
        total_size_of(es) <= u64::MAX,
        compiled_from(r, tallies_of(es, parse_errors, roots, top_n, show_all_folders)),
    ensures
        exact_rows(sender_view(r.top_senders@), es, sender_key()),
        forall|i: int, j: int|
            0 <= i <= j < r.top_senders@.len() ==> (#[trigger] r.top_senders@[i]).1 >= (#[trigger] r.top_senders@[j]).1,
        roots.len() > 1 ==> exact_rows(folder_view(r.folders@), es, folder_key(roots)),
        roots.len() > 1 ==> forall|i: int, j: int|
            0 <= i <= j < r.folders@.len() ==> (#[trigger] r.folders@[i]).count >= (#[trigger] r.folders@[j]).count,
        roots.len() <= 1 ==> r.folders@.len() == 0,
{
    let t = tallies_of(es, parse_errors, roots, top_n, show_all_folders);
    crate::report::law_report_ordering(r, t);
    lemma_tables_by_key(es, roots);
    crate::sorting::law_sort_desc_permutes(tally_rows(t.sender_counts, t.sender_sizes), crate::report::by_count());
    lemma_ranked_rows_exact(sender_view(r.top_senders@), es, sender_key());
    if roots.len() > 1 {
        lemma_ranked_rows_exact(folder_view(r.folders@), es, folder_key(roots));
    }
}

} // verus!

verus! {

proof fn lemma_undated_le(es: Seq<(ScanPath, Email)>)
    ensures
        undated_of(es) <= es.len(),
    decreases es.len(),
{
    if es.len() > 0 {
        lemma_undated_le(es.drop_last());
    }
}

/// A report compiled from a set of messages counts the undated ones, has a
/// date range exactly when some message is dated, running from the earliest
/// message date to the latest (each a message's own date), and lists each
/// year some message is dated in, ascending, with its number of messages.
pub proof fn law_report_dates(
    r: Report,
    es: Seq<(ScanPath, Email)>,
    parse_errors: usize,
    roots: Seq<ScanPath>,
    top_n: usize,
    show_all_folders: bool,
)
    requires
        es.len() <= usize::MAX,
        compiled_from(r, tallies_of(es, parse_errors, roots, top_n, show_all_folders)),
    ensures
        r.emails_without_date == undated_of(es),
        r.date_range is None <==> forall|i: int| 0 <= i < es.len() ==> (#[trigger] es[i]).1.date is None,
        r.date_range matches Some((a, b)) ==> {
            &&& a@ == ymd_text(earliest_of(es)->0)
            &&& b@ == ymd_text(latest_of(es)->0)
            &&& exists|i: int| 0 <= i < es.len() && (#[trigger] es[i]).1.date == earliest_of(es)
            &&& exists|i: int| 0 <= i < es.len() && (#[trigger] es[i]).1.date == latest_of(es)
            &&& forall|i: int| 0 <= i < es.len() && (#[trigger] es[i]).1.date is Some ==> !before(
                es[i].1.date->0,
                earliest_of(es)->0,
            ) && !before(latest_of(es)->0, es[i].1.date->0)
        },
        forall|i: int, j: int|
            0 <= i < j < r.emails_by_year@.len() ==> (#[trigger] r.emails_by_year@[i]).0 < (#[trigger] r.emails_by_year@[j]).0,
        forall|t: int| 0 <= t < r.emails_by_year@.len() ==> (#[trigger] r.emails_by_year@[t]).1 == dated_in(es, r.emails_by_year@[t].0),
        forall|i: int| 0 <= i < es.len() && (#[trigger] es[i]).1.date is Some ==> exists|t: int|
            0 <= t < r.emails_by_year@.len() && (#[trigger] r.emails_by_year@[t]).0 == es[i].1.date->0.year,
{
    lemma_undated_le(es);
    law_date_range_spans_dates(es);
    let rows = r.emails_by_year@;
    assert forall|t: int| 0 <= t < rows.len() implies (#[trigger] rows[t]).1 == dated_in(es, rows[t].0) by {
        law_years_count_dated_messages(es, rows[t].0);
    }
    assert forall|i: int| 0 <= i < es.len() && (#[trigger] es[i]).1.date is Some implies exists|t: int|
        0 <= t < rows.len() && (#[trigger] rows[t]).0 == es[i].1.date->0.year by {
        let y = es[i].1.date->0.year;
        lemma_dated_in_positive(es, i);
        law_years_count_dated_messages(es, y);
        assert(year_counts_of(es).contains_key(y));
    }
    if r.date_range is None {
        assert(date_range_of(es) is None);
    }
}

} // verus!

verus! {

proof fn lemma_value_at_most(entries: Seq<(Seq<char>, usize)>, k: Seq<char>, n: int)
    requires
        forall|j: int| 0 <= j < entries.len() ==> (#[trigger] entries[j]).1 <= n,
        0 <= n,
    ensures
        value_or_zero(entries, k, 0usize) <= n,
{
    lemma_position(entries, k);
    if position(entries, k) is Some {
        let p = position(entries, k)->0;
        assert(entries[p].1 <= n);
    }
}

proof fn lemma_scaled(c: int, n: int, bar: int)
    requires
        0 <= c <= n,
        0 <= bar,
        n * bar <= usize::MAX,
    ensures
        c * bar <= usize::MAX,
{
    assert(c * bar <= n * bar) by (nonlinear_arith)
        requires 0 <= c <= n, 0 <= bar;
}

/// A report compiled from messages can always be drawn with bars of `bar`
/// cells when the number of messages times `bar` fits in a `usize`: no count
/// exceeds the number of messages, and no sender outnumbers the first.
pub proof fn law_report_bars_drawable(
    r: Report,
    es: Seq<(ScanPath, Email)>,
    parse_errors: usize,
    roots: Seq<ScanPath>,
    top_n: usize,
    show_all_folders: bool,
    bar: nat,
)
    requires
        es.len() <= usize::MAX,
        total_size_of(es) <= u64::MAX,
        es.len() * bar <= usize::MAX,
        compiled_from(r, tallies_of(es, parse_errors, roots, top_n, show_all_folders)),
    ensures
        bars_fit(r, bar),
{
    let n = es.len() as int;
    law_report_tallies_exact(r, es, parse_errors, roots, top_n, show_all_folders);
    law_report_dates(r, es, parse_errors, roots, top_n, show_all_folders);
    lemma_counts_of(es, roots);
    let sv = sender_view(r.top_senders@);
    assert forall|i: int| 0 <= i < min_nat(r.top_senders_limit as nat, r.top_senders@.len()) implies (#[trigger] r.top_senders@[i]).1
        * bar <= usize::MAX && (r.top_senders@[0].1 > 0 ==> r.top_senders@[i].1 <= r.top_senders@[0].1) by {
        assert(sv[i].1 == r.top_senders@[i].1);
        lemma_key_count_le(es, sender_key(), sv[i].0);
        lemma_scaled(r.top_senders@[i].1 as int, n, bar as int);
    }
    assert forall|i: int| 0 <= i < r.emails_by_year@.len() implies (#[trigger] r.emails_by_year@[i]).1 * bar <= usize::MAX by {
        lemma_dated_in_le(es, r.emails_by_year@[i].0);
        lemma_scaled(r.emails_by_year@[i].1 as int, n, bar as int);
    }
    lemma_undated_le(es);
    lemma_scaled(r.emails_without_date as int, n, bar as int);
    assert forall|i: int| 0 <= i < r.size_buckets@.len() implies (#[trigger] r.size_buckets@[i]).1 * bar <= usize::MAX by {
        lemma_value_at_most(bucket_counts_of(es), SIZE_BUCKET_ORDER@[i]@, n);
        lemma_scaled(r.size_buckets@[i].1 as int, n, bar as int);
    }
    assert forall|i: int| 0 <= i < r.folders@.len() implies (#[trigger] r.folders@[i]).count * bar <= usize::MAX by {
        let fv = folder_view(r.folders@);
        assert(fv[i].1 == r.folders@[i].count);
        lemma_key_count_le(es, folder_key(roots), fv[i].0);
        lemma_scaled(r.folders@[i].count as int, n, bar as int);
    }
}

} // verus!

verus! {

// ── Size-bucket ranges ────────────────────────────────────────────────────────

/// The smallest size of each bucket, and (at index 6) one past the largest
/// `u64`: bucket `k` holds the sizes from `bucket_floor(k)` up to, not
/// including, `bucket_floor(k + 1)`.
pub open spec fn bucket_floor(k: int) -> nat {
    seq![0nat, 1024, 10000, 100000, 1000000, 10000000, 18446744073709551616][k]
}

/// Each size falls in the bucket whose range holds it: below 1 KiB, below
/// 10 000, below 100 000, below 1 000 000, below 10 000 000 bytes, or above.
pub proof fn law_size_bucket_ranges(s: u64)
    ensures
        bucket_of(s) == 0 <==> s < 1024,
        bucket_of(s) == 1 <==> 1024 <= s < 10000,
        bucket_of(s) == 2 <==> 10000 <= s < 100000,
        bucket_of(s) == 3 <==> 100000 <= s < 1000000,
        bucket_of(s) == 4 <==> 1000000 <= s < 10000000,
        bucket_of(s) == 5 <==> 10000000 <= s,
{
}

proof fn lemma_bucket_floor(s: u64, k: int)
    requires
        0 <= k < 6,
    ensures
        bucket_of(s) == k <==> bucket_floor(k) <= s < bucket_floor(k + 1),
{
    law_size_bucket_ranges(s);
    let f = seq![0nat, 1024, 10000, 100000, 1000000, 10000000, 18446744073709551616];
    assert(bucket_floor(k) == f[k] && bucket_floor(k + 1) == f[k + 1]);
    assert(f[0] == 0 && f[1] == 1024 && f[2] == 10000 && f[3] == 100000 && f[4] == 1000000 && f[5] == 10000000
        && f[6] == 18446744073709551616);
}

/// How many messages have a size from `lo` up to, not including, `hi`.
pub open spec fn sized_between(es: Seq<(ScanPath, Email)>, lo: nat, hi: nat) -> nat
    decreases es.len(),
{
    if es.len() == 0 {
        0
    } else {
        sized_between(es.drop_last(), lo, hi) + if lo <= es.last().1.size_bytes < hi { 1nat } else { 0nat }
    }
}

proof fn lemma_sized_between_le(es: Seq<(ScanPath, Email)>, lo: nat, hi: nat)
    ensures
        sized_between(es, lo, hi) <= es.len(),
    decreases es.len(),
{
    if es.len() > 0 {
        lemma_sized_between_le(es.drop_last(), lo, hi);
    }
}

proof fn lemma_bucket_table_ranges(es: Seq<(ScanPath, Email)>, k: int)
    requires
        0 <= k < 6,
        es.len() <= usize::MAX,
    ensures
        value_or_zero(bucket_counts_of(es), SIZE_BUCKET_ORDER@[k]@, 0usize) == sized_between(
            es,
            bucket_floor(k),
            bucket_floor(k + 1),
        ),
    decreases es.len(),
{
    if es.len() == 0 {
        assert(lookup(bucket_counts_of(es), SIZE_BUCKET_ORDER@[k]@) is None);
    } else {
        let pre = es.drop_last();
        lemma_bucket_table_ranges(pre, k);
        lemma_sized_between_le(pre, bucket_floor(k), bucket_floor(k + 1));
        let b = bucket_of(es.last().1.size_bytes);
        lemma_bucket_floor(es.last().1.size_bytes, k);
        lemma_counts_of(pre, seq![]);
        let t = bucket_counts_of(pre);
        assert forall|j: int| 0 <= j < t.len() implies (#[trigger] t[j]).1 <= pre.len() by {}
        lemma_value_at_most(t, SIZE_BUCKET_ORDER@[b]@, pre.len() as int);
        lemma_bucket_labels_distinct();
        assert(b == k || SIZE_BUCKET_ORDER@[k]@ != SIZE_BUCKET_ORDER@[b]@);
        lemma_value_after_add(bucket_counts_of(pre), SIZE_BUCKET_ORDER@[b]@, SIZE_BUCKET_ORDER@[k]@);
        assert(bucket_counts_of(es) == add_count(bucket_counts_of(pre), SIZE_BUCKET_ORDER@[b]@));
    }
}

/// In a report compiled from messages, each size bucket counts exactly the
/// messages whose size lies in its range.
pub proof fn law_report_buckets_by_size(
    r: Report,
    es: Seq<(ScanPath, Email)>,
    parse_errors: usize,
    roots: Seq<ScanPath>,
    top_n: usize,
    show_all_folders: bool,
)
    requires
        es.len() <= usize::MAX,
        compiled_from(r, tallies_of(es, parse_errors, roots, top_n, show_all_folders)),
    ensures
        r.size_buckets@.len() == 6,
        forall|k: int| 0 <= k < 6 ==> (#[trigger] r.size_buckets@[k]).1 == sized_between(
            es,
            bucket_floor(k),
            bucket_floor(k + 1),
        ),
{
    assert forall|k: int| 0 <= k < 6 implies (#[trigger] r.size_buckets@[k]).1 == sized_between(
        es,
        bucket_floor(k),
        bucket_floor(k + 1),
    ) by {
        lemma_bucket_table_ranges(es, k);
    }
}

} // verus!
