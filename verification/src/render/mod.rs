//! Rendering a [`Report`] as text: the plain bar-chart layout shared by the
//! console and text renderers, and the `Renderer` trait.
use vstd::prelude::*;
use crate::report::{size_text, format_size, FolderStat, Report};
use crate::text::{append, append_str, chars_of, decimal, push_char, push_decimal};

pub mod console;
pub mod markdown;
pub mod text;

verus! {

/// Anything that can turn a [`Report`] into text.
pub trait Renderer {
    /// The reports this renderer can lay out without arithmetic overflow.
    spec fn accepts(&self, report: &Report) -> bool;

    /// The text this renderer produces for `report`.
    spec fn rendered(&self, report: &Report) -> Seq<char>;

    /// Append the rendering of `report` to `out`.
    fn render(&self, report: &Report, out: &mut String)
        requires
            self.accepts(report),
        ensures
            final(out)@ == old(out)@ + self.rendered(report),
    ;
}

// ── Text pieces ───────────────────────────────────────────────────────────────

pub open spec fn repeated(c: char, n: nat) -> Seq<char> {
    Seq::new(n, |i: int| c)
}

/// `s` followed by spaces up to `w` characters (`{:<w}`).
pub open spec fn pad_right(s: Seq<char>, w: nat) -> Seq<char> {
    if s.len() < w {
        s + repeated(' ', (w - s.len()) as nat)
    } else {
        s
    }
}

/// `s` preceded by spaces up to `w` characters (`{:>w}`).
pub open spec fn pad_left(s: Seq<char>, w: nat) -> Seq<char> {
    if s.len() < w {
        repeated(' ', (w - s.len()) as nat) + s
    } else {
        s
    }
}

/// At most `max` characters: a longer text keeps `max - 1` and gains `…`.
pub open spec fn truncated(s: Seq<char>, max: nat) -> Seq<char> {
    if s.len() <= max {
        s
    } else {
        s.take(max - 1) + seq!['…']
    }
}

/// The numeral of a signed integer.
pub open spec fn int_text(y: int) -> Seq<char> {
    if y < 0 {
        seq!['-'] + decimal((-y) as nat)
    } else {
        decimal(y as nat)
    }
}

/// A title between two rules of `width` copies of `rule`.
pub open spec fn heading(rule: char, title: Seq<char>, width: nat) -> Seq<char> {
    repeated(rule, width) + seq!['\n', ' '] + title + seq!['\n'] + repeated(rule, width) + seq!['\n']
}

/// One bar-chart row: label padded to `col`, a bar of `bar` cells of which
/// `value * bar / max` are filled, and the value right-aligned in six columns.
pub open spec fn bar_line(label: Seq<char>, value: nat, max: nat, col: nat, bar: nat) -> Seq<char> {
    bar_row(label, value, filled_of(value, max, bar), col, bar)
}

/// Cells of a `bar`-cell bar filled for `value` against the scale `max`.
pub open spec fn filled_of(value: nat, max: nat, bar: nat) -> nat {
    if max > 0 { value * bar / max } else { 0 }
}

/// A bar-chart row with `filled` of its `bar` cells filled.
pub open spec fn bar_row(label: Seq<char>, value: nat, filled: nat, col: nat, bar: nat) -> Seq<char> {
    seq![' ', ' '] + pad_right(truncated(label, col), col) + seq![' '] + repeated('█', filled)
        + repeated('░', (bar - filled) as nat) + seq![' '] + pad_left(decimal(value), 6) + seq!['\n']
}

// ── The plain bar-chart report ────────────────────────────────────────────────

pub open spec fn summary_text(r: Report, rule: nat) -> Seq<char> {
    heading('═', "AGGREGATE STATISTICS"@, rule) + seq!['\n'] + "  Total emails parsed : "@ + decimal(
        r.total_emails as nat,
    ) + seq!['\n'] + "  Parse errors        : "@ + decimal(r.parse_errors as nat) + seq!['\n']
        + "  Total size on disk  : "@ + size_text(r.total_size_bytes as nat) + seq!['\n']
        + "  Average size        : "@ + size_text(r.avg_size_bytes as nat) + seq!['\n']
        + match r.date_range {
        Some((a, b)) => "  Date range          : "@ + a@ + " → "@ + b@ + seq!['\n'],
        None => Seq::empty(),
    } + seq!['\n']
}

/// `address (size)`.
pub open spec fn named_size(name: Seq<char>, size: u64) -> Seq<char> {
    name + seq![' ', '('] + size_text(size as nat) + seq![')']
}

pub open spec fn sender_lines(rows: Seq<(String, usize, u64)>, n: nat, max: nat, col: nat, bar: nat) -> Seq<char>
    decreases n,
{
    if n == 0 {
        Seq::empty()
    } else {
        let i = n - 1;
        sender_lines(rows, (n - 1) as nat, max, col, bar) + bar_line(
            named_size(rows[i].0@, rows[i].2),
            rows[i].1 as nat,
            max,
            col,
            bar,
        )
    }
}

pub open spec fn min_nat(a: nat, b: nat) -> nat {
    if a < b { a } else { b }
}

/// The largest sender count shown against: the first sender's, or 1.
pub open spec fn sender_max(r: Report) -> nat {
    if r.top_senders@.len() > 0 { r.top_senders@[0].1 as nat } else { 1 }
}

pub open spec fn senders_text(r: Report, col: nat, bar: nat, rule: nat) -> Seq<char> {
    heading('─', "TOP "@ + decimal(r.top_senders_limit as nat) + " SENDERS  (by message count)"@, rule)
        + sender_lines(
        r.top_senders@,
        min_nat(r.top_senders_limit as nat, r.top_senders@.len()),
        sender_max(r),
        col,
        bar,
    ) + seq!['\n']
}

/// The largest count in `rows`, or `None` when there are none.
pub open spec fn max_year_count(rows: Seq<(i32, usize)>) -> Option<nat>
    decreases rows.len(),
{
    if rows.len() == 0 {
        None
    } else {
        match max_year_count(rows.drop_last()) {
            Some(m) => Some(if rows.last().1 > m { rows.last().1 as nat } else { m }),
            None => Some(rows.last().1 as nat),
        }
    }
}

pub open spec fn year_max(r: Report) -> nat {
    let m = match max_year_count(r.emails_by_year@) {
        Some(m) => m,
        None => 1,
    };
    if r.emails_without_date > m { r.emails_without_date as nat } else { m }
}

pub open spec fn year_lines(rows: Seq<(i32, usize)>, n: nat, max: nat, col: nat, bar: nat) -> Seq<char>
    decreases n,
{
    if n == 0 {
        Seq::empty()
    } else {
        let i = n - 1;
        year_lines(rows, (n - 1) as nat, max, col, bar) + bar_line(
            int_text(rows[i].0 as int),
            rows[i].1 as nat,
            max,
            col,
            bar,
        )
    }
}

pub open spec fn years_text(r: Report, col: nat, bar: nat, rule: nat) -> Seq<char> {
    heading('─', "EMAILS BY YEAR"@, rule) + year_lines(
        r.emails_by_year@,
        r.emails_by_year@.len(),
        year_max(r),
        col,
        bar,
    ) + (if r.emails_without_date > 0 {
        bar_line("(no date)"@, r.emails_without_date as nat, year_max(r), col, bar)
    } else {
        Seq::empty()
    }) + seq!['\n']
}

pub open spec fn max_bucket_count(rows: Seq<(&'static str, usize)>) -> Option<nat>
    decreases rows.len(),
{
    if rows.len() == 0 {
        None
    } else {
        match max_bucket_count(rows.drop_last()) {
            Some(m) => Some(if rows.last().1 > m { rows.last().1 as nat } else { m }),
            None => Some(rows.last().1 as nat),
        }
    }
}

pub open spec fn bucket_max(r: Report) -> nat {
    match max_bucket_count(r.size_buckets@) {
        Some(m) => m,
        None => 1,
    }
}

pub open spec fn bucket_lines(rows: Seq<(&'static str, usize)>, n: nat, max: nat, col: nat, bar: nat) -> Seq<char>
    decreases n,
{
    if n == 0 {
        Seq::empty()
    } else {
        let i = n - 1;
        bucket_lines(rows, (n - 1) as nat, max, col, bar) + bar_line(rows[i].0@, rows[i].1 as nat, max, col, bar)
    }
}

pub open spec fn sizes_text(r: Report, col: nat, bar: nat, rule: nat) -> Seq<char> {
    heading('─', "SIZE DISTRIBUTION"@, rule) + bucket_lines(
        r.size_buckets@,
        r.size_buckets@.len(),
        bucket_max(r),
        col,
        bar,
    ) + seq!['\n']
}

pub open spec fn max_folder_count(rows: Seq<FolderStat>) -> Option<nat>
    decreases rows.len(),
{
    if rows.len() == 0 {
        None
    } else {
        match max_folder_count(rows.drop_last()) {
            Some(m) => Some(if rows.last().count > m { rows.last().count as nat } else { m }),
            None => Some(rows.last().count as nat),
        }
    }
}

pub open spec fn folder_max(r: Report) -> nat {
    match max_folder_count(r.folders@) {
        Some(m) => m,
        None => 1,
    }
}

/// Folders shown unless all are asked for.
pub open spec fn folder_limit() -> nat {
    20
}

/// How many folders a report lists.
pub open spec fn folders_shown(r: Report) -> nat {
    if r.show_all_folders {
        r.folders@.len()
    } else {
        min_nat(folder_limit(), r.folders@.len())
    }
}

pub open spec fn folder_lines(rows: Seq<FolderStat>, n: nat, max: nat, col: nat, bar: nat) -> Seq<char>
    decreases n,
{
    if n == 0 {
        Seq::empty()
    } else {
        let i = n - 1;
        folder_lines(rows, (n - 1) as nat, max, col, bar) + bar_line(
            named_size(rows[i].name@, rows[i].size_bytes),
            rows[i].count as nat,
            max,
            col,
            bar,
        )
    }
}

pub open spec fn folders_text(r: Report, col: nat, bar: nat, rule: nat) -> Seq<char> {
    heading('─', "EMAILS BY FOLDER"@, rule) + folder_lines(r.folders@, folders_shown(r), folder_max(r), col, bar)
        + (if !r.show_all_folders && r.folders@.len() > folder_limit() {
        "  ... ("@ + decimal((r.folders@.len() - folder_limit()) as nat)
            + " more folders, use --folders to show all)"@ + seq!['\n']
    } else {
        Seq::empty()
    }) + seq!['\n']
}

/// The whole bar-chart report with the given label column, bar and rule widths.
pub open spec fn plain_text(r: Report, col: nat, bar: nat, rule: nat) -> Seq<char> {
    summary_text(r, rule) + senders_text(r, col, bar, rule) + years_text(r, col, bar, rule)
        + sizes_text(r, col, bar, rule) + if r.folders@.len() > 0 {
        folders_text(r, col, bar, rule)
    } else {
        Seq::empty()
    }
}

/// Every bar can be drawn: no `count * bar` overflows, and no sender shown
/// has more messages than the first one (the bar's full scale).
pub open spec fn bars_fit(r: Report, bar: nat) -> bool {
    &&& forall|i: int| 0 <= i < min_nat(r.top_senders_limit as nat, r.top_senders@.len()) ==> (#[trigger] r.top_senders@[i]).1 * bar <= usize::MAX
        && (r.top_senders@[0].1 > 0 ==> r.top_senders@[i].1 <= r.top_senders@[0].1)
    &&& forall|i: int| 0 <= i < r.emails_by_year@.len() ==> (#[trigger] r.emails_by_year@[i]).1 * bar <= usize::MAX
    &&& r.emails_without_date * bar <= usize::MAX
    &&& forall|i: int| 0 <= i < r.size_buckets@.len() ==> (#[trigger] r.size_buckets@[i]).1 * bar <= usize::MAX
    &&& forall|i: int| 0 <= i < r.folders@.len() ==> (#[trigger] r.folders@[i]).count * bar <= usize::MAX
}

} // verus!

verus! {

// ── Writing the pieces ────────────────────────────────────────────────────────

/// Appends the characters of `v` to a `String`.
pub fn push_chars(out: &mut String, v: &Vec<char>)
    ensures
        final(out)@ == old(out)@ + v@,
{
    let mut i: usize = 0;
    while i < v.len()
        invariant
            i <= v.len(),
            out@ == old(out)@ + v@.take(i as int),
        decreases v.len() - i,
    {
        push_char(out, v[i]);
        i = i + 1;
        assert(out@ =~= old(out)@ + v@.take(i as int));
    }
    assert(v@.take(v.len() as int) =~= v@);
}

pub fn push_repeat(v: &mut Vec<char>, c: char, n: usize)
    ensures
        final(v)@ == old(v)@ + repeated(c, n as nat),
{
    let mut i: usize = 0;
    while i < n
        invariant
            i <= n,
            v@ == old(v)@ + repeated(c, i as nat),
        decreases n - i,
    {
        v.push(c);
        i = i + 1;
        assert(v@ =~= old(v)@ + repeated(c, i as nat));
    }
}

pub fn push_heading(v: &mut Vec<char>, rule: char, title: &Vec<char>, width: usize)
    ensures
        final(v)@ == old(v)@ + heading(rule, title@, width as nat),
{
    push_repeat(v, rule, width);
    v.push('\n');
    v.push(' ');
    append(v, title);
    v.push('\n');
    push_repeat(v, rule, width);
    v.push('\n');
    assert(final(v)@ =~= old(v)@ + heading(rule, title@, width as nat));
}

pub fn truncate(s: &Vec<char>, max_chars: usize) -> (r: Vec<char>)
    requires
        max_chars > 0,
    ensures
        r@ == truncated(s@, max_chars as nat),
{
    if s.len() <= max_chars {
        crate::text::slice_of(s, 0, s.len())
    } else {
        let mut r = crate::text::slice_of(s, 0, max_chars - 1);
        r.push('…');
        r
    }
}

pub fn push_decimal_usize(v: &mut Vec<char>, n: usize)
    ensures
        final(v)@ == old(v)@ + decimal(n as nat),
{
    push_decimal(v, n as u64);
}

pub fn push_int(v: &mut Vec<char>, y: i32)
    ensures
        final(v)@ == old(v)@ + int_text(y as int),
{
    if y < 0 {
        v.push('-');
        let magnitude: u64 = (-(y as i64)) as u64;
        push_decimal(v, magnitude);
    } else {
        push_decimal(v, y as u64);
    }
    assert(final(v)@ =~= old(v)@ + int_text(y as int));
}

proof fn lemma_filled_le(value: nat, bar: nat, max: nat)
    requires
        max > 0,
        value <= max,
    ensures
        value * bar / max <= bar,
{
    assert(value * bar <= max * bar) by (nonlinear_arith)
        requires value <= max;
    assert((max * bar) / max == bar) by (nonlinear_arith)
        requires max > 0;
    assert(value * bar / max <= (max * bar) / max) by (nonlinear_arith)
        requires value * bar <= max * bar, max > 0;
}

/// Appends `s` padded with spaces on the right to `w` characters.
pub fn push_pad_right(v: &mut Vec<char>, s: &Vec<char>, w: usize)
    ensures
        final(v)@ == old(v)@ + pad_right(s@, w as nat),
{
    append(v, s);
    if s.len() < w {
        push_repeat(v, ' ', w - s.len());
    }
    assert(final(v)@ =~= old(v)@ + pad_right(s@, w as nat));
}

/// Appends `s` padded with spaces on the left to `w` characters.
pub fn push_pad_left(v: &mut Vec<char>, s: &Vec<char>, w: usize)
    ensures
        final(v)@ == old(v)@ + pad_left(s@, w as nat),
{
    if s.len() < w {
        push_repeat(v, ' ', w - s.len());
    }
    append(v, s);
    assert(final(v)@ =~= old(v)@ + pad_left(s@, w as nat));
}

pub fn push_bar_line(v: &mut Vec<char>, label: &Vec<char>, value: usize, max: usize, col: usize, bar: usize)
    requires
        col > 0,
        max > 0 ==> value <= max,
        value * bar <= usize::MAX,
    ensures
        final(v)@ == old(v)@ + bar_line(label@, value as nat, max as nat, col as nat, bar as nat),
{
    let filled = if max > 0 {
        proof { lemma_filled_le(value as nat, bar as nat, max as nat); }
        value * bar / max
    } else {
        0
    };
    assert(filled == filled_of(value as nat, max as nat, bar as nat));
    let ghost pre = v@;
    v.push(' ');
    v.push(' ');
    let t = truncate(label, col);
    push_pad_right(v, &t, col);
    v.push(' ');
    push_repeat(v, '█', filled);
    push_repeat(v, '░', bar - filled);
    v.push(' ');
    let mut digits: Vec<char> = Vec::new();
    push_decimal_usize(&mut digits, value);
    push_pad_left(v, &digits, 6);
    v.push('\n');
    assert(v@ =~= pre + bar_row(label@, value as nat, filled as nat, col as nat, bar as nat));
}

pub(crate) fn push_size(v: &mut Vec<char>, bytes: u64)
    ensures
        final(v)@ == old(v)@ + size_text(bytes as nat),
{
    let s = format_size(bytes);
    append_str(v, s.as_str());
}

fn push_named_size(v: &mut Vec<char>, name: &String, size: u64)
    ensures
        final(v)@ == old(v)@ + named_size(name@, size),
{
    append_str(v, name.as_str());
    v.push(' ');
    v.push('(');
    push_size(v, size);
    v.push(')');
    assert(final(v)@ =~= old(v)@ + named_size(name@, size));
}

#[verifier::spinoff_prover]
#[verifier::rlimit(40)]
pub fn push_summary(v: &mut Vec<char>, r: &Report, rule: usize)
    ensures
        final(v)@ == old(v)@ + summary_text(*r, rule as nat),
{
    push_heading(v, '═', &chars_of("AGGREGATE STATISTICS"), rule);
    v.push('\n');
    append_str(v, "  Total emails parsed : ");
    push_decimal_usize(v, r.total_emails);
    v.push('\n');
    append_str(v, "  Parse errors        : ");
    push_decimal_usize(v, r.parse_errors);
    v.push('\n');
    append_str(v, "  Total size on disk  : ");
    push_size(v, r.total_size_bytes);
    v.push('\n');
    append_str(v, "  Average size        : ");
    push_size(v, r.avg_size_bytes);
    v.push('\n');
    match &r.date_range {
        Some((start, end)) => {
            append_str(v, "  Date range          : ");
            append_str(v, start.as_str());
            append_str(v, " → ");
            append_str(v, end.as_str());
            v.push('\n');
        },
        None => {},
    }
    v.push('\n');
    assert(final(v)@ =~= old(v)@ + summary_text(*r, rule as nat));
}

pub fn push_senders(v: &mut Vec<char>, r: &Report, col: usize, bar: usize, rule: usize)
    requires
        col > 0,
        bars_fit(*r, bar as nat),
    ensures
        final(v)@ == old(v)@ + senders_text(*r, col as nat, bar as nat, rule as nat),
{
    let mut title: Vec<char> = Vec::new();
    append_str(&mut title, "TOP ");
    push_decimal_usize(&mut title, r.top_senders_limit);
    append_str(&mut title, " SENDERS  (by message count)");
    push_heading(v, '─', &title, rule);
    let max = if r.top_senders.len() > 0 { r.top_senders[0].1 } else { 1 };
    let n = if r.top_senders_limit < r.top_senders.len() { r.top_senders_limit } else { r.top_senders.len() };
    let ghost start = v@;
    let mut i: usize = 0;
    while i < n
        invariant
            i <= n == min_nat(r.top_senders_limit as nat, r.top_senders@.len()),
            col > 0,
            max == sender_max(*r),
            bars_fit(*r, bar as nat),
            v@ == start + sender_lines(r.top_senders@, i as nat, max as nat, col as nat, bar as nat),
        decreases n - i,
    {
        let row = &r.top_senders[i];
        let mut label: Vec<char> = Vec::new();
        push_named_size(&mut label, &row.0, row.2);
        assert(r.top_senders@[i as int].1 * bar <= usize::MAX);
        push_bar_line(v, &label, row.1, max, col, bar);
        i = i + 1;
    }
    v.push('\n');
    assert(final(v)@ =~= old(v)@ + senders_text(*r, col as nat, bar as nat, rule as nat));
}

fn year_count_max(rows: &Vec<(i32, usize)>) -> (r: Option<usize>)
    ensures
        match r {
            Some(m) => max_year_count(rows@) == Some(m as nat),
            None => max_year_count(rows@) is None,
        },
{
    let mut m: Option<usize> = None;
    let mut i: usize = 0;
    while i < rows.len()
        invariant
            i <= rows@.len(),
            match m {
                Some(x) => max_year_count(rows@.take(i as int)) == Some(x as nat),
                None => max_year_count(rows@.take(i as int)) is None,
            },
        decreases rows@.len() - i,
    {
        assert(rows@.take(i + 1).drop_last() =~= rows@.take(i as int));
        let c = rows[i].1;
        m = match m {
            Some(x) => Some(if c > x { c } else { x }),
            None => Some(c),
        };
        i = i + 1;
    }
    assert(rows@.take(rows@.len() as int) =~= rows@);
    m
}

pub fn push_years(v: &mut Vec<char>, r: &Report, col: usize, bar: usize, rule: usize)
    requires
        col > 0,
        bars_fit(*r, bar as nat),
    ensures
        final(v)@ == old(v)@ + years_text(*r, col as nat, bar as nat, rule as nat),
{
    push_heading(v, '─', &chars_of("EMAILS BY YEAR"), rule);
    let m = match year_count_max(&r.emails_by_year) {
        Some(m) => m,
        None => 1,
    };
    let max = if r.emails_without_date > m { r.emails_without_date } else { m };
    proof { lemma_year_max_bounds(r.emails_by_year@); }
    let ghost start = v@;
    let mut i: usize = 0;
    while i < r.emails_by_year.len()
        invariant
            i <= r.emails_by_year@.len(),
            col > 0,
            max == year_max(*r),
            bars_fit(*r, bar as nat),
            forall|k: int| 0 <= k < r.emails_by_year@.len() ==> (#[trigger] r.emails_by_year@[k]).1 <= max,
            v@ == start + year_lines(r.emails_by_year@, i as nat, max as nat, col as nat, bar as nat),
        decreases r.emails_by_year@.len() - i,
    {
        let row = r.emails_by_year[i];
        let mut label: Vec<char> = Vec::new();
        push_int(&mut label, row.0);
        assert(r.emails_by_year@[i as int].1 * bar <= usize::MAX);
        assert(r.emails_by_year@[i as int].1 <= max);
        push_bar_line(v, &label, row.1, max, col, bar);
        i = i + 1;
    }
    if r.emails_without_date > 0 {
        push_bar_line(v, &chars_of("(no date)"), r.emails_without_date, max, col, bar);
    }
    v.push('\n');
    assert(final(v)@ =~= old(v)@ + years_text(*r, col as nat, bar as nat, rule as nat));
}

proof fn lemma_year_max_bounds(rows: Seq<(i32, usize)>)
    ensures
        forall|k: int| 0 <= k < rows.len() ==> (max_year_count(rows) matches Some(m) && (#[trigger] rows[k]).1 <= m),
    decreases rows.len(),
{
    if rows.len() > 0 {
        lemma_year_max_bounds(rows.drop_last());
        assert forall|k: int| 0 <= k < rows.len() implies (max_year_count(rows) matches Some(m) && (#[trigger] rows[k]).1 <= m) by {
            if k < rows.len() - 1 {
                assert(rows[k] == rows.drop_last()[k]);
            }
        }
    }
}

proof fn lemma_bucket_max_bounds(rows: Seq<(&'static str, usize)>)
    ensures
        forall|k: int| 0 <= k < rows.len() ==> (max_bucket_count(rows) matches Some(m) && (#[trigger] rows[k]).1 <= m),
    decreases rows.len(),
{
    if rows.len() > 0 {
        lemma_bucket_max_bounds(rows.drop_last());
        assert forall|k: int| 0 <= k < rows.len() implies (max_bucket_count(rows) matches Some(m) && (#[trigger] rows[k]).1 <= m) by {
            if k < rows.len() - 1 {
                assert(rows[k] == rows.drop_last()[k]);
            }
        }
    }
}

proof fn lemma_folder_max_bounds(rows: Seq<FolderStat>)
    ensures
        forall|k: int| 0 <= k < rows.len() ==> (max_folder_count(rows) matches Some(m) && (#[trigger] rows[k]).count <= m),
    decreases rows.len(),
{
    if rows.len() > 0 {
        lemma_folder_max_bounds(rows.drop_last());
        assert forall|k: int| 0 <= k < rows.len() implies (max_folder_count(rows) matches Some(m) && (#[trigger] rows[k]).count <= m) by {
            if k < rows.len() - 1 {
                assert(rows[k] == rows.drop_last()[k]);
            }
        }
    }
}

fn bucket_count_max(rows: &Vec<(&'static str, usize)>) -> (r: Option<usize>)
    ensures
        match r {
            Some(m) => max_bucket_count(rows@) == Some(m as nat),
            None => max_bucket_count(rows@) is None,
        },
{
    let mut m: Option<usize> = None;
    let mut i: usize = 0;
    while i < rows.len()
        invariant
            i <= rows@.len(),
            match m {
                Some(x) => max_bucket_count(rows@.take(i as int)) == Some(x as nat),
                None => max_bucket_count(rows@.take(i as int)) is None,
            },
        decreases rows@.len() - i,
    {
        assert(rows@.take(i + 1).drop_last() =~= rows@.take(i as int));
        let c = rows[i].1;
        m = match m {
            Some(x) => Some(if c > x { c } else { x }),
            None => Some(c),
        };
        i = i + 1;
    }
    assert(rows@.take(rows@.len() as int) =~= rows@);
    m
}

fn folder_count_max(rows: &Vec<FolderStat>) -> (r: Option<usize>)
    ensures
        match r {
            Some(m) => max_folder_count(rows@) == Some(m as nat),
            None => max_folder_count(rows@) is None,
        },
{
    let mut m: Option<usize> = None;
    let mut i: usize = 0;
    while i < rows.len()
        invariant
            i <= rows@.len(),
            match m {
                Some(x) => max_folder_count(rows@.take(i as int)) == Some(x as nat),
                None => max_folder_count(rows@.take(i as int)) is None,
            },
        decreases rows@.len() - i,
    {
        assert(rows@.take(i + 1).drop_last() =~= rows@.take(i as int));
        let c = rows[i].count;
        m = match m {
            Some(x) => Some(if c > x { c } else { x }),
            None => Some(c),
        };
        i = i + 1;
    }
    assert(rows@.take(rows@.len() as int) =~= rows@);
    m
}

pub fn push_sizes(v: &mut Vec<char>, r: &Report, col: usize, bar: usize, rule: usize)
    requires
        col > 0,
        bars_fit(*r, bar as nat),
    ensures
        final(v)@ == old(v)@ + sizes_text(*r, col as nat, bar as nat, rule as nat),
{
    push_heading(v, '─', &chars_of("SIZE DISTRIBUTION"), rule);
    let max = match bucket_count_max(&r.size_buckets) {
        Some(m) => m,
        None => 1,
    };
    proof { lemma_bucket_max_bounds(r.size_buckets@); }
    let ghost start = v@;
    let mut i: usize = 0;
    while i < r.size_buckets.len()
        invariant
            i <= r.size_buckets@.len(),
            col > 0,
            max == bucket_max(*r),
            bars_fit(*r, bar as nat),
            forall|k: int| 0 <= k < r.size_buckets@.len() ==> (#[trigger] r.size_buckets@[k]).1 <= max,
            v@ == start + bucket_lines(r.size_buckets@, i as nat, max as nat, col as nat, bar as nat),
        decreases r.size_buckets@.len() - i,
    {
        let row = r.size_buckets[i];
        let label = chars_of(row.0);
        assert(r.size_buckets@[i as int].1 * bar <= usize::MAX);
        assert(r.size_buckets@[i as int].1 <= max);
        push_bar_line(v, &label, row.1, max, col, bar);
        i = i + 1;
    }
    v.push('\n');
    assert(final(v)@ =~= old(v)@ + sizes_text(*r, col as nat, bar as nat, rule as nat));
}

pub fn push_folders(v: &mut Vec<char>, r: &Report, col: usize, bar: usize, rule: usize)
    requires
        col > 0,
        bars_fit(*r, bar as nat),
    ensures
        final(v)@ == old(v)@ + folders_text(*r, col as nat, bar as nat, rule as nat),
{
    push_heading(v, '─', &chars_of("EMAILS BY FOLDER"), rule);
    let max = match folder_count_max(&r.folders) {
        Some(m) => m,
        None => 1,
    };
    proof { lemma_folder_max_bounds(r.folders@); }
    let limit: usize = if r.show_all_folders { r.folders.len() } else { 20 };
    let n = if limit < r.folders.len() { limit } else { r.folders.len() };
    let ghost start = v@;
    let mut i: usize = 0;
    while i < n
        invariant
            i <= n == folders_shown(*r),
            n <= r.folders@.len(),
            col > 0,
            max == folder_max(*r),
            bars_fit(*r, bar as nat),
            forall|k: int| 0 <= k < r.folders@.len() ==> (#[trigger] r.folders@[k]).count <= max,
            v@ == start + folder_lines(r.folders@, i as nat, max as nat, col as nat, bar as nat),
        decreases n - i,
    {
        let row = &r.folders[i];
        let mut label: Vec<char> = Vec::new();
        push_named_size(&mut label, &row.name, row.size_bytes);
        assert(r.folders@[i as int].count * bar <= usize::MAX);
        assert(r.folders@[i as int].count <= max);
        push_bar_line(v, &label, row.count, max, col, bar);
        i = i + 1;
    }
    if !r.show_all_folders && r.folders.len() > 20 {
        append_str(v, "  ... (");
        push_decimal_usize(v, r.folders.len() - 20);
        append_str(v, " more folders, use --folders to show all)");
        v.push('\n');
    }
    v.push('\n');
    assert(final(v)@ =~= old(v)@ + folders_text(*r, col as nat, bar as nat, rule as nat));
}

/// Appends the whole bar-chart report.
#[verifier::spinoff_prover]
pub fn push_plain(v: &mut Vec<char>, r: &Report, col: usize, bar: usize, rule: usize)
    requires
        col > 0,
        bars_fit(*r, bar as nat),
    ensures
        final(v)@ == old(v)@ + plain_text(*r, col as nat, bar as nat, rule as nat),
{
    let ghost c = col as nat;
    let ghost b = bar as nat;
    let ghost w = rule as nat;
    push_summary(v, r, rule);
    let ghost v1 = v@;
    push_senders(v, r, col, bar, rule);
    assert(v@ == v1 + senders_text(*r, c, b, w));
    let ghost v2 = v@;
    push_years(v, r, col, bar, rule);
    assert(v@ == v2 + years_text(*r, c, b, w));
    let ghost v3 = v@;
    push_sizes(v, r, col, bar, rule);
    assert(v@ == v3 + sizes_text(*r, c, b, w));
    let ghost v4 = v@;
    if r.folders.len() > 0 {
        push_folders(v, r, col, bar, rule);
        assert(v@ == v4 + folders_text(*r, c, b, w));
    }
    let ghost tail: Seq<char> = if r.folders@.len() > 0 { folders_text(*r, c, b, w) } else { Seq::empty() };
    assert(v@ =~= v4 + tail);
    assert(plain_text(*r, c, b, w) == summary_text(*r, w) + senders_text(*r, c, b, w) + years_text(*r, c, b, w)
        + sizes_text(*r, c, b, w) + tail);
    assert(final(v)@ =~= old(v)@ + plain_text(*r, c, b, w));
}

} // verus!

verus! {

/// Whether every bar of `r` can be drawn `bar` cells wide (see [`bars_fit`]).
pub fn can_draw_bars(r: &Report, bar: usize) -> (ok: bool)
    ensures
        ok == bars_fit(*r, bar as nat),
{
    let n = if r.top_senders_limit < r.top_senders.len() { r.top_senders_limit } else { r.top_senders.len() };
    let mut i: usize = 0;
    while i < n
        invariant
            i <= n == min_nat(r.top_senders_limit as nat, r.top_senders@.len()),
            n <= r.top_senders@.len(),
            forall|k: int| 0 <= k < i ==> (#[trigger] r.top_senders@[k]).1 * bar <= usize::MAX
                && (r.top_senders@[0].1 > 0 ==> r.top_senders@[k].1 <= r.top_senders@[0].1),
        decreases n - i,
    {
        let c = r.top_senders[i].1;
        if c.checked_mul(bar).is_none() || (r.top_senders[0].1 > 0 && c > r.top_senders[0].1) {
            return false;
        }
        i = i + 1;
    }
    let mut i: usize = 0;
    while i < r.emails_by_year.len()
        invariant
            i <= r.emails_by_year@.len(),
            forall|k: int| 0 <= k < i ==> (#[trigger] r.emails_by_year@[k]).1 * bar <= usize::MAX,
        decreases r.emails_by_year@.len() - i,
    {
        if r.emails_by_year[i].1.checked_mul(bar).is_none() {
            return false;
        }
        i = i + 1;
    }
    if r.emails_without_date.checked_mul(bar).is_none() {
        return false;
    }
    let mut i: usize = 0;
    while i < r.size_buckets.len()
        invariant
            i <= r.size_buckets@.len(),
            forall|k: int| 0 <= k < i ==> (#[trigger] r.size_buckets@[k]).1 * bar <= usize::MAX,
        decreases r.size_buckets@.len() - i,
    {
        if r.size_buckets[i].1.checked_mul(bar).is_none() {
            return false;
        }
        i = i + 1;
    }
    let mut i: usize = 0;
    while i < r.folders.len()
        invariant
            i <= r.folders@.len(),
            forall|k: int| 0 <= k < i ==> (#[trigger] r.folders@[k]).count * bar <= usize::MAX,
        decreases r.folders@.len() - i,
    {
        if r.folders[i].count.checked_mul(bar).is_none() {
            return false;
        }
        i = i + 1;
    }
    true
}

} // verus!
