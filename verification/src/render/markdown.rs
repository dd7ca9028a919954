//! The Markdown renderer: the report as headed tables.
use vstd::prelude::*;
use crate::render::{folder_limit, folders_shown, int_text, min_nat, push_chars, push_decimal_usize, push_int, push_size, Renderer};
use crate::report::{size_text, FolderStat, Report};
use crate::text::{append_str, decimal};

verus! {

// ── The document, as text ─────────────────────────────────────────────────────

pub open spec fn md_summary(r: Report) -> Seq<char> {
    "# Email Statistics\n\n"@ + "## Summary\n\n"@ + "| Metric | Value |\n"@ + "|--------|-------|\n"@
        + "| Total emails parsed | "@ + decimal(r.total_emails as nat) + " |\n"@
        + "| Parse errors | "@ + decimal(r.parse_errors as nat) + " |\n"@
        + "| Total size on disk | "@ + size_text(r.total_size_bytes as nat) + " |\n"@
        + "| Average size | "@ + size_text(r.avg_size_bytes as nat) + " |\n"@
        + match r.date_range {
        Some((a, b)) => "| Date range | "@ + a@ + " → "@ + b@ + " |\n"@,
        None => Seq::empty(),
    } + "\n"@
}

/// The first `n` sender rows, ranked from one.
pub open spec fn md_sender_rows(rows: Seq<(String, usize, u64)>, n: nat) -> Seq<char>
    decreases n,
{
    if n == 0 {
        Seq::empty()
    } else {
        let i = n - 1;
        md_sender_rows(rows, (n - 1) as nat) + "| "@ + decimal(n) + " | "@ + rows[i].0@ + " | "@ + decimal(
            rows[i].1 as nat,
        ) + " | "@ + size_text(rows[i].2 as nat) + " |\n"@
    }
}

pub open spec fn md_senders(r: Report) -> Seq<char> {
    "## Top "@ + decimal(r.top_senders_limit as nat) + " Senders\n\n"@
        + "| Rank | Sender | Messages | Total Size |\n"@ + "|------|--------|----------|------------|\n"@
        + md_sender_rows(r.top_senders@, min_nat(r.top_senders_limit as nat, r.top_senders@.len())) + "\n"@
}

pub open spec fn md_year_rows(rows: Seq<(i32, usize)>, n: nat) -> Seq<char>
    decreases n,
{
    if n == 0 {
        Seq::empty()
    } else {
        let i = n - 1;
        md_year_rows(rows, (n - 1) as nat) + "| "@ + int_text(rows[i].0 as int) + " | "@ + decimal(rows[i].1 as nat)
            + " |\n"@
    }
}

pub open spec fn md_years(r: Report) -> Seq<char> {
    "## Emails by Year\n\n"@ + "| Year | Count |\n"@ + "|------|-------|\n"@ + md_year_rows(
        r.emails_by_year@,
        r.emails_by_year@.len(),
    ) + (if r.emails_without_date > 0 {
        "| _(no date)_ | "@ + decimal(r.emails_without_date as nat) + " |\n"@
    } else {
        Seq::empty()
    }) + "\n"@
}

pub open spec fn md_bucket_rows(rows: Seq<(&'static str, usize)>, n: nat) -> Seq<char>
    decreases n,
{
    if n == 0 {
        Seq::empty()
    } else {
        let i = n - 1;
        md_bucket_rows(rows, (n - 1) as nat) + "| "@ + rows[i].0@ + " | "@ + decimal(rows[i].1 as nat) + " |\n"@
    }
}

pub open spec fn md_sizes(r: Report) -> Seq<char> {
    "## Size Distribution\n\n"@ + "| Size Range | Count |\n"@ + "|------------|-------|\n"@ + md_bucket_rows(
        r.size_buckets@,
        r.size_buckets@.len(),
    ) + "\n"@
}

pub open spec fn md_folder_rows(rows: Seq<FolderStat>, n: nat) -> Seq<char>
    decreases n,
{
    if n == 0 {
        Seq::empty()
    } else {
        let i = n - 1;
        md_folder_rows(rows, (n - 1) as nat) + "| "@ + rows[i].name@ + " | "@ + decimal(rows[i].count as nat)
            + " | "@ + size_text(rows[i].size_bytes as nat) + " |\n"@
    }
}

pub open spec fn md_folders(r: Report) -> Seq<char> {
    "## Emails by Folder\n\n"@ + "| Folder | Messages | Total Size |\n"@ + "|--------|----------|------------|\n"@
        + md_folder_rows(r.folders@, folders_shown(r)) + (if !r.show_all_folders && r.folders@.len()
        > folder_limit() {
        "\n_"@ + decimal((r.folders@.len() - folder_limit()) as nat)
            + " more folders not shown. Use `--folders` to include all._\n"@
    } else {
        Seq::empty()
    }) + "\n"@
}

/// The whole Markdown document for a report.
pub open spec fn markdown_text(r: Report) -> Seq<char> {
    md_summary(r) + md_senders(r) + md_years(r) + md_sizes(r) + if r.folders@.len() > 0 {
        md_folders(r)
    } else {
        Seq::empty()
    }
}

// ── Writing it ────────────────────────────────────────────────────────────────

fn push_md_summary(v: &mut Vec<char>, r: &Report)
    ensures
        final(v)@ == old(v)@ + md_summary(*r),
{
    append_str(v, "# Email Statistics\n\n");
    append_str(v, "## Summary\n\n");
    append_str(v, "| Metric | Value |\n");
    append_str(v, "|--------|-------|\n");
    append_str(v, "| Total emails parsed | ");
    push_decimal_usize(v, r.total_emails);
    append_str(v, " |\n");
    append_str(v, "| Parse errors | ");
    push_decimal_usize(v, r.parse_errors);
    append_str(v, " |\n");
    append_str(v, "| Total size on disk | ");
    push_size(v, r.total_size_bytes);
    append_str(v, " |\n");
    append_str(v, "| Average size | ");
    push_size(v, r.avg_size_bytes);
    append_str(v, " |\n");
    match &r.date_range {
        Some((start, end)) => {
            append_str(v, "| Date range | ");
            append_str(v, start.as_str());
            append_str(v, " → ");
            append_str(v, end.as_str());
            append_str(v, " |\n");
        },
        None => {},
    }
    append_str(v, "\n");
    assert(final(v)@ =~= old(v)@ + md_summary(*r));
}

fn push_md_senders(v: &mut Vec<char>, r: &Report)
    ensures
        final(v)@ == old(v)@ + md_senders(*r),
{
    append_str(v, "## Top ");
    push_decimal_usize(v, r.top_senders_limit);
    append_str(v, " Senders\n\n");
    append_str(v, "| Rank | Sender | Messages | Total Size |\n");
    append_str(v, "|------|--------|----------|------------|\n");
    let n = if r.top_senders_limit < r.top_senders.len() { r.top_senders_limit } else { r.top_senders.len() };
    let ghost start = v@;
    let mut i: usize = 0;
    while i < n
        invariant
            i <= n == min_nat(r.top_senders_limit as nat, r.top_senders@.len()),
            n <= r.top_senders@.len(),
            v@ == start + md_sender_rows(r.top_senders@, i as nat),
        decreases n - i,
    {
        let row = &r.top_senders[i];
        append_str(v, "| ");
        push_decimal_usize(v, i + 1);
        append_str(v, " | ");
        append_str(v, row.0.as_str());
        append_str(v, " | ");
        push_decimal_usize(v, row.1);
        append_str(v, " | ");
        push_size(v, row.2);
        append_str(v, " |\n");
        i = i + 1;
        assert(v@ =~= start + md_sender_rows(r.top_senders@, i as nat));
    }
    append_str(v, "\n");
    assert(final(v)@ =~= old(v)@ + md_senders(*r));
}

fn push_md_years(v: &mut Vec<char>, r: &Report)
    ensures
        final(v)@ == old(v)@ + md_years(*r),
{
    append_str(v, "## Emails by Year\n\n");
    append_str(v, "| Year | Count |\n");
    append_str(v, "|------|-------|\n");
    let ghost start = v@;
    let mut i: usize = 0;
    while i < r.emails_by_year.len()
        invariant
            i <= r.emails_by_year@.len(),
            v@ == start + md_year_rows(r.emails_by_year@, i as nat),
        decreases r.emails_by_year@.len() - i,
    {
        let row = r.emails_by_year[i];
        append_str(v, "| ");
        push_int(v, row.0);
        append_str(v, " | ");
        push_decimal_usize(v, row.1);
        append_str(v, " |\n");
        i = i + 1;
        assert(v@ =~= start + md_year_rows(r.emails_by_year@, i as nat));
    }
    if r.emails_without_date > 0 {
        append_str(v, "| _(no date)_ | ");
        push_decimal_usize(v, r.emails_without_date);
        append_str(v, " |\n");
    }
    append_str(v, "\n");
    assert(final(v)@ =~= old(v)@ + md_years(*r));
}

fn push_md_sizes(v: &mut Vec<char>, r: &Report)
    ensures
        final(v)@ == old(v)@ + md_sizes(*r),
{
    append_str(v, "## Size Distribution\n\n");
    append_str(v, "| Size Range | Count |\n");
    append_str(v, "|------------|-------|\n");
    let ghost start = v@;
    let mut i: usize = 0;
    while i < r.size_buckets.len()
        invariant
            i <= r.size_buckets@.len(),
            v@ == start + md_bucket_rows(r.size_buckets@, i as nat),
        decreases r.size_buckets@.len() - i,
    {
        let row = r.size_buckets[i];
        append_str(v, "| ");
        append_str(v, row.0);
        append_str(v, " | ");
        push_decimal_usize(v, row.1);
        append_str(v, " |\n");
        i = i + 1;
        assert(v@ =~= start + md_bucket_rows(r.size_buckets@, i as nat));
    }
    append_str(v, "\n");
    assert(final(v)@ =~= old(v)@ + md_sizes(*r));
}

fn push_md_folders(v: &mut Vec<char>, r: &Report)
    ensures
        final(v)@ == old(v)@ + md_folders(*r),
{
    append_str(v, "## Emails by Folder\n\n");
    append_str(v, "| Folder | Messages | Total Size |\n");
    append_str(v, "|--------|----------|------------|\n");
    let limit: usize = if r.show_all_folders { r.folders.len() } else { 20 };
    let n = if limit < r.folders.len() { limit } else { r.folders.len() };
    let ghost start = v@;
    let mut i: usize = 0;
    while i < n
        invariant
            i <= n == folders_shown(*r),
            n <= r.folders@.len(),
            v@ == start + md_folder_rows(r.folders@, i as nat),
        decreases n - i,
    {
        let row = &r.folders[i];
        append_str(v, "| ");
        append_str(v, row.name.as_str());
        append_str(v, " | ");
        push_decimal_usize(v, row.count);
        append_str(v, " | ");
        push_size(v, row.size_bytes);
        append_str(v, " |\n");
        i = i + 1;
        assert(v@ =~= start + md_folder_rows(r.folders@, i as nat));
    }
    if !r.show_all_folders && r.folders.len() > 20 {
        append_str(v, "\n_");
        push_decimal_usize(v, r.folders.len() - 20);
        append_str(v, " more folders not shown. Use `--folders` to include all._\n");
    }
    append_str(v, "\n");
    assert(final(v)@ =~= old(v)@ + md_folders(*r));
}

/// Renders a [`Report`] as a Markdown document suitable for saving or pasting.
pub struct MarkdownRenderer;

impl Renderer for MarkdownRenderer {
    open spec fn accepts(&self, report: &Report) -> bool {
        true
    }

    open spec fn rendered(&self, report: &Report) -> Seq<char> {
        markdown_text(*report)
    }

    fn render(&self, report: &Report, out: &mut String) {
        let mut v: Vec<char> = Vec::new();
        push_md_summary(&mut v, report);
        push_md_senders(&mut v, report);
        push_md_years(&mut v, report);
        push_md_sizes(&mut v, report);
        if report.folders.len() > 0 {
            push_md_folders(&mut v, report);
        }
        assert(v@ =~= markdown_text(*report));
        push_chars(out, &v);
    }
}

} // verus!

verus! {

proof fn lemma_folder_rows_prefix(rows: Seq<FolderStat>, m: nat, n: nat)
    requires
        m <= n,
    ensures
        md_folder_rows(rows, m).len() <= md_folder_rows(rows, n).len(),
        md_folder_rows(rows, n).take(md_folder_rows(rows, m).len() as int) == md_folder_rows(rows, m),
    decreases n,
{
    if m < n {
        lemma_folder_rows_prefix(rows, m, (n - 1) as nat);
        let a = md_folder_rows(rows, (n - 1) as nat);
        let full = md_folder_rows(rows, n);
        assert(full.take(a.len() as int) =~= a);
        assert(full.take(md_folder_rows(rows, m).len() as int) =~= a.take(md_folder_rows(rows, m).len() as int));
    } else {
        assert(md_folder_rows(rows, n).take(md_folder_rows(rows, n).len() as int) =~= md_folder_rows(rows, n));
    }
}

/// A piece of the middle part of a concatenation is found at its offset.
proof fn lemma_window(l: Seq<char>, m: Seq<char>, r1: Seq<char>, r2: Seq<char>, off: int, w: Seq<char>)
    requires
        0 <= off,
        off + w.len() <= m.len(),
        m.subrange(off, off + w.len()) == w,
    ensures
        (l + m + r1 + r2).subrange(l.len() + off, l.len() + off + w.len()) == w,
{
    let x = l + m + r1 + r2;
    assert forall|k: int| 0 <= k < w.len() implies x.subrange(l.len() + off, l.len() + off + w.len())[k] == w[k] by {
        assert(x[l.len() + off + k] == m[off + k]);
        assert(m.subrange(off, off + w.len())[k] == m[off + k]);
    }
    assert(x.subrange(l.len() + off, l.len() + off + w.len()) =~= w);
}

/// The row of folder `i` stands in the first `n > i` rows, after the rows before it.
proof fn lemma_row_in_rows(rows: Seq<FolderStat>, n: nat, i: int)
    requires
        0 <= i < n,
    ensures
        ({
            let f = rows[i];
            let row = "| "@ + f.name@ + " | "@ + decimal(f.count as nat) + " | "@ + size_text(f.size_bytes as nat)
                + " |\n"@;
            let off = md_folder_rows(rows, i as nat).len() as int;
            off + row.len() <= md_folder_rows(rows, n).len() && md_folder_rows(rows, n).subrange(off, off + row.len())
                == row
        }),
{
    let f = rows[i];
    let row = "| "@ + f.name@ + " | "@ + decimal(f.count as nat) + " | "@ + size_text(f.size_bytes as nat) + " |\n"@;
    lemma_folder_rows_prefix(rows, (i + 1) as nat, n);
    let before = md_folder_rows(rows, i as nat);
    let upto = md_folder_rows(rows, (i + 1) as nat);
    assert(upto == before + row);
    let full = md_folder_rows(rows, n);
    let tail = full.skip(upto.len() as int);
    assert(full =~= upto + tail);
    assert(row.subrange(0, row.len() as int) =~= row);
    lemma_window(before, row, tail, Seq::empty(), 0, row);
    assert(before + row + tail + Seq::<char>::empty() =~= full);
}

/// The Markdown document has a table row `| name | messages | size |` for
/// every folder when all folders are asked for, and otherwise for each of
/// the first twenty.
#[verifier::spinoff_prover]
pub proof fn law_markdown_lists_folders(r: Report, i: int)
    requires
        0 <= i < r.folders@.len(),
        r.show_all_folders || i < 20,
    ensures
        ({
            let f = r.folders@[i];
            let row = "| "@ + f.name@ + " | "@ + decimal(f.count as nat) + " | "@ + size_text(f.size_bytes as nat)
                + " |\n"@;
            exists|p: int| 0 <= p && p + row.len() <= markdown_text(r).len() && #[trigger] markdown_text(r).subrange(
                p,
                p + row.len(),
            ) == row
        }),
{
    let rows = r.folders@;
    let f = rows[i];
    let row = "| "@ + f.name@ + " | "@ + decimal(f.count as nat) + " | "@ + size_text(f.size_bytes as nat) + " |\n"@;
    let n = folders_shown(r);
    assert(i < n);
    lemma_row_in_rows(rows, n, i);
    let full = md_folder_rows(rows, n);
    let off = md_folder_rows(rows, i as nat).len() as int;
    let a = md_summary(r) + md_senders(r) + md_years(r) + md_sizes(r);
    let h = "## Emails by Folder\n\n"@ + "| Folder | Messages | Total Size |\n"@ + "|--------|----------|------------|\n"@;
    let c = if !r.show_all_folders && r.folders@.len() > folder_limit() {
        "\n_"@ + decimal((r.folders@.len() - folder_limit()) as nat)
            + " more folders not shown. Use `--folders` to include all._\n"@
    } else {
        Seq::empty()
    };
    assert(md_folders(r) == h + full + c + "\n"@);
    assert(markdown_text(r) == a + md_folders(r));
    lemma_window(a + h, full, c, "\n"@, off, row);
    assert(a + md_folders(r) =~= (a + h) + full + c + "\n"@);
    let p: int = (a + h).len() as int + off;
    assert(markdown_text(r).subrange(p, p + row.len() as int) == row);
}

} // verus!
