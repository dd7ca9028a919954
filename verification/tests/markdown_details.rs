use email_analyser::name_map::NameMap;
use email_analyser::render::markdown::MarkdownRenderer;
use email_analyser::render::Renderer;
use email_analyser::report::ReportBuilder;
use std::collections::HashMap;

fn builder() -> ReportBuilder {
    ReportBuilder {
        total_emails: 0,
        parse_errors: 0,
        total_size_bytes: 0,
        avg_size_bytes: 0,
        date_range: None,
        sender_counts: NameMap::new(),
        sender_sizes: NameMap::new(),
        year_counts: HashMap::new(),
        emails_without_date: 0,
        size_bucket_counts: NameMap::new(),
        folder_counts: NameMap::new(),
        folder_sizes: NameMap::new(),
        top_senders_limit: 10,
        show_all_folders: false,
        include_folders: false,
    }
}

#[test]
fn whole_document_for_a_small_report() {
    let mut b = builder();
    b.total_emails = 3;
    b.total_size_bytes = 3000;
    b.avg_size_bytes = 1000;
    b.sender_counts.insert("a@x.com".into(), 2);
    b.sender_sizes.insert("a@x.com".into(), 2000);
    b.sender_counts.insert("b@x.com".into(), 1);
    b.sender_sizes.insert("b@x.com".into(), 1000);
    b.year_counts.insert(-5, 1);
    b.year_counts.insert(2020, 1);
    b.emails_without_date = 1;
    b.size_bucket_counts.insert("< 1 KB".to_string(), 1);
    b.size_bucket_counts.insert("1–10 KB".to_string(), 2);
    b.include_folders = true;
    b.folder_counts.insert("Inbox".into(), 3);
    b.folder_sizes.insert("Inbox".into(), 3000);
    let mut out = String::from(">>");
    MarkdownRenderer.render(&b.build(), &mut out);
    let expected = "\
>># Email Statistics

## Summary

| Metric | Value |
|--------|-------|
| Total emails parsed | 3 |
| Parse errors | 0 |
| Total size on disk | 2.9 KB |
| Average size | 1000 B |

## Top 10 Senders

| Rank | Sender | Messages | Total Size |
|------|--------|----------|------------|
| 1 | a@x.com | 2 | 2.0 KB |
| 2 | b@x.com | 1 | 1000 B |

## Emails by Year

| Year | Count |
|------|-------|
| -5 | 1 |
| 2020 | 1 |
| _(no date)_ | 1 |

## Size Distribution

| Size Range | Count |
|------------|-------|
| < 1 KB | 1 |
| 1–10 KB | 2 |
| 10–100 KB | 0 |
| 100 KB–1 MB | 0 |
| 1–10 MB | 0 |
| > 10 MB | 0 |

## Emails by Folder

| Folder | Messages | Total Size |
|--------|----------|------------|
| Inbox | 3 | 2.9 KB |

";
    assert_eq!(out, expected);
}

#[test]
fn folder_overflow_note_counts_hidden_folders() {
    let mut b = builder();
    b.include_folders = true;
    for i in 0..25 {
        b.folder_counts.insert(format!("F{}", i), 1);
    }
    let mut out = String::new();
    MarkdownRenderer.render(&b.build(), &mut out);
    assert!(out.ends_with(
        "| F19 | 1 | 0 B |\n\n_5 more folders not shown. Use `--folders` to include all._\n\n"
    ), "got:\n{}", out);
}
