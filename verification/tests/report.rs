use email_analyser::name_map::NameMap;
use email_analyser::report::{format_size, ReportBuilder, SIZE_BUCKET_ORDER};
use std::collections::HashMap;

fn minimal_builder() -> ReportBuilder {
    ReportBuilder {
        total_emails: 0,
        parse_errors: 0,
        total_size_bytes: 0,
        avg_size_bytes: 0,
        date_range: None,
        sender_counts: NameMap::new(),
        sender_sizes: NameMap::new(),
        year_counts: HashMap::new(),
        emails_without_date: 0,
        size_bucket_counts: NameMap::new(),
        folder_counts: NameMap::new(),
        folder_sizes: NameMap::new(),
        top_senders_limit: 10,
        show_all_folders: false,
        include_folders: false,
    }
}

// ── format_size ──────────────────────────────────────────────────────────────

#[test]
fn format_size_bytes() {
    assert_eq!(format_size(0), "0 B");
    assert_eq!(format_size(512), "512 B");
    assert_eq!(format_size(1023), "1023 B");
}

#[test]
fn format_size_kilobytes() {
    assert_eq!(format_size(1024), "1.0 KB");
    assert_eq!(format_size(2048), "2.0 KB");
}

#[test]
fn format_size_megabytes() {
    assert_eq!(format_size(1_048_576), "1.0 MB");
}

#[test]
fn format_size_gigabytes() {
    assert_eq!(format_size(1_073_741_824), "1.0 GB");
}

// ── ReportBuilder::build — senders ───────────────────────────────────────────

#[test]
fn senders_sorted_descending_by_count() {
    let mut b = minimal_builder();
    b.sender_counts.insert("a@x.com".into(), 1);
    b.sender_counts.insert("b@x.com".into(), 5);
    b.sender_counts.insert("c@x.com".into(), 3);
    let r = b.build();
    let counts: Vec<usize> = r.top_senders.iter().map(|(_, c, _)| *c).collect();
    assert_eq!(counts, vec![5, 3, 1]);
}

#[test]
fn sender_size_attached_correctly() {
    let mut b = minimal_builder();
    b.sender_counts.insert("a@x.com".into(), 2);
    b.sender_sizes.insert("a@x.com".into(), 4096);
    let r = b.build();
    let (_, _, size) = &r.top_senders[0];
    assert_eq!(*size, 4096);
}

#[test]
fn sender_size_defaults_to_zero_when_missing() {
    let mut b = minimal_builder();
    b.sender_counts.insert("a@x.com".into(), 1);
    let r = b.build();
    let (_, _, size) = &r.top_senders[0];
    assert_eq!(*size, 0);
}

// ── ReportBuilder::build — years ─────────────────────────────────────────────

#[test]
fn years_sorted_ascending() {
    let mut b = minimal_builder();
    b.year_counts.insert(2023, 10);
    b.year_counts.insert(2021, 5);
    b.year_counts.insert(2022, 8);
    let r = b.build();
    let years: Vec<i32> = r.emails_by_year.iter().map(|(y, _)| *y).collect();
    assert_eq!(years, vec![2021, 2022, 2023]);
}

// ── ReportBuilder::build — size buckets ──────────────────────────────────────

#[test]
fn size_buckets_in_display_order() {
    let mut b = minimal_builder();
    b.size_bucket_counts.insert("> 10 MB".to_string(), 1);
    b.size_bucket_counts.insert("< 1 KB".to_string(), 9);
    let r = b.build();
    let labels: Vec<&str> = r.size_buckets.iter().map(|(l, _)| *l).collect();
    assert_eq!(labels, SIZE_BUCKET_ORDER.to_vec());
}

#[test]
fn size_bucket_zero_for_missing_label() {
    let b = minimal_builder();
    let r = b.build();
    assert!(r.size_buckets.iter().all(|(_, c)| *c == 0));
}

// ── ReportBuilder::build — folders ───────────────────────────────────────────

#[test]
fn folders_empty_when_include_folders_false() {
    let mut b = minimal_builder();
    b.folder_counts.insert("Inbox".into(), 5);
    b.include_folders = false;
    let r = b.build();
    assert!(r.folders.is_empty());
}

#[test]
fn folders_sorted_descending_by_count() {
    let mut b = minimal_builder();
    b.include_folders = true;
    b.folder_counts.insert("Sent".into(), 2);
    b.folder_counts.insert("Inbox".into(), 7);
    b.folder_counts.insert("Archive".into(), 4);
    let r = b.build();
    let names: Vec<&str> = r.folders.iter().map(|f| f.name.as_str()).collect();
    assert_eq!(names, vec!["Inbox", "Archive", "Sent"]);
}

#[test]
fn folder_size_attached_correctly() {
    let mut b = minimal_builder();
    b.include_folders = true;
    b.folder_counts.insert("Inbox".into(), 3);
    b.folder_sizes.insert("Inbox".into(), 8192);
    let r = b.build();
    assert_eq!(r.folders[0].size_bytes, 8192);
}

// ── Report structure ─────────────────────────────────────────────────────────

#[test]
fn date_range_preserved() {
    let mut b = minimal_builder();
    b.date_range = Some(("2020-01-01".into(), "2024-12-31".into()));
    let r = b.build();
    assert_eq!(r.date_range, Some(("2020-01-01".into(), "2024-12-31".into())));
}

#[test]
fn totals_preserved() {
    let mut b = minimal_builder();
    b.total_emails = 42;
    b.parse_errors = 2;
    b.total_size_bytes = 1_048_576;
    b.avg_size_bytes = 24_966;
    let r = b.build();
    assert_eq!(r.total_emails, 42);
    assert_eq!(r.parse_errors, 2);
    assert_eq!(r.total_size_bytes, 1_048_576);
    assert_eq!(r.avg_size_bytes, 24_966);
}
