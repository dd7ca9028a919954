use email_analyser::name_map::NameMap;
use email_analyser::render::console::{ConsoleRenderer, Layout, MIN_TOTAL_WIDTH};
use email_analyser::render::text::TextRenderer;
use email_analyser::render::{can_draw_bars, Renderer};
use email_analyser::report::{FolderStat, Report, ReportBuilder};
use std::collections::HashMap;

fn builder() -> ReportBuilder {
    ReportBuilder {
        total_emails: 0,
        parse_errors: 0,
        total_size_bytes: 0,
        avg_size_bytes: 0,
        date_range: None,
        sender_counts: NameMap::new(),
        sender_sizes: NameMap::new(),
        year_counts: HashMap::new(),
        emails_without_date: 0,
        size_bucket_counts: NameMap::new(),
        folder_counts: NameMap::new(),
        folder_sizes: NameMap::new(),
        top_senders_limit: 10,
        show_all_folders: false,
        include_folders: false,
    }
}

fn sample_report() -> Report {
    let mut b = builder();
    b.total_emails = 254;
    b.total_size_bytes = 7_969_177;
    b.avg_size_bytes = 31_437;
    b.date_range = Some(("2024-08-07".into(), "2026-05-02".into()));
    b.sender_counts.insert("emailsmetoomuch@gmail.com".into(), 115);
    b.sender_sizes.insert("emailsmetoomuch@gmail.com".into(), 427_930);
    b.sender_counts.insert("mail@smileypeople.com".into(), 46);
    b.sender_sizes.insert("mail@smileypeople.com".into(), 4_823_450);
    b.year_counts.insert(2025, 56);
    b.year_counts.insert(2024, 112);
    b.emails_without_date = 56;
    b.size_bucket_counts.insert("1–10 KB".to_string(), 117);
    b.build()
}

#[test]
fn layout_splits_every_width_from_the_minimum() {
    for total in MIN_TOTAL_WIDTH..400 {
        let l = Layout::from_total_width(total);
        assert_eq!(l.col_width + l.bar_width, total - 10);
        assert!(l.bar_width >= 5 && l.col_width >= 10);
    }
    let l = Layout::from_total_width(12);
    assert_eq!((l.col_width, l.bar_width, l.rule_width), (10, 5, 12));
}

#[test]
fn text_layout_matches_the_documented_example() {
    let mut out = String::new();
    TextRenderer.render(&sample_report(), &mut out);
    let expected_start = "\
══════════════════════════════════════════════════════════════════════
 AGGREGATE STATISTICS
══════════════════════════════════════════════════════════════════════

  Total emails parsed : 254
  Parse errors        : 0
  Total size on disk  : 7.6 MB
  Average size        : 30.7 KB
  Date range          : 2024-08-07 → 2026-05-02

──────────────────────────────────────────────────────────────────────
 TOP 10 SENDERS  (by message count)
──────────────────────────────────────────────────────────────────────
  emailsmetoomuch@gmail.com (417.9 KB)       ████████████████████    115
  mail@smileypeople.com (4.6 MB)             ████████░░░░░░░░░░░░     46

──────────────────────────────────────────────────────────────────────
 EMAILS BY YEAR
──────────────────────────────────────────────────────────────────────
  2024                                       ████████████████████    112
  2025                                       ██████████░░░░░░░░░░     56
  (no date)                                  ██████████░░░░░░░░░░     56

──────────────────────────────────────────────────────────────────────
 SIZE DISTRIBUTION
──────────────────────────────────────────────────────────────────────
  < 1 KB                                     ░░░░░░░░░░░░░░░░░░░░      0
  1–10 KB                                    ████████████████████    117
";
    assert!(out.starts_with(expected_start), "got:\n{}", out);
    assert!(!out.contains("EMAILS BY FOLDER"));
}

#[test]
fn report_print_matches_text_renderer() {
    let report = sample_report();
    let mut a = String::new();
    report.print(&mut a);
    let mut b = String::from("prefix ");
    TextRenderer.render(&report, &mut b);
    assert_eq!(format!("prefix {}", a), b);
}

#[test]
fn console_at_seventy_columns_has_twenty_cell_bars() {
    let mut out = String::new();
    ConsoleRenderer { total_width: 70 }.render(&sample_report(), &mut out);
    let line = out.lines().find(|l| l.contains("(no date)")).unwrap();
    assert_eq!(line.chars().filter(|c| *c == '█' || *c == '░').count(), 20);
    assert_eq!(line.chars().count(), 2 + 40 + 1 + 20 + 1 + 6);
}

#[test]
fn long_labels_are_truncated_with_an_ellipsis() {
    let mut b = builder();
    b.sender_counts.insert("a-very-long-sender-address-that-goes-on@example.org".into(), 3);
    let mut out = String::new();
    ConsoleRenderer { total_width: 40 }.render(&b.build(), &mut out);
    // 30 flexible columns: a 10-cell bar and a 20-column label.
    let line = out.lines().find(|l| l.contains('…')).unwrap();
    assert!(line.starts_with("  a-very-long-sender-\u{2026} "), "got {:?}", line);
}

#[test]
fn folder_overflow_note_in_console() {
    let mut b = builder();
    b.include_folders = true;
    for i in 0..23 {
        b.folder_counts.insert(format!("F{}", i), 1);
    }
    let mut out = String::new();
    ConsoleRenderer { total_width: 72 }.render(&b.build(), &mut out);
    assert!(out.contains("  ... (3 more folders, use --folders to show all)\n"), "got:\n{}", out);
    assert!(out.contains("F19 "));
    assert!(!out.contains("F20 "));
}

#[test]
fn bars_that_cannot_be_drawn_are_detected() {
    let report = sample_report();
    assert!(can_draw_bars(&report, 20));
    assert!(!can_draw_bars(&report, usize::MAX));
    let unordered = Report {
        total_emails: 0,
        parse_errors: 0,
        total_size_bytes: 0,
        avg_size_bytes: 0,
        date_range: None,
        top_senders: vec![("a".into(), 1, 0), ("b".into(), 2, 0)],
        top_senders_limit: 10,
        emails_by_year: vec![],
        emails_without_date: 0,
        size_buckets: vec![],
        folders: vec![FolderStat { name: "x".into(), count: 1, size_bytes: 0 }],
        show_all_folders: false,
    };
    assert!(!can_draw_bars(&unordered, 20));
}
