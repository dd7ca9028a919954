use email_analyser::name_map::NameMap;
use email_analyser::render::console::{
    ConsoleRenderer, Layout, FIXED_OVERHEAD, MIN_BAR_WIDTH, MIN_COL_WIDTH,
};
use email_analyser::render::Renderer;
use email_analyser::report::{Report, ReportBuilder};
use std::collections::HashMap;

fn render_to_string(renderer: &ConsoleRenderer, report: &Report) -> String {
    let mut buf = String::new();
    renderer.render(report, &mut buf);
    buf
}

fn minimal_builder() -> ReportBuilder {
    ReportBuilder {
        total_emails: 0,
        parse_errors: 0,
        total_size_bytes: 0,
        avg_size_bytes: 0,
        date_range: None,
        sender_counts: NameMap::new(),
        sender_sizes: NameMap::new(),
        year_counts: HashMap::new(),
        emails_without_date: 0,
        size_bucket_counts: NameMap::new(),
        folder_counts: NameMap::new(),
        folder_sizes: NameMap::new(),
        top_senders_limit: 10,
        show_all_folders: false,
        include_folders: false,
    }
}

fn minimal_report() -> Report {
    minimal_builder().build()
}

fn renderer(total_width: usize) -> ConsoleRenderer {
    ConsoleRenderer { total_width }
}

// ── Layout ───────────────────────────────────────────────────────────────────

#[test]
fn layout_bar_width_is_one_third_of_flexible_space() {
    let layout = Layout::from_total_width(100);
    let flexible = 100 - FIXED_OVERHEAD;
    assert_eq!(layout.bar_width, flexible / 3);
}

#[test]
fn layout_col_width_fills_remaining_flexible_space() {
    let layout = Layout::from_total_width(100);
    assert_eq!(layout.col_width + layout.bar_width, 100 - FIXED_OVERHEAD);
}

#[test]
fn layout_respects_minimum_bar_width() {
    let layout = Layout::from_total_width(0);
    assert!(layout.bar_width >= MIN_BAR_WIDTH);
}

#[test]
fn layout_respects_minimum_col_width() {
    let layout = Layout::from_total_width(0);
    assert!(layout.col_width >= MIN_COL_WIDTH);
}

#[test]
fn rule_width_matches_total_width() {
    let layout = Layout::from_total_width(72);
    assert_eq!(layout.rule_width, 72);
}

// ── Width reflected in output ────────────────────────────────────────────────

#[test]
fn header_rule_length_matches_total_width() {
    let output = render_to_string(&renderer(60), &minimal_report());
    let rule_line = output.lines().next().unwrap();
    assert_eq!(rule_line.chars().count(), 60);
}

#[test]
fn wider_renderer_produces_wider_rules() {
    let narrow = render_to_string(&renderer(50), &minimal_report());
    let wide = render_to_string(&renderer(120), &minimal_report());
    let narrow_rule = narrow.lines().next().unwrap().chars().count();
    let wide_rule = wide.lines().next().unwrap().chars().count();
    assert!(wide_rule > narrow_rule);
}

// ── Content ──────────────────────────────────────────────────────────────────

#[test]
fn summary_header_present() {
    let output = render_to_string(&renderer(72), &minimal_report());
    assert!(output.contains("AGGREGATE STATISTICS"), "got:\n{}", output);
}

#[test]
fn total_emails_shown_in_summary() {
    let mut b = minimal_builder();
    b.total_emails = 99;
    let output = render_to_string(&renderer(72), &b.build());
    assert!(output.contains("99"), "got:\n{}", output);
}

#[test]
fn date_range_shown_when_present() {
    let mut b = minimal_builder();
    b.date_range = Some(("2021-01-01".into(), "2024-12-31".into()));
    let output = render_to_string(&renderer(72), &b.build());
    assert!(output.contains("2021-01-01"), "got:\n{}", output);
    assert!(output.contains("2024-12-31"), "got:\n{}", output);
}

#[test]
fn console_folder_section_absent_when_no_folders() {
    let output = render_to_string(&renderer(72), &minimal_report());
    assert!(!output.contains("EMAILS BY FOLDER"), "got:\n{}", output);
}

#[test]
fn console_folder_section_present_when_folders_exist() {
    let mut b = minimal_builder();
    b.include_folders = true;
    b.folder_counts.insert("Inbox".into(), 5);
    let output = render_to_string(&renderer(72), &b.build());
    assert!(output.contains("EMAILS BY FOLDER"), "got:\n{}", output);
    assert!(output.contains("Inbox"), "got:\n{}", output);
}
