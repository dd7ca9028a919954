use email_analyser::aggregate::{
    build_report, folder_label, format_ymd, has_emlx_extension, root_name, PathPart, ScanPath,
};
use email_analyser::emlx::{parse_date, DateStamp, Email};
use email_analyser::progress::{resolve_width, Progress};
use email_analyser::render::console::MIN_TOTAL_WIDTH;

fn path(text: &str) -> ScanPath {
    let mut parts = Vec::new();
    if text.starts_with('/') {
        parts.push(PathPart::Root);
    }
    for piece in text.split('/') {
        match piece {
            "" => {}
            "." => {}
            ".." => parts.push(PathPart::Parent),
            p => parts.push(PathPart::Normal(p.to_string())),
        }
    }
    ScanPath { parts, text: text.to_string() }
}

fn email(from: &str, date: Option<&str>, size: u64) -> Email {
    Email {
        from: from.to_string(),
        subject: String::new(),
        date: date.map(|d| parse_date(d).unwrap()),
        size_bytes: size,
    }
}

#[test]
fn folder_label_picks_first_containing_root() {
    let roots = vec![path("/mail/Inbox"), path("/mail/Sent"), path("/mail")];
    assert_eq!(folder_label(&path("/mail/Sent/1.emlx"), &roots), "Sent");
    assert_eq!(folder_label(&path("/mail/Archive/2.emlx"), &roots), "mail");
    assert_eq!(folder_label(&path("/other/3.emlx"), &roots), "(unknown)");
    // Component-wise containment: "/mail/Inbox2" is not inside "/mail/Inbox".
    assert_eq!(folder_label(&path("/mail/Inbox2/4.emlx"), &roots), "mail");
}

#[test]
fn root_names_fall_back_to_the_whole_path() {
    assert_eq!(root_name(&path("/a/b")), "b");
    assert_eq!(root_name(&path("/")), "/");
    assert_eq!(root_name(&path("a/..")), "a/..");
}

#[test]
fn emlx_extension_check() {
    assert!(has_emlx_extension("1234.emlx"));
    assert!(has_emlx_extension("a.b.emlx"));
    assert!(has_emlx_extension("..emlx"));
    assert!(!has_emlx_extension(".emlx"));
    assert!(!has_emlx_extension("1234.partial.emlxpart"));
    assert!(!has_emlx_extension("1234.EMLX"));
    assert!(!has_emlx_extension("emlx"));
    assert!(!has_emlx_extension("x.emlx.bak"));
}

#[test]
fn dates_formatted_like_chrono() {
    let d = parse_date("Mon, 01 Jan 2024 10:00:00 +0000").unwrap();
    assert_eq!(format_ymd(&d), "2024-01-01");
    let far = DateStamp { year: 12345, month: 3, day: 4, hour: 0, minute: 0, second: 0, nanosecond: 0, offset_seconds: 0, timestamp: 0 };
    assert_eq!(format_ymd(&far), "+12345-03-04");
    let early = DateStamp { year: -7, ..far };
    assert_eq!(format_ymd(&early), "-0007-03-04");
    let small = DateStamp { year: 33, ..far };
    assert_eq!(format_ymd(&small), "0033-03-04");
}

#[test]
fn build_report_tallies_everything() {
    let dirs = vec![path("/m/Inbox"), path("/m/Sent")];
    let emails = vec![
        (path("/m/Inbox/1.emlx"), email("a@x.com", Some("02 Mar 2021 10:00:00 +0000"), 500)),
        (path("/m/Inbox/2.emlx"), email("b@x.com", None, 20_000)),
        (path("/m/Sent/3.emlx"), email("a@x.com", Some("01 Jan 2020 00:00:00 +0000"), 2_000_000)),
        (path("/elsewhere/4.emlx"), email("a@x.com", Some("31 Dec 2022 23:00:00 -0500"), 5_000)),
    ];
    let r = build_report(&emails, 2, &dirs, 10, false);
    assert_eq!(r.total_emails, 4);
    assert_eq!(r.parse_errors, 2);
    assert_eq!(r.total_size_bytes, 2_025_500);
    assert_eq!(r.avg_size_bytes, 506_375);
    // The latest instant is 2023-01-01 04:00 UTC, written in its own offset's date.
    assert_eq!(r.date_range, Some(("2020-01-01".to_string(), "2022-12-31".to_string())));
    assert_eq!(r.top_senders, vec![("a@x.com".to_string(), 3, 2_005_500), ("b@x.com".to_string(), 1, 20_000)]);
    assert_eq!(r.emails_by_year, vec![(2020, 1), (2021, 1), (2022, 1)]);
    assert_eq!(r.emails_without_date, 1);
    let buckets: Vec<usize> = r.size_buckets.iter().map(|(_, c)| *c).collect();
    assert_eq!(buckets, vec![1, 1, 1, 0, 1, 0]);
    let folders: Vec<(&str, usize, u64)> = r.folders.iter().map(|f| (f.name.as_str(), f.count, f.size_bytes)).collect();
    assert_eq!(folders, vec![("Inbox", 2, 20_500), ("Sent", 1, 2_000_000), ("(unknown)", 1, 5_000)]);
    // Each message is counted once in every table.
    assert_eq!(r.top_senders.iter().map(|s| s.1).sum::<usize>(), 4);
    assert_eq!(buckets.iter().sum::<usize>(), 4);
    assert_eq!(r.folders.iter().map(|f| f.count).sum::<usize>(), 4);
    assert_eq!(r.emails_by_year.iter().map(|y| y.1).sum::<usize>() + r.emails_without_date, 4);
}

#[test]
fn build_report_with_one_root_has_no_folders() {
    let dirs = vec![path("/m")];
    let emails = vec![(path("/m/1.emlx"), email("a@x.com", None, 1))];
    let r = build_report(&emails, 0, &dirs, 5, true);
    assert!(r.folders.is_empty());
    assert_eq!(r.top_senders_limit, 5);
    assert!(r.show_all_folders);
    assert_eq!(r.date_range, None);
    let empty = build_report(&[], 0, &dirs, 5, false);
    assert_eq!(empty.avg_size_bytes, 0);
    assert_eq!(empty.total_emails, 0);
}

#[test]
fn equal_instants_keep_the_first_and_last_seen() {
    let dirs = vec![path("/m")];
    let emails = vec![
        (path("/m/1.emlx"), email("a", Some("01 Jan 2024 01:00:00 +0100"), 1)),
        (path("/m/2.emlx"), email("a", Some("31 Dec 2023 23:00:00 -0100"), 1)),
    ];
    let r = build_report(&emails, 0, &dirs, 5, false);
    assert_eq!(r.date_range, Some(("2024-01-01".to_string(), "2023-12-31".to_string())));
}

#[test]
fn width_is_a_share_of_the_terminal() {
    assert_eq!(resolve_width(Some(200), 40), 80);
    assert_eq!(resolve_width(None, 40), 32);
    assert_eq!(resolve_width(None, 100), 80);
    assert_eq!(resolve_width(Some(30), 50), MIN_TOTAL_WIDTH);
    assert_eq!(resolve_width(Some(u16::MAX), 255), 167_114);
}

#[test]
fn progress_lines() {
    let p = Progress::new(true, 80);
    assert_eq!(p.bar_width_for(100), 80 - 26 - 6);
    assert_eq!(p.bar_width_for(0), 80 - 26 - 2);
    assert_eq!(Progress::new(true, 10).bar_width_for(5), 5);
    assert_eq!(p.scanning_folder("Inbox").unwrap(), "  Scanning  Inbox\n");
    assert_eq!(p.folder_found("Inbox", 3).unwrap(), "  Found     Inbox — 3 email(s)\n");
    assert_eq!(p.total_found(7).unwrap(), "  Total     7 email(s) found\n");
    assert_eq!(p.done().unwrap(), "\n");
    let q = Progress::new(true, 40);
    // 40 - (26 + 2) = 12 cells.
    assert_eq!(q.parsing(1, 4).unwrap(), "\r  Parsing   [███░░░░░░░░░]  25%  (1/4)");
    assert_eq!(q.parsing(4, 4).unwrap(), "\r  Parsing   [████████████] 100%  (4/4)\n");
    assert_eq!(q.parsing(0, 0).unwrap(), "\r  Parsing   [████████████] 100%  (0/0)\n");
    let off = Progress::new(false, 80);
    assert!(off.scanning_folder("x").is_none());
    assert!(off.parsing(1, 2).is_none());
    assert!(off.done().is_none());
}
