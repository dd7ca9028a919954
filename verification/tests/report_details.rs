use email_analyser::name_map::NameMap;
use email_analyser::report::{format_size, ReportBuilder};
use std::collections::HashMap;

fn builder() -> ReportBuilder {
    ReportBuilder {
        total_emails: 0,
        parse_errors: 0,
        total_size_bytes: 0,
        avg_size_bytes: 0,
        date_range: None,
        sender_counts: NameMap::new(),
        sender_sizes: NameMap::new(),
        year_counts: HashMap::new(),
        emails_without_date: 0,
        size_bucket_counts: NameMap::new(),
        folder_counts: NameMap::new(),
        folder_sizes: NameMap::new(),
        top_senders_limit: 10,
        show_all_folders: false,
        include_folders: false,
    }
}

/// What the size text is when written with floating point, as `{:.1}` does.
fn float_size(bytes: u64) -> String {
    if bytes >= 1_073_741_824 {
        format!("{:.1} GB", bytes as f64 / 1_073_741_824.0)
    } else if bytes >= 1_048_576 {
        format!("{:.1} MB", bytes as f64 / 1_048_576.0)
    } else if bytes >= 1024 {
        format!("{:.1} KB", bytes as f64 / 1024.0)
    } else {
        format!("{} B", bytes)
    }
}

#[test]
fn format_size_exact_values() {
    assert_eq!(format_size(1536), "1.5 KB");
    assert_eq!(format_size(1_048_575), "1024.0 KB");
    assert_eq!(format_size(7_969_177), "7.6 MB");
    assert_eq!(format_size(31_437), "30.7 KB");
    assert_eq!(format_size(u64::MAX), "17179869184.0 GB");
}

#[test]
fn format_size_rounds_ties_to_even() {
    // 1.25 KB and 1.75 KB are exact ties in tenths.
    assert_eq!(format_size(1280), "1.2 KB");
    assert_eq!(format_size(1792), "1.8 KB");
    assert_eq!(format_size(1280), float_size(1280));
    assert_eq!(format_size(1792), float_size(1792));
}

#[test]
fn format_size_matches_float_formatting() {
    let mut samples: Vec<u64> = Vec::new();
    for b in 0..5000u64 {
        samples.push(b);
    }
    let mut x: u64 = 0x9E37_79B9_7F4A_7C15;
    for _ in 0..20000 {
        x ^= x << 13;
        x ^= x >> 7;
        x ^= x << 17;
        samples.push(x >> (x % 64));
        samples.push(x % 20_000_000);
    }
    for k in 10..64u32 {
        let p = 1u64 << k;
        for d in [0u64, 1, 2, 3, 511, 512, 513] {
            samples.push(p.wrapping_add(d));
            samples.push(p.wrapping_sub(d));
            samples.push(p.wrapping_mul(3).wrapping_add(d) / 2);
        }
    }
    for b in samples {
        assert_eq!(format_size(b), float_size(b), "bytes = {}", b);
    }
}

#[test]
fn senders_with_equal_counts_keep_first_seen_order() {
    let mut b = builder();
    b.sender_counts.insert("first@x.com".into(), 2);
    b.sender_counts.insert("top@x.com".into(), 9);
    b.sender_counts.insert("second@x.com".into(), 2);
    let r = b.build();
    let names: Vec<&str> = r.top_senders.iter().map(|(a, _, _)| a.as_str()).collect();
    assert_eq!(names, vec!["top@x.com", "first@x.com", "second@x.com"]);
}

#[test]
fn every_tallied_sender_is_listed_once() {
    let mut b = builder();
    for (i, name) in ["a", "b", "c", "d", "e"].iter().enumerate() {
        b.sender_counts.insert(name.to_string(), (i * 7) % 4);
        b.sender_sizes.insert(name.to_string(), i as u64 * 100);
    }
    let r = b.build();
    assert_eq!(r.top_senders.len(), 5);
    let mut names: Vec<&str> = r.top_senders.iter().map(|(a, _, _)| a.as_str()).collect();
    names.sort();
    assert_eq!(names, vec!["a", "b", "c", "d", "e"]);
    for w in r.top_senders.windows(2) {
        assert!(w[0].1 >= w[1].1);
    }
    for (a, c, s) in &r.top_senders {
        let i = ["a", "b", "c", "d", "e"].iter().position(|n| n == a).unwrap();
        assert_eq!(*c, (i * 7) % 4);
        assert_eq!(*s, i as u64 * 100);
    }
}

#[test]
fn name_map_insert_then_get() {
    let mut m: NameMap<u64> = NameMap::new();
    assert_eq!(m.insert("k".to_string(), 1), None);
    assert_eq!(m.insert("j".to_string(), 2), None);
    assert_eq!(m.insert("k".to_string(), 3), Some(1));
    assert_eq!(m.get(&"k".to_string()), Some(3));
    assert_eq!(m.get(&"j".to_string()), Some(2));
    assert_eq!(m.get(&"z".to_string()), None);
    assert_eq!(m.len(), 2);
    let (name, value) = m.entry(0);
    assert_eq!((name.as_str(), value), ("k", 3));
}

#[test]
fn shown_size_is_within_half_a_tenth() {
    let mut b: u64 = 1024;
    while b < (1u64 << 53) {
        for d in [0u64, 1, 51, 52, 53, 102, 511, 512, 513] {
            let v = b + d;
            let text = format_size(v);
            let (num, unit) = text.split_once(' ').unwrap();
            let scale: u64 = match unit {
                "KB" => 1 << 10,
                "MB" => 1 << 20,
                "GB" => 1 << 30,
                other => panic!("unit {}", other),
            };
            assert!(v >= scale && (scale == 1 << 30 || v < scale << 10), "{} -> {}", v, text);
            let (whole, tenth) = num.split_once('.').unwrap();
            let tenths: u128 = whole.parse::<u128>().unwrap() * 10 + tenth.parse::<u128>().unwrap();
            let diff = (tenths * scale as u128).abs_diff(10 * v as u128);
            assert!(2 * diff <= scale as u128, "{} -> {}", v, text);
        }
        b = b * 3 / 2;
    }
}
