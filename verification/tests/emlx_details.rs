use email_analyser::emlx::{
    base64_decode, date_text, expand_two_digit_year, header_block_len, decode_header_value, extract_email_address, find_headers_end, hex_val,
    is_timezone_token, normalize_timezone, parse_date, parse_emlx_bytes, parse_with_formats,
    quoted_printable_decode_header, strip_comments, unfold_headers,
};

#[test]
fn base64_decodes_padded_and_unpadded_text() {
    assert_eq!(base64_decode("SGVsbG8=").unwrap(), b"Hello".to_vec());
    assert_eq!(base64_decode("SGVsbG8").unwrap(), b"Hello".to_vec());
    assert_eq!(base64_decode("V29ybGQ=").unwrap(), b"World".to_vec());
    assert_eq!(base64_decode("").unwrap(), Vec::<u8>::new());
    assert_eq!(base64_decode("QQ==").unwrap(), vec![0x41]);
    assert_eq!(base64_decode("QUI=").unwrap(), vec![0x41, 0x42]);
    // A lone trailing character carries no whole byte.
    assert_eq!(base64_decode("QUJDR").unwrap(), b"ABC".to_vec());
}

#[test]
fn quoted_printable_header_decoding() {
    assert_eq!(quoted_printable_decode_header("a=41_b"), b"aA b".to_vec());
    assert_eq!(quoted_printable_decode_header("H=E9llo"), vec![b'H', 0xE9, b'l', b'l', b'o']);
    // An escape without two hex digits after it is kept as it is.
    assert_eq!(quoted_printable_decode_header("x=4"), b"x=4".to_vec());
    assert_eq!(quoted_printable_decode_header("=ZZ"), b"=ZZ".to_vec());
    assert_eq!(quoted_printable_decode_header("=4g1"), b"=4g1".to_vec());
}

#[test]
fn hex_digit_values() {
    assert_eq!(hex_val(b'0'), Some(0));
    assert_eq!(hex_val(b'9'), Some(9));
    assert_eq!(hex_val(b'a'), Some(10));
    assert_eq!(hex_val(b'F'), Some(15));
    assert_eq!(hex_val(b'g'), None);
    assert_eq!(hex_val(b' '), None);
}

#[test]
fn header_block_ends_at_first_blank_line() {
    assert_eq!(find_headers_end(b"a\n\nb"), 1);
    assert_eq!(find_headers_end(b"ab\r\n\r\nbody"), 2);
    assert_eq!(find_headers_end(b"abc"), 3);
    assert_eq!(find_headers_end(b""), 0);
    assert_eq!(find_headers_end(b"x\ny\n\n"), 3);
}

#[test]
fn folded_lines_are_joined() {
    assert_eq!(unfold_headers("a\n b"), "a b");
    assert_eq!(unfold_headers("a\r\n\tb"), "a b");
    assert_eq!(unfold_headers("a\r\nb"), "a\nb");
    assert_eq!(unfold_headers("a\nb"), "a\nb");
    assert_eq!(unfold_headers("no breaks at all"), "no breaks at all");
}

#[test]
fn timezone_tokens_recognised() {
    assert!(is_timezone_token("GMT"));
    assert!(is_timezone_token("PDT"));
    assert!(is_timezone_token("+0100"));
    assert!(is_timezone_token("-0700"));
    assert!(is_timezone_token("0530"));
    assert!(is_timezone_token("GMT-0700"));
    assert!(is_timezone_token("UTC+0530"));
    assert!(!is_timezone_token("IST"));
    assert!(!is_timezone_token("+01"));
    assert!(!is_timezone_token("G1T-0700"));
    assert!(!is_timezone_token(""));
}

#[test]
fn normalizing_twice_changes_nothing() {
    for s in [
        "22 May 2008 09:17:10 GMT-0700",
        "11 Jan 2008 14:02:49 0530",
        "01 Jan 2024 10:00:00 EST",
        "01 Jan 2024 10:00:00 XYZ  ",
        "GMT",
        "",
    ] {
        let once = normalize_timezone(s);
        assert_eq!(normalize_timezone(&once), once);
    }
    assert_eq!(normalize_timezone("GMT"), "+0000");
    assert_eq!(normalize_timezone("01 Jan 2024 10:00:00 XYZ  "), "01 Jan 2024 10:00:00 XYZ");
}

#[test]
fn stripped_dates_hold_no_parentheses() {
    for s in ["a (b (c) d) e", "x) (y", "((GMT))", "t (+0100) (EST)", "(unclosed"] {
        let out = strip_comments(s);
        assert!(!out.contains('(') && !out.contains(')'), "{:?} -> {:?}", s, out);
    }
    assert_eq!(strip_comments("t (+0100) (EST)"), "t  +0100 ");
    assert_eq!(strip_comments("(unclosed"), "");
}

#[test]
fn trailing_bytes_after_message_do_not_change_it() {
    let email = "From: Z <z@q.org>\nSubject: s\nDate: 02 Feb 2020 02:02:02 +0200\n\nbody";
    let plain = format!("{}\n{}", email.len(), email).into_bytes();
    let mut with_plist = plain.clone();
    with_plist.extend_from_slice(b"<?xml version=\"1.0\"?><plist>From: other@x.com</plist>");
    let a = parse_emlx_bytes(&plain, 7).unwrap();
    let b = parse_emlx_bytes(&with_plist, 7).unwrap();
    assert_eq!(a, b);
    assert_eq!(a.from, "z@q.org");
}

#[test]
fn byte_count_limits_the_message() {
    // Only the first five bytes of the message are read: "From:" without a value.
    let raw = b"5\nFrom: a@b.com\n".to_vec();
    let email = parse_emlx_bytes(&raw, 0).unwrap();
    assert_eq!(email.from, "");
    // A count with a plus sign and surrounding blanks is accepted.
    let raw = b" +14 \nSubject: hey\n".to_vec();
    assert_eq!(parse_emlx_bytes(&raw, 0).unwrap().subject, "hey");
    assert!(parse_emlx_bytes(b"12", 0).is_none());
    assert!(parse_emlx_bytes(b"-3\nx", 0).is_none());
}

#[test]
fn first_nonempty_header_wins() {
    let raw = b"60\nFrom: \nFrom: first@x.com\nFrom: second@x.com\nSubject: a\n".to_vec();
    let email = parse_emlx_bytes(&raw, 0).unwrap();
    assert_eq!(email.from, "first@x.com");
}

#[test]
fn non_utf8_headers_read_as_windows_1252() {
    let mut raw = b"16\nSubject: caf".to_vec();
    raw.push(0xE9);
    raw.extend_from_slice(b"\n\n");
    let email = parse_emlx_bytes(&raw, 0).unwrap();
    assert_eq!(email.subject, "café");
}

#[test]
fn crlf_headers_are_read() {
    let raw = b"46\r\nFrom: a@b.com\r\nSubject: Hi\r\n there\r\n\r\nbody".to_vec();
    let email = parse_emlx_bytes(&raw, 0).unwrap();
    assert_eq!(email.from, "a@b.com");
    assert_eq!(email.subject, "Hi there");
}

#[test]
fn unknown_charset_decodes_as_utf8() {
    assert_eq!(decode_header_value("=?X-NOT-A-CHARSET?B?SGk=?="), "Hi");
    assert_eq!(decode_header_value("=?windows-1252?Q?caf=E9?="), "café");
}

#[test]
fn malformed_encoded_words_are_kept() {
    assert_eq!(decode_header_value("=?UTF-8?X?abc?="), "=?UTF-8?X?abc?=");
    assert_eq!(decode_header_value("=?UTF-8?B?"), "=?UTF-8?B?");
    assert_eq!(decode_header_value("=?nope?="), "=?nope?=");
    assert_eq!(decode_header_value("  padded  "), "padded");
    assert_eq!(decode_header_value("=?utf-8?b?SGk=?=  tail"), "Hi  tail");
}

#[test]
fn addresses_are_lowercased_beyond_ascii() {
    assert_eq!(extract_email_address("ÀB <ÉLAN@X.COM>"), "élan@x.com");
    assert_eq!(extract_email_address("Name < spaced@x.com >"), "spaced@x.com");
    assert_eq!(extract_email_address("<a@b> <C@D>"), "c@d");
    assert_eq!(extract_email_address("no close <bracket"), "no close <bracket");
}

#[test]
fn parsed_dates_carry_offset_and_instant() {
    let d = parse_date("Mon, 01 Jan 2024 10:00:00 +0000").unwrap();
    assert_eq!(d.timestamp, 1_704_103_200);
    assert_eq!(d.offset_seconds, 0);
    let d = parse_date("01 Jan 2024 10:00:00 +0530").unwrap();
    assert_eq!(d.offset_seconds, 19_800);
    assert_eq!(d.hour, 10);
    assert_eq!(d.timestamp, 1_704_103_200 - 19_800);
    let d = parse_date(" 1 Jan 2024 10:00 -0100").unwrap();
    assert_eq!((d.day, d.minute, d.second), (1, 0, 0));
    assert_eq!(d.offset_seconds, -3600);
}

#[test]
fn formats_are_tried_in_order() {
    assert!(parse_with_formats("01 Jan 2024 10:00 +0000").is_some());
    assert!(parse_with_formats("2024-01-01 10:00:00 +0000").is_some());
    assert!(parse_with_formats("01 Jan 2024 10:00:00 GMT").is_none());
    assert!(parse_with_formats("").is_none());
}

#[test]
fn date_text_is_normalised_before_parsing() {
    assert_eq!(date_text("Thu, 22 May 08 09:17:10 GMT-0700"), "22 May 2008 09:17:10 -0700");
    assert_eq!(date_text("Sun, 15 Jul 2007 14:52:26 (GMT)"), "15 Jul 2007 14:52:26  +0000");
    assert_eq!(date_text("  Tue, 06 May 2008 12:43:31 +0100 (IST)  "), "06 May 2008 12:43:31 +0100");
    assert_eq!(date_text(""), "");
}

#[test]
fn only_two_ascii_digits_are_a_short_year() {
    assert_eq!(expand_two_digit_year("01 Jan +5 10:00"), "01 Jan +5 10:00");
    assert_eq!(expand_two_digit_year("01 Jan 5 10:00"), "01 Jan 5 10:00");
    assert_eq!(expand_two_digit_year("01 Jan ٣٤ 10:00"), "01 Jan ٣٤ 10:00");
    assert_eq!(expand_two_digit_year("01 Jan 07"), "01 Jan 2007");
}

#[test]
fn oversized_byte_count_is_clamped_to_the_data() {
    let raw = format!("{}\nFrom: a@b.com\n\nbody", usize::MAX).into_bytes();
    let email = parse_emlx_bytes(&raw, 0).unwrap();
    assert_eq!(email.from, "a@b.com");
    assert_eq!(header_block_len(&raw), Some(13));
    assert_eq!(header_block_len(b"x\nFrom: a"), None);
    assert_eq!(header_block_len(b"3\nabcdef"), Some(3));
}
