use email_analyser::aggregate::format_ymd;
use email_analyser::emlx::{
    base64_decode, decode_header_value, expand_two_digit_year, extract_email_address,
    find_headers_end, hex_val, is_timezone_token, normalize_timezone, parse_date,
    parse_emlx_bytes, parse_with_formats, quoted_printable_decode_header, strip_comments,
    unfold_headers, DateStamp,
};

fn make_emlx(headers: &str, body: &str) -> Vec<u8> {
    let email = format!("{}\n\n{}", headers, body);
    format!("{}\n{}", email.len(), email).into_bytes()
}

fn ymd(d: &DateStamp) -> String {
    format_ymd(d)
}

fn hms(d: &DateStamp) -> String {
    format!("{:02}:{:02}:{:02}", d.hour, d.minute, d.second)
}

// ── parse_emlx_bytes ─────────────────────────────────────────────────────────

#[test]
fn parses_basic_headers() {
    let raw = make_emlx(
        "From: alice@example.com\nSubject: Hello\nDate: Mon, 01 Jan 2024 10:00:00 +0000",
        "body text",
    );
    let email = parse_emlx_bytes(&raw, 0).unwrap();
    assert_eq!(email.from, "alice@example.com");
    assert_eq!(email.subject, "Hello");
    assert!(email.date.is_some());
}

#[test]
fn extracts_address_from_display_name() {
    let raw = make_emlx(
        "From: Alice Smith <alice@example.com>\nSubject: Hi\nDate: Mon, 01 Jan 2024 10:00:00 +0000",
        "",
    );
    let email = parse_emlx_bytes(&raw, 0).unwrap();
    assert_eq!(email.from, "alice@example.com");
}

#[test]
fn lowercases_email_address() {
    let raw = make_emlx("From: Alice@Example.COM\nSubject: test", "");
    let email = parse_emlx_bytes(&raw, 0).unwrap();
    assert_eq!(email.from, "alice@example.com");
}

#[test]
fn returns_none_for_missing_byte_count() {
    let result = parse_emlx_bytes(b"not-a-number\nFrom: x", 0);
    assert!(result.is_none());
}

#[test]
fn returns_none_for_empty_input() {
    assert!(parse_emlx_bytes(b"", 0).is_none());
}

#[test]
fn tolerates_missing_date_header() {
    let raw = make_emlx("From: a@b.com\nSubject: No date", "");
    let email = parse_emlx_bytes(&raw, 0).unwrap();
    assert!(email.date.is_none());
}

#[test]
fn tolerates_unparseable_date_header() {
    let raw = make_emlx("From: a@b.com\nSubject: x\nDate: not a date at all", "");
    let email = parse_emlx_bytes(&raw, 0).unwrap();
    assert!(email.date.is_none());
}

#[test]
fn uses_provided_size_bytes() {
    let raw = make_emlx("From: a@b.com\nSubject: x", "");
    let email = parse_emlx_bytes(&raw, 1234).unwrap();
    assert_eq!(email.size_bytes, 1234);
}

#[test]
fn ignores_apple_plist_after_email() {
    let email_part = "From: a@b.com\nSubject: x\n\nbody";
    let plist = "<?xml version=\"1.0\"?><plist></plist>";
    let raw = format!("{}\n{}{}", email_part.len(), email_part, plist).into_bytes();
    let result = parse_emlx_bytes(&raw, 0);
    assert!(result.is_some());
}

// ── decode_header_value ──────────────────────────────────────────────────────

#[test]
fn plain_header_unchanged() {
    assert_eq!(decode_header_value("Hello World"), "Hello World");
}

#[test]
fn decodes_utf8_base64_encoded_word() {
    assert_eq!(
        decode_header_value("=?UTF-8?B?V2Vla2x5IE5ld3NsZXR0ZXI=?="),
        "Weekly Newsletter"
    );
}

#[test]
fn decodes_quoted_printable_encoded_word() {
    assert_eq!(decode_header_value("=?ISO-8859-1?Q?H=E9llo?="), "Héllo");
}

#[test]
fn decodes_qp_underscore_as_space() {
    assert_eq!(
        decode_header_value("=?UTF-8?Q?Hello_World?="),
        "Hello World"
    );
}

#[test]
fn decodes_multiple_encoded_words() {
    let input = "=?UTF-8?B?SGVsbG8=?= =?UTF-8?B?V29ybGQ=?=";
    assert_eq!(decode_header_value(input), "HelloWorld");
}

#[test]
fn handles_mixed_plain_and_encoded() {
    let input = "prefix =?UTF-8?B?SGVsbG8=?= suffix";
    assert_eq!(decode_header_value(input), "prefix Hello suffix");
}

// ── extract_email_address ────────────────────────────────────────────────────

#[test]
fn extracts_angle_bracket_address() {
    assert_eq!(
        extract_email_address("Bob Smith <bob@example.com>"),
        "bob@example.com"
    );
}

#[test]
fn plain_address_returned_as_is() {
    assert_eq!(extract_email_address("bob@example.com"), "bob@example.com");
}

#[test]
fn trims_whitespace_from_address() {
    assert_eq!(
        extract_email_address("  bob@example.com  "),
        "bob@example.com"
    );
}

// ── parse_date ───────────────────────────────────────────────────────────────

#[test]
fn parses_date_with_weekday() {
    let dt = parse_date("Mon, 01 Jan 2024 10:00:00 +0000");
    assert!(dt.is_some());
    let dt = dt.unwrap();
    assert_eq!(ymd(&dt), "2024-01-01");
}

#[test]
fn parses_date_without_weekday() {
    let dt = parse_date("15 Feb 2024 14:30:00 +0100");
    assert!(dt.is_some());
}

#[test]
fn returns_none_for_invalid_date() {
    assert!(parse_date("not a date").is_none());
}

#[test]
fn returns_none_for_empty_date() {
    assert!(parse_date("").is_none());
}

// ── expand_two_digit_year ────────────────────────────────────────────────────

#[test]
fn two_digit_year_under_50_maps_to_2000s() {
    assert_eq!(
        expand_two_digit_year("01 Jan 24 10:00:00 +0000"),
        "01 Jan 2024 10:00:00 +0000"
    );
}

#[test]
fn two_digit_year_zero_maps_to_2000() {
    assert_eq!(
        expand_two_digit_year("01 Jan 00 10:00:00 +0000"),
        "01 Jan 2000 10:00:00 +0000"
    );
}

#[test]
fn two_digit_year_49_maps_to_2049() {
    assert_eq!(
        expand_two_digit_year("01 Jan 49 10:00:00 +0000"),
        "01 Jan 2049 10:00:00 +0000"
    );
}

#[test]
fn two_digit_year_50_maps_to_1950() {
    assert_eq!(
        expand_two_digit_year("01 Jan 50 10:00:00 +0000"),
        "01 Jan 1950 10:00:00 +0000"
    );
}

#[test]
fn two_digit_year_99_maps_to_1999() {
    assert_eq!(
        expand_two_digit_year("01 Jan 99 10:00:00 +0000"),
        "01 Jan 1999 10:00:00 +0000"
    );
}

#[test]
fn four_digit_year_is_unchanged() {
    let s = "01 Jan 2024 10:00:00 +0000";
    assert_eq!(expand_two_digit_year(s), s);
}

#[test]
fn non_numeric_year_token_is_unchanged() {
    let s = "01 Jan abc 10:00:00 +0000";
    assert_eq!(expand_two_digit_year(s), s);
}

// ── parse_date with 2-digit years ────────────────────────────────────────────

#[test]
fn parses_two_digit_year_under_50_with_weekday() {
    let dt = parse_date("Mon, 01 Jan 24 10:00:00 +0000").unwrap();
    assert_eq!(dt.year.to_string(), "2024");
}

#[test]
fn parses_two_digit_year_50_or_over_with_weekday() {
    let dt = parse_date("Fri, 15 Jun 96 08:30:00 +0100").unwrap();
    assert_eq!(dt.year.to_string(), "1996");
}

#[test]
fn parses_two_digit_year_without_weekday() {
    let dt = parse_date("15 Mar 03 12:00:00 +0000").unwrap();
    assert_eq!(dt.year.to_string(), "2003");
}

// ── strip_comments ───────────────────────────────────────────────────────────

#[test]
fn trailing_non_timezone_comment_removed() {
    assert_eq!(
        strip_comments("06 May 2008 12:43:31 +0100 (IST)"),
        "06 May 2008 12:43:31 +0100 "
    );
}

#[test]
fn nested_comment_removed() {
    assert_eq!(
        strip_comments("01 Jan 2024 00:00:00 +0000 (foo (bar))"),
        "01 Jan 2024 00:00:00 +0000 "
    );
}

#[test]
fn no_comment_unchanged() {
    let s = "01 Jan 2024 00:00:00 +0000";
    assert_eq!(strip_comments(s), s);
}

#[test]
fn unmatched_close_paren_ignored() {
    assert_eq!(
        strip_comments("01 Jan 2024 +0000)extra"),
        "01 Jan 2024 +0000extra"
    );
}

#[test]
fn parenthesised_named_timezone_is_promoted_when_no_offset_present() {
    assert_eq!(
        strip_comments("15 Jul 2007 14:52:26 (GMT)"),
        "15 Jul 2007 14:52:26  GMT"
    );
}

#[test]
fn parenthesised_signed_offset_is_promoted_when_no_offset_present() {
    assert_eq!(
        strip_comments("15 Jul 2007 14:52:26 (+0100)"),
        "15 Jul 2007 14:52:26  +0100"
    );
}

#[test]
fn parenthesised_timezone_not_promoted_when_offset_already_present() {
    assert_eq!(
        strip_comments("27 Mar 2008 22:51:33 +0000 (GMT)"),
        "27 Mar 2008 22:51:33 +0000 "
    );
}

// ── parse_date with parenthesised comments ───────────────────────────────────

#[test]
fn parses_date_with_trailing_timezone_comment() {
    let dt = parse_date("Tue, 06 May 2008 12:43:31 +0100 (IST)").unwrap();
    assert_eq!(ymd(&dt), "2008-05-06");
    assert_eq!(hms(&dt), "12:43:31");
}

#[test]
fn parses_date_with_nested_comment() {
    let dt = parse_date("Mon, 01 Jan 2024 00:00:00 +0000 (UTC (Universal))").unwrap();
    assert_eq!(ymd(&dt), "2024-01-01");
}

#[test]
fn parses_date_with_timezone_in_parens() {
    let dt = parse_date("Sun, 15 Jul 2007 14:52:26 (GMT)").unwrap();
    assert_eq!(ymd(&dt), "2007-07-15");
    assert_eq!(hms(&dt), "14:52:26");
}

#[test]
fn parses_date_with_numeric_offset_in_parens() {
    let dt = parse_date("01 Jan 2024 10:00:00 (+0530)").unwrap();
    assert_eq!(ymd(&dt), "2024-01-01");
}

#[test]
fn parses_date_with_offset_followed_by_parenthesised_zone_name() {
    let dt = parse_date("Thu, 27 Mar 2008 22:51:33 +0000 (GMT)").unwrap();
    assert_eq!(ymd(&dt), "2008-03-27");
    assert_eq!(hms(&dt), "22:51:33");
}

// ── normalize_timezone ───────────────────────────────────────────────────────

#[test]
fn gmt_minus_offset_stripped_to_numeric() {
    assert_eq!(
        normalize_timezone("22 May 2008 09:17:10 GMT-0700"),
        "22 May 2008 09:17:10 -0700"
    );
}

#[test]
fn gmt_plus_offset_stripped_to_numeric() {
    assert_eq!(
        normalize_timezone("01 Jan 2024 00:00:00 GMT+0000"),
        "01 Jan 2024 00:00:00 +0000"
    );
}

#[test]
fn utc_plus_offset_stripped_to_numeric() {
    assert_eq!(
        normalize_timezone("01 Jan 2024 12:00:00 UTC+0530"),
        "01 Jan 2024 12:00:00 +0530"
    );
}

#[test]
fn standalone_gmt_mapped_to_zero_offset() {
    assert_eq!(
        normalize_timezone("01 Jan 2024 10:00:00 GMT"),
        "01 Jan 2024 10:00:00 +0000"
    );
}

#[test]
fn standalone_est_mapped_to_minus_five() {
    assert_eq!(
        normalize_timezone("01 Jan 2024 10:00:00 EST"),
        "01 Jan 2024 10:00:00 -0500"
    );
}

#[test]
fn standalone_pst_mapped_to_minus_eight() {
    assert_eq!(
        normalize_timezone("01 Jan 2024 10:00:00 PST"),
        "01 Jan 2024 10:00:00 -0800"
    );
}

#[test]
fn bare_unsigned_offset_gets_plus_sign() {
    assert_eq!(
        normalize_timezone("11 Jan 2008 14:02:49 0000"),
        "11 Jan 2008 14:02:49 +0000"
    );
}

#[test]
fn bare_nonzero_unsigned_offset_gets_plus_sign() {
    assert_eq!(
        normalize_timezone("11 Jan 2008 14:02:49 0530"),
        "11 Jan 2008 14:02:49 +0530"
    );
}

#[test]
fn numeric_offset_unchanged() {
    let s = "01 Jan 2024 10:00:00 -0700";
    assert_eq!(normalize_timezone(s), s);
}

#[test]
fn unknown_named_zone_unchanged() {
    let s = "01 Jan 2024 10:00:00 XYZ";
    assert_eq!(normalize_timezone(s), s);
}

// ── parse_date with non-standard timezones ───────────────────────────────────

#[test]
fn parses_gmt_minus_offset() {
    let dt = parse_date("Thu, 22 May 08 09:17:10 GMT-0700").unwrap();
    assert_eq!(ymd(&dt), "2008-05-22");
    assert_eq!(hms(&dt), "09:17:10");
}

#[test]
fn parses_standalone_gmt() {
    let dt = parse_date("Mon, 01 Jan 2024 10:00:00 GMT").unwrap();
    assert_eq!(ymd(&dt), "2024-01-01");
}

#[test]
fn parses_standalone_pst() {
    let dt = parse_date("15 Jun 2023 08:30:00 PST").unwrap();
    assert_eq!(ymd(&dt), "2023-06-15");
}

#[test]
fn parses_iso8601_date() {
    let dt = parse_date("2008-04-07 21:54:27 +0100").unwrap();
    assert_eq!(ymd(&dt), "2008-04-07");
    assert_eq!(hms(&dt), "21:54:27");
}

#[test]
fn parses_iso8601_date_no_seconds() {
    let dt = parse_date("2008-04-07 21:54 +0100").unwrap();
    assert_eq!(ymd(&dt), "2008-04-07");
}

#[test]
fn parses_bare_unsigned_offset() {
    let dt = parse_date("Fri, 11 Jan 2008 14:02:49 0000").unwrap();
    assert_eq!(ymd(&dt), "2008-01-11");
    assert_eq!(hms(&dt), "14:02:49");
}

// ── case-insensitive header names ────────────────────────────────────────────

#[test]
fn lowercase_date_header_is_parsed() {
    let raw = make_emlx(
        "From: a@b.com\nSubject: x\ndate: Mon, 01 Jan 2024 10:00:00 +0000",
        "",
    );
    let email = parse_emlx_bytes(&raw, 0).unwrap();
    assert_eq!(ymd(&email.date.unwrap()), "2024-01-01");
}

#[test]
fn uppercase_date_header_is_parsed() {
    let raw = make_emlx(
        "From: a@b.com\nSubject: x\nDATE: Mon, 01 Jan 2024 10:00:00 +0000",
        "",
    );
    let email = parse_emlx_bytes(&raw, 0).unwrap();
    assert!(email.date.is_some());
}

#[test]
fn mixed_case_from_and_subject_headers_are_parsed() {
    let raw = make_emlx(
        "FROM: alice@example.com\nSUBJECT: Hello\nDate: Mon, 01 Jan 2024 10:00:00 +0000",
        "",
    );
    let email = parse_emlx_bytes(&raw, 0).unwrap();
    assert_eq!(email.from, "alice@example.com");
    assert_eq!(email.subject, "Hello");
}

// ── header folding ───────────────────────────────────────────────────────────

#[test]
fn unfolded_subject_parsed_correctly() {
    let raw = make_emlx(
        "From: a@b.com\nSubject: This is a very\n long subject\nDate: Mon, 01 Jan 2024 10:00:00 +0000",
        "",
    );
    let email = parse_emlx_bytes(&raw, 0).unwrap();
    assert_eq!(email.subject, "This is a very long subject");
}

// ── parse_emlx_bytes date tolerance ──────────────────────────────────────────

#[test]
fn empty_date_header_yields_none_date() {
    let raw = make_emlx("From: a@b.com\nSubject: x\nDate: ", "");
    let email = parse_emlx_bytes(&raw, 0).unwrap();
    assert!(email.date.is_none());
}
