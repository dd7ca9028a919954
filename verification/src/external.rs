//! Trusted items: the calls this library makes into `encoding_rs`, `chrono`
//! and the parts of `std` that vstd gives no specification. Each contract
//! below is believed, not proved; its doc comment says what it claims.
use vstd::prelude::*;
use vstd::utf8::{decode_utf8, valid_utf8};
use chrono::{Datelike, Timelike};
use crate::emlx::DateStamp;

verus! {

// ── encoding_rs ───────────────────────────────────────────────────────────────

/// Whether `encoding_rs::Encoding::for_label` recognises `label` (after its
/// own ASCII-whitespace trimming and case folding) as an Encoding Standard label.
pub uninterp spec fn label_known(label: Seq<u8>) -> bool;

/// The text that `Encoding::decode` (with BOM sniffing and replacement of
/// malformed sequences) produces for `bytes`, in the encoding that
/// `Encoding::for_label(label)` names.
pub uninterp spec fn decode_labelled(label: Seq<u8>, bytes: Seq<u8>) -> Seq<char>;

/// The bytes of the label `utf-8`.
pub open spec fn utf8_label() -> Seq<u8> {
    seq![117u8, 116u8, 102u8, 45u8, 56u8]
}

/// The bytes of the label `windows-1252`.
pub open spec fn windows_1252_label() -> Seq<u8> {
    seq![119u8, 105u8, 110u8, 100u8, 111u8, 119u8, 115u8, 45u8, 49u8, 50u8, 53u8, 50u8]
}

/// Calls `encoding_rs::Encoding::for_label(label)` and, when it names an
/// encoding, that encoding's `decode(bytes)`, keeping the decoded text.
/// Claims: the result is present exactly when the label is known; the text
/// is `decode_labelled(label, bytes)`, with at most one character per input
/// byte (every decoded character, a replacement character for a malformed
/// sequence included, consumes at least one byte); the labels `utf-8` and
/// `windows-1252` are known (the crate's documentation lists both). `decode`
/// panics only when its output-buffer size computation overflows, which
/// `requires` rules out.
#[verifier::external_body]
pub(crate) fn decode_with_label(label: &[u8], bytes: &[u8]) -> (r: Option<String>)
    requires
        bytes@.len() <= usize::MAX / 8,
    ensures
        r is Some <==> label_known(label@),
        r matches Some(t) ==> t@ == decode_labelled(label@, bytes@),
        r matches Some(t) ==> t@.len() <= bytes@.len(),
        label@ == utf8_label() ==> r is Some,
        label@ == windows_1252_label() ==> r is Some,
{
    match encoding_rs::Encoding::for_label(label) {
        Some(encoding) => Some(encoding.decode(bytes).0.into_owned()),
        None => None,
    }
}

// ── chrono ────────────────────────────────────────────────────────────────────

/// The value `chrono::DateTime::parse_from_str(s, fmt)` yields, read back
/// through its accessors, or `None` when chrono reports a parse error.
pub uninterp spec fn chrono_parse(s: Seq<char>, fmt: Seq<char>) -> Option<DateStamp>;

/// Calls `chrono::DateTime::<FixedOffset>::parse_from_str(s, fmt)` and reads
/// the parsed value's local date and time, offset, Unix timestamp and
/// sub-second nanoseconds. Claims: the result is `chrono_parse(s, fmt)`, and a
/// parsed month lies in 1..=12 and a day in 1..=31 (as `Datelike::month` and
/// `Datelike::day` document).
#[verifier::external_body]
pub(crate) fn parse_from_str(s: &str, fmt: &str) -> (r: Option<DateStamp>)
    ensures
        r == chrono_parse(s@, fmt@),
        r matches Some(d) ==> 1 <= d.month <= 12 && 1 <= d.day <= 31,
{
    match chrono::DateTime::parse_from_str(s, fmt) {
        Ok(d) => Some(DateStamp {
            year: d.year(),
            month: d.month(),
            day: d.day(),
            hour: d.hour(),
            minute: d.minute(),
            second: d.second(),
            nanosecond: d.nanosecond(),
            offset_seconds: d.offset().local_minus_utc(),
            timestamp: d.timestamp(),
        }),
        Err(_) => None,
    }
}

// ── std ───────────────────────────────────────────────────────────────────────

/// Calls `std::str::from_utf8`. Claims, as its documentation states: it
/// succeeds exactly on valid UTF-8, and then the text is the decoded bytes.
#[verifier::external_body]
pub(crate) fn utf8_text(bytes: &[u8]) -> (r: Option<String>)
    ensures
        r is Some <==> valid_utf8(bytes@),
        r matches Some(t) ==> t@ == decode_utf8(bytes@),
{
    match std::str::from_utf8(bytes) {
        Ok(s) => Some(s.to_owned()),
        Err(_) => None,
    }
}

/// What `str::to_lowercase` returns: the Unicode lowercase form of the text
/// (mostly each character's own mapping, with context-dependent cases such
/// as a final capital sigma).
pub uninterp spec fn unicode_lowercase(s: Seq<char>) -> Seq<char>;

/// Calls `str::to_lowercase`. Claims only that the result is
/// `unicode_lowercase(s)`: the Unicode case tables are not written out here.
#[verifier::external_body]
pub(crate) fn to_lowercase(s: &str) -> (r: String)
    ensures
        r@ == unicode_lowercase(s@),
{
    s.to_lowercase()
}

} // verus!
