//! Parsing of Apple Mail `.emlx` messages: header extraction, RFC 2047
//! decoding, sender addresses and RFC 2822 dates.
use vstd::prelude::*;
use vstd::string::StringSliceAdditionalSpecFns;
use vstd::utf8::{decode_utf8, encode_utf8, length_of_first_scalar, pop_first_scalar, valid_utf8};
use crate::external::{
    chrono_parse, decode_labelled, utf8_text, decode_with_label, label_known, parse_from_str, to_lowercase,
    unicode_lowercase, utf8_label, windows_1252_label,
};
use crate::text::{
    all_ascii_alpha, all_ascii_digits, alpha_only, append, ascii_digit, chars_of, digits_only, decimal, find_char, find_pair, index_of, index_of_pair,
    is_ascii_alpha, is_ascii_digit, is_white_space, last_index_of, lower_ascii_seq, lemma_index_of, lemma_index_of_pair,
    lemma_index_of_pair_unique, pair_at,
    ascii_space, is_ascii_space, push_decimal, rfind_char, slice_of, trimmed_end, white_space, starts_with, string_of, trim, trim_end, trim_start, trimmed,
    lowered_ascii, starts_with_seq, upper_ascii_seq, uppered_ascii,
};

verus! {

/// A parsed `Date:` header: the local calendar date and time, the offset
/// from UTC, and the instant as a Unix timestamp with sub-second nanoseconds.
#[derive(Debug, Clone, Copy, PartialEq, Eq)]
pub struct DateStamp {
    pub year: i32,
    pub month: u32,
    pub day: u32,
    pub hour: u32,
    pub minute: u32,
    pub second: u32,
    pub nanosecond: u32,
    pub offset_seconds: i32,
    pub timestamp: i64,
}

} // verus!

verus! {

// ── Base64 (the `B` encoding of RFC 2047) ─────────────────────────────────────

/// The six-bit value of a base64 alphabet byte; bytes outside the alphabet
/// count as zero.
pub open spec fn b64_value(b: u8) -> int {
    if 65 <= b <= 90 {
        b - 65
    } else if 97 <= b <= 122 {
        b - 71
    } else if 48 <= b <= 57 {
        b + 4
    } else if b == 43 {
        62
    } else if b == 47 {
        63
    } else {
        0
    }
}

/// `s` without its `=` padding bytes, wherever they stand.
pub open spec fn strip_padding(s: Seq<u8>) -> Seq<u8>
    decreases s.len(),
{
    if s.len() == 0 {
        s
    } else if s.last() == 61 {
        strip_padding(s.drop_last())
    } else {
        strip_padding(s.drop_last()).push(s.last())
    }
}

pub open spec fn b64_byte0(a: u8, b: u8) -> u8 {
    (b64_value(a) * 4 + b64_value(b) / 16) as u8
}

pub open spec fn b64_byte1(b: u8, c: u8) -> u8 {
    ((b64_value(b) % 16) * 16 + b64_value(c) / 4) as u8
}

pub open spec fn b64_byte2(c: u8, d: u8) -> u8 {
    ((b64_value(c) % 4) * 64 + b64_value(d)) as u8
}

/// Groups of four symbols give three bytes; a final group of three gives two
/// bytes, of two gives one, and a single trailing symbol is dropped.
pub open spec fn b64_blocks(s: Seq<u8>) -> Seq<u8>
    decreases s.len(),
{
    if s.len() >= 4 {
        seq![b64_byte0(s[0], s[1]), b64_byte1(s[1], s[2]), b64_byte2(s[2], s[3])] + b64_blocks(
            s.skip(4),
        )
    } else if s.len() == 3 {
        seq![b64_byte0(s[0], s[1]), b64_byte1(s[1], s[2])]
    } else if s.len() == 2 {
        seq![b64_byte0(s[0], s[1])]
    } else {
        seq![]
    }
}

/// Lenient base64 decoding: padding is ignored and unknown symbols count as zero.
pub open spec fn base64_bytes(s: Seq<u8>) -> Seq<u8> {
    b64_blocks(strip_padding(s))
}

proof fn lemma_strip_padding_len(s: Seq<u8>)
    ensures
        strip_padding(s).len() <= s.len(),
    decreases s.len(),
{
    if s.len() > 0 {
        lemma_strip_padding_len(s.drop_last());
    }
}

proof fn lemma_b64_blocks_len(s: Seq<u8>)
    ensures
        b64_blocks(s).len() <= s.len(),
    decreases s.len(),
{
    if s.len() >= 4 {
        lemma_b64_blocks_len(s.skip(4));
    }
}

pub proof fn lemma_base64_len(s: Seq<u8>)
    ensures
        base64_bytes(s).len() <= s.len(),
{
    lemma_strip_padding_len(s);
    lemma_b64_blocks_len(strip_padding(s));
}

/// The RFC 2045 base64 alphabet `A`–`Z`, `a`–`z`, `0`–`9`, `+`, `/`: the
/// byte standing for the six-bit value `v`.
pub open spec fn b64_symbol(v: int) -> u8 {
    if v < 26 {
        (65 + v) as u8
    } else if v < 52 {
        (97 + (v - 26)) as u8
    } else if v < 62 {
        (48 + (v - 52)) as u8
    } else if v == 62 {
        43u8
    } else {
        47u8
    }
}

/// Standard base64 encoding with `=` padding.
pub open spec fn b64_encode(x: Seq<u8>) -> Seq<u8>
    decreases x.len(),
{
    if x.len() >= 3 {
        let (a, b, c) = (x[0] as int, x[1] as int, x[2] as int);
        seq![
            b64_symbol(a / 4),
            b64_symbol((a % 4) * 16 + b / 16),
            b64_symbol((b % 16) * 4 + c / 64),
            b64_symbol(c % 64),
        ] + b64_encode(x.skip(3))
    } else if x.len() == 2 {
        let (a, b) = (x[0] as int, x[1] as int);
        seq![b64_symbol(a / 4), b64_symbol((a % 4) * 16 + b / 16), b64_symbol((b % 16) * 4), 61u8]
    } else if x.len() == 1 {
        let a = x[0] as int;
        seq![b64_symbol(a / 4), b64_symbol((a % 4) * 16), 61u8, 61u8]
    } else {
        seq![]
    }
}

proof fn lemma_symbol_value(v: int)
    requires
        0 <= v < 64,
    ensures
        b64_value(b64_symbol(v)) == v,
        b64_symbol(v) != 61,
{
}

proof fn lemma_strip_padding_concat(a: Seq<u8>, b: Seq<u8>)
    ensures
        strip_padding(a + b) == strip_padding(a) + strip_padding(b),
    decreases b.len(),
{
    if b.len() == 0 {
        assert(a + b =~= a);
        assert(strip_padding(a) + strip_padding(b) =~= strip_padding(a));
    } else {
        assert((a + b).drop_last() =~= a + b.drop_last());
        assert((a + b).last() == b.last());
        lemma_strip_padding_concat(a, b.drop_last());
        if b.last() != 61 {
            assert(strip_padding(a) + strip_padding(b) =~= (strip_padding(a) + strip_padding(b.drop_last())).push(b.last()));
        }
    }
}

proof fn lemma_strip_padding_free(s: Seq<u8>)
    requires
        forall|j: int| 0 <= j < s.len() ==> s[j] != 61,
    ensures
        strip_padding(s) == s,
    decreases s.len(),
{
    if s.len() > 0 {
        lemma_strip_padding_free(s.drop_last());
        assert(s.drop_last().push(s.last()) =~= s);
    }
}

proof fn lemma_group_bytes(x0: int, x1: int, x2: int)
    requires
        0 <= x0 < 256,
        0 <= x1 < 256,
        0 <= x2 < 256,
    ensures
        x0 / 4 < 64,
        (x0 % 4) * 16 + x1 / 16 < 64,
        (x1 % 16) * 4 + x2 / 64 < 64,
        x2 % 64 < 64,
        (x1 % 16) * 4 < 64,
        (x0 % 4) * 16 < 64,
        (x0 / 4) * 4 + ((x0 % 4) * 16 + x1 / 16) / 16 == x0,
        (((x0 % 4) * 16 + x1 / 16) % 16) * 16 + ((x1 % 16) * 4 + x2 / 64) / 4 == x1,
        (((x1 % 16) * 4 + x2 / 64) % 4) * 64 + x2 % 64 == x2,
        (((x0 % 4) * 16 + x1 / 16) % 16) * 16 + ((x1 % 16) * 4) / 4 == x1,
        (x0 / 4) * 4 + ((x0 % 4) * 16) / 16 == x0,
{
    assert((x0 / 4) * 4 + ((x0 % 4) * 16 + x1 / 16) / 16 == x0) by (nonlinear_arith)
        requires 0 <= x0 < 256, 0 <= x1 < 256;
    assert((((x0 % 4) * 16 + x1 / 16) % 16) * 16 + ((x1 % 16) * 4 + x2 / 64) / 4 == x1) by (nonlinear_arith)
        requires 0 <= x0 < 256, 0 <= x1 < 256, 0 <= x2 < 256;
    assert((((x1 % 16) * 4 + x2 / 64) % 4) * 64 + x2 % 64 == x2) by (nonlinear_arith)
        requires 0 <= x1 < 256, 0 <= x2 < 256;
    assert((((x0 % 4) * 16 + x1 / 16) % 16) * 16 + ((x1 % 16) * 4) / 4 == x1) by (nonlinear_arith)
        requires 0 <= x0 < 256, 0 <= x1 < 256;
    assert((x0 / 4) * 4 + ((x0 % 4) * 16) / 16 == x0) by (nonlinear_arith)
        requires 0 <= x0 < 256;
    assert((x0 % 4) * 16 + x1 / 16 < 64 && (x1 % 16) * 4 + x2 / 64 < 64) by (nonlinear_arith)
        requires 0 <= x0 < 256, 0 <= x1 < 256, 0 <= x2 < 256;
}

/// Decoding gives back what standard base64 encoding encoded: every symbol
/// has its RFC 2045 value and padding is dropped.
#[verifier::spinoff_prover]
pub proof fn law_base64_round_trip(x: Seq<u8>)
    ensures
        base64_bytes(b64_encode(x)) == x,
    decreases x.len(),
{
    let e = b64_encode(x);
    if x.len() >= 3 {
        let (a, b, c) = (x[0] as int, x[1] as int, x[2] as int);
        lemma_group_bytes(a, b, c);
        let (v0, v1, v2, v3) = (a / 4, (a % 4) * 16 + b / 16, (b % 16) * 4 + c / 64, c % 64);
        lemma_symbol_value(v0);
        lemma_symbol_value(v1);
        lemma_symbol_value(v2);
        lemma_symbol_value(v3);
        let g = seq![b64_symbol(v0), b64_symbol(v1), b64_symbol(v2), b64_symbol(v3)];
        assert(b64_byte0(g[0], g[1]) == x[0]);
        assert(b64_byte1(g[1], g[2]) == x[1]);
        assert(b64_byte2(g[2], g[3]) == x[2]);
        let rest = b64_encode(x.skip(3));
        law_base64_round_trip(x.skip(3));
        lemma_strip_padding_concat(g, rest);
        assert forall|j: int| 0 <= j < g.len() implies g[j] != 61 by {}
        lemma_strip_padding_free(g);
        let sp = g + strip_padding(rest);
        assert(e == g + rest);
        assert(strip_padding(e) == sp);
        assert(sp.skip(4) =~= strip_padding(rest));
        assert(sp[0] == g[0] && sp[1] == g[1] && sp[2] == g[2] && sp[3] == g[3]);
        assert(b64_blocks(sp) == seq![b64_byte0(sp[0], sp[1]), b64_byte1(sp[1], sp[2]), b64_byte2(sp[2], sp[3])]
            + b64_blocks(sp.skip(4)));
        assert(b64_blocks(sp) == seq![x[0], x[1], x[2]] + x.skip(3));
        assert(x =~= seq![x[0], x[1], x[2]] + x.skip(3));
    } else if x.len() == 2 {
        let (a, b) = (x[0] as int, x[1] as int);
        lemma_group_bytes(a, b, 0);
        let (v0, v1, v2) = (a / 4, (a % 4) * 16 + b / 16, (b % 16) * 4);
        lemma_symbol_value(v0);
        lemma_symbol_value(v1);
        lemma_symbol_value(v2);
        let g = seq![b64_symbol(v0), b64_symbol(v1), b64_symbol(v2)];
        assert(e =~= g.push(61u8));
        lemma_strip_padding_free(g);
        assert(e.drop_last() =~= g);
        assert(e.last() == 61u8);
        assert(strip_padding(e) == g);
        assert(b64_byte0(g[0], g[1]) == x[0]);
        assert(b64_byte1(g[1], g[2]) == x[1]);
        assert(b64_blocks(g) == seq![x[0], x[1]]);
        assert(x =~= seq![x[0], x[1]]);
    } else if x.len() == 1 {
        let a = x[0] as int;
        lemma_group_bytes(a, 0, 0);
        let (v0, v1) = (a / 4, (a % 4) * 16);
        lemma_symbol_value(v0);
        lemma_symbol_value(v1);
        let g = seq![b64_symbol(v0), b64_symbol(v1)];
        assert(e =~= g.push(61u8).push(61u8));
        lemma_strip_padding_free(g);
        assert(e.drop_last() =~= g.push(61u8));
        assert(e.drop_last().drop_last() =~= g);
        assert(strip_padding(e.drop_last()) == g);
        assert(strip_padding(e) == g);
        assert(b64_byte0(g[0], g[1]) == x[0]);
        assert(b64_blocks(g) == seq![x[0]]);
        assert(x =~= seq![x[0]]);
    } else {
        assert(x =~= Seq::<u8>::empty());
    }
}

fn b64_val(b: u8) -> (r: u8)
    ensures
        r as int == b64_value(b),
        r < 64,
{
    if b >= 65 && b <= 90 {
        b - 65
    } else if b >= 97 && b <= 122 {
        b - 71
    } else if b >= 48 && b <= 57 {
        b + 4
    } else if b == 43 {
        62
    } else if b == 47 {
        63
    } else {
        0
    }
}

/// Decode lenient base64 text (RFC 2047 `B` encoding). Never fails.
pub fn base64_decode(s: &str) -> (r: Result<Vec<u8>, ()>)
    ensures
        r matches Ok(v) && v@ == base64_bytes(s.spec_bytes()),
{
    let bytes = s.as_bytes();
    let mut syms: Vec<u8> = Vec::new();
    let mut k: usize = 0;
    while k < bytes.len()
        invariant
            k <= bytes@.len(),
            bytes@ == s.spec_bytes(),
            syms@ == strip_padding(bytes@.take(k as int)),
        decreases bytes@.len() - k,
    {
        let b = bytes[k];
        assert(bytes@.take(k + 1).drop_last() =~= bytes@.take(k as int));
        if b != 61 {
            syms.push(b);
        }
        k = k + 1;
    }
    assert(bytes@.take(bytes@.len() as int) =~= bytes@);
    let ghost padded = syms@;
    let mut out: Vec<u8> = Vec::new();
    let mut i: usize = 0;
    assert(padded.skip(0) =~= padded);
    assert(out@ + b64_blocks(padded) =~= b64_blocks(padded));
    while i < syms.len() && syms.len() - i > 3
        invariant
            i <= syms.len(),
            syms@ == padded,
            b64_blocks(padded) == out@ + b64_blocks(padded.skip(i as int)),
        decreases syms.len() - i,
    {
        let a = b64_val(syms[i]);
        let b = b64_val(syms[i + 1]);
        let c = b64_val(syms[i + 2]);
        let d = b64_val(syms[i + 3]);
        let ghost rest = padded.skip(i as int);
        assert(rest.skip(4) =~= padded.skip(i + 4));
        out.push(a * 4 + b / 16);
        out.push((b % 16) * 16 + c / 4);
        out.push((c % 4) * 64 + d);
        i = i + 4;
    }
    let ghost rest = padded.skip(i as int);
    if syms.len() - i == 3 {
        let a = b64_val(syms[i]);
        let b = b64_val(syms[i + 1]);
        let c = b64_val(syms[i + 2]);
        out.push(a * 4 + b / 16);
        out.push((b % 16) * 16 + c / 4);
    } else if syms.len() - i == 2 {
        let a = b64_val(syms[i]);
        let b = b64_val(syms[i + 1]);
        out.push(a * 4 + b / 16);
    }
    assert(out@ =~= b64_blocks(padded));
    Ok(out)
}

// ── Quoted-printable (the `Q` encoding of RFC 2047) ───────────────────────────

pub open spec fn hex_digit(b: u8) -> Option<u8> {
    if 48 <= b <= 57 {
        Some((b - 48) as u8)
    } else if 97 <= b <= 102 {
        Some((b - 87) as u8)
    } else if 65 <= b <= 70 {
        Some((b - 55) as u8)
    } else {
        None
    }
}

/// RFC 2047 `Q` decoding: `_` is a space, `=XX` with two hex digits is the
/// byte `XX`, and every other byte stands for itself.
pub open spec fn qp_bytes(s: Seq<u8>) -> Seq<u8>
    decreases s.len(),
{
    if s.len() == 0 {
        seq![]
    } else if s[0] == 95 {
        seq![32u8] + qp_bytes(s.skip(1))
    } else if s[0] == 61 && s.len() > 2 && hex_digit(s[1]) is Some && hex_digit(s[2]) is Some {
        seq![(hex_digit(s[1])->0 * 16 + hex_digit(s[2])->0) as u8] + qp_bytes(s.skip(3))
    } else {
        seq![s[0]] + qp_bytes(s.skip(1))
    }
}

pub proof fn lemma_qp_len(s: Seq<u8>)
    ensures
        qp_bytes(s).len() <= s.len(),
    decreases s.len(),
{
    if s.len() > 0 {
        if s[0] == 61 && s.len() > 2 && hex_digit(s[1]) is Some && hex_digit(s[2]) is Some {
            lemma_qp_len(s.skip(3));
        } else {
            lemma_qp_len(s.skip(1));
        }
    }
}

/// The value of an ASCII hexadecimal digit.
pub fn hex_val(b: u8) -> (r: Option<u8>)
    ensures
        r == hex_digit(b),
{
    if b >= 48 && b <= 57 {
        Some(b - 48)
    } else if b >= 97 && b <= 102 {
        Some(b - 87)
    } else if b >= 65 && b <= 70 {
        Some(b - 55)
    } else {
        None
    }
}

/// Decode RFC 2047 `Q`-encoded text into bytes.
pub fn quoted_printable_decode_header(s: &str) -> (r: Vec<u8>)
    ensures
        r@ == qp_bytes(s.spec_bytes()),
{
    let bytes = s.as_bytes();
    let mut out: Vec<u8> = Vec::new();
    let mut i: usize = 0;
    assert(bytes@.skip(0) =~= bytes@);
    assert(out@ + qp_bytes(bytes@) =~= qp_bytes(bytes@));
    while i < bytes.len()
        invariant
            i <= bytes@.len(),
            qp_bytes(bytes@) == out@ + qp_bytes(bytes@.skip(i as int)),
        decreases bytes@.len() - i,
    {
        let ghost rest = bytes@.skip(i as int);
        if bytes[i] == 95 {
            assert(rest.skip(1) =~= bytes@.skip(i + 1));
            out.push(32);
            i = i + 1;
        } else if bytes[i] == 61 && bytes.len() - i > 2 {
            match (hex_val(bytes[i + 1]), hex_val(bytes[i + 2])) {
                (Some(hi), Some(lo)) => {
                    assert(rest.skip(3) =~= bytes@.skip(i + 3));
                    out.push(hi * 16 + lo);
                    i = i + 3;
                },
                _ => {
                    assert(rest.skip(1) =~= bytes@.skip(i + 1));
                    out.push(bytes[i]);
                    i = i + 1;
                },
            }
        } else {
            assert(rest.skip(1) =~= bytes@.skip(i + 1));
            out.push(bytes[i]);
            i = i + 1;
        }
    }
    assert(out@ =~= out@ + qp_bytes(bytes@.skip(i as int)));
    out
}

} // verus!

verus! {

// ── RFC 2047 encoded words ────────────────────────────────────────────────────

pub proof fn lemma_encode_utf8_len(s: Seq<char>)
    ensures
        encode_utf8(s).len() <= 4 * s.len(),
    decreases s.len(),
{
    if s.len() > 0 {
        lemma_encode_utf8_len(s.drop_first());
    }
}

/// The UTF-8 encoding of a concatenation is the concatenation of the encodings.
pub proof fn lemma_encode_utf8_concat(a: Seq<char>, b: Seq<char>)
    ensures
        encode_utf8(a + b) == encode_utf8(a) + encode_utf8(b),
    decreases a.len(),
{
    if a.len() == 0 {
        assert(a + b =~= b);
        assert(encode_utf8(a) =~= Seq::<u8>::empty());
        assert(encode_utf8(a) + encode_utf8(b) =~= encode_utf8(b));
    } else {
        assert((a + b).drop_first() =~= a.drop_first() + b);
        assert((a + b)[0] == a[0]);
        lemma_encode_utf8_concat(a.drop_first(), b);
        assert(encode_utf8(a + b) =~= encode_utf8(a) + encode_utf8(b));
    }
}

/// A piece of a text takes no more UTF-8 bytes than the whole.
pub proof fn lemma_utf8_len_subrange(s: Seq<char>, i: int, j: int)
    requires
        0 <= i <= j <= s.len(),
    ensures
        encode_utf8(s.subrange(i, j)).len() <= encode_utf8(s).len(),
{
    let a = s.subrange(0, i);
    let m = s.subrange(i, j);
    let c = s.subrange(j, s.len() as int);
    assert(s =~= a + (m + c));
    lemma_encode_utf8_concat(a, m + c);
    lemma_encode_utf8_concat(m, c);
}

proof fn lemma_utf8_len_skip(s: Seq<char>, k: int)
    requires
        0 <= k <= s.len(),
    ensures
        encode_utf8(s.skip(k)).len() <= encode_utf8(s).len(),
{
    assert(s.skip(k) =~= s.subrange(k, s.len() as int));
    lemma_utf8_len_subrange(s, k, s.len() as int);
}

proof fn lemma_utf8_len_take(s: Seq<char>, k: int)
    requires
        0 <= k <= s.len(),
    ensures
        encode_utf8(s.take(k)).len() <= encode_utf8(s).len(),
{
    assert(s.take(k) =~= s.subrange(0, k));
    lemma_utf8_len_subrange(s, 0, k);
}

/// `s` with every leading `=?` removed (`trim_start_matches("=?")`).
pub open spec fn strip_open_marks(s: Seq<char>) -> Seq<char>
    decreases s.len(),
{
    if s.len() >= 2 && s[0] == '=' && s[1] == '?' {
        strip_open_marks(s.skip(2))
    } else {
        s
    }
}

/// `s` with every trailing `?=` removed (`trim_end_matches("?=")`).
pub open spec fn strip_close_marks(s: Seq<char>) -> Seq<char>
    decreases s.len(),
{
    if s.len() >= 2 && s[s.len() - 2] == '?' && s[s.len() - 1] == '=' {
        strip_close_marks(s.take(s.len() - 2))
    } else {
        s
    }
}

/// `splitn(3, '?')` when it yields three parts.
pub open spec fn split_three(s: Seq<char>) -> Option<(Seq<char>, Seq<char>, Seq<char>)> {
    match index_of(s, '?') {
        None => None,
        Some(i) => {
            let rest = s.skip(i + 1);
            match index_of(rest, '?') {
                None => None,
                Some(j) => Some((s.take(i), rest.take(j), rest.skip(j + 1))),
            }
        },
    }
}

/// The raw bytes an encoded word carries, for the encodings `B` and `Q`.
pub open spec fn word_payload(encoding: Seq<char>, text: Seq<char>) -> Option<Seq<u8>> {
    if encoding == seq!['B'] {
        Some(base64_bytes(encode_utf8(text)))
    } else if encoding == seq!['Q'] {
        Some(qp_bytes(encode_utf8(text)))
    } else {
        None
    }
}

/// Bytes decoded in the charset `label`, or as UTF-8 when the label is unknown.
pub open spec fn charset_text(label: Seq<u8>, bytes: Seq<u8>) -> Seq<char> {
    if label_known(label) {
        decode_labelled(label, bytes)
    } else {
        decode_labelled(utf8_label(), bytes)
    }
}

/// The text of one encoded word `=?charset?encoding?text?=`, or the word
/// itself when it is malformed or uses an encoding other than `B` or `Q`.
pub open spec fn decoded_word(word: Seq<char>) -> Seq<char> {
    let inner = strip_close_marks(strip_open_marks(word));
    match split_three(inner) {
        None => word,
        Some((charset, encoding, text)) => match word_payload(upper_ascii_seq(encoding), text) {
            None => word,
            Some(bytes) => charset_text(encode_utf8(charset), bytes),
        },
    }
}

/// Leading spaces and tabs removed (`trim_start_matches([' ', '\t'])`).
pub open spec fn skip_blanks(s: Seq<char>) -> Seq<char>
    decreases s.len(),
{
    if s.len() > 0 && (s[0] == ' ' || s[0] == '\t') {
        skip_blanks(s.drop_first())
    } else {
        s
    }
}

/// Replace each encoded word of `r` by its text; white space between two
/// adjacent encoded words is dropped, white space before plain text is kept.
pub open spec fn decode_words(r: Seq<char>) -> Seq<char>
    decreases r.len(),
{
    match index_of_pair(r, '=', '?') {
        None => r,
        Some(start) => {
            let rem = r.skip(start);
            match index_of_pair(rem, '?', '=') {
                None => r,
                Some(end) => {
                    let after = rem.skip(end + 2);
                    let next = skip_blanks(after);
                    r.take(start) + decoded_word(rem.take(end + 2)) + if starts_with(
                        next,
                        seq!['=', '?'],
                    ) {
                        proof {
                            lemma_skip_blanks_len(after);
                            lemma_index_of_pair(r, '=', '?');
                            lemma_index_of_pair(rem, '?', '=');
                        }
                        decode_words(next)
                    } else {
                        proof {
                            lemma_index_of_pair(r, '=', '?');
                            lemma_index_of_pair(rem, '?', '=');
                        }
                        decode_words(after)
                    }
                },
            }
        },
    }
}

pub proof fn lemma_skip_blanks_len(s: Seq<char>)
    ensures
        skip_blanks(s).len() <= s.len(),
        exists|k: int| 0 <= k <= s.len() && skip_blanks(s) == s.skip(k),
    decreases s.len(),
{
    if s.len() > 0 && (s[0] == ' ' || s[0] == '\t') {
        lemma_skip_blanks_len(s.drop_first());
        let k = choose|k: int| 0 <= k <= s.drop_first().len() && skip_blanks(s.drop_first()) == s.drop_first().skip(k);
        assert(s.drop_first().skip(k) =~= s.skip(k + 1));
    } else {
        assert(s.skip(0) =~= s);
    }
}

/// The decoded form of a raw header value.
pub open spec fn header_text(raw: Seq<char>) -> Seq<char> {
    decode_words(trim(raw))
}

/// A header value without an encoded-word opener `=?` decodes to itself,
/// trimmed.
pub proof fn law_plain_header_unchanged(raw: Seq<char>)
    requires
        index_of_pair(trim(raw), '=', '?') is None,
    ensures
        header_text(raw) == trim(raw),
{
}

/// One complete encoded word: it opens with `=?` and its first `?=` is the
/// closing one.
pub open spec fn encoded_word_shape(w: Seq<char>) -> bool {
    &&& w.len() >= 4
    &&& w[0] == '=' && w[1] == '?'
    &&& index_of_pair(w, '?', '=') == Some(w.len() - 2)
}

/// Every character is a space or a tab.
pub open spec fn all_blank(g: Seq<char>) -> bool {
    forall|j: int| 0 <= j < g.len() ==> (#[trigger] g[j]) == ' ' || g[j] == '\t'
}

proof fn lemma_skip_all_blanks(g: Seq<char>, w: Seq<char>)
    requires
        all_blank(g),
        w.len() == 0 || (w[0] != ' ' && w[0] != '\t'),
    ensures
        skip_blanks(g + w) == w,
    decreases g.len(),
{
    if g.len() == 0 {
        assert(g + w =~= w);
    } else {
        assert((g + w).drop_first() =~= g.drop_first() + w);
        assert(all_blank(g.drop_first())) by {
            assert forall|j: int| 0 <= j < g.drop_first().len() implies (#[trigger] g.drop_first()[j]) == ' '
                || g.drop_first()[j] == '\t' by {
                assert(g.drop_first()[j] == g[j + 1]);
            }
        }
        lemma_skip_all_blanks(g.drop_first(), w);
    }
}

/// The first `?=` of an encoded word followed by anything is its closing one.
proof fn lemma_word_close(w: Seq<char>, rest: Seq<char>)
    requires
        encoded_word_shape(w),
    ensures
        index_of_pair(w + rest, '?', '=') == Some(w.len() - 2),
        index_of_pair(w + rest, '=', '?') == Some(0int),
{
    let r = w + rest;
    lemma_index_of_pair(w, '?', '=');
    assert forall|j: int| 0 <= j < w.len() - 2 implies !#[trigger] pair_at(r, j, '?', '=') by {
        assert(!pair_at(w, j, '?', '='));
        assert(r[j] == w[j] && r[j + 1] == w[j + 1]);
    }
    assert(pair_at(r, w.len() - 2, '?', '='));
    lemma_index_of_pair_unique(r, '?', '=', Some(w.len() - 2));
    assert(pair_at(r, 0, '=', '?'));
    lemma_index_of_pair_unique(r, '=', '?', Some(0int));
}

/// An encoded word on its own decodes to its text.
proof fn lemma_single_word(w: Seq<char>)
    requires
        encoded_word_shape(w),
    ensures
        decode_words(w) == decoded_word(w),
{
    lemma_word_close(w, Seq::empty());
    assert(w + Seq::<char>::empty() =~= w);
    assert(w.skip(0) =~= w);
    assert(w.take(w.len() as int) =~= w);
    assert(w.skip(w.len() as int) =~= Seq::<char>::empty());
    assert(skip_blanks(Seq::<char>::empty()) == Seq::<char>::empty());
    assert(decode_words(Seq::<char>::empty()) == Seq::<char>::empty());
}

/// A header that opens with a complete encoded word decodes to that word's
/// text followed by the decoding of what comes after it (from the next
/// encoded word when only blanks stand between them).
proof fn lemma_first_word(w: Seq<char>, rest: Seq<char>)
    requires
        encoded_word_shape(w),
    ensures
        decode_words(w + rest) == decoded_word(w) + if starts_with(skip_blanks(rest), seq!['=', '?']) {
            decode_words(skip_blanks(rest))
        } else {
            decode_words(rest)
        },
{
    let r = w + rest;
    lemma_word_close(w, rest);
    assert(r.skip(0) =~= r);
    assert(r.take(w.len() - 2 + 2) =~= w);
    assert(r.skip(w.len() - 2 + 2) =~= rest);
    assert(r.take(0) =~= Seq::<char>::empty());
}

/// White space between two adjacent encoded words is dropped: the header
/// decodes to the two texts joined.
#[verifier::spinoff_prover]
pub proof fn law_adjacent_encoded_words_join(w1: Seq<char>, gap: Seq<char>, w2: Seq<char>)
    requires
        encoded_word_shape(w1),
        encoded_word_shape(w2),
        all_blank(gap),
    ensures
        header_text(w1 + gap + w2) == decoded_word(w1) + decoded_word(w2),
{
    let r = w1 + gap + w2;
    assert(r =~= w1 + (gap + w2));
    assert(!is_white_space(r[0]));
    assert(r.last() == w2[w2.len() - 1]);
    lemma_index_of_pair(w2, '?', '=');
    assert(!is_white_space(r.last()));
    assert(trim_start(r) == r);
    assert(trim_end(r) == r);
    lemma_skip_all_blanks(gap, w2);
    assert(starts_with(w2, seq!['=', '?'])) by {
        assert(w2.subrange(0, 2) =~= seq!['=', '?']);
    }
    lemma_first_word(w1, gap + w2);
    lemma_single_word(w2);
}

/// Blanks and then plain text (without an encoded-word opener) decode to
/// themselves, and skipping the blanks does not reach an opener.
proof fn lemma_plain_tail(gap: Seq<char>, plain: Seq<char>)
    requires
        all_blank(gap),
        index_of_pair(plain, '=', '?') is None,
    ensures
        decode_words(gap + plain) == gap + plain,
        !starts_with(skip_blanks(gap + plain), seq!['=', '?']),
{
    let after = gap + plain;
    lemma_skip_blanks_len(after);
    lemma_index_of_pair(plain, '=', '?');
    let next = skip_blanks(after);
    let k = choose|k: int| 0 <= k <= after.len() && next == after.skip(k);
    if starts_with(next, seq!['=', '?']) {
        assert(next[0] == next.subrange(0, 2)[0] && next[1] == next.subrange(0, 2)[1]);
        assert(after[k] == '=' && after[k + 1] == '?');
        if k < gap.len() {
            assert(after[k] == gap[k]);
        } else {
            assert(after[k] == plain[k - gap.len()] && after[k + 1] == plain[k + 1 - gap.len()]);
            assert(pair_at(plain, k - gap.len(), '=', '?'));
        }
    }
    assert forall|j: int| 0 <= j && j + 1 < after.len() implies !#[trigger] pair_at(after, j, '=', '?') by {
        if j < gap.len() {
            assert(after[j] == gap[j]);
        } else {
            assert(after[j] == plain[j - gap.len()] && after[j + 1] == plain[j + 1 - gap.len()]);
            assert(!pair_at(plain, j - gap.len(), '=', '?'));
        }
    }
    lemma_index_of_pair_unique(after, '=', '?', None);
}

/// White space between an encoded word and plain text is kept.
#[verifier::spinoff_prover]
pub proof fn law_space_before_plain_text_kept(w: Seq<char>, gap: Seq<char>, plain: Seq<char>)
    requires
        encoded_word_shape(w),
        all_blank(gap),
        index_of_pair(plain, '=', '?') is None,
        plain.len() > 0,
        !is_white_space(plain.last()),
    ensures
        header_text(w + gap + plain) == decoded_word(w) + gap + plain,
{
    let r = w + gap + plain;
    let after = gap + plain;
    assert(r =~= w + after);
    assert(!is_white_space(r[0]));
    assert(r.last() == plain.last());
    assert(trim_start(r) == r);
    assert(trim_end(r) == r);
    lemma_plain_tail(gap, plain);
    lemma_first_word(w, after);
    assert(decoded_word(w) + after =~= decoded_word(w) + gap + plain);
}

fn strip_open(v: &Vec<char>) -> (r: Vec<char>)
    ensures
        r@ == strip_open_marks(v@),
{
    let mut i: usize = 0;
    assert(v@.skip(0) =~= v@);
    while i < v.len() && v.len() - i >= 2 && v[i] == '=' && v[i + 1] == '?'
        invariant
            i <= v.len(),
            strip_open_marks(v@) == strip_open_marks(v@.skip(i as int)),
        decreases v.len() - i,
    {
        assert(v@.skip(i as int).skip(2) =~= v@.skip(i + 2));
        i = i + 2;
    }
    assert(v@.skip(i as int) =~= v@.subrange(i as int, v@.len() as int));
    slice_of(v, i, v.len())
}

fn strip_close(v: &Vec<char>) -> (r: Vec<char>)
    ensures
        r@ == strip_close_marks(v@),
{
    let mut n: usize = v.len();
    assert(v@.take(n as int) =~= v@);
    while n >= 2 && v[n - 2] == '?' && v[n - 1] == '='
        invariant
            n <= v.len(),
            strip_close_marks(v@) == strip_close_marks(v@.take(n as int)),
        decreases n,
    {
        assert(v@.take(n as int).take(n - 2) =~= v@.take(n - 2));
        n = n - 2;
    }
    assert(v@.take(n as int) =~= v@.subrange(0, n as int));
    slice_of(v, 0, n)
}

/// The bytes of the label `utf-8`.
fn utf8_label_bytes() -> (r: Vec<u8>)
    ensures
        r@ == utf8_label(),
{
    let mut r: Vec<u8> = Vec::new();
    r.push(117);
    r.push(116);
    r.push(102);
    r.push(45);
    r.push(56);
    assert(r@ =~= utf8_label());
    r
}

/// Decode `bytes` in the charset named by `label`, falling back to UTF-8.
fn decode_charset(label: &[u8], bytes: &[u8]) -> (r: Vec<char>)
    requires
        bytes@.len() <= usize::MAX / 8,
    ensures
        r@ == charset_text(label@, bytes@),
{
    match decode_with_label(label, bytes) {
        Some(t) => chars_of(t.as_str()),
        None => {
            let utf8 = utf8_label_bytes();
            let t = decode_with_label(utf8.as_slice(), bytes).unwrap();
            chars_of(t.as_str())
        },
    }
}

/// Decode a single RFC 2047 encoded word: `=?charset?encoding?text?=`.
pub fn decode_encoded_word(word: &Vec<char>) -> (r: Vec<char>)
    requires
        encode_utf8(word@).len() <= usize::MAX / 8,
    ensures
        r@ == decoded_word(word@),
{
    let opened = strip_open(word);
    let inner = strip_close(&opened);
    let i = match find_char(&inner, '?') {
        Some(i) => i,
        None => return slice_of(word, 0, word.len()),
    };
    let rest = slice_of(&inner, i + 1, inner.len());
    assert(rest@ =~= inner@.skip(i + 1));
    let j = match find_char(&rest, '?') {
        Some(j) => j,
        None => return slice_of(word, 0, word.len()),
    };
    let charset = slice_of(&inner, 0, i);
    let encoding = uppered_ascii(&slice_of(&rest, 0, j));
    let text = slice_of(&rest, j + 1, rest.len());
    assert(charset@ =~= inner@.take(i as int));
    assert(text@ =~= rest@.skip(j + 1));
    proof {
        lemma_strip_len(word@);
        lemma_utf8_len_skip(inner@, i + 1);
        lemma_utf8_len_skip(rest@, j + 1);
    }
    let text_str = string_of(&text);
    let payload: Vec<u8> = if encoding.len() == 1 && encoding[0] == 'B' {
        assert(encoding@ =~= seq!['B']);
        proof { lemma_base64_len(encode_utf8(text@)); }
        match base64_decode(text_str.as_str()) {
            Ok(b) => b,
            Err(_) => return slice_of(word, 0, word.len()),
        }
    } else if encoding.len() == 1 && encoding[0] == 'Q' {
        assert(encoding@ =~= seq!['Q']);
        proof { lemma_qp_len(encode_utf8(text@)); }
        quoted_printable_decode_header(text_str.as_str())
    } else {
        assert(encoding@ != seq!['B'] && encoding@ != seq!['Q']) by {
            if encoding@ == seq!['B'] || encoding@ == seq!['Q'] {
                assert(encoding@.len() == 1);
            }
        }
        return slice_of(word, 0, word.len());
    };
    let label = string_of(&charset);
    decode_charset(label.as_str().as_bytes(), payload.as_slice())
}

proof fn lemma_strip_len(w: Seq<char>)
    ensures
        encode_utf8(strip_close_marks(strip_open_marks(w))).len() <= encode_utf8(w).len(),
{
    lemma_strip_open_len(w);
    lemma_strip_close_len(strip_open_marks(w));
}

proof fn lemma_strip_open_len(w: Seq<char>)
    ensures
        encode_utf8(strip_open_marks(w)).len() <= encode_utf8(w).len(),
    decreases w.len(),
{
    if w.len() >= 2 && w[0] == '=' && w[1] == '?' {
        lemma_strip_open_len(w.skip(2));
        lemma_utf8_len_skip(w, 2);
    }
}

proof fn lemma_strip_close_len(w: Seq<char>)
    ensures
        encode_utf8(strip_close_marks(w)).len() <= encode_utf8(w).len(),
    decreases w.len(),
{
    if w.len() >= 2 && w[w.len() - 2] == '?' && w[w.len() - 1] == '=' {
        lemma_strip_close_len(w.take(w.len() - 2));
        lemma_utf8_len_take(w, w.len() - 2);
    }
}

} // verus!

verus! {

fn skipped_blanks(v: &Vec<char>) -> (r: Vec<char>)
    ensures
        r@ == skip_blanks(v@),
{
    let mut i: usize = 0;
    assert(v@.skip(0) =~= v@);
    while i < v.len() && (v[i] == ' ' || v[i] == '\t')
        invariant
            i <= v.len(),
            skip_blanks(v@) == skip_blanks(v@.skip(i as int)),
        decreases v.len() - i,
    {
        assert(v@.skip(i as int).drop_first() =~= v@.skip(i + 1));
        i = i + 1;
    }
    assert(v@.skip(i as int) =~= v@.subrange(i as int, v@.len() as int));
    slice_of(v, i, v.len())
}

proof fn lemma_trim_utf8_len(s: Seq<char>)
    ensures
        encode_utf8(trim(s)).len() <= encode_utf8(s).len(),
{
    lemma_trim_start_utf8_len(s);
    lemma_trim_end_utf8_len(trim_start(s));
}

proof fn lemma_trim_start_utf8_len(s: Seq<char>)
    ensures
        encode_utf8(trim_start(s)).len() <= encode_utf8(s).len(),
    decreases s.len(),
{
    if s.len() > 0 && is_white_space(s[0]) {
        lemma_trim_start_utf8_len(s.drop_first());
        assert(s.drop_first() =~= s.skip(1));
        lemma_utf8_len_skip(s, 1);
    }
}

proof fn lemma_trim_end_utf8_len(s: Seq<char>)
    ensures
        encode_utf8(trim_end(s)).len() <= encode_utf8(s).len(),
    decreases s.len(),
{
    if s.len() > 0 && is_white_space(s.last()) {
        lemma_trim_end_utf8_len(s.drop_last());
        assert(s.drop_last() =~= s.take(s.len() - 1));
        lemma_utf8_len_take(s, s.len() - 1);
    }
}

/// Decode an RFC 2047 encoded header value. The value may take up to an
/// eighth of the address space in UTF-8, the most the charset decoder takes.
pub fn decode_header_value(raw: &str) -> (r: String)
    requires
        encode_utf8(raw@).len() <= usize::MAX / 8,
    ensures
        r@ == header_text(raw@),
{
    let all = chars_of(raw);
    let t = trimmed(&all);
    proof { lemma_trim_utf8_len(raw@); }
    let ghost whole = t@;
    let mut result: Vec<char> = Vec::new();
    let mut remaining = t;
    loop
        invariant_except_break
            decode_words(whole) == result@ + decode_words(remaining@),
            encode_utf8(remaining@).len() <= usize::MAX / 8,
        ensures
            result@ == decode_words(whole),
        decreases remaining@.len(),
    {
        match find_pair(&remaining, '=', '?') {
            None => {
                append(&mut result, &remaining);
                break;
            },
            Some(start) => {
                let rem = slice_of(&remaining, start, remaining.len());
                assert(rem@ =~= remaining@.skip(start as int));
                match find_pair(&rem, '?', '=') {
                    None => {
                        append(&mut result, &remaining);
                        break;
                    },
                    Some(end) => {
                        let prefix = slice_of(&remaining, 0, start);
                        let word = slice_of(&rem, 0, end + 2);
                        let after = slice_of(&rem, end + 2, rem.len());
                        proof {
                            lemma_utf8_len_skip(remaining@, start as int);
                            lemma_utf8_len_take(rem@, end + 2);
                            lemma_utf8_len_skip(rem@, end + 2);
                        }
                        assert(prefix@ =~= remaining@.take(start as int));
                        assert(word@ =~= rem@.take(end + 2));
                        assert(after@ =~= rem@.skip(end + 2));
                        let decoded = decode_encoded_word(&word);
                        let ghost before = result@;
                        append(&mut result, &prefix);
                        append(&mut result, &decoded);
                        let next = skipped_blanks(&after);
                        proof {
                            lemma_skip_blanks_len(after@);
                            let k = choose|k: int| 0 <= k <= after@.len() && skip_blanks(after@) == after@.skip(k);
                            lemma_utf8_len_skip(after@, k);
                        }
                        let opens = next.len() >= 2 && next[0] == '=' && next[1] == '?';
                        assert(opens == starts_with(next@, seq!['=', '?'])) by {
                            if next@.len() >= 2 {
                                if next@.subrange(0, 2) == seq!['=', '?'] {
                                    assert(next@[0] == next@.subrange(0, 2)[0]);
                                    assert(next@[1] == next@.subrange(0, 2)[1]);
                                }
                                if opens {
                                    assert(next@.subrange(0, 2) =~= seq!['=', '?']);
                                }
                            }
                        }
                        assert(result@ =~= before + (prefix@ + decoded@));
                        if opens {
                            remaining = next;
                        } else {
                            remaining = after;
                        }
                    },
                }
            },
        }
    }
    string_of(&result)
}

} // verus!

verus! {

// ── Sender addresses ──────────────────────────────────────────────────────────

/// The part of a `From:` value that names the mailbox: the text between the
/// last `<` and the next `>` (trimmed), or the whole value when there is none.
pub open spec fn address_part(s: Seq<char>) -> Seq<char> {
    match last_index_of(s, '<') {
        Some(start) => match index_of(s.skip(start), '>') {
            Some(end) => trim(s.subrange(start + 1, start + end)),
            None => s,
        },
        None => s,
    }
}

/// Extract a bare email address from a `Name <address>` or plain `address` string.
pub fn extract_email_address(s: &str) -> (r: String)
    ensures
        r@ == unicode_lowercase(address_part(trim(s@))),
{
    let all = chars_of(s);
    let t = trimmed(&all);
    let part = match rfind_char(&t, '<') {
        Some(start) => {
            let tail = slice_of(&t, start, t.len());
            assert(tail@ =~= t@.skip(start as int));
            match find_char(&tail, '>') {
                Some(end) => {
                    proof { lemma_index_of(t@.skip(start as int), '>'); }
                    assert(tail@[0] == '<');
                    let inner = slice_of(&t, start + 1, start + end);
                    trimmed(&inner)
                },
                None => t,
            }
        },
        None => t,
    };
    let part_str = string_of(&part);
    to_lowercase(part_str.as_str())
}

// ── Dates ─────────────────────────────────────────────────────────────────────

/// The value of a two-digit year token: exactly two ASCII digits.
pub open spec fn short_year_value(t: Seq<char>) -> Option<nat> {
    if t.len() == 2 && is_ascii_digit(t[0]) && is_ascii_digit(t[1]) {
        Some((((t[0] as nat) - 48) * 10 + ((t[1] as nat) - 48)) as nat)
    } else {
        None
    }
}

/// A two-digit year expanded: 0–49 become 2000–2049, 50–99 become 1950–1999.
pub open spec fn full_year(y: nat) -> nat {
    if y < 50 { 2000 + y } else { 1900 + y }
}

/// The date text with its third space-separated token, when that is a
/// two-digit year, replaced by the four-digit year.
pub open spec fn expanded_year(s: Seq<char>) -> Seq<char> {
    match index_of(s, ' ') {
        None => s,
        Some(a) => {
            let r1 = s.skip(a + 1);
            match index_of(r1, ' ') {
                None => s,
                Some(b) => {
                    let start = a + 1 + b + 1;
                    let r2 = s.skip(start);
                    let year = match index_of(r2, ' ') {
                        Some(c) => r2.take(c),
                        None => r2,
                    };
                    match short_year_value(year) {
                        None => s,
                        Some(y) => s.take(start) + decimal(full_year(y)) + s.skip(start + year.len()),
                    }
                },
            }
        },
    }
}

/// If the date string has a 2-digit year (the third space-delimited token),
/// expand it: years 0–49 become 2000–2049, years 50–99 become 1950–1999.
/// Returns the text unchanged if no 2-digit year is detected.
pub fn expand_two_digit_year(s: &str) -> (r: String)
    ensures
        r@ == expanded_year(s@),
{
    let v = chars_of(s);
    let a = match find_char(&v, ' ') {
        Some(a) => a,
        None => return string_of(&v),
    };
    let r1 = slice_of(&v, a + 1, v.len());
    assert(r1@ =~= v@.skip(a + 1));
    let b = match find_char(&r1, ' ') {
        Some(b) => b,
        None => return string_of(&v),
    };
    let start = a + 1 + b + 1;
    let r2 = slice_of(&v, start, v.len());
    assert(r2@ =~= v@.skip(start as int));
    let year_len = match find_char(&r2, ' ') {
        Some(c) => c,
        None => r2.len(),
    };
    let year = slice_of(&r2, 0, year_len);
    assert(year_len == r2.len() ==> year@ =~= r2@);
    let value: u64 = if year.len() == 2 && ascii_digit(year[0]) && ascii_digit(year[1]) {
        ((year[0] as u32 - 48) * 10 + (year[1] as u32 - 48)) as u64
    } else {
        return string_of(&v);
    };
    let full: u64 = if value < 50 { 2000 + value } else { 1900 + value };
    let mut out = slice_of(&v, 0, start);
    push_decimal(&mut out, full);
    let rest = slice_of(&v, start + year_len, v.len());
    append(&mut out, &rest);
    assert(out@ =~= expanded_year(v@));
    string_of(&out)
}

} // verus!

verus! {

// ── Timezone tokens ───────────────────────────────────────────────────────────

pub open spec fn is_sign(c: char) -> bool {
    c == '+' || c == '-'
}

/// Index of the first `+` or `-` in `s`.
pub open spec fn first_sign(s: Seq<char>) -> Option<int>
    decreases s.len(),
{
    if s.len() == 0 {
        None
    } else if is_sign(s[0]) {
        Some(0)
    } else {
        match first_sign(s.drop_first()) {
            Some(k) => Some(k + 1),
            None => None,
        }
    }
}

/// The numeric offset of an RFC 2822 obsolete named zone.
pub open spec fn zone_offset(t: Seq<char>) -> Option<Seq<char>> {
    if t == seq!['G', 'M', 'T'] || t == seq!['U', 'T'] || t == seq!['U', 'T', 'C'] {
        Some(seq!['+', '0', '0', '0', '0'])
    } else if t == seq!['E', 'S', 'T'] {
        Some(seq!['-', '0', '5', '0', '0'])
    } else if t == seq!['E', 'D', 'T'] {
        Some(seq!['-', '0', '4', '0', '0'])
    } else if t == seq!['C', 'S', 'T'] {
        Some(seq!['-', '0', '6', '0', '0'])
    } else if t == seq!['C', 'D', 'T'] {
        Some(seq!['-', '0', '5', '0', '0'])
    } else if t == seq!['M', 'S', 'T'] {
        Some(seq!['-', '0', '7', '0', '0'])
    } else if t == seq!['M', 'D', 'T'] {
        Some(seq!['-', '0', '6', '0', '0'])
    } else if t == seq!['P', 'S', 'T'] {
        Some(seq!['-', '0', '8', '0', '0'])
    } else if t == seq!['P', 'D', 'T'] {
        Some(seq!['-', '0', '7', '0', '0'])
    } else {
        None
    }
}

/// `±HHMM`.
pub open spec fn signed_offset(t: Seq<char>) -> bool {
    t.len() == 5 && is_sign(t[0]) && all_ascii_digits(t.skip(1))
}

/// `HHMM`.
pub open spec fn bare_offset(t: Seq<char>) -> bool {
    t.len() == 4 && all_ascii_digits(t)
}

/// For an alphabetic prefix followed by `±HHMM` (e.g. `GMT-0700`), the
/// position of the sign.
pub open spec fn prefixed_offset(t: Seq<char>) -> Option<int> {
    match first_sign(t) {
        Some(p) => if p > 0 && all_ascii_alpha(t.take(p)) && t.len() - p == 5 && all_ascii_digits(
            t.skip(p + 1),
        ) {
            Some(p)
        } else {
            None
        },
        None => None,
    }
}

/// A timezone value `normalize_timezone` can handle.
pub open spec fn is_zone_token(t: Seq<char>) -> bool {
    ||| zone_offset(t) is Some
    ||| signed_offset(t)
    ||| bare_offset(t)
    ||| prefixed_offset(t) is Some
}

pub proof fn lemma_first_sign(s: Seq<char>)
    ensures
        match first_sign(s) {
            Some(i) => 0 <= i < s.len() && is_sign(s[i]) && forall|j: int| 0 <= j < i ==> !is_sign(#[trigger] s[j]),
            None => forall|j: int| 0 <= j < s.len() ==> !is_sign(#[trigger] s[j]),
        },
    decreases s.len(),
{
    if s.len() > 0 && !is_sign(s[0]) {
        lemma_first_sign(s.drop_first());
        assert forall|j: int| 0 < j < s.len() implies s[j] == s.drop_first()[j - 1] by {}
    }
}

fn find_sign(v: &Vec<char>) -> (r: Option<usize>)
    ensures
        match r {
            Some(i) => first_sign(v@) == Some(i as int) && i < v.len(),
            None => first_sign(v@) is None,
        },
{
    let mut i: usize = 0;
    while i < v.len()
        invariant
            i <= v.len(),
            forall|j: int| 0 <= j < i ==> !is_sign(#[trigger] v@[j]),
        decreases v.len() - i,
    {
        if v[i] == '+' || v[i] == '-' {
            proof { lemma_first_sign(v@); }
            return Some(i);
        }
        i = i + 1;
    }
    proof { lemma_first_sign(v@); }
    None
}

/// Whether the characters of `v` are exactly `w`.
fn is_word(v: &Vec<char>, w: &[char]) -> (r: bool)
    ensures
        r == (v@ == w@),
{
    if v.len() != w.len() {
        return false;
    }
    let mut i: usize = 0;
    while i < v.len()
        invariant
            i <= v.len() == w@.len(),
            forall|j: int| 0 <= j < i ==> v@[j] == w@[j],
        decreases v.len() - i,
    {
        if v[i] != w[i] {
            return false;
        }
        i = i + 1;
    }
    assert(v@ =~= w@);
    true
}

fn chars_from(w: &[char]) -> (r: Vec<char>)
    ensures
        r@ == w@,
{
    let mut r: Vec<char> = Vec::new();
    let mut i: usize = 0;
    while i < w.len()
        invariant
            i <= w@.len(),
            r@ == w@.take(i as int),
        decreases w@.len() - i,
    {
        r.push(w[i]);
        i = i + 1;
        assert(r@ =~= w@.take(i as int));
    }
    assert(w@.take(w@.len() as int) =~= w@);
    r
}

fn named_zone_offset(t: &Vec<char>) -> (r: Option<Vec<char>>)
    ensures
        match r {
            Some(z) => zone_offset(t@) == Some(z@),
            None => zone_offset(t@) is None,
        },
{
    assert(['G', 'M', 'T']@ =~= seq!['G', 'M', 'T']);
    assert(['U', 'T']@ =~= seq!['U', 'T']);
    assert(['U', 'T', 'C']@ =~= seq!['U', 'T', 'C']);
    assert(['E', 'S', 'T']@ =~= seq!['E', 'S', 'T']);
    assert(['E', 'D', 'T']@ =~= seq!['E', 'D', 'T']);
    assert(['C', 'S', 'T']@ =~= seq!['C', 'S', 'T']);
    assert(['C', 'D', 'T']@ =~= seq!['C', 'D', 'T']);
    assert(['M', 'S', 'T']@ =~= seq!['M', 'S', 'T']);
    assert(['M', 'D', 'T']@ =~= seq!['M', 'D', 'T']);
    assert(['P', 'S', 'T']@ =~= seq!['P', 'S', 'T']);
    assert(['P', 'D', 'T']@ =~= seq!['P', 'D', 'T']);
    assert(['+', '0', '0', '0', '0']@ =~= seq!['+', '0', '0', '0', '0']);
    assert(['-', '0', '5', '0', '0']@ =~= seq!['-', '0', '5', '0', '0']);
    assert(['-', '0', '4', '0', '0']@ =~= seq!['-', '0', '4', '0', '0']);
    assert(['-', '0', '6', '0', '0']@ =~= seq!['-', '0', '6', '0', '0']);
    assert(['-', '0', '7', '0', '0']@ =~= seq!['-', '0', '7', '0', '0']);
    assert(['-', '0', '8', '0', '0']@ =~= seq!['-', '0', '8', '0', '0']);
    if is_word(t, &['G', 'M', 'T']) || is_word(t, &['U', 'T']) || is_word(t, &['U', 'T', 'C']) {
        Some(chars_from(&['+', '0', '0', '0', '0']))
    } else if is_word(t, &['E', 'S', 'T']) {
        Some(chars_from(&['-', '0', '5', '0', '0']))
    } else if is_word(t, &['E', 'D', 'T']) {
        Some(chars_from(&['-', '0', '4', '0', '0']))
    } else if is_word(t, &['C', 'S', 'T']) {
        Some(chars_from(&['-', '0', '6', '0', '0']))
    } else if is_word(t, &['C', 'D', 'T']) {
        Some(chars_from(&['-', '0', '5', '0', '0']))
    } else if is_word(t, &['M', 'S', 'T']) {
        Some(chars_from(&['-', '0', '7', '0', '0']))
    } else if is_word(t, &['M', 'D', 'T']) {
        Some(chars_from(&['-', '0', '6', '0', '0']))
    } else if is_word(t, &['P', 'S', 'T']) {
        Some(chars_from(&['-', '0', '8', '0', '0']))
    } else if is_word(t, &['P', 'D', 'T']) {
        Some(chars_from(&['-', '0', '7', '0', '0']))
    } else {
        None
    }
}

fn sign_position(t: &Vec<char>) -> (r: Option<usize>)
    ensures
        match r {
            Some(p) => prefixed_offset(t@) == Some(p as int) && p < t.len(),
            None => prefixed_offset(t@) is None,
        },
{
    match find_sign(t) {
        Some(p) => {
            if p > 0 && t.len() - p == 5 {
                let prefix = slice_of(t, 0, p);
                let digits = slice_of(t, p + 1, t.len());
                assert(prefix@ =~= t@.take(p as int));
                assert(digits@ =~= t@.skip(p + 1));
                if alpha_only(&prefix) && digits_only(&digits) {
                    return Some(p);
                }
            }
            None
        },
        None => None,
    }
}

fn zone_token(t: &Vec<char>) -> (r: bool)
    ensures
        r == is_zone_token(t@),
{
    if named_zone_offset(t).is_some() {
        return true;
    }
    if t.len() == 5 && (t[0] == '+' || t[0] == '-') {
        let digits = slice_of(t, 1, 5);
        assert(digits@ =~= t@.skip(1));
        if digits_only(&digits) {
            return true;
        }
    }
    if t.len() == 4 && digits_only(t) {
        return true;
    }
    if sign_position(t).is_some() {
        return true;
    }
    proof {
        if t@.len() == 5 && is_sign(t@[0]) {
            assert(t@.subrange(1, 5) =~= t@.skip(1));
        }
    }
    false
}

/// Return `true` if `token` is a timezone value that `normalize_timezone` can
/// handle: a named zone, a bare four-digit offset, a signed numeric offset, or
/// an alpha-prefixed numeric offset such as `GMT-0700`.
pub fn is_timezone_token(token: &str) -> (r: bool)
    ensures
        r == is_zone_token(token@),
{
    let t = chars_of(token);
    zone_token(&t)
}

} // verus!

verus! {

// ── Comments in date headers ──────────────────────────────────────────────────

/// The final run of non-white-space characters of `t`.
pub open spec fn trailing_word(t: Seq<char>) -> Seq<char>
    decreases t.len(),
{
    if t.len() == 0 || is_white_space(t.last()) {
        seq![]
    } else {
        trailing_word(t.drop_last()).push(t.last())
    }
}

/// The last white-space-delimited word of `s`, or empty
/// (`s.split_whitespace().next_back().unwrap_or("")`).
pub open spec fn last_word(s: Seq<char>) -> Seq<char> {
    trailing_word(trim_end(s))
}

/// One character of comment stripping. The state is the nesting depth, the
/// text kept so far, and the text of the current top-level comment.
pub open spec fn comment_step(st: (nat, Seq<char>, Seq<char>), ch: char) -> (nat, Seq<char>, Seq<char>) {
    let (depth, out, buf) = st;
    if ch == '(' {
        (depth + 1, out, if depth == 0 { seq![] } else { buf })
    } else if ch == ')' && depth > 0 {
        if depth == 1 {
            let token = trim(buf);
            if is_zone_token(token) && !is_zone_token(last_word(out)) {
                (0, out.push(' ') + token, seq![])
            } else {
                (0, out, seq![])
            }
        } else {
            ((depth - 1) as nat, out, buf)
        }
    } else if ch == ')' {
        st
    } else if depth > 0 {
        (depth, out, buf.push(ch))
    } else {
        (depth, out.push(ch), buf)
    }
}

pub open spec fn comment_scan(s: Seq<char>) -> (nat, Seq<char>, Seq<char>)
    decreases s.len(),
{
    if s.len() == 0 {
        (0, seq![], seq![])
    } else {
        comment_step(comment_scan(s.drop_last()), s.last())
    }
}

/// `s` without its parenthesised comments, except that a top-level comment
/// holding just a timezone token is kept (after a space) when the text before
/// it does not already end in one.
pub open spec fn uncommented(s: Seq<char>) -> Seq<char> {
    comment_scan(s).1
}

proof fn lemma_scan_without_parens(s: Seq<char>)
    requires
        forall|j: int| 0 <= j < s.len() ==> (#[trigger] s[j]) != '(' && s[j] != ')',
    ensures
        comment_scan(s) == (0nat, s, Seq::<char>::empty()),
    decreases s.len(),
{
    if s.len() > 0 {
        assert forall|j: int| 0 <= j < s.drop_last().len() implies (#[trigger] s.drop_last()[j]) != '(' && s.drop_last()[j] != ')' by {
            assert(s.drop_last()[j] == s[j]);
        }
        lemma_scan_without_parens(s.drop_last());
        assert(s.drop_last().push(s.last()) =~= s);
    }
}

/// A date text without parentheses has no comments to strip.
pub proof fn law_text_without_comments_unchanged(s: Seq<char>)
    requires
        forall|j: int| 0 <= j < s.len() ==> (#[trigger] s[j]) != '(' && s[j] != ')',
    ensures
        uncommented(s) == s,
{
    lemma_scan_without_parens(s);
}

pub open spec fn paren_free(s: Seq<char>) -> bool {
    forall|j: int| 0 <= j < s.len() ==> (#[trigger] s[j]) != '(' && s[j] != ')'
}

proof fn lemma_zone_token_paren_free(t: Seq<char>)
    requires
        is_zone_token(t),
    ensures
        paren_free(t),
{
    lemma_first_sign(t);
    assert forall|j: int| 0 <= j < t.len() implies (#[trigger] t[j]) != '(' && t[j] != ')' by {
        if zone_offset(t) is Some {
        } else if signed_offset(t) {
            if j > 0 {
                assert(t.skip(1)[j - 1] == t[j]);
            }
        } else if bare_offset(t) {
        } else {
            let p = prefixed_offset(t)->0;
            if j < p {
                assert(t.take(p)[j] == t[j]);
            } else if j > p {
                assert(t.skip(p + 1)[j - p - 1] == t[j]);
            }
        }
    }
}

proof fn lemma_scan_paren_free(s: Seq<char>)
    ensures
        paren_free(comment_scan(s).1),
    decreases s.len(),
{
    if s.len() > 0 {
        lemma_scan_paren_free(s.drop_last());
        let st = comment_scan(s.drop_last());
        let (depth, out, buf) = st;
        let ch = s.last();
        let token = trim(buf);
        if ch == ')' && depth == 1 && is_zone_token(token) && !is_zone_token(last_word(out)) {
            lemma_zone_token_paren_free(token);
            let r = out.push(' ') + token;
            assert forall|j: int| 0 <= j < r.len() implies (#[trigger] r[j]) != '(' && r[j] != ')' by {
                if j < out.len() {
                    assert(r[j] == out[j]);
                } else if j > out.len() {
                    assert(r[j] == token[j - out.len() - 1]);
                }
            }
        } else if ch != '(' && ch != ')' && depth == 0 {
            let r = out.push(ch);
            assert forall|j: int| 0 <= j < r.len() implies (#[trigger] r[j]) != '(' && r[j] != ')' by {
                if j < out.len() {
                    assert(r[j] == out[j]);
                }
            }
        }
    }
}

/// Stripping comments leaves no parenthesis behind, nested or unmatched.
pub proof fn law_uncommented_has_no_parens(s: Seq<char>)
    ensures
        paren_free(uncommented(s)),
{
    lemma_scan_paren_free(s);
}

fn last_word_of(v: &Vec<char>) -> (r: Vec<char>)
    ensures
        r@ == last_word(v@),
{
    let t = trimmed_end(v);
    let mut k: usize = t.len();
    assert(t@.take(t.len() as int) =~= t@);
    assert(t@.skip(t.len() as int) =~= Seq::<char>::empty());
    while k > 0 && !white_space(t[k - 1])
        invariant
            k <= t.len(),
            trailing_word(t@) == trailing_word(t@.take(k as int)) + t@.skip(k as int),
        decreases k,
    {
        assert(t@.take(k as int).drop_last() =~= t@.take(k - 1));
        assert(t@.skip(k - 1) =~= seq![t@[k - 1]] + t@.skip(k as int));
        k = k - 1;
    }
    if k > 0 {
        assert(t@.take(k as int).last() == t@[k - 1]);
    }
    assert(trailing_word(t@.take(k as int)) =~= Seq::<char>::empty());
    assert(t@.skip(k as int) =~= t@.subrange(k as int, t@.len() as int));
    slice_of(&t, k, t.len())
}

/// Remove RFC 2822 parenthesised comments from a date string.
///
/// Nested comments are handled. When a top-level comment's trimmed content is
/// itself a timezone token (e.g. `(GMT)` or `(+0100)`), it is promoted into
/// the output so that `normalize_timezone` can convert it to a numeric offset,
/// unless the text already written ends with a timezone token.
pub fn strip_comments(s: &str) -> (r: String)
    ensures
        r@ == uncommented(s@),
{
    let v = chars_of(s);
    let mut result: Vec<char> = Vec::new();
    let mut depth: usize = 0;
    let mut buf: Vec<char> = Vec::new();
    let mut i: usize = 0;
    while i < v.len()
        invariant
            i <= v.len(),
            depth <= i,
            comment_scan(v@.take(i as int)) == (depth as nat, result@, buf@),
        decreases v.len() - i,
    {
        let ch = v[i];
        assert(v@.take(i + 1).drop_last() =~= v@.take(i as int));
        if ch == '(' {
            if depth == 0 {
                buf = Vec::new();
            }
            depth = depth + 1;
        } else if ch == ')' && depth > 0 {
            depth = depth - 1;
            if depth == 0 {
                let token = trimmed(&buf);
                if zone_token(&token) {
                    let last = last_word_of(&result);
                    if !zone_token(&last) {
                        result.push(' ');
                        append(&mut result, &token);
                    }
                }
                buf = Vec::new();
            }
        } else if ch == ')' {
        } else if depth > 0 {
            buf.push(ch);
        } else {
            result.push(ch);
        }
        i = i + 1;
    }
    assert(v@.take(v.len() as int) =~= v@);
    string_of(&result)
}

// ── Timezone normalisation ────────────────────────────────────────────────────

/// Index of the last ASCII white-space character of `s`.
pub open spec fn last_ascii_space(s: Seq<char>) -> Option<int>
    decreases s.len(),
{
    if s.len() == 0 {
        None
    } else if is_ascii_space(s.last()) {
        Some(s.len() - 1)
    } else {
        last_ascii_space(s.drop_last())
    }
}

pub proof fn lemma_last_ascii_space(s: Seq<char>)
    ensures
        match last_ascii_space(s) {
            Some(i) => 0 <= i < s.len() && is_ascii_space(s[i]) && forall|j: int|
                i < j < s.len() ==> !is_ascii_space(#[trigger] s[j]),
            None => forall|j: int| 0 <= j < s.len() ==> !is_ascii_space(#[trigger] s[j]),
        },
    decreases s.len(),
{
    if s.len() > 0 && !is_ascii_space(s.last()) {
        lemma_last_ascii_space(s.drop_last());
        assert forall|j: int| 0 <= j < s.len() - 1 implies s[j] == s.drop_last()[j] by {}
    }
}

/// `tz` appended to `before` after a space, or alone when `before` is empty.
pub open spec fn join_zone(before: Seq<char>, tz: Seq<char>) -> Seq<char> {
    if before.len() == 0 {
        tz
    } else {
        before.push(' ') + tz
    }
}

/// The text (with trailing white space removed) whose last token, when it is
/// an alpha-prefixed offset, a bare four-digit offset or a named zone, is
/// replaced by the numeric `±HHMM` offset chrono's `%z` reads.
pub open spec fn normalized_zone(s0: Seq<char>) -> Seq<char> {
    let s = trim_end(s0);
    let before = match last_ascii_space(s) {
        Some(pos) => s.take(pos),
        None => seq![],
    };
    let token = match last_ascii_space(s) {
        Some(pos) => trim(s.skip(pos + 1)),
        None => s,
    };
    match prefixed_offset(token) {
        Some(p) => join_zone(before, token.skip(p)),
        None => if bare_offset(token) {
            join_zone(before, seq!['+'] + token)
        } else {
            match zone_offset(token) {
                Some(tz) => join_zone(before, tz),
                None => s,
            }
        },
    }
}

fn joined_zone(before: &Vec<char>, tz: &Vec<char>) -> (r: Vec<char>)
    ensures
        r@ == join_zone(before@, tz@),
{
    if before.len() == 0 {
        slice_of(tz, 0, tz.len())
    } else {
        let mut r = slice_of(before, 0, before.len());
        r.push(' ');
        append(&mut r, tz);
        r
    }
}

/// Normalise non-standard timezone tokens so that chrono's `%z` can parse them.
///
/// A prefixed numeric offset such as `GMT-0700` loses its alphabetic prefix, a
/// bare offset such as `0530` gains a `+`, and the RFC 2822 obsolete zones
/// (`GMT`, `EST`, `PST`, ...) are mapped to their fixed numeric offsets.
/// Anything else is returned unchanged (apart from trailing white space).
pub fn normalize_timezone(s: &str) -> (r: String)
    ensures
        r@ == normalized_zone(s@),
{
    let all = chars_of(s);
    let t = trimmed_end(&all);
    let mut pos: usize = t.len();
    while pos > 0 && !ascii_space(t[pos - 1])
        invariant
            pos <= t.len(),
            forall|j: int| pos <= j < t.len() ==> !is_ascii_space(#[trigger] t@[j]),
        decreases pos,
    {
        pos = pos - 1;
    }
    proof { lemma_last_ascii_space(t@); }
    let (before, token) = if pos > 0 {
        let b = slice_of(&t, 0, pos - 1);
        let rest = slice_of(&t, pos, t.len());
        assert(b@ =~= t@.take(pos - 1));
        assert(rest@ =~= t@.skip(pos as int));
        (b, trimmed(&rest))
    } else {
        (Vec::new(), slice_of(&t, 0, t.len()))
    };
    assert(pos == 0 ==> token@ =~= t@);
    match sign_position(&token) {
        Some(p) => {
            let offset = slice_of(&token, p, token.len());
            assert(offset@ =~= token@.skip(p as int));
            let r = joined_zone(&before, &offset);
            return string_of(&r);
        },
        None => {},
    }
    if token.len() == 4 && digits_only(&token) {
        let mut signed: Vec<char> = Vec::new();
        signed.push('+');
        append(&mut signed, &token);
        let r = joined_zone(&before, &signed);
        return string_of(&r);
    }
    match named_zone_offset(&token) {
        Some(tz) => {
            let r = joined_zone(&before, &tz);
            string_of(&r)
        },
        None => string_of(&t),
    }
}

proof fn lemma_trim_end_idempotent(s: Seq<char>)
    ensures
        trim_end(trim_end(s)) == trim_end(s),
    decreases s.len(),
{
    if s.len() > 0 && is_white_space(s.last()) {
        lemma_trim_end_idempotent(s.drop_last());
    }
}

proof fn lemma_last_ascii_space_append(a: Seq<char>, b: Seq<char>)
    requires
        forall|j: int| 0 <= j < b.len() ==> !is_ascii_space(#[trigger] b[j]),
    ensures
        last_ascii_space(a + b) == last_ascii_space(a),
    decreases b.len(),
{
    if b.len() == 0 {
        assert(a + b =~= a);
    } else {
        assert((a + b).drop_last() =~= a + b.drop_last());
        assert((a + b).last() == b[b.len() - 1]);
        lemma_last_ascii_space_append(a, b.drop_last());
    }
}

/// What every replacement zone looks like: a sign and four ASCII digits.
proof fn lemma_zone_offset_signed(t: Seq<char>)
    ensures
        zone_offset(t) matches Some(tz) ==> signed_offset(tz),
{
    if zone_offset(t) is Some {
        let tz = zone_offset(t)->0;
        assert(tz.len() == 5);
        assert(is_sign(tz[0]));
        assert forall|i: int| 0 <= i < tz.skip(1).len() implies is_ascii_digit(#[trigger] tz.skip(1)[i]) by {
            assert(tz.skip(1)[i] == tz[i + 1]);
        }
    }
}

/// A text ending in a signed offset `±HHMM` after a space (or consisting of
/// one) is left as it is.
proof fn lemma_normalized_zone_fixed(before: Seq<char>, tz: Seq<char>)
    requires
        signed_offset(tz),
    ensures
        normalized_zone(join_zone(before, tz)) == join_zone(before, tz),
{
    let r = join_zone(before, tz);
    assert(tz.skip(1)[3] == tz[4]);
    assert(is_ascii_digit(tz[4]));
    assert(r.last() == tz[4]);
    assert(trim_end(r) == r);
    assert forall|j: int| 0 <= j < tz.len() implies !is_ascii_space(#[trigger] tz[j]) by {
        if j > 0 {
            assert(tz.skip(1)[j - 1] == tz[j]);
        }
    }
    assert(!is_white_space(tz[0]));
    assert(trim_start(tz) == tz);
    assert(trim_end(tz) == tz);
    if before.len() == 0 {
        lemma_last_ascii_space_append(seq![], tz);
        assert(seq![] + tz =~= tz);
        assert(last_ascii_space(Seq::<char>::empty()) is None);
    } else {
        let head = before.push(' ');
        lemma_last_ascii_space_append(head, tz);
        assert(last_ascii_space(head) == Some(before.len() as int));
        assert(r.take(before.len() as int) =~= before);
        assert(r.skip(before.len() as int + 1) =~= tz);
    }
    assert(first_sign(tz) == Some(0int));
    assert(prefixed_offset(tz) is None);
    assert(!bare_offset(tz));
    assert(zone_offset(tz) is None);
}

/// A final alphabetic token after a space is replaced by its zone offset.
proof fn lemma_named_zone_replaced(d: Seq<char>, z: Seq<char>)
    requires
        d.len() > 0,
        z.len() > 0,
        forall|j: int| 0 <= j < z.len() ==> is_ascii_alpha(#[trigger] z[j]),
        zone_offset(z) is Some,
    ensures
        normalized_zone(d + seq![' '] + z) == d + seq![' '] + zone_offset(z)->0,
{
    let s = d + seq![' '] + z;
    assert(s.last() == z[z.len() - 1]);
    assert(trim_end(s) == s);
    assert forall|j: int| 0 <= j < z.len() implies !is_ascii_space(#[trigger] z[j]) by {
        assert(is_ascii_alpha(z[j]));
    }
    let head = d.push(' ');
    assert(s =~= head + z);
    lemma_last_ascii_space_append(head, z);
    assert(last_ascii_space(head) == Some(d.len() as int));
    assert(s.take(d.len() as int) =~= d);
    assert(s.skip(d.len() as int + 1) =~= z);
    assert(!is_white_space(z[0]) && !is_white_space(z[z.len() - 1])) by {
        assert(is_ascii_alpha(z[0]) && is_ascii_alpha(z[z.len() - 1]));
    }
    assert(trim_start(z) == z);
    assert(trim_end(z) == z);
    lemma_first_sign(z);
    if first_sign(z) is Some {
        let p = first_sign(z)->0;
        assert(is_ascii_alpha(z[p]));
    }
    assert(prefixed_offset(z) is None);
    assert(!bare_offset(z)) by {
        if z.len() == 4 {
            assert(is_ascii_alpha(z[0]));
        }
    }
    assert(join_zone(d, zone_offset(z)->0) =~= d + seq![' '] + zone_offset(z)->0);
}

proof fn lemma_zone_case(d: Seq<char>, z: Seq<char>, o: Seq<char>)
    requires
        d.len() > 0,
        z.len() > 0,
        forall|j: int| 0 <= j < z.len() ==> is_ascii_alpha(#[trigger] z[j]),
        zone_offset(z) == Some(o),
    ensures
        normalized_zone(d + (seq![' '] + z)) == d + (seq![' '] + o),
{
    lemma_named_zone_replaced(d, z);
    assert(d + seq![' '] + z =~= d + (seq![' '] + z));
    assert(d + seq![' '] + o =~= d + (seq![' '] + o));
}

/// After a date-time text, the obsolete zone names become their fixed
/// offsets: `UT`, `UTC` and `GMT` are `+0000`, the North American zones are
/// hours behind it.
#[verifier::spinoff_prover]
pub proof fn law_named_zones_become_offsets(d: Seq<char>)
    requires
        d.len() > 0,
    ensures
        normalized_zone(d + seq![' ', 'U', 'T']) == d + seq![' ', '+', '0', '0', '0', '0'],
        normalized_zone(d + seq![' ', 'U', 'T', 'C']) == d + seq![' ', '+', '0', '0', '0', '0'],
        normalized_zone(d + seq![' ', 'G', 'M', 'T']) == d + seq![' ', '+', '0', '0', '0', '0'],
        normalized_zone(d + seq![' ', 'E', 'S', 'T']) == d + seq![' ', '-', '0', '5', '0', '0'],
        normalized_zone(d + seq![' ', 'E', 'D', 'T']) == d + seq![' ', '-', '0', '4', '0', '0'],
        normalized_zone(d + seq![' ', 'C', 'S', 'T']) == d + seq![' ', '-', '0', '6', '0', '0'],
        normalized_zone(d + seq![' ', 'C', 'D', 'T']) == d + seq![' ', '-', '0', '5', '0', '0'],
        normalized_zone(d + seq![' ', 'M', 'S', 'T']) == d + seq![' ', '-', '0', '7', '0', '0'],
        normalized_zone(d + seq![' ', 'M', 'D', 'T']) == d + seq![' ', '-', '0', '6', '0', '0'],
        normalized_zone(d + seq![' ', 'P', 'S', 'T']) == d + seq![' ', '-', '0', '8', '0', '0'],
        normalized_zone(d + seq![' ', 'P', 'D', 'T']) == d + seq![' ', '-', '0', '7', '0', '0'],
{
    assert(normalized_zone(d + seq![' ', 'U', 'T']) == d + seq![' ', '+', '0', '0', '0', '0']) by {
        lemma_zone_case(d, seq!['U', 'T'], seq!['+', '0', '0', '0', '0']);
        assert(seq![' '] + seq!['U', 'T'] =~= seq![' ', 'U', 'T']);
        assert(seq![' '] + seq!['+', '0', '0', '0', '0'] =~= seq![' ', '+', '0', '0', '0', '0']);
    }
    assert(normalized_zone(d + seq![' ', 'U', 'T', 'C']) == d + seq![' ', '+', '0', '0', '0', '0']) by {
        lemma_zone_case(d, seq!['U', 'T', 'C'], seq!['+', '0', '0', '0', '0']);
        assert(seq![' '] + seq!['U', 'T', 'C'] =~= seq![' ', 'U', 'T', 'C']);
        assert(seq![' '] + seq!['+', '0', '0', '0', '0'] =~= seq![' ', '+', '0', '0', '0', '0']);
    }
    assert(normalized_zone(d + seq![' ', 'G', 'M', 'T']) == d + seq![' ', '+', '0', '0', '0', '0']) by {
        lemma_zone_case(d, seq!['G', 'M', 'T'], seq!['+', '0', '0', '0', '0']);
        assert(seq![' '] + seq!['G', 'M', 'T'] =~= seq![' ', 'G', 'M', 'T']);
        assert(seq![' '] + seq!['+', '0', '0', '0', '0'] =~= seq![' ', '+', '0', '0', '0', '0']);
    }
    assert(normalized_zone(d + seq![' ', 'E', 'S', 'T']) == d + seq![' ', '-', '0', '5', '0', '0']) by {
        lemma_zone_case(d, seq!['E', 'S', 'T'], seq!['-', '0', '5', '0', '0']);
        assert(seq![' '] + seq!['E', 'S', 'T'] =~= seq![' ', 'E', 'S', 'T']);
        assert(seq![' '] + seq!['-', '0', '5', '0', '0'] =~= seq![' ', '-', '0', '5', '0', '0']);
    }
    assert(normalized_zone(d + seq![' ', 'E', 'D', 'T']) == d + seq![' ', '-', '0', '4', '0', '0']) by {
        lemma_zone_case(d, seq!['E', 'D', 'T'], seq!['-', '0', '4', '0', '0']);
        assert(seq![' '] + seq!['E', 'D', 'T'] =~= seq![' ', 'E', 'D', 'T']);
        assert(seq![' '] + seq!['-', '0', '4', '0', '0'] =~= seq![' ', '-', '0', '4', '0', '0']);
    }
    assert(normalized_zone(d + seq![' ', 'C', 'S', 'T']) == d + seq![' ', '-', '0', '6', '0', '0']) by {
        lemma_zone_case(d, seq!['C', 'S', 'T'], seq!['-', '0', '6', '0', '0']);
        assert(seq![' '] + seq!['C', 'S', 'T'] =~= seq![' ', 'C', 'S', 'T']);
        assert(seq![' '] + seq!['-', '0', '6', '0', '0'] =~= seq![' ', '-', '0', '6', '0', '0']);
    }
    assert(normalized_zone(d + seq![' ', 'C', 'D', 'T']) == d + seq![' ', '-', '0', '5', '0', '0']) by {
        lemma_zone_case(d, seq!['C', 'D', 'T'], seq!['-', '0', '5', '0', '0']);
        assert(seq![' '] + seq!['C', 'D', 'T'] =~= seq![' ', 'C', 'D', 'T']);
        assert(seq![' '] + seq!['-', '0', '5', '0', '0'] =~= seq![' ', '-', '0', '5', '0', '0']);
    }
    assert(normalized_zone(d + seq![' ', 'M', 'S', 'T']) == d + seq![' ', '-', '0', '7', '0', '0']) by {
        lemma_zone_case(d, seq!['M', 'S', 'T'], seq!['-', '0', '7', '0', '0']);
        assert(seq![' '] + seq!['M', 'S', 'T'] =~= seq![' ', 'M', 'S', 'T']);
        assert(seq![' '] + seq!['-', '0', '7', '0', '0'] =~= seq![' ', '-', '0', '7', '0', '0']);
    }
    assert(normalized_zone(d + seq![' ', 'M', 'D', 'T']) == d + seq![' ', '-', '0', '6', '0', '0']) by {
        lemma_zone_case(d, seq!['M', 'D', 'T'], seq!['-', '0', '6', '0', '0']);
        assert(seq![' '] + seq!['M', 'D', 'T'] =~= seq![' ', 'M', 'D', 'T']);
        assert(seq![' '] + seq!['-', '0', '6', '0', '0'] =~= seq![' ', '-', '0', '6', '0', '0']);
    }
    assert(normalized_zone(d + seq![' ', 'P', 'S', 'T']) == d + seq![' ', '-', '0', '8', '0', '0']) by {
        lemma_zone_case(d, seq!['P', 'S', 'T'], seq!['-', '0', '8', '0', '0']);
        assert(seq![' '] + seq!['P', 'S', 'T'] =~= seq![' ', 'P', 'S', 'T']);
        assert(seq![' '] + seq!['-', '0', '8', '0', '0'] =~= seq![' ', '-', '0', '8', '0', '0']);
    }
    assert(normalized_zone(d + seq![' ', 'P', 'D', 'T']) == d + seq![' ', '-', '0', '7', '0', '0']) by {
        lemma_zone_case(d, seq!['P', 'D', 'T'], seq!['-', '0', '7', '0', '0']);
        assert(seq![' '] + seq!['P', 'D', 'T'] =~= seq![' ', 'P', 'D', 'T']);
        assert(seq![' '] + seq!['-', '0', '7', '0', '0'] =~= seq![' ', '-', '0', '7', '0', '0']);
    }
}

/// Normalising a date text a second time changes nothing.
pub proof fn law_normalize_timezone_idempotent(s: Seq<char>)
    ensures
        normalized_zone(normalized_zone(s)) == normalized_zone(s),
{
    let t = trim_end(s);
    lemma_trim_end_idempotent(s);
    let before = match last_ascii_space(t) {
        Some(pos) => t.take(pos),
        None => seq![],
    };
    let token = match last_ascii_space(t) {
        Some(pos) => trim(t.skip(pos + 1)),
        None => t,
    };
    match prefixed_offset(token) {
        Some(p) => {
            lemma_first_sign(token);
            let tz = token.skip(p);
            assert forall|i: int| 0 <= i < tz.skip(1).len() implies is_ascii_digit(#[trigger] tz.skip(1)[i]) by {
                assert(tz.skip(1)[i] == token.skip(p + 1)[i]);
            }
            lemma_normalized_zone_fixed(before, tz);
        },
        None => {
            if bare_offset(token) {
                let tz = seq!['+'] + token;
                assert forall|i: int| 0 <= i < tz.skip(1).len() implies is_ascii_digit(#[trigger] tz.skip(1)[i]) by {
                    assert(tz.skip(1)[i] == token[i]);
                }
                lemma_normalized_zone_fixed(before, tz);
            } else {
                lemma_zone_offset_signed(token);
                match zone_offset(token) {
                    Some(tz) => {
                        lemma_normalized_zone_fixed(before, tz);
                    },
                    None => {},
                }
            }
        },
    }
}

} // verus!

verus! {

// ── Date parsing ──────────────────────────────────────────────────────────────

/// The text handed to chrono for a `Date:` value: trimmed, without a leading
/// weekday (`Mon,`), without comments, with a two-digit year expanded and the
/// timezone normalised.
pub open spec fn date_candidate(s: Seq<char>) -> Seq<char> {
    let t = trim(s);
    let t2 = match index_of(t, ',') {
        Some(p) => trim(t.skip(p + 1)),
        None => t,
    };
    normalized_zone(expanded_year(trim(uncommented(t2))))
}

/// The first of the accepted formats that chrono parses `n` with.
pub open spec fn parse_formats(n: Seq<char>) -> Option<DateStamp> {
    if chrono_parse(n, "%d %b %Y %H:%M:%S %z"@) is Some {
        chrono_parse(n, "%d %b %Y %H:%M:%S %z"@)
    } else if chrono_parse(n, "%d %b %Y %H:%M %z"@) is Some {
        chrono_parse(n, "%d %b %Y %H:%M %z"@)
    } else if chrono_parse(n, "%e %b %Y %H:%M:%S %z"@) is Some {
        chrono_parse(n, "%e %b %Y %H:%M:%S %z"@)
    } else if chrono_parse(n, "%e %b %Y %H:%M %z"@) is Some {
        chrono_parse(n, "%e %b %Y %H:%M %z"@)
    } else if chrono_parse(n, "%Y-%m-%d %H:%M:%S %z"@) is Some {
        chrono_parse(n, "%Y-%m-%d %H:%M:%S %z"@)
    } else {
        chrono_parse(n, "%Y-%m-%d %H:%M %z"@)
    }
}

/// The date of a `Date:` header value.
pub open spec fn header_date(s: Seq<char>) -> Option<DateStamp> {
    parse_formats(date_candidate(s))
}

/// Try the accepted formats in order on an already normalised date text.
pub fn parse_with_formats(n: &str) -> (r: Option<DateStamp>)
    ensures
        r == parse_formats(n@),
        r matches Some(d) ==> 1 <= d.month <= 12 && 1 <= d.day <= 31,
{
    let r = parse_from_str(n, "%d %b %Y %H:%M:%S %z");
    if r.is_some() {
        return r;
    }
    let r = parse_from_str(n, "%d %b %Y %H:%M %z");
    if r.is_some() {
        return r;
    }
    let r = parse_from_str(n, "%e %b %Y %H:%M:%S %z");
    if r.is_some() {
        return r;
    }
    let r = parse_from_str(n, "%e %b %Y %H:%M %z");
    if r.is_some() {
        return r;
    }
    let r = parse_from_str(n, "%Y-%m-%d %H:%M:%S %z");
    if r.is_some() {
        return r;
    }
    parse_from_str(n, "%Y-%m-%d %H:%M %z")
}

/// The text a `Date:` value is handed to chrono as: trimmed, without a
/// leading weekday, without comments, with a two-digit year expanded and the
/// timezone normalised.
pub fn date_text(s: &str) -> (r: String)
    ensures
        r@ == date_candidate(s@),
{
    let all = chars_of(s);
    let t = trimmed(&all);
    let t2 = match find_char(&t, ',') {
        Some(p) => {
            let rest = slice_of(&t, p + 1, t.len());
            assert(rest@ =~= t@.skip(p + 1));
            trimmed(&rest)
        },
        None => t,
    };
    let t2s = string_of(&t2);
    let uncommented_text = strip_comments(t2s.as_str());
    let u = trimmed(&chars_of(uncommented_text.as_str()));
    let us = string_of(&u);
    let expanded = expand_two_digit_year(us.as_str());
    normalize_timezone(expanded.as_str())
}

/// Parse an RFC 2822 date string.
pub fn parse_date(s: &str) -> (r: Option<DateStamp>)
    ensures
        r == header_date(s@),
        r matches Some(d) ==> 1 <= d.month <= 12 && 1 <= d.day <= 31,
{
    let normalised = date_text(s);
    parse_with_formats(normalised.as_str())
}

} // verus!

verus! {

// ── Message structure ─────────────────────────────────────────────────────────

/// The headers of one message that the statistics use.
#[derive(Debug, PartialEq)]
pub struct Email {
    pub from: String,
    pub subject: String,
    pub date: Option<DateStamp>,
    pub size_bytes: u64,
}

/// `line`, blank line (`\r\n\r\n` or `\n\n`) starts at `i`.
pub open spec fn blank_line_at(b: Seq<u8>, i: int) -> bool {
    ||| (i + 3 < b.len() && b[i] == 13 && b[i + 1] == 10 && b[i + 2] == 13 && b[i + 3] == 10)
    ||| (0 <= i && i + 1 < b.len() && b[i] == 10 && b[i + 1] == 10)
}

/// The first `j >= i` at which a blank line starts, or the length.
pub open spec fn headers_end_from(b: Seq<u8>, i: int) -> int
    decreases b.len() - i,
{
    if i >= b.len() {
        b.len() as int
    } else if blank_line_at(b, i) {
        i
    } else {
        headers_end_from(b, i + 1)
    }
}

/// Where the header block of a message ends: the start of the first blank
/// line, or the end of the message.
pub open spec fn headers_end(b: Seq<u8>) -> int {
    headers_end_from(b, 0)
}

pub proof fn lemma_headers_end_from(b: Seq<u8>, i: int)
    requires
        0 <= i <= b.len(),
    ensures
        i <= headers_end_from(b, i) <= b.len(),
        headers_end_from(b, i) == b.len() || blank_line_at(b, headers_end_from(b, i)),
        forall|j: int| i <= j < headers_end_from(b, i) ==> !blank_line_at(b, j),
    decreases b.len() - i,
{
    if i < b.len() && !blank_line_at(b, i) {
        lemma_headers_end_from(b, i + 1);
    }
}

/// Position of the first blank line in `bytes`, or `bytes.len()`.
pub fn find_headers_end(bytes: &[u8]) -> (r: usize)
    ensures
        r == headers_end(bytes@),
        r <= bytes@.len(),
{
    let mut i: usize = 0;
    while i < bytes.len()
        invariant
            i <= bytes@.len(),
            headers_end(bytes@) == headers_end_from(bytes@, i as int),
        decreases bytes@.len() - i,
    {
        if bytes.len() - i > 3 && bytes[i] == 13 && bytes[i + 1] == 10 && bytes[i + 2] == 13
            && bytes[i + 3] == 10 {
            return i;
        }
        if bytes.len() - i > 1 && bytes[i] == 10 && bytes[i + 1] == 10 {
            return i;
        }
        i = i + 1;
    }
    bytes.len()
}

pub open spec fn is_blank(c: char) -> bool {
    c == ' ' || c == '\t'
}

/// Header unfolding: a line break (`\r\n` or `\n`) followed by a space or tab
/// becomes one space (the space or tab is consumed); any other `\r\n` becomes `\n`.
pub open spec fn unfolded(s: Seq<char>) -> Seq<char>
    decreases s.len(),
{
    if s.len() == 0 {
        seq![]
    } else if s[0] == '\r' && s.len() > 1 && s[1] == '\n' {
        if s.len() > 2 && is_blank(s[2]) {
            seq![' '] + unfolded(s.skip(3))
        } else {
            seq!['\n'] + unfolded(s.skip(2))
        }
    } else if s[0] == '\n' {
        if s.len() > 1 && is_blank(s[1]) {
            seq![' '] + unfolded(s.skip(2))
        } else {
            seq!['\n'] + unfolded(s.skip(1))
        }
    } else {
        seq![s[0]] + unfolded(s.skip(1))
    }
}

/// Text without line breaks is not changed by unfolding.
pub proof fn law_unfold_without_breaks_unchanged(s: Seq<char>)
    requires
        forall|j: int| 0 <= j < s.len() ==> (#[trigger] s[j]) != '\n',
    ensures
        unfolded(s) == s,
    decreases s.len(),
{
    if s.len() > 0 {
        assert(s.len() > 1 ==> s[1] != '\n');
        assert forall|j: int| 0 <= j < s.skip(1).len() implies (#[trigger] s.skip(1)[j]) != '\n' by {
            assert(s.skip(1)[j] == s[j + 1]);
        }
        law_unfold_without_breaks_unchanged(s.skip(1));
        assert(seq![s[0]] + s.skip(1) =~= s);
    }
}

/// Text without line breaks passes through unfolding unchanged, whatever follows.
proof fn lemma_unfold_prefix(a: Seq<char>, r: Seq<char>)
    requires
        forall|j: int| 0 <= j < a.len() ==> (#[trigger] a[j]) != '\n' && a[j] != '\r',
    ensures
        unfolded(a + r) == a + unfolded(r),
    decreases a.len(),
{
    if a.len() == 0 {
        assert(a + r =~= r);
        assert(a + unfolded(r) =~= unfolded(r));
    } else {
        let t = a.skip(1);
        assert forall|j: int| 0 <= j < t.len() implies (#[trigger] t[j]) != '\n' && t[j] != '\r' by {
            assert(t[j] == a[j + 1]);
        }
        lemma_unfold_prefix(t, r);
        assert((a + r)[0] == a[0]);
        assert((a + r).skip(1) =~= t + r);
        assert(seq![a[0]] + (t + unfolded(r)) =~= a + unfolded(r));
    }
}

/// Folding white space is a space or a tab after either kind of line break:
/// for line text `a` and `b`, a break followed by a space or a tab joins them
/// with one space.
pub proof fn law_folded_line_joins(a: Seq<char>, b: Seq<char>)
    requires
        forall|j: int| 0 <= j < a.len() ==> (#[trigger] a[j]) != '\n' && a[j] != '\r',
        forall|j: int| 0 <= j < b.len() ==> (#[trigger] b[j]) != '\n',
    ensures
        unfolded(a + seq!['\n', ' '] + b) == a + seq![' '] + b,
        unfolded(a + seq!['\n', '\t'] + b) == a + seq![' '] + b,
        unfolded(a + seq!['\r', '\n', ' '] + b) == a + seq![' '] + b,
        unfolded(a + seq!['\r', '\n', '\t'] + b) == a + seq![' '] + b,
{
    law_unfold_without_breaks_unchanged(b);
    let f1 = seq!['\n', ' '] + b;
    let f2 = seq!['\n', '\t'] + b;
    let f3 = seq!['\r', '\n', ' '] + b;
    let f4 = seq!['\r', '\n', '\t'] + b;
    lemma_unfold_prefix(a, f1);
    lemma_unfold_prefix(a, f2);
    lemma_unfold_prefix(a, f3);
    lemma_unfold_prefix(a, f4);
    assert(f1.skip(2) =~= b);
    assert(f2.skip(2) =~= b);
    assert(f3.skip(3) =~= b);
    assert(f4.skip(3) =~= b);
    assert(a + seq!['\n', ' '] + b =~= a + f1);
    assert(a + seq!['\n', '\t'] + b =~= a + f2);
    assert(a + seq!['\r', '\n', ' '] + b =~= a + f3);
    assert(a + seq!['\r', '\n', '\t'] + b =~= a + f4);
    assert(a + (seq![' '] + b) =~= a + seq![' '] + b);
}

pub proof fn lemma_unfolded_len(s: Seq<char>)
    ensures
        unfolded(s).len() <= s.len(),
    decreases s.len(),
{
    if s.len() > 0 {
        if s[0] == '\r' && s.len() > 1 && s[1] == '\n' {
            if s.len() > 2 && is_blank(s[2]) {
                lemma_unfolded_len(s.skip(3));
            } else {
                lemma_unfolded_len(s.skip(2));
            }
        } else if s[0] == '\n' {
            if s.len() > 1 && is_blank(s[1]) {
                lemma_unfolded_len(s.skip(2));
            } else {
                lemma_unfolded_len(s.skip(1));
            }
        } else {
            lemma_unfolded_len(s.skip(1));
        }
    }
}

fn unfold_chars(v: &Vec<char>) -> (r: Vec<char>)
    ensures
        r@ == unfolded(v@),
{
    let mut out: Vec<char> = Vec::new();
    let mut i: usize = 0;
    assert(v@.skip(0) =~= v@);
    assert(out@ + unfolded(v@) =~= unfolded(v@));
    while i < v.len()
        invariant
            i <= v.len(),
            unfolded(v@) == out@ + unfolded(v@.skip(i as int)),
        decreases v.len() - i,
    {
        let ghost rest = v@.skip(i as int);
        let c = v[i];
        if c == '\r' && v.len() - i > 1 && v[i + 1] == '\n' {
            if v.len() - i > 2 && (v[i + 2] == ' ' || v[i + 2] == '\t') {
                assert(rest.skip(3) =~= v@.skip(i + 3));
                out.push(' ');
                i = i + 3;
            } else {
                assert(rest.skip(2) =~= v@.skip(i + 2));
                out.push('\n');
                i = i + 2;
            }
        } else if c == '\n' {
            if v.len() - i > 1 && (v[i + 1] == ' ' || v[i + 1] == '\t') {
                assert(rest.skip(2) =~= v@.skip(i + 2));
                out.push(' ');
                i = i + 2;
            } else {
                assert(rest.skip(1) =~= v@.skip(i + 1));
                out.push('\n');
                i = i + 1;
            }
        } else {
            assert(rest.skip(1) =~= v@.skip(i + 1));
            out.push(c);
            i = i + 1;
        }
    }
    assert(out@ =~= out@ + unfolded(v@.skip(i as int)));
    out
}

/// Join folded header lines (RFC 2822 §2.2.3).
pub fn unfold_headers(s: &str) -> (r: String)
    ensures
        r@ == unfolded(s@),
{
    let v = chars_of(s);
    let out = unfold_chars(&v);
    string_of(&out)
}

} // verus!

verus! {

// ── Header fields ─────────────────────────────────────────────────────────────

/// `line` without one trailing `\r`.
pub open spec fn without_cr(line: Seq<char>) -> Seq<char> {
    if line.len() > 0 && line.last() == '\r' {
        line.drop_last()
    } else {
        line
    }
}

pub open spec fn from_prefix() -> Seq<char> {
    seq!['f', 'r', 'o', 'm', ':']
}

pub open spec fn subject_prefix() -> Seq<char> {
    seq!['s', 'u', 'b', 'j', 'e', 'c', 't', ':']
}

pub open spec fn date_prefix() -> Seq<char> {
    seq!['d', 'a', 't', 'e', ':']
}

/// One header line's effect on the (from, subject, date) values found so far:
/// the first `From:`, `Subject:` and `Date:` lines (names in any case) whose
/// value is not empty fill the corresponding slot.
pub open spec fn header_step(st: (Seq<char>, Seq<char>, Seq<char>), line: Seq<char>) -> (Seq<char>, Seq<char>, Seq<char>) {
    let (from, subject, date) = st;
    let lower = lower_ascii_seq(line);
    if starts_with(lower, from_prefix()) && from.len() == 0 {
        (header_text(line.skip(5)), subject, date)
    } else if starts_with(lower, subject_prefix()) && subject.len() == 0 {
        (from, header_text(line.skip(8)), date)
    } else if starts_with(lower, date_prefix()) && date.len() == 0 {
        (from, subject, trim(line.skip(5)))
    } else {
        st
    }
}

/// Apply `header_step` to each line of `s` in order (lines as `str::lines`
/// splits them: at `\n`, dropping a `\r` before it, with no empty last line).
pub open spec fn scan_headers(st: (Seq<char>, Seq<char>, Seq<char>), s: Seq<char>) -> (Seq<char>, Seq<char>, Seq<char>)
    decreases s.len(),
{
    if s.len() == 0 {
        st
    } else {
        match index_of(s, '\n') {
            None => header_step(st, s),
            Some(i) => {
                proof { lemma_index_of(s, '\n'); }
                scan_headers(header_step(st, without_cr(s.take(i))), s.skip(i + 1))
            },
        }
    }
}

/// Decimal value of a digit string.
pub open spec fn digits_value(s: Seq<char>) -> nat
    decreases s.len(),
{
    if s.len() == 0 {
        0
    } else {
        digits_value(s.drop_last()) * 10 + ((s.last() as nat) - 48) as nat
    }
}

/// What `str::parse::<usize>` accepts: an optional `+` and then one or more
/// ASCII digits whose value fits in `usize`.
pub open spec fn parse_count(t: Seq<char>) -> Option<nat> {
    let digits = if t.len() > 0 && t[0] == '+' { t.skip(1) } else { t };
    if digits.len() == 0 || !all_ascii_digits(digits) || digits_value(digits) > usize::MAX {
        None
    } else {
        Some(digits_value(digits))
    }
}

pub open spec fn first_newline(raw: Seq<u8>) -> Option<int>
    decreases raw.len(),
{
    if raw.len() == 0 {
        None
    } else if raw[0] == 10 {
        Some(0)
    } else {
        match first_newline(raw.drop_first()) {
            Some(k) => Some(k + 1),
            None => None,
        }
    }
}

pub proof fn lemma_first_newline(raw: Seq<u8>)
    ensures
        match first_newline(raw) {
            Some(i) => 0 <= i < raw.len() && raw[i] == 10 && forall|j: int| 0 <= j < i ==> raw[j] != 10,
            None => forall|j: int| 0 <= j < raw.len() ==> raw[j] != 10,
        },
    decreases raw.len(),
{
    if raw.len() > 0 && raw[0] != 10 {
        lemma_first_newline(raw.drop_first());
        assert forall|j: int| 0 < j < raw.len() implies raw[j] == raw.drop_first()[j - 1] by {}
    }
}

/// The byte count on the first line of an `.emlx` file, when it is there.
pub open spec fn emlx_count(raw: Seq<u8>) -> Option<nat> {
    match first_newline(raw) {
        None => None,
        Some(nl) => {
            let head = raw.take(nl);
            if valid_utf8(head) {
                parse_count(trim(decode_utf8(head)))
            } else {
                None
            }
        },
    }
}

/// The message bytes: after the count line, at most `count` of them.
pub open spec fn emlx_message(raw: Seq<u8>) -> Seq<u8> {
    let start = first_newline(raw)->0 + 1;
    let end = if start + emlx_count(raw)->0 <= raw.len() {
        start + emlx_count(raw)->0
    } else {
        raw.len() as int
    };
    raw.subrange(start, end)
}

/// The header block as text: UTF-8 when valid, Windows-1252 otherwise.
pub open spec fn emlx_header_text(raw: Seq<u8>) -> Seq<char> {
    let message = emlx_message(raw);
    let head = message.take(headers_end(message));
    if valid_utf8(head) {
        decode_utf8(head)
    } else {
        decode_labelled(windows_1252_label(), head)
    }
}

/// The raw `From:`, `Subject:` and `Date:` values of an `.emlx` file.
pub open spec fn emlx_fields(raw: Seq<u8>) -> (Seq<char>, Seq<char>, Seq<char>) {
    scan_headers((seq![], seq![], seq![]), unfolded(emlx_header_text(raw)))
}

proof fn lemma_first_newline_append(raw: Seq<u8>, extra: Seq<u8>)
    requires
        first_newline(raw) is Some,
    ensures
        first_newline(raw + extra) == first_newline(raw),
    decreases raw.len(),
{
    if raw[0] != 10 {
        assert((raw + extra).drop_first() =~= raw.drop_first() + extra);
        lemma_first_newline_append(raw.drop_first(), extra);
    }
}

/// Bytes after the announced message (the Apple plist) are ignored: with the
/// whole message present, appending anything leaves the count, the message
/// and its header fields as they were.
pub proof fn law_trailing_bytes_ignored(raw: Seq<u8>, extra: Seq<u8>)
    requires
        emlx_count(raw) matches Some(c) && first_newline(raw)->0 + 1 + c <= raw.len(),
    ensures
        emlx_count(raw + extra) == emlx_count(raw),
        emlx_message(raw + extra) == emlx_message(raw),
        emlx_fields(raw + extra) == emlx_fields(raw),
{
    lemma_first_newline(raw);
    lemma_first_newline_append(raw, extra);
    let nl = first_newline(raw)->0;
    assert((raw + extra).take(nl) =~= raw.take(nl));
    let c = emlx_count(raw)->0;
    assert((raw + extra).subrange(nl + 1, nl + 1 + c) =~= raw.subrange(nl + 1, nl + 1 + c));
}

proof fn lemma_decode_utf8_len(b: Seq<u8>)
    requires
        valid_utf8(b),
    ensures
        decode_utf8(b).len() <= b.len(),
    decreases b.len(),
{
    if b.len() > 0 {
        let n = length_of_first_scalar(b);
        assert(1 <= n <= 4);
        assert(pop_first_scalar(b).len() == b.len() - n);
        lemma_decode_utf8_len(pop_first_scalar(b));
    }
}

fn parse_count_exec(t: &Vec<char>) -> (r: Option<usize>)
    ensures
        match r {
            Some(n) => parse_count(t@) == Some(n as nat),
            None => parse_count(t@) is None,
        },
{
    let digits = if t.len() > 0 && t[0] == '+' {
        let d = slice_of(t, 1, t.len());
        assert(d@ =~= t@.skip(1));
        d
    } else {
        slice_of(t, 0, t.len())
    };
    assert(digits@ =~= (if t@.len() > 0 && t@[0] == '+' { t@.skip(1) } else { t@ }));
    if digits.len() == 0 || !digits_only(&digits) {
        return None;
    }
    let mut value: usize = 0;
    let mut i: usize = 0;
    while i < digits.len()
        invariant
            i <= digits.len(),
            all_ascii_digits(digits@),
            digits@.len() > 0,
            digits@ == (if t@.len() > 0 && t@[0] == '+' { t@.skip(1) } else { t@ }),
            value as nat == digits_value(digits@.take(i as int)),
        decreases digits.len() - i,
    {
        let d = (digits[i] as u32 - 48) as usize;
        assert(is_ascii_digit(digits@[i as int]));
        assert(digits@.take(i + 1).drop_last() =~= digits@.take(i as int));
        proof { lemma_digits_value_prefix(digits@, i + 1); }
        assert(digits@.take(i + 1).last() == digits@[i as int]);
        assert(digits_value(digits@.take(i + 1)) == value * 10 + d);
        match value.checked_mul(10) {
            Some(m) => match m.checked_add(d) {
                Some(n) => {
                    value = n;
                },
                None => return None,
            },
            None => return None,
        }
        i = i + 1;
    }
    assert(digits@.take(digits.len() as int) =~= digits@);
    Some(value)
}

/// Digit values grow with the prefix: a prefix's value bounds the whole.
proof fn lemma_digits_value_prefix(s: Seq<char>, k: int)
    requires
        0 <= k <= s.len(),
    ensures
        digits_value(s.take(k)) <= digits_value(s),
    decreases s.len() - k,
{
    if k < s.len() {
        lemma_digits_value_prefix(s, k + 1);
        assert(s.take(k + 1).drop_last() =~= s.take(k));
    } else {
        assert(s.take(k) =~= s);
    }
}

} // verus!

verus! {

/// Apply one header line to the fields found so far.
fn header_line(
    line: &Vec<char>,
    from: &mut Vec<char>,
    subject: &mut Vec<char>,
    date: &mut Vec<char>,
)
    requires
        line@.len() <= usize::MAX / 32,
    ensures
        (final(from)@, final(subject)@, final(date)@) == header_step(
            (old(from)@, old(subject)@, old(date)@),
            line@,
        ),
{
    assert(['f', 'r', 'o', 'm', ':']@ =~= from_prefix());
    assert(['s', 'u', 'b', 'j', 'e', 'c', 't', ':']@ =~= subject_prefix());
    assert(['d', 'a', 't', 'e', ':']@ =~= date_prefix());
    let lower = lowered_ascii(line);
    let from_p = chars_from(&['f', 'r', 'o', 'm', ':']);
    let subject_p = chars_from(&['s', 'u', 'b', 'j', 'e', 'c', 't', ':']);
    let date_p = chars_from(&['d', 'a', 't', 'e', ':']);
    if starts_with_seq(&lower, &from_p) && from.len() == 0 {
        let value = slice_of(line, 5, line.len());
        assert(value@ =~= line@.skip(5));
        proof { lemma_encode_utf8_len(value@); }
        let decoded = decode_header_value(string_of(&value).as_str());
        *from = chars_of(decoded.as_str());
    } else if starts_with_seq(&lower, &subject_p) && subject.len() == 0 {
        let value = slice_of(line, 8, line.len());
        assert(value@ =~= line@.skip(8));
        proof { lemma_encode_utf8_len(value@); }
        let decoded = decode_header_value(string_of(&value).as_str());
        *subject = chars_of(decoded.as_str());
    } else if starts_with_seq(&lower, &date_p) && date.len() == 0 {
        let value = slice_of(line, 5, line.len());
        assert(value@ =~= line@.skip(5));
        *date = trimmed(&value);
    }
}

/// The `From:`, `Subject:` and `Date:` values of an unfolded header block.
fn scan_header_fields(text: &Vec<char>) -> (r: (Vec<char>, Vec<char>, Vec<char>))
    requires
        text@.len() <= usize::MAX / 32,
    ensures
        (r.0@, r.1@, r.2@) == scan_headers((seq![], seq![], seq![]), text@),
{
    let mut from: Vec<char> = Vec::new();
    let mut subject: Vec<char> = Vec::new();
    let mut date: Vec<char> = Vec::new();
    let mut rem = slice_of(text, 0, text.len());
    assert(rem@ =~= text@);
    loop
        invariant_except_break
            scan_headers((seq![], seq![], seq![]), text@) == scan_headers(
                (from@, subject@, date@),
                rem@,
            ),
            rem@.len() <= usize::MAX / 32,
        ensures
            scan_headers((seq![], seq![], seq![]), text@) == (from@, subject@, date@),
        decreases rem@.len(),
    {
        if rem.len() == 0 {
            break;
        }
        match find_char(&rem, '\n') {
            None => {
                header_line(&rem, &mut from, &mut subject, &mut date);
                break;
            },
            Some(i) => {
                let end = if i > 0 && rem[i - 1] == '\r' {
                    i - 1
                } else {
                    i
                };
                let line = slice_of(&rem, 0, end);
                assert(line@ =~= without_cr(rem@.take(i as int)));
                header_line(&line, &mut from, &mut subject, &mut date);
                let next = slice_of(&rem, i + 1, rem.len());
                assert(next@ =~= rem@.skip(i + 1));
                rem = next;
            },
        }
    }
    (from, subject, date)
}

/// The position of the first line break and the byte count written before it.
fn count_line(raw: &[u8]) -> (r: Option<(usize, usize)>)
    ensures
        match r {
            Some((nl, c)) => first_newline(raw@) == Some(nl as int) && emlx_count(raw@) == Some(c as nat)
                && nl < raw@.len(),
            None => emlx_count(raw@) is None,
        },
{
    proof { lemma_first_newline(raw@); }
    let mut nl: usize = 0;
    while nl < raw.len() && raw[nl] != 10
        invariant
            nl <= raw@.len(),
            forall|j: int| 0 <= j < nl ==> raw@[j] != 10,
        decreases raw@.len() - nl,
    {
        nl = nl + 1;
    }
    if nl == raw.len() {
        assert(first_newline(raw@) is None);
        return None;
    }
    assert(first_newline(raw@) == Some(nl as int));
    let head = &raw[0..nl];
    assert(head@ =~= raw@.take(nl as int));
    let head_text = match utf8_text(head) {
        Some(t) => t,
        None => return None,
    };
    let count_text = trimmed(&chars_of(head_text.as_str()));
    match parse_count_exec(&count_text) {
        Some(c) => Some((nl, c)),
        None => None,
    }
}

/// The length of the header block of an `.emlx` file, when its count line is
/// well formed.
pub fn header_block_len(raw: &[u8]) -> (r: Option<usize>)
    ensures
        match r {
            Some(n) => emlx_count(raw@) is Some && n == headers_end(emlx_message(raw@)),
            None => emlx_count(raw@) is None,
        },
{
    let (nl, count) = match count_line(raw) {
        Some(p) => p,
        None => return None,
    };
    assert(nl < raw@.len() == raw.len());
    let message = &raw[message_start(nl)..message_end(raw, nl, count)];
    assert(message@ =~= emlx_message(raw@));
    Some(find_headers_end(message))
}

/// Where the message starts: just after the count line.
fn message_start(nl: usize) -> (r: usize)
    requires
        nl < usize::MAX,
    ensures
        r == nl + 1,
{
    nl + 1
}

/// Where the message ends: `count` bytes after its start, or the end of the
/// data when fewer bytes follow.
fn message_end(raw: &[u8], nl: usize, count: usize) -> (r: usize)
    requires
        nl < raw@.len(),
    ensures
        r == if nl + 1 + count <= raw@.len() { nl + 1 + count } else { raw@.len() as int },
{
    assert(nl < raw@.len() == raw.len());
    let start = nl + 1;
    match start.checked_add(count) {
        Some(sum) => if sum < raw.len() { sum } else { raw.len() },
        None => raw.len(),
    }
}

/// Parse EMLX content from a byte slice: a decimal byte count on the first
/// line, then that many bytes of RFC 2822 message (an Apple plist after them
/// is ignored). Returns `None` when the count line is missing or malformed.
pub fn parse_emlx_bytes(raw: &[u8], size_bytes: u64) -> (r: Option<Email>)
    requires
        emlx_count(raw@) is Some ==> headers_end(emlx_message(raw@)) <= usize::MAX / 32,
    ensures
        r is Some <==> emlx_count(raw@) is Some,
        r matches Some(e) ==> (e.date matches Some(d) ==> 1 <= d.month <= 12 && 1 <= d.day <= 31),
        r matches Some(e) ==> {
            let (from, subject, date) = emlx_fields(raw@);
            &&& e.from@ == unicode_lowercase(address_part(trim(from)))
            &&& e.subject@ == subject
            &&& e.date == header_date(date)
            &&& e.size_bytes == size_bytes
        },
{
    let (nl, count) = match count_line(raw) {
        Some(p) => p,
        None => return None,
    };
    assert(nl < raw@.len() == raw.len());
    let start = message_start(nl);
    let end = message_end(raw, nl, count);
    let message = &raw[start..end];
    assert(message@ =~= emlx_message(raw@));
    let header_end = find_headers_end(message);
    let head_bytes = &message[0..header_end];
    assert(head_bytes@ =~= message@.take(header_end as int));
    let header: Vec<char> = match utf8_text(head_bytes) {
        Some(t) => {
            proof { lemma_decode_utf8_len(head_bytes@); }
            chars_of(t.as_str())
        },
        None => {
            let label = windows_1252_label_bytes();
            let t = decode_with_label(label.as_slice(), head_bytes).unwrap();
            chars_of(t.as_str())
        },
    };
    assert(header@ == emlx_header_text(raw@));
    let text = unfold_chars(&header);
    proof { lemma_unfolded_len(header@); }
    let (from, subject, date) = scan_header_fields(&text);
    let from_text = string_of(&from);
    let date_text = string_of(&date);
    Some(Email {
        from: extract_email_address(from_text.as_str()),
        subject: string_of(&subject),
        date: parse_date(date_text.as_str()),
        size_bytes,
    })
}

/// The bytes of the label `windows-1252`.
fn windows_1252_label_bytes() -> (r: Vec<u8>)
    ensures
        r@ == windows_1252_label(),
{
    let mut r: Vec<u8> = Vec::new();
    r.push(119);
    r.push(105);
    r.push(110);
    r.push(100);
    r.push(111);
    r.push(119);
    r.push(115);
    r.push(45);
    r.push(49);
    r.push(50);
    r.push(53);
    r.push(50);
    assert(r@ =~= windows_1252_label());
    r
}

} // verus!
