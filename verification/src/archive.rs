//! How sources are told apart and texts are kept: checksums, compression and
//! dates.

use crate::text::{chars, string_of, text_opt};
use vstd::prelude::*;
use vstd::utf8::{decode_utf8, encode_utf8, valid_utf8};

verus! {

// Checksums --------------------------------------------------------------

/// The SHA-256 checksum of the data.
pub uninterp spec fn sha256_of(data: Seq<u8>) -> Seq<u8>;

/// `sha2::Sha256::digest`. The checksum depends on the data alone and has 32
/// bytes; how it is computed is left unsaid.
#[verifier::external_body]
fn sha256(data: &[u8]) -> (r: Vec<u8>)
    ensures
        r@ == sha256_of(data@),
        r@.len() == 32,
{
    <sha2::Sha256 as sha2::Digest>::digest(data).to_vec()
}

/// The hexadecimal digit of a number below sixteen, in lower case.
pub open spec fn hex_digit(n: int) -> char {
    if n < 10 {
        ('0' as int + n) as char
    } else {
        ('a' as int + (n - 10)) as char
    }
}

/// The bytes in hexadecimal, two digits for each, the higher one first.
pub open spec fn hex_text(data: Seq<u8>) -> Seq<char> {
    Seq::new(
        2 * data.len(),
        |i: int|
            if i % 2 == 0 {
                hex_digit(data[i / 2] as int / 16)
            } else {
                hex_digit(data[i / 2] as int % 16)
            },
    )
}

/// `hex::encode`: the bytes in hexadecimal, in lower case.
#[verifier::external_body]
fn hex_encode(data: &[u8]) -> (r: String)
    ensures
        r@ == hex_text(data@),
{
    hex::encode(data)
}

/// The name of a source: the checksum of its contents in hexadecimal.
pub open spec fn source_name(data: Seq<u8>) -> Seq<char> {
    hex_text(sha256_of(data))
}

/// The name of a source with the contents.
pub fn source_id(data: &[u8]) -> (r: String)
    ensures
        r@ == source_name(data@),
        r@.len() == 64,
{
    let sum = sha256(data);
    hex_encode(sum.as_slice())
}

/// The checksum of a conversation: of its name and of the time of its last
/// change, printed in whole seconds.
pub fn content_hash(conversation_id: &str, stamp: &str) -> (r: String)
    ensures
        r@ == hex_text(sha256_of(encode_utf8(conversation_id@) + encode_utf8(stamp@))),
        r@.len() == 64,
{
    let mut whole = conversation_id.to_owned();
    whole.append(stamp);
    proof {
        crate::text::lemma_bytes_concat(conversation_id@, stamp@);
    }
    let sum = sha256(whole.as_str().as_bytes());
    hex_encode(sum.as_slice())
}

/// The first six characters of a source's name, which stand in its file's.
pub fn hash6(source_id: &str) -> (r: String)
    requires
        source_id@.len() >= 6,
    ensures
        r@ == source_id@.take(6),
{
    let v = chars(source_id);
    let out = string_of(&v, 0, 6);
    assert(out@ =~= source_id@.take(6));
    out
}

// Dates ------------------------------------------------------------------

/// The instant, in seconds since the start of 1970 in UTC, printed by the
/// pattern; nothing for an instant beyond the calendar.
pub uninterp spec fn utc_formatted(secs: i64, pattern: Seq<char>) -> Option<Seq<char>>;

/// `chrono::DateTime::from_timestamp` and, on its result,
/// `chrono::DateTime::format`. What is printed depends on the instant and the
/// pattern alone; how the calendar runs is left unsaid. Only the patterns that
/// are named are valid for certain, and an invalid one would not be printed.
#[verifier::external_body]
fn format_utc(secs: i64, pattern: &str) -> (r: Option<String>)
    requires
        pattern@ == "%Y-%m-%d"@ || pattern@ == "%b %Y"@,
    ensures
        match r {
            Some(s) => utc_formatted(secs, pattern@) == Some(s@),
            None => utc_formatted(secs, pattern@) is None,
        },
{
    chrono::DateTime::from_timestamp(secs, 0).map(|t| t.format(pattern).to_string())
}

/// The day of an instant.
pub fn utc_day(secs: i64) -> (r: Option<String>)
    ensures
        match r {
            Some(s) => utc_formatted(secs, "%Y-%m-%d"@) == Some(s@),
            None => utc_formatted(secs, "%Y-%m-%d"@) is None,
        },
{
    format_utc(secs, "%Y-%m-%d")
}

/// The seconds of ninety days.
pub const NINETY_DAYS: i64 = 7776000;

/// The month ninety days before an instant, or nothing where there is none.
pub open spec fn month_before(now: i64) -> Seq<char> {
    if now < i64::MIN + NINETY_DAYS {
        Seq::empty()
    } else {
        match utc_formatted((now - NINETY_DAYS) as i64, "%b %Y"@) {
            Some(s) => s,
            None => Seq::empty(),
        }
    }
}

/// The month since which a concept is an orphan.
pub fn orphan_since(now: i64) -> (r: String)
    ensures
        r@ == month_before(now),
{
    if now < i64::MIN + NINETY_DAYS {
        return String::new();
    }
    match format_utc(now - NINETY_DAYS, "%b %Y") {
        Some(s) => s,
        None => String::new(),
    }
}

/// The file under which a source is kept.
pub open spec fn file_name(day: Seq<char>, hash6: Seq<char>) -> Seq<char> {
    "conversations-"@ + day + "-"@ + hash6 + ".json"@
}

/// The file under which a source is kept.
pub fn internal_filename(day: &str, hash6: &str) -> (r: String)
    ensures
        r@ == file_name(day@, hash6@),
{
    let mut out = "conversations-".to_owned();
    out.append(day);
    out.append("-");
    out.append(hash6);
    out.append(".json");
    out
}

// Compression ------------------------------------------------------------

/// What zstd makes of the data at the level, if it makes anything.
pub uninterp spec fn zstd_encoded(data: Seq<u8>, level: i32) -> Option<Seq<u8>>;

/// The data that zstd reads, if it can be read.
pub uninterp spec fn zstd_decoded(data: Seq<u8>) -> Option<Seq<u8>>;

/// `zstd::stream::encode_all`. What it makes, and whether it makes anything,
/// depends on the data and the level alone, and what it makes is read back as the
/// data. On which data it makes something is left unsaid.
#[verifier::external_body]
fn compress(data: &[u8], level: i32) -> (r: Option<Vec<u8>>)
    ensures
        match r {
            Some(p) => zstd_encoded(data@, level) == Some(p@) && zstd_decoded(p@) == Some(data@),
            None => zstd_encoded(data@, level) is None,
        },
{
    zstd::stream::encode_all(data, level).ok()
}

/// `zstd::stream::decode_all`. What it reads, and whether it can, depends on the
/// data alone.
#[verifier::external_body]
fn decompress(data: &[u8]) -> (r: Option<Vec<u8>>)
    ensures
        match r {
            Some(d) => zstd_decoded(data@) == Some(d@),
            None => zstd_decoded(data@) is None,
        },
{
    zstd::stream::decode_all(data).ok()
}

/// `String::from_utf8`: the text that the bytes encode, if they encode one.
#[verifier::external_body]
fn text_of_bytes(data: Vec<u8>) -> (r: Option<String>)
    ensures
        match r {
            Some(s) => valid_utf8(data@) && s@ == decode_utf8(data@),
            None => !valid_utf8(data@),
        },
{
    String::from_utf8(data).ok()
}

/// The level at which texts are compressed.
pub const ZSTD_LEVEL: i32 = 3;

/// Whether the blob is the text, compressed.
pub open spec fn packs(blob: Seq<u8>, text: Seq<char>) -> bool {
    zstd_encoded(encode_utf8(text), ZSTD_LEVEL) == Some(blob) && zstd_decoded(blob) == Some(
        encode_utf8(text),
    )
}

/// What is stored where compression gave `result`.
pub fn blob_of(result: Option<Vec<u8>>) -> (r: Vec<u8>)
    ensures
        r@ == match result {
            Some(p) => p@,
            None => Seq::<u8>::empty(),
        },
{
    match result {
        Some(p) => p,
        None => Vec::new(),
    }
}

/// The text, compressed; an empty blob where it cannot be.
pub fn pack_text(text: &str) -> (r: Vec<u8>)
    ensures
        match zstd_encoded(encode_utf8(text@), ZSTD_LEVEL) {
            Some(p) => r@ == p && packs(r@, text@) && text_in(r@) == Some(text@),
            None => r@.len() == 0,
        },
{
    let r = blob_of(compress(text.as_bytes(), ZSTD_LEVEL));
    proof {
        if zstd_encoded(encode_utf8(text@), ZSTD_LEVEL) is Some {
            packed_texts_are_read_back(r@, text@);
        }
    }
    r
}

/// Data, compressed, if it can be.
pub fn pack_bytes(data: &[u8]) -> (r: Option<Vec<u8>>)
    ensures
        match r {
            Some(p) => zstd_encoded(data@, ZSTD_LEVEL) == Some(p@) && zstd_decoded(p@) == Some(
                data@,
            ),
            None => zstd_encoded(data@, ZSTD_LEVEL) is None,
        },
{
    compress(data, ZSTD_LEVEL)
}

/// The data in a blob; none where the blob cannot be read.
pub fn unpack_bytes(blob: &[u8]) -> (r: Vec<u8>)
    ensures
        r@ == match zstd_decoded(blob@) {
            Some(d) => d,
            None => Seq::<u8>::empty(),
        },
{
    blob_of(decompress(blob))
}

/// The text that the bytes encode, if there are any and they encode one.
pub open spec fn text_from(data: Option<Seq<u8>>) -> Option<Seq<char>> {
    match data {
        Some(d) => if valid_utf8(d) {
            Some(decode_utf8(d))
        } else {
            None
        },
        None => None,
    }
}

/// The text that was decompressed, if there is one.
pub fn text_of(data: Option<Vec<u8>>) -> (r: Option<String>)
    ensures
        text_opt(r) == text_from(
            match data {
                Some(d) => Some(d@),
                None => None,
            },
        ),
{
    match data {
        Some(d) => text_of_bytes(d),
        None => None,
    }
}

/// The text in a blob, if it holds one.
pub open spec fn text_in(blob: Seq<u8>) -> Option<Seq<char>> {
    text_from(zstd_decoded(blob))
}

/// The text in a blob, if it holds one.
pub fn unpack_text(blob: &[u8]) -> (r: Option<String>)
    ensures
        text_opt(r) == text_in(blob@),
{
    text_of(decompress(blob))
}

/// The text in a blob, or an empty one.
pub fn unpack_text_or_empty(blob: &[u8]) -> (r: String)
    ensures
        r@ == match text_in(blob@) {
            Some(s) => s,
            None => Seq::<char>::empty(),
        },
{
    match unpack_text(blob) {
        Some(s) => s,
        None => String::new(),
    }
}

// Laws -------------------------------------------------------------------

/// What `pack_text` makes of a text is read back as the text, wherever the text
/// can be compressed. The blob and the text are tied by what `pack_text` ensures.
pub proof fn packed_texts_are_read_back(blob: Seq<u8>, text: Seq<char>)
    requires
        zstd_encoded(encode_utf8(text), 3) is Some,
        match zstd_encoded(encode_utf8(text), 3) {
            Some(p) => blob == p && packs(blob, text),
            None => blob.len() == 0,
        },
    ensures
        text_in(blob) == Some(text),
{
    vstd::utf8::encode_utf8_valid_utf8(text);
    vstd::utf8::encode_utf8_decode_utf8(text);
}

/// The name of a source is made of hexadecimal digits in lower case, two for
/// each byte of its checksum.
pub proof fn source_names_are_hexadecimal(data: Seq<u8>)
    ensures
        hex_text(data).len() == 2 * data.len(),
        forall|i: int|
            0 <= i < hex_text(data).len() ==> ('0' <= #[trigger] hex_text(data)[i] <= '9') || (
            'a' <= hex_text(data)[i] <= 'f'),
{
    assert forall|i: int| 0 <= i < hex_text(data).len() implies ('0' <= #[trigger] hex_text(
        data,
    )[i] <= '9') || ('a' <= hex_text(data)[i] <= 'f') by {
        let b = data[i / 2] as int;
        assert(0 <= b / 16 < 16);
        assert(0 <= b % 16 < 16);
    }
}

/// Different bytes have different hexadecimal forms, so that sources with
/// different checksums have different names.
pub proof fn different_checksums_have_different_names(a: Seq<u8>, b: Seq<u8>)
    requires
        hex_text(a) == hex_text(b),
    ensures
        a == b,
{
    assert(hex_text(a).len() == 2 * a.len());
    assert(hex_text(b).len() == 2 * b.len());
    assert(a.len() == b.len());
    assert forall|i: int| 0 <= i < a.len() implies a[i] == b[i] by {
        let x = a[i] as int;
        let y = b[i] as int;
        assert(hex_text(a)[2 * i] == hex_digit(x / 16)) by {
            assert((2 * i) % 2 == 0);
            assert((2 * i) / 2 == i);
        }
        assert(hex_text(b)[2 * i] == hex_digit(y / 16)) by {
            assert((2 * i) % 2 == 0);
            assert((2 * i) / 2 == i);
        }
        assert(hex_text(a)[2 * i + 1] == hex_digit(x % 16)) by {
            assert((2 * i + 1) % 2 == 1);
            assert((2 * i + 1) / 2 == i);
        }
        assert(hex_text(b)[2 * i + 1] == hex_digit(y % 16)) by {
            assert((2 * i + 1) % 2 == 1);
            assert((2 * i + 1) / 2 == i);
        }
        assert(x / 16 == y / 16);
        assert(x % 16 == y % 16);
    }
    assert(a =~= b);
}

/// Orphans are told of since the month that it was ninety days before now.
pub proof fn orphans_are_told_of_since_ninety_days_ago(now: i64, then: i64)
    requires
        then + 90 * 24 * 60 * 60 == now,
    ensures
        match utc_formatted(then, "%b %Y"@) {
            Some(s) => month_before(now) == s,
            None => month_before(now).len() == 0,
        },
{
}

} // verus!
