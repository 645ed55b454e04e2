//! Turning a chunk's columns into compressed blocks, and reading a
//! timestamp's text as milliseconds.
use vstd::prelude::*;

use crate::codec::{
    encode_ids, encode_timestamps, encode_vars, ids_bytes, nl_bytes, pack_newlines, string_views,
    ts_bytes, vars_bytes,
};
use crate::models::{CompressedChunk, RawChunk, StzError};
use crate::template::{free_of, lemma_split_join};
use crate::text::{
    chars_of, join_seq, occurs_at, replace_all, replace_exec, split_exec, split_seq, string_of,
};

verus! {

#[verifier::external_type_specification]
#[verifier::external_body]
pub struct ExIoError(std::io::Error);

#[verifier::external_type_specification]
#[verifier::external_body]
pub struct ExJsonError(serde_json::Error);

/// The frame `zstd::encode_all` produces for `data` at `level`.
pub uninterp spec fn zstd_frame(data: Seq<u8>, level: i32) -> Seq<u8>;

/// The bytes `zstd::decode_all` produces from `frame`; `None` where it fails.
pub uninterp spec fn zstd_content(frame: Seq<u8>) -> Option<Seq<u8>>;

/// The JSON text `serde_json::to_vec` produces for a list of strings.
pub uninterp spec fn json_of_strings(v: Seq<Seq<char>>) -> Seq<u8>;

/// The list of strings `serde_json::from_slice` reads from `b`; `None` where it fails.
pub uninterp spec fn strings_of_json(b: Seq<u8>) -> Option<Seq<Seq<char>>>;

/// The compression level of every block.
pub const ZSTD_LEVEL: i32 = 3;

/// Calls `zstd::encode_all` on the bytes. When it succeeds, its frame is
/// named `zstd_frame`, and decompressing the frame gives the bytes back
/// (zstd is lossless). At level 3 it succeeds: it reads from a slice and
/// writes into a `Vec`, neither of which fails, and level 3 with the empty
/// dictionary is a valid setting; what is left is an allocation failing
/// inside zstd, which this contract takes not to happen.
#[verifier::external_body]
pub(crate) fn zstd_encode(data: &[u8], level: i32) -> (r: Result<Vec<u8>, std::io::Error>)
    ensures
        level == 3 ==> r is Ok,
        r matches Ok(f) ==> f@ == zstd_frame(data@, level) && zstd_content(f@) == Some(data@),
{
    zstd::encode_all(data, level)
}

/// Calls `zstd::decode_all` on the bytes; its result is named `zstd_content`.
#[verifier::external_body]
pub(crate) fn zstd_decode(frame: &[u8]) -> (r: Result<Vec<u8>, std::io::Error>)
    ensures
        r matches Ok(v) ==> zstd_content(frame@) == Some(v@),
        r is Err <==> zstd_content(frame@) is None,
{
    zstd::decode_all(frame)
}

/// Calls `serde_json::to_vec` on a list of strings; its text is named
/// `json_of_strings`. It never fails for a list of strings (serde_json fails
/// only for a failing `Serialize` impl or a map with non-string keys), and
/// reading the text back gives the list.
#[verifier::external_body]
pub(crate) fn json_encode_strings(v: &Vec<String>) -> (r: Result<Vec<u8>, serde_json::Error>)
    ensures
        r is Ok,
        r matches Ok(b) ==> b@ == json_of_strings(string_views(v@)) && strings_of_json(b@)
            == Some(string_views(v@)),
{
    serde_json::to_vec(v)
}

/// Calls `serde_json::from_slice` for a list of strings; its result is named
/// `strings_of_json`.
#[verifier::external_body]
pub(crate) fn json_decode_strings(b: &[u8]) -> (r: Result<Vec<String>, serde_json::Error>)
    ensures
        r matches Ok(x) ==> strings_of_json(b@) == Some(string_views(x@)),
        r is Err <==> strings_of_json(b@) is None,
{
    serde_json::from_slice(b)
}

/// `c` holds the compressed form of `raw`'s columns.
pub open spec fn compressed_form(raw: RawChunk, c: CompressedChunk) -> bool {
    &&& c.chunk_id == raw.chunk_id
    &&& c.registry_blob@ == zstd_frame(json_of_strings(string_views(raw.registry_delta@)), ZSTD_LEVEL)
    &&& c.ts_blob@ == zstd_frame(ts_bytes(raw.ts_col@), ZSTD_LEVEL)
    &&& c.lvl_blob@ == zstd_frame(raw.lvl_col@, ZSTD_LEVEL)
    &&& c.id_blob@ == zstd_frame(ids_bytes(raw.id_col@), ZSTD_LEVEL)
    &&& c.var_blob@ == zstd_frame(vars_bytes(string_views(raw.var_col@)), ZSTD_LEVEL)
    &&& c.nl_blob@ == zstd_frame(nl_bytes(raw.nl_col@), ZSTD_LEVEL)
}

/// Each block of `c` decompresses to the encoding of `raw`'s column.
pub open spec fn blocks_decode_to(raw: RawChunk, c: CompressedChunk) -> bool {
    &&& strings_of_json(json_of_strings(string_views(raw.registry_delta@))) == Some(
        string_views(raw.registry_delta@),
    )
    &&& zstd_content(c.registry_blob@) == Some(json_of_strings(string_views(raw.registry_delta@)))
    &&& zstd_content(c.ts_blob@) == Some(ts_bytes(raw.ts_col@))
    &&& zstd_content(c.lvl_blob@) == Some(raw.lvl_col@)
    &&& zstd_content(c.id_blob@) == Some(ids_bytes(raw.id_col@))
    &&& zstd_content(c.var_blob@) == Some(vars_bytes(string_views(raw.var_col@)))
    &&& zstd_content(c.nl_blob@) == Some(nl_bytes(raw.nl_col@))
}

/// Compresses a chunk: the registry delta as JSON, timestamps as deltas,
/// levels as bytes, ids as 4 bytes each, variables length-prefixed and
/// newline flags bit-packed, each block compressed at level 3.
pub fn compress_chunk(raw: RawChunk) -> (r: Result<CompressedChunk, StzError>)
    ensures
        r is Ok,
        r matches Ok(c) ==> compressed_form(raw, c) && blocks_decode_to(raw, c),
{
    let registry_data = match json_encode_strings(&raw.registry_delta) {
        Ok(d) => d,
        Err(_) => {
            return Err(StzError::Compression);
        },
    };
    let registry_blob = match zstd_encode(registry_data.as_slice(), ZSTD_LEVEL) {
        Ok(b) => b,
        Err(_) => {
            return Err(StzError::Compression);
        },
    };
    let ts_bytes = encode_timestamps(raw.ts_col.as_slice());
    let ts_blob = match zstd_encode(ts_bytes.as_slice(), ZSTD_LEVEL) {
        Ok(b) => b,
        Err(_) => {
            return Err(StzError::Compression);
        },
    };
    let lvl_blob = match zstd_encode(raw.lvl_col.as_slice(), ZSTD_LEVEL) {
        Ok(b) => b,
        Err(_) => {
            return Err(StzError::Compression);
        },
    };
    let id_bytes = encode_ids(raw.id_col.as_slice());
    let id_blob = match zstd_encode(id_bytes.as_slice(), ZSTD_LEVEL) {
        Ok(b) => b,
        Err(_) => {
            return Err(StzError::Compression);
        },
    };
    let var_data = encode_vars(raw.var_col.as_slice());
    let var_blob = match zstd_encode(var_data.as_slice(), ZSTD_LEVEL) {
        Ok(b) => b,
        Err(_) => {
            return Err(StzError::Compression);
        },
    };
    let nl_data = pack_newlines(raw.nl_col.as_slice());
    let nl_blob = match zstd_encode(nl_data.as_slice(), ZSTD_LEVEL) {
        Ok(b) => b,
        Err(_) => {
            return Err(StzError::Compression);
        },
    };
    Ok(
        CompressedChunk {
            chunk_id: raw.chunk_id,
            registry_blob,
            ts_blob,
            lvl_blob,
            id_blob,
            var_blob,
            nl_blob,
        },
    )
}

// ---------------------------------------------------------------------------
// Timestamp text to milliseconds.

/// What `NaiveDateTime::parse_from_str(text, fmt)` followed by
/// `.and_utc().timestamp_millis()` gives; `None` where parsing fails.
pub uninterp spec fn parsed_millis(text: Seq<char>, fmt: Seq<char>) -> Option<i64>;

/// Calls `chrono::NaiveDateTime::parse_from_str` and reads the parsed time
/// as milliseconds since the epoch (UTC); the result is named `parsed_millis`.
#[verifier::external_body]
fn naive_millis(text: &str, fmt: &str) -> (r: Option<i64>)
    ensures
        r == parsed_millis(text@, fmt@),
{
    match chrono::NaiveDateTime::parse_from_str(text, fmt) {
        Ok(dt) => Some(dt.and_utc().timestamp_millis()),
        Err(_) => None,
    }
}

/// The format of a timestamp with fractional seconds.
pub open spec fn fmt_with_fraction() -> Seq<char> {
    seq!['%', 'Y', '-', '%', 'm', '-', '%', 'd', ' ', '%', 'H', ':', '%', 'M', ':', '%', 'S', '.', '%', 'f']
}

/// The format of a timestamp in whole seconds.
pub open spec fn fmt_whole_seconds() -> Seq<char> {
    seq!['%', 'Y', '-', '%', 'm', '-', '%', 'd', ' ', '%', 'H', ':', '%', 'M', ':', '%', 'S']
}

/// `n` zeros.
pub open spec fn zeros(n: nat) -> Seq<char> {
    Seq::new(n, |i: int| '0')
}

/// A timestamp's text made ready for parsing: commas become dots, and a
/// fraction after the single dot shorter than 9 bytes is padded with zeros
/// to 9 characters.
pub open spec fn parsable_timestamp(raw: Seq<char>) -> Seq<char> {
    let normalized = replace_all(raw, seq![','], seq!['.']);
    let parts = split_seq(normalized, seq!['.']);
    if parts.len() == 2 && vstd::utf8::encode_utf8(parts[1]).len() < 9 {
        parts[0] + seq!['.'] + parts[1] + zeros((9 - parts[1].len()) as nat)
    } else {
        normalized
    }
}

/// Milliseconds since the epoch for a timestamp's text: with fractional
/// seconds, else in whole seconds, else 0; a time before the epoch is taken
/// modulo 2^64.
pub open spec fn timestamp_millis(raw: Seq<char>) -> u64 {
    let p = parsable_timestamp(raw);
    match parsed_millis(p, fmt_with_fraction()) {
        Some(ms) => ms as u64,
        None => match parsed_millis(p, fmt_whole_seconds()) {
            Some(ms) => ms as u64,
            None => 0,
        },
    }
}

/// A character that is neither a comma nor a dot.
pub open spec fn plain_char(c: char) -> bool {
    c != ',' && c != '.'
}

/// `s` holds no character `c`, so the one-character pattern `[c]` occurs nowhere in it.
proof fn lemma_free_of_char(s: Seq<char>, c: char)
    requires
        forall|i: int| 0 <= i < s.len() ==> s[i] != c,
    ensures
        free_of(s, seq![c]),
{
    assert forall|j: int| !#[trigger] occurs_at(s, seq![c], j) by {
        if occurs_at(s, seq![c], j) {
            assert(s.subrange(j, j + 1)[0] == s[j]);
        }
    }
}

/// A timestamp's date-and-seconds part `d` and an ASCII fraction `f` of at
/// most eight characters, with neither holding a comma or a dot: whether
/// separated by a comma or by a dot, the text is read as `d`, a dot, then the
/// fraction's characters unchanged and in order, padded on the right with
/// zeros to nine digits.
pub proof fn law_parsable_timestamp_pads_fraction(d: Seq<char>, f: Seq<char>)
    requires
        forall|i: int| 0 <= i < d.len() ==> plain_char(#[trigger] d[i]),
        forall|i: int| 0 <= i < f.len() ==> plain_char(#[trigger] f[i]),
        vstd::utf8::is_ascii_chars(f),
        f.len() < 9,
    ensures
        parsable_timestamp(d + seq![','] + f) == d + seq!['.'] + f + zeros((9 - f.len()) as nat),
        parsable_timestamp(d + seq!['.'] + f) == d + seq!['.'] + f + zeros((9 - f.len()) as nat),
{
    let parts = seq![d, f];
    assert forall|i: int| 0 <= i < d.len() implies d[i] != ',' && d[i] != '.' by {
        assert(plain_char(d[i]));
    }
    assert forall|i: int| 0 <= i < f.len() implies f[i] != ',' && f[i] != '.' by {
        assert(plain_char(f[i]));
    }
    lemma_free_of_char(d, ',');
    lemma_free_of_char(d, '.');
    lemma_free_of_char(f, ',');
    lemma_free_of_char(f, '.');
    vstd::utf8::is_ascii_chars_encode_utf8(f);
    assert(parts.drop_last() =~= seq![d]);
    assert(parts.last() == f);
    assert(join_seq(seq![d], seq![',']) == d);
    assert(join_seq(seq![d], seq!['.']) == d);
    assert(join_seq(parts, seq![',']) == d + seq![','] + f);
    assert(join_seq(parts, seq!['.']) == d + seq!['.'] + f);
    lemma_split_join(parts, seq![',']);
    lemma_split_join(parts, seq!['.']);
    assert(replace_all(d + seq![','] + f, seq![','], seq!['.']) == d + seq!['.'] + f);
    assert(replace_all(d + seq!['.'] + f, seq![','], seq!['.']) == d + seq!['.'] + f) by {
        let t = d + seq!['.'] + f;
        assert(split_seq(t, seq![',']) == seq![t]) by {
            assert forall|i: int| 0 <= i < t.len() implies t[i] != ',' by {
                if i < d.len() {
                    assert(t[i] == d[i]);
                } else if i > d.len() {
                    assert(t[i] == f[i - d.len() - 1]);
                }
            }
            lemma_free_of_char(t, ',');
            crate::template::lemma_no_occurrence_split(t, seq![',']);
        }
        assert(join_seq(seq![t], seq!['.']) == t);
    }
}

/// A character takes at least one byte in UTF-8.
proof fn lemma_utf8_len(s: Seq<char>)
    ensures
        vstd::utf8::encode_utf8(s).len() >= s.len(),
    decreases s.len(),
{
    if s.len() > 0 {
        lemma_utf8_len(s.drop_first());
    }
}

/// Milliseconds since the epoch for a timestamp's text, 0 when it is not a
/// `%Y-%m-%d %H:%M:%S` time (with or without a fraction after `.` or `,`).
pub fn parse_timestamp_millis(raw_ts: &str) -> (ms: u64)
    ensures
        ms == timestamp_millis(raw_ts@),
{
    let raw = chars_of(raw_ts);
    let comma = [','];
    let dot = ['.'];
    assert(comma@ == seq![',']);
    assert(dot@ == seq!['.']);
    let normalized = replace_exec(raw.as_slice(), &comma, &dot);
    let parts = split_exec(normalized.as_slice(), &dot);
    let parsable = if parts.len() == 2 {
        let frac = &parts[1];
        let frac_text = string_of(frac.as_slice());
        assert(parts@[1]@ == frac@);
        if frac_text.as_str().as_bytes().len() < 9 {
            proof {
                lemma_utf8_len(frac@);
            }
            let mut p: Vec<char> = Vec::new();
            crate::text::append_chars(&mut p, parts[0].as_slice());
            p.push('.');
            crate::text::append_chars(&mut p, frac.as_slice());
            let missing = 9 - frac.len();
            let mut k: usize = 0;
            while k < missing
                invariant
                    k <= missing,
                    p@ == parts@[0]@ + seq!['.'] + frac@ + zeros(k as nat),
                decreases missing - k,
            {
                p.push('0');
                assert(zeros((k + 1) as nat) =~= zeros(k as nat).push('0'));
                k = k + 1;
            }
            p
        } else {
            normalized
        }
    } else {
        normalized
    };
    let text = string_of(parsable.as_slice());
    let f1 = string_of(
        &['%', 'Y', '-', '%', 'm', '-', '%', 'd', ' ', '%', 'H', ':', '%', 'M', ':', '%', 'S', '.', '%', 'f'],
    );
    match naive_millis(text.as_str(), f1.as_str()) {
        Some(ms) => ms as u64,
        None => {
            let f2 = string_of(
                &['%', 'Y', '-', '%', 'm', '-', '%', 'd', ' ', '%', 'H', ':', '%', 'M', ':', '%', 'S'],
            );
            match naive_millis(text.as_str(), f2.as_str()) {
                Some(ms) => ms as u64,
                None => 0,
            }
        },
    }
}

} // verus!
