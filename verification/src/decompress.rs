//! Turning a chunk's compressed blocks back into log text.
use vstd::prelude::*;

use vstd::utf8::{encode_utf8, is_continuation_byte};

use crate::codec::{
    decode_ids, decode_timestamps, decode_vars, ids_decode, law_ids_roundtrip,
    law_newlines_roundtrip, law_timestamps_roundtrip, law_vars_roundtrip, nl_bytes, nl_decode,
    string_views, ts_decode, unpack_newlines, vars_decode,
};
use crate::compress::{
    blocks_decode_to, json_decode_strings, strings_of_json, zstd_content, zstd_decode,
};
use crate::container::{
    block_at, blocks_at, chunk_blocks, framed, framed_len, law_framed_chunk_reads_back,
    lemma_blocks_advance, lemma_blocks_at_shift, read_block,
};
use crate::models::{CompressedChunk, RawChunk};
use crate::level::{level_label, level_of_code, level_of_label, LogLevel};
use crate::models::StzError;
use crate::template::{
    escape_tabs, extraction, fill, fill_exec, free_of, law_fill_stored, law_variable_count_stored,
    law_tab_escape_roundtrip, lemma_no_occurrence_split, literal_parts, stored_template, tab_mark,
    tab_stem, var_mark, variables_of,
};
use crate::text::{count_matches, occurs_at, starts_with};
use crate::text::{
    append_chars, chars_of, replace_all, replace_exec, split_exec, string_of,
};

verus! {

// ---------------------------------------------------------------------------
// Byte escapes: a byte that was not valid UTF-8 in the input is carried as
// the text `__BYTE_XX__`, XX its value in hex, and written back as the byte.

/// `b` is a hexadecimal digit (either case).
pub open spec fn is_hex_digit(b: u8) -> bool {
    (48 <= b <= 57) || (65 <= b <= 70) || (97 <= b <= 102)
}

/// The value of a hexadecimal digit.
pub open spec fn hex_value(b: u8) -> u8 {
    if 48 <= b <= 57 {
        (b - 48) as u8
    } else if 65 <= b <= 70 {
        (b - 55) as u8
    } else {
        (b - 87) as u8
    }
}

/// What `u8::from_str_radix(text, 16)` gives for a two-byte text: two hex
/// digits, or `+` and one hex digit.
pub open spec fn radix16_pair(b0: u8, b1: u8) -> Option<u8> {
    if b0 == 43 {
        if is_hex_digit(b1) {
            Some(hex_value(b1))
        } else {
            None
        }
    } else if is_hex_digit(b0) && is_hex_digit(b1) {
        Some((16 * hex_value(b0) + hex_value(b1)) as u8)
    } else {
        None
    }
}

/// The bytes of `__BYTE_`.
pub open spec fn escape_prefix() -> Seq<u8> {
    seq![95u8, 95, 66, 89, 84, 69, 95]
}

/// Index `i` of the UTF-8 text `b` is the start of a character or its end
/// (as `str::is_char_boundary`).
pub open spec fn char_boundary(b: Seq<u8>, i: int) -> bool {
    i == b.len() || (0 <= i < b.len() && !is_continuation_byte(b[i]))
}

/// An escape starts at index `p` of `b`: its prefix and room for the rest.
pub open spec fn escape_candidate(b: Seq<u8>, p: int) -> bool {
    &&& 0 <= p
    &&& p + 11 <= b.len()
    &&& b.subrange(p, p + 7) == escape_prefix()
}

/// The bytes that writing the text `b` with its escapes decoded produces,
/// scanning from `p` with the text from `last` not yet written; `None`
/// where an escape's end is cut through a character (the slice would panic).
pub open spec fn unescape_from(b: Seq<u8>, p: int, last: int) -> Option<Seq<u8>>
    decreases b.len() - p,
{
    if p < 0 || last < 0 || last > p || p >= b.len() {
        Some(b.subrange(last, b.len() as int))
    } else if escape_candidate(b, p) {
        if !char_boundary(b, p + 9) || !char_boundary(b, p + 11) {
            None
        } else if b[p + 9] == 95 && b[p + 10] == 95 && radix16_pair(b[p + 7], b[p + 8]) is Some {
            match unescape_from(b, p + 11, p + 11) {
                Some(rest) => Some(b.subrange(last, p) + seq![
                    radix16_pair(b[p + 7], b[p + 8])->Some_0,
                ] + rest),
                None => None,
            }
        } else {
            unescape_from(b, p + 1, last)
        }
    } else {
        unescape_from(b, p + 1, last)
    }
}

/// The bytes of a line with its escapes decoded.
pub open spec fn unescape(b: Seq<u8>) -> Option<Seq<u8>> {
    unescape_from(b, 0, 0)
}

fn is_hex_digit_exec(b: u8) -> (r: bool)
    ensures
        r == is_hex_digit(b),
{
    (48 <= b && b <= 57) || (65 <= b && b <= 70) || (97 <= b && b <= 102)
}

fn hex_value_exec(b: u8) -> (r: u8)
    requires
        is_hex_digit(b),
    ensures
        r == hex_value(b),
{
    if 48 <= b && b <= 57 {
        b - 48
    } else if 65 <= b && b <= 70 {
        b - 55
    } else {
        b - 87
    }
}

fn radix16_pair_exec(b0: u8, b1: u8) -> (r: Option<u8>)
    ensures
        r == radix16_pair(b0, b1),
{
    if b0 == 43 {
        if is_hex_digit_exec(b1) {
            Some(hex_value_exec(b1))
        } else {
            None
        }
    } else if is_hex_digit_exec(b0) && is_hex_digit_exec(b1) {
        let h = hex_value_exec(b0);
        let l = hex_value_exec(b1);
        Some(16 * h + l)
    } else {
        None
    }
}

fn char_boundary_exec(b: &[u8], i: usize) -> (r: bool)
    ensures
        r == char_boundary(b@, i as int),
{
    if i == b.len() {
        true
    } else if i < b.len() {
        !(0x80 <= b[i] && b[i] <= 0xbf)
    } else {
        false
    }
}

fn escape_candidate_exec(b: &[u8], p: usize) -> (r: bool)
    ensures
        r == escape_candidate(b@, p as int),
{
    if p > b.len() || b.len() - p < 11 {
        return false;
    }
    let r = b[p] == 95 && b[p + 1] == 95 && b[p + 2] == 66 && b[p + 3] == 89 && b[p + 4] == 84
        && b[p + 5] == 69 && b[p + 6] == 95;
    proof {
        if r {
            assert(b@.subrange(p as int, p + 7) =~= escape_prefix());
        } else {
            if b@.subrange(p as int, p + 7) == escape_prefix() {
                assert(b@.subrange(p as int, p + 7)[0] == b@[p as int]);
                assert(b@.subrange(p as int, p + 7)[1] == b@[p + 1]);
                assert(b@.subrange(p as int, p + 7)[2] == b@[p + 2]);
                assert(b@.subrange(p as int, p + 7)[3] == b@[p + 3]);
                assert(b@.subrange(p as int, p + 7)[4] == b@[p + 4]);
                assert(b@.subrange(p as int, p + 7)[5] == b@[p + 5]);
                assert(b@.subrange(p as int, p + 7)[6] == b@[p + 6]);
            }
        }
    }
    r
}

/// The result of writing the text with its escapes decoded, or `None` when
/// an escape's end falls inside a multi-byte character.
pub open spec fn prefixed_opt(out: Seq<u8>, r: Option<Seq<u8>>) -> Option<Seq<u8>> {
    match r {
        Some(x) => Some(out + x),
        None => None,
    }
}

/// Decompression of `.stz` streams.
pub struct LogDecompressor;

impl LogDecompressor {
    /// The bytes of `s` with each escape `__BYTE_XX__` written as the byte it
    /// names; `None` where the text would have to be sliced inside a character.
    pub fn write_decoded(s: &str) -> (r: Option<Vec<u8>>)
        ensures
            match r {
                Some(v) => unescape(encode_utf8(s@)) == Some(v@),
                None => unescape(encode_utf8(s@)) is None,
            },
    {
        let b = s.as_bytes();
        let ghost bs = b@;
        assert(bs == encode_utf8(s@));
        let mut out: Vec<u8> = Vec::new();
        let mut p: usize = 0;
        let mut last: usize = 0;
        while p < b.len()
            invariant
                bs == b@,
                bs == encode_utf8(s@),
                last <= p <= b@.len(),
                prefixed_opt(out@, unescape_from(bs, p as int, last as int)) == unescape(bs),
            decreases b@.len() - p,
        {
            if escape_candidate_exec(b, p) {
                if !char_boundary_exec(b, p + 9) || !char_boundary_exec(b, p + 11) {
                    assert(unescape_from(bs, p as int, last as int) is None);
                    assert(unescape(bs) is None);
                    return None;
                }
                if b[p + 9] == 95 && b[p + 10] == 95 {
                    match radix16_pair_exec(b[p + 7], b[p + 8]) {
                        Some(byte) => {
                            let ghost before = out@;
                            let mut k = last;
                            while k < p
                                invariant
                                    last <= k <= p < b@.len(),
                                    out@ == before + b@.subrange(last as int, k as int),
                                decreases p - k,
                            {
                                out.push(b[k]);
                                assert(b@.subrange(last as int, k + 1) =~= b@.subrange(
                                    last as int,
                                    k as int,
                                ).push(b@[k as int]));
                                k = k + 1;
                            }
                            out.push(byte);
                            proof {
                                let rest = unescape_from(bs, p + 11, p + 11);
                                assert(out@ == before + b@.subrange(last as int, p as int) + seq![byte]);
                                match rest {
                                    Some(x) => {
                                        assert(before + (b@.subrange(last as int, p as int) + seq![byte]
                                            + x) == out@ + x);
                                    },
                                    None => {},
                                }
                            }
                            p = p + 11;
                            last = p;
                            continue ;
                        },
                        None => {},
                    }
                }
            }
            p = p + 1;
        }
        let ghost before = out@;
        let mut k = last;
        while k < b.len()
            invariant
                last <= k <= b@.len(),
                out@ == before + b@.subrange(last as int, k as int),
            decreases b@.len() - k,
        {
            out.push(b[k]);
            assert(b@.subrange(last as int, k + 1) =~= b@.subrange(last as int, k as int).push(
                b@[k as int],
            ));
            k = k + 1;
        }
        Some(out)
    }
}

// ---------------------------------------------------------------------------
// Timestamps back to text.

/// What `DateTime::from_timestamp(secs, nsecs)` formatted with `fmt` gives;
/// `None` where the time is out of chrono's range.
pub uninterp spec fn utc_text(secs: i64, nsecs: u32, fmt: Seq<char>) -> Option<Seq<char>>;

/// The format lines' timestamps are written in.
pub open spec fn line_ts_format() -> Seq<char> {
    seq!['%', 'Y', '-', '%', 'm', '-', '%', 'd', ' ', '%', 'H', ':', '%', 'M', ':', '%', 'S', ',', '%', '3', 'f']
}

/// Calls `chrono::DateTime::from_timestamp` and formats the time with
/// `format(fmt).to_string()`; the text is named `utc_text`. The epoch
/// (0 s, 0 ns) is in range.
#[verifier::external_body]
fn format_utc(secs: i64, nsecs: u32, fmt: &str) -> (r: Option<String>)
    requires
        fmt@ == line_ts_format(),
    ensures
        r matches Some(t) ==> utc_text(secs, nsecs, fmt@) == Some(t@),
        r is None <==> utc_text(secs, nsecs, fmt@) is None,
        secs == 0 && nsecs == 0 ==> r is Some,
{
    match chrono::DateTime::from_timestamp(secs, nsecs) {
        Some(dt) => Some(dt.format(fmt).to_string()),
        None => None,
    }
}

/// The text a timestamp in milliseconds is written as: UTC, with
/// milliseconds after a comma; the epoch when it is out of range.
pub open spec fn timestamp_text(ms: u64) -> Seq<char> {
    let secs = (ms / 1000) as i64;
    let nsecs = ((ms % 1000) * 1000000) as u32;
    match utc_text(secs, nsecs, line_ts_format()) {
        Some(t) => t,
        None => match utc_text(0, 0, line_ts_format()) {
            Some(t) => t,
            None => Seq::empty(),
        },
    }
}

/// A stored timestamp is written as chrono formats the instant it names:
/// whole seconds `ms / 1000` since the epoch and `ms % 1000` milliseconds,
/// in `%Y-%m-%d %H:%M:%S,%3f`, whenever that instant is in chrono's range.
pub proof fn law_timestamp_text_is_instant(ms: u64)
    ensures
        utc_text((ms / 1000) as i64, ((ms % 1000) * 1000000) as u32, line_ts_format()) matches Some(
            t,
        ) ==> timestamp_text(ms) == t,
{
}

/// The text a timestamp in milliseconds is written as.
pub fn format_timestamp(ms: u64) -> (t: String)
    ensures
        t@ == timestamp_text(ms),
{
    let fmt = string_of(
        &['%', 'Y', '-', '%', 'm', '-', '%', 'd', ' ', '%', 'H', ':', '%', 'M', ':', '%', 'S', ',', '%', '3', 'f'],
    );
    let secs = (ms / 1000) as i64;
    let nsecs = ((ms % 1000) * 1000000) as u32;
    match format_utc(secs, nsecs, fmt.as_str()) {
        Some(t) => t,
        None => match format_utc(0, 0, fmt.as_str()) {
            Some(t) => t,
            None => String::new(),
        },
    }
}

// ---------------------------------------------------------------------------
// Lines back from their template, variables, timestamp and level.

/// A line's text: the template filled with its variables, the continuation
/// appended, `__TAB__` written back as a tab; then, but for raw lines, the
/// timestamp and level (no level for an unknown one) in front.
pub open spec fn line_text(
    template: Seq<char>,
    vars: Seq<Seq<char>>,
    cont: Seq<char>,
    ts: Seq<char>,
    lvl: LogLevel,
) -> Seq<char> {
    let body = replace_all(fill(template, var_mark(), vars) + cont, tab_mark(), seq!['\t']);
    if lvl == LogLevel::RAW {
        replace_all(body, tab_mark(), seq!['\t'])
    } else if lvl == LogLevel::UNKNOWN {
        ts + seq![' '] + body
    } else {
        ts + seq![' '] + level_label(lvl) + seq![' '] + body
    }
}

/// A line with a level other than RAW and UNKNOWN is written with its
/// level's name: its timestamp text, a space, the level's name, a space,
/// then its body (the template filled, the continuation appended, `__TAB__`
/// written as a tab); an UNKNOWN line has no name and a RAW line is its
/// body alone.
pub proof fn law_line_text_names_level(
    template: Seq<char>,
    vars: Seq<Seq<char>>,
    cont: Seq<char>,
    ts: Seq<char>,
    lvl: LogLevel,
)
    ensures
        ({
            let body = replace_all(fill(template, var_mark(), vars) + cont, tab_mark(), seq!['\t']);
            &&& lvl != LogLevel::RAW && lvl != LogLevel::UNKNOWN ==> line_text(
                template,
                vars,
                cont,
                ts,
                lvl,
            ) == ts + seq![' '] + level_label(lvl) + seq![' '] + body
            &&& lvl != LogLevel::RAW && lvl != LogLevel::UNKNOWN ==> level_of_label(
                line_text(template, vars, cont, ts, lvl).subrange(
                    ts.len() + 1int,
                    ts.len() + 1int + level_label(lvl).len(),
                ),
            ) == lvl
            &&& lvl == LogLevel::UNKNOWN ==> line_text(template, vars, cont, ts, lvl) == ts + seq![
                ' ',
            ] + body
            &&& lvl == LogLevel::RAW ==> line_text(template, vars, cont, ts, lvl) == replace_all(
                body,
                tab_mark(),
                seq!['\t'],
            )
        }),
{
    crate::level::law_label_roundtrip(lvl);
    if lvl != LogLevel::RAW && lvl != LogLevel::UNKNOWN {
        let body = replace_all(fill(template, var_mark(), vars) + cont, tab_mark(), seq!['\t']);
        let t = ts + seq![' '] + level_label(lvl) + seq![' '] + body;
        assert(t.subrange(ts.len() + 1int, ts.len() + 1int + level_label(lvl).len()) =~= level_label(lvl));
    }
}

/// Variable `v` continues a line (it starts with a carriage return or a
/// line feed).
pub open spec fn is_continuation(vars: Seq<Seq<char>>, v: int) -> bool {
    0 <= v < vars.len() && vars[v].len() > 0 && (vars[v][0] == '\r' || vars[v][0] == '\n')
}

/// The bytes of line `i` (its template known), the variables from `v` on
/// not yet used, and the index of the first variable after it; an error
/// when it needs a missing timestamp or its escapes are cut.
pub open spec fn line_step(
    store: Seq<Seq<char>>,
    ts: Seq<u64>,
    lvl: Seq<u8>,
    ids: Seq<u32>,
    vars: Seq<Seq<char>>,
    nl: Seq<bool>,
    i: int,
    v: int,
) -> Result<(Seq<u8>, int), StzError> {
    let template = store[ids[i] as int];
    let k = split_seq_len(template) - 1;
    let taken = if k <= vars.len() - v {
        k
    } else {
        vars.len() - v
    };
    let v1 = v + taken;
    let cur = vars.subrange(v, v1);
    let cont = if is_continuation(vars, v1) {
        vars[v1]
    } else {
        Seq::empty()
    };
    let v2 = if is_continuation(vars, v1) {
        v1 + 1
    } else {
        v1
    };
    if i >= ts.len() {
        Err(StzError::MissingTimestamp)
    } else {
        let code = if i < lvl.len() {
            lvl[i]
        } else {
            0u8
        };
        let text = line_text(template, cur, cont, timestamp_text(ts[i]), level_of_code(code));
        match unescape(encode_utf8(text)) {
            None => Err(StzError::SplitEscape),
            Some(bytes) => Ok(
                (
                    bytes + (if i < nl.len() && !nl[i] {
                        Seq::<u8>::empty()
                    } else {
                        seq![10u8]
                    }),
                    v2,
                ),
            ),
        }
    }
}

/// The output of the lines from `i` on, the variables from `v` on not yet
/// used. A line whose template id is unknown is skipped; a line that needs
/// a missing timestamp, or whose escapes are cut, stops the output.
pub open spec fn render_from(
    store: Seq<Seq<char>>,
    ts: Seq<u64>,
    lvl: Seq<u8>,
    ids: Seq<u32>,
    vars: Seq<Seq<char>>,
    nl: Seq<bool>,
    i: int,
    v: int,
) -> Result<Seq<u8>, StzError>
    decreases ids.len() - i,
{
    if i < 0 || i >= ids.len() || v < 0 || v > vars.len() {
        Ok(Seq::empty())
    } else if ids[i] as int >= store.len() {
        render_from(store, ts, lvl, ids, vars, nl, i + 1, v)
    } else {
        match line_step(store, ts, lvl, ids, vars, nl, i, v) {
            Err(e) => Err(e),
            Ok((line, v2)) => match render_from(store, ts, lvl, ids, vars, nl, i + 1, v2) {
                Ok(rest) => Ok(line + rest),
                Err(e) => Err(e),
            },
        }
    }
}

/// How many pieces a template splits into at its placeholders.
pub open spec fn split_seq_len(template: Seq<char>) -> int {
    crate::text::split_seq(template, var_mark()).len() as int
}

/// `r` with `out` in front of its output.
pub open spec fn prefixed(out: Seq<u8>, r: Result<Seq<u8>, StzError>) -> Result<
    Seq<u8>,
    StzError,
> {
    match r {
        Ok(x) => Ok(out + x),
        Err(e) => Err(e),
    }
}

/// The output of a chunk's lines.
pub open spec fn rendered(
    store: Seq<Seq<char>>,
    ts: Seq<u64>,
    lvl: Seq<u8>,
    ids: Seq<u32>,
    vars: Seq<Seq<char>>,
    nl: Seq<bool>,
) -> Result<Seq<u8>, StzError> {
    render_from(store, ts, lvl, ids, vars, nl, 0, 0)
}

/// A line's text from its template, variables, continuation, timestamp
/// text and level.
fn line_text_exec(
    template: &[char],
    cur: &Vec<Vec<char>>,
    cont: &[char],
    ts_text: &[char],
    level: LogLevel,
) -> (text: Vec<char>)
    ensures
        text@ == line_text(
            template@,
            cur@.map_values(|c: Vec<char>| c@),
            cont@,
            ts_text@,
            level,
        ),
{
    let var_mark_chars = ['<', 'V', 'A', 'R', '>'];
    let tab_chars = ['_', '_', 'T', 'A', 'B', '_', '_'];
    let tab = ['\t'];
    assert(var_mark_chars@ == var_mark());
    assert(tab_chars@ == tab_mark());
    assert(tab@ == seq!['\t']);
    let parts = split_exec(template, &var_mark_chars);
    let mut body = fill_exec(&parts, cur);
    append_chars(&mut body, cont);
    let body = replace_exec(body.as_slice(), &tab_chars, &tab);
    let mut text: Vec<char> = Vec::new();
    match level {
        LogLevel::RAW => {
            text = replace_exec(body.as_slice(), &tab_chars, &tab);
        },
        LogLevel::UNKNOWN => {
            append_chars(&mut text, ts_text);
            text.push(' ');
            append_chars(&mut text, body.as_slice());
            assert(text@ =~= ts_text@ + seq![' '] + body@);
        },
        _ => {
            append_chars(&mut text, ts_text);
            text.push(' ');
            let label = chars_of(level.label().as_str());
            append_chars(&mut text, label.as_slice());
            text.push(' ');
            append_chars(&mut text, body.as_slice());
            assert(text@ =~= ts_text@ + seq![' '] + level_label(level) + seq![' '] + body@);
        },
    }
    text
}

/// The bytes of line `i` (its template known) and the index of the first
/// variable after it.
fn render_line(
    store: &Vec<String>,
    ts: &Vec<u64>,
    lvl: &Vec<u8>,
    ids: &Vec<u32>,
    vars: &Vec<String>,
    nl: &Vec<bool>,
    i: usize,
    v: usize,
) -> (r: Result<(Vec<u8>, usize), StzError>)
    requires
        i < ids@.len(),
        (ids@[i as int] as int) < store@.len(),
        v <= vars@.len(),
    ensures
        match r {
            Ok((b, v2)) => line_step(
                string_views(store@),
                ts@,
                lvl@,
                ids@,
                string_views(vars@),
                nl@,
                i as int,
                v as int,
            ) == Ok::<(Seq<u8>, int), StzError>((b@, v2 as int)) && v2 <= vars@.len(),
            Err(e) => line_step(
                string_views(store@),
                ts@,
                lvl@,
                ids@,
                string_views(vars@),
                nl@,
                i as int,
                v as int,
            ) == Err::<(Seq<u8>, int), StzError>(e),
        },
{
    let ghost sv = string_views(store@);
    let ghost vv = string_views(vars@);
    let id = ids[i] as usize;
    let template = chars_of(store[id].as_str());
    assert(template@ == sv[id as int]);
    let var_mark_chars = ['<', 'V', 'A', 'R', '>'];
    assert(var_mark_chars@ == var_mark());
    let parts = split_exec(template.as_slice(), &var_mark_chars);
    assert(parts@.len() == parts@.map_values(|p: Vec<char>| p@).len());
    assert(parts@.len() as int == split_seq_len(sv[id as int]));
    let k = parts.len() - 1;
    let remaining = vars.len() - v;
    let taken = if k <= remaining {
        k
    } else {
        remaining
    };
    let mut cur: Vec<Vec<char>> = Vec::new();
    let mut t: usize = 0;
    while t < taken
        invariant
            t <= taken,
            v + taken <= vars.len(),
            vv == string_views(vars@),
            cur@.map_values(|c: Vec<char>| c@) == vv.subrange(v as int, v + t),
        decreases taken - t,
    {
        let c = chars_of(vars[v + t].as_str());
        let ghost before = cur@.map_values(|c: Vec<char>| c@);
        cur.push(c);
        assert(cur@.map_values(|c: Vec<char>| c@) == before.push(c@));
        assert(vv.subrange(v as int, v + t + 1) == vv.subrange(v as int, v + t).push(
            vv[v + t],
        ));
        t = t + 1;
    }
    let v1 = v + taken;
    let mut cont: Vec<char> = Vec::new();
    let mut next_idx = v1;
    if v1 < vars.len() {
        let c = chars_of(vars[v1].as_str());
        assert(c@ == vv[v1 as int]);
        if c.len() > 0 && (c[0] == '\r' || c[0] == '\n') {
            cont = c;
            next_idx = v1 + 1;
        }
    }
    assert(cont@ == (if is_continuation(vv, v1 as int) {
        vv[v1 as int]
    } else {
        Seq::<char>::empty()
    }));
    if i >= ts.len() {
        return Err(StzError::MissingTimestamp);
    }
    let ts_text = chars_of(format_timestamp(ts[i]).as_str());
    let code = if i < lvl.len() {
        lvl[i]
    } else {
        0u8
    };
    let level = LogLevel::from_u8(code);
    let text = line_text_exec(template.as_slice(), &cur, cont.as_slice(), ts_text.as_slice(), level);
    assert(text@ == line_text(
        sv[id as int],
        vv.subrange(v as int, v1 as int),
        (if is_continuation(vv, v1 as int) {
            vv[v1 as int]
        } else {
            Seq::<char>::empty()
        }),
        timestamp_text(ts@[i as int]),
        level_of_code(code),
    ));
    let line_string = string_of(text.as_slice());
    match LogDecompressor::write_decoded(line_string.as_str()) {
        None => Err(StzError::SplitEscape),
        Some(bytes) => {
            let mut out = bytes;
            if i < nl.len() && !nl[i] {
                assert(out@ =~= bytes@ + Seq::<u8>::empty());
            } else {
                out.push(10u8);
                assert(out@ =~= bytes@ + seq![10u8]);
            }
            Ok((out, next_idx))
        },
    }
}

/// Writes a chunk's lines: each line is rebuilt from its template and
/// variables, given its timestamp and level, has its byte escapes decoded,
/// and ends with a newline unless its flag says otherwise.
pub fn render_lines(
    store: &Vec<String>,
    ts: &Vec<u64>,
    lvl: &Vec<u8>,
    ids: &Vec<u32>,
    vars: &Vec<String>,
    nl: &Vec<bool>,
) -> (r: Result<Vec<u8>, StzError>)
    ensures
        match r {
            Ok(out) => rendered(
                string_views(store@),
                ts@,
                lvl@,
                ids@,
                string_views(vars@),
                nl@,
            ) == Ok::<Seq<u8>, StzError>(out@),
            Err(e) => rendered(
                string_views(store@),
                ts@,
                lvl@,
                ids@,
                string_views(vars@),
                nl@,
            ) == Err::<Seq<u8>, StzError>(e),
        },
{
    let ghost sv = string_views(store@);
    let ghost vv = string_views(vars@);
    let ghost total = rendered(sv, ts@, lvl@, ids@, vv, nl@);
    let mut out: Vec<u8> = Vec::new();
    let mut var_idx: usize = 0;
    let n = ids.len();
    for i in 0..n
        invariant
            n == ids@.len(),
            sv == string_views(store@),
            vv == string_views(vars@),
            total == rendered(sv, ts@, lvl@, ids@, vv, nl@),
            var_idx <= vars@.len(),
            prefixed(out@, render_from(sv, ts@, lvl@, ids@, vv, nl@, i as int, var_idx as int))
                == total,
    {
        let id = ids[i] as usize;
        if id < store.len() {
            match render_line(store, ts, lvl, ids, vars, nl, i, var_idx) {
                Err(e) => {
                    return Err(e);
                },
                Ok((line, next_idx)) => {
                    let ghost before = out@;
                    let mut l = line;
                    out.append(&mut l);
                    var_idx = next_idx;
                    proof {
                        match render_from(sv, ts@, lvl@, ids@, vv, nl@, i + 1, var_idx as int) {
                            Ok(rest) => {
                                assert(before + (line@ + rest) == out@ + rest);
                            },
                            Err(e) => {},
                        }
                    }
                },
            }
        }
    }
    assert(out@ + Seq::<u8>::empty() == out@);
    Ok(out)
}

// ---------------------------------------------------------------------------
// A whole chunk.

/// The template store after a chunk given by its six blocks, and the
/// chunk's output: its new templates are added to the store as soon as the
/// registry block is read; a block that does not decompress, or a registry
/// block that is not a list of strings, is an error.
#[verifier::opaque]
pub open spec fn blocks_output(
    store: Seq<Seq<char>>,
    registry: Seq<u8>,
    ts: Seq<u8>,
    lvl: Seq<u8>,
    ids: Seq<u8>,
    vars: Seq<u8>,
    nl: Seq<u8>,
) -> (Seq<Seq<char>>, Result<Seq<u8>, StzError>) {
    match zstd_content(registry) {
        None => (store, Err(StzError::Decompression)),
        Some(j) => match strings_of_json(j) {
            None => (store, Err(StzError::Registry)),
            Some(added) => {
                let st = store + added;
                (
                    st,
                    match (
                        zstd_content(ts),
                        zstd_content(lvl),
                        zstd_content(ids),
                        zstd_content(vars),
                        zstd_content(nl),
                    ) {
                        (Some(tb), Some(lb), Some(ib), Some(vb), Some(nb)) => rendered(
                            st,
                            ts_decode(tb),
                            lb,
                            ids_decode(ib),
                            vars_decode(vb),
                            nl_decode(nb),
                        ),
                        _ => Err(StzError::Decompression),
                    },
                )
            },
        },
    }
}

/// The template store after a compressed chunk, and the chunk's output.
pub open spec fn chunk_output(store: Seq<Seq<char>>, c: CompressedChunk) -> (
    Seq<Seq<char>>,
    Result<Seq<u8>, StzError>,
) {
    blocks_output(
        store,
        c.registry_blob@,
        c.ts_blob@,
        c.lvl_blob@,
        c.id_blob@,
        c.var_blob@,
        c.nl_blob@,
    )
}

/// Decompresses a chunk: adds the templates it carries to the store, then
/// rebuilds its lines and returns their bytes.
pub fn decode_chunk(template_store: &mut Vec<String>, chunk: &CompressedChunk) -> (r: Result<
    Vec<u8>,
    StzError,
>)
    ensures
        string_views(final(template_store)@) == chunk_output(
            string_views(old(template_store)@),
            *chunk,
        ).0,
        match r {
            Ok(out) => chunk_output(string_views(old(template_store)@), *chunk).1 == Ok::<
                Seq<u8>,
                StzError,
            >(out@),
            Err(e) => chunk_output(string_views(old(template_store)@), *chunk).1 == Err::<
                Seq<u8>,
                StzError,
            >(e),
        },
{
    proof {
        reveal(blocks_output);
    }
    let registry_bytes = match zstd_decode(chunk.registry_blob.as_slice()) {
        Ok(b) => b,
        Err(_) => {
            return Err(StzError::Decompression);
        },
    };
    let new_templates = match json_decode_strings(registry_bytes.as_slice()) {
        Ok(v) => v,
        Err(_) => {
            return Err(StzError::Registry);
        },
    };
    let ghost old_views = string_views(template_store@);
    let n = new_templates.len();
    for i in 0..n
        invariant
            n == new_templates@.len(),
            string_views(template_store@) == old_views + string_views(new_templates@).take(
                i as int,
            ),
    {
        let t = new_templates[i].clone();
        let ghost before = string_views(template_store@);
        template_store.push(t);
        assert(string_views(template_store@) == before.push(t@));
        assert(string_views(new_templates@).take(i + 1) == string_views(new_templates@).take(
            i as int,
        ).push(new_templates@[i as int]@));
    }
    assert(string_views(new_templates@).take(n as int) == string_views(new_templates@));
    let ts_bytes = match zstd_decode(chunk.ts_blob.as_slice()) {
        Ok(b) => b,
        Err(_) => {
            return Err(StzError::Decompression);
        },
    };
    let lvl_col = match zstd_decode(chunk.lvl_blob.as_slice()) {
        Ok(b) => b,
        Err(_) => {
            return Err(StzError::Decompression);
        },
    };
    let id_bytes = match zstd_decode(chunk.id_blob.as_slice()) {
        Ok(b) => b,
        Err(_) => {
            return Err(StzError::Decompression);
        },
    };
    let var_bytes = match zstd_decode(chunk.var_blob.as_slice()) {
        Ok(b) => b,
        Err(_) => {
            return Err(StzError::Decompression);
        },
    };
    let nl_bytes = match zstd_decode(chunk.nl_blob.as_slice()) {
        Ok(b) => b,
        Err(_) => {
            return Err(StzError::Decompression);
        },
    };
    let ts_col = decode_timestamps(ts_bytes.as_slice());
    let id_col = decode_ids(id_bytes.as_slice());
    let var_col = decode_vars(var_bytes.as_slice());
    let nl_col = unpack_newlines(nl_bytes.as_slice());
    render_lines(template_store, &ts_col, &lvl_col, &id_col, &var_col, &nl_col)
}

// ---------------------------------------------------------------------------
// A whole stream.

/// The `n` blocks from index `pos` of `b`, each decompressed as soon as it
/// is read, and the index after them; the first block cut short by the end
/// of `b` is `Truncated`, the first that does not decompress `Decompression`.
pub open spec fn decoded_blocks(b: Seq<u8>, pos: int, n: nat) -> Result<(Seq<Seq<u8>>, int), StzError>
    decreases n,
{
    if n == 0 {
        Ok((Seq::empty(), pos))
    } else {
        match block_at(b, pos) {
            None => Err(StzError::Truncated),
            Some((x, p1)) => match zstd_content(x) {
                None => Err(StzError::Decompression),
                Some(d) => match decoded_blocks(b, p1, (n - 1) as nat) {
                    Err(e) => Err(e),
                    Ok((ds, p2)) => Ok((seq![d] + ds, p2)),
                },
            },
        }
    }
}

/// The chunk framed at index `pos` of `b`, read as a reader of the stream
/// reads it: the registry block is read and decompressed and its templates
/// added to the store before the other blocks are read; each of those is
/// decompressed as it is read; then the lines are rendered. The store
/// after, and the chunk's bytes with the index after the chunk, or the
/// first error.
pub open spec fn chunk_at(store: Seq<Seq<char>>, b: Seq<u8>, pos: int) -> (
    Seq<Seq<char>>,
    Result<(Seq<u8>, int), StzError>,
) {
    match block_at(b, pos) {
        None => (store, Err(StzError::Truncated)),
        Some((reg, p1)) => match zstd_content(reg) {
            None => (store, Err(StzError::Decompression)),
            Some(j) => match strings_of_json(j) {
                None => (store, Err(StzError::Registry)),
                Some(added) => {
                    let st = store + added;
                    (
                        st,
                        match decoded_blocks(b, p1, 5) {
                            Err(e) => Err(e),
                            Ok((d, next)) => match rendered(
                                st,
                                ts_decode(d[0]),
                                d[1],
                                ids_decode(d[2]),
                                vars_decode(d[3]),
                                nl_decode(d[4]),
                            ) {
                                Ok(x) => Ok((x, next)),
                                Err(e) => Err(e),
                            },
                        },
                    )
                },
            },
        },
    }
}

/// Reading blocks moves forward.
pub proof fn lemma_decoded_advance(b: Seq<u8>, pos: int, n: nat)
    ensures
        decoded_blocks(b, pos, n) matches Ok((ds, p)) ==> ds.len() == n && p >= pos + 4 * n && (n
            > 0 ==> p <= b.len()),
    decreases n,
{
    if n > 0 {
        match block_at(b, pos) {
            None => {},
            Some((x, p1)) => {
                lemma_decoded_advance(b, p1, (n - 1) as nat);
            },
        }
    }
}

/// A chunk that is read moves the reader forward.
pub proof fn lemma_chunk_advance(store: Seq<Seq<char>>, b: Seq<u8>, pos: int)
    ensures
        chunk_at(store, b, pos).1 matches Ok((x, next)) ==> pos < next <= b.len(),
{
    match block_at(b, pos) {
        None => {},
        Some((reg, p1)) => {
            lemma_decoded_advance(b, p1, 5);
        },
    }
}

/// Decompressing the chunks framed in `b` from index `pos` on, with `store`
/// the templates known: the template store after, the bytes written, and
/// whether the stream ended well. Each chunk's lines follow the previous
/// chunk's; a chunk cut short by the end of the stream is an error, and so
/// is a chunk that does not decompress, whose lines are then not written.
pub open spec fn stream_output(store: Seq<Seq<char>>, b: Seq<u8>, pos: int) -> (
    Seq<Seq<char>>,
    Seq<u8>,
    Result<(), StzError>,
)
    decreases b.len() - pos,
{
    if pos < 0 || pos >= b.len() {
        (store, Seq::empty(), Ok(()))
    } else {
        let chunk = chunk_at(store, b, pos);
        match chunk.1 {
            Err(e) => (chunk.0, Seq::empty(), Err(e)),
            Ok((bytes, next)) => {
                proof {
                    lemma_chunk_advance(store, b, pos);
                }
                let rest = stream_output(chunk.0, b, next);
                (rest.0, bytes + rest.1, rest.2)
            },
        }
    }
}

/// Reads and decompresses the `n` blocks from index `pos` of `b`.
fn read_decoded(b: &[u8], pos: usize, n: usize) -> (r: Result<(Vec<Vec<u8>>, usize), StzError>)
    ensures
        match r {
            Ok((ds, p)) => decoded_blocks(b@, pos as int, n as nat) == Ok::<
                (Seq<Seq<u8>>, int),
                StzError,
            >((ds@.map_values(|d: Vec<u8>| d@), p as int)),
            Err(e) => decoded_blocks(b@, pos as int, n as nat) == Err::<
                (Seq<Seq<u8>>, int),
                StzError,
            >(e),
        },
    decreases n,
{
    if n == 0 {
        let ds: Vec<Vec<u8>> = Vec::new();
        assert(ds@.map_values(|d: Vec<u8>| d@) =~= Seq::<Seq<u8>>::empty());
        return Ok((ds, pos));
    }
    let (x, p1) = match read_block(b, pos) {
        None => {
            return Err(StzError::Truncated);
        },
        Some(v) => v,
    };
    let d = match zstd_decode(x.as_slice()) {
        Err(_) => {
            return Err(StzError::Decompression);
        },
        Ok(d) => d,
    };
    match read_decoded(b, p1, n - 1) {
        Err(e) => Err(e),
        Ok((ds, p2)) => {
            let ghost before = ds@.map_values(|v: Vec<u8>| v@);
            let mut ds = ds;
            ds.insert(0, d);
            assert(ds@.map_values(|v: Vec<u8>| v@) =~= seq![d@] + before);
            Ok((ds, p2))
        },
    }
}

impl LogDecompressor {
    /// Decompresses a stream's chunks (the bytes after its magic number) in
    /// order, the templates of each added to the store; returns the bytes
    /// written, up to the first chunk that fails, and how it ended.
    pub fn decompress_to_writer(input: &[u8], template_store: &mut Vec<String>) -> (r: (
        Vec<u8>,
        Result<(), StzError>,
    ))
        ensures
            (string_views(final(template_store)@), r.0@, r.1) == stream_output(
                string_views(old(template_store)@),
                input@,
                0,
            ),
    {
        let ghost whole = stream_output(string_views(template_store@), input@, 0);
        let mut out: Vec<u8> = Vec::new();
        let mut pos: usize = 0;
        while pos < input.len()
            invariant
                pos <= input@.len(),
                whole == stream_output(string_views(old(template_store)@), input@, 0),
                whole == (
                    stream_output(string_views(template_store@), input@, pos as int).0,
                    out@ + stream_output(string_views(template_store@), input@, pos as int).1,
                    stream_output(string_views(template_store@), input@, pos as int).2,
                ),
            decreases input@.len() - pos,
        {
            let ghost st = string_views(template_store@);
            let ghost c = chunk_at(st, input@, pos as int);
            proof {
                lemma_chunk_advance(st, input@, pos as int);
            }
            let (reg, p1) = match read_block(input, pos) {
                None => {
                    assert(out@ + Seq::<u8>::empty() =~= out@);
                    return (out, Err(StzError::Truncated));
                },
                Some(v) => v,
            };
            let reg_bytes = match zstd_decode(reg.as_slice()) {
                Err(_) => {
                    assert(out@ + Seq::<u8>::empty() =~= out@);
                    return (out, Err(StzError::Decompression));
                },
                Ok(b) => b,
            };
            let added = match json_decode_strings(reg_bytes.as_slice()) {
                Err(_) => {
                    assert(out@ + Seq::<u8>::empty() =~= out@);
                    return (out, Err(StzError::Registry));
                },
                Ok(v) => v,
            };
            let n = added.len();
            for i in 0..n
                invariant
                    n == added@.len(),
                    string_views(template_store@) == st + string_views(added@).take(i as int),
            {
                let t = added[i].clone();
                let ghost before = string_views(template_store@);
                template_store.push(t);
                assert(string_views(template_store@) == before.push(t@));
                assert(string_views(added@).take(i + 1) == string_views(added@).take(i as int).push(
                    added@[i as int]@,
                ));
            }
            assert(string_views(added@).take(n as int) == string_views(added@));
            assert(string_views(template_store@) == c.0);
            let (ds, next) = match read_decoded(input, p1, 5) {
                Err(e) => {
                    assert(out@ + Seq::<u8>::empty() =~= out@);
                    return (out, Err(e));
                },
                Ok(v) => v,
            };
            proof {
                lemma_decoded_advance(input@, p1 as int, 5);
            }
            let ghost dv = ds@.map_values(|d: Vec<u8>| d@);
            assert(dv[0] == ds@[0]@ && dv[1] == ds@[1]@ && dv[2] == ds@[2]@ && dv[3] == ds@[3]@
                && dv[4] == ds@[4]@);
            let ts_col = decode_timestamps(ds[0].as_slice());
            let id_col = decode_ids(ds[2].as_slice());
            let var_col = decode_vars(ds[3].as_slice());
            let nl_col = unpack_newlines(ds[4].as_slice());
            match render_lines(template_store, &ts_col, &ds[1], &id_col, &var_col, &nl_col) {
                Err(e) => {
                    assert(out@ + Seq::<u8>::empty() =~= out@);
                    return (out, Err(e));
                },
                Ok(bytes) => {
                    let ghost rest = stream_output(string_views(template_store@), input@, next as int);
                    let ghost before = out@;
                    let mut bytes = bytes;
                    out.append(&mut bytes);
                    assert(before + (c.1->Ok_0.0 + rest.1) =~= out@ + rest.1);
                    pos = next;
                },
            }
        }
        assert(out@ + Seq::<u8>::empty() =~= out@);
        (out, Ok(()))
    }
}

/// Reading decompressed blocks that are all there: the blocks' contents
/// when every one decompresses, else `Decompression`.
proof fn lemma_decoded_present(b: Seq<u8>, pos: int, n: nat)
    ensures
        blocks_at(b, pos, n) matches Some((bl, p)) ==> decoded_blocks(b, pos, n) == if forall|
            i: int,
        | 0 <= i < n ==> #[trigger] zstd_content(bl[i]) is Some {
            Ok::<(Seq<Seq<u8>>, int), StzError>(
                (Seq::new(n, |i: int| zstd_content(bl[i])->Some_0), p),
            )
        } else {
            Err::<(Seq<Seq<u8>>, int), StzError>(StzError::Decompression)
        },
    decreases n,
{
    if n == 0 {
        assert(Seq::new(0, |i: int| zstd_content(Seq::<u8>::empty())->Some_0) =~= Seq::<Seq<u8>>::empty());
        match blocks_at(b, pos, n) {
            Some((bl, p)) => {
                assert(Seq::new(n, |i: int| zstd_content(bl[i])->Some_0) =~= Seq::<Seq<u8>>::empty());
            },
            None => {},
        }
    } else {
        match block_at(b, pos) {
            None => {},
            Some((x, p1)) => {
                lemma_decoded_present(b, p1, (n - 1) as nat);
                lemma_blocks_advance(b, p1, (n - 1) as nat);
                match blocks_at(b, p1, (n - 1) as nat) {
                    None => {},
                    Some((xs, p2)) => {
                        let bl = seq![x] + xs;
                        assert(bl[0] == x);
                        assert forall|i: int| 0 <= i < n - 1 implies #[trigger] xs[i] == bl[i + 1] by {
                            assert((seq![x] + xs)[i + 1] == xs[i]);
                        }
                        if zstd_content(x) is Some {
                            if forall|i: int| 0 <= i < n - 1 ==> #[trigger] zstd_content(xs[i]) is Some {
                                assert forall|i: int| 0 <= i < n implies #[trigger] zstd_content(bl[i]) is Some by {
                                    if i > 0 {
                                        assert(bl[i] == xs[i - 1]);
                                    }
                                }
                                assert(seq![zstd_content(x)->Some_0] + Seq::new(
                                    (n - 1) as nat,
                                    |i: int| zstd_content(xs[i])->Some_0,
                                ) =~= Seq::new(n, |i: int| zstd_content(bl[i])->Some_0));
                            } else {
                                let i = choose|i: int| 0 <= i < n - 1 && !(#[trigger] zstd_content(xs[i]) is Some);
                                assert(bl[i + 1] == xs[i]);
                            }
                        }
                    },
                }
            },
        }
    }
}

/// Bytes in front of a stream move its blocks along and change nothing
/// else in reading them.
proof fn lemma_decoded_shift(pre: Seq<u8>, b: Seq<u8>, p: int, n: nat)
    requires
        0 <= p,
    ensures
        decoded_blocks(pre + b, pre.len() + p, n) == match decoded_blocks(b, p, n) {
            Ok((ds, q)) => Ok::<(Seq<Seq<u8>>, int), StzError>((ds, pre.len() + q)),
            Err(e) => Err::<(Seq<Seq<u8>>, int), StzError>(e),
        },
    decreases n,
{
    if n > 0 {
        lemma_block_shift(pre, b, p);
        match block_at(b, p) {
            None => {},
            Some((x, p1)) => {
                lemma_blocks_advance(b, p, 1);
                lemma_block_at_one(b, p);
                lemma_decoded_shift(pre, b, p1, (n - 1) as nat);
            },
        }
    }
}

/// Bytes in front move a block along.
proof fn lemma_block_shift(pre: Seq<u8>, b: Seq<u8>, p: int)
    requires
        0 <= p,
    ensures
        block_at(pre + b, pre.len() + p) == match block_at(b, p) {
            Some((x, q)) => Some((x, pre.len() + q)),
            None => None,
        },
{
    let o = pre.len() as int;
    lemma_blocks_at_shift(pre, b, p, 1);
    lemma_block_at_one(pre + b, o + p);
    lemma_block_at_one(b, p);
    match block_at(b, p) {
        None => {},
        Some((x, p1)) => {
            let (x2, q) = block_at(pre + b, o + p)->Some_0;
            assert(seq![x2][0] == x2);
            assert(seq![x][0] == x);
        },
    }
}

/// One block read as a run of one block.
proof fn lemma_block_at_one(b: Seq<u8>, p: int)
    ensures
        blocks_at(b, p, 1) == match block_at(b, p) {
            Some((x, p1)) => Some((seq![x], p1)),
            None => None,
        },
{
    reveal_with_fuel(blocks_at, 2);
    match block_at(b, p) {
        Some((x, p1)) => {
            assert(seq![x] + Seq::<Seq<u8>>::empty() =~= seq![x]);
        },
        None => {},
    }
}

/// Bytes in front of a stream do not change what decompressing from its
/// start gives.
proof fn lemma_stream_shift(store: Seq<Seq<char>>, pre: Seq<u8>, b: Seq<u8>, p: int)
    requires
        0 <= p,
    ensures
        stream_output(store, pre + b, pre.len() + p) == stream_output(store, b, p),
    decreases b.len() - p,
{
    let o = pre.len() as int;
    if p < b.len() {
        lemma_block_shift(pre, b, p);
        lemma_chunk_advance(store, b, p);
        match block_at(b, p) {
            None => {},
            Some((reg, p1)) => {
                lemma_blocks_advance(b, p, 1);
                lemma_block_at_one(b, p);
                lemma_decoded_shift(pre, b, p1, 5);
                assert(chunk_at(store, pre + b, o + p) == (
                    chunk_at(store, b, p).0,
                    match chunk_at(store, b, p).1 {
                        Ok((x, q)) => Ok::<(Seq<u8>, int), StzError>((x, o + q)),
                        Err(e) => Err::<(Seq<u8>, int), StzError>(e),
                    },
                ));
                match chunk_at(store, b, p).1 {
                    Err(e) => {},
                    Ok((x, next)) => {
                        lemma_stream_shift(chunk_at(store, b, p).0, pre, b, next);
                    },
                }
            },
        }
    }
}

/// Reading a framed chunk block by block gives what decompressing the
/// chunk gives, and ends after the chunk.
proof fn lemma_chunk_at_framed(store: Seq<Seq<char>>, c: CompressedChunk, rest: Seq<u8>)
    requires
        forall|i: int| 0 <= i < 6 ==> #[trigger] chunk_blocks(c)[i].len() < 0x1_0000_0000,
    ensures
        chunk_at(store, framed(c) + rest, 0) == (
            chunk_output(store, c).0,
            match chunk_output(store, c).1 {
                Ok(x) => Ok::<(Seq<u8>, int), StzError>((x, framed_len(c))),
                Err(e) => Err::<(Seq<u8>, int), StzError>(e),
            },
        ),
{
    reveal(blocks_output);
    let b = framed(c) + rest;
    law_framed_chunk_reads_back(Seq::empty(), c, rest);
    assert(Seq::<u8>::empty() + framed(c) + rest =~= b);
    let bl = chunk_blocks(c);
    let fl = framed_len(c);
    assert(blocks_at(b, 0, 6) == Some((bl, fl)));
    lemma_block_at_one(b, 0);
    let (x0, p1) = block_at(b, 0)->Some_0;
    let tail = blocks_at(b, p1, 5)->Some_0;
    lemma_blocks_advance(b, p1, 5);
    assert(blocks_at(b, 0, 6) == Some((seq![x0] + tail.0, tail.1)));
    assert(x0 == bl[0]) by {
        assert((seq![x0] + tail.0)[0] == x0);
    }
    assert forall|i: int| 0 <= i < 5 implies #[trigger] tail.0[i] == bl[i + 1] by {
        assert((seq![x0] + tail.0)[i + 1] == tail.0[i]);
    }
    lemma_blocks_advance(b, p1, 5);
    lemma_decoded_present(b, p1, 5);
    let t = tail.0;
    assert(t[0] == c.ts_blob@ && t[1] == c.lvl_blob@ && t[2] == c.id_blob@ && t[3] == c.var_blob@
        && t[4] == c.nl_blob@);
    assert(bl[0] == c.registry_blob@);
}

/// A stream that starts with a framed chunk is decompressed as that chunk,
/// then the rest of the stream with the chunk's templates added; a chunk
/// that fails ends the stream with its error and none of its lines (blocks
/// shorter than 2^32 bytes).
pub proof fn law_stream_chunk_then_rest(store: Seq<Seq<char>>, c: CompressedChunk, rest: Seq<u8>)
    requires
        forall|i: int| 0 <= i < 6 ==> #[trigger] chunk_blocks(c)[i].len() < 0x1_0000_0000,
    ensures
        stream_output(store, framed(c) + rest, 0) == match chunk_output(store, c).1 {
            Ok(bytes) => {
                let after = stream_output(chunk_output(store, c).0, rest, 0);
                (after.0, bytes + after.1, after.2)
            },
            Err(e) => (chunk_output(store, c).0, Seq::<u8>::empty(), Err(e)),
        },
{
    lemma_chunk_at_framed(store, c, rest);
    assert(framed(c).len() == framed_len(c));
    assert(framed(c).len() >= 24);
    lemma_stream_shift(chunk_output(store, c).0, framed(c), rest, 0);
}

/// Rendering reads a newline flag only for lines that exist: flags past the
/// last line do not matter.
proof fn lemma_render_nl_prefix(
    store: Seq<Seq<char>>,
    ts: Seq<u64>,
    lvl: Seq<u8>,
    ids: Seq<u32>,
    vars: Seq<Seq<char>>,
    nl: Seq<bool>,
    nl2: Seq<bool>,
    i: int,
    v: int,
)
    requires
        nl.len() == ids.len(),
        nl2.len() >= ids.len(),
        forall|j: int| 0 <= j < nl.len() ==> nl2[j] == nl[j],
        0 <= i,
    ensures
        render_from(store, ts, lvl, ids, vars, nl2, i, v) == render_from(
            store,
            ts,
            lvl,
            ids,
            vars,
            nl,
            i,
            v,
        ),
    decreases ids.len() - i,
{
    if i < ids.len() && 0 <= v <= vars.len() {
        if ids[i] as int >= store.len() {
            lemma_render_nl_prefix(store, ts, lvl, ids, vars, nl, nl2, i + 1, v);
        } else {
            let s1 = line_step(store, ts, lvl, ids, vars, nl, i, v);
            let s2 = line_step(store, ts, lvl, ids, vars, nl2, i, v);
            assert(s1 == s2);
            match s1 {
                Ok((line, v2)) => {
                    lemma_render_nl_prefix(store, ts, lvl, ids, vars, nl, nl2, i + 1, v2);
                },
                Err(e) => {},
            }
        }
    }
}

/// Decompressing a compressed chunk adds the templates the chunk carries to
/// the store and writes the lines of the chunk's columns, for a chunk with
/// one newline flag per line and no variable of 2^16 UTF-8 bytes or more.
pub proof fn law_decode_compressed_chunk(store: Seq<Seq<char>>, raw: RawChunk, c: CompressedChunk)
    requires
        blocks_decode_to(raw, c),
        raw.nl_col@.len() == raw.id_col@.len(),
        forall|i: int|
            0 <= i < raw.var_col@.len() ==> #[trigger] encode_utf8(raw.var_col@[i]@).len()
                < 0x10000,
    ensures
        chunk_output(store, c) == (
            store + string_views(raw.registry_delta@),
            rendered(
                store + string_views(raw.registry_delta@),
                raw.ts_col@,
                raw.lvl_col@,
                raw.id_col@,
                string_views(raw.var_col@),
                raw.nl_col@,
            ),
        ),
{
    reveal(blocks_output);
    law_timestamps_roundtrip(raw.ts_col@);
    law_ids_roundtrip(raw.id_col@);
    let vv = string_views(raw.var_col@);
    assert forall|i: int| 0 <= i < vv.len() implies #[trigger] encode_utf8(vv[i]).len()
        < 0x10000 by {
        assert(vv[i] == raw.var_col@[i]@);
    }
    law_vars_roundtrip(vv);
    law_newlines_roundtrip(raw.nl_col@);
    let nl2 = nl_decode(nl_bytes(raw.nl_col@));
    assert(nl2.len() >= raw.nl_col@.len()) by (nonlinear_arith)
        requires
            nl2.len() == 8 * ((raw.nl_col@.len() + 7) / 8),
    ;
    lemma_render_nl_prefix(
        store + string_views(raw.registry_delta@),
        raw.ts_col@,
        raw.lvl_col@,
        raw.id_col@,
        vv,
        raw.nl_col@,
        nl2,
        0,
        0,
    );
}

/// Text with no escape in it is written as it is.
proof fn lemma_unescape_plain(b: Seq<u8>, p: int, last: int)
    requires
        forall|q: int| !#[trigger] escape_candidate(b, q),
        0 <= last <= p <= b.len(),
    ensures
        unescape_from(b, p, last) == Some(b.subrange(last, b.len() as int)),
    decreases b.len() - p,
{
    if p < b.len() {
        assert(!escape_candidate(b, p));
        lemma_unescape_plain(b, p + 1, last);
    }
}

/// A line holding no `__TAB` holds no tab mark either.
pub(crate) proof fn lemma_free_of_tab_mark(c: Seq<char>)
    requires
        free_of(c, tab_stem()),
    ensures
        free_of(c, tab_mark()),
{
    assert forall|j: int| !#[trigger] occurs_at(c, tab_mark(), j) by {
        if occurs_at(c, tab_mark(), j) {
            assert(c.subrange(j, j + 5) =~= c.subrange(j, j + 7).subrange(0, 5));
            assert(tab_mark().subrange(0, 5) =~= tab_stem());
            assert(occurs_at(c, tab_stem(), j));
        }
    }
}

/// A raw line comes back unchanged: when a line (holding no `__TAB` and no
/// byte escape) is matched exactly, in its escaped form (tabs written as
/// `__TAB__`), by its clustering template (which holds no `<VAR>`), a chunk
/// of that one line, stored as the template's stored form and the escaped
/// line's variables with level RAW, is written as the line followed by a
/// line feed.
pub proof fn law_raw_line_roundtrip(c: Seq<char>, cluster: Seq<char>, ts: u64)
    requires
        free_of(c, tab_stem()),
        forall|q: int| !#[trigger] escape_candidate(encode_utf8(c), q),
        free_of(cluster, var_mark()),
        starts_with(escape_tabs(c), literal_parts(cluster)[0]),
        extraction(escape_tabs(c), cluster).2,
        extraction(escape_tabs(c), cluster).1 == escape_tabs(c).len(),
    ensures
        rendered(
            seq![stored_template(cluster)],
            seq![ts],
            seq![255u8],
            seq![0u32],
            variables_of(escape_tabs(c), cluster),
            seq![true],
        ) == Ok::<Seq<u8>, StzError>(encode_utf8(c) + seq![10u8]),
{
    let e = escape_tabs(c);
    let vars = variables_of(e, cluster);
    let stored = stored_template(cluster);
    law_variable_count_stored(e, cluster);
    law_fill_stored(e, cluster);
    law_tab_escape_roundtrip(c);
    lemma_free_of_tab_mark(c);
    lemma_no_occurrence_split(c, tab_mark());
    assert(count_matches(stored, var_mark()) == split_seq_len(stored) - 1);
    assert(vars.subrange(0, vars.len() as int) =~= vars);
    assert(e + Seq::<char>::empty() =~= e);
    assert(line_text(stored, vars, Seq::empty(), timestamp_text(ts), LogLevel::RAW) == c);
    lemma_unescape_plain(encode_utf8(c), 0, 0);
    assert(encode_utf8(c).subrange(0, encode_utf8(c).len() as int) =~= encode_utf8(c));
    let store = seq![stored];
    let line_step_result = line_step(
        store,
        seq![ts],
        seq![255u8],
        seq![0u32],
        vars,
        seq![true],
        0,
        0,
    );
    assert(line_step_result == Ok::<(Seq<u8>, int), StzError>(
        (encode_utf8(c) + seq![10u8], vars.len() as int),
    ));
    assert(encode_utf8(c) + seq![10u8] + Seq::<u8>::empty() =~= encode_utf8(c) + seq![10u8]);
    assert(render_from(store, seq![ts], seq![255u8], seq![0u32], vars, seq![true], 1, vars.len() as int)
        == Ok::<Seq<u8>, StzError>(Seq::empty()));
    assert(render_from(store, seq![ts], seq![255u8], seq![0u32], vars, seq![true], 0, 0) == Ok::<
        Seq<u8>,
        StzError,
    >(encode_utf8(c) + seq![10u8] + Seq::<u8>::empty()));
}

} // verus!
