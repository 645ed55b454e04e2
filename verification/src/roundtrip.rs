//! The round trip of log lines: lines parsed, learned, gathered into
//! chunks, compressed and framed into a stream come back byte for byte when
//! the stream is decompressed.
use vstd::prelude::*;

use vstd::utf8::encode_utf8;

use crate::compress::{blocks_decode_to, timestamp_millis};
use crate::container::{chunk_blocks, framed, framed_from};
use crate::decompress::{
    char_boundary, escape_candidate, is_continuation, law_decode_compressed_chunk,
    law_stream_chunk_then_rest, lemma_free_of_tab_mark, line_step, line_text, radix16_pair,
    render_from, split_seq_len, stream_output, timestamp_text, unescape, unescape_from,
};
use crate::level::{level_code, level_label, level_of_code, LogLevel};
use crate::models::{CompressedChunk, RawChunk, StzError};
use crate::parser::{parsed_line, written_text};
use crate::pipeline::learning_split;
use crate::registry::holds_hash;
use crate::template::{
    escape_tabs, extraction, free_of, law_fill_stored, law_tab_escape_roundtrip,
    law_variable_count_stored, lemma_no_occurrence_split, lemma_split_from_nonempty, literal_parts,
    stored_template, tab_mark, tab_stem, template_hash, var_mark, variables_of,
};
use crate::text::{
    count_matches, ends_with, find_from, join_seq, lemma_find_from, starts_with, trim_end_char,
};

verus! {

/// A parsed line as the compressor meets it: its body (the text that
/// `parse` leaves after the header, the whole line for a raw line), whether
/// a line feed ended it, the cluster that the clustering step returned for
/// its escaped body (`None` when it returned none), its level and the text
/// of its timestamp (`None` for a raw line).
pub ghost struct LineIn {
    pub text: Seq<char>,
    pub newline: bool,
    pub cluster: Option<Seq<char>>,
    pub level: LogLevel,
    pub timestamp: Option<Seq<char>>,
}

/// The line that `LineParser::parse` makes of a line's text, learned with
/// the cluster the clustering step returned.
pub open spec fn parsed(raw: Seq<char>, newline: bool, cluster: Option<Seq<char>>) -> LineIn {
    LineIn {
        text: parsed_line(raw).2,
        newline,
        cluster,
        level: parsed_line(raw).1,
        timestamp: parsed_line(raw).0,
    }
}

/// Every line is written back as it was read: the text a parsed line is
/// written back as is the line itself (for a line not ending with a line
/// feed), whether its header was kept or the line was taken raw.
pub proof fn law_line_written_back(raw: Seq<char>, newline: bool, cluster: Option<Seq<char>>)
    requires
        raw.len() == 0 || raw.last() != '\n',
    ensures
        out_text(parsed(raw, newline, cluster)) == raw,
{
    if raw.len() > 0 {
        assert(raw.last() == raw[raw.len() - 1]);
    }
    assert(trim_end_char(raw, '\n') == raw);
}

/// The milliseconds a line's timestamp text is stored as (`0`-text for none).
pub open spec fn millis_of(l: LineIn) -> u64 {
    timestamp_millis(
        match l.timestamp {
            Some(t) => t,
            None => Seq::empty(),
        },
    )
}

/// The text a line is written back as (see `written_text`).
pub open spec fn out_text(l: LineIn) -> Seq<char> {
    written_text(l.timestamp, l.level, l.text)
}

/// The body ends with a carriage return (of a CRLF line ending).
pub open spec fn ends_cr(l: LineIn) -> bool {
    l.text.len() > 0 && l.text.last() == '\r'
}

/// The text template learning sees: the body without its final carriage
/// return.
pub open spec fn learned_text(l: LineIn) -> Seq<char> {
    if ends_cr(l) {
        l.text.drop_last()
    } else {
        l.text
    }
}

/// The learned text with each tab written `__TAB__`.
pub open spec fn escaped(l: LineIn) -> Seq<char> {
    escape_tabs(learned_text(l))
}

/// The clustering template the line is taken with.
pub open spec fn clustering(l: LineIn) -> Seq<char> {
    match l.cluster {
        Some(c) => c,
        None => escaped(l),
    }
}

/// The line's stored template.
pub open spec fn template_of(l: LineIn) -> Seq<char> {
    stored_template(clustering(l))
}

/// The variables extracted from the line.
pub open spec fn extracted(l: LineIn) -> Seq<Seq<char>> {
    variables_of(escaped(l), clustering(l))
}

/// The line's variables as stored: those extracted, then the final
/// carriage return as a variable of its own when there is one.
pub open spec fn vars_of(l: LineIn) -> Seq<Seq<char>> {
    extracted(l) + if ends_cr(l) {
        seq![seq!['\r']]
    } else {
        Seq::<Seq<char>>::empty()
    }
}

/// A line whose learned text holds no carriage return or line feed, as
/// `line_ok` asks, is handed to template learning as this model has it: the
/// learned text, and a lone carriage return as the extra variable exactly
/// when the body ends with one (a blank body adds none); the variables the
/// line is stored with are then exactly `vars_of`.
pub proof fn law_learning_split_of_line(l: LineIn)
    requires
        no_cr_lf(learned_text(l)),
    ensures
        learning_split(l.text).0 == learned_text(l),
        learning_split(l.text).1 == (if ends_cr(l) {
            Some(seq!['\r'])
        } else {
            None::<Seq<char>>
        }),
        extracted(l) + (match learning_split(l.text).1 {
            Some(x) => seq![x],
            None => Seq::<Seq<char>>::empty(),
        }) == vars_of(l),
{
    let t = l.text;
    let lt = learned_text(l);
    lemma_find_from(t, seq!['\n'], 0);
    if find_from(t, seq!['\n'], 0) is Some {
        let k = find_from(t, seq!['\n'], 0)->Some_0;
        assert(t.subrange(k, k + 1)[0] == t[k]);
        if k < lt.len() {
            assert(lt[k] == t[k]);
        }
    }
    if lt.len() > 0 {
        assert(lt[lt.len() - 1] != '\r');
    }
    assert(trim_end_char(lt, '\r') == lt);
    if ends_cr(l) {
        assert(t.subrange(t.len() - 1, t.len() as int) =~= seq!['\r']);
        assert(ends_with(t, seq!['\r']));
        assert(trim_end_char(t, '\r') == trim_end_char(lt, '\r'));
    } else {
        if ends_with(t, seq!['\r']) {
            assert(t.subrange(t.len() - 1, t.len() as int)[0] == t.last());
        }
        assert(extracted(l) + Seq::<Seq<char>>::empty() == extracted(l));
    }
}

/// The text a line is written back as, with its line feed if it had one.
pub open spec fn full_text(l: LineIn) -> Seq<char> {
    if l.newline {
        out_text(l).push('\n')
    } else {
        out_text(l)
    }
}

/// The bytes a line is written back as: its text with its line feed,
/// escapes decoded. For a raw line read by `read_input_line` from bytes
/// without `__BYTE_`, exactly those bytes.
pub open spec fn line_bytes(l: LineIn) -> Seq<u8> {
    unescape(encode_utf8(full_text(l)))->Some_0
}

/// `s` holds no carriage return and no line feed.
pub open spec fn no_cr_lf(s: Seq<char>) -> bool {
    forall|j: int| 0 <= j < s.len() ==> #[trigger] s[j] != '\r' && s[j] != '\n'
}

/// What a line must be for the round trip: its body holds no line feed,
/// no carriage return but at its end, and no `__TAB`; its clustering
/// template holds no `<VAR>` and matches its escaped learned text exactly;
/// the escapes of the text it is written back as decode; each variable is
/// shorter than 2^16 bytes.
pub open spec fn line_ok(l: LineIn) -> bool {
    &&& no_cr_lf(learned_text(l))
    &&& free_of(l.text, tab_stem())
    &&& free_of(clustering(l), var_mark())
    &&& starts_with(escaped(l), literal_parts(clustering(l))[0])
    &&& extraction(escaped(l), clustering(l)).2
    &&& extraction(escaped(l), clustering(l)).1 == escaped(l).len()
    &&& unescape(encode_utf8(full_text(l))) is Some
    &&& forall|m: int| 0 <= m < vars_of(l).len() ==> #[trigger] encode_utf8(vars_of(l)[m]).len() < 0x10000
}

/// Decoding escapes in a text followed by a line feed: when it succeeds,
/// it is the text's decoding followed by the line feed.
proof fn lemma_unescape_newline(b: Seq<u8>, p: int, last: int)
    requires
        0 <= last <= p <= b.len(),
        unescape_from(b.push(10u8), p, last) is Some,
    ensures
        unescape_from(b, p, last) is Some,
        unescape_from(b.push(10u8), p, last) == Some(unescape_from(b, p, last)->Some_0.push(10u8)),
    decreases b.len() - p,
{
    let b2 = b.push(10u8);
    if p == b.len() {
        assert(!escape_candidate(b2, p));
        assert(unescape_from(b2, p + 1, last) == Some(b2.subrange(last, b2.len() as int)));
        assert(b2.subrange(last, b2.len() as int) =~= b.subrange(last, b.len() as int).push(10u8));
    } else {
        if p + 11 <= b.len() {
            assert(b2.subrange(p, p + 7) =~= b.subrange(p, p + 7));
            assert(b2[p + 7] == b[p + 7] && b2[p + 8] == b[p + 8] && b2[p + 9] == b[p + 9]
                && b2[p + 10] == b[p + 10]);
            assert(escape_candidate(b2, p) == escape_candidate(b, p));
            if escape_candidate(b, p) {
                assert(char_boundary(b2, p + 9) == char_boundary(b, p + 9));
                assert(char_boundary(b2, p + 11) == char_boundary(b, p + 11));
                if char_boundary(b, p + 9) && char_boundary(b, p + 11) && b[p + 9] == 95 && b[p
                    + 10] == 95 && radix16_pair(b[p + 7], b[p + 8]) is Some {
                    lemma_unescape_newline(b, p + 11, p + 11);
                    assert(b2.subrange(last, p) =~= b.subrange(last, p));
                    let x = radix16_pair(b[p + 7], b[p + 8])->Some_0;
                    let r = unescape_from(b, p + 11, p + 11)->Some_0;
                    assert(b.subrange(last, p) + seq![x] + r.push(10u8) =~= (b.subrange(last, p)
                        + seq![x] + r).push(10u8));
                } else {
                    lemma_unescape_newline(b, p + 1, last);
                }
            } else {
                lemma_unescape_newline(b, p + 1, last);
            }
        } else {
            assert(!escape_candidate(b, p));
            if escape_candidate(b2, p) {
                assert(p + 11 == b2.len());
                assert(b2[p + 10] == 10u8);
            }
            lemma_unescape_newline(b, p + 1, last);
        }
    }
}

/// The first occurrence of a one-character separator is not changed by a
/// different character put at the end.
proof fn lemma_find_push(s: Seq<char>, sep: Seq<char>, x: char, pos: int)
    requires
        sep.len() == 1,
        sep[0] != x,
        0 <= pos,
    ensures
        find_from(s.push(x), sep, pos) == find_from(s, sep, pos),
    decreases s.len() + 1 - pos,
{
    let t = s.push(x);
    if pos + 1 <= s.len() {
        assert(t.subrange(pos, pos + 1) =~= s.subrange(pos, pos + 1));
        lemma_find_push(s, sep, x, pos + 1);
    } else if pos == s.len() {
        assert(t.subrange(pos, pos + 1)[0] == x);
        assert(!crate::text::occurs_at(t, sep, pos));
        assert(find_from(t, sep, pos + 1) is None);
    }
}

/// Splitting at a one-character separator, with a different character put
/// at the end: the last piece gets that character.
proof fn lemma_split_push(s: Seq<char>, sep: Seq<char>, x: char, pos: int)
    requires
        sep.len() == 1,
        sep[0] != x,
        0 <= pos <= s.len(),
    ensures
        crate::text::split_from(s, sep, pos).len() >= 1,
        crate::text::split_from(s.push(x), sep, pos) == crate::text::split_from(s, sep, pos).update(
            crate::text::split_from(s, sep, pos).len() - 1,
            crate::text::split_from(s, sep, pos).last().push(x),
        ),
    decreases s.len() + 1 - pos,
{
    let t = s.push(x);
    lemma_find_push(s, sep, x, pos);
    lemma_find_from(s, sep, pos);
    lemma_split_from_nonempty(s, sep, pos);
    match find_from(s, sep, pos) {
        Some(k) => {
            lemma_split_push(s, sep, x, k + 1);
            assert(t.subrange(pos, k) =~= s.subrange(pos, k));
            let r = crate::text::split_from(s, sep, k + 1);
            assert(crate::text::split_from(s, sep, pos) == seq![s.subrange(pos, k)] + r);
            assert(crate::text::split_from(t, sep, pos) == seq![t.subrange(pos, k)]
                + crate::text::split_from(t, sep, k + 1));
            assert(seq![s.subrange(pos, k)] + r.update(r.len() - 1, r.last().push(x)) =~= (seq![
                s.subrange(pos, k),
            ] + r).update(r.len() as int, r.last().push(x)));
        },
        None => {
            assert(t.subrange(pos, t.len() as int) =~= s.subrange(pos, s.len() as int).push(x));
            assert(seq![s.subrange(pos, s.len() as int)].update(0, s.subrange(pos, s.len() as int).push(x))
                =~= seq![s.subrange(pos, s.len() as int).push(x)]);
        },
    }
}

/// Joining pieces whose last one gets a character at its end puts that
/// character at the end.
proof fn lemma_join_push_last(parts: Seq<Seq<char>>, sep: Seq<char>, x: char)
    requires
        parts.len() >= 1,
    ensures
        join_seq(parts.update(parts.len() - 1, parts.last().push(x)), sep) == join_seq(parts, sep).push(x),
{
    let p2 = parts.update(parts.len() - 1, parts.last().push(x));
    if parts.len() == 1 {
        assert(p2[0] == parts[0].push(x));
    } else {
        assert(p2.drop_last() =~= parts.drop_last());
        assert(p2.last() == parts.last().push(x));
        assert(join_seq(parts.drop_last(), sep) + sep + parts.last().push(x) =~= (join_seq(
            parts.drop_last(),
            sep,
        ) + sep + parts.last()).push(x));
    }
}

/// A carriage return at the end is kept when tabs are escaped.
proof fn lemma_escape_push_cr(c: Seq<char>)
    ensures
        escape_tabs(c.push('\r')) == escape_tabs(c).push('\r'),
{
    let tab = seq!['\t'];
    lemma_split_push(c, tab, '\r', 0);
    lemma_join_push_last(crate::text::split_from(c, tab, 0), tab_mark(), '\r');
}

/// A raw line's step of rendering: its template and variables give its
/// bytes back, and the variables after its own are left for the next line.
proof fn lemma_raw_line_step(
    store: Seq<Seq<char>>,
    ts: Seq<u64>,
    lvl: Seq<u8>,
    ids: Seq<u32>,
    vars: Seq<Seq<char>>,
    nl: Seq<bool>,
    i: int,
    v: int,
    l: LineIn,
)
    requires
        line_ok(l),
        0 <= i < ids.len(),
        i < ts.len(),
        i < lvl.len(),
        lvl[i] == level_code(l.level),
        ts[i] == millis_of(l),
        i < nl.len(),
        nl[i] == l.newline,
        0 <= ids[i] < store.len(),
        store[ids[i] as int] == template_of(l),
        0 <= v,
        v + vars_of(l).len() <= vars.len(),
        vars.subrange(v, v + vars_of(l).len()) == vars_of(l),
        !ends_cr(l) ==> !is_continuation(vars, v + vars_of(l).len()),
    ensures
        line_step(store, ts, lvl, ids, vars, nl, i, v) == Ok::<(Seq<u8>, int), StzError>(
            (line_bytes(l), v + vars_of(l).len()),
        ),
{
    let c = l.text;
    let e = escaped(l);
    let base = clustering(l);
    let stored = template_of(l);
    let xs = extracted(l);
    let vs = vars_of(l);
    law_variable_count_stored(e, base);
    law_fill_stored(e, base);
    law_tab_escape_roundtrip(c);
    lemma_free_of_tab_mark(c);
    lemma_no_occurrence_split(c, tab_mark());
    assert(count_matches(stored, var_mark()) == split_seq_len(stored) - 1);
    assert(vars.subrange(v, v + xs.len()) =~= xs) by {
        assert forall|q: int| 0 <= q < xs.len() implies vars.subrange(v, v + xs.len())[q] == xs[q] by {
            assert(vars.subrange(v, v + vs.len())[q] == vs[q]);
        }
    }
    let cont = if ends_cr(l) {
        seq!['\r']
    } else {
        Seq::<char>::empty()
    };
    if ends_cr(l) {
        assert(vars[v + xs.len()] == vars.subrange(v, v + vs.len())[xs.len() as int]);
        assert(vs[xs.len() as int] == seq!['\r']);
        assert(is_continuation(vars, v + xs.len()));
        lemma_escape_push_cr(learned_text(l));
        assert(learned_text(l).push('\r') =~= c);
        assert(e + cont =~= e.push('\r'));
    } else {
        assert(e + cont =~= e);
    }
    assert(e + cont == escape_tabs(c));
    crate::level::law_level_code_roundtrip(l.level);
    assert(line_text(stored, xs, cont, timestamp_text(ts[i]), level_of_code(lvl[i])) == out_text(l));
    let c = out_text(l);
    if l.newline {
        assert(encode_utf8(c.push('\n')) == encode_utf8(c).push(10u8)) by {
            crate::input::lemma_encode_concat_pub(c, seq!['\n']);
            assert(c.push('\n') =~= c + seq!['\n']);
            assert(vstd::utf8::is_ascii_chars(seq!['\n']));
            vstd::utf8::is_ascii_chars_encode_utf8(seq!['\n']);
            assert(encode_utf8(seq!['\n']) =~= seq![10u8]);
        }
        lemma_unescape_newline(encode_utf8(c), 0, 0);
        let x = unescape(encode_utf8(c))->Some_0;
        assert(x.push(10u8) =~= x + seq![10u8]);
    } else {
        assert(line_bytes(l) + Seq::<u8>::empty() =~= line_bytes(l));
    }
}

// ---------------------------------------------------------------------------
// The template registry over a run of lines.

/// The hash a line's stored template is known by.
pub open spec fn hash_of(l: LineIn) -> u64 {
    template_hash(template_of(l))
}

/// The registry after learning the first `n` lines: a line's stored
/// template is added, with its hash, when its hash is not held yet.
pub open spec fn registry_after(lines: Seq<LineIn>, n: int) -> Seq<(u64, Seq<char>)>
    decreases n,
{
    if n <= 0 {
        Seq::empty()
    } else {
        let r = registry_after(lines, n - 1);
        if holds_hash(r, hash_of(lines[n - 1])) {
            r
        } else {
            r.push((hash_of(lines[n - 1]), template_of(lines[n - 1])))
        }
    }
}

/// The id (index) of hash `h` in a registry.
pub open spec fn id_in(reg: Seq<(u64, Seq<char>)>, h: u64) -> int {
    choose|i: int| 0 <= i < reg.len() && reg[i].0 == h
}

/// The templates of a registry, in id order.
pub open spec fn templates(reg: Seq<(u64, Seq<char>)>) -> Seq<Seq<char>> {
    reg.map_values(|e: (u64, Seq<char>)| e.1)
}

/// Lines whose stored templates share a hash have the same stored template.
pub open spec fn hashes_distinguish(lines: Seq<LineIn>) -> bool {
    forall|i: int, j: int|
        0 <= i < lines.len() && 0 <= j < lines.len() && #[trigger] hash_of(lines[i])
            == #[trigger] hash_of(lines[j]) ==> template_of(lines[i]) == template_of(lines[j])
}

/// The registry only grows, each entry comes from a line learned so far,
/// and after line `m` its hash is held.
proof fn lemma_registry_grows(lines: Seq<LineIn>, m: int, n: int)
    requires
        0 <= m <= n,
    ensures
        registry_after(lines, m).len() <= registry_after(lines, n).len(),
        registry_after(lines, n).subrange(0, registry_after(lines, m).len() as int)
            == registry_after(lines, m),
        registry_after(lines, n).len() <= n,
        forall|k: int|
            0 <= k < registry_after(lines, n).len() ==> exists|i: int|
                0 <= i < n && #[trigger] registry_after(lines, n)[k] == (
                    hash_of(lines[i]),
                    template_of(lines[i]),
                ),
        m < n ==> holds_hash(registry_after(lines, n), hash_of(lines[m])),
    decreases n,
{
    let rn = registry_after(lines, n);
    if n == 0 {
        assert(rn.subrange(0, 0) =~= rn);
    } else if m == n {
        lemma_registry_grows(lines, n - 1, n - 1);
        assert(rn.subrange(0, rn.len() as int) =~= rn);
        let r = registry_after(lines, n - 1);
        assert forall|k: int| 0 <= k < rn.len() implies exists|i: int|
            0 <= i < n && #[trigger] rn[k] == (hash_of(lines[i]), template_of(lines[i])) by {
            if k < r.len() {
                assert(rn[k] == r[k]);
            } else {
                assert(rn[k] == (hash_of(lines[n - 1]), template_of(lines[n - 1])));
            }
        }
    } else {
        lemma_registry_grows(lines, m, n - 1);
        let r = registry_after(lines, n - 1);
        let rm = registry_after(lines, m);
        assert(rn.subrange(0, rm.len() as int) =~= r.subrange(0, rm.len() as int));
        assert forall|k: int| 0 <= k < rn.len() implies exists|i: int|
            0 <= i < n && #[trigger] rn[k] == (hash_of(lines[i]), template_of(lines[i])) by {
            if k < r.len() {
                assert(rn[k] == r[k]);
                let i = choose|i: int| 0 <= i < n - 1 && #[trigger] r[k] == (
                    hash_of(lines[i]),
                    template_of(lines[i]),
                );
                assert(rn[k] == (hash_of(lines[i]), template_of(lines[i])));
            } else {
                assert(rn[k] == (hash_of(lines[n - 1]), template_of(lines[n - 1])));
            }
        }
        if m < n - 1 {
            let k = choose|k: int| 0 <= k < r.len() && #[trigger] r[k].0 == hash_of(lines[m]);
            assert(rn[k] == r[k]);
        } else {
            if holds_hash(r, hash_of(lines[m])) {
                let k = choose|k: int| 0 <= k < r.len() && #[trigger] r[k].0 == hash_of(lines[m]);
                assert(rn[k] == r[k]);
            } else {
                assert(rn[r.len() as int].0 == hash_of(lines[m]));
            }
        }
    }
}

/// Line `m`'s id names its stored template in the registry of any later
/// cut, when hashes distinguish templates.
proof fn lemma_id_resolves(lines: Seq<LineIn>, m: int, b: int)
    requires
        0 <= m < b <= lines.len(),
        hashes_distinguish(lines),
    ensures
        0 <= id_in(registry_after(lines, m + 1), hash_of(lines[m])) < registry_after(lines, m + 1).len(),
        registry_after(lines, m + 1).len() <= m + 1,
        id_in(registry_after(lines, m + 1), hash_of(lines[m])) < templates(
            registry_after(lines, b),
        ).len(),
        templates(registry_after(lines, b))[id_in(registry_after(lines, m + 1), hash_of(lines[m]))]
            == template_of(lines[m]),
{
    lemma_registry_grows(lines, m, m + 1);
    lemma_registry_grows(lines, m + 1, b);
    let r = registry_after(lines, m + 1);
    let rb = registry_after(lines, b);
    let id = id_in(r, hash_of(lines[m]));
    assert(0 <= id < r.len() && r[id].0 == hash_of(lines[m]));
    assert(rb[id] == rb.subrange(0, r.len() as int)[id]);
    assert(rb[id] == r[id]);
    let i = choose|i: int| 0 <= i < b && #[trigger] rb[id] == (hash_of(lines[i]), template_of(lines[i]));
    assert(hash_of(lines[i]) == hash_of(lines[m]));
    assert(templates(rb)[id] == rb[id].1);
}

// ---------------------------------------------------------------------------
// Chunks of lines.

/// The variables of lines `a..b`, one line's after another's.
pub open spec fn vars_concat(lines: Seq<LineIn>, a: int, b: int) -> Seq<Seq<char>>
    decreases b - a,
{
    if a >= b {
        Seq::empty()
    } else {
        vars_of(lines[a]) + vars_concat(lines, a + 1, b)
    }
}

/// The bytes of lines `a..b`, one after another.
pub open spec fn lines_output(lines: Seq<LineIn>, a: int, b: int) -> Seq<u8>
    decreases b - a,
{
    if a >= b {
        Seq::empty()
    } else {
        line_bytes(lines[a]) + lines_output(lines, a + 1, b)
    }
}

proof fn lemma_vars_concat_split(lines: Seq<LineIn>, a: int, m: int, b: int)
    requires
        a <= m <= b,
    ensures
        vars_concat(lines, a, b) == vars_concat(lines, a, m) + vars_concat(lines, m, b),
    decreases m - a,
{
    if a == m {
        assert(vars_concat(lines, a, m) =~= Seq::<Seq<char>>::empty());
        assert(Seq::<Seq<char>>::empty() + vars_concat(lines, m, b) =~= vars_concat(lines, m, b));
    } else {
        lemma_vars_concat_split(lines, a + 1, m, b);
        assert(vars_concat(lines, a, b) =~= vars_of(lines[a]) + (vars_concat(lines, a + 1, m)
            + vars_concat(lines, m, b)));
    }
}

proof fn lemma_lines_output_split(lines: Seq<LineIn>, a: int, m: int, b: int)
    requires
        a <= m <= b,
    ensures
        lines_output(lines, a, b) == lines_output(lines, a, m) + lines_output(lines, m, b),
    decreases m - a,
{
    if a == m {
        assert(lines_output(lines, a, m) =~= Seq::<u8>::empty());
        assert(Seq::<u8>::empty() + lines_output(lines, m, b) =~= lines_output(lines, m, b));
    } else {
        lemma_lines_output_split(lines, a + 1, m, b);
        assert(lines_output(lines, a, b) =~= line_bytes(lines[a]) + (lines_output(lines, a + 1, m)
            + lines_output(lines, m, b)));
    }
}

/// No line of `a..b` without a final carriage return is followed, in the
/// chunk, by a variable that starts with a carriage return or a line feed,
/// which the decoder would take as that line's continuation (a later line
/// with no placeholder that ends with a carriage return does that).
pub open spec fn seams_ok(lines: Seq<LineIn>, a: int, b: int) -> bool {
    forall|j: int|
        a <= j < b ==> (!ends_cr(#[trigger] lines[j]) ==> !is_continuation(
            vars_concat(lines, j + 1, b),
            0,
        ))
}

/// What a chunk cut from lines `a..b` holds, with the registry learned
/// line by line: the templates added since the previous cut, each line's
/// timestamp in milliseconds, level code, template id, variables and
/// newline flag.
pub open spec fn chunk_of(raw: crate::models::RawChunk, lines: Seq<LineIn>, a: int, b: int) -> bool {
    &&& crate::codec::string_views(raw.registry_delta@) == templates(registry_after(lines, b)).subrange(
        registry_after(lines, a).len() as int,
        registry_after(lines, b).len() as int,
    )
    &&& raw.ts_col@ == Seq::new((b - a) as nat, |j: int| millis_of(lines[a + j]))
    &&& raw.lvl_col@ == Seq::new((b - a) as nat, |j: int| level_code(lines[a + j].level))
    &&& raw.id_col@ == Seq::new(
        (b - a) as nat,
        |j: int| id_in(registry_after(lines, a + j + 1), hash_of(lines[a + j])) as u32,
    )
    &&& crate::codec::string_views(raw.var_col@) == vars_concat(lines, a, b)
    &&& raw.nl_col@ == Seq::new((b - a) as nat, |j: int| lines[a + j].newline)
}

/// Rendering the lines of a chunk from line `i` on gives their bytes.
proof fn lemma_render_lines(
    lines: Seq<LineIn>,
    a: int,
    b: int,
    raw: crate::models::RawChunk,
    i: int,
)
    requires
        0 <= a <= b <= lines.len() < 0x1_0000_0000,
        forall|q: int| a <= q < b ==> #[trigger] line_ok(lines[q]),
        hashes_distinguish(lines),
        chunk_of(raw, lines, a, b),
        seams_ok(lines, a, b),
        0 <= i <= b - a,
    ensures
        render_from(
            templates(registry_after(lines, b)),
            raw.ts_col@,
            raw.lvl_col@,
            raw.id_col@,
            crate::codec::string_views(raw.var_col@),
            raw.nl_col@,
            i,
            vars_concat(lines, a, a + i).len() as int,
        ) == Ok::<Seq<u8>, StzError>(lines_output(lines, a + i, b)),
    decreases b - a - i,
{
    let store = templates(registry_after(lines, b));
    let vars = crate::codec::string_views(raw.var_col@);
    let v = vars_concat(lines, a, a + i).len() as int;
    if i < b - a {
        let q = a + i;
        let l = lines[q];
        assert(line_ok(l));
        lemma_vars_concat_split(lines, a, q, b);
        lemma_vars_concat_split(lines, q, q + 1, b);
        lemma_vars_concat_split(lines, a, q, q + 1);
        assert(vars_concat(lines, q, q + 1) =~= vars_of(l) + Seq::<Seq<char>>::empty());
        let vl = vars_of(l);
        let rest = vars_concat(lines, q + 1, b);
        assert(vars =~= vars_concat(lines, a, q) + vl + rest);
        assert(vars.subrange(v, v + vl.len()) =~= vl);
        if !ends_cr(l) {
            assert(!is_continuation(rest, 0));
            if v + vl.len() < vars.len() {
                assert(vars[v + vl.len()] == rest[0]);
            }
        }
        lemma_id_resolves(lines, q, b);
        assert(raw.id_col@[i] == id_in(registry_after(lines, q + 1), hash_of(lines[q])) as u32);
        assert(raw.lvl_col@[i] == level_code(l.level));
        assert(raw.ts_col@[i] == millis_of(l));
        assert(raw.nl_col@[i] == l.newline);
        lemma_raw_line_step(
            store,
            raw.ts_col@,
            raw.lvl_col@,
            raw.id_col@,
            vars,
            raw.nl_col@,
            i,
            v,
            l,
        );
        lemma_render_lines(lines, a, b, raw, i + 1);
        assert(vars_concat(lines, a, q + 1).len() == v + vl.len());
    } else {
        assert(lines_output(lines, b, b) =~= Seq::<u8>::empty());
    }
}

/// Each variable of lines `a..b` is shorter than 2^16 bytes.
proof fn lemma_vars_concat_short(lines: Seq<LineIn>, a: int, b: int)
    requires
        0 <= a,
        b <= lines.len(),
        forall|q: int| a <= q < b ==> #[trigger] line_ok(lines[q]),
    ensures
        forall|m: int| 0 <= m < vars_concat(lines, a, b).len() ==> #[trigger] encode_utf8(
            vars_concat(lines, a, b)[m],
        ).len() < 0x10000,
    decreases b - a,
{
    if a < b {
        assert(line_ok(lines[a]));
        lemma_vars_concat_short(lines, a + 1, b);
        let v = vars_of(lines[a]);
        let r = vars_concat(lines, a + 1, b);
        assert forall|m: int| 0 <= m < (v + r).len() implies #[trigger] encode_utf8((v + r)[m]).len()
            < 0x10000 by {
            if m < v.len() {
                assert((v + r)[m] == v[m]);
            } else {
                assert((v + r)[m] == r[m - v.len()]);
            }
        }
    }
}

// ---------------------------------------------------------------------------
// The stream.

/// The raw chunks `raws` are cut from `lines` at the line indices `cuts`
/// (the first 0, the last the number of lines), each chunk holding the
/// lines between two cuts.
pub open spec fn chunks_cut(lines: Seq<LineIn>, cuts: Seq<int>, raws: Seq<RawChunk>) -> bool {
    &&& cuts.len() == raws.len() + 1
    &&& cuts[0] == 0
    &&& cuts[raws.len() as int] == lines.len()
    &&& forall|k: int| 0 <= k <= raws.len() ==> 0 <= #[trigger] cuts[k] <= lines.len()
    &&& forall|k: int|
        0 <= k < raws.len() ==> cuts[k] <= cuts[k + 1] && chunk_of(
            #[trigger] raws[k],
            lines,
            cuts[k],
            cuts[k + 1],
        ) && seams_ok(lines, cuts[k], cuts[k + 1])
}

/// Each compressed chunk holds its raw chunk (what `compress_chunk`
/// ensures) in blocks shorter than 2^32 bytes.
pub open spec fn chunks_compressed(raws: Seq<RawChunk>, cs: Seq<CompressedChunk>) -> bool {
    &&& cs.len() == raws.len()
    &&& forall|k: int| 0 <= k < raws.len() ==> blocks_decode_to(raws[k], #[trigger] cs[k])
    &&& forall|k: int, i: int|
        0 <= k < cs.len() && 0 <= i < 6 ==> #[trigger] chunk_blocks(cs[k])[i].len() < 0x1_0000_0000
}

#[verifier::spinoff_prover]
#[verifier::rlimit(40)]
proof fn lemma_stream_chunks(
    lines: Seq<LineIn>,
    cuts: Seq<int>,
    raws: Seq<RawChunk>,
    cs: Seq<CompressedChunk>,
    k: int,
)
    requires
        forall|q: int| 0 <= q < lines.len() ==> #[trigger] line_ok(lines[q]),
        hashes_distinguish(lines),
        lines.len() < 0x1_0000_0000,
        chunks_cut(lines, cuts, raws),
        chunks_compressed(raws, cs),
        0 <= k <= raws.len(),
    ensures
        stream_output(templates(registry_after(lines, cuts[k])), framed_from(cs, k), 0) == (
            templates(registry_after(lines, lines.len() as int)),
            lines_output(lines, cuts[k], lines.len() as int),
            Ok::<(), StzError>(()),
        ),
    decreases raws.len() - k,
{
    let n = lines.len() as int;
    let a = cuts[k];
    let st = templates(registry_after(lines, a));
    if k == raws.len() {
        assert(framed_from(cs, k) =~= Seq::<u8>::empty());
        assert(lines_output(lines, n, n) =~= Seq::<u8>::empty());
    } else {
        let b = cuts[k + 1];
        assert(0 <= cuts[k] <= n && 0 <= cuts[k + 1] <= n);
        let raw = raws[k];
        let c = cs[k];
        assert(chunk_of(raw, lines, a, b));
        assert(blocks_decode_to(raw, c));
        assert forall|i: int| 0 <= i < 6 implies #[trigger] chunk_blocks(c)[i].len() < 0x1_0000_0000 by {
            assert(chunk_blocks(cs[k])[i].len() < 0x1_0000_0000);
        }
        let rest = framed_from(cs, k + 1);
        law_stream_chunk_then_rest(st, c, rest);
        lemma_vars_concat_short(lines, a, b);
        assert forall|i: int| 0 <= i < raw.var_col@.len() implies #[trigger] encode_utf8(
            raw.var_col@[i]@,
        ).len() < 0x10000 by {
            assert(crate::codec::string_views(raw.var_col@)[i] == raw.var_col@[i]@);
        }
        law_decode_compressed_chunk(st, raw, c);
        lemma_registry_grows(lines, a, b);
        let rb = registry_after(lines, b);
        let ra = registry_after(lines, a);
        assert(rb.subrange(0, ra.len() as int) == ra);
        assert(st + crate::codec::string_views(raw.registry_delta@) =~= templates(rb)) by {
            assert forall|i: int| 0 <= i < ra.len() implies #[trigger] templates(rb)[i] == st[i] by {
                assert(rb[i] == rb.subrange(0, ra.len() as int)[i]);
            }
        }
        lemma_render_lines(lines, a, b, raw, 0);
        assert(vars_concat(lines, a, a) =~= Seq::<Seq<char>>::empty());
        lemma_stream_chunks(lines, cuts, raws, cs, k + 1);
        lemma_lines_output_split(lines, a, b, n);
    }
}

/// Parsed lines come back as written: when parsed lines (each as
/// `line_ok` describes it, their stored templates told apart by their
/// hashes, fewer than 2^32 of them) are learned one after another into a
/// registry, cut into chunks at any line indices, each chunk compressed as
/// `compress_chunk` does and framed as `write_chunk_internal` does,
/// decompressing the stream writes every line as `line_bytes` gives it, in
/// order, with the registry's templates as the template store (see
/// `law_stream_roundtrip` for the lines as read).
pub proof fn law_lines_roundtrip(
    lines: Seq<LineIn>,
    cuts: Seq<int>,
    raws: Seq<RawChunk>,
    cs: Seq<CompressedChunk>,
)
    requires
        forall|q: int| 0 <= q < lines.len() ==> #[trigger] line_ok(lines[q]),
        hashes_distinguish(lines),
        lines.len() < 0x1_0000_0000,
        chunks_cut(lines, cuts, raws),
        chunks_compressed(raws, cs),
    ensures
        stream_output(Seq::empty(), framed_from(cs, 0), 0) == (
            templates(registry_after(lines, lines.len() as int)),
            lines_output(lines, 0, lines.len() as int),
            Ok::<(), StzError>(()),
        ),
{
    lemma_stream_chunks(lines, cuts, raws, cs, 0);
    assert(templates(registry_after(lines, 0)) =~= Seq::<Seq<char>>::empty());
}

/// A line as the compressor reads it: its text (as `read_input_line` gives
/// it, without its line feed), whether a line feed ended it, and the
/// cluster the clustering step returned for it.
pub ghost struct LineText {
    pub text: Seq<char>,
    pub newline: bool,
    pub cluster: Option<Seq<char>>,
}

/// The parsed form of each line read.
pub open spec fn parsed_all(inputs: Seq<LineText>) -> Seq<LineIn> {
    inputs.map_values(|t: LineText| parsed(t.text, t.newline, t.cluster))
}

/// The bytes of lines `a..b` of the input: each line's text with its line
/// feed, escapes decoded (for a line read by `read_input_line` from bytes
/// without `__BYTE_`, exactly those bytes).
pub open spec fn input_bytes(inputs: Seq<LineText>, a: int, b: int) -> Seq<u8>
    decreases b - a,
{
    if a >= b {
        Seq::empty()
    } else {
        unescape(
            encode_utf8(
                if inputs[a].newline {
                    inputs[a].text.push('\n')
                } else {
                    inputs[a].text
                },
            ),
        )->Some_0 + input_bytes(inputs, a + 1, b)
    }
}

proof fn lemma_output_is_input(inputs: Seq<LineText>, a: int, b: int)
    requires
        0 <= a <= b <= inputs.len(),
        forall|q: int|
            0 <= q < inputs.len() ==> #[trigger] inputs[q].text.len() == 0 || inputs[q].text.last()
                != '\n',
    ensures
        lines_output(parsed_all(inputs), a, b) == input_bytes(inputs, a, b),
    decreases b - a,
{
    if a < b {
        let t = inputs[a];
        assert(t.text.len() == 0 || t.text.last() != '\n');
        law_line_written_back(t.text, t.newline, t.cluster);
        assert(parsed_all(inputs)[a] == parsed(t.text, t.newline, t.cluster));
        lemma_output_is_input(inputs, a + 1, b);
    }
}

/// Decompressing gives back the input byte for byte: when lines read from
/// the input (none ending with a line feed; each parsed, header kept only
/// where it comes back exactly, as `line_ok` describes it; their stored
/// templates told apart by their hashes; fewer than 2^32 of them) are
/// learned one after another into a registry, cut into chunks at any line
/// indices, each chunk compressed as `compress_chunk` does and framed as
/// `write_chunk_internal` does, decompressing the stream writes the input's
/// bytes, every line in order, and ends well.
pub proof fn law_stream_roundtrip(
    inputs: Seq<LineText>,
    cuts: Seq<int>,
    raws: Seq<RawChunk>,
    cs: Seq<CompressedChunk>,
)
    requires
        forall|q: int|
            0 <= q < inputs.len() ==> #[trigger] inputs[q].text.len() == 0 || inputs[q].text.last()
                != '\n',
        forall|q: int| 0 <= q < inputs.len() ==> #[trigger] line_ok(parsed_all(inputs)[q]),
        hashes_distinguish(parsed_all(inputs)),
        inputs.len() < 0x1_0000_0000,
        chunks_cut(parsed_all(inputs), cuts, raws),
        chunks_compressed(raws, cs),
    ensures
        stream_output(Seq::empty(), framed_from(cs, 0), 0).1 == input_bytes(
            inputs,
            0,
            inputs.len() as int,
        ),
        stream_output(Seq::empty(), framed_from(cs, 0), 0).2 == Ok::<(), StzError>(()),
{
    let lines = parsed_all(inputs);
    assert forall|q: int| 0 <= q < lines.len() implies #[trigger] line_ok(lines[q]) by {
        assert(line_ok(parsed_all(inputs)[q]));
    }
    law_lines_roundtrip(lines, cuts, raws, cs);
    lemma_output_is_input(inputs, 0, inputs.len() as int);
}

} // verus!
