//! Turning a raw input line (bytes, possibly not valid UTF-8) into text:
//! each byte that is not part of valid UTF-8 is written `__BYTE_XX__`.
use vstd::prelude::*;

use vstd::utf8::{
    encode_utf8, encode_utf8_valid_utf8, is_ascii_chars, is_ascii_chars_encode_utf8,
    is_char_boundary_iff_not_is_continuation_byte, is_char_boundary_start_end_of_seq,
};

use crate::decompress::{
    char_boundary, escape_candidate, escape_prefix, hex_value, is_hex_digit, prefixed_opt,
    radix16_pair, unescape, unescape_from,
};
use crate::text::{append_chars, chars_of, ends_with, ends_with_exec, slice_chars, string_of};

verus! {

/// The pieces `<[u8]>::utf8_chunks` splits bytes into: each a valid text
/// and the invalid bytes that follow it.
pub uninterp spec fn utf8_chunk_parts(b: Seq<u8>) -> Seq<(Seq<char>, Seq<u8>)>;

/// Calls `<[u8]>::utf8_chunks` and reads each chunk's valid text and
/// invalid bytes; the list is named `utf8_chunk_parts`. As `Utf8Chunk`'s
/// documentation says, each chunk's invalid bytes start after its valid
/// text and decoding resumes after them, so the chunks' bytes in order are
/// the input; and only the last chunk has no invalid bytes.
#[verifier::external_body]
fn utf8_chunks(b: &[u8]) -> (r: Vec<(String, Vec<u8>)>)
    ensures
        r@.map_values(|c: (String, Vec<u8>)| (c.0@, c.1@)) == utf8_chunk_parts(b@),
        chunk_bytes(r@.map_values(|c: (String, Vec<u8>)| (c.0@, c.1@))) == b@,
        forall|i: int| 0 <= i < r@.len() - 1 ==> #[trigger] r@[i].1@.len() > 0,
{
    let mut r = Vec::new();
    for c in b.utf8_chunks() {
        r.push((c.valid().to_string(), c.invalid().to_vec()));
    }
    r
}

/// The upper-case hex digit for a value below 16.
pub open spec fn hex_upper(d: u8) -> char {
    seq!['0', '1', '2', '3', '4', '5', '6', '7', '8', '9', 'A', 'B', 'C', 'D', 'E', 'F'][d as int]
}

/// The text standing for a byte: `__BYTE_XX__`, XX its value in upper-case hex.
pub open spec fn byte_escape(b: u8) -> Seq<char> {
    seq!['_', '_', 'B', 'Y', 'T', 'E', '_', hex_upper(b >> 4), hex_upper(b & 15), '_', '_']
}

/// The escapes of a run of invalid bytes.
pub open spec fn escapes(bytes: Seq<u8>) -> Seq<char>
    decreases bytes.len(),
{
    if bytes.len() == 0 {
        Seq::empty()
    } else {
        escapes(bytes.drop_last()) + byte_escape(bytes.last())
    }
}

/// The text of a line's chunks: each valid text followed by the escapes of
/// its invalid bytes.
pub open spec fn chunks_text(parts: Seq<(Seq<char>, Seq<u8>)>) -> Seq<char>
    decreases parts.len(),
{
    if parts.len() == 0 {
        Seq::empty()
    } else {
        chunks_text(parts.drop_last()) + parts.last().0 + escapes(parts.last().1)
    }
}

/// The text of an input line (its bytes including any final line feed),
/// and whether it ended with a line feed; the line feed is not in the text.
pub open spec fn input_line(b: Seq<u8>) -> (Seq<char>, bool) {
    let t = chunks_text(utf8_chunk_parts(b));
    if ends_with(t, seq!['\n']) {
        (t.drop_last(), true)
    } else {
        (t, false)
    }
}

const HEX_UPPER: [char; 16] = [
    '0',
    '1',
    '2',
    '3',
    '4',
    '5',
    '6',
    '7',
    '8',
    '9',
    'A',
    'B',
    'C',
    'D',
    'E',
    'F',
];

fn push_escape(out: &mut Vec<char>, b: u8)
    ensures
        final(out)@ == old(out)@ + byte_escape(b),
{
    let hex = HEX_UPPER;
    assert(hex@ == seq!['0', '1', '2', '3', '4', '5', '6', '7', '8', '9', 'A', 'B', 'C', 'D', 'E', 'F']);
    assert((b >> 4) < 16 && (b & 15) < 16) by (bit_vector);
    let hi = hex[(b >> 4) as usize];
    let lo = hex[(b & 15) as usize];
    out.push('_');
    out.push('_');
    out.push('B');
    out.push('Y');
    out.push('T');
    out.push('E');
    out.push('_');
    out.push(hi);
    out.push(lo);
    out.push('_');
    out.push('_');
    assert(final(out)@ =~= old(out)@ + byte_escape(b));
}

/// The text of an input line and whether it ended with a line feed. When
/// the line's bytes hold no `__BYTE_`, the text with its line feed put
/// back, written with its escapes decoded, gives the bytes back.
pub fn read_input_line(line: &[u8]) -> (r: (String, bool))
    ensures
        (r.0@, r.1) == input_line(line@),
        no_escape_prefix(line@) ==> unescape(
            encode_utf8(
                if r.1 {
                    r.0@.push('\n')
                } else {
                    r.0@
                },
            ),
        ) == Some(line@),
{
    let chunks = utf8_chunks(line);
    let ghost parts = chunks@.map_values(|c: (String, Vec<u8>)| (c.0@, c.1@));
    let mut text: Vec<char> = Vec::new();
    let n = chunks.len();
    for i in 0..n
        invariant
            n == chunks@.len(),
            parts == chunks@.map_values(|c: (String, Vec<u8>)| (c.0@, c.1@)),
            text@ == chunks_text(parts.take(i as int)),
    {
        let valid = chars_of(chunks[i].0.as_str());
        append_chars(&mut text, valid.as_slice());
        let invalid = &chunks[i].1;
        let ghost mid = text@;
        let m = invalid.len();
        for j in 0..m
            invariant
                m == invalid@.len(),
                text@ == mid + escapes(invalid@.take(j as int)),
        {
            push_escape(&mut text, invalid[j]);
            assert(invalid@.take(j + 1).drop_last() =~= invalid@.take(j as int));
        }
        assert(invalid@.take(m as int) =~= invalid@);
        assert(parts.take(i + 1).drop_last() =~= parts.take(i as int));
    }
    assert(parts.take(n as int) =~= parts);
    proof {
        if no_escape_prefix(line@) {
            assert forall|i: int| 0 <= i < parts.len() - 1 implies #[trigger] parts[i].1.len()
                > 0 by {
                assert(parts[i].1 == chunks@[i].1@);
            }
            lemma_parts_free(parts);
            lemma_parts_restore(parts);
        }
    }
    let nl = ['\n'];
    assert(nl@ == seq!['\n']);
    if ends_with_exec(text.as_slice(), &nl) {
        let body = slice_chars(text.as_slice(), 0, text.len() - 1);
        assert(body@ =~= text@.drop_last());
        assert(text@.subrange(text@.len() - 1, text@.len() as int)[0] == text@.last());
        assert(body@.push('\n') =~= text@);
        (string_of(body.as_slice()), true)
    } else {
        (string_of(text.as_slice()), false)
    }
}

/// Each upper-case hex digit is read back as its value.
proof fn lemma_hex_upper(d: u8)
    requires
        d < 16,
    ensures
        is_hex_digit(hex_upper(d) as u8),
        hex_value(hex_upper(d) as u8) == d,
{
    if d == 0 {
        assert(hex_upper(d) == '0');
    } else if d == 1 {
        assert(hex_upper(d) == '1');
    } else if d == 2 {
        assert(hex_upper(d) == '2');
    } else if d == 3 {
        assert(hex_upper(d) == '3');
    } else if d == 4 {
        assert(hex_upper(d) == '4');
    } else if d == 5 {
        assert(hex_upper(d) == '5');
    } else if d == 6 {
        assert(hex_upper(d) == '6');
    } else if d == 7 {
        assert(hex_upper(d) == '7');
    } else if d == 8 {
        assert(hex_upper(d) == '8');
    } else if d == 9 {
        assert(hex_upper(d) == '9');
    } else if d == 10 {
        assert(hex_upper(d) == 'A');
    } else if d == 11 {
        assert(hex_upper(d) == 'B');
    } else if d == 12 {
        assert(hex_upper(d) == 'C');
    } else if d == 13 {
        assert(hex_upper(d) == 'D');
    } else if d == 14 {
        assert(hex_upper(d) == 'E');
    } else if d == 15 {
        assert(hex_upper(d) == 'F');
    }
}

/// The bytes of a byte's escape: `__BYTE_`, two hex digits that read back
/// as the byte, `__`; all ASCII.
proof fn lemma_escape_bytes(b: u8)
    ensures
        encode_utf8(byte_escape(b)).len() == 11,
        encode_utf8(byte_escape(b)).subrange(0, 7) == escape_prefix(),
        encode_utf8(byte_escape(b))[9] == 95,
        encode_utf8(byte_escape(b))[10] == 95,
        radix16_pair(encode_utf8(byte_escape(b))[7], encode_utf8(byte_escape(b))[8]) == Some(b),
        forall|i: int| 0 <= i < 11 ==> #[trigger] encode_utf8(byte_escape(b))[i] < 128,
{
    let e = byte_escape(b);
    assert((b >> 4) < 16 && (b & 15) < 16 && b == 16 * (b >> 4) + (b & 15)) by (bit_vector);
    let hi = b >> 4;
    let lo = b & 15;
    lemma_hex_upper(hi);
    lemma_hex_upper(lo);
    let hex = seq!['0', '1', '2', '3', '4', '5', '6', '7', '8', '9', 'A', 'B', 'C', 'D', 'E', 'F'];
    assert(is_ascii_chars(e));
    is_ascii_chars_encode_utf8(e);
    let bs = encode_utf8(e);
    assert(bs =~= seq![
        95u8,
        95,
        66,
        89,
        84,
        69,
        95,
        hex[hi as int] as u8,
        hex[lo as int] as u8,
        95,
        95,
    ]);
    assert(radix16_pair(hex[hi as int] as u8, hex[lo as int] as u8) == Some(b));
    assert(bs.subrange(0, 7) =~= escape_prefix());
}

/// A byte written as its escape is read back as that byte.
pub proof fn law_byte_escape_roundtrip(b: u8)
    ensures
        unescape(encode_utf8(byte_escape(b))) == Some(seq![b]),
{
    let bs = encode_utf8(byte_escape(b));
    lemma_escape_bytes(b);
    assert(unescape_from(bs, 11, 11) == Some(Seq::<u8>::empty()));
    assert(escape_candidate(bs, 0));
    assert(char_boundary(bs, 9));
    assert(char_boundary(bs, 11));
    assert(unescape_from(bs, 0, 0) == Some(bs.subrange(0, 0) + seq![b] + Seq::<u8>::empty()));
    assert(bs.subrange(0, 0) + seq![b] + Seq::<u8>::empty() =~= seq![b]);
}

/// UTF-8 encoding is applied piece by piece.
proof fn lemma_encode_concat(a: Seq<char>, b: Seq<char>)
    ensures
        encode_utf8(a + b) == encode_utf8(a) + encode_utf8(b),
    decreases a.len(),
{
    if a.len() == 0 {
        assert(a + b =~= b);
    } else {
        lemma_encode_concat(a.drop_first(), b);
        assert((a + b).drop_first() =~= a.drop_first() + b);
        assert((a + b)[0] == a[0]);
    }
}

/// UTF-8 encoding is applied piece by piece.
pub(crate) proof fn lemma_encode_concat_pub(a: Seq<char>, b: Seq<char>)
    ensures
        encode_utf8(a + b) == encode_utf8(a) + encode_utf8(b),
{
    lemma_encode_concat(a, b);
}

/// The end of the encoding of `a` is a character boundary of the encoding
/// of `a + b`.
proof fn lemma_boundary_after(a: Seq<char>, b: Seq<char>)
    ensures
        char_boundary(encode_utf8(a + b), encode_utf8(a).len() as int),
{
    lemma_encode_concat(a, b);
    let eb = encode_utf8(b);
    if eb.len() > 0 {
        encode_utf8_valid_utf8(b);
        is_char_boundary_start_end_of_seq(eb);
        is_char_boundary_iff_not_is_continuation_byte(eb, 0);
        assert((encode_utf8(a) + eb)[encode_utf8(a).len() as int] == eb[0]);
    }
}

/// The escapes of a run of bytes, from the front.
proof fn lemma_escapes_front(inv: Seq<u8>)
    requires
        inv.len() >= 1,
    ensures
        escapes(inv) == byte_escape(inv[0]) + escapes(inv.drop_first()),
    decreases inv.len(),
{
    let dl = inv.drop_last();
    if dl.len() == 0 {
        assert(inv.drop_first() =~= Seq::<u8>::empty());
        assert(escapes(dl) =~= Seq::<char>::empty());
        assert(byte_escape(inv[0]) + Seq::<char>::empty() =~= byte_escape(inv[0]));
    } else {
        lemma_escapes_front(dl);
        assert(dl.drop_first() =~= inv.drop_first().drop_last());
        assert(inv.drop_first().last() == inv.last());
        assert(escapes(inv) =~= byte_escape(inv[0]) + (escapes(dl.drop_first()) + byte_escape(
            inv.last(),
        )));
    }
}

/// The escapes of `n` bytes take `11 * n` bytes.
proof fn lemma_escapes_len(inv: Seq<u8>)
    ensures
        encode_utf8(escapes(inv)).len() == 11 * inv.len(),
    decreases inv.len(),
{
    if inv.len() > 0 {
        lemma_escapes_len(inv.drop_last());
        lemma_encode_concat(escapes(inv.drop_last()), byte_escape(inv.last()));
        lemma_escape_bytes(inv.last());
    }
}

/// `b` holds no `__BYTE_`.
pub open spec fn no_escape_prefix(b: Seq<u8>) -> bool {
    forall|j: int| 0 <= j && j + 7 <= b.len() ==> #[trigger] b.subrange(j, j + 7) != escape_prefix()
}

/// Positions where no escape is decoded are passed over.
proof fn lemma_scan_plain(b: Seq<u8>, p: int, q: int, last: int)
    requires
        0 <= last <= p <= q <= b.len(),
        forall|r: int|
            p <= r < q ==> !#[trigger] escape_candidate(b, r) || (char_boundary(b, r + 9)
                && char_boundary(b, r + 11) && !(b[r + 9] == 95 && b[r + 10] == 95 && radix16_pair(
                b[r + 7],
                b[r + 8],
            ) is Some)),
    ensures
        unescape_from(b, p, last) == unescape_from(b, q, last),
    decreases q - p,
{
    if p < q {
        assert(p < b.len());
        if escape_candidate(b, p) {
        }
        lemma_scan_plain(b, p + 1, q, last);
    }
}

/// A run of escapes is decoded into the bytes it stands for.
proof fn lemma_scan_escapes(b: Seq<u8>, q: int, last: int, inv: Seq<u8>)
    requires
        0 <= last <= q,
        inv.len() >= 1,
        q + 11 * inv.len() <= b.len(),
        b.subrange(q, q + 11 * inv.len()) == encode_utf8(escapes(inv)),
        char_boundary(b, q + 11 * inv.len()),
    ensures
        unescape_from(b, q, last) == prefixed_opt(
            b.subrange(last, q) + inv,
            unescape_from(b, q + 11 * inv.len(), q + 11 * inv.len()),
        ),
    decreases inv.len(),
{
    let rest = inv.drop_first();
    lemma_escapes_front(inv);
    lemma_encode_concat(byte_escape(inv[0]), escapes(rest));
    lemma_escape_bytes(inv[0]);
    lemma_escapes_len(rest);
    let e = encode_utf8(byte_escape(inv[0]));
    assert(b.subrange(q, q + 11) =~= e) by {
        assert(b.subrange(q, q + 11) =~= b.subrange(q, q + 11 * inv.len()).subrange(0, 11));
    }
    assert(b.subrange(q, q + 7) =~= e.subrange(0, 7));
    assert(b[q + 7] == e[7] && b[q + 8] == e[8] && b[q + 9] == e[9] && b[q + 10] == e[10]);
    assert(escape_candidate(b, q));
    assert(char_boundary(b, q + 9)) by {
        assert(e[9] < 128);
    }
    if rest.len() == 0 {
        assert(inv =~= seq![inv[0]]);
    } else {
        lemma_escape_bytes(rest[0]);
        lemma_escapes_front(rest);
        lemma_encode_concat(byte_escape(rest[0]), escapes(rest.drop_first()));
        assert(b.subrange(q + 11, q + 11 * inv.len()) =~= encode_utf8(escapes(rest))) by {
            assert(b.subrange(q + 11, q + 11 * inv.len()) =~= b.subrange(q, q + 11 * inv.len()).subrange(
                11,
                11 * inv.len() as int,
            ));
        }
        assert(b[q + 11] == encode_utf8(escapes(rest))[0]);
        assert(encode_utf8(escapes(rest))[0] == encode_utf8(byte_escape(rest[0]))[0]);
        assert(char_boundary(b, q + 11)) by {
            assert(encode_utf8(byte_escape(rest[0]))[0] < 128);
        }
        lemma_scan_escapes(b, q + 11, q + 11, rest);
        assert(b.subrange(q + 11, q + 11) =~= Seq::<u8>::empty());
        assert(Seq::<u8>::empty() + rest =~= rest);
        assert(inv =~= seq![inv[0]] + rest);
        match unescape_from(b, q + 11 * inv.len(), q + 11 * inv.len()) {
            Some(t) => {
                assert(b.subrange(last, q) + seq![inv[0]] + (rest + t) =~= b.subrange(last, q) + inv
                    + t);
            },
            None => {},
        }
    }
}

/// Bytes in front do not change what a scan from past them gives.
proof fn lemma_unescape_shift(pre: Seq<u8>, r: Seq<u8>, p: int, last: int)
    requires
        0 <= last <= p <= r.len(),
    ensures
        unescape_from(pre + r, pre.len() + p, pre.len() + last) == unescape_from(r, p, last),
    decreases r.len() - p,
{
    let b = pre + r;
    let o = pre.len() as int;
    if p >= r.len() {
        assert(b.subrange(o + last, b.len() as int) =~= r.subrange(last, r.len() as int));
    } else {
        if p + 11 <= r.len() {
            assert(b.subrange(o + p, o + p + 7) =~= r.subrange(p, p + 7));
        }
        assert(escape_candidate(b, o + p) == escape_candidate(r, p));
        if escape_candidate(r, p) {
            assert(b[o + p + 7] == r[p + 7] && b[o + p + 8] == r[p + 8]);
            assert(b[o + p + 9] == r[p + 9] && b[o + p + 10] == r[p + 10]);
            assert(char_boundary(b, o + p + 9) == char_boundary(r, p + 9));
            assert(char_boundary(b, o + p + 11) == char_boundary(r, p + 11));
            lemma_unescape_shift(pre, r, p + 11, p + 11);
            assert(b.subrange(o + last, o + p) =~= r.subrange(last, p));
        }
        lemma_unescape_shift(pre, r, p + 1, last);
    }
}

/// The bytes of a line's pieces: each valid text's UTF-8 followed by its
/// invalid bytes.
pub open spec fn chunk_bytes(parts: Seq<(Seq<char>, Seq<u8>)>) -> Seq<u8>
    decreases parts.len(),
{
    if parts.len() == 0 {
        Seq::empty()
    } else {
        chunk_bytes(parts.drop_last()) + encode_utf8(parts.last().0) + parts.last().1
    }
}

/// The text and the bytes of a line's pieces, from the front.
proof fn lemma_parts_front(parts: Seq<(Seq<char>, Seq<u8>)>)
    requires
        parts.len() >= 1,
    ensures
        chunks_text(parts) == parts[0].0 + escapes(parts[0].1) + chunks_text(parts.drop_first()),
        chunk_bytes(parts) == encode_utf8(parts[0].0) + parts[0].1 + chunk_bytes(
            parts.drop_first(),
        ),
    decreases parts.len(),
{
    let dl = parts.drop_last();
    let df = parts.drop_first();
    if dl.len() == 0 {
        assert(df =~= Seq::<(Seq<char>, Seq<u8>)>::empty());
        assert(chunks_text(dl) =~= Seq::<char>::empty());
        assert(chunk_bytes(dl) =~= Seq::<u8>::empty());
        assert(chunks_text(parts) =~= parts[0].0 + escapes(parts[0].1) + Seq::<char>::empty());
        assert(chunk_bytes(parts) =~= encode_utf8(parts[0].0) + parts[0].1 + Seq::<u8>::empty());
    } else {
        lemma_parts_front(dl);
        assert(dl.drop_first() =~= df.drop_last());
        assert(df.last() == parts.last());
        assert(dl[0] == parts[0]);
        assert(chunks_text(parts) =~= parts[0].0 + escapes(parts[0].1) + (chunks_text(
            dl.drop_first(),
        ) + parts.last().0 + escapes(parts.last().1)));
        assert(chunk_bytes(parts) =~= encode_utf8(parts[0].0) + parts[0].1 + (chunk_bytes(
            dl.drop_first(),
        ) + encode_utf8(parts.last().0) + parts.last().1));
    }
}


/// Scanning a piece's valid text (holding no `__BYTE_`) decodes nothing:
/// an escape prefix can only start in it just before the next escape,
/// and is not followed by hex digits there.
proof fn lemma_valid_text_passed(v: Seq<char>, inv: Seq<u8>, tr: Seq<char>)
    requires
        no_escape_prefix(encode_utf8(v)),
        inv.len() > 0 || tr.len() == 0,
    ensures
        unescape_from(encode_utf8(v + escapes(inv) + tr), 0, 0) == unescape_from(
            encode_utf8(v + escapes(inv) + tr),
            encode_utf8(v).len() as int,
            0,
        ),
{
    let ev = encode_utf8(v);
    let e = encode_utf8(escapes(inv));
    let y = encode_utf8(tr);
    lemma_encode_concat(v, escapes(inv));
    lemma_encode_concat(v + escapes(inv), tr);
    let x = encode_utf8(v + escapes(inv) + tr);
    assert(x == ev + e + y);
    lemma_escapes_len(inv);
    let n = ev.len() as int;
        assert(no_escape_prefix(ev));
        if inv.len() > 0 {
            lemma_escapes_front(inv);
            lemma_encode_concat(byte_escape(inv[0]), escapes(inv.drop_first()));
            lemma_escape_bytes(inv[0]);
        }
        assert forall|r: int| 0 <= r < n implies !#[trigger] escape_candidate(x, r) || (
        char_boundary(x, r + 9) && char_boundary(x, r + 11) && !(x[r + 9] == 95 && x[r + 10] == 95
            && radix16_pair(x[r + 7], x[r + 8]) is Some)) by {
            if escape_candidate(x, r) {
                if r + 7 <= n {
                    assert(x.subrange(r, r + 7) =~= ev.subrange(r, r + 7));
                } else {
                    if inv.len() == 0 {
                        assert(y =~= Seq::<u8>::empty());
                        assert(x.len() == n);
                    } else {
                        let e0 = encode_utf8(byte_escape(inv[0]));
                        assert(forall|i: int| 0 <= i < 11 ==> x[n + i] == #[trigger] e0[i]) by {
                            assert forall|i: int| 0 <= i < 11 implies x[n + i] == #[trigger] e0[i] by {
                                assert(x[n + i] == e[i]);
                                assert(e[i] == e0[i]);
                            }
                        }
                        assert(e0[0] == escape_prefix()[0] && e0[1] == escape_prefix()[1]
                            && e0[2] == escape_prefix()[2] && e0[3] == escape_prefix()[3]) by {
                            assert(e0.subrange(0, 7)[0] == e0[0]);
                            assert(e0.subrange(0, 7)[1] == e0[1]);
                            assert(e0.subrange(0, 7)[2] == e0[2]);
                            assert(e0.subrange(0, 7)[3] == e0[3]);
                        }
                        let w = x.subrange(r, r + 7);
                        assert(w == escape_prefix());
                        let d = n - r;
                        assert(w[d] == x[n]);
                        if d == 1 {
                            assert(w[2] == x[n + 1]);
                        } else if d == 6 {
                            assert(x[r + 7] == e0[1] && x[r + 8] == e0[2]);
                            assert(radix16_pair(95, 66) is None);
                            assert(x[r + 9] == e0[3] && x[r + 11] == e0[5]);
                            assert(e0[3] < 128 && e0[5] < 128);
                        }
                    }
                }
            }
        }
        lemma_scan_plain(x, 0, n, 0);
}

/// The text of a line's pieces, written with its escapes decoded, gives
/// back the pieces' bytes, when every piece but the last has invalid bytes
/// and no valid text holds `__BYTE_`.
proof fn lemma_parts_restore(parts: Seq<(Seq<char>, Seq<u8>)>)
    requires
        forall|i: int| 0 <= i < parts.len() - 1 ==> #[trigger] parts[i].1.len() > 0,
        forall|i: int| 0 <= i < parts.len() ==> no_escape_prefix(encode_utf8(#[trigger] parts[i].0)),
    ensures
        unescape(encode_utf8(chunks_text(parts))) == Some(chunk_bytes(parts)),
    decreases parts.len(),
{
    if parts.len() == 0 {
        assert(encode_utf8(chunks_text(parts)) =~= Seq::<u8>::empty());
        assert(Seq::<u8>::empty().subrange(0, 0) =~= Seq::<u8>::empty());
    } else {
        let v = parts[0].0;
        let inv = parts[0].1;
        let rest = parts.drop_first();
        let tr = chunks_text(rest);
        lemma_parts_front(parts);
        let ev = encode_utf8(v);
        let e = encode_utf8(escapes(inv));
        let y = encode_utf8(tr);
        lemma_encode_concat(v, escapes(inv));
        lemma_encode_concat(v + escapes(inv), tr);
        let x = encode_utf8(chunks_text(parts));
        assert(x == ev + e + y);
        lemma_escapes_len(inv);
        let n = ev.len() as int;
        lemma_valid_text_passed(v, inv, tr);
        if inv.len() == 0 {
            assert(rest.len() == 0);
            assert(tr =~= Seq::<char>::empty());
            assert(chunk_bytes(rest) =~= Seq::<u8>::empty());
            assert(x =~= ev);
            assert(x.subrange(0, n) =~= ev);
            assert(chunk_bytes(parts) =~= ev);
        } else {
            lemma_boundary_after(v + escapes(inv), tr);
            assert(x.subrange(n, n + 11 * inv.len()) =~= e);
            lemma_scan_escapes(x, n, 0, inv);
            assert(x =~= (ev + e) + y);
            lemma_unescape_shift(ev + e, y, 0, 0);
            assert forall|i: int| 0 <= i < rest.len() - 1 implies #[trigger] rest[i].1.len() > 0 by {
                assert(rest[i] == parts[i + 1]);
            }
            assert forall|i: int| 0 <= i < rest.len() implies no_escape_prefix(
                encode_utf8(#[trigger] rest[i].0),
            ) by {
                assert(rest[i] == parts[i + 1]);
            }
            lemma_parts_restore(rest);
            assert(x.subrange(0, n) =~= ev);
            assert(ev + inv + chunk_bytes(rest) =~= chunk_bytes(parts));
        }
    }
}

/// A line's bytes holding no `__BYTE_` means no piece's valid text holds it.
proof fn lemma_parts_free(parts: Seq<(Seq<char>, Seq<u8>)>)
    requires
        no_escape_prefix(chunk_bytes(parts)),
    ensures
        forall|i: int| 0 <= i < parts.len() ==> no_escape_prefix(encode_utf8(#[trigger] parts[i].0)),
    decreases parts.len(),
{
    if parts.len() > 0 {
        lemma_parts_front(parts);
        let ev = encode_utf8(parts[0].0);
        let rest = parts.drop_first();
        let all = chunk_bytes(parts);
        assert(all == ev + parts[0].1 + chunk_bytes(rest));
        assert forall|j: int| 0 <= j && j + 7 <= ev.len() implies #[trigger] ev.subrange(j, j + 7)
            != escape_prefix() by {
            assert(ev.subrange(j, j + 7) =~= all.subrange(j, j + 7));
        }
        let o = ev.len() + parts[0].1.len();
        let cr = chunk_bytes(rest);
        assert forall|j: int| 0 <= j && j + 7 <= cr.len() implies #[trigger] cr.subrange(j, j + 7)
            != escape_prefix() by {
            assert(cr.subrange(j, j + 7) =~= all.subrange(o + j, o + j + 7));
        }
        lemma_parts_free(rest);
        assert forall|i: int| 0 <= i < parts.len() implies no_escape_prefix(
            encode_utf8(#[trigger] parts[i].0),
        ) by {
            if i > 0 {
                assert(parts[i] == rest[i - 1]);
            }
        }
    }
}

} // verus!
