//! Byte encodings of the columns of a chunk: little-endian integers,
//! delta-encoded timestamps, template ids, length-prefixed variables and
//! bit-packed newline flags, with their decoders.
use vstd::prelude::*;

use vstd::utf8::{decode_utf8, encode_utf8, encode_utf8_decode_utf8, encode_utf8_valid_utf8, valid_utf8};
use vstd::wrapping::u64_specs::{wrapping_add, wrapping_sub};

verus! {

/// The 2 little-endian bytes of `x`.
pub open spec fn le_u16(x: u16) -> Seq<u8> {
    seq![x as u8, (x >> 8) as u8]
}

/// The 4 little-endian bytes of `x`.
pub open spec fn le_u32(x: u32) -> Seq<u8> {
    seq![x as u8, (x >> 8) as u8, (x >> 16) as u8, (x >> 24) as u8]
}

/// The 8 little-endian bytes of `x`.
pub open spec fn le_u64(x: u64) -> Seq<u8> {
    seq![
        x as u8,
        (x >> 8) as u8,
        (x >> 16) as u8,
        (x >> 24) as u8,
        (x >> 32) as u8,
        (x >> 40) as u8,
        (x >> 48) as u8,
        (x >> 56) as u8,
    ]
}

/// The little-endian `u16` at index `i` of `b`.
pub open spec fn u16_at(b: Seq<u8>, i: int) -> u16 {
    (b[i] as u16) | ((b[i + 1] as u16) << 8)
}

/// The little-endian `u32` at index `i` of `b`.
pub open spec fn u32_at(b: Seq<u8>, i: int) -> u32 {
    (b[i] as u32) | ((b[i + 1] as u32) << 8) | ((b[i + 2] as u32) << 16) | ((b[i + 3] as u32)
        << 24)
}

/// The little-endian `u64` at index `i` of `b`.
pub open spec fn u64_at(b: Seq<u8>, i: int) -> u64 {
    (b[i] as u64) | ((b[i + 1] as u64) << 8) | ((b[i + 2] as u64) << 16) | ((b[i + 3] as u64)
        << 24) | ((b[i + 4] as u64) << 32) | ((b[i + 5] as u64) << 40) | ((b[i + 6] as u64)
        << 48) | ((b[i + 7] as u64) << 56)
}

/// Reading back the little-endian bytes of a `u16` gives it back.
pub proof fn lemma_le_u16(x: u16)
    ensures
        u16_at(le_u16(x), 0) == x,
{
    let b = le_u16(x);
    assert(b[0] == x as u8 && b[1] == (x >> 8) as u8);
    assert(((x as u8) as u16) | ((((x >> 8) as u8) as u16) << 8) == x) by (bit_vector);
}

/// Reading back the little-endian bytes of a `u32` gives it back.
pub proof fn lemma_le_u32(x: u32)
    ensures
        u32_at(le_u32(x), 0) == x,
{
    let b = le_u32(x);
    assert(b[0] == x as u8 && b[1] == (x >> 8) as u8 && b[2] == (x >> 16) as u8 && b[3] == (x
        >> 24) as u8);
    assert(((x as u8) as u32) | ((((x >> 8) as u8) as u32) << 8) | ((((x >> 16) as u8) as u32)
        << 16) | ((((x >> 24) as u8) as u32) << 24) == x) by (bit_vector);
}

/// Reading back the little-endian bytes of a `u64` gives it back.
pub proof fn lemma_le_u64(x: u64)
    ensures
        u64_at(le_u64(x), 0) == x,
{
    let b = le_u64(x);
    assert(b[0] == x as u8 && b[1] == (x >> 8) as u8 && b[2] == (x >> 16) as u8 && b[3] == (x
        >> 24) as u8 && b[4] == (x >> 32) as u8 && b[5] == (x >> 40) as u8 && b[6] == (x >> 48) as u8
        && b[7] == (x >> 56) as u8);
    assert(((x as u8) as u64) | ((((x >> 8) as u8) as u64) << 8) | ((((x >> 16) as u8) as u64)
        << 16) | ((((x >> 24) as u8) as u64) << 24) | ((((x >> 32) as u8) as u64) << 32) | ((((x
        >> 40) as u8) as u64) << 40) | ((((x >> 48) as u8) as u64) << 48) | ((((x >> 56) as u8)
        as u64) << 56) == x) by (bit_vector);
}

/// Appends the little-endian bytes of `x`.
pub fn push_u16(out: &mut Vec<u8>, x: u16)
    ensures
        final(out)@ == old(out)@ + le_u16(x),
{
    out.push(x as u8);
    out.push((x >> 8) as u8);
    assert(final(out)@ =~= old(out)@ + le_u16(x));
}

/// Appends the little-endian bytes of `x`.
pub fn push_u32(out: &mut Vec<u8>, x: u32)
    ensures
        final(out)@ == old(out)@ + le_u32(x),
{
    out.push(x as u8);
    out.push((x >> 8) as u8);
    out.push((x >> 16) as u8);
    out.push((x >> 24) as u8);
    assert(final(out)@ =~= old(out)@ + le_u32(x));
}

/// Appends the little-endian bytes of `x`.
pub fn push_u64(out: &mut Vec<u8>, x: u64)
    ensures
        final(out)@ == old(out)@ + le_u64(x),
{
    out.push(x as u8);
    out.push((x >> 8) as u8);
    out.push((x >> 16) as u8);
    out.push((x >> 24) as u8);
    out.push((x >> 32) as u8);
    out.push((x >> 40) as u8);
    out.push((x >> 48) as u8);
    out.push((x >> 56) as u8);
    assert(final(out)@ =~= old(out)@ + le_u64(x));
}

/// The little-endian `u16` at index `i`.
pub fn read_u16(b: &[u8], i: usize) -> (x: u16)
    requires
        i + 2 <= b@.len(),
    ensures
        x == u16_at(b@, i as int),
{
    (b[i] as u16) | ((b[i + 1] as u16) << 8)
}

/// The little-endian `u32` at index `i`.
pub fn read_u32(b: &[u8], i: usize) -> (x: u32)
    requires
        i + 4 <= b@.len(),
    ensures
        x == u32_at(b@, i as int),
{
    (b[i] as u32) | ((b[i + 1] as u32) << 8) | ((b[i + 2] as u32) << 16) | ((b[i + 3] as u32)
        << 24)
}

/// The little-endian `u64` at index `i`.
pub fn read_u64(b: &[u8], i: usize) -> (x: u64)
    requires
        i + 8 <= b@.len(),
    ensures
        x == u64_at(b@, i as int),
{
    (b[i] as u64) | ((b[i + 1] as u64) << 8) | ((b[i + 2] as u64) << 16) | ((b[i + 3] as u64)
        << 24) | ((b[i + 4] as u64) << 32) | ((b[i + 5] as u64) << 40) | ((b[i + 6] as u64) << 48)
        | ((b[i + 7] as u64) << 56)
}

// ---------------------------------------------------------------------------
// Timestamps: the first as an absolute value, then each as the difference
// from the one before, taken modulo 2^64 (the bit pattern of the `i64`
// difference).

/// The timestamp column's bytes.
pub open spec fn ts_bytes(ts: Seq<u64>) -> Seq<u8>
    decreases ts.len(),
{
    if ts.len() == 0 {
        Seq::empty()
    } else if ts.len() == 1 {
        le_u64(ts[0])
    } else {
        ts_bytes(ts.drop_last()) + le_u64(wrapping_sub(ts.last(), ts[ts.len() - 2]))
    }
}

/// The first `n` timestamps decoded from `b`.
pub open spec fn ts_decode_n(b: Seq<u8>, n: nat) -> Seq<u64>
    decreases n,
{
    if n == 0 {
        Seq::empty()
    } else if n == 1 {
        seq![u64_at(b, 0)]
    } else {
        let prev = ts_decode_n(b, (n - 1) as nat);
        prev.push(wrapping_add(prev.last(), u64_at(b, 8 * (n - 1))))
    }
}

/// The timestamps decoded from a column's bytes: one per whole 8 bytes; a
/// trailing partial group is ignored.
pub open spec fn ts_decode(b: Seq<u8>) -> Seq<u64> {
    ts_decode_n(b, b.len() / 8)
}

/// The bytes of the difference that encodes timestamp `j`.
pub open spec fn ts_word(ts: Seq<u64>, j: int) -> u64 {
    if j == 0 {
        ts[0]
    } else {
        wrapping_sub(ts[j], ts[j - 1])
    }
}

proof fn lemma_ts_bytes_layout(ts: Seq<u64>)
    ensures
        ts_bytes(ts).len() == 8 * ts.len(),
        forall|j: int|
            0 <= j < ts.len() ==> #[trigger] ts_bytes(ts).subrange(8 * j, 8 * j + 8) == le_u64(
                ts_word(ts, j),
            ),
    decreases ts.len(),
{
    if ts.len() == 0 {
    } else if ts.len() == 1 {
        assert(ts_bytes(ts).subrange(0, 8) =~= le_u64(ts[0]));
    } else {
        let init = ts.drop_last();
        lemma_ts_bytes_layout(init);
        let n = ts.len() - 1;
        let w = le_u64(wrapping_sub(ts.last(), ts[ts.len() - 2]));
        assert forall|j: int| 0 <= j < ts.len() implies #[trigger] ts_bytes(ts).subrange(
            8 * j,
            8 * j + 8,
        ) == le_u64(ts_word(ts, j)) by {
            if j < n {
                assert(ts_bytes(init).subrange(8 * j, 8 * j + 8) == le_u64(ts_word(init, j)));
                assert(ts_bytes(ts).subrange(8 * j, 8 * j + 8) =~= ts_bytes(init).subrange(
                    8 * j,
                    8 * j + 8,
                ));
                assert(ts_word(init, j) == ts_word(ts, j));
            } else {
                assert(ts_bytes(ts).subrange(8 * j, 8 * j + 8) =~= w);
            }
        }
    }
}

proof fn lemma_u64_at_layout(b: Seq<u8>, j: int, x: u64)
    requires
        0 <= j,
        8 * j + 8 <= b.len(),
        b.subrange(8 * j, 8 * j + 8) == le_u64(x),
    ensures
        u64_at(b, 8 * j) == x,
{
    lemma_le_u64(x);
    let s = b.subrange(8 * j, 8 * j + 8);
    assert(u64_at(b, 8 * j) == u64_at(s, 0));
}

/// Decoding the timestamp column's bytes gives the timestamps back.
pub proof fn law_timestamps_roundtrip(ts: Seq<u64>)
    ensures
        ts_decode(ts_bytes(ts)) == ts,
{
    let b = ts_bytes(ts);
    lemma_ts_bytes_layout(ts);
    assert(b.len() / 8 == ts.len()) by (nonlinear_arith)
        requires
            b.len() == 8 * ts.len(),
    ;
    lemma_ts_decode_prefix(ts, ts.len());
    assert(ts.take(ts.len() as int) == ts);
}

proof fn lemma_ts_decode_prefix(ts: Seq<u64>, n: nat)
    requires
        n <= ts.len(),
        ts_bytes(ts).len() == 8 * ts.len(),
        forall|j: int|
            0 <= j < ts.len() ==> #[trigger] ts_bytes(ts).subrange(8 * j, 8 * j + 8) == le_u64(
                ts_word(ts, j),
            ),
    ensures
        ts_decode_n(ts_bytes(ts), n) == ts.take(n as int),
    decreases n,
{
    let b = ts_bytes(ts);
    if n == 0 {
        assert(ts.take(0) =~= Seq::<u64>::empty());
    } else if n == 1 {
        let j0: int = 0;
        assert(b.subrange(8 * j0, 8 * j0 + 8) == le_u64(ts_word(ts, j0)));
        lemma_u64_at_layout(b, 0, ts[0]);
        assert(ts.take(1) =~= seq![ts[0]]);
    } else {
        lemma_ts_decode_prefix(ts, (n - 1) as nat);
        let j = n - 1;
        assert(b.subrange(8 * j, 8 * j + 8) == le_u64(ts_word(ts, j)));
        lemma_u64_at_layout(b, j, ts_word(ts, j));
        let prev = ts.take(j);
        assert(prev.last() == ts[j - 1]);
        let a = ts[j - 1];
        let c = ts[j];
        assert(wrapping_add(a, wrapping_sub(c, a)) == c);
        assert(ts.take(n as int) =~= prev.push(c));
    }
}

/// The timestamp column's bytes.
pub fn encode_timestamps(ts: &[u64]) -> (out: Vec<u8>)
    ensures
        out@ == ts_bytes(ts@),
{
    let mut out: Vec<u8> = Vec::new();
    let n = ts.len();
    if n == 0 {
        return out;
    }
    push_u64(&mut out, ts[0]);
    assert(ts@.take(1).drop_last() =~= Seq::<u64>::empty());
    assert(out@ == ts_bytes(ts@.take(1)));
    let mut prev = ts[0];
    for i in 1..n
        invariant
            n == ts@.len(),
            n >= 1,
            prev == ts@[i - 1],
            out@ == ts_bytes(ts@.take(i as int)),
    {
        let t = ts[i];
        let delta = t.wrapping_sub(prev);
        push_u64(&mut out, delta);
        let ghost s = ts@.take(i + 1);
        assert(s.drop_last() =~= ts@.take(i as int));
        assert(s.last() == t && s[s.len() - 2] == prev);
        prev = t;
    }
    assert(ts@.take(n as int) =~= ts@);
    out
}

/// The timestamps decoded from a column's bytes.
pub fn decode_timestamps(b: &[u8]) -> (ts: Vec<u64>)
    ensures
        ts@ == ts_decode(b@),
{
    let mut ts: Vec<u64> = Vec::new();
    let n = b.len() / 8;
    if n == 0 {
        return ts;
    }
    let first = read_u64(b, 0);
    ts.push(first);
    let mut prev = first;
    let mut k: usize = 1;
    while k < n
        invariant
            n == b@.len() / 8,
            1 <= k <= n,
            ts@ == ts_decode_n(b@, k as nat),
            prev == ts@.last(),
        decreases n - k,
    {
        assert(8 * k + 8 <= b@.len()) by (nonlinear_arith)
            requires
                k < n,
                n == b@.len() / 8,
        ;
        assert(8 * k + 8 <= b.len());
        let delta = read_u64(b, 8 * k);
        let t = prev.wrapping_add(delta);
        ts.push(t);
        prev = t;
        k = k + 1;
    }
    ts
}

// ---------------------------------------------------------------------------
// Template ids: 4 little-endian bytes each.

/// The id column's bytes.
pub open spec fn ids_bytes(ids: Seq<u32>) -> Seq<u8>
    decreases ids.len(),
{
    if ids.len() == 0 {
        Seq::empty()
    } else {
        ids_bytes(ids.drop_last()) + le_u32(ids.last())
    }
}

/// The ids decoded from a column's bytes: one per whole 4 bytes.
pub open spec fn ids_decode(b: Seq<u8>) -> Seq<u32> {
    Seq::new(b.len() / 4, |j: int| u32_at(b, 4 * j))
}

proof fn lemma_ids_bytes_layout(ids: Seq<u32>)
    ensures
        ids_bytes(ids).len() == 4 * ids.len(),
        forall|j: int|
            0 <= j < ids.len() ==> #[trigger] ids_bytes(ids).subrange(4 * j, 4 * j + 4) == le_u32(
                ids[j],
            ),
    decreases ids.len(),
{
    if ids.len() > 0 {
        let init = ids.drop_last();
        lemma_ids_bytes_layout(init);
        assert forall|j: int| 0 <= j < ids.len() implies #[trigger] ids_bytes(ids).subrange(
            4 * j,
            4 * j + 4,
        ) == le_u32(ids[j]) by {
            if j < init.len() {
                assert(ids_bytes(init).subrange(4 * j, 4 * j + 4) == le_u32(init[j]));
                assert(ids_bytes(ids).subrange(4 * j, 4 * j + 4) =~= ids_bytes(init).subrange(
                    4 * j,
                    4 * j + 4,
                ));
            } else {
                assert(ids_bytes(ids).subrange(4 * j, 4 * j + 4) =~= le_u32(ids.last()));
            }
        }
    }
}

/// Decoding the id column's bytes gives the ids back.
pub proof fn law_ids_roundtrip(ids: Seq<u32>)
    ensures
        ids_decode(ids_bytes(ids)) == ids,
{
    let b = ids_bytes(ids);
    lemma_ids_bytes_layout(ids);
    assert(b.len() / 4 == ids.len()) by (nonlinear_arith)
        requires
            b.len() == 4 * ids.len(),
    ;
    assert forall|j: int| 0 <= j < ids.len() implies #[trigger] ids_decode(b)[j] == ids[j] by {
        let s = b.subrange(4 * j, 4 * j + 4);
        assert(s == le_u32(ids[j]));
        lemma_le_u32(ids[j]);
        assert(u32_at(b, 4 * j) == u32_at(s, 0));
    }
    assert(ids_decode(b) =~= ids);
}

/// The id column's bytes.
pub fn encode_ids(ids: &[u32]) -> (out: Vec<u8>)
    ensures
        out@ == ids_bytes(ids@),
{
    let mut out: Vec<u8> = Vec::new();
    let n = ids.len();
    for i in 0..n
        invariant
            n == ids@.len(),
            out@ == ids_bytes(ids@.take(i as int)),
    {
        push_u32(&mut out, ids[i]);
        assert(ids@.take(i + 1).drop_last() =~= ids@.take(i as int));
    }
    assert(ids@.take(n as int) =~= ids@);
    out
}

/// The ids decoded from a column's bytes.
pub fn decode_ids(b: &[u8]) -> (ids: Vec<u32>)
    ensures
        ids@ == ids_decode(b@),
{
    let mut ids: Vec<u32> = Vec::new();
    let n = b.len() / 4;
    for k in 0..n
        invariant
            n == b@.len() / 4,
            ids@ =~= Seq::new(k as nat, |j: int| u32_at(b@, 4 * j)),
    {
        assert(4 * k + 4 <= b@.len()) by (nonlinear_arith)
            requires
                k < n,
                n == b@.len() / 4,
        ;
        assert(4 * k + 4 <= b.len());
        let x = read_u32(b, 4 * k);
        ids.push(x);
    }
    ids
}

// ---------------------------------------------------------------------------
// Variables: each as its UTF-8 length (2 little-endian bytes, the length
// taken modulo 2^16) followed by its UTF-8 bytes.

/// What `String::from_utf8_lossy` gives for bytes that are not valid UTF-8.
pub uninterp spec fn utf8_lossy(b: Seq<u8>) -> Seq<char>;

/// The text `String::from_utf8_lossy` gives for `b`: the decoded characters
/// when `b` is valid UTF-8.
pub open spec fn lossy_text(b: Seq<u8>) -> Seq<char> {
    if valid_utf8(b) {
        decode_utf8(b)
    } else {
        utf8_lossy(b)
    }
}

/// Calls `String::from_utf8_lossy`: for valid UTF-8 it decodes the bytes;
/// for other bytes its result is named `utf8_lossy`.
#[verifier::external_body]
pub(crate) fn from_utf8_lossy(b: &[u8]) -> (s: String)
    ensures
        valid_utf8(b@) ==> s@ == decode_utf8(b@),
        !valid_utf8(b@) ==> s@ == utf8_lossy(b@),
{
    String::from_utf8_lossy(b).into_owned()
}

/// One variable's record.
pub open spec fn var_record(v: Seq<char>) -> Seq<u8> {
    le_u16(encode_utf8(v).len() as u16) + encode_utf8(v)
}

/// The variable column's bytes.
pub open spec fn vars_bytes(vars: Seq<Seq<char>>) -> Seq<u8>
    decreases vars.len(),
{
    if vars.len() == 0 {
        Seq::empty()
    } else {
        var_record(vars[0]) + vars_bytes(vars.drop_first())
    }
}

/// The variables decoded from index `pos` of a column's bytes; decoding
/// stops at a record whose length runs past the end.
pub open spec fn vars_decode_from(b: Seq<u8>, pos: int) -> Seq<Seq<char>>
    decreases b.len() - pos,
{
    if pos < 0 || pos + 2 > b.len() {
        Seq::empty()
    } else {
        let len = u16_at(b, pos) as int;
        if pos + 2 + len > b.len() {
            Seq::empty()
        } else {
            seq![lossy_text(b.subrange(pos + 2, pos + 2 + len))] + vars_decode_from(
                b,
                pos + 2 + len,
            )
        }
    }
}

/// The variables decoded from a column's bytes.
pub open spec fn vars_decode(b: Seq<u8>) -> Seq<Seq<char>> {
    vars_decode_from(b, 0)
}

proof fn lemma_vars_decode_shift(pre: Seq<u8>, b: Seq<u8>, pos: int)
    requires
        0 <= pos,
    ensures
        vars_decode_from(pre + b, pre.len() + pos) == vars_decode_from(b, pos),
    decreases b.len() - pos,
{
    let c = pre + b;
    let q = pre.len() + pos;
    if pos + 2 > b.len() {
    } else {
        assert(c[q] == b[pos] && c[q + 1] == b[pos + 1]);
        let len = u16_at(b, pos) as int;
        if pos + 2 + len > b.len() {
        } else {
            assert(c.subrange(q + 2, q + 2 + len) =~= b.subrange(pos + 2, pos + 2 + len));
            lemma_vars_decode_shift(pre, b, pos + 2 + len);
        }
    }
}

/// Decoding the variable column's bytes gives the variables back, when each
/// variable's UTF-8 form is shorter than 2^16 bytes (a longer one has its
/// length prefix cut to 16 bits).
pub proof fn law_vars_roundtrip(vars: Seq<Seq<char>>)
    requires
        forall|i: int| 0 <= i < vars.len() ==> #[trigger] encode_utf8(vars[i]).len() < 0x10000,
    ensures
        vars_decode(vars_bytes(vars)) == vars,
    decreases vars.len(),
{
    if vars.len() == 0 {
    } else {
        let v = vars[0];
        let e = encode_utf8(v);
        let rest = vars.drop_first();
        law_vars_roundtrip(rest);
        let rec = var_record(v);
        let b = vars_bytes(vars);
        assert(b == rec + vars_bytes(rest));
        lemma_le_u16(e.len() as u16);
        assert(u16_at(b, 0) == u16_at(le_u16(e.len() as u16), 0));
        assert(u16_at(b, 0) as int == e.len());
        assert(b.subrange(2, 2 + e.len() as int) =~= e);
        encode_utf8_valid_utf8(v);
        encode_utf8_decode_utf8(v);
        lemma_vars_decode_shift(rec, vars_bytes(rest), 0);
        assert(rec.len() == 2 + e.len());
        assert(vars_decode_from(b, 0) == seq![v] + vars_decode_from(b, 2 + e.len() as int));
        assert(vars =~= seq![v] + rest);
    }
}

/// The views of a list of strings.
pub open spec fn string_views(v: Seq<String>) -> Seq<Seq<char>> {
    v.map_values(|s: String| s@)
}

/// The variable column's bytes.
pub fn encode_vars(vars: &[String]) -> (out: Vec<u8>)
    ensures
        out@ == vars_bytes(string_views(vars@)),
{
    let mut out: Vec<u8> = Vec::new();
    let n = vars.len();
    let ghost all = string_views(vars@);
    assert(all.skip(0) =~= all);
    for i in 0..n
        invariant
            n == vars@.len(),
            all == string_views(vars@),
            out@ + vars_bytes(all.skip(i as int)) == vars_bytes(all),
    {
        let bytes = vars[i].as_str().as_bytes();
        let ghost before = out@;
        push_u16(&mut out, bytes.len() as u16);
        let m = bytes.len();
        for j in 0..m
            invariant
                m == bytes@.len(),
                out@ == before + le_u16(m as u16) + bytes@.take(j as int),
        {
            out.push(bytes[j]);
            assert(bytes@.take(j + 1) =~= bytes@.take(j as int).push(bytes@[j as int]));
        }
        assert(bytes@.take(m as int) =~= bytes@);
        assert(all[i as int] == vars@[i as int]@);
        assert(all.skip(i as int)[0] == all[i as int]);
        assert(all.skip(i as int).drop_first() =~= all.skip(i + 1));
        assert(out@ == before + var_record(all[i as int]));
    }
    assert(all.skip(n as int) =~= Seq::<Seq<char>>::empty());
    out
}

/// The variables decoded from a column's bytes.
pub fn decode_vars(b: &[u8]) -> (vars: Vec<String>)
    ensures
        string_views(vars@) == vars_decode(b@),
{
    let mut vars: Vec<String> = Vec::new();
    let mut pos: usize = 0;
    while b.len() - pos >= 2
        invariant
            pos <= b@.len(),
            string_views(vars@) + vars_decode_from(b@, pos as int) == vars_decode(b@),
        decreases b@.len() - pos,
    {
        let len = read_u16(b, pos) as usize;
        let start = pos + 2;
        if len > b.len() - start {
            assert(string_views(vars@) + Seq::<Seq<char>>::empty() == string_views(vars@));
            return vars;
        }
        let end = start + len;
        let s = from_utf8_lossy(slice_bytes(b, start, end).as_slice());
        let ghost before = string_views(vars@);
        vars.push(s);
        assert(string_views(vars@) == before.push(s@));
        assert(vars_decode_from(b@, pos as int) == seq![s@] + vars_decode_from(b@, end as int));
        assert(before.push(s@) + vars_decode_from(b@, end as int) == before + (seq![s@]
            + vars_decode_from(b@, end as int)));
        pos = end;
    }
    assert(string_views(vars@) + Seq::<Seq<char>>::empty() == string_views(vars@));
    vars
}

/// The bytes `b[start..end]`.
pub fn slice_bytes(b: &[u8], start: usize, end: usize) -> (r: Vec<u8>)
    requires
        start <= end <= b@.len(),
    ensures
        r@ == b@.subrange(start as int, end as int),
{
    let mut r: Vec<u8> = Vec::new();
    let mut i = start;
    while i < end
        invariant
            start <= i <= end <= b@.len(),
            r@ == b@.subrange(start as int, i as int),
        decreases end - i,
    {
        r.push(b[i]);
        assert(b@.subrange(start as int, i + 1) =~= b@.subrange(start as int, i as int).push(
            b@[i as int],
        ));
        i = i + 1;
    }
    r
}

// ---------------------------------------------------------------------------
// Newline flags: eight to a byte, flag `i` in bit `i % 8` of byte `i / 8`,
// the last byte padded with zero bits.

/// Flag `i`, or `false` past the end.
pub open spec fn nl_bit(nl: Seq<bool>, i: int) -> bool {
    0 <= i < nl.len() && nl[i]
}

/// The byte holding flags `base .. base + m` in its low `m` bits.
pub open spec fn group_bits(nl: Seq<bool>, base: int, m: nat) -> u8
    decreases m,
{
    if m == 0 {
        0u8
    } else {
        group_bits(nl, base, (m - 1) as nat) | (if nl_bit(nl, base + m - 1) {
            1u8 << ((m - 1) as u8)
        } else {
            0u8
        })
    }
}

/// The newline column's bytes.
pub open spec fn nl_bytes(nl: Seq<bool>) -> Seq<u8> {
    Seq::new((nl.len() + 7) / 8, |k: int| group_bits(nl, 8 * k, 8))
}

/// The flags decoded from a column's bytes: eight per byte.
pub open spec fn nl_decode(b: Seq<u8>) -> Seq<bool> {
    Seq::new(8 * b.len(), |i: int| (b[i / 8] >> ((i % 8) as u8)) & 1u8 == 1u8)
}

proof fn lemma_or_bit(x: u8, t: u8, j: u8, c: bool)
    requires
        t < 8,
        j < 8,
    ensures
        (((x | (if c {
            1u8 << t
        } else {
            0u8
        })) >> j) & 1u8 == 1u8) == (((x >> j) & 1u8 == 1u8) || (c && j == t)),
{
    assert((((x | (if c {
        1u8 << t
    } else {
        0u8
    })) >> j) & 1u8 == 1u8) == (((x >> j) & 1u8 == 1u8) || (c && j == t))) by (bit_vector)
        requires
            t < 8,
            j < 8,
    ;
}

proof fn lemma_group_bits(nl: Seq<bool>, base: int, m: nat, j: u8)
    requires
        m <= 8,
        j < 8,
    ensures
        ((group_bits(nl, base, m) >> j) & 1u8 == 1u8) == (j < m && nl_bit(nl, base + j)),
    decreases m,
{
    if m == 0 {
        assert((0u8 >> j) & 1u8 == 0u8) by (bit_vector);
    } else {
        lemma_group_bits(nl, base, (m - 1) as nat, j);
        lemma_or_bit(
            group_bits(nl, base, (m - 1) as nat),
            (m - 1) as u8,
            j,
            nl_bit(nl, base + m - 1),
        );
    }
}

proof fn lemma_group_bits_pad(nl: Seq<bool>, base: int, m: nat)
    requires
        m <= 8,
        base + m >= nl.len(),
    ensures
        group_bits(nl, base, m) == group_bits(nl, base, 8),
    decreases 8 - m,
{
    if m < 8 {
        lemma_group_bits_pad(nl, base, m + 1);
        assert(!nl_bit(nl, base + m));
        let x = group_bits(nl, base, m);
        assert(x | 0u8 == x) by (bit_vector);
    }
}

/// Decoding the newline column's bytes gives the flags back, followed by
/// `false` up to the next multiple of eight.
pub proof fn law_newlines_roundtrip(nl: Seq<bool>)
    ensures
        nl_decode(nl_bytes(nl)).len() == 8 * ((nl.len() + 7) / 8),
        forall|i: int|
            0 <= i < nl_decode(nl_bytes(nl)).len() ==> #[trigger] nl_decode(nl_bytes(nl))[i]
                == nl_bit(nl, i),
{
    let b = nl_bytes(nl);
    assert forall|i: int| 0 <= i < nl_decode(b).len() implies #[trigger] nl_decode(b)[i]
        == nl_bit(nl, i) by {
        let k = i / 8;
        let j = i % 8;
        assert(0 <= k < b.len() && 0 <= j < 8 && i == 8 * k + j);
        lemma_group_bits(nl, 8 * k, 8, j as u8);
    }
}

/// The newline column's bytes.
pub fn pack_newlines(nl: &[bool]) -> (out: Vec<u8>)
    ensures
        out@ == nl_bytes(nl@),
{
    let mut out: Vec<u8> = Vec::new();
    let mut byte: u8 = 0;
    let mut bit: usize = 0;
    let n = nl.len();
    for i in 0..n
        invariant
            n == nl@.len(),
            bit < 8,
            i == 8 * out@.len() + bit,
            byte == group_bits(nl@, (8 * out@.len()) as int, bit as nat),
            forall|k: int| 0 <= k < out@.len() ==> #[trigger] out@[k] == group_bits(nl@, 8 * k, 8),
    {
        let ghost x = byte;
        if nl[i] {
            byte = byte | (1u8 << (bit as u8));
        }
        assert(byte == group_bits(nl@, (8 * out@.len()) as int, (bit + 1) as nat)) by {
            assert(nl_bit(nl@, 8 * out@.len() + bit) == nl@[i as int]);
            assert(x | 0u8 == x) by (bit_vector);
        }
        bit = bit + 1;
        if bit == 8 {
            out.push(byte);
            byte = 0;
            bit = 0;
        }
    }
    if bit > 0 {
        proof {
            lemma_group_bits_pad(nl@, (8 * out@.len()) as int, bit as nat);
        }
        out.push(byte);
    }
    assert(out@.len() == (n + 7) / 8);
    assert(out@ =~= nl_bytes(nl@));
    out
}

/// The flags decoded from a column's bytes.
pub fn unpack_newlines(b: &[u8]) -> (nl: Vec<bool>)
    ensures
        nl@ == nl_decode(b@),
{
    let mut nl: Vec<bool> = Vec::new();
    let n = b.len();
    for k in 0..n
        invariant
            n == b@.len(),
            nl@.len() == 8 * k,
            forall|i: int| 0 <= i < nl@.len() ==> #[trigger] nl@[i] == nl_decode(b@)[i],
    {
        let byte = b[k];
        for bit in 0..8u8
            invariant
                n == b@.len(),
                k < n,
                byte == b@[k as int],
                nl@.len() == 8 * k + bit,
                forall|i: int| 0 <= i < nl@.len() ==> #[trigger] nl@[i] == nl_decode(b@)[i],
        {
            nl.push((byte >> bit) & 1 == 1);
            let ghost i = 8 * k + bit;
            assert(i / 8 == k && i % 8 == bit);
        }
    }
    assert(nl@ =~= nl_decode(b@));
    nl
}

} // verus!
