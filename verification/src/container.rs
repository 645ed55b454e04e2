//! The byte layout of `.stz` streams and archives: magic numbers, the
//! framing of a compressed chunk, the write buffer, and archive entry
//! headers.
use vstd::prelude::*;

use vstd::utf8::encode_utf8;

use crate::codec::{
    from_utf8_lossy, le_u32, le_u64, lemma_le_u32, lemma_le_u64, lossy_text, push_u32, push_u64,
    read_u32, read_u64, slice_bytes, u32_at, u64_at,
};
use crate::models::StzError;
use crate::models::CompressedChunk;

verus! {

/// The magic number of a single compressed log: `STZ1`.
pub open spec fn stream_magic() -> Seq<u8> {
    seq![83u8, 84, 90, 49]
}

/// The magic number of a directory archive: `STZ\x02`.
pub open spec fn archive_magic() -> Seq<u8> {
    seq![83u8, 84, 90, 2]
}

/// What the first four bytes of a file say it is.
#[derive(Debug, Clone, Copy, PartialEq, Eq, Structural)]
pub enum StreamFormat {
    SingleFile,
    Archive,
    Unknown,
}

/// The format a file's first four bytes name.
pub open spec fn format_of(magic: Seq<u8>) -> StreamFormat {
    if magic == stream_magic() {
        StreamFormat::SingleFile
    } else if magic == archive_magic() {
        StreamFormat::Archive
    } else {
        StreamFormat::Unknown
    }
}

/// The magic number of a single compressed log.
pub fn stream_magic_bytes() -> (m: [u8; 4])
    ensures
        m@ == stream_magic(),
{
    let m = [83u8, 84, 90, 49];
    assert(m@ =~= stream_magic());
    m
}

/// The magic number of a directory archive.
pub fn archive_magic_bytes() -> (m: [u8; 4])
    ensures
        m@ == archive_magic(),
{
    let m = [83u8, 84, 90, 2];
    assert(m@ =~= archive_magic());
    m
}

/// The format the first four bytes of a file name.
pub fn detect_format(magic: &[u8; 4]) -> (f: StreamFormat)
    ensures
        f == format_of(magic@),
{
    if magic[0] == 83 && magic[1] == 84 && magic[2] == 90 {
        if magic[3] == 49 {
            assert(magic@ =~= stream_magic());
            return StreamFormat::SingleFile;
        } else if magic[3] == 2 {
            assert(magic@ =~= archive_magic());
            return StreamFormat::Archive;
        }
    }
    assert(magic@ != stream_magic() && magic@ != archive_magic()) by {
        if magic@ == stream_magic() {
            assert(magic@[3] == 49);
        }
        if magic@ == archive_magic() {
            assert(magic@[3] == 2);
        }
    }
    StreamFormat::Unknown
}

/// A block: its length (4 little-endian bytes, modulo 2^32), then its bytes.
pub open spec fn block(b: Seq<u8>) -> Seq<u8> {
    le_u32(b.len() as u32) + b
}

/// A compressed chunk as written to a stream: its six blocks in order.
pub open spec fn framed(c: CompressedChunk) -> Seq<u8> {
    block(c.registry_blob@) + block(c.ts_blob@) + block(c.lvl_blob@) + block(c.id_blob@) + block(
        c.var_blob@,
    ) + block(c.nl_blob@)
}

/// The size of a framed chunk.
pub open spec fn framed_len(c: CompressedChunk) -> int {
    24int + c.registry_blob@.len() + c.ts_blob@.len() + c.lvl_blob@.len() + c.id_blob@.len()
        + c.var_blob@.len() + c.nl_blob@.len()
}

fn push_block(out: &mut Vec<u8>, b: &Vec<u8>)
    ensures
        final(out)@ == old(out)@ + block(b@),
{
    push_u32(out, b.len() as u32);
    let n = b.len();
    let ghost mid = out@;
    for i in 0..n
        invariant
            n == b@.len(),
            out@ == mid + b@.take(i as int),
    {
        out.push(b[i]);
        assert(b@.take(i + 1) =~= b@.take(i as int).push(b@[i as int]));
    }
    assert(b@.take(n as int) =~= b@);
}

/// Appends a compressed chunk's six blocks.
pub fn write_chunk_internal(out: &mut Vec<u8>, chunk: &CompressedChunk)
    ensures
        final(out)@ == old(out)@ + framed(*chunk),
{
    push_block(out, &chunk.registry_blob);
    push_block(out, &chunk.ts_blob);
    push_block(out, &chunk.lvl_blob);
    push_block(out, &chunk.id_blob);
    push_block(out, &chunk.var_blob);
    push_block(out, &chunk.nl_blob);
    assert(final(out)@ =~= old(out)@ + framed(*chunk));
}

/// The six blocks of a compressed chunk, in the order they are framed.
pub open spec fn chunk_blocks(c: CompressedChunk) -> Seq<Seq<u8>> {
    seq![c.registry_blob@, c.ts_blob@, c.lvl_blob@, c.id_blob@, c.var_blob@, c.nl_blob@]
}

/// The block at index `pos` of `b`, and the index after it: a length (4
/// little-endian bytes), then that many bytes; `None` where `b` ends first.
pub open spec fn block_at(b: Seq<u8>, pos: int) -> Option<(Seq<u8>, int)> {
    if 0 <= pos && pos + 4 <= b.len() && pos + 4 + u32_at(b, pos) <= b.len() {
        Some((b.subrange(pos + 4, pos + 4 + u32_at(b, pos)), pos + 4 + u32_at(b, pos)))
    } else {
        None
    }
}

/// The `n` blocks from index `pos` of `b`, and the index after them;
/// `None` where `b` ends first.
pub open spec fn blocks_at(b: Seq<u8>, pos: int, n: nat) -> Option<(Seq<Seq<u8>>, int)>
    decreases n,
{
    if n == 0 {
        Some((Seq::empty(), pos))
    } else {
        match block_at(b, pos) {
            None => None,
            Some((x, p1)) => match blocks_at(b, p1, (n - 1) as nat) {
                None => None,
                Some((xs, p2)) => Some((seq![x] + xs, p2)),
            },
        }
    }
}

/// Reading `n` blocks moves forward by at least 4 bytes a block and stays
/// within the bytes.
pub proof fn lemma_blocks_advance(b: Seq<u8>, pos: int, n: nat)
    ensures
        blocks_at(b, pos, n) matches Some((xs, p)) ==> xs.len() == n && p >= pos + 4 * n && (n
            > 0 ==> p <= b.len()),
    decreases n,
{
    if n > 0 {
        match block_at(b, pos) {
            None => {},
            Some((x, p1)) => {
                lemma_blocks_advance(b, p1, (n - 1) as nat);
            },
        }
    }
}

/// A block written between other bytes reads back as itself.
proof fn lemma_block_read(pre: Seq<u8>, x: Seq<u8>, post: Seq<u8>)
    requires
        x.len() < 0x1_0000_0000,
    ensures
        block_at(pre + block(x) + post, pre.len() as int) == Some(
            (x, pre.len() + 4 + x.len() as int),
        ),
{
    let b = pre + block(x) + post;
    let p = pre.len() as int;
    lemma_le_u32(x.len() as u32);
    assert(b.subrange(p, p + 4) =~= le_u32(x.len() as u32));
    assert(u32_at(b, p) == u32_at(le_u32(x.len() as u32), 0));
    assert(b.subrange(p + 4, p + 4 + x.len()) =~= x);
}

/// Blocks written one after another.
pub open spec fn blocks_concat(bl: Seq<Seq<u8>>) -> Seq<u8>
    decreases bl.len(),
{
    if bl.len() == 0 {
        Seq::empty()
    } else {
        block(bl[0]) + blocks_concat(bl.drop_first())
    }
}

/// Blocks written one after another read back as themselves, whatever
/// comes before and after them.
#[verifier::spinoff_prover]
proof fn lemma_blocks_read(pre: Seq<u8>, bl: Seq<Seq<u8>>, post: Seq<u8>)
    requires
        forall|i: int| 0 <= i < bl.len() ==> #[trigger] bl[i].len() < 0x1_0000_0000,
    ensures
        blocks_at(pre + blocks_concat(bl) + post, pre.len() as int, bl.len()) == Some(
            (bl, pre.len() + blocks_concat(bl).len() as int),
        ),
    decreases bl.len(),
{
    let b = pre + blocks_concat(bl) + post;
    if bl.len() == 0 {
        assert(bl =~= Seq::<Seq<u8>>::empty());
    } else {
        let rest = bl.drop_first();
        assert(bl[0].len() < 0x1_0000_0000);
        assert(b =~= pre + block(bl[0]) + (blocks_concat(rest) + post));
        lemma_block_read(pre, bl[0], blocks_concat(rest) + post);
        assert(b =~= (pre + block(bl[0])) + blocks_concat(rest) + post);
        assert forall|i: int| 0 <= i < rest.len() implies #[trigger] rest[i].len()
            < 0x1_0000_0000 by {
            assert(rest[i] == bl[i + 1]);
        }
        lemma_blocks_read(pre + block(bl[0]), rest, post);
        assert(seq![bl[0]] + rest =~= bl);
    }
}

/// A framed chunk is its six blocks written one after another.
proof fn lemma_framed_blocks(c: CompressedChunk)
    ensures
        blocks_concat(chunk_blocks(c)) == framed(c),
{
    let (r, t, l, i, v, n) = (
        c.registry_blob@,
        c.ts_blob@,
        c.lvl_blob@,
        c.id_blob@,
        c.var_blob@,
        c.nl_blob@,
    );
    let e = Seq::<Seq<u8>>::empty();
    let t5 = seq![n];
    let t4 = seq![v, n];
    let t3 = seq![i, v, n];
    let t2 = seq![l, i, v, n];
    let t1 = seq![t, l, i, v, n];
    let t0 = seq![r, t, l, i, v, n];
    assert(t5.drop_first() =~= e);
    assert(t4.drop_first() =~= t5);
    assert(t3.drop_first() =~= t4);
    assert(t2.drop_first() =~= t3);
    assert(t1.drop_first() =~= t2);
    assert(t0.drop_first() =~= t1);
    assert(blocks_concat(e) == Seq::<u8>::empty());
    assert(blocks_concat(t5) =~= block(n));
    assert(blocks_concat(t4) == block(v) + blocks_concat(t5));
    assert(blocks_concat(t3) == block(i) + blocks_concat(t4));
    assert(blocks_concat(t2) == block(l) + blocks_concat(t3));
    assert(blocks_concat(t1) == block(t) + blocks_concat(t2));
    assert(blocks_concat(t0) == block(r) + blocks_concat(t1));
    assert(t0 =~= chunk_blocks(c));
    assert(blocks_concat(t0) =~= framed(c));
}

/// What `write_chunk_internal` writes reads back as the chunk's six blocks,
/// whatever comes before and after it, for blocks shorter than 2^32 bytes.
pub proof fn law_framed_chunk_reads_back(pre: Seq<u8>, c: CompressedChunk, post: Seq<u8>)
    requires
        forall|i: int| 0 <= i < 6 ==> #[trigger] chunk_blocks(c)[i].len() < 0x1_0000_0000,
    ensures
        blocks_at(pre + framed(c) + post, pre.len() as int, 6) == Some(
            (chunk_blocks(c), pre.len() as int + framed_len(c)),
        ),
{
    let bl = chunk_blocks(c);
    assert(blocks_concat(bl) == framed(c)) by {
        lemma_framed_blocks(c);
    }
    assert(framed(c).len() == framed_len(c));
    lemma_blocks_read(pre, bl, post);
}

/// Bytes in front of a stream move its blocks along and change nothing else.
pub proof fn lemma_blocks_at_shift(pre: Seq<u8>, b: Seq<u8>, p: int, n: nat)
    requires
        0 <= p,
    ensures
        blocks_at(pre + b, pre.len() + p, n) == match blocks_at(b, p, n) {
            Some((xs, q)) => Some((xs, pre.len() + q)),
            None => None,
        },
    decreases n,
{
    if n > 0 {
        let pb = pre + b;
        let o = pre.len() as int;
        if p + 4 <= b.len() {
            assert(pb.subrange(o + p, o + p + 4) =~= b.subrange(p, p + 4));
            assert(u32_at(pb, o + p) == u32_at(b, p)) by {
                assert(pb[o + p] == b[p] && pb[o + p + 1] == b[p + 1] && pb[o + p + 2] == b[p + 2]
                    && pb[o + p + 3] == b[p + 3]);
            }
            let e = p + 4 + u32_at(b, p);
            if e <= b.len() {
                assert(pb.subrange(o + p + 4, o + e) =~= b.subrange(p + 4, e));
                lemma_blocks_at_shift(pre, b, e, (n - 1) as nat);
            }
        }
    }
}

/// The block at index `pos` of `b`, and the index after it.
pub(crate) fn read_block(b: &[u8], pos: usize) -> (r: Option<(Vec<u8>, usize)>)
    ensures
        match r {
            Some((x, p)) => block_at(b@, pos as int) == Some((x@, p as int)),
            None => block_at(b@, pos as int) is None,
        },
{
    if pos > b.len() || b.len() - pos < 4 {
        return None;
    }
    let size = read_u32(b, pos) as usize;
    if b.len() - pos - 4 < size {
        return None;
    }
    let end = pos + 4 + size;
    Some((slice_bytes(b, pos + 4, end), end))
}

/// Compressed chunks framed one after another, from chunk `k` on.
pub open spec fn framed_from(cs: Seq<CompressedChunk>, k: int) -> Seq<u8>
    decreases cs.len() - k,
{
    if k < 0 || k >= cs.len() {
        Seq::empty()
    } else {
        framed(cs[k]) + framed_from(cs, k + 1)
    }
}

/// The size of the write buffer before it is flushed.
pub const BUFFER_LIMIT: usize = 20 * 1024 * 1024;

/// Writing chunk `c` into a buffer holding `buf` flushes it first.
pub open spec fn flushes(buf: Seq<u8>, c: CompressedChunk) -> bool {
    buf.len() + framed_len(c) > BUFFER_LIMIT
}

/// The buffer after writing chunk `c` into a buffer holding `buf`.
pub open spec fn after_write(buf: Seq<u8>, c: CompressedChunk) -> Seq<u8> {
    if flushes(buf, c) {
        framed(c)
    } else {
        buf + framed(c)
    }
}

/// The bytes handed out by writing chunk `c` into a buffer holding `buf`.
pub open spec fn handed_out(buf: Seq<u8>, c: CompressedChunk) -> Seq<u8> {
    if flushes(buf, c) {
        buf
    } else {
        Seq::empty()
    }
}

/// Writing chunks `cs[k..]` one after another into a buffer holding `buf`:
/// the bytes handed out, in order, and the bytes left buffered.
pub open spec fn buffer_run(buf: Seq<u8>, cs: Seq<CompressedChunk>, k: int) -> (Seq<u8>, Seq<u8>)
    decreases cs.len() - k,
{
    if k < 0 || k >= cs.len() {
        (Seq::empty(), buf)
    } else {
        let r = buffer_run(after_write(buf, cs[k]), cs, k + 1);
        (handed_out(buf, cs[k]) + r.0, r.1)
    }
}

/// Whatever the flush points, the bytes handed out by a run of writes,
/// followed by what `finish` returns, are what was buffered before and the
/// chunks framed in order.
pub proof fn law_buffer_keeps_order(buf: Seq<u8>, cs: Seq<CompressedChunk>, k: int)
    requires
        0 <= k <= cs.len(),
    ensures
        buffer_run(buf, cs, k).0 + buffer_run(buf, cs, k).1 == buf + framed_from(cs, k),
    decreases cs.len() - k,
{
    if k == cs.len() {
        assert(framed_from(cs, k) =~= Seq::<u8>::empty());
        assert(Seq::<u8>::empty() + buf =~= buf + Seq::<u8>::empty());
    } else {
        let c = cs[k];
        law_buffer_keeps_order(after_write(buf, c), cs, k + 1);
        let r = buffer_run(after_write(buf, c), cs, k + 1);
        if flushes(buf, c) {
            assert(buf + r.0 + r.1 =~= buf + (framed(c) + framed_from(cs, k + 1)));
        } else {
            assert(Seq::<u8>::empty() + r.0 + r.1 =~= buf + (framed(c) + framed_from(cs, k + 1)));
        }
    }
}

/// Buffers framed chunks and says when the buffer is to be written out.
pub struct ChunkBuffer {
    buffer: Vec<u8>,
    buffer_limit: usize,
}

impl ChunkBuffer {
    /// The bytes buffered.
    pub closed spec fn buffered(&self) -> Seq<u8> {
        self.buffer@
    }

    /// The buffer flushes at 20 MiB.
    pub closed spec fn wf(&self) -> bool {
        self.buffer_limit == BUFFER_LIMIT
    }

    /// An empty buffer.
    pub fn new() -> (b: ChunkBuffer)
        ensures
            b.wf(),
            b.buffered() == Seq::<u8>::empty(),
    {
        ChunkBuffer { buffer: Vec::with_capacity(BUFFER_LIMIT), buffer_limit: BUFFER_LIMIT }
    }

    /// Buffers a chunk. When the chunk would take the buffer past its limit,
    /// the bytes buffered so far are returned, to be written out first.
    pub fn write_chunk(&mut self, chunk: &CompressedChunk) -> (flushed: Option<Vec<u8>>)
        requires
            old(self).wf(),
            old(self).buffered().len() + framed_len(*chunk) <= usize::MAX,
        ensures
            final(self).wf(),
            final(self).buffered() == after_write(old(self).buffered(), *chunk),
            flushed is Some <==> flushes(old(self).buffered(), *chunk),
            flushed matches Some(f) ==> f@ == handed_out(old(self).buffered(), *chunk),
    {
        let chunk_size = 4 + chunk.registry_blob.len() + 4 + chunk.ts_blob.len() + 4
            + chunk.lvl_blob.len() + 4 + chunk.id_blob.len() + 4 + chunk.var_blob.len() + 4
            + chunk.nl_blob.len();
        let mut flushed = None;
        if self.buffer.len() + chunk_size > self.buffer_limit {
            let mut out: Vec<u8> = Vec::new();
            std::mem::swap(&mut out, &mut self.buffer);
            flushed = Some(out);
        }
        let ghost before = self.buffer@;
        write_chunk_internal(&mut self.buffer, chunk);
        proof {
            if flushed is Some {
                assert(before == Seq::<u8>::empty());
                assert(self.buffer@ =~= framed(*chunk));
            }
        }
        flushed
    }

    /// The bytes still buffered; the buffer is emptied.
    pub fn finish(&mut self) -> (rest: Vec<u8>)
        requires
            old(self).wf(),
        ensures
            final(self).wf(),
            rest@ == old(self).buffered(),
            final(self).buffered() == Seq::<u8>::empty(),
    {
        let mut out: Vec<u8> = Vec::new();
        std::mem::swap(&mut out, &mut self.buffer);
        out
    }
}

/// An archive entry's header before its content length: the UTF-8 length
/// of its relative path (4 little-endian bytes, modulo 2^32) and the path.
pub open spec fn entry_path_header(path: Seq<char>) -> Seq<u8> {
    le_u32(encode_utf8(path).len() as u32) + encode_utf8(path)
}

/// The header of an archive entry up to its content length.
pub fn entry_header(relative_path: &str) -> (h: Vec<u8>)
    ensures
        h@ == entry_path_header(relative_path@),
{
    let bytes = relative_path.as_bytes();
    let mut h: Vec<u8> = Vec::new();
    push_u32(&mut h, bytes.len() as u32);
    let n = bytes.len();
    for i in 0..n
        invariant
            n == bytes@.len(),
            h@ == le_u32(n as u32) + bytes@.take(i as int),
    {
        h.push(bytes[i]);
        assert(bytes@.take(i + 1) =~= bytes@.take(i as int).push(bytes@[i as int]));
    }
    assert(bytes@.take(n as int) =~= bytes@);
    h
}

/// The 8 bytes of an archive entry's content length.
pub fn entry_length_field(content_len: u64) -> (f: Vec<u8>)
    ensures
        f@ == le_u64(content_len),
{
    let mut f: Vec<u8> = Vec::new();
    push_u64(&mut f, content_len);
    assert(f@ =~= le_u64(content_len));
    f
}

/// An archive entry as read: its relative path, its content length as
/// written, the format the first four bytes of its content name (`None`
/// when the content is shorter), and where the compressed stream after
/// those four bytes starts and ends.
pub struct ArchiveEntry {
    pub path: String,
    pub content_len: u64,
    pub format: Option<StreamFormat>,
    pub body_start: usize,
    pub end: usize,
}

/// The entry at index `pos` of an archive: `Ok(None)` where fewer than four
/// bytes are left (the end), an error where the path or the content length
/// is cut; else the path's bytes, the content's format, and the start and
/// end of its stream body (its content runs to the end of the archive when
/// the archive is shorter than the length says).
pub open spec fn entry_at(b: Seq<u8>, pos: int) -> Result<
    Option<(Seq<u8>, Option<StreamFormat>, int, int)>,
    StzError,
> {
    if pos < 0 || pos + 4 > b.len() {
        Ok(None)
    } else {
        let ps = pos + 4;
        let pe = ps + u32_at(b, pos);
        if pe + 8 > b.len() {
            Err(StzError::Truncated)
        } else {
            let cs = pe + 8;
            let ce = if cs + u64_at(b, pe) <= b.len() {
                cs + u64_at(b, pe)
            } else {
                b.len() as int
            };
            if ce - cs >= 4 {
                Ok(Some((b.subrange(ps, pe), Some(format_of(b.subrange(cs, cs + 4))), cs + 4, ce)))
            } else {
                Ok(Some((b.subrange(ps, pe), None, ce, ce)))
            }
        }
    }
}

/// Reads the archive entry at index `pos` of `b` (see `entry_at`); the
/// path is the path's bytes as `String::from_utf8_lossy` reads them.
pub fn next_archive_entry(b: &[u8], pos: usize) -> (r: Result<Option<ArchiveEntry>, StzError>)
    ensures
        match r {
            Ok(None) => entry_at(b@, pos as int) == Ok::<
                Option<(Seq<u8>, Option<StreamFormat>, int, int)>,
                StzError,
            >(None),
            Ok(Some(e)) => entry_at(b@, pos as int) matches Ok(Some((pb, f, s, t))) && e.path@
                == lossy_text(pb) && e.format == f && e.body_start == s && e.end == t
                && e.content_len == u64_at(b@, pos + 4 + u32_at(b@, pos as int)),
            Err(e) => entry_at(b@, pos as int) == Err::<
                Option<(Seq<u8>, Option<StreamFormat>, int, int)>,
                StzError,
            >(e),
        },
{
    if pos > b.len() || b.len() - pos < 4 {
        return Ok(None);
    }
    let path_len = read_u32(b, pos) as usize;
    let ps = pos + 4;
    if b.len() - ps < path_len || b.len() - ps - path_len < 8 {
        return Err(StzError::Truncated);
    }
    let pe = ps + path_len;
    let path_bytes = slice_bytes(b, ps, pe);
    let path = from_utf8_lossy(path_bytes.as_slice());
    let content_len = read_u64(b, pe);
    let cs = pe + 8;
    let left = b.len() - cs;
    let ce = if content_len <= left as u64 {
        cs + content_len as usize
    } else {
        b.len()
    };
    if ce - cs >= 4 {
        let magic: [u8; 4] = [b[cs], b[cs + 1], b[cs + 2], b[cs + 3]];
        assert(magic@ =~= b@.subrange(cs as int, cs + 4));
        let format = detect_format(&magic);
        Ok(Some(ArchiveEntry { path, content_len, format: Some(format), body_start: cs + 4, end: ce }))
    } else {
        Ok(Some(ArchiveEntry { path, content_len, format: None, body_start: ce, end: ce }))
    }
}

/// What `create_archive` writes for one file (its header, content length
/// and content) reads back as that file's entry, whatever comes before and
/// after it, for a path of fewer than 2^32 UTF-8 bytes.
pub proof fn law_archive_entry_reads_back(
    pre: Seq<u8>,
    path: Seq<char>,
    content: Seq<u8>,
    post: Seq<u8>,
)
    requires
        encode_utf8(path).len() < 0x1_0000_0000,
        content.len() < 0x1_0000_0000_0000_0000,
    ensures
        entry_at(
            pre + entry_path_header(path) + le_u64(content.len() as u64) + content + post,
            pre.len() as int,
        ) == Ok::<Option<(Seq<u8>, Option<StreamFormat>, int, int)>, StzError>(
            Some(
                if content.len() >= 4 {
                    (
                        encode_utf8(path),
                        Some(format_of(content.subrange(0, 4))),
                        pre.len() as int + entry_path_header(path).len() + 12,
                        pre.len() as int + entry_path_header(path).len() + 8 + content.len(),
                    )
                } else {
                    (
                        encode_utf8(path),
                        None,
                        pre.len() as int + entry_path_header(path).len() + 8 + content.len(),
                        pre.len() as int + entry_path_header(path).len() + 8 + content.len(),
                    )
                },
            ),
        ),
{
    let pb = encode_utf8(path);
    let n = pb.len() as u32;
    let l = content.len() as u64;
    let b = pre + entry_path_header(path) + le_u64(l) + content + post;
    let o = pre.len() as int;
    lemma_le_u32(n);
    lemma_le_u64(l);
    assert(b.subrange(o, o + 4) =~= le_u32(n));
    assert(u32_at(b, o) == u32_at(le_u32(n), 0)) by {
        assert(b[o] == le_u32(n)[0] && b[o + 1] == le_u32(n)[1] && b[o + 2] == le_u32(n)[2]
            && b[o + 3] == le_u32(n)[3]);
    }
    let pe = o + 4 + pb.len();
    assert(b.subrange(o + 4, pe) =~= pb);
    assert(u64_at(b, pe) == u64_at(le_u64(l), 0)) by {
        assert(b[pe] == le_u64(l)[0] && b[pe + 1] == le_u64(l)[1] && b[pe + 2] == le_u64(l)[2]
            && b[pe + 3] == le_u64(l)[3] && b[pe + 4] == le_u64(l)[4] && b[pe + 5]
            == le_u64(l)[5] && b[pe + 6] == le_u64(l)[6] && b[pe + 7] == le_u64(l)[7]);
    }
    let cs = pe + 8;
    if content.len() >= 4 {
        assert(b.subrange(cs, cs + 4) =~= content.subrange(0, 4));
    }
}

} // verus!
