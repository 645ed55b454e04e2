use stz::accumulator::LogAccumulator;
use stz::container::{
    archive_magic_bytes, detect_format, entry_header, entry_length_field, stream_magic_bytes,
    write_chunk_internal, ChunkBuffer, StreamFormat,
};
use stz::decompress::LogDecompressor;
use stz::input::read_input_line;
use stz::level::LogLevel;
use stz::models::{CompressedChunk, PreDigestedEntry};
use stz::registry::SharedRegistry;

fn small_chunk(id: usize) -> CompressedChunk {
    CompressedChunk {
        chunk_id: id,
        registry_blob: vec![1],
        ts_blob: vec![2, 2],
        lvl_blob: vec![],
        id_blob: vec![4],
        var_blob: vec![5],
        nl_blob: vec![6],
    }
}

#[test]
fn magic_numbers() {
    assert_eq!(&stream_magic_bytes(), b"STZ1");
    assert_eq!(&archive_magic_bytes(), b"STZ\x02");
    assert_eq!(detect_format(b"STZ1"), StreamFormat::SingleFile);
    assert_eq!(detect_format(b"STZ\x02"), StreamFormat::Archive);
    assert_eq!(detect_format(b"STZ3"), StreamFormat::Unknown);
    assert_eq!(detect_format(b"PK\x03\x04"), StreamFormat::Unknown);
}

#[test]
fn chunk_framing() {
    let mut out = vec![9u8];
    write_chunk_internal(&mut out, &small_chunk(0));
    assert_eq!(
        out,
        vec![9, 1, 0, 0, 0, 1, 2, 0, 0, 0, 2, 2, 0, 0, 0, 0, 1, 0, 0, 0, 4, 1, 0, 0, 0, 5, 1, 0, 0, 0, 6]
    );
}

#[test]
fn chunk_buffer_keeps_small_chunks() {
    let mut b = ChunkBuffer::new();
    assert_eq!(b.write_chunk(&small_chunk(0)), None);
    assert_eq!(b.write_chunk(&small_chunk(1)), None);
    let rest = b.finish();
    assert_eq!(rest.len(), 60);
    assert!(b.finish().is_empty());
}

#[test]
fn chunk_buffer_flushes_before_overflow() {
    let mut b = ChunkBuffer::new();
    assert_eq!(b.write_chunk(&small_chunk(0)), None);
    let mut big = small_chunk(1);
    big.var_blob = vec![0u8; 20 * 1024 * 1024];
    let flushed = b.write_chunk(&big).unwrap();
    assert_eq!(flushed.len(), 30);
    assert_eq!(b.finish().len(), 24 + 5 + 20 * 1024 * 1024);
}

#[test]
fn archive_entry_header() {
    assert_eq!(entry_header("a/é"), vec![4, 0, 0, 0, b'a', b'/', 0xc3, 0xa9]);
    assert_eq!(entry_length_field(258), vec![2, 1, 0, 0, 0, 0, 0, 0]);
}

#[test]
fn invalid_bytes_are_escaped() {
    let (text, nl) = read_input_line(b"ab\xffc\n");
    assert_eq!(text, "ab__BYTE_FF__c");
    assert!(nl);
    assert_eq!(LogDecompressor::write_decoded(&text), Some(b"ab\xffc".to_vec()));
    let (text, nl) = read_input_line(b"no newline");
    assert_eq!(text, "no newline");
    assert!(!nl);
    let (text, _) = read_input_line(b"\xe2\x82\n");
    assert_eq!(text, "__BYTE_E2____BYTE_82__");
    assert_eq!(LogDecompressor::write_decoded(&text), Some(b"\xe2\x82".to_vec()));
}

fn entry(ts: Option<&str>, id: u32, vars: &[&str]) -> PreDigestedEntry {
    PreDigestedEntry {
        timestamp: ts.map(|s| s.to_string()),
        verbosity_level: LogLevel::ERROR,
        template_id: id,
        variables: vars.iter().map(|s| s.to_string()).collect(),
        has_newline: true,
    }
}

#[test]
fn accumulator_cuts_chunks() {
    let mut reg = SharedRegistry::new();
    reg.get_or_learn("Disk full", None);
    let mut acc = LogAccumulator::new();
    assert!(acc.ingest(entry(Some("2015-08-21 11:16:10,187"), 0, &["a", "b"]), &reg).is_none());
    assert!(acc.ingest(entry(None, 0, &[]), &reg).is_none());
    let c = acc.take_chunk(&reg);
    assert_eq!(c.chunk_id, 0);
    assert_eq!(c.registry_delta, vec!["Disk full".to_string()]);
    assert_eq!(c.ts_col, vec![1440155770187, 0]);
    assert_eq!(c.lvl_col, vec![3, 3]);
    assert_eq!(c.id_col, vec![0, 0]);
    assert_eq!(c.var_col, vec!["a".to_string(), "b".to_string()]);
    assert_eq!(c.nl_col, vec![true, true]);
    reg.get_or_learn("Disk empty", None);
    let c2 = acc.take_chunk(&reg);
    assert_eq!(c2.chunk_id, 1);
    assert_eq!(c2.registry_delta, vec!["Disk empty".to_string()]);
    assert!(c2.ts_col.is_empty());
}

#[test]
fn accumulator_full_chunk() {
    let reg = SharedRegistry::new();
    let mut acc = LogAccumulator::new();
    let mut cut = None;
    for i in 0..200_000u32 {
        let r = acc.ingest(entry(None, i, &[]), &reg);
        if r.is_some() {
            assert_eq!(i, 199_999);
            cut = r;
        }
    }
    let c = cut.unwrap();
    assert_eq!(c.id_col.len(), 200_000);
    assert_eq!(acc.take_chunk(&reg).chunk_id, 1);
}

#[test]
fn escaped_line_restores_its_bytes() {
    let lines: [&[u8]; 4] = [
        b"x__BYTE\xff__BYT\xc3\n",
        b"\xf0\x9f\x98\x80 ok \xfe\xfe end",
        b"plain text\n",
        b"__BYTE_4\x80",
    ];
    for bytes in lines {
        let (text, nl) = read_input_line(bytes);
        let mut full = text.clone();
        if nl {
            full.push('\n');
        }
        assert_eq!(LogDecompressor::write_decoded(&full), Some(bytes.to_vec()));
    }
    let (text, _) = read_input_line(b"a__BYTE_41__b");
    assert_eq!(LogDecompressor::write_decoded(&text), Some(b"aAb".to_vec()));
}
