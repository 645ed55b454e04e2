use stz::level::LogLevel;
use stz::accumulator::LogAccumulator;
use stz::input::read_input_line;
use stz::parser::LineParser;
use stz::pipeline::{finish_digest, split_for_learning};
use stz::registry::SharedRegistry;
use stz::compress::compress_chunk;
use stz::container::{
    entry_header, entry_length_field, next_archive_entry, write_chunk_internal,
    StreamFormat,
};
use stz::decompress::{render_lines, LogDecompressor};
use stz::models::{RawChunk, StzError};

fn first_chunk() -> RawChunk {
    RawChunk {
        chunk_id: 0,
        registry_delta: vec!["User <VAR> logged in".to_string()],
        ts_col: vec![1440155770187],
        lvl_col: vec![1],
        id_col: vec![0],
        var_col: vec!["bob".to_string()],
        nl_col: vec![true],
    }
}

fn second_chunk() -> RawChunk {
    RawChunk {
        chunk_id: 1,
        registry_delta: vec!["Disk full".to_string()],
        ts_col: vec![1440155770188, 1440155770189],
        lvl_col: vec![3, 1],
        id_col: vec![1, 0],
        var_col: vec!["amy".to_string()],
        nl_col: vec![true, false],
    }
}

#[test]
fn stream_of_two_chunks() {
    let mut stream = Vec::new();
    write_chunk_internal(&mut stream, &compress_chunk(first_chunk()).unwrap());
    write_chunk_internal(&mut stream, &compress_chunk(second_chunk()).unwrap());
    let mut store = Vec::new();
    let (out, res) = LogDecompressor::decompress_to_writer(&stream, &mut store);
    assert_eq!(res, Ok(()));
    assert_eq!(store, vec!["User <VAR> logged in".to_string(), "Disk full".to_string()]);
    assert_eq!(
        String::from_utf8(out).unwrap(),
        "2015-08-21 11:16:10,187 INFO User bob logged in\n\
         2015-08-21 11:16:10,188 ERROR Disk full\n\
         2015-08-21 11:16:10,189 INFO User amy logged in"
    );
}

#[test]
fn stream_chunk_output_matches_render() {
    let raw = first_chunk();
    let expected = render_lines(
        &raw.registry_delta,
        &raw.ts_col,
        &raw.lvl_col,
        &raw.id_col,
        &raw.var_col,
        &raw.nl_col,
    )
    .unwrap();
    let mut stream = Vec::new();
    write_chunk_internal(&mut stream, &compress_chunk(raw).unwrap());
    let mut store = Vec::new();
    let (out, res) = LogDecompressor::decompress_to_writer(&stream, &mut store);
    assert_eq!(res, Ok(()));
    assert_eq!(out, expected);
}

#[test]
fn empty_stream_writes_nothing() {
    let mut store = Vec::new();
    let (out, res) = LogDecompressor::decompress_to_writer(&[], &mut store);
    assert_eq!(res, Ok(()));
    assert!(out.is_empty());
    assert!(store.is_empty());
}

#[test]
fn truncated_stream_keeps_earlier_chunks() {
    let mut stream = Vec::new();
    write_chunk_internal(&mut stream, &compress_chunk(first_chunk()).unwrap());
    let whole_first = stream.len();
    write_chunk_internal(&mut stream, &compress_chunk(second_chunk()).unwrap());
    stream.truncate(stream.len() - 1);
    let mut store = Vec::new();
    let (out, res) = LogDecompressor::decompress_to_writer(&stream, &mut store);
    assert_eq!(res, Err(StzError::Truncated));
    assert_eq!(String::from_utf8(out).unwrap(), "2015-08-21 11:16:10,187 INFO User bob logged in\n");
    // The second chunk's registry block was whole: its template was added
    // before the cut block was met.
    assert_eq!(store.len(), 2);

    let mut store2 = Vec::new();
    let (out2, res2) = LogDecompressor::decompress_to_writer(&stream[..whole_first + 2], &mut store2);
    assert_eq!(res2, Err(StzError::Truncated));
    assert_eq!(out2.len(), 48);
    assert_eq!(store2.len(), 1);
}

#[test]
fn corrupt_chunk_ends_stream() {
    let mut c = compress_chunk(second_chunk()).unwrap();
    c.nl_blob = vec![0, 1, 2];
    let mut stream = Vec::new();
    write_chunk_internal(&mut stream, &compress_chunk(first_chunk()).unwrap());
    write_chunk_internal(&mut stream, &c);
    let mut store = Vec::new();
    let (out, res) = LogDecompressor::decompress_to_writer(&stream, &mut store);
    assert_eq!(res, Err(StzError::Decompression));
    assert_eq!(out.len(), 48);
    assert_eq!(store.len(), 2);
}

#[test]
fn archive_entries_read_back() {
    let mut archive = Vec::new();
    archive.extend(entry_header("logs/a.log"));
    archive.extend(entry_length_field(6));
    archive.extend(b"STZ1xy");
    archive.extend(entry_header("b.log"));
    archive.extend(entry_length_field(2));
    archive.extend(b"zz");
    archive.extend(entry_header("c.log"));
    archive.extend(entry_length_field(100));
    archive.extend(b"PK\x03\x04abc");

    let e = next_archive_entry(&archive, 0).unwrap().unwrap();
    assert_eq!(e.path, "logs/a.log");
    assert_eq!(e.content_len, 6);
    assert_eq!(e.format, Some(StreamFormat::SingleFile));
    assert_eq!(&archive[e.body_start..e.end], b"xy");

    let e2 = next_archive_entry(&archive, e.end).unwrap().unwrap();
    assert_eq!(e2.path, "b.log");
    assert_eq!(e2.format, None);
    assert_eq!(e2.body_start, e2.end);

    let e3 = next_archive_entry(&archive, e2.end).unwrap().unwrap();
    assert_eq!(e3.path, "c.log");
    assert_eq!(e3.content_len, 100);
    assert_eq!(e3.format, Some(StreamFormat::Unknown));
    assert_eq!(e3.end, archive.len());
    assert_eq!(&archive[e3.body_start..e3.end], b"abc");

    assert!(next_archive_entry(&archive, e3.end).unwrap().is_none());
    assert!(next_archive_entry(&[1, 2, 3], 0).unwrap().is_none());
}

#[test]
fn archive_entry_cut_short() {
    let mut archive = Vec::new();
    archive.extend(entry_header("a.log"));
    archive.extend(&[6, 0, 0]);
    assert_eq!(next_archive_entry(&archive, 0).err(), Some(StzError::Truncated));
    assert_eq!(next_archive_entry(&[9, 0, 0, 0, b'a'], 0).err(), Some(StzError::Truncated));
    let mut lossy = Vec::new();
    lossy.extend(&[2, 0, 0, 0, 0xff, b'x']);
    lossy.extend(entry_length_field(0));
    let e = next_archive_entry(&lossy, 0).unwrap().unwrap();
    assert_eq!(e.path, "\u{fffd}x");
}

#[test]
fn raw_line_with_tab_comes_back() {
    let mut r = stz::registry::SharedRegistry::new();
    let line = "job\tstarted with 7 workers";
    let (id, tmpl, vars) = r.get_or_learn(line, Some("job__TAB__started with <*> workers".to_string()));
    assert_eq!(id, 0);
    assert_eq!(tmpl, "job__TAB__started with <VAR> workers");
    assert_eq!(vars, vec!["7".to_string()]);
    let out = render_lines(&vec![tmpl], &vec![12345], &vec![255], &vec![0], &vars, &vec![true]).unwrap();
    assert_eq!(out, b"job\tstarted with 7 workers\n".to_vec());
}

#[test]
fn raw_lines_round_trip_through_the_pipeline() {

    let input: &[u8] = b"at java.lang.Thread.run(Thread.java:748)\n\tcaused by\tsomething\n\
        bad byte \xff here\n\nat java.lang.Thread.run(Thread.java:748)\nlast line without newline";
    let parser = LineParser::new().unwrap();
    let mut registry = SharedRegistry::new();
    let mut acc = LogAccumulator::new();
    let mut stream = Vec::new();
    for line in input.split_inclusive(|b| *b == b'\n') {
        let (text, nl) = read_input_line(line);
        let mut entry = parser.parse(&text);
        entry.has_newline = nl;
        let (learn, extra) = split_for_learning(&entry.template_str);
        let (id, _t, vars) = registry.get_or_learn(&learn, None);
        let d = finish_digest(entry, id, vars, extra);
        if let Some(chunk) = acc.ingest(d, &registry) {
            write_chunk_internal(&mut stream, &compress_chunk(chunk).unwrap());
        }
    }
    let last = acc.take_chunk(&registry);
    write_chunk_internal(&mut stream, &compress_chunk(last).unwrap());
    let mut store = Vec::new();
    let (out, res) = LogDecompressor::decompress_to_writer(&stream, &mut store);
    assert_eq!(res, Ok(()));
    assert_eq!(out, input.to_vec());
    assert_eq!(store.len(), 5);
}

#[test]
fn blocks_are_checked_as_they_are_read() {
    let mut c = compress_chunk(second_chunk()).unwrap();
    c.ts_blob = vec![9, 9, 9];
    let mut stream = Vec::new();
    write_chunk_internal(&mut stream, &c);
    stream.truncate(stream.len() - 1);
    let mut store = Vec::new();
    let (out, res) = LogDecompressor::decompress_to_writer(&stream, &mut store);
    assert_eq!(res, Err(StzError::Decompression));
    assert!(out.is_empty());
    assert_eq!(store, vec!["Disk full".to_string()]);
}

#[test]
fn header_lines_come_back_exactly() {
    let input: &[u8] = b"2015-08-21 11:16:10,187  info Served 3 blocks\n\
        2015-08-21 11:16:10.188 1234 warning disk slow\n\
        2015-08-21 11:16:10,189 INFO Served 4 blocks\n\
        raw continuation line\n";
    let parser = LineParser::new().unwrap();
    let mut registry = SharedRegistry::new();
    let mut acc = LogAccumulator::new();
    let mut levels = Vec::new();
    for line in input.split_inclusive(|b| *b == b'\n') {
        let (text, nl) = read_input_line(line);
        let mut entry = parser.parse(&text);
        levels.push(entry.verbosity_level);
        entry.has_newline = nl;
        let (learn, extra) = split_for_learning(&entry.template_str);
        let (id, _t, vars) = registry.get_or_learn(&learn, None);
        assert!(acc.ingest(finish_digest(entry, id, vars, extra), &registry).is_none());
    }
    assert_eq!(levels, vec![LogLevel::RAW, LogLevel::RAW, LogLevel::INFO, LogLevel::RAW]);
    let mut stream = Vec::new();
    write_chunk_internal(&mut stream, &compress_chunk(acc.take_chunk(&registry)).unwrap());
    let mut store = Vec::new();
    let (out, res) = LogDecompressor::decompress_to_writer(&stream, &mut store);
    assert_eq!(res, Ok(()));
    assert_eq!(out, input.to_vec());
}

#[test]
fn crlf_lines_round_trip() {
    let input: &[u8] = b"job 7 started\r\njob 8 started\r\n\tindented\r\nno placeholder\r\nlast\r";
    let parser = LineParser::new().unwrap();
    let mut registry = SharedRegistry::new();
    let mut acc = LogAccumulator::new();
    for line in input.split_inclusive(|b| *b == b'\n') {
        let (text, nl) = read_input_line(line);
        let mut entry = parser.parse(&text);
        entry.has_newline = nl;
        let (learn, extra) = split_for_learning(&entry.template_str);
        let cluster = if learn.starts_with("job ") { Some("job <*> started".to_string()) } else { None };
        let (id, _t, vars) = registry.get_or_learn(&learn, cluster);
        assert!(acc.ingest(finish_digest(entry, id, vars, extra), &registry).is_none());
    }
    let mut stream = Vec::new();
    write_chunk_internal(&mut stream, &compress_chunk(acc.take_chunk(&registry)).unwrap());
    let mut store = Vec::new();
    let (out, res) = LogDecompressor::decompress_to_writer(&stream, &mut store);
    assert_eq!(res, Ok(()));
    assert_eq!(out, input.to_vec());
}

#[test]
fn carriage_return_taken_by_previous_line() {
    // A line without a carriage return followed by a line whose only
    // variable is its carriage return: the decoder gives that carriage
    // return to the first line.
    let input: &[u8] = b"plain\nonly\r\n";
    let parser = LineParser::new().unwrap();
    let mut registry = SharedRegistry::new();
    let mut acc = LogAccumulator::new();
    for line in input.split_inclusive(|b| *b == b'\n') {
        let (text, nl) = read_input_line(line);
        let mut entry = parser.parse(&text);
        entry.has_newline = nl;
        let (learn, extra) = split_for_learning(&entry.template_str);
        let (id, _t, vars) = registry.get_or_learn(&learn, None);
        assert!(acc.ingest(finish_digest(entry, id, vars, extra), &registry).is_none());
    }
    let mut stream = Vec::new();
    write_chunk_internal(&mut stream, &compress_chunk(acc.take_chunk(&registry)).unwrap());
    let mut store = Vec::new();
    let (out, res) = LogDecompressor::decompress_to_writer(&stream, &mut store);
    assert_eq!(res, Ok(()));
    assert_eq!(out, b"plain\r\nonly\n".to_vec());
}
