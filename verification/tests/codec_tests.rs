use stz::codec::{
    decode_ids, decode_timestamps, decode_vars, encode_ids, encode_timestamps, encode_vars,
    pack_newlines, unpack_newlines,
};
use stz::compress::{compress_chunk, parse_timestamp_millis};
use stz::decompress::{decode_chunk, format_timestamp, render_lines, LogDecompressor};
use stz::models::{RawChunk, StzError};

#[test]
fn timestamps_are_delta_encoded() {
    let ts = vec![1000u64, 1500, 900];
    let b = encode_timestamps(&ts);
    let mut expected = Vec::new();
    expected.extend_from_slice(&1000u64.to_le_bytes());
    expected.extend_from_slice(&500i64.to_le_bytes());
    expected.extend_from_slice(&(-600i64).to_le_bytes());
    assert_eq!(b, expected);
    assert_eq!(decode_timestamps(&b), ts);
    assert!(encode_timestamps(&[]).is_empty());
    assert!(decode_timestamps(&[1, 2, 3]).is_empty());
}

#[test]
fn timestamps_wrap_modulo() {
    let ts = vec![u64::MAX, 0, u64::MAX / 2];
    assert_eq!(decode_timestamps(&encode_timestamps(&ts)), ts);
}

#[test]
fn ids_are_little_endian() {
    let ids = vec![1u32, 0x01020304];
    let b = encode_ids(&ids);
    assert_eq!(b, vec![1, 0, 0, 0, 4, 3, 2, 1]);
    assert_eq!(decode_ids(&b), ids);
    assert_eq!(decode_ids(&[1, 0, 0, 0, 9]), vec![1]);
}

#[test]
fn vars_are_length_prefixed() {
    let vars = vec!["ab".to_string(), String::new(), "é".to_string()];
    let b = encode_vars(&vars);
    assert_eq!(b, vec![2, 0, b'a', b'b', 0, 0, 2, 0, 0xc3, 0xa9]);
    assert_eq!(decode_vars(&b), vars);
    assert_eq!(decode_vars(&[5, 0, b'a']), Vec::<String>::new());
    assert_eq!(decode_vars(&[1, 0, 0xff]), vec!["\u{fffd}".to_string()]);
}

#[test]
fn newlines_are_bit_packed() {
    let nl = vec![true, false, true];
    let b = pack_newlines(&nl);
    assert_eq!(b, vec![0b101]);
    let back = unpack_newlines(&b);
    assert_eq!(back, vec![true, false, true, false, false, false, false, false]);
    let nine = vec![true; 9];
    assert_eq!(pack_newlines(&nine), vec![0xff, 0x01]);
}

#[test]
fn timestamp_text_to_millis() {
    assert_eq!(parse_timestamp_millis("2015-08-21 11:16:10,187"), 1440155770187);
    assert_eq!(parse_timestamp_millis("2015-08-21 11:16:10.187"), 1440155770187);
    assert_eq!(parse_timestamp_millis("2015-08-21 11:16:10,1"), 1440155770100);
    assert_eq!(parse_timestamp_millis("2015-08-21 11:16:10"), 1440155770000);
    assert_eq!(parse_timestamp_millis("not a time"), 0);
    assert_eq!(parse_timestamp_millis(""), 0);
}

#[test]
fn millis_to_timestamp_text() {
    assert_eq!(format_timestamp(0), "1970-01-01 00:00:00,000");
    assert_eq!(format_timestamp(1440155770187), "2015-08-21 11:16:10,187");
    assert_eq!(format_timestamp(u64::MAX), "1970-01-01 00:00:00,000");
}

#[test]
fn byte_escapes_are_decoded() {
    assert_eq!(LogDecompressor::write_decoded("a__BYTE_41__b"), Some(b"aAb".to_vec()));
    assert_eq!(LogDecompressor::write_decoded("__BYTE_ff__"), Some(vec![0xff]));
    assert_eq!(LogDecompressor::write_decoded("__BYTE_+F__"), Some(vec![0x0f]));
    assert_eq!(LogDecompressor::write_decoded("__BYTE_4G__"), Some(b"__BYTE_4G__".to_vec()));
    assert_eq!(LogDecompressor::write_decoded("__BYTE_41_"), Some(b"__BYTE_41_".to_vec()));
    assert_eq!(LogDecompressor::write_decoded("x__BYTE_aé_"), None);
}

fn sample_chunk() -> RawChunk {
    RawChunk {
        chunk_id: 0,
        registry_delta: vec!["User <VAR> logged in".to_string(), "Disk__TAB__full".to_string()],
        ts_col: vec![1440155770187, 0, 5],
        lvl_col: vec![1, 255, 0],
        id_col: vec![0, 1, 7],
        var_col: vec!["bob".to_string()],
        nl_col: vec![true, false, true],
    }
}

#[test]
fn render_chunk_lines() {
    let raw = sample_chunk();
    let out = render_lines(
        &raw.registry_delta,
        &raw.ts_col,
        &raw.lvl_col,
        &raw.id_col,
        &raw.var_col,
        &raw.nl_col,
    )
    .unwrap();
    assert_eq!(
        String::from_utf8(out).unwrap(),
        "2015-08-21 11:16:10,187 INFO User bob logged in\nDisk\tfull"
    );
}

#[test]
fn render_needs_timestamps() {
    let r = render_lines(
        &vec!["x".to_string()],
        &vec![],
        &vec![1],
        &vec![0],
        &vec![],
        &vec![true],
    );
    assert_eq!(r, Err(StzError::MissingTimestamp));
}

#[test]
fn render_unknown_level_and_continuation() {
    let out = render_lines(
        &vec!["a <VAR> b".to_string()],
        &vec![0],
        &vec![0],
        &vec![0],
        &vec!["x".to_string(), "\r".to_string()],
        &vec![],
    )
    .unwrap();
    assert_eq!(String::from_utf8(out).unwrap(), "1970-01-01 00:00:00,000 a x b\r\n");
}

#[test]
fn compress_then_decode_chunk() {
    let raw = sample_chunk();
    let expected = render_lines(
        &raw.registry_delta,
        &raw.ts_col,
        &raw.lvl_col,
        &raw.id_col,
        &raw.var_col,
        &raw.nl_col,
    )
    .unwrap();
    let c = compress_chunk(raw).unwrap();
    assert_eq!(c.chunk_id, 0);
    let mut store = vec!["old".to_string()];
    let out = decode_chunk(&mut store, &c);
    assert_eq!(store.len(), 3);
    assert_eq!(store[1], "User <VAR> logged in");
    let out = out.unwrap();
    assert_ne!(out, expected);
    let mut store2 = Vec::new();
    let out2 = decode_chunk(&mut store2, &c).unwrap();
    assert_eq!(out2, expected);
}

#[test]
fn decode_rejects_garbage() {
    let raw = sample_chunk();
    let mut c = compress_chunk(raw).unwrap();
    c.ts_blob = vec![1, 2, 3];
    let mut store = Vec::new();
    assert_eq!(decode_chunk(&mut store, &c), Err(StzError::Decompression));
    assert_eq!(store.len(), 2);
    let mut c2 = compress_chunk(sample_chunk()).unwrap();
    c2.registry_blob = zstd::encode_all(&b"not json"[..], 3).unwrap();
    let mut store2 = Vec::new();
    assert_eq!(decode_chunk(&mut store2, &c2), Err(StzError::Registry));
    assert!(store2.is_empty());
}

#[test]
fn compress_chunk_blocks() {
    let raw = RawChunk {
        chunk_id: 7,
        registry_delta: vec!["a <VAR>".to_string()],
        ts_col: vec![1000, 1500, 1200],
        lvl_col: vec![1, 3, 255],
        id_col: vec![0, 0, 1],
        var_col: vec!["x".to_string(), "yz".to_string()],
        nl_col: vec![true, false, true],
    };
    let c = compress_chunk(raw).unwrap();
    assert_eq!(c.chunk_id, 7);
    let d = |b: &Vec<u8>| zstd::decode_all(&b[..]).unwrap();
    assert_eq!(d(&c.registry_blob), b"[\"a <VAR>\"]".to_vec());
    let mut ts = Vec::new();
    ts.extend_from_slice(&1000u64.to_le_bytes());
    ts.extend_from_slice(&500i64.to_le_bytes());
    ts.extend_from_slice(&(-300i64).to_le_bytes());
    assert_eq!(d(&c.ts_blob), ts);
    assert_eq!(d(&c.lvl_blob), vec![1, 3, 255]);
    assert_eq!(d(&c.id_blob), vec![0, 0, 0, 0, 0, 0, 0, 0, 1, 0, 0, 0]);
    assert_eq!(d(&c.var_blob), vec![1, 0, b'x', 2, 0, b'y', b'z']);
    assert_eq!(d(&c.nl_blob), vec![0b101]);
}
