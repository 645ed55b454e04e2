# stz

A semantic log compressor with a verified core. Log lines are parsed into a
timestamp, a level and a body; bodies are clustered into templates, and each
chunk of lines is stored column by column (templates, timestamps as deltas,
levels, template ids, length-prefixed variables, bit-packed newline flags),
each column compressed with zstd. Decompression rebuilds the lines.

## Layout

- `src/` — the library, verified with Verus:
  - `text.rs` — search, split, join and replace on characters, with their models;
  - `level.rs` — log levels, their codes and names;
  - `models.rs` — the records passed between the stages, and the error type;
  - `parser.rs` — reading a line's header (Hadoop and Nova styles) with `regex`;
  - `input.rs` — reading a line's bytes as text, escaping invalid UTF-8;
  - `template.rs` — variables of a line under a template, stored templates, tab escapes;
  - `registry.rs` — the table from template hash to sequential id;
  - `pipeline.rs` — the per-line steps before chunking, and the reorder buffer;
  - `accumulator.rs` — gathering lines into chunk columns;
  - `codec.rs` — the byte encodings of the columns;
  - `compress.rs` — compressing a chunk (zstd, serde_json) and timestamp parsing (chrono);
  - `container.rs` — stream and archive framing;
  - `decompress.rs` — rebuilding lines from chunks and streams;
  - `roundtrip.rs` — what compressing a run of lines and decompressing the stream gives back.
- `app/` — the command-line program: files, threads, progress bars, the
  drain clustering tree, directory walking.
- `tests/` — tests of the library.
