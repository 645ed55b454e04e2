//! The records that flow through compression and decompression.
use vstd::prelude::*;

use crate::level::LogLevel;

verus! {

/// A parsed log line: its timestamp text (if it had one), its level, and
/// the rest of the line.
#[derive(Debug, Clone)]
pub struct LogEntry {
    pub timestamp: Option<String>,
    pub verbosity_level: LogLevel,
    pub template_str: String,
    pub has_newline: bool,
}

/// A parsed line after template learning: its template id and variables.
#[derive(Debug, Clone)]
pub struct PreDigestedEntry {
    pub timestamp: Option<String>,
    pub verbosity_level: LogLevel,
    pub template_id: u32,
    pub variables: Vec<String>,
    pub has_newline: bool,
}

/// The columns of a chunk of lines, with the templates first used in it.
#[derive(Debug)]
pub struct RawChunk {
    pub chunk_id: usize,
    pub registry_delta: Vec<String>,
    pub ts_col: Vec<u64>,
    pub lvl_col: Vec<u8>,
    pub id_col: Vec<u32>,
    pub var_col: Vec<String>,
    pub nl_col: Vec<bool>,
}

/// A chunk with each column encoded and compressed.
#[derive(Debug)]
pub struct CompressedChunk {
    pub chunk_id: usize,
    pub registry_blob: Vec<u8>,
    pub ts_blob: Vec<u8>,
    pub lvl_blob: Vec<u8>,
    pub id_blob: Vec<u8>,
    pub var_blob: Vec<u8>,
    pub nl_blob: Vec<u8>,
}

/// Why a chunk could not be compressed or decompressed.
#[derive(Debug, Clone, Copy, PartialEq, Eq, Structural)]
pub enum StzError {
    /// The compressor reported an error.
    Compression,
    /// A block is not a valid compressed frame.
    Decompression,
    /// The registry block does not hold a list of strings.
    Registry,
    /// A line names a known template but the chunk has no timestamp for it.
    MissingTimestamp,
    /// A byte escape is cut through a multi-byte character.
    SplitEscape,
    /// A stream or an archive ends inside a block.
    Truncated,
}

} // verus!
