//! Reading a raw log line: a Hadoop-style or an OpenStack-Nova-style header
//! gives the timestamp and level, when the line is written back exactly
//! from them; any other line is kept whole, as raw.
use vstd::prelude::*;

use vstd::utf8::is_ascii_chars;

use crate::compress::{parse_timestamp_millis, timestamp_millis};
use crate::decompress::{format_timestamp, timestamp_text};
use crate::level::{ascii_upper, level_label, level_of_label, upper_case, LogLevel};
use crate::models::LogEntry;
use crate::text::{
    append_chars, chars_eq, chars_of, replace_all, replace_exec, string_of, trim_end_char,
    trim_end_char_exec,
};

verus! {

#[verifier::external_type_specification]
#[verifier::external_body]
pub struct ExRegex(regex::Regex);

/// A compiled header pattern with its source text.
pub struct HeaderPattern {
    source: String,
    re: regex::Regex,
}

impl HeaderPattern {
    /// The pattern's source text.
    pub closed spec fn source(&self) -> Seq<char> {
        self.source@
    }
}

/// Whether `regex::Regex::new` accepts a pattern.
pub uninterp spec fn regex_compiles(source: Seq<char>) -> bool;

/// What `Regex::captures` finds at the start of a line for a header
/// pattern: the text of its `ts` group, the text of its `lvl` group, and the
/// rest of the line after the whole match; `None` where it does not match.
pub uninterp spec fn header_captures(source: Seq<char>, line: Seq<char>) -> Option<
    (Seq<char>, Seq<char>, Seq<char>),
>;

/// Calls `regex::Regex::new`; whether it succeeds is named `regex_compiles`.
/// The pattern keeps its source text. The two header patterns compile:
/// their syntax is valid (named groups, `\d`, `\s`, `\w`, counted
/// repetitions) and they are far below the size limit.
#[verifier::external_body]
fn compile_pattern(source: &str) -> (r: Option<HeaderPattern>)
    ensures
        r is Some <==> regex_compiles(source@),
        r matches Some(p) ==> p.source() == source@,
        source@ == hadoop_pattern() || source@ == nova_pattern() ==> r is Some,
{
    match regex::Regex::new(source) {
        Ok(re) => Some(HeaderPattern { source: source.to_string(), re }),
        Err(_) => None,
    }
}

/// Calls `Regex::captures` with the pattern compiled from its source and
/// reads the `ts` and `lvl` groups and the text after the match; the result
/// is named `header_captures`.
#[verifier::external_body]
fn capture_header(p: &HeaderPattern, line: &str) -> (r: Option<(String, String, String)>)
    ensures
        r is None <==> header_captures(p.source(), line@) is None,
        r matches Some(c) ==> header_captures(p.source(), line@) == Some((c.0@, c.1@, c.2@)),
{
    match p.re.captures(line) {
        Some(caps) => match (caps.name("ts"), caps.name("lvl"), caps.get(0)) {
            (Some(ts), Some(lvl), Some(m)) => Some(
                (ts.as_str().to_string(), lvl.as_str().to_string(), line[m.end()..].to_string()),
            ),
            _ => None,
        },
        None => None,
    }
}

/// The Hadoop header: `2015-08-21 11:16:10,187 INFO `.
pub open spec fn hadoop_pattern() -> Seq<char> {
    "^(?P<ts>\\d{4}-\\d{2}-\\d{2} \\d{2}:\\d{2}:\\d{2},\\d{3})\\s+(?P<lvl>\\w+)\\s"@
}

/// The Nova header: `2015-08-21 11:16:10.187 PID LEVEL `.
pub open spec fn nova_pattern() -> Seq<char> {
    "^(?P<ts>\\d{4}-\\d{2}-\\d{2} \\d{2}:\\d{2}:\\d{2}\\.\\d{3})\\s+(?P<pid>\\d+)\\s+(?P<lvl>\\w+)\\s"@
}

/// The parts of a parsed line: timestamp text, level, body, newline flag.
pub open spec fn entry_view(e: LogEntry) -> (Option<Seq<char>>, LogLevel, Seq<char>, bool) {
    (
        match e.timestamp {
            Some(t) => Some(t@),
            None => None,
        },
        e.verbosity_level,
        e.template_str@,
        e.has_newline,
    )
}

/// How a line's header reads: a Hadoop header gives its timestamp and
/// level; else a Nova header gives its timestamp (the dot before the
/// milliseconds made a comma) and level; else the line is raw. The body is
/// the rest of the line without trailing line feeds.
pub open spec fn header_reading(line: Seq<char>) -> (Option<Seq<char>>, LogLevel, Seq<char>, bool) {
    match header_captures(hadoop_pattern(), line) {
        Some((ts, lvl, rest)) => (
            Some(ts),
            level_of_label(upper_case(lvl)),
            trim_end_char(rest, '\n'),
            true,
        ),
        None => match header_captures(nova_pattern(), line) {
            Some((ts, lvl, rest)) => (
                Some(replace_all(ts, seq!['.'], seq![','])),
                level_of_label(upper_case(lvl)),
                trim_end_char(rest, '\n'),
                true,
            ),
            None => (None, LogLevel::RAW, trim_end_char(line, '\n'), true),
        },
    }
}

/// The text an entry with this timestamp text, level and body is written
/// back as: a raw line (level RAW) as its body; any other as its timestamp
/// in milliseconds written `%Y-%m-%d %H:%M:%S,%3f`, a space, the level's
/// name and a space (no name for UNKNOWN), then its body.
pub open spec fn written_text(ts: Option<Seq<char>>, level: LogLevel, body: Seq<char>) -> Seq<char> {
    if level == LogLevel::RAW {
        body
    } else {
        let t = timestamp_text(
            timestamp_millis(
                match ts {
                    Some(t) => t,
                    None => Seq::empty(),
                },
            ),
        );
        if level == LogLevel::UNKNOWN {
            t + seq![' '] + body
        } else {
            t + seq![' '] + level_label(level) + seq![' '] + body
        }
    }
}

/// How a line is read: its header reading, when the line (without trailing
/// line feeds) is written back from it exactly; else the whole line, raw.
/// So a header is kept only where decompression gives it back byte for
/// byte (a Nova header, whose PID is not stored, never is).
pub open spec fn parsed_line(line: Seq<char>) -> (Option<Seq<char>>, LogLevel, Seq<char>, bool) {
    let h = header_reading(line);
    if written_text(h.0, h.1, h.2) == trim_end_char(line, '\n') {
        h
    } else {
        (None, LogLevel::RAW, trim_end_char(line, '\n'), true)
    }
}

/// A header reading with a level other than RAW and UNKNOWN is written back
/// with its level's name after the timestamp text (which reads back as
/// that level); UNKNOWN without a name; RAW as the body alone.
pub proof fn law_written_text_names_level(ts: Option<Seq<char>>, level: LogLevel, body: Seq<char>)
    ensures
        ({
            let t = timestamp_text(
                timestamp_millis(
                    match ts {
                        Some(x) => x,
                        None => Seq::empty(),
                    },
                ),
            );
            &&& level != LogLevel::RAW && level != LogLevel::UNKNOWN ==> written_text(ts, level, body)
                == t + seq![' '] + level_label(level) + seq![' '] + body
            &&& level != LogLevel::RAW && level != LogLevel::UNKNOWN ==> level_of_label(
                written_text(ts, level, body).subrange(
                    t.len() + 1int,
                    t.len() + 1int + level_label(level).len(),
                ),
            ) == level
            &&& level == LogLevel::UNKNOWN ==> written_text(ts, level, body) == t + seq![' '] + body
            &&& level == LogLevel::RAW ==> written_text(ts, level, body) == body
        }),
{
    crate::level::law_label_roundtrip(level);
    if level != LogLevel::RAW && level != LogLevel::UNKNOWN {
        let t = timestamp_text(
            timestamp_millis(
                match ts {
                    Some(x) => x,
                    None => Seq::empty(),
                },
            ),
        );
        let w = t + seq![' '] + level_label(level) + seq![' '] + body;
        assert(w.subrange(t.len() + 1int, t.len() + 1int + level_label(level).len()) =~= level_label(
            level,
        ));
    }
}

/// A header is dropped only where it would not come back: for every line
/// and every level, when writing the header reading back gives the line
/// (without trailing line feeds), the line is read with its header; else
/// it is read raw, whole.
pub proof fn law_header_kept_when_exact(line: Seq<char>)
    ensures
        ({
            let h = header_reading(line);
            let l = trim_end_char(line, '\n');
            &&& written_text(h.0, h.1, h.2) == l ==> parsed_line(line) == h
            &&& written_text(h.0, h.1, h.2) != l ==> parsed_line(line) == (
                None::<Seq<char>>,
                LogLevel::RAW,
                l,
                true,
            )
        }),
{
}

/// The level word a line's header gives (Hadoop header first, then Nova);
/// `None` for a raw line.
pub open spec fn header_level_word(line: Seq<char>) -> Option<Seq<char>> {
    match header_captures(hadoop_pattern(), line) {
        Some((ts, lvl, rest)) => Some(lvl),
        None => match header_captures(nova_pattern(), line) {
            Some((ts, lvl, rest)) => Some(lvl),
            None => None,
        },
    }
}

/// An ASCII level word of a header gives the level named by its ASCII
/// upper-casing.
pub open spec fn ascii_level_rule(line: Seq<char>) -> bool {
    header_level_word(line) matches Some(w) ==> (is_ascii_chars(w) ==> header_reading(line).1
        == level_of_label(ascii_upper(w)))
}

/// The two compiled header patterns.
pub struct LineParser {
    hadoop: HeaderPattern,
    nova: HeaderPattern,
}

impl LineParser {
    /// The parser is built from the Hadoop and Nova patterns.
    pub closed spec fn wf(&self) -> bool {
        self.hadoop.source() == hadoop_pattern() && self.nova.source() == nova_pattern()
    }

    /// Compiles the header patterns (which the regex engine accepts).
    pub fn new() -> (r: Option<LineParser>)
        ensures
            r is Some,
            r matches Some(p) ==> p.wf(),
    {
        let hadoop = compile_pattern(
            "^(?P<ts>\\d{4}-\\d{2}-\\d{2} \\d{2}:\\d{2}:\\d{2},\\d{3})\\s+(?P<lvl>\\w+)\\s",
        );
        let nova = compile_pattern(
            "^(?P<ts>\\d{4}-\\d{2}-\\d{2} \\d{2}:\\d{2}:\\d{2}\\.\\d{3})\\s+(?P<pid>\\d+)\\s+(?P<lvl>\\w+)\\s",
        );
        match (hadoop, nova) {
            (Some(hadoop), Some(nova)) => Some(LineParser { hadoop, nova }),
            _ => None,
        }
    }

    /// Reads a line's header (see `header_reading`).
    fn read_header(&self, raw_line: &str) -> (e: LogEntry)
        requires
            self.wf(),
        ensures
            entry_view(e) == header_reading(raw_line@),
            ascii_level_rule(raw_line@),
    {
        match capture_header(&self.hadoop, raw_line) {
            Some((ts, lvl, rest)) => {
                let level = LogLevel::from_name(lvl.as_str());
                let body = trim_end_char_exec(chars_of(rest.as_str()).as_slice(), '\n');
                return LogEntry {
                    timestamp: Some(ts),
                    verbosity_level: level,
                    template_str: string_of(body.as_slice()),
                    has_newline: true,
                };
            },
            None => {},
        }
        match capture_header(&self.nova, raw_line) {
            Some((ts, lvl, rest)) => {
                let dot = ['.'];
                let comma = [','];
                assert(dot@ == seq!['.']);
                assert(comma@ == seq![',']);
                let ts_fixed = replace_exec(chars_of(ts.as_str()).as_slice(), &dot, &comma);
                let level = LogLevel::from_name(lvl.as_str());
                let body = trim_end_char_exec(chars_of(rest.as_str()).as_slice(), '\n');
                LogEntry {
                    timestamp: Some(string_of(ts_fixed.as_slice())),
                    verbosity_level: level,
                    template_str: string_of(body.as_slice()),
                    has_newline: true,
                }
            },
            None => {
                let body = trim_end_char_exec(chars_of(raw_line).as_slice(), '\n');
                LogEntry {
                    timestamp: None,
                    verbosity_level: LogLevel::RAW,
                    template_str: string_of(body.as_slice()),
                    has_newline: true,
                }
            },
        }
    }

    /// Reads a raw line (see `parsed_line`): the header reading is kept
    /// when writing it back gives the line exactly, else the line is raw.
    pub fn parse(&self, raw_line: &str) -> (e: LogEntry)
        requires
            self.wf(),
        ensures
            entry_view(e) == parsed_line(raw_line@),
            ascii_level_rule(raw_line@),
    {
        let header = self.read_header(raw_line);
        let line = trim_end_char_exec(chars_of(raw_line).as_slice(), '\n');
        let written = written_text_exec(&header);
        if chars_eq(written.as_slice(), line.as_slice()) {
            header
        } else {
            LogEntry {
                timestamp: None,
                verbosity_level: LogLevel::RAW,
                template_str: string_of(line.as_slice()),
                has_newline: true,
            }
        }
    }
}

/// The text an entry is written back as (see `written_text`).
fn written_text_exec(e: &LogEntry) -> (r: Vec<char>)
    ensures
        r@ == written_text(entry_view(*e).0, e.verbosity_level, e.template_str@),
{
    let body = chars_of(e.template_str.as_str());
    if e.verbosity_level == LogLevel::RAW {
        return body;
    }
    let ms = match &e.timestamp {
        Some(t) => parse_timestamp_millis(t.as_str()),
        None => parse_timestamp_millis(""),
    };
    proof {
        reveal_strlit("");
        assert(""@ =~= Seq::<char>::empty());
    }
    let mut r = chars_of(format_timestamp(ms).as_str());
    r.push(' ');
    if e.verbosity_level != LogLevel::UNKNOWN {
        let name = chars_of(e.verbosity_level.label().as_str());
        append_chars(&mut r, name.as_slice());
        r.push(' ');
    }
    append_chars(&mut r, body.as_slice());
    r
}

/// Reads a raw line, compiling the header patterns for the call.
pub fn parse_line(raw_line: &str) -> (r: Option<LogEntry>)
    ensures
        r is Some,
        r matches Some(e) ==> entry_view(e) == parsed_line(raw_line@),
        ascii_level_rule(raw_line@),
{
    match LineParser::new() {
        Some(p) => Some(p.parse(raw_line)),
        None => None,
    }
}

} // verus!
