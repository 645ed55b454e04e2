//! Log levels and their one-byte codes.
use vstd::prelude::*;

use vstd::utf8::is_ascii_chars;

use crate::text::{chars_eq, chars_of, string_of};

verus! {

/// Severity of a log line, as stored in the level column.
#[derive(Debug, Clone, Copy, PartialEq, Eq, Structural)]
pub enum LogLevel {
    INFO,
    DEBUG,
    ERROR,
    WARN,
    FATAL,
    TRACE,
    RAW,
    UNKNOWN,
}

/// The byte that stands for a level in the level column.
pub open spec fn level_code(l: LogLevel) -> u8 {
    match l {
        LogLevel::INFO => 1,
        LogLevel::DEBUG => 2,
        LogLevel::ERROR => 3,
        LogLevel::WARN => 4,
        LogLevel::FATAL => 5,
        LogLevel::TRACE => 6,
        LogLevel::RAW => 255,
        LogLevel::UNKNOWN => 0,
    }
}

/// The level that a byte of the level column stands for.
pub open spec fn level_of_code(b: u8) -> LogLevel {
    if b == 1 {
        LogLevel::INFO
    } else if b == 2 {
        LogLevel::DEBUG
    } else if b == 3 {
        LogLevel::ERROR
    } else if b == 4 {
        LogLevel::WARN
    } else if b == 5 {
        LogLevel::FATAL
    } else if b == 6 {
        LogLevel::TRACE
    } else if b == 255 {
        LogLevel::RAW
    } else {
        LogLevel::UNKNOWN
    }
}

/// The name a level is printed with (its variant name).
pub open spec fn level_label(l: LogLevel) -> Seq<char> {
    match l {
        LogLevel::INFO => seq!['I', 'N', 'F', 'O'],
        LogLevel::DEBUG => seq!['D', 'E', 'B', 'U', 'G'],
        LogLevel::ERROR => seq!['E', 'R', 'R', 'O', 'R'],
        LogLevel::WARN => seq!['W', 'A', 'R', 'N'],
        LogLevel::FATAL => seq!['F', 'A', 'T', 'A', 'L'],
        LogLevel::TRACE => seq!['T', 'R', 'A', 'C', 'E'],
        LogLevel::RAW => seq!['R', 'A', 'W'],
        LogLevel::UNKNOWN => seq!['U', 'N', 'K', 'N', 'O', 'W', 'N'],
    }
}

/// The level whose label is exactly `u`; `UNKNOWN` when there is none.
pub open spec fn level_of_label(u: Seq<char>) -> LogLevel {
    if u == level_label(LogLevel::INFO) {
        LogLevel::INFO
    } else if u == level_label(LogLevel::DEBUG) {
        LogLevel::DEBUG
    } else if u == level_label(LogLevel::ERROR) {
        LogLevel::ERROR
    } else if u == level_label(LogLevel::WARN) {
        LogLevel::WARN
    } else if u == level_label(LogLevel::FATAL) {
        LogLevel::FATAL
    } else if u == level_label(LogLevel::TRACE) {
        LogLevel::TRACE
    } else if u == level_label(LogLevel::RAW) {
        LogLevel::RAW
    } else {
        LogLevel::UNKNOWN
    }
}

/// What `str::to_uppercase` returns for a string (Unicode upper-case mapping).
pub uninterp spec fn upper_case(s: Seq<char>) -> Seq<char>;

/// ASCII text with each lower-case letter made upper-case.
pub open spec fn ascii_upper(s: Seq<char>) -> Seq<char> {
    Seq::new(
        s.len(),
        |i: int|
            if 'a' <= s[i] <= 'z' {
                ((s[i] as u32) - 32) as char
            } else {
                s[i]
            },
    )
}

/// Calls `str::to_uppercase`; its result is named `upper_case`. For ASCII
/// text the Unicode mapping makes each letter `a`-`z` upper-case and keeps
/// every other character.
#[verifier::external_body]
fn to_uppercase(s: &str) -> (r: String)
    ensures
        r@ == upper_case(s@),
        is_ascii_chars(s@) ==> r@ == ascii_upper(s@),
{
    s.to_uppercase()
}

impl LogLevel {
    /// The level's code byte.
    pub fn to_u8(&self) -> (b: u8)
        ensures
            b == level_code(*self),
    {
        match self {
            LogLevel::INFO => 1,
            LogLevel::DEBUG => 2,
            LogLevel::ERROR => 3,
            LogLevel::WARN => 4,
            LogLevel::FATAL => 5,
            LogLevel::TRACE => 6,
            LogLevel::RAW => 255,
            LogLevel::UNKNOWN => 0,
        }
    }

    /// The level that a code byte stands for; unknown codes give `UNKNOWN`.
    pub fn from_u8(val: u8) -> (l: LogLevel)
        ensures
            l == level_of_code(val),
    {
        match val {
            1 => LogLevel::INFO,
            2 => LogLevel::DEBUG,
            3 => LogLevel::ERROR,
            4 => LogLevel::WARN,
            5 => LogLevel::FATAL,
            6 => LogLevel::TRACE,
            255 => LogLevel::RAW,
            _ => LogLevel::UNKNOWN,
        }
    }

    /// The level's printed name, such as `INFO`.
    pub fn label(&self) -> (s: String)
        ensures
            s@ == level_label(*self),
    {
        match self {
            LogLevel::INFO => string_of(&['I', 'N', 'F', 'O']),
            LogLevel::DEBUG => string_of(&['D', 'E', 'B', 'U', 'G']),
            LogLevel::ERROR => string_of(&['E', 'R', 'R', 'O', 'R']),
            LogLevel::WARN => string_of(&['W', 'A', 'R', 'N']),
            LogLevel::FATAL => string_of(&['F', 'A', 'T', 'A', 'L']),
            LogLevel::TRACE => string_of(&['T', 'R', 'A', 'C', 'E']),
            LogLevel::RAW => string_of(&['R', 'A', 'W']),
            LogLevel::UNKNOWN => string_of(&['U', 'N', 'K', 'N', 'O', 'W', 'N']),
        }
    }

    /// The level named by `s`, compared after upper-casing it; any other
    /// name gives `UNKNOWN`.
    pub fn from_name(s: &str) -> (l: LogLevel)
        ensures
            l == level_of_label(upper_case(s@)),
            is_ascii_chars(s@) ==> l == level_of_label(ascii_upper(s@)),
    {
        let up = to_uppercase(s);
        let u = chars_of(up.as_str());
        if chars_eq(&u, &['I', 'N', 'F', 'O']) {
            LogLevel::INFO
        } else if chars_eq(&u, &['D', 'E', 'B', 'U', 'G']) {
            LogLevel::DEBUG
        } else if chars_eq(&u, &['E', 'R', 'R', 'O', 'R']) {
            LogLevel::ERROR
        } else if chars_eq(&u, &['W', 'A', 'R', 'N']) {
            LogLevel::WARN
        } else if chars_eq(&u, &['F', 'A', 'T', 'A', 'L']) {
            LogLevel::FATAL
        } else if chars_eq(&u, &['T', 'R', 'A', 'C', 'E']) {
            LogLevel::TRACE
        } else if chars_eq(&u, &['R', 'A', 'W']) {
            LogLevel::RAW
        } else {
            LogLevel::UNKNOWN
        }
    }
}

impl<'a> From<&'a str> for LogLevel {
    /// The level named by `s` (see `from_name`).
    fn from(s: &'a str) -> (l: LogLevel)
        ensures
            is_ascii_chars(s@) ==> l == level_of_label(ascii_upper(s@)),
    {
        LogLevel::from_name(s)
    }
}

impl<'a> vstd::std_specs::convert::FromSpecImpl<&'a str> for LogLevel {
    open spec fn obeys_from_spec() -> bool {
        true
    }

    open spec fn from_spec(s: &'a str) -> LogLevel {
        level_of_label(upper_case(s@))
    }
}

/// Decoding a level's code gives the level back.
pub proof fn law_level_code_roundtrip(l: LogLevel)
    ensures
        level_of_code(level_code(l)) == l,
{
}

/// A byte decodes to a level whose code is the byte itself, unless the byte
/// is no level's code, in which case it decodes to `UNKNOWN` (code 0).
pub proof fn law_code_level_roundtrip(b: u8)
    ensures
        (b <= 6 || b == 255) ==> level_code(level_of_code(b)) == b,
        !(b <= 6 || b == 255) ==> level_of_code(b) == LogLevel::UNKNOWN,
{
}

/// Reading a level's printed name gives the level back, and so does
/// reading it upper-cased (it is upper-case ASCII already).
pub proof fn law_label_roundtrip(l: LogLevel)
    ensures
        level_of_label(level_label(l)) == l,
        is_ascii_chars(level_label(l)),
        level_of_label(ascii_upper(level_label(l))) == l,
{
    assert(level_label(LogLevel::INFO) != level_label(LogLevel::DEBUG));
    assert(ascii_upper(level_label(l)) =~= level_label(l));
}

} // verus!
