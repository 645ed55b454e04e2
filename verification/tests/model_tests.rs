use stz::level::LogLevel;
use stz::parser::parse_line;
use stz::pipeline::{finish_digest, split_for_learning, ReorderBuffer};

#[test]
fn level_codes_round_trip() {
    let all = [
        LogLevel::INFO,
        LogLevel::DEBUG,
        LogLevel::ERROR,
        LogLevel::WARN,
        LogLevel::FATAL,
        LogLevel::TRACE,
        LogLevel::RAW,
        LogLevel::UNKNOWN,
    ];
    let codes = [1u8, 2, 3, 4, 5, 6, 255, 0];
    for (l, c) in all.iter().zip(codes.iter()) {
        assert_eq!(l.to_u8(), *c);
        assert_eq!(LogLevel::from_u8(*c), *l);
        assert_eq!(LogLevel::from_u8(l.to_u8()), *l);
    }
    assert_eq!(LogLevel::from_u8(7), LogLevel::UNKNOWN);
    assert_eq!(LogLevel::from_u8(200), LogLevel::UNKNOWN);
}

#[test]
fn level_names() {
    assert_eq!(LogLevel::INFO.label(), "INFO");
    assert_eq!(LogLevel::UNKNOWN.label(), "UNKNOWN");
    assert_eq!(LogLevel::from_name("info"), LogLevel::INFO);
    assert_eq!(LogLevel::from_name("Warn"), LogLevel::WARN);
    assert_eq!(LogLevel::from_name("RAW"), LogLevel::RAW);
    assert_eq!(LogLevel::from_name("verbose"), LogLevel::UNKNOWN);
    for l in [LogLevel::FATAL, LogLevel::TRACE, LogLevel::DEBUG, LogLevel::ERROR] {
        assert_eq!(LogLevel::from_name(&l.label()), l);
        assert_eq!(LogLevel::from(l.label().as_str()), l);
    }
    assert_eq!(LogLevel::from("debug"), LogLevel::DEBUG);
    let l: LogLevel = "fatal".into();
    assert_eq!(l, LogLevel::FATAL);
    assert_eq!(LogLevel::from("ınfo"), LogLevel::INFO);
}

#[test]
fn parse_hadoop_line() {
    let e = parse_line("2015-08-21 11:16:10,187 INFO Receiving block blk_1 src").unwrap();
    assert_eq!(e.timestamp.as_deref(), Some("2015-08-21 11:16:10,187"));
    assert_eq!(e.verbosity_level, LogLevel::INFO);
    assert_eq!(e.template_str, "Receiving block blk_1 src");
    assert!(e.has_newline);
}

#[test]
fn parse_nova_line() {
    // Its PID and the dot before the milliseconds would not come back: the
    // line is kept whole.
    let e = parse_line("2015-08-21 11:16:10.187 2931 WARN nova.compute x=1").unwrap();
    assert_eq!(e.timestamp, None);
    assert_eq!(e.verbosity_level, LogLevel::RAW);
    assert_eq!(e.template_str, "2015-08-21 11:16:10.187 2931 WARN nova.compute x=1");
}

#[test]
fn parse_header_kept_only_when_exact() {
    for line in [
        "2015-08-21 11:16:10,187 info lower-case level",
        "2015-08-21 11:16:10,187  INFO two spaces",
        "2015-02-30 11:16:10,187 INFO no such day",
    ] {
        let e = parse_line(line).unwrap();
        assert_eq!(e.verbosity_level, LogLevel::RAW);
        assert_eq!(e.timestamp, None);
        assert_eq!(e.template_str, line);
    }
    let e = parse_line("2015-08-21 11:16:10,187 ERROR kept\n").unwrap();
    assert_eq!(e.verbosity_level, LogLevel::ERROR);
    assert_eq!(e.template_str, "kept");
}

#[test]
fn parse_raw_line() {
    let e = parse_line("\tat org.apache.Foo(Foo.java:12)\n").unwrap();
    assert_eq!(e.timestamp, None);
    assert_eq!(e.verbosity_level, LogLevel::RAW);
    assert_eq!(e.template_str, "\tat org.apache.Foo(Foo.java:12)");
    let e = parse_line("Aug 21 11:16:10 host app: message").unwrap();
    assert_eq!(e.verbosity_level, LogLevel::RAW);
    assert_eq!(e.template_str, "Aug 21 11:16:10 host app: message");
}

#[test]
fn parse_unknown_level() {
    // An unknown level word would be dropped when written back: raw.
    let e = parse_line("2015-08-21 11:16:10,187 NOTICE started").unwrap();
    assert_eq!(e.verbosity_level, LogLevel::RAW);
    assert_eq!(e.template_str, "2015-08-21 11:16:10,187 NOTICE started");
}

#[test]
fn learning_split_cases() {
    assert_eq!(split_for_learning("plain"), ("plain".to_string(), None));
    assert_eq!(
        split_for_learning("windows\r"),
        ("windows".to_string(), Some("\r".to_string()))
    );
    assert_eq!(
        split_for_learning("first\r\nsecond"),
        ("first".to_string(), Some("\r\nsecond".to_string()))
    );
    assert_eq!(
        split_for_learning("first\nsecond"),
        ("first".to_string(), Some("\nsecond".to_string()))
    );
}

#[test]
fn digest_appends_extra_variable() {
    let e = parse_line("x\r").unwrap();
    let d = finish_digest(e, 7, vec!["a".to_string()], Some("\r".to_string()));
    assert_eq!(d.template_id, 7);
    assert_eq!(d.variables, vec!["a".to_string(), "\r".to_string()]);
    assert_eq!(d.verbosity_level, LogLevel::RAW);
}

#[test]
fn reorder_buffer_hands_out_in_order() {
    let mut b: ReorderBuffer<&str> = ReorderBuffer::new();
    b.insert(2, "c");
    b.insert(1, "b");
    assert_eq!(b.pop_next(), None);
    b.insert(0, "a");
    assert_eq!(b.pop_next(), Some("a"));
    assert_eq!(b.pop_next(), Some("b"));
    assert_eq!(b.pop_next(), Some("c"));
    assert_eq!(b.pop_next(), None);
}
