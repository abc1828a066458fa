use bytes::Bytes;
use logparse::parser::{Event, Field, ModeConfig, Parser};

fn lenient() -> ModeConfig {
    ModeConfig { multi_match: false, strict: false }
}

fn strict() -> ModeConfig {
    ModeConfig { multi_match: false, strict: true }
}

fn multi() -> ModeConfig {
    ModeConfig { multi_match: true, strict: false }
}

fn event(pairs: &[(&str, &str)]) -> Event {
    let mut fields = Vec::new();
    for (name, value) in pairs {
        fields.push(Field { name: name.to_string(), value: value.to_string() });
    }
    Event { fields }
}

#[test]
fn it_works() {
    let parser = Parser::new("f=(?P<f>\\w+)?", lenient()).unwrap();
    let bytes = Bytes::from("f=1\nf=2\n");
    let events = parser.parse(&bytes).unwrap();
    assert_eq!(2, events.len());
    let first = event(&[("f", "1")]);
    let second = event(&[("f", "2")]);
    assert_eq!(vec![first, second], events);
}

#[test]
fn rust_env_logger() {
    let parser = Parser::new("\\[(?P<timestamp>([0-9]+)-(0[1-9]|1[012])-(0[1-9]|[12][0-9]|3[01])[Tt]([01][0-9]|2[0-3]):([0-5][0-9]):([0-5][0-9]|60)(\\.[0-9]+)?(([Zz])|([\\+|\\-]([01][0-9]|2[0-3]):[0-5][0-9]))) (?P<level>\\w+)\\s+(?P<class>[::\\w]+)\\] (?P<content>.*)", lenient()).unwrap();
    let bytes = Bytes::from(["[2021-04-18T21:51:25Z TRACE hyper::proto::h1::conn] flushed({role=client}): State { reading: Init, writing: Init, keep_alive: Busy }",
        "[2021-04-18T21:51:25Z TRACE want] poll_want: taker wants!"
    ].join("\n"));
    let events = parser.parse(&bytes).unwrap();
    assert_eq!(2, events.len());
    for ev in &events {
        assert_eq!("2021-04-18T21:51:25Z", lookup(ev, "timestamp"));
        assert_eq!("TRACE", lookup(ev, "level"));
    }
    assert_eq!("hyper::proto::h1::conn", lookup(&events[0], "class"));
    assert_eq!("want", lookup(&events[1], "class"));
    assert_eq!("poll_want: taker wants!", lookup(&events[1], "content"));
}

fn lookup<'e>(ev: &'e Event, name: &str) -> &'e str {
    match ev.get(name) {
        Some(value) => value,
        None => panic!("no field named {}", name),
    }
}

#[test]
fn get_distinguishes_present_and_absent_names() {
    let parser = Parser::new("(?P<k>\\w+):(?P<v>\\w+)", lenient()).unwrap();
    let events = parser.parse(b"a:1").unwrap();
    assert_eq!("a", lookup(&events[0], "k"));
    assert_eq!("1", lookup(&events[0], "v"));
    assert!(events[0].get("missing").is_none());
}

#[test]
fn line_count_all_matching() {
    let parser = Parser::new("(?P<w>\\w+)", lenient()).unwrap();
    let events = parser.parse(b"one\ntwo\nthree").unwrap();
    assert_eq!(3, events.len());
    let partial = Parser::new("t(?P<w>\\w+)", lenient()).unwrap();
    let events = partial.parse(b"one\ntwo\nthree").unwrap();
    assert_eq!(2, events.len());
}

#[test]
fn empty_lines_are_skipped() {
    let parser = Parser::new("(?P<w>[ab])", lenient()).unwrap();
    let events = parser.parse(b"a\n\nb\n").unwrap();
    assert_eq!(2, events.len());
    assert_eq!(vec![event(&[("w", "a")]), event(&[("w", "b")])], events);
}

#[test]
fn strict_mode_fails_on_first_bad_line() {
    let parser = Parser::new("X:(?P<rest>.*)", strict()).unwrap();
    let err = parser.parse(b"Y:hello").unwrap_err();
    assert_eq!(1, err.line_number);
    assert_eq!("Y:hello", err.content);
}

#[test]
fn lenient_mode_skips_bad_lines() {
    let parser = Parser::new("X:(?P<rest>.*)", lenient()).unwrap();
    let events = parser.parse(b"Y:hello").unwrap();
    assert!(events.is_empty());
}

#[test]
fn strict_line_number_counts_physical_lines() {
    let parser = Parser::new("ok", strict()).unwrap();
    let err = parser.parse(b"ok\n\nbad").unwrap_err();
    assert_eq!(3, err.line_number);
    assert_eq!("bad", err.content);
}

#[test]
fn strict_mode_succeeds_when_all_lines_match() {
    let parser = Parser::new("X:(?P<rest>\\w*)", strict()).unwrap();
    let events = parser.parse(b"X:a\nX:b\n").unwrap();
    assert_eq!(vec![event(&[("rest", "a")]), event(&[("rest", "b")])], events);
}

#[test]
fn multi_match_merge_keeps_last_occurrence() {
    let parser = Parser::new("(?P<tag>\\w+)=(?P<val>\\w+)", multi()).unwrap();
    let events = parser.parse(b"a=1 b=2").unwrap();
    assert_eq!(vec![event(&[("tag", "b"), ("val", "2")])], events);
}

#[test]
fn single_match_takes_leftmost_occurrence() {
    let parser = Parser::new("(?P<tag>\\w+)=(?P<val>\\w+)", lenient()).unwrap();
    let events = parser.parse(b"a=1 b=2").unwrap();
    assert_eq!(vec![event(&[("tag", "a"), ("val", "1")])], events);
}

#[test]
fn multi_match_skips_unmatched_lines() {
    let parser = Parser::new("(?P<d>[0-9])", ModeConfig { multi_match: true, strict: false })
        .unwrap();
    let events = parser.parse(b"1 2\nnone\n3").unwrap();
    assert_eq!(vec![event(&[("d", "2")]), event(&[("d", "3")])], events);
}

#[test]
fn unparticipating_group_yields_empty_string() {
    let parser = Parser::new("a(?P<x>b)?", lenient()).unwrap();
    let events = parser.parse(b"a").unwrap();
    assert_eq!(vec![event(&[("x", "")])], events);
}

#[test]
fn parse_twice_yields_equal_results() {
    let parser = Parser::new("(?P<k>\\w+):(?P<v>\\w+)", lenient()).unwrap();
    let input = b"x:1\nskip me\ny:2\n";
    let first_run = parser.parse(input).unwrap();
    let second_run = parser.parse(input).unwrap();
    assert_eq!(first_run, second_run);
}

#[test]
fn invalid_bytes_decode_lossily() {
    let parser = Parser::new("(?s-u)v=(?P<v>.*)", lenient()).unwrap();
    let events = parser.parse(b"v=\xff\xfe ok").unwrap();
    assert_eq!(1, events.len());
    assert_eq!("\u{FFFD}\u{FFFD} ok", lookup(&events[0], "v"));
}

#[test]
fn carriage_return_stays_in_line() {
    let parser = Parser::new("(?P<l>a.?)", lenient()).unwrap();
    let events = parser.parse(b"a\r\n").unwrap();
    assert_eq!(vec![event(&[("l", "a\r")])], events);
}

#[test]
fn bad_pattern_is_rejected_at_construction() {
    let err = Parser::new("(?P<oops>", lenient()).unwrap_err();
    assert_eq!("(?P<oops>", err.pattern);
    assert!(Parser::new("(?P<dup>a)(?P<dup>b)", lenient()).is_err());
    assert!(Parser::new("(?P<ok>a)", lenient()).is_ok());
}

#[test]
fn unnamed_groups_yield_no_fields() {
    let parser = Parser::new("(a)(?P<named>b)(c)", lenient()).unwrap();
    let events = parser.parse(b"abc").unwrap();
    assert_eq!(vec![event(&[("named", "b")])], events);
}

#[test]
fn empty_input_yields_no_events() {
    let parser = Parser::new("(?P<w>\\w+)", strict()).unwrap();
    assert!(parser.parse(b"").unwrap().is_empty());
    assert!(parser.parse(b"\n\n\n").unwrap().is_empty());
}
