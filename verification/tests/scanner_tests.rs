use simple_yaml_parser::{
    parse, parse_with_exit_signal, scan_events, MultilineString, ParseOptions, RootYAMLValue,
    YAMLKey, YAMLParseError, YAMLParseErrorReason,
};

fn collect<'a>(on: &'a str) -> Vec<(Vec<YAMLKey<'a>>, RootYAMLValue<'a>)> {
    let mut events: Vec<(Vec<YAMLKey>, RootYAMLValue)> = Vec::new();
    let r = parse(on, |keys, value| {
        events.push((keys.to_vec(), value));
    });
    assert!(r.is_ok());
    events
}

fn named(s: &str) -> YAMLKey<'_> {
    YAMLKey::Slice(s)
}

#[test]
fn root_level_mapping() {
    let events = collect("name: John\nflag: true\noff: false\nnum: 42\n");
    assert_eq!(events.len(), 4);
    assert_eq!(events[0], (vec![named("name")], RootYAMLValue::String("John")));
    assert_eq!(events[1], (vec![named("flag")], RootYAMLValue::True));
    assert_eq!(events[2], (vec![named("off")], RootYAMLValue::False));
    assert_eq!(events[3], (vec![named("num")], RootYAMLValue::String("42")));
}

#[test]
fn boolean_literals_are_exact() {
    let events = collect("a: True\nb: truex\nc: false\n");
    assert_eq!(events[0].1, RootYAMLValue::String("True"));
    assert_eq!(events[1].1, RootYAMLValue::String("truex"));
    assert_eq!(events[2].1, RootYAMLValue::False);
}

#[test]
fn nested_mapping_paths() {
    let events = collect("a:\n  b:\n    c: deep\n  d: shallow\n");
    assert_eq!(events.len(), 2);
    assert_eq!(
        events[0],
        (
            vec![named("a"), named("b"), named("c")],
            RootYAMLValue::String("deep")
        )
    );
    assert_eq!(
        events[1],
        (vec![named("a"), named("d")], RootYAMLValue::String("shallow"))
    );
}

#[test]
fn dedent_does_not_leak() {
    let events = collect("a:\n  b: 1\nc: 2\n");
    assert_eq!(events.len(), 2);
    assert_eq!(
        events[0],
        (vec![named("a"), named("b")], RootYAMLValue::String("1"))
    );
    assert_eq!(events[1], (vec![named("c")], RootYAMLValue::String("2")));
}

#[test]
fn sample_document() {
    let doc = "person:\n  name: John Doe\n  age: 30\n  something:\n    x: true\n  description: |\n    Some text\n    over here\nplaces:\n  list:\n    - \"something\"\n    - \"here\"\n  inner:\n    x: \"string\"\n";
    let events = collect(doc);
    assert_eq!(events.len(), 7);
    assert_eq!(
        events[0],
        (
            vec![named("person"), named("name")],
            RootYAMLValue::String("John Doe")
        )
    );
    assert_eq!(
        events[1],
        (vec![named("person"), named("age")], RootYAMLValue::String("30"))
    );
    assert_eq!(
        events[2],
        (
            vec![named("person"), named("something"), named("x")],
            RootYAMLValue::True
        )
    );
    assert_eq!(events[3].0, vec![named("person"), named("description")]);
    match events[3].1 {
        RootYAMLValue::MultilineString(m) => {
            assert_eq!(m.on, "    Some text\n    over here");
            assert!(!m.collapse);
            assert!(!m.preserve_leading_whitespace);
        }
        _ => panic!("expected a multiline string"),
    }
    assert_eq!(
        events[4],
        (
            vec![named("places"), named("list"), YAMLKey::Index(0)],
            RootYAMLValue::String("\"something\"")
        )
    );
    assert_eq!(
        events[5],
        (
            vec![named("places"), named("list"), YAMLKey::Index(1)],
            RootYAMLValue::String("\"here\"")
        )
    );
    assert_eq!(
        events[6],
        (
            vec![named("places"), named("inner"), named("x")],
            RootYAMLValue::String("\"string\"")
        )
    );
}

#[test]
fn list_ordinals_are_zero_based_and_increasing() {
    let doc = "list:\n  - a\n  - b\n  - c\ndeep:\n  x:\n    y: 1\nother:\n  - d\n";
    let events = collect(doc);
    assert_eq!(events[0].0, vec![named("list"), YAMLKey::Index(0)]);
    assert_eq!(events[1].0, vec![named("list"), YAMLKey::Index(1)]);
    assert_eq!(events[2].0, vec![named("list"), YAMLKey::Index(2)]);
    assert_eq!(events[0].1, RootYAMLValue::String("a"));
    assert_eq!(events[2].1, RootYAMLValue::String("c"));
    assert_eq!(events[3].0, vec![named("deep"), named("x"), named("y")]);
    assert_eq!(events[4].0, vec![named("other"), YAMLKey::Index(0)]);
    assert_eq!(events[4].1, RootYAMLValue::String("d"));
}

#[test]
fn inline_dash_after_key_starts_a_list() {
    let events = collect("k: - a\n");
    assert_eq!(events.len(), 1);
    assert_eq!(events[0].0, vec![named("k"), YAMLKey::Index(0)]);
    assert_eq!(events[0].1, RootYAMLValue::String("a"));
}

#[test]
fn literal_block_scalar() {
    let events = collect("k: |\n  a\n  b\nz: 1\n");
    assert_eq!(events.len(), 2);
    assert_eq!(events[0].0, vec![named("k")]);
    assert_eq!(
        events[0].1,
        RootYAMLValue::MultilineString(MultilineString {
            on: "  a\n  b",
            collapse: false,
            preserve_leading_whitespace: false,
        })
    );
    assert_eq!(events[1], (vec![named("z")], RootYAMLValue::String("1")));
}

#[test]
fn folded_block_scalar_sets_collapse() {
    let events = collect("k: >\n  a\n  b\nz: 1\n");
    match events[0].1 {
        RootYAMLValue::MultilineString(m) => {
            assert!(m.collapse);
            assert!(!m.preserve_leading_whitespace);
            assert_eq!(m.on, "  a\n  b");
        }
        _ => panic!("expected a multiline string"),
    }
}

#[test]
fn blank_line_does_not_end_a_block() {
    let events = collect("k: |\n  a\n\n  b\nz: 1\n");
    assert_eq!(events.len(), 2);
    assert_eq!(
        events[0].1,
        RootYAMLValue::MultilineString(MultilineString {
            on: "  a\n\n  b",
            collapse: false,
            preserve_leading_whitespace: false,
        })
    );
}

#[test]
fn tab_counts_as_one_indent_level() {
    let events = collect("a:\n\tb: 1\n");
    assert_eq!(events.len(), 1);
    assert_eq!(events[0].0, vec![named("a"), named("b")]);
}

#[test]
fn wider_indent_size() {
    let doc = "a:\n    b: 1\nc: 2\n";
    let mut events: Vec<(Vec<YAMLKey>, RootYAMLValue)> = Vec::new();
    let r = parse_with_exit_signal(
        doc,
        |keys, value| {
            events.push((keys.to_vec(), value));
            false
        },
        &ParseOptions { indent_size: 4 },
    );
    assert!(r.is_ok());
    assert_eq!(events.len(), 2);
    assert_eq!(events[0].0, vec![named("a"), named("b")]);
    assert_eq!(events[1].0, vec![named("c")]);
}

#[test]
fn cancellation_stops_after_the_event() {
    let doc = "a: 1\nb: 2\nc: 3\n";
    let mut seen: usize = 0;
    let r = parse_with_exit_signal(
        doc,
        |_keys, _value| {
            seen += 1;
            true
        },
        &ParseOptions::default(),
    );
    assert!(r.is_ok());
    assert_eq!(seen, 1);

    let mut seen_two: usize = 0;
    let r = parse_with_exit_signal(
        doc,
        |_keys, _value| {
            seen_two += 1;
            seen_two == 2
        },
        &ParseOptions::default(),
    );
    assert!(r.is_ok());
    assert_eq!(seen_two, 2);
}

#[test]
fn scanning_twice_is_identical() {
    let doc = "a:\n  b: 1\nc: |\n  x\nd: true\n";
    let first = scan_events(doc, &ParseOptions::default());
    let second = scan_events(doc, &ParseOptions::default());
    assert_eq!(first, second);
    let replayed = collect(doc);
    assert_eq!(first.len(), replayed.len());
    for (ev, (path, value)) in first.iter().zip(replayed.iter()) {
        assert_eq!(&ev.path, path);
        assert_eq!(&ev.value, value);
    }
}

#[test]
fn empty_and_unterminated_inputs() {
    assert!(collect("").is_empty());
    assert!(collect("\n\n").is_empty());
    // A final line without a newline leaves its value unflushed, as the
    // lenient grammar has always done.
    let events = collect("a: 1\nb: 2");
    assert_eq!(events.len(), 1);
    assert_eq!(events[0].0, vec![named("a")]);
}

#[test]
fn scalar_text_is_trimmed() {
    let events = collect("key :   spaced value  \n");
    assert_eq!(events[0].0, vec![named("key")]);
    assert_eq!(events[0].1, RootYAMLValue::String("spaced value"));
}

#[test]
fn list_of_mappings() {
    let events = collect("l:\n- a: 1\n- b: 2\n");
    assert_eq!(events.len(), 2);
    assert_eq!(
        events[0],
        (
            vec![named("l"), YAMLKey::Index(0), named("a")],
            RootYAMLValue::String("1")
        )
    );
    assert_eq!(
        events[1],
        (
            vec![named("l"), YAMLKey::Index(1), named("b")],
            RootYAMLValue::String("2")
        )
    );
}

#[test]
fn entry_points_agree() {
    let doc = "a:\n  b: 1\nc: |\n  x\nd: true\n";
    let via_parse = collect(doc);
    let mut via_signal: Vec<(Vec<YAMLKey>, RootYAMLValue)> = Vec::new();
    let r = parse_with_exit_signal(
        doc,
        |keys, value| {
            via_signal.push((keys.to_vec(), value));
            false
        },
        &ParseOptions::default(),
    );
    assert!(r.is_ok());
    assert_eq!(via_parse, via_signal);
}

#[test]
fn default_options_indent_size() {
    let options = ParseOptions::default();
    assert_eq!(options.indent_size, 2);
}

#[test]
fn tab_weighs_indent_size_in_block_termination() {
    // The key sits at one tab = two columns. The body lines sit at two
    // tabs = four columns, deeper than the block's recorded indentation,
    // so the second body line continues the block; the line at one tab
    // ends it.
    let events = collect("a:\n\tk: |\n\t\tb1\n\t\tb2\n\ty: 1\n");
    assert_eq!(events.len(), 2);
    assert_eq!(events[0].0, vec![named("a"), named("k")]);
    assert_eq!(
        events[0].1,
        RootYAMLValue::MultilineString(MultilineString {
            on: "\t\tb1\n\t\tb2",
            collapse: false,
            preserve_leading_whitespace: false,
        })
    );
    assert_eq!(events[1].0, vec![named("a"), named("y")]);
    assert_eq!(events[1].1, RootYAMLValue::String("1"));
}

#[test]
fn error_rendering() {
    let e = YAMLParseError {
        at: 12,
        reason: YAMLParseErrorReason::ExpectedColon,
    };
    assert_eq!(e.describe(), "YAMLParseError: ExpectedColon at 12");
    let e = YAMLParseError {
        at: 0,
        reason: YAMLParseErrorReason::ExpectedValue,
    };
    assert_eq!(e.describe(), "YAMLParseError: ExpectedValue at 0");
    let e = YAMLParseError {
        at: 30517,
        reason: YAMLParseErrorReason::ExpectedTrueFalseNull,
    };
    assert_eq!(e.describe(), "YAMLParseError: ExpectedTrueFalseNull at 30517");
}
