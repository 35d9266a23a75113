use textutils::config::ConfigError;
use textutils::head::{output_lines, parse_positive_int, run, try_run, Config};
use textutils::report::Source;

fn bytes(text: &str) -> Source {
    Source::Bytes { data: text.as_bytes().to_vec() }
}

fn names(tokens: &[&str]) -> Vec<String> {
    tokens.iter().map(|t| t.to_string()).collect()
}

#[test]
fn test_paser_positive_int() {
    let res = parse_positive_int("3");
    assert!(res.is_ok());
    assert_eq!(res.unwrap(), 3);

    let res = parse_positive_int("foo");
    assert!(res.is_err());
    assert_eq!(res.unwrap_err().to_string(), "foo".to_string());

    let res = parse_positive_int("0");
    assert!(res.is_err());
    assert_eq!(res.unwrap_err().to_string(), "0".to_string());
}

#[test]
fn parse_positive_int_follows_the_integer_grammar() {
    assert_eq!(parse_positive_int("+7"), Ok(7));
    assert_eq!(parse_positive_int("007"), Ok(7));
    assert_eq!(parse_positive_int("18446744073709551615").ok(), "18446744073709551615".parse().ok());
    assert_eq!(parse_positive_int(""), Err(String::new()));
    assert_eq!(parse_positive_int("+"), Err("+".to_string()));
    assert_eq!(parse_positive_int("-3"), Err("-3".to_string()));
    assert_eq!(parse_positive_int(" 3"), Err(" 3".to_string()));
    assert_eq!(parse_positive_int("3 "), Err("3 ".to_string()));
    assert_eq!(parse_positive_int("1_000"), Err("1_000".to_string()));
    assert_eq!(parse_positive_int("++3"), Err("++3".to_string()));
    assert_eq!(parse_positive_int("3+"), Err("3+".to_string()));
    assert_eq!(parse_positive_int("\u{663}"), Err("\u{663}".to_string()));
    assert_eq!(
        parse_positive_int("340282366920938463463374607431768211456"),
        Err("340282366920938463463374607431768211456".to_string())
    );
    for text in ["1", "+1", "00", "+0", "9", "10", "4294967296", "99999999999999999999999"] {
        let expected: Option<usize> = text.parse().ok().filter(|n| *n > 0);
        assert_eq!(parse_positive_int(text).ok(), expected);
    }
}

#[test]
fn head_config_defaults_to_ten_lines_of_stdin() {
    let config = Config::new(Vec::new(), None, None).unwrap();
    assert_eq!(config.files, vec!["-".to_string()]);
    assert_eq!(config.lines, 10);
    assert_eq!(config.bytes, None);
}

#[test]
fn head_config_takes_one_limit() {
    let config = Config::new(names(&["a"]), Some("3"), None).unwrap();
    assert_eq!((config.lines, config.bytes), (3, None));
    let config = Config::new(names(&["a", "b"]), None, Some("4")).unwrap();
    assert_eq!(config.files, names(&["a", "b"]));
    assert_eq!((config.lines, config.bytes), (10, Some(4)));
}

#[test]
fn head_config_refuses_bad_limits() {
    let err = Config::new(names(&["a"]), Some("1"), Some("1")).unwrap_err();
    assert!(matches!(err, ConfigError::LimitConflict));
    let err = Config::new(names(&["a"]), Some("0"), None).unwrap_err();
    assert!(matches!(&err, ConfigError::IllegalLineCount(v) if v == "0"));
    assert_eq!(err.message(), "illegal line count -- 0");
    let err = Config::new(names(&["a"]), None, Some("x1")).unwrap_err();
    assert!(matches!(&err, ConfigError::IllegalByteCount(v) if v == "x1"));
    assert_eq!(err.message(), "illegal byte count -- x1");
    let err = Config::new(names(&["a"]), Some("bad"), Some("worse")).unwrap_err();
    assert_eq!(err.message(), "the argument '--lines' cannot be used with '--bytes'");
}

#[test]
fn head_two_files_with_headers() {
    let config = Config::new(names(&["a", "b"]), Some("2"), None).unwrap();
    let sources = vec![bytes("a1\na2\na3\n"), bytes("b1\nb2\nb3\nb4\nb5\n")];
    let out = run(&config, &sources);
    assert_eq!(out.stdout, "==> a <==\na1\na2\n\n==> b <==\nb1\nb2\n");
    assert_eq!(out.stderr, "");
}

#[test]
fn head_single_file_has_no_header() {
    let config = Config::new(names(&["a"]), None, None).unwrap();
    let text = "1\n2\n3\n4\n5\n6\n7\n8\n9\n10\n11\n12\n";
    let out = run(&config, &vec![bytes(text)]);
    assert_eq!(out.stdout, "1\n2\n3\n4\n5\n6\n7\n8\n9\n10\n");
    assert_eq!(out.stderr, "");
}

#[test]
fn head_line_limit_takes_the_smaller_count() {
    for (limit, expected) in [(1, "x\n"), (2, "x\ny\n"), (3, "x\ny\nz"), (4, "x\ny\nz"), (0, "")] {
        let out = output_lines("f", b"x\ny\nz", limit, None);
        assert_eq!(out.stdout, expected);
        assert_eq!(out.stdout.lines().count(), limit.min(3));
    }
}

#[test]
fn head_byte_limit_takes_the_smaller_count() {
    let data = "one\ntwo\n".as_bytes();
    for limit in [1usize, 3, 4, 8, 9, 100] {
        let out = output_lines("f", data, 10, Some(limit));
        assert_eq!(out.stdout.len(), limit.min(data.len()));
        assert_eq!(out.stdout.as_bytes(), &data[..limit.min(data.len())]);
        assert_eq!(out.stderr, "");
    }
}

#[test]
fn head_byte_limit_inside_a_scalar_is_shown_lossily() {
    let out = output_lines("f", "\u{e9}t\u{e9}".as_bytes(), 10, Some(1));
    assert_eq!(out.stdout, "\u{fffd}");
    let out = output_lines("f", "\u{e9}t\u{e9}".as_bytes(), 10, Some(2));
    assert_eq!(out.stdout, "\u{e9}");
    let out = output_lines("f", &[b'a', 0xff, b'b'], 10, Some(3));
    assert_eq!(out.stdout, "a\u{fffd}b");
}

#[test]
fn head_missing_file_among_others() {
    let config = Config::new(names(&["a", "gone", "c"]), Some("1"), None).unwrap();
    let sources = vec![
        bytes("a1\na2\n"),
        Source::Unavailable { cause: "No such file or directory (os error 2)".to_string() },
        bytes("c1\nc2\n"),
    ];
    let out = run(&config, &sources);
    assert_eq!(out.stdout, "==> a <==\na1\n\n==> c <==\nc1\n");
    assert_eq!(out.stderr, "gone: No such file or directory (os error 2)\n");
}

#[test]
fn head_first_header_has_no_blank_line_before_it() {
    let config = Config::new(names(&["gone", "b", "c"]), Some("1"), None).unwrap();
    let sources = vec![
        Source::Unavailable { cause: "denied".to_string() },
        bytes("b1\n"),
        bytes("c1\n"),
    ];
    let out = run(&config, &sources);
    assert_eq!(out.stdout, "==> b <==\nb1\n\n==> c <==\nc1\n");
    assert_eq!(out.stderr, "gone: denied\n");
}

#[test]
fn head_reports_a_malformed_line_and_goes_on() {
    let mut data = b"good\n".to_vec();
    data.extend_from_slice(&[0xff, 0xfe, b'\n']);
    data.extend_from_slice(b"fine\nlast\n");
    let out = output_lines("f", &data, 3, None);
    assert_eq!(out.stdout, "good\nfine\n");
    assert_eq!(out.stderr, "f: line 2: stream did not contain valid UTF-8\n");
    let out = output_lines("f", &data, 1, None);
    assert_eq!(out.stdout, "good\n");
    assert_eq!(out.stderr, "");
}

#[test]
fn head_interrupted_stream_keeps_what_was_read() {
    let config = Config::new(names(&["a"]), None, Some("5")).unwrap();
    let sources =
        vec![Source::Interrupted { data: b"abc".to_vec(), cause: "broken pipe".to_string() }];
    let out = run(&config, &sources);
    assert_eq!(out.stdout, "abc");
    assert_eq!(out.stderr, "a: broken pipe\n");
}

#[test]
fn head_of_nothing_is_nothing() {
    let config = Config::new(names(&["a", "b"]), None, None).unwrap();
    let out = run(&config, &vec![bytes(""), bytes("")]);
    assert_eq!(out.stdout, "==> a <==\n\n==> b <==\n");
}

#[test]
fn head_try_run_wants_a_source_for_each_token() {
    let config = Config::new(names(&["a"]), Some("1"), None).unwrap();
    assert!(try_run(&config, &Vec::new()).is_none());
    let out = try_run(&config, &vec![bytes("x\ny\n")]).unwrap();
    assert_eq!(out.stdout, "x\n");
}
