use textutils::report::Source;
use textutils::wc::{count, format_field, run, total_fits, try_run, Config, FileInfo};

#[test]
fn test_count() {
    let text = "I don't want the world, I just want your half.\r\n";
    let info = count(text.as_bytes());
    assert!(info.is_ok());
    let expected = FileInfo {
        num_lines: 1,
        num_words: 10, // "I", "don't", "want", "the", "world,", "I", "just", "want", "your", "half."
        num_bytes: text.len(),
        num_chars: text.chars().count(),
    };
    assert_eq!(info.unwrap(), expected);
}

#[test]
fn test_format_field() {
    assert_eq!(format_field(1, false), "");
    assert_eq!(format_field(3, true), "       3");
    assert_eq!(format_field(10, true), "      10");
}

#[test]
fn wc_two_files_have_totals() {
    let config = Config::new(vec!["a".to_string(), "b".to_string()], false, false, false, false);
    let sources = vec![
        Source::Bytes { data: b"one two\nthree\n".to_vec() },
        Source::Bytes { data: "h\u{e9}llo\n".as_bytes().to_vec() },
    ];
    let out = run(&config, &sources);
    assert_eq!(
        out.stdout,
        "       2       3      14 a\n       1       1       7 b\n       3       4      21 total\n"
    );
    assert_eq!(out.stderr, "");
}

fn names(tokens: &[&str]) -> Vec<String> {
    tokens.iter().map(|t| t.to_string()).collect()
}

#[test]
fn wc_counts_the_last_line_without_a_terminator() {
    assert_eq!(count(b"").unwrap().num_lines, 0);
    assert_eq!(count(b"a").unwrap().num_lines, 1);
    assert_eq!(count(b"a\n").unwrap().num_lines, 1);
    assert_eq!(count(b"a\nb").unwrap().num_lines, 2);
    assert_eq!(count(b"\n\n\n").unwrap().num_lines, 3);
}

#[test]
fn wc_ascii_has_as_many_chars_as_bytes() {
    let info = count(b"plain text\nof two lines\n").unwrap();
    assert_eq!(info, FileInfo { num_lines: 2, num_words: 5, num_bytes: 24, num_chars: 24 });
}

#[test]
fn wc_multibyte_text_has_fewer_chars_than_bytes() {
    let info = count("na\u{ef}ve caf\u{e9}\n".as_bytes()).unwrap();
    assert_eq!(info, FileInfo { num_lines: 1, num_words: 2, num_bytes: 13, num_chars: 11 });
}

#[test]
fn wc_counting_twice_gives_the_same() {
    let data = "one\ntwo three\n\u{4e2d}\u{6587}".as_bytes();
    assert_eq!(count(data).unwrap(), count(data).unwrap());
}

#[test]
fn wc_skips_malformed_lines_and_counts_on() {
    let mut data = b"one two\n".to_vec();
    data.extend_from_slice(&[0xff, b' ', b'x', b'\n']);
    data.extend_from_slice(b"three\n");
    data.extend_from_slice(&[0xc0, 0x80]);
    let err = count(&data).unwrap_err();
    assert_eq!(err.lines, vec![2, 4]);
    assert_eq!(err.counted, FileInfo { num_lines: 2, num_words: 3, num_bytes: 14, num_chars: 14 });
}

#[test]
fn wc_adds_field_by_field() {
    let mut total = FileInfo::new();
    assert_eq!(total, FileInfo { num_lines: 0, num_words: 0, num_bytes: 0, num_chars: 0 });
    total.add(&FileInfo { num_lines: 1, num_words: 2, num_bytes: 3, num_chars: 4 });
    total.add(&FileInfo { num_lines: 10, num_words: 20, num_bytes: 30, num_chars: 40 });
    assert_eq!(total, FileInfo { num_lines: 11, num_words: 22, num_bytes: 33, num_chars: 44 });
}

#[test]
fn wc_config_defaults() {
    let config = Config::new(Vec::new(), false, false, false, false);
    assert_eq!(config.files, vec!["-".to_string()]);
    assert_eq!((config.lines, config.words, config.bytes, config.chars), (true, true, true, false));
    let config = Config::new(names(&["a"]), false, false, false, true);
    assert_eq!((config.lines, config.words, config.bytes, config.chars), (false, false, false, true));
    let config = Config::new(names(&["a"]), true, false, true, false);
    assert_eq!((config.lines, config.words, config.bytes, config.chars), (true, false, true, false));
}

#[test]
fn wc_single_file_has_no_totals() {
    let config = Config::new(names(&["a"]), false, false, false, false);
    let out = run(&config, &vec![Source::Bytes { data: b"x y\n".to_vec() }]);
    assert_eq!(out.stdout, "       1       2       4 a\n");
}

#[test]
fn wc_stdin_row_has_no_name() {
    let config = Config::new(Vec::new(), true, false, false, true);
    let out = run(&config, &vec![Source::Bytes { data: "\u{e9}\n".as_bytes().to_vec() }]);
    assert_eq!(out.stdout, "       1       2\n");
}

#[test]
fn wc_shows_the_selected_counts_in_fixed_order() {
    let config = Config::new(names(&["f"]), true, true, true, true);
    let out = run(&config, &vec![Source::Bytes { data: "\u{e9} b\n".as_bytes().to_vec() }]);
    assert_eq!(out.stdout, "       1       2       5       4 f\n");
    let config = Config::new(names(&["f"]), false, true, false, false);
    let out = run(&config, &vec![Source::Bytes { data: b"a b c".to_vec() }]);
    assert_eq!(out.stdout, "       3 f\n");
}

#[test]
fn wc_missing_file_among_others() {
    let config = Config::new(names(&["a", "gone", "c"]), false, false, false, false);
    let sources = vec![
        Source::Bytes { data: b"1\n".to_vec() },
        Source::Unavailable { cause: "No such file or directory (os error 2)".to_string() },
        Source::Bytes { data: b"2 3\n".to_vec() },
    ];
    let out = run(&config, &sources);
    assert_eq!(
        out.stdout,
        "       1       1       2 a\n       1       2       4 c\n       2       3       6 total\n"
    );
    assert_eq!(out.stderr, "gone: No such file or directory (os error 2)\n");
}

#[test]
fn wc_totals_take_in_partly_read_files() {
    let config = Config::new(names(&["a", "b"]), true, false, true, false);
    let mut bad = b"ok\n".to_vec();
    bad.extend_from_slice(&[0xfe, b'\n']);
    let sources = vec![
        Source::Interrupted { data: b"x\ny".to_vec(), cause: "Input/output error".to_string() },
        Source::Bytes { data: bad },
    ];
    let out = run(&config, &sources);
    assert_eq!(out.stdout, "       2       3 a\n       1       3 b\n       3       6 total\n");
    assert_eq!(
        out.stderr,
        "a: Input/output error\nb: line 2: stream did not contain valid UTF-8\n"
    );
}

#[test]
fn wc_totals_appear_even_if_every_file_is_missing() {
    let config = Config::new(names(&["x", "y"]), false, false, false, false);
    let sources = vec![
        Source::Unavailable { cause: "gone".to_string() },
        Source::Unavailable { cause: "gone".to_string() },
    ];
    let out = run(&config, &sources);
    assert_eq!(out.stdout, "       0       0       0 total\n");
    assert_eq!(out.stderr, "x: gone\ny: gone\n");
}

#[test]
fn wc_try_run_wants_a_source_for_each_token() {
    let config = Config::new(names(&["a", "b"]), false, false, false, false);
    let one = vec![Source::Bytes { data: b"x\n".to_vec() }];
    assert!(total_fits(&one));
    assert!(try_run(&config, &one).is_none());
    let two = vec![Source::Bytes { data: b"x\n".to_vec() }, Source::Bytes { data: Vec::new() }];
    let out = try_run(&config, &two).unwrap();
    assert_eq!(out.stdout, run(&config, &two).stdout);
}

#[test]
fn wc_counts_a_line_with_its_terminator() {
    let text = "I don't want the world, I just want your half.\r\n";
    let info = count(text.as_bytes()).unwrap();
    assert_eq!(info, FileInfo { num_lines: 1, num_words: 10, num_bytes: 48, num_chars: 48 });
    let curly = "I don\u{2019}t want the world, I just want your half.\r\n";
    let info = count(curly.as_bytes()).unwrap();
    assert_eq!(info, FileInfo { num_lines: 1, num_words: 10, num_bytes: 50, num_chars: 48 });
}

#[test]
fn wc_counts_record_by_record() {
    let mut info = FileInfo::new();
    assert!(info.count_record("d\u{e9}j\u{e0} vu\n".as_bytes()));
    assert_eq!(info, FileInfo { num_lines: 1, num_words: 2, num_bytes: 10, num_chars: 8 });
    assert!(!info.count_record(&[b'x', 0x80, b'\n']));
    assert_eq!(info, FileInfo { num_lines: 1, num_words: 2, num_bytes: 10, num_chars: 8 });
    assert!(info.count_record(b"\n"));
    assert_eq!(info, FileInfo { num_lines: 2, num_words: 2, num_bytes: 11, num_chars: 9 });
}
