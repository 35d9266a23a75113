use textutils::cat::{
    emit_line, print_lines, print_lines_with_numbers, print_lines_with_numbers_and_nonblank,
    print_one_file, run, try_run, Config, Numbering,
};
use textutils::config::ConfigError;
use textutils::report::Source;

fn bytes(text: &str) -> Source {
    Source::Bytes { data: text.as_bytes().to_vec() }
}

fn names(tokens: &[&str]) -> Vec<String> {
    tokens.iter().map(|t| t.to_string()).collect()
}

#[test]
fn cat_config_defaults_to_stdin() {
    let config = Config::new(Vec::new(), false, false).unwrap();
    assert_eq!(config.files, vec!["-".to_string()]);
    assert!(!config.number_lines && !config.number_nonblank_lines && !config.restart_numbering);
    assert_eq!(config.numbering(), Numbering::Off);
}

#[test]
fn cat_config_refuses_both_numberings() {
    let err = Config::new(names(&["a"]), true, true).unwrap_err();
    assert!(matches!(err, ConfigError::NumberingConflict));
    assert_eq!(err.message(), "the argument '--number' cannot be used with '--number-nonblank'");
    assert_eq!(Config::new(names(&["a"]), true, false).unwrap().numbering(), Numbering::All);
    assert_eq!(Config::new(names(&["a"]), false, true).unwrap().numbering(), Numbering::NonBlank);
}

#[test]
fn cat_passes_lines_on_as_they_are() {
    let text = "first\r\n\n  \nlast without end";
    let out = print_lines("f", text.as_bytes());
    assert_eq!(out.stdout, text);
    assert_eq!(out.stderr, "");
}

#[test]
fn cat_numbers_all_lines_from_one() {
    let (out, next) = print_lines_with_numbers("f", b"a\n\nb\n", 1);
    assert_eq!(out.stdout, "     1\ta\n     2\t\n     3\tb\n");
    assert_eq!(next, 4);
}

#[test]
fn cat_numbers_are_six_wide_and_grow() {
    let (out, next) = print_lines_with_numbers("f", b"x\ny\n", 99_999);
    assert_eq!(out.stdout, " 99999\tx\n100000\ty\n");
    assert_eq!(next, 100_001);
    let (out, next) = print_lines_with_numbers("f", b"x\ny\n", 999_999);
    assert_eq!(out.stdout, "999999\tx\n1000000\ty\n");
    assert_eq!(next, 1_000_001);
}

#[test]
fn cat_blank_lines_take_no_number() {
    let (out, next) = print_lines_with_numbers_and_nonblank("f", b"a\n\n \t\nb\n\n", 1);
    assert_eq!(out.stdout, "     1\ta\n\n \t\n     2\tb\n\n");
    assert_eq!(next, 3);
}

#[test]
fn cat_emit_line_moves_the_counter_only_for_numbered_lines() {
    let mut out = String::from("> ");
    let mut counter: u128 = 7;
    emit_line(Numbering::NonBlank, "\u{a0}\u{3000}\n", &mut counter, &mut out);
    assert_eq!((out.as_str(), counter), ("> \u{a0}\u{3000}\n", 7));
    emit_line(Numbering::NonBlank, "x\n", &mut counter, &mut out);
    assert_eq!((out.as_str(), counter), ("> \u{a0}\u{3000}\n     7\tx\n", 8));
    emit_line(Numbering::All, "\n", &mut counter, &mut out);
    assert_eq!(counter, 9);
    emit_line(Numbering::Off, "y\n", &mut counter, &mut out);
    assert_eq!((out.as_str(), counter), ("> \u{a0}\u{3000}\n     7\tx\n     8\t\ny\n", 9));
}

#[test]
fn cat_numbers_run_on_through_all_files() {
    let config = Config::new(names(&["a", "b", "c"]), true, false).unwrap();
    let sources = vec![bytes("a1\na2\n"), bytes(""), bytes("c1\nc2")];
    let out = run(&config, &sources);
    assert_eq!(out.stdout, "     1\ta1\n     2\ta2\n     3\tc1\n     4\tc2");
    assert_eq!(out.stderr, "");
}

#[test]
fn cat_numbers_of_nonblank_lines_run_on_through_all_files() {
    let config = Config::new(names(&["a", "b"]), false, true).unwrap();
    let out = run(&config, &vec![bytes("a1\n\na2\n"), bytes("\nb1\n")]);
    assert_eq!(out.stdout, "     1\ta1\n\n     2\ta2\n\n     3\tb1\n");
}

#[test]
fn cat_numbers_can_start_again_for_each_file() {
    let mut config = Config::new(names(&["a", "b"]), true, false).unwrap();
    config.restart_numbering = true;
    let out = run(&config, &vec![bytes("a1\na2\n"), bytes("b1\n")]);
    assert_eq!(out.stdout, "     1\ta1\n     2\ta2\n     1\tb1\n");
}

#[test]
fn cat_without_numbers_joins_the_files() {
    let config = Config::new(names(&["a", "-"]), false, false).unwrap();
    let out = run(&config, &vec![bytes("a1\na2"), bytes("b1\n")]);
    assert_eq!(out.stdout, "a1\na2b1\n");
}

#[test]
fn cat_missing_file_among_others() {
    let config = Config::new(names(&["a", "gone", "c"]), true, false).unwrap();
    let sources = vec![
        bytes("a1\n"),
        Source::Unavailable { cause: "No such file or directory (os error 2)".to_string() },
        bytes("c1\n"),
    ];
    let out = run(&config, &sources);
    assert_eq!(out.stdout, "     1\ta1\n     2\tc1\n");
    assert_eq!(out.stderr, "gone: No such file or directory (os error 2)\n");
}

#[test]
fn cat_skips_a_malformed_line_without_a_number() {
    let mut data = b"one\n".to_vec();
    data.extend_from_slice(&[0xc3, b'\n']);
    data.extend_from_slice(b"three\n");
    let (out, next) = print_lines_with_numbers("f", &data, 1);
    assert_eq!(out.stdout, "     1\tone\n     2\tthree\n");
    assert_eq!(out.stderr, "f: line 2: stream did not contain valid UTF-8\n");
    assert_eq!(next, 3);
}

#[test]
fn cat_one_file_at_a_time() {
    let config = Config::new(names(&["a"]), false, true).unwrap();
    let (out, next) = print_one_file("a", &config, &bytes("x\n\ny\n"), 5);
    assert_eq!(out.stdout, "     5\tx\n\n     6\ty\n");
    assert_eq!(next, 7);
    let gone = Source::Unavailable { cause: "denied".to_string() };
    let (out, next) = print_one_file("a", &config, &gone, 5);
    assert_eq!((out.stdout.as_str(), out.stderr.as_str(), next), ("", "a: denied\n", 5));
    let cut = Source::Interrupted { data: b"x\n".to_vec(), cause: "reset".to_string() };
    let (out, next) = print_one_file("a", &config, &cut, 5);
    assert_eq!((out.stdout.as_str(), out.stderr.as_str(), next), ("     5\tx\n", "a: reset\n", 6));
}

#[test]
fn cat_try_run_wants_a_source_for_each_token() {
    let config = Config::new(names(&["a", "b"]), true, false).unwrap();
    assert!(try_run(&config, &vec![bytes("x\n")]).is_none());
    let out = try_run(&config, &vec![bytes("x\n"), bytes("y\n")]).unwrap();
    assert_eq!(out.stdout, "     1\tx\n     2\ty\n");
}
