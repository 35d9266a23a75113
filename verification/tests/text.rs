use textutils::format::{decimal_text, format_number};
use textutils::lines::{read_chunk, LineReader};
use textutils::report::{complain, complain_of_line, complain_of_lines, files_or_stdin, stdin_token, Source};
use textutils::text::{blank, count_chars, count_words, decode_lossy, whitespace};

#[test]
fn whitespace_is_the_unicode_property() {
    for code in 0u32..0x11_0000 {
        if let Some(c) = char::from_u32(code) {
            assert_eq!(whitespace(c), c.is_whitespace(), "U+{:04X}", code);
        }
    }
}

#[test]
fn words_are_runs_between_whitespace() {
    assert_eq!(count_words(""), 0);
    assert_eq!(count_words(" \t\n"), 0);
    assert_eq!(count_words("one"), 1);
    assert_eq!(count_words("  one   two\tthree\n"), 3);
    assert_eq!(count_words("a\u{a0}b\u{3000}c\u{2003}d"), 4);
    assert_eq!(count_words("\u{e9}t\u{e9} d'hiver"), 2);
    for text in ["x y", " x", "x ", "\u{85}x\u{85}", "a  b  c  ", "\r\n"] {
        assert_eq!(count_words(text), text.split_whitespace().count());
    }
}

#[test]
fn chars_are_scalar_values() {
    assert_eq!(count_chars(""), 0);
    assert_eq!(count_chars("abc"), 3);
    assert_eq!(count_chars("\u{e9}\u{4e2d}\u{1f600}"), 3);
    assert_eq!("\u{e9}\u{4e2d}\u{1f600}".len(), 9);
}

#[test]
fn blank_means_nothing_but_whitespace() {
    assert!(blank(""));
    assert!(blank("\n"));
    assert!(blank(" \t\r\n\u{a0}"));
    assert!(!blank(" x \n"));
    assert!(!blank("\u{200b}"));
}

#[test]
fn lossy_decoding_keeps_valid_text() {
    assert_eq!(decode_lossy("h\u{e9}llo".as_bytes()), "h\u{e9}llo");
    assert_eq!(decode_lossy(&[b'a', 0x80, b'b']), "a\u{fffd}b");
    assert_eq!(decode_lossy(&[]), "");
}

#[test]
fn reader_hands_out_records_with_their_terminators() {
    let data = b"one\n\nthree\r\nlast";
    let mut reader = LineReader::new(data);
    assert_eq!(reader.next_record(), Some(&b"one\n"[..]));
    assert_eq!(reader.next_record(), Some(&b"\n"[..]));
    assert_eq!(reader.next_record(), Some(&b"three\r\n"[..]));
    assert_eq!(reader.next_record(), Some(&b"last"[..]));
    assert_eq!(reader.next_record(), None);
    assert_eq!(reader.next_record(), None);
}

#[test]
fn reader_of_nothing_ends_at_once() {
    let mut reader = LineReader::new(b"");
    assert_eq!(reader.next_record(), None);
    let mut reader = LineReader::new(b"\n");
    assert_eq!(reader.next_record(), Some(&b"\n"[..]));
    assert_eq!(reader.next_record(), None);
}

#[test]
fn records_put_together_are_the_source() {
    let data = b"a\nbb\n\n\nccc";
    let mut reader = LineReader::new(data);
    let mut joined = Vec::new();
    let mut count = 0;
    while let Some(record) = reader.next_record() {
        joined.extend_from_slice(record);
        count += 1;
    }
    assert_eq!(joined, data);
    let feeds = data.iter().filter(|b| **b == b'\n').count();
    assert_eq!(count, feeds + 1);
}

#[test]
fn chunk_is_a_prefix() {
    assert_eq!(read_chunk(b"hello", 0), b"");
    assert_eq!(read_chunk(b"hello", 2), b"he");
    assert_eq!(read_chunk(b"hello", 5), b"hello");
    assert_eq!(read_chunk(b"hello", 9), b"hello");
    assert_eq!(read_chunk(b"", 9), b"");
}

#[test]
fn numbers_are_right_justified() {
    assert_eq!(format_number(0, 0), "0");
    assert_eq!(format_number(0, 3), "  0");
    assert_eq!(format_number(7, 6), "     7");
    assert_eq!(format_number(123456, 6), "123456");
    assert_eq!(format_number(1234567, 6), "1234567");
    assert_eq!(format_number(u128::MAX, 8), u128::MAX.to_string());
    for value in [1u128, 9, 10, 99, 100, 1000, 65535, 4294967296] {
        assert_eq!(format_number(value, 8), format!("{:>8}", value));
        assert_eq!(decimal_text(value), value.to_string());
    }
}

#[test]
fn diagnostics_name_the_token_and_the_cause() {
    let mut err = String::from("before\n");
    complain(&mut err, "f.txt", "Permission denied (os error 13)");
    assert_eq!(err, "before\nf.txt: Permission denied (os error 13)\n");
    let mut err = String::new();
    complain_of_line(&mut err, "-", 12);
    assert_eq!(err, "-: line 12: stream did not contain valid UTF-8\n");
    let mut err = String::new();
    complain_of_lines(&mut err, "f", &vec![2, 5]);
    assert_eq!(
        err,
        "f: line 2: stream did not contain valid UTF-8\nf: line 5: stream did not contain valid UTF-8\n"
    );
}

#[test]
fn no_token_means_stdin() {
    assert_eq!(files_or_stdin(Vec::new()), vec!["-".to_string()]);
    assert_eq!(files_or_stdin(vec!["a".to_string()]), vec!["a".to_string()]);
    assert!(stdin_token(&"-".to_string()));
    assert!(!stdin_token(&"--".to_string()));
    assert!(!stdin_token(&String::new()));
}

#[test]
fn sources_give_what_was_read_and_why_it_stopped() {
    let gone = Source::Unavailable { cause: "gone".to_string() };
    assert_eq!((gone.data(), gone.cause()), (None, Some("gone")));
    let whole = Source::Bytes { data: b"x".to_vec() };
    assert_eq!((whole.data(), whole.cause()), (Some(&b"x"[..]), None));
    let cut = Source::Interrupted { data: b"x".to_vec(), cause: "cut".to_string() };
    assert_eq!((cut.data(), cut.cause()), (Some(&b"x"[..]), Some("cut")));
}
