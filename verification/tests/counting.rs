use linetools::wc::{format_file_info, run, Args, CountError, FileInfo};

fn flags(lines: bool, words: bool, bytes: bool, chars: bool) -> Args {
    Args { files: vec!["-".to_string()], lines, words, bytes, chars }
}

#[test]
fn test_count() {
    let file_name = "cursor";
    let text = "I don't want the world. I just want your half.\r\n";
    let info = FileInfo::from_reader(file_name, text.as_bytes());
    assert!(info.is_ok());
    let expected = FileInfo { name: file_name, lines: 1, words: 10, chars: 48, bytes: 48 };
    assert_eq!(info.unwrap(), expected)
}

#[test]
fn counts_one_two_three() {
    let info = FileInfo::from_reader("-", b"one two three\n").unwrap();
    assert_eq!(info.lines, 1);
    assert_eq!(info.words, 3);
    assert_eq!(info.bytes, 14);
    assert_eq!(info.chars, 14);
    let args = Args::parse_with_defaults(flags(false, false, false, false));
    assert_eq!(format_file_info(&info, &args), b"       1       3      14".to_vec());
}

#[test]
fn counts_nothing_in_empty_input() {
    let info = FileInfo::from_reader("empty", b"").unwrap();
    assert_eq!(info, FileInfo::new("empty"));
}

#[test]
fn counts_final_fragment_as_a_line() {
    let info = FileInfo::from_reader("f", b"a\nb").unwrap();
    assert_eq!(info.lines, 2);
    assert_eq!(info.bytes, 3);
    let newlines = b"a\nb".iter().filter(|b| **b == b'\n').count();
    assert_eq!(info.lines, newlines + 1);
    let info = FileInfo::from_reader("f", b"a\nb\n").unwrap();
    assert_eq!(info.lines, 2);
}

#[test]
fn counts_characters_not_bytes() {
    let text = "h\u{e9}llo w\u{f6}rld\u{2003}x\n";
    let info = FileInfo::from_reader("f", text.as_bytes()).unwrap();
    assert_eq!(info.chars, 14);
    assert_eq!(info.bytes, 18);
    assert_eq!(info.words, 3);
}

#[test]
fn counts_invalid_bytes_as_replacement_characters() {
    let info = FileInfo::from_reader("f", &[b'a', 0xff, b'b', b'\n']).unwrap();
    assert_eq!(info.chars, 4);
    assert_eq!(info.bytes, 4);
    assert_eq!(info.words, 1);
}

#[test]
fn add_line_reports_overflow_and_changes_nothing() {
    let mut info = FileInfo { name: "f", lines: usize::MAX, words: 0, bytes: 0, chars: 0 };
    assert_eq!(info.add_line(b"x\n"), Err(CountError::Overflow));
    assert_eq!(info.lines, usize::MAX);
    assert_eq!(info.bytes, 0);
    let mut info = FileInfo::new("f");
    assert_eq!(info.add_line(b"x y\n"), Ok(()));
    assert_eq!(info, FileInfo { name: "f", lines: 1, words: 2, bytes: 4, chars: 4 });
}

#[test]
fn totals_are_sums() {
    let mut total = FileInfo::new("total");
    total.add_assign(&FileInfo::from_reader("a", b"one\ntwo\n").unwrap());
    total.add_assign(&FileInfo::from_reader("b", b"three four\n").unwrap());
    assert_eq!(total, FileInfo { name: "total", lines: 3, words: 4, bytes: 19, chars: 19 });
    let args = flags(true, true, true, false);
    assert_eq!(format_file_info(&total, &args), b"       3       4      19 total".to_vec());
}

#[test]
fn bytes_take_precedence_over_chars() {
    let info = FileInfo { name: "n", lines: 1, words: 2, bytes: 3, chars: 4 };
    assert_eq!(format_file_info(&info, &flags(false, false, true, true)), b"       3 n".to_vec());
    assert_eq!(format_file_info(&info, &flags(false, false, false, true)), b"       4 n".to_vec());
    assert_eq!(format_file_info(&info, &flags(true, false, false, false)), b"       1 n".to_vec());
}

#[test]
fn defaults_apply_only_without_flags() {
    let args = Args::parse_with_defaults(flags(false, false, false, false));
    assert!(args.lines && args.words && args.bytes && !args.chars);
    let args = Args::parse_with_defaults(flags(false, true, false, false));
    assert!(!args.lines && args.words && !args.bytes && !args.chars);
    assert!(flags(false, false, false, false).should_set_defaults());
    assert!(!flags(false, false, false, true).should_set_defaults());
}

#[test]
fn wide_counts_are_not_cut() {
    let info = FileInfo { name: "-", lines: 123456789, words: 0, bytes: 0, chars: 0 };
    assert_eq!(format_file_info(&info, &flags(true, true, false, false)), b"123456789       0".to_vec());
}

#[test]
fn rows_and_total_for_several_inputs() {
    let args = Args {
        files: vec!["a".to_string(), "gone".to_string(), "b".to_string()],
        lines: true,
        words: true,
        bytes: true,
        chars: false,
    };
    let out = run(&args, &[Some(b"one two three\n".to_vec()), None, Some(b"x\ny".to_vec())]);
    assert_eq!(
        out,
        Ok(b"       1       3      14 a\n       2       2       3 b\n       3       5      17 total\n".to_vec())
    );
    let single = Args { files: vec!["-".to_string()], lines: true, words: false, bytes: false, chars: true };
    assert_eq!(run(&single, &[Some("h\u{e9}\n".as_bytes().to_vec())]), Ok(b"       1       3\n".to_vec()));
}

#[test]
fn try_add_reports_overflow_and_changes_nothing() {
    let mut total = FileInfo { name: "total", lines: 1, words: 2, bytes: usize::MAX, chars: 4 };
    let one = FileInfo { name: "a", lines: 1, words: 1, bytes: 1, chars: 1 };
    assert_eq!(total.try_add(&one), Err(CountError::Overflow));
    assert_eq!(total, FileInfo { name: "total", lines: 1, words: 2, bytes: usize::MAX, chars: 4 });
    let mut total = FileInfo { name: "total", lines: 1, words: 2, bytes: 3, chars: u128::MAX };
    assert_eq!(total.try_add(&one), Err(CountError::Overflow));
    let mut total = FileInfo { name: "total", lines: 1, words: 2, bytes: 3, chars: 4 };
    assert_eq!(total.try_add(&one), Ok(()));
    assert_eq!(total, FileInfo { name: "total", lines: 2, words: 3, bytes: 4, chars: 5 });
}

#[test]
fn counting_succeeds_on_any_bytes() {
    let input: Vec<u8> = vec![0xff, 0xfe, b'\n', 0xc3, b'\n', b' ', 0x80];
    let info = FileInfo::from_reader("f", &input).unwrap();
    assert_eq!(info.lines, 3);
    assert_eq!(info.bytes, 7);
    assert_eq!(info.chars, 7);
    assert_eq!(info.words, 3);
}
