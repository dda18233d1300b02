use linetools::head::{head, head_bytes, head_lines, print_header, run, Args, Quota};
use linetools::text::lines_of;

#[test]
fn byte_mode_cuts_inside_a_line() {
    assert_eq!(head_bytes(b"hello\n", 3), "hel");
}

#[test]
fn byte_mode_stops_at_end_of_input() {
    assert_eq!(head_bytes(b"hi\n", 10), "hi\n");
    assert_eq!(head_bytes(b"", 10), "");
}

#[test]
fn byte_mode_replaces_a_cut_character() {
    assert_eq!(head_bytes("\u{e9}t\u{e9}".as_bytes(), 1), "\u{fffd}");
    assert_eq!(head_bytes("\u{e9}t\u{e9}".as_bytes(), 3), "\u{e9}t");
}

#[test]
fn line_mode_takes_first_lines() {
    let input = b"1\n2\n3\n4\n";
    assert_eq!(head_lines(input, 2), b"1\n2\n".to_vec());
    assert_eq!(lines_of(&head_lines(input, 3)), lines_of(input)[..3].to_vec());
    assert_eq!(head_lines(input, 9), input.to_vec());
    assert_eq!(head_lines(input, 0), Vec::<u8>::new());
    assert_eq!(head_lines(b"a\nb", 2), b"a\nb".to_vec());
}

#[test]
fn banners_are_separated_by_one_blank_line() {
    assert_eq!(print_header("a.txt", true), b"==> a.txt <==\n".to_vec());
    assert_eq!(print_header("b.txt", false), b"\n==> b.txt <==\n".to_vec());
}

#[test]
fn head_picks_the_mode() {
    let two = Args { files: vec!["a".to_string(), "b".to_string()], lines: 1, bytes: None };
    assert_eq!(head(&two, "b", false, b"x\ny\n"), b"\n==> b <==\nx\n".to_vec());
    assert_eq!(head(&two, "a", true, b"x\ny\n"), b"==> a <==\nx\n".to_vec());
    let one = Args { files: vec!["a".to_string()], lines: 10, bytes: Some(3) };
    assert_eq!(head(&one, "a", true, b"x\ny\n"), b"x\ny".to_vec());
    let cut = Args { files: vec!["a".to_string()], lines: 10, bytes: Some(1) };
    assert_eq!(head(&cut, "a", true, "\u{e9}".as_bytes()), "\u{fffd}".as_bytes().to_vec());
}

#[test]
fn quota_runs_down_to_zero() {
    let mut quota = Quota::new(2);
    assert!(!quota.is_exhausted());
    assert!(quota.consume());
    assert!(quota.consume());
    assert!(quota.is_exhausted());
    assert!(!quota.consume());
    assert_eq!(quota.remaining, 0);
}

#[test]
fn lines_keep_their_newlines() {
    assert_eq!(lines_of(b"a\n\nb"), vec![b"a\n".to_vec(), b"\n".to_vec(), b"b".to_vec()]);
    assert_eq!(lines_of(b""), Vec::<Vec<u8>>::new());
    assert_eq!(lines_of(b"\n"), vec![b"\n".to_vec()]);
}

#[test]
fn missing_input_does_not_stop_the_others() {
    let args = Args { files: vec!["gone".to_string(), "b".to_string()], lines: 1, bytes: None };
    assert_eq!(run(&args, &[None, Some(b"x\ny\n".to_vec())]), b"\n==> b <==\nx\n".to_vec());
}

#[test]
fn several_inputs_are_separated_by_banners() {
    let args = Args { files: vec!["a".to_string(), "b".to_string()], lines: 2, bytes: None };
    assert_eq!(
        run(&args, &[Some(b"1\n2\n3\n".to_vec()), Some(b"x".to_vec())]),
        b"==> a <==\n1\n2\n\n==> b <==\nx".to_vec()
    );
    let bytes = Args { files: vec!["a".to_string(), "b".to_string()], lines: 10, bytes: Some(2) };
    assert_eq!(
        run(&bytes, &[Some(b"hello\n".to_vec()), Some(b"yo\n".to_vec())]),
        b"==> a <==\nhe\n==> b <==\nyo".to_vec()
    );
}

#[test]
fn path_without_contents_counts_as_unopened() {
    let args = Args { files: vec!["a".to_string(), "b".to_string()], lines: 1, bytes: None };
    assert_eq!(run(&args, &[Some(b"1\n2\n".to_vec())]), b"==> a <==\n1\n".to_vec());
    assert_eq!(run(&args, &[]), Vec::<u8>::new());
}
