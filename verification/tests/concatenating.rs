use linetools::cat::{run, Args, Cat};

fn args(number_lines: bool, number_nonblank_lines: bool, squeeze: bool) -> Args {
    Args { files: vec!["a".to_string(), "b".to_string()], number_lines, number_nonblank_lines, squeeze }
}

#[test]
fn squeeze_drops_second_blank_line() {
    assert_eq!(Cat::run(&args(false, false, true), b"x\n\n\ny\n"), b"x\n\ny\n".to_vec());
}

#[test]
fn plain_copy_is_byte_for_byte() {
    let input: Vec<u8> = vec![b'a', 0xff, b'\n', b'\n', b' ', b'\n', b'z'];
    assert_eq!(Cat::run(&args(false, false, false), &input), input);
    let inputs = vec![Some(b"one\ntwo".to_vec()), Some(b"three\n".to_vec())];
    assert_eq!(run(&args(false, false, false), &inputs), b"one\ntwothree\n".to_vec());
}

#[test]
fn numbers_all_lines() {
    assert_eq!(
        Cat::run(&args(true, false, false), b"a\n\nb"),
        b"     1\ta\n     2\t\n     3\tb".to_vec()
    );
}

#[test]
fn numbers_nonblank_lines_only() {
    assert_eq!(
        Cat::run(&args(false, true, false), b"a\n \t\nb\n"),
        b"     1\ta\n \t\n     2\tb\n".to_vec()
    );
}

#[test]
fn squeezed_line_gets_no_number() {
    assert_eq!(
        Cat::run(&args(true, false, true), b"\n\n\nx\n"),
        b"     1\t\n     2\tx\n".to_vec()
    );
}

#[test]
fn numbering_goes_on_across_inputs() {
    let inputs = vec![Some(b"a\nb\n".to_vec()), Some(b"c\n".to_vec())];
    assert_eq!(
        run(&args(true, false, false), &inputs),
        b"     1\ta\n     2\tb\n     3\tc\n".to_vec()
    );
}

#[test]
fn missing_input_is_passed_over() {
    let inputs = vec![None, Some(b"x\ny\n".to_vec())];
    assert_eq!(run(&args(true, false, false), &inputs), b"     1\tx\n     2\ty\n".to_vec());
}

#[test]
fn step_by_step_matches_whole_input() {
    let a = args(true, false, true);
    let mut cat = Cat::new(&a);
    let mut out = Vec::new();
    for line in [&b"\n"[..], &b"\n"[..], &b"k\n"[..]] {
        out.extend(cat.cat_line(line));
    }
    assert_eq!(out, Cat::run(&a, b"\n\nk\n"));
    assert_eq!(cat.line_counter, 3);
    assert!(!cat.prev_line_empty);
}

#[test]
fn wide_numbers_keep_all_digits() {
    let a = args(true, false, false);
    let mut cat = Cat::new(&a);
    cat.line_counter = 1234567;
    assert_eq!(cat.cat_line(b"x\n"), b"1234567\tx\n".to_vec());
}

#[test]
fn blank_lines_are_not_squeezed_across_inputs() {
    let inputs = vec![Some(b"a\n\n".to_vec()), Some(b"\nb\n".to_vec())];
    assert_eq!(run(&args(false, false, true), &inputs), b"a\n\n\nb\n".to_vec());
    let newlines = vec![Some(b"\n".to_vec()), Some(b"\n".to_vec())];
    assert_eq!(run(&args(false, false, true), &newlines), b"\n\n".to_vec());
    let around_missing = vec![Some(b"\n".to_vec()), None, Some(b"\n\n".to_vec())];
    assert_eq!(run(&args(true, false, true), &around_missing), b"     1\t\n     2\t\n".to_vec());
}

#[test]
fn begin_input_keeps_the_counter() {
    let a = args(true, false, true);
    let mut cat = Cat::new(&a);
    assert_eq!(cat.cat(b"x\n\n"), b"     1\tx\n     2\t\n".to_vec());
    assert!(cat.prev_line_empty);
    cat.begin_input();
    assert!(!cat.prev_line_empty);
    assert_eq!(cat.line_counter, 3);
    assert_eq!(cat.cat(b"\n"), b"     3\t\n".to_vec());
}
