use linetools::uniq::{format_open_error, lines_are_duplicates, run, uniqr, Args, RunState};

fn args(count: bool) -> Args {
    Args { input_file: "-".to_string(), output_file: None, count }
}

#[test]
fn counts_runs() {
    assert_eq!(uniqr(&args(true), b"a\na\nb\n"), b"   2 a\n   1 b\n".to_vec());
}

#[test]
fn empty_input_gives_no_output() {
    assert_eq!(uniqr(&args(true), b""), Vec::<u8>::new());
    assert_eq!(uniqr(&args(false), b""), Vec::<u8>::new());
}

#[test]
fn final_fragment_joins_the_run_before_it() {
    assert_eq!(uniqr(&args(true), b"a\na"), b"   2 a\n".to_vec());
    assert_eq!(uniqr(&args(false), b"a\nb"), b"a\nb".to_vec());
    assert_eq!(uniqr(&args(true), b"a\nb"), b"   1 a\n   1 b".to_vec());
}

#[test]
fn only_adjacent_lines_collapse() {
    assert_eq!(uniqr(&args(false), b"a\nb\na\n"), b"a\nb\na\n".to_vec());
    assert_eq!(uniqr(&args(true), b"a\nb\na\na\na\n"), b"   1 a\n   1 b\n   3 a\n".to_vec());
}

#[test]
fn collapsing_twice_changes_nothing() {
    let once = uniqr(&args(false), b"a\na\nb\nb\nb\na\n\n\nc");
    assert_eq!(once, b"a\nb\na\n\nc".to_vec());
    assert_eq!(uniqr(&args(false), &once), once);
    assert_eq!(uniqr(&args(true), &once), b"   1 a\n   1 b\n   1 a\n   1 \n   1 c".to_vec());
}

#[test]
fn duplicates_ignore_one_trailing_newline() {
    assert!(lines_are_duplicates(b"a\n", b"a\n"));
    assert!(lines_are_duplicates(b"a\n", b"a"));
    assert!(lines_are_duplicates(b"a", b"a\n"));
    assert!(!lines_are_duplicates(b"a\n", b"b\n"));
    assert!(!lines_are_duplicates(b"a\n\n", b"a\n"));
    assert!(!lines_are_duplicates(b"ab\n", b"a\n"));
    assert!(!lines_are_duplicates(b"a\n", b"A\n"));
}

#[test]
fn run_state_counts_and_flushes() {
    let mut state = RunState::new(b"x\n".to_vec());
    assert_eq!(state.push_line(true, b"x\n"), Vec::<u8>::new());
    assert_eq!(state.adjacent_count, 2);
    assert_eq!(state.push_line(true, b"y\n"), b"   2 x\n".to_vec());
    assert_eq!(state.adjacent_count, 1);
    assert_eq!(state.previous_line, b"y\n".to_vec());
    assert_eq!(state.flush(true), b"   1 y\n".to_vec());
    assert_eq!(state.flush(false), b"y\n".to_vec());
}

#[test]
fn wide_run_lengths_keep_all_digits() {
    let state = RunState { previous_line: b"z\n".to_vec(), adjacent_count: 123456 };
    assert_eq!(state.flush(true), b"123456 z\n".to_vec());
}

#[test]
fn open_error_names_the_path() {
    assert_eq!(format_open_error("in.txt", "No such file"), "in.txt: No such file");
    let a = Args { input_file: "in.txt".to_string(), output_file: None, count: true };
    assert_eq!(run(&a, Err("gone")), Err("in.txt: gone".to_string()));
    assert_eq!(run(&a, Ok(&b"a\na\nb\n"[..])), Ok(b"   2 a\n   1 b\n".to_vec()));
}
