use linetools::find::{
    file_name_matches, file_type_matches, normalize_types, run, Args, Entry, EntryType, FileKind,
};
use regex::bytes::Regex;

const DIR: FileKind = FileKind { is_dir: true, is_file: false, is_symlink: false };
const FILE: FileKind = FileKind { is_dir: false, is_file: true, is_symlink: false };
const LINK: FileKind = FileKind { is_dir: false, is_file: false, is_symlink: true };
const OTHER: FileKind = FileKind { is_dir: false, is_file: false, is_symlink: false };

#[test]
fn type_must_be_asked_for() {
    assert!(file_type_matches(&[EntryType::Dir, EntryType::Link], DIR));
    assert!(file_type_matches(&[EntryType::Dir, EntryType::Link], LINK));
    assert!(!file_type_matches(&[EntryType::Dir, EntryType::Link], FILE));
    assert!(!file_type_matches(&[], FILE));
    assert!(!file_type_matches(&[EntryType::Dir, EntryType::File, EntryType::Link], OTHER));
}

#[test]
fn no_pattern_matches_every_name() {
    assert!(file_name_matches(&[], b"anything"));
    assert!(file_name_matches(&[], b""));
}

#[test]
fn one_matching_pattern_is_enough() {
    let patterns = vec![Regex::new(r"\.rs$").unwrap(), Regex::new(r"^a").unwrap()];
    assert!(file_name_matches(&patterns, b"main.rs"));
    assert!(file_name_matches(&patterns, b"abc.txt"));
    assert!(!file_name_matches(&patterns, b"b.txt"));
    assert!(file_name_matches(&patterns[..1], &[0xff, b'.', b'r', b's']));
}

#[test]
fn types_are_sorted_and_deduplicated() {
    assert_eq!(
        normalize_types(&[EntryType::Link, EntryType::Dir, EntryType::Link, EntryType::Dir]),
        vec![EntryType::Dir, EntryType::Link]
    );
    assert_eq!(normalize_types(&[]), Vec::<EntryType>::new());
    assert_eq!(
        normalize_types(&[EntryType::File, EntryType::Link, EntryType::Dir]),
        vec![EntryType::Dir, EntryType::File, EntryType::Link]
    );
}

#[test]
fn filter_needs_type_and_name() {
    let args = Args::load(Args {
        paths: vec![".".to_string()],
        names: vec![Regex::new("^x").unwrap()],
        entry_types: vec![EntryType::File, EntryType::File],
    });
    assert_eq!(args.entry_types, vec![EntryType::File]);
    assert!(args.as_filter(FILE, b"x1"));
    assert!(!args.as_filter(FILE, b"y1"));
    assert!(!args.as_filter(DIR, b"x1"));
}

#[test]
fn walk_keeps_matching_entries_in_order() {
    let args = Args {
        paths: vec![".".to_string()],
        names: vec![Regex::new(r"\.txt$").unwrap()],
        entry_types: vec![EntryType::File, EntryType::Link],
    };
    let entry = |kind: FileKind, name: &str, path: &str| Entry {
        kind,
        name: name.as_bytes().to_vec(),
        path: path.to_string(),
    };
    let entries = vec![
        entry(DIR, "d.txt", "./d.txt"),
        entry(FILE, "a.txt", "./d.txt/a.txt"),
        entry(FILE, "b.rs", "./d.txt/b.rs"),
        entry(LINK, "c.txt", "./c.txt"),
    ];
    assert_eq!(run(&args, &entries), vec!["./d.txt/a.txt".to_string(), "./c.txt".to_string()]);
    let all = Args { paths: vec![], names: vec![], entry_types: vec![EntryType::Dir] };
    assert_eq!(run(&all, &entries), vec!["./d.txt".to_string()]);
}
