//! The matching rules of the tree filter: which entries of a directory tree
//! are kept, by their type and by their name.

use regex::bytes::Regex;
use vstd::prelude::*;

verus! {

/// The kinds of entry that can be asked for.
#[derive(Debug, PartialEq, Eq, Copy, Clone, PartialOrd, Ord)]
pub enum EntryType {
    Dir,
    File,
    Link,
}

/// What the file system says an entry is.
#[derive(Debug, PartialEq, Eq, Copy, Clone)]
pub struct FileKind {
    pub is_dir: bool,
    pub is_file: bool,
    pub is_symlink: bool,
}

/// A compiled regular expression over bytes, from the `regex` crate.
#[verifier::external_type_specification]
#[verifier::external_body]
pub struct ExRegex(Regex);

/// What the filter is asked to do.
pub struct Args {
    /// The roots of the trees to walk.
    pub paths: Vec<String>,
    /// Patterns for the file name; an entry passes when one of them matches,
    /// or when there is none.
    pub names: Vec<Regex>,
    /// The kinds of entry to keep.
    pub entry_types: Vec<EntryType>,
}

/// Whether `pattern` matches anywhere in `name`: what `Regex::is_match` of
/// `regex::bytes` returns for them.
pub uninterp spec fn pattern_accepts(pattern: Regex, name: Seq<u8>) -> bool;

/// Calls `regex::bytes::Regex::is_match`. Trusted: the result is the one named
/// `pattern_accepts`, which depends on the pattern and the name alone.
#[verifier::external_body]
fn pattern_is_match(pattern: &Regex, name: &[u8]) -> (r: bool)
    ensures
        r == pattern_accepts(*pattern, name@),
{
    pattern.is_match(name)
}

/// Whether an entry of kind `kind` is of the type `target`.
pub open spec fn is_of_type(target: EntryType, kind: FileKind) -> bool {
    match target {
        EntryType::Dir => kind.is_dir,
        EntryType::File => kind.is_file,
        EntryType::Link => kind.is_symlink,
    }
}

/// Whether `types` holds `target`.
pub open spec fn asks_for(types: Seq<EntryType>, target: EntryType) -> bool {
    exists|i: int| 0 <= i < types.len() && types[i] == target
}

/// The types asked for, each once, in the order directories, files, links.
pub open spec fn normalized(types: Seq<EntryType>) -> Seq<EntryType> {
    (if asks_for(types, EntryType::Dir) {
        seq![EntryType::Dir]
    } else {
        Seq::empty()
    }) + (if asks_for(types, EntryType::File) {
        seq![EntryType::File]
    } else {
        Seq::empty()
    }) + (if asks_for(types, EntryType::Link) {
        seq![EntryType::Link]
    } else {
        Seq::empty()
    })
}

/// Sorts the types asked for and drops repetitions.
pub fn normalize_types(types: &[EntryType]) -> (out: Vec<EntryType>)
    ensures
        out@ == normalized(types@),
{
    let mut dir = false;
    let mut file = false;
    let mut link = false;
    let mut i: usize = 0;
    while i < types.len()
        invariant
            i <= types.len(),
            dir == asks_for(types@.take(i as int), EntryType::Dir),
            file == asks_for(types@.take(i as int), EntryType::File),
            link == asks_for(types@.take(i as int), EntryType::Link),
        decreases types.len() - i,
    {
        proof {
            let before = types@.take(i as int);
            let after = types@.take(i + 1);
            assert(after[i as int] == types@[i as int]);
            assert forall|t: EntryType|
                asks_for(after, t) == (asks_for(before, t) || types@[i as int] == t) by {
                if asks_for(before, t) {
                    let j = choose|j: int| 0 <= j < before.len() && before[j] == t;
                    assert(after[j] == t);
                }
                if asks_for(after, t) {
                    let j = choose|j: int| 0 <= j < after.len() && after[j] == t;
                    if j < i {
                        assert(before[j] == t);
                    }
                }
            }
        }
        match types[i] {
            EntryType::Dir => {
                dir = true;
            },
            EntryType::File => {
                file = true;
            },
            EntryType::Link => {
                link = true;
            },
        }
        i += 1;
    }
    assert(types@.take(i as int) =~= types@);
    let mut out: Vec<EntryType> = Vec::new();
    if dir {
        out.push(EntryType::Dir);
    }
    if file {
        out.push(EntryType::File);
    }
    if link {
        out.push(EntryType::Link);
    }
    assert(out@ =~= normalized(types@));
    out
}

impl Args {
    /// The arguments with the types asked for in order and without repetition.
    pub fn load(parsed: Args) -> (args: Args)
        ensures
            args.paths == parsed.paths,
            args.names == parsed.names,
            args.entry_types@ == normalized(parsed.entry_types@),
    {
        let entry_types = normalize_types(parsed.entry_types.as_slice());
        Args { paths: parsed.paths, names: parsed.names, entry_types }
    }

    /// Whether an entry with this kind and this file name is kept: its type is
    /// asked for and its name passes.
    pub fn as_filter(&self, kind: FileKind, name: &[u8]) -> (keep: bool)
        ensures
            keep == (type_asked_for(self.entry_types@, kind) && name_passes(self.names@, name@)),
    {
        file_type_matches(self.entry_types.as_slice(), kind) && file_name_matches(
            self.names.as_slice(),
            name,
        )
    }
}

/// Whether one of `targets` is the type of an entry of kind `kind`.
pub open spec fn type_asked_for(targets: Seq<EntryType>, kind: FileKind) -> bool {
    exists|i: int| 0 <= i < targets.len() && is_of_type(#[trigger] targets[i], kind)
}

/// Whether `name` passes: there is no pattern, or one of them matches.
pub open spec fn name_passes(patterns: Seq<Regex>, name: Seq<u8>) -> bool {
    patterns.len() == 0 || exists|i: int|
        0 <= i < patterns.len() && pattern_accepts(#[trigger] patterns[i], name)
}

/// Whether the entry's type is one of those asked for.
pub fn file_type_matches(targets: &[EntryType], entry_type: FileKind) -> (r: bool)
    ensures
        r == type_asked_for(targets@, entry_type),
{
    let mut i: usize = 0;
    while i < targets.len()
        invariant
            i <= targets.len(),
            forall|j: int| 0 <= j < i ==> !is_of_type(#[trigger] targets@[j], entry_type),
        decreases targets.len() - i,
    {
        let hit = match targets[i] {
            EntryType::Dir => entry_type.is_dir,
            EntryType::File => entry_type.is_file,
            EntryType::Link => entry_type.is_symlink,
        };
        if hit {
            return true;
        }
        i += 1;
    }
    false
}

/// Whether the entry's file name passes the patterns.
pub fn file_name_matches(patterns: &[Regex], name: &[u8]) -> (r: bool)
    ensures
        r == name_passes(patterns@, name@),
{
    if patterns.len() == 0 {
        return true;
    }
    let mut i: usize = 0;
    while i < patterns.len()
        invariant
            i <= patterns.len(),
            forall|j: int| 0 <= j < i ==> !pattern_accepts(#[trigger] patterns@[j], name@),
        decreases patterns.len() - i,
    {
        if pattern_is_match(&patterns[i], name) {
            return true;
        }
        i += 1;
    }
    false
}

/// An entry met while walking a tree: what it is, its file name, and the path
/// it was found at.
pub struct Entry {
    pub kind: FileKind,
    pub name: Vec<u8>,
    pub path: String,
}

/// Whether `entry` is kept under `args`.
pub open spec fn keeps(args: Args, entry: Entry) -> bool {
    type_asked_for(args.entry_types@, entry.kind) && name_passes(args.names@, entry.name@)
}

/// The paths of the entries that are kept, in the order of the walk.
pub open spec fn kept_paths(args: Args, entries: Seq<Entry>) -> Seq<Seq<char>>
    decreases entries.len(),
{
    if entries.len() == 0 {
        Seq::empty()
    } else if keeps(args, entries.last()) {
        kept_paths(args, entries.drop_last()).push(entries.last().path@)
    } else {
        kept_paths(args, entries.drop_last())
    }
}

/// The paths that a vector of strings stands for.
pub open spec fn path_views(paths: Seq<String>) -> Seq<Seq<char>> {
    Seq::new(paths.len(), |i: int| paths[i]@)
}

/// Filters the entries of a walk: the paths of those whose type is asked for
/// and whose name passes, in the order in which they were met.
pub fn run(args: &Args, entries: &[Entry]) -> (paths: Vec<String>)
    ensures
        path_views(paths@) == kept_paths(*args, entries@),
{
    let mut paths: Vec<String> = Vec::new();
    let mut i: usize = 0;
    assert(path_views(paths@) =~= kept_paths(*args, entries@.take(0)));
    while i < entries.len()
        invariant
            i <= entries.len(),
            path_views(paths@) == kept_paths(*args, entries@.take(i as int)),
        decreases entries.len() - i,
    {
        proof {
            assert(entries@.take(i + 1).drop_last() =~= entries@.take(i as int));
        }
        let entry = &entries[i];
        if args.as_filter(entry.kind, entry.name.as_slice()) {
            let ghost before = path_views(paths@);
            let path = entry.path.clone();
            paths.push(path);
            assert(path_views(paths@) =~= before.push(entry.path@));
        }
        i += 1;
    }
    assert(entries@.take(i as int) =~= entries@);
    paths
}

} // verus!
