//! The stream counter: lines, words, bytes and characters of an input, and a
//! row of right-aligned columns for them.

use crate::numfmt::{lemma_counter_fits, push_all, push_right_aligned, right_aligned, SPACE};
use crate::text::{
    aligned, count_newlines, first_line_len, lemma_line_count, lemma_split_lines_step, line_end,
    split_lines, NEWLINE,
};
use crate::unicode::{chars_of, count_words, decode_lossy, lemma_count_words_bound, utf8_lossy, word_count};
use vstd::prelude::*;
use vstd::string::StringSliceAdditionalSpecFns;

verus! {

/// Width of each column of counts.
pub const FIELD_WIDTH: usize = 8;

/// The byte `-`, which alone names standard input.
pub const DASH: u8 = 45u8;

/// What the counter is asked to do.
pub struct Args {
    /// Input paths, `-` for standard input.
    pub files: Vec<String>,
    /// Show the number of lines.
    pub lines: bool,
    /// Show the number of words.
    pub words: bool,
    /// Show the number of bytes.
    pub bytes: bool,
    /// Show the number of characters.
    pub chars: bool,
}

/// A counter would exceed what the machine can hold.
#[derive(Clone, Copy, Debug, PartialEq, Eq)]
pub enum CountError {
    Overflow,
}

impl Args {
    /// Whether no column was asked for.
    pub fn should_set_defaults(&self) -> (r: bool)
        ensures
            r == !(self.lines || self.words || self.bytes || self.chars),
    {
        !(self.lines || self.words || self.bytes || self.chars)
    }

    /// Selects the default columns: lines, words and bytes.
    pub fn set_defaults(&mut self)
        ensures
            final(self).lines,
            final(self).words,
            final(self).bytes,
            final(self).chars == old(self).chars,
            final(self).files == old(self).files,
    {
        self.lines = true;
        self.words = true;
        self.bytes = true;
    }

    /// The flags as given, or the default columns where none was asked for.
    pub fn parse_with_defaults(parsed: Args) -> (args: Args)
        ensures
            args.files == parsed.files,
            parsed.lines || parsed.words || parsed.bytes || parsed.chars ==> args == parsed,
            !(parsed.lines || parsed.words || parsed.bytes || parsed.chars) ==> args.lines
                && args.words && args.bytes && !args.chars,
    {
        let mut args = parsed;
        if args.should_set_defaults() {
            args.set_defaults();
        }
        args
    }
}

/// Words of all the lines together, each line counted by itself.
pub open spec fn total_words(lines: Seq<Seq<u8>>) -> nat
    decreases lines.len(),
{
    if lines.len() == 0 {
        0
    } else {
        count_words(utf8_lossy(lines[0])) + total_words(lines.drop_first())
    }
}

/// Decoded characters of all the lines together.
pub open spec fn total_chars(lines: Seq<Seq<u8>>) -> nat
    decreases lines.len(),
{
    if lines.len() == 0 {
        0
    } else {
        utf8_lossy(lines[0]).len() + total_chars(lines.drop_first())
    }
}

/// The counts of one input, or the sum of the counts of several. Words and
/// characters are counted on the decoded text; they are held wide enough for
/// every input that a slice can hold, whatever its decoding.
#[derive(Debug, PartialEq)]
pub struct FileInfo<'a> {
    pub name: &'a str,
    pub lines: usize,
    pub words: u128,
    pub bytes: usize,
    pub chars: u128,
}

impl<'a> FileInfo<'a> {
    /// Whether the counts of `line` can be added without exceeding a counter.
    pub open spec fn fits_line(self, line: Seq<u8>) -> bool {
        &&& self.lines + 1 <= usize::MAX
        &&& self.words + count_words(utf8_lossy(line)) <= u128::MAX
        &&& self.bytes + line.len() <= usize::MAX
        &&& self.chars + utf8_lossy(line).len() <= u128::MAX
    }

    /// Whether the counts of `other` can be added without exceeding a counter.
    pub open spec fn fits(self, other: FileInfo) -> bool {
        &&& self.lines + other.lines <= usize::MAX
        &&& self.words + other.words <= u128::MAX
        &&& self.bytes + other.bytes <= usize::MAX
        &&& self.chars + other.chars <= u128::MAX
    }

    /// Counts of zero under the name `file_name`.
    pub fn new(file_name: &'a str) -> (info: Self)
        ensures
            info.name == file_name,
            info.lines == 0,
            info.words == 0,
            info.bytes == 0,
            info.chars == 0,
    {
        FileInfo { name: file_name, lines: 0, words: 0, bytes: 0, chars: 0 }
    }

    /// Adds the counts of one line: one line, its words, its bytes as read and
    /// its decoded characters. Where a counter would be exceeded, nothing is
    /// changed and the error is returned. The decoded line was held in
    /// memory, so its length fits `usize`.
    pub fn add_line(&mut self, line: &[u8]) -> (r: Result<(), CountError>)
        ensures
            utf8_lossy(line@).len() <= usize::MAX,
            r is Ok <==> old(self).fits_line(line@),
            r is Err ==> *final(self) == *old(self),
            r is Ok ==> {
                &&& final(self).name == old(self).name
                &&& final(self).lines == old(self).lines + 1
                &&& final(self).words == old(self).words + count_words(utf8_lossy(line@))
                &&& final(self).bytes == old(self).bytes + line@.len()
                &&& final(self).chars == old(self).chars + utf8_lossy(line@).len()
            },
    {
        let text = chars_of(decode_lossy(line).as_str());
        let words = word_count(text.as_slice()) as u128;
        let chars = text.len() as u128;
        if self.lines > usize::MAX - 1 || self.words > u128::MAX - words || self.bytes
            > usize::MAX - line.len() || self.chars > u128::MAX - chars {
            return Err(CountError::Overflow);
        }
        self.lines += 1;
        self.words += words;
        self.bytes += line.len();
        self.chars += chars;
        Ok(())
    }

    /// Counts the lines, words, bytes and characters of `input`. It succeeds
    /// on every input. The number of lines is the number of newline bytes,
    /// plus one where the input is not empty and does not end in a newline.
    pub fn from_reader(file_name: &'a str, input: &[u8]) -> (r: Result<Self, CountError>)
        ensures
            r is Ok,
            r matches Ok(info) && {
                &&& info.name == file_name
                &&& info.lines == split_lines(input@).len()
                &&& info.lines == count_newlines(input@) + if input@.len() > 0 && input@.last()
                    != NEWLINE {
                    1nat
                } else {
                    0nat
                }
                &&& info.words == total_words(split_lines(input@))
                &&& info.bytes == input@.len()
                &&& info.chars == total_chars(split_lines(input@))
            },
    {
        let mut info = Self::new(file_name);
        let mut start: usize = 0;
        assert(input@.skip(0) =~= input@);
        while start < input.len()
            invariant
                start <= input.len(),
                info.name == file_name,
                info.bytes == start,
                info.lines <= start,
                info.words <= info.chars,
                info.chars <= info.lines * usize::MAX,
                split_lines(input@).len() == info.lines + split_lines(
                    input@.skip(start as int),
                ).len(),
                total_words(split_lines(input@)) == info.words + total_words(
                    split_lines(input@.skip(start as int)),
                ),
                total_chars(split_lines(input@)) == info.chars + total_chars(
                    split_lines(input@.skip(start as int)),
                ),
            decreases input.len() - start,
        {
            let end = line_end(input, start);
            let line = vstd::slice::slice_subrange(input, start, end);
            proof {
                let rest = input@.skip(start as int);
                lemma_split_lines_step(rest);
                let n = first_line_len(rest);
                assert(rest.take(n) =~= line@);
                assert(rest.skip(n) =~= input@.skip(end as int));
                lemma_count_words_bound(utf8_lossy(line@));
                lemma_counter_fits(info.lines as nat, input.len() as nat, usize::MAX as nat);
            }
            match info.add_line(line) {
                Err(e) => {
                    return Err(e);
                },
                Ok(()) => {},
            }
            start = end;
        }
        proof {
            lemma_line_count(input@);
        }
        Ok(info)
    }

    /// Adds the counts of `other` to these, where every sum fits its counter;
    /// otherwise nothing is changed and the error is returned.
    pub fn try_add(&mut self, other: &FileInfo) -> (r: Result<(), CountError>)
        ensures
            r is Ok <==> old(self).fits(*other),
            r is Err ==> *final(self) == *old(self),
            r is Ok ==> {
                &&& final(self).name == old(self).name
                &&& final(self).lines == old(self).lines + other.lines
                &&& final(self).words == old(self).words + other.words
                &&& final(self).bytes == old(self).bytes + other.bytes
                &&& final(self).chars == old(self).chars + other.chars
            },
    {
        if self.lines > usize::MAX - other.lines || self.words > u128::MAX - other.words
            || self.bytes > usize::MAX - other.bytes || self.chars > u128::MAX - other.chars {
            return Err(CountError::Overflow);
        }
        self.add_assign(other);
        Ok(())
    }

    /// Adds the counts of `other` to these.
    pub fn add_assign(&mut self, other: &FileInfo)
        requires
            old(self).fits(*other),
        ensures
            final(self).name == old(self).name,
            final(self).lines == old(self).lines + other.lines,
            final(self).words == old(self).words + other.words,
            final(self).bytes == old(self).bytes + other.bytes,
            final(self).chars == old(self).chars + other.chars,
    {
        self.lines += other.lines;
        self.words += other.words;
        self.bytes += other.bytes;
        self.chars += other.chars;
    }
}

/// Whether `name` stands for standard input: the single byte `-`.
pub open spec fn names_stdin(name: Seq<u8>) -> bool {
    name == seq![DASH]
}

/// A row of counts: the selected ones in the order lines, words, then bytes or
/// else characters, each in its field; then a space and the name, unless the
/// name stands for standard input. `counts` holds lines, words, bytes and
/// characters, in this order.
pub open spec fn count_row(args: Args, counts: (nat, nat, nat, nat), name: Seq<u8>) -> Seq<u8> {
    (if args.lines {
        right_aligned(counts.0, FIELD_WIDTH as nat)
    } else {
        Seq::empty()
    }) + (if args.words {
        right_aligned(counts.1, FIELD_WIDTH as nat)
    } else {
        Seq::empty()
    }) + (if args.bytes {
        right_aligned(counts.2, FIELD_WIDTH as nat)
    } else if args.chars {
        right_aligned(counts.3, FIELD_WIDTH as nat)
    } else {
        Seq::empty()
    }) + (if names_stdin(name) {
        Seq::empty()
    } else {
        seq![SPACE] + name
    })
}

/// The row of `info` with the columns that `args` selects.
pub open spec fn file_info_row(info: FileInfo, args: Args) -> Seq<u8> {
    count_row(
        args,
        (info.lines as nat, info.words as nat, info.bytes as nat, info.chars as nat),
        info.name.spec_bytes(),
    )
}

/// Lines, words, bytes and characters of `input`.
pub open spec fn counts_of(input: Seq<u8>) -> (nat, nat, nat, nat) {
    (
        split_lines(input).len(),
        total_words(split_lines(input)),
        input.len(),
        total_chars(split_lines(input)),
    )
}

/// The sums of the counts of the inputs that could be opened.
pub open spec fn sum_counts(inputs: Seq<Option<Vec<u8>>>) -> (nat, nat, nat, nat)
    decreases inputs.len(),
{
    if inputs.len() == 0 {
        (0, 0, 0, 0)
    } else {
        let before = sum_counts(inputs.drop_last());
        match inputs.last() {
            Some(bytes) => {
                let c = counts_of(bytes@);
                (before.0 + c.0, before.1 + c.1, before.2 + c.2, before.3 + c.3)
            },
            None => before,
        }
    }
}

/// The rows of the inputs that could be opened, each on a line of its own,
/// under the names in `files`.
pub open spec fn input_rows(args: Args, inputs: Seq<Option<Vec<u8>>>) -> Seq<u8>
    decreases inputs.len(),
{
    if inputs.len() == 0 {
        Seq::empty()
    } else {
        input_rows(args, inputs.drop_last()) + match inputs.last() {
            Some(bytes) => count_row(
                args,
                counts_of(bytes@),
                vstd::utf8::encode_utf8(args.files@[inputs.len() - 1]@),
            ) + seq![NEWLINE],
            None => Seq::empty(),
        }
    }
}

/// The name of the row of sums.
pub open spec fn total_name() -> Seq<u8> {
    "total".spec_bytes()
}

/// Everything the counter puts out: the rows of the inputs, and the row of sums
/// where more than one input was given.
pub open spec fn run_output(args: Args, inputs: Seq<Option<Vec<u8>>>) -> Seq<u8> {
    input_rows(args, inputs) + if args.files@.len() > 1 {
        count_row(args, sum_counts(inputs), total_name()) + seq![NEWLINE]
    } else {
        Seq::empty()
    }
}

/// A stream has at most as many lines as bytes.
pub proof fn lemma_lines_bound(s: Seq<u8>)
    ensures
        split_lines(s).len() <= s.len(),
    decreases s.len(),
{
    if s.len() > 0 {
        lemma_split_lines_step(s);
        lemma_lines_bound(s.skip(first_line_len(s)));
    }
}

/// Lines have at most as many words as characters.
pub proof fn lemma_words_bound(lines: Seq<Seq<u8>>)
    ensures
        total_words(lines) <= total_chars(lines),
    decreases lines.len(),
{
    if lines.len() > 0 {
        lemma_count_words_bound(utf8_lossy(lines[0]));
        lemma_words_bound(lines.drop_first());
    }
}

/// The sums over the first inputs are at most the sums over all of them, and
/// lines stay below bytes, words below characters.
pub proof fn lemma_sum_counts_take(inputs: Seq<Option<Vec<u8>>>, k: int)
    requires
        0 <= k <= inputs.len(),
    ensures
        sum_counts(inputs.take(k)).0 <= sum_counts(inputs).0,
        sum_counts(inputs.take(k)).1 <= sum_counts(inputs).1,
        sum_counts(inputs.take(k)).2 <= sum_counts(inputs).2,
        sum_counts(inputs.take(k)).3 <= sum_counts(inputs).3,
        sum_counts(inputs).0 <= sum_counts(inputs).2,
        sum_counts(inputs).1 <= sum_counts(inputs).3,
    decreases inputs.len(),
{
    if inputs.len() > 0 {
        lemma_sum_counts_take(inputs.drop_last(), if k < inputs.len() { k } else { k - 1 });
        match inputs.last() {
            Some(bytes) => {
                lemma_lines_bound(bytes@);
                lemma_words_bound(split_lines(bytes@));
            },
            None => {},
        }
        if k < inputs.len() {
            assert(inputs.drop_last().take(k) =~= inputs.take(k));
        } else {
            assert(inputs.take(k) =~= inputs);
        }
    } else {
        assert(inputs.take(k) =~= inputs);
    }
}

/// Appends one count in its field to `out`.
pub fn format_file_info_field(out: &mut Vec<u8>, field_val: u128)
    ensures
        final(out)@ == old(out)@ + right_aligned(field_val as nat, FIELD_WIDTH as nat),
{
    push_right_aligned(out, field_val, FIELD_WIDTH);
}

/// The row of `info` with the columns that `args` selects.
pub fn format_file_info(info: &FileInfo, args: &Args) -> (row: Vec<u8>)
    ensures
        row@ == file_info_row(*info, *args),
{
    let mut row: Vec<u8> = Vec::new();
    if args.lines {
        format_file_info_field(&mut row, info.lines as u128);
    }
    if args.words {
        format_file_info_field(&mut row, info.words);
    }
    if args.bytes {
        format_file_info_field(&mut row, info.bytes as u128);
    } else if args.chars {
        format_file_info_field(&mut row, info.chars);
    }
    let name = info.name.as_bytes();
    if !(name.len() == 1 && name[0] == DASH) {
        row.push(SPACE);
        push_all(&mut row, name);
    } else {
        assert(name@ =~= seq![DASH]);
    }
    assert(row@ =~= file_info_row(*info, *args));
    row
}

/// Counts every input and puts out its row, then the row of sums where more
/// than one input was given. `inputs[i]` holds the contents of the input at
/// `args.files[i]`, or `None` where it could not be opened: such an input has
/// no row and adds nothing to the sums. The error comes exactly where the
/// bytes of all inputs together exceed `usize` or their decoded characters
/// `u128`; nothing is put out then.
pub fn run(args: &Args, inputs: &[Option<Vec<u8>>]) -> (r: Result<Vec<u8>, CountError>)
    ensures
        r is Ok <==> sum_counts(aligned(inputs@, args.files@.len())).2 <= usize::MAX && sum_counts(
            aligned(inputs@, args.files@.len()),
        ).3 <= u128::MAX,
        r matches Ok(out) ==> out@ == run_output(*args, aligned(inputs@, args.files@.len())),
{
    let mut total = FileInfo::new("total");
    let mut out: Vec<u8> = Vec::new();
    let mut i: usize = 0;
    let ghost all = aligned(inputs@, args.files@.len());
    while i < args.files.len()
        invariant
            i <= args.files@.len(),
            all == aligned(inputs@, args.files@.len()),
            total.name == "total",
            out@ == input_rows(*args, all.take(i as int)),
            sum_counts(all.take(i as int)) == (
                total.lines as nat,
                total.words as nat,
                total.bytes as nat,
                total.chars as nat,
            ),
        decreases args.files.len() - i,
    {
        proof {
            assert(all.take(i + 1).drop_last() =~= all.take(i as int));
            assert(all.take(i + 1).last() == all[i as int]);
            lemma_sum_counts_take(all, i + 1);
            lemma_sum_counts_take(all.take(i + 1), i + 1);
        }
        if i < inputs.len() {
            match &inputs[i] {
                Some(bytes) => {
                    let info = match FileInfo::from_reader(
                        args.files[i].as_str(),
                        bytes.as_slice(),
                    ) {
                        Ok(info) => info,
                        Err(e) => {
                            return Err(e);
                        },
                    };
                    match total.try_add(&info) {
                        Err(e) => {
                            return Err(e);
                        },
                        Ok(()) => {},
                    }
                    let row = format_file_info(&info, args);
                    push_all(&mut out, row.as_slice());
                    out.push(NEWLINE);
                },
                None => {},
            }
        }
        i += 1;
    }
    proof {
        assert(all.take(i as int) =~= all);
    }
    if args.files.len() > 1 {
        let row = format_file_info(&total, args);
        push_all(&mut out, row.as_slice());
        out.push(NEWLINE);
    }
    Ok(out)
}

} // verus!
