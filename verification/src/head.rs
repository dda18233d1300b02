//! The head limiter: the first lines or the first bytes of an input, with a
//! banner in front where several inputs are given.

use crate::numfmt::push_all;
use crate::text::{
    aligned, ends_with_newline, first_line_len, is_line, is_line_sequence, join_lines,
    lemma_split_is_line_sequence, lemma_split_join, lemma_split_lines_step, line_end, split_lines,
    NEWLINE,
};
use crate::unicode::{decode_lossy, utf8_lossy};
use vstd::prelude::*;
use vstd::string::StringSliceAdditionalSpecFns;
use vstd::utf8::{decode_utf8, encode_utf8, valid_utf8};

verus! {

/// What the limiter is asked to do.
pub struct Args {
    /// Input paths, `-` for standard input.
    pub files: Vec<String>,
    /// How many lines to put out, when no byte limit is set.
    pub lines: u64,
    /// How many bytes to put out; takes the place of the line limit.
    pub bytes: Option<u64>,
}

/// The smaller of a limit and a length.
pub open spec fn capped(limit: nat, len: nat) -> nat {
    if limit < len {
        limit
    } else {
        len
    }
}

/// The first `limit` lines of `input`, or all of them where it has fewer,
/// glued together.
pub open spec fn head_lines_output(input: Seq<u8>, limit: nat) -> Seq<u8> {
    let lines = split_lines(input);
    join_lines(lines.take(capped(limit, lines.len()) as int))
}

/// The first `limit` bytes of `input`, or all of them where it has fewer,
/// decoded with a replacement character for each invalid sequence.
pub open spec fn head_bytes_output(input: Seq<u8>, limit: nat) -> Seq<char> {
    utf8_lossy(input.take(capped(limit, input.len()) as int))
}

/// The banner of an input: `==> path <==` on a line of its own, after a blank
/// line unless it is the first banner.
pub open spec fn banner(path: Seq<u8>, is_first: bool) -> Seq<u8> {
    (if is_first {
        Seq::<u8>::empty()
    } else {
        seq![NEWLINE]
    }) + seq![61u8, 61u8, 62u8, 32u8] + path + seq![32u8, 60u8, 61u8, 61u8, NEWLINE]
}

/// Gluing lines with one more at the end.
pub proof fn lemma_join_push(lines: Seq<Seq<u8>>, line: Seq<u8>)
    ensures
        join_lines(lines.push(line)) == join_lines(lines) + line,
    decreases lines.len(),
{
    if lines.len() == 0 {
        let one = lines.push(line);
        assert(one.drop_first() =~= Seq::<Seq<u8>>::empty());
        assert(one[0] == line);
        assert(join_lines(one.drop_first()) =~= Seq::<u8>::empty());
        assert(join_lines(lines) =~= Seq::<u8>::empty());
        assert(join_lines(one) =~= join_lines(lines) + line);
    } else {
        lemma_join_push(lines.drop_first(), line);
        assert(lines.push(line).drop_first() =~= lines.drop_first().push(line));
        assert(join_lines(lines.push(line)) =~= join_lines(lines) + line);
    }
}

/// Where the input has at least `limit` lines, what the limiter puts out in
/// line mode is cut into exactly `limit` lines: the first `limit` lines of the
/// input, each as it stands.
pub proof fn lemma_head_lines_exact(input: Seq<u8>, limit: nat)
    requires
        split_lines(input).len() >= limit,
    ensures
        split_lines(head_lines_output(input, limit)) == split_lines(input).take(limit as int),
        split_lines(head_lines_output(input, limit)).len() == limit,
{
    let lines = split_lines(input);
    let first = lines.take(limit as int);
    lemma_split_is_line_sequence(input);
    assert(is_line_sequence(first)) by {
        assert forall|i: int| 0 <= i < first.len() implies is_line(#[trigger] first[i]) by {
            assert(first[i] == lines[i]);
        }
        assert forall|i: int| 0 <= i < first.len() - 1 implies ends_with_newline(
            #[trigger] first[i],
        ) by {
            assert(first[i] == lines[i]);
        }
    }
    lemma_split_join(first);
}

/// How much of an input may still be put out.
pub struct Quota {
    pub remaining: u64,
}

impl Quota {
    /// A quota of `limit` lines or bytes.
    pub fn new(limit: u64) -> (quota: Quota)
        ensures
            quota.remaining == limit,
    {
        Quota { remaining: limit }
    }

    /// Whether nothing more may be read.
    pub fn is_exhausted(&self) -> (r: bool)
        ensures
            r == (self.remaining == 0),
    {
        self.remaining == 0
    }

    /// Uses up one unit, where one is left; says whether it was.
    pub fn consume(&mut self) -> (taken: bool)
        ensures
            taken == (old(self).remaining > 0),
            taken ==> final(self).remaining == old(self).remaining - 1,
            !taken ==> final(self).remaining == 0,
    {
        if self.remaining == 0 {
            false
        } else {
            self.remaining -= 1;
            true
        }
    }
}

/// The first `lines_to_read` lines of `input`, as they stand.
pub fn head_lines(input: &[u8], lines_to_read: u64) -> (out: Vec<u8>)
    ensures
        out@ == head_lines_output(input@, lines_to_read as nat),
        split_lines(input@).len() >= lines_to_read ==> split_lines(out@) == split_lines(
            input@,
        ).take(lines_to_read as int),
{
    let mut out: Vec<u8> = Vec::new();
    let mut quota = Quota::new(lines_to_read);
    let mut start: usize = 0;
    let ghost lines = split_lines(input@);
    let ghost mut k: int = 0;
    proof {
        assert(input@.skip(0) =~= input@);
        assert(lines.skip(0) =~= lines);
        assert(lines.take(0) =~= Seq::<Seq<u8>>::empty());
    }
    while start < input.len() && !quota.is_exhausted()
        invariant
            start <= input.len(),
            lines == split_lines(input@),
            0 <= k <= lines.len(),
            k + quota.remaining == lines_to_read,
            lines.skip(k) == split_lines(input@.skip(start as int)),
            out@ == join_lines(lines.take(k)),
        decreases input.len() - start,
    {
        let end = line_end(input, start);
        let line = vstd::slice::slice_subrange(input, start, end);
        proof {
            let rest = input@.skip(start as int);
            lemma_split_lines_step(rest);
            let n = first_line_len(rest);
            assert(rest.take(n) =~= line@);
            assert(rest.skip(n) =~= input@.skip(end as int));
            assert(lines.skip(k)[0] == lines[k]);
            assert(lines.skip(k).drop_first() =~= lines.skip(k + 1));
            assert(lines.take(k + 1) =~= lines.take(k).push(line@));
            lemma_join_push(lines.take(k), line@);
        }
        quota.consume();
        push_all(&mut out, line);
        start = end;
        proof {
            k = k + 1;
        }
    }
    proof {
        if start >= input.len() {
            assert(lines.skip(k).len() == 0);
        }
        assert(k == capped(lines_to_read as nat, lines.len()));
        if lines.len() >= lines_to_read {
            lemma_head_lines_exact(input@, lines_to_read as nat);
        }
    }
    out
}

/// The first `limit` bytes of `input`, decoded as text.
pub fn head_bytes(input: &[u8], limit: u64) -> (out: String)
    ensures
        out@ == head_bytes_output(input@, limit as nat),
        valid_utf8(input@.take(capped(limit as nat, input@.len()) as int)) ==> out@ == decode_utf8(
            input@.take(capped(limit as nat, input@.len()) as int),
        ),
{
    let end: usize = if limit < input.len() as u64 {
        limit as usize
    } else {
        input.len()
    };
    let taken = vstd::slice::slice_subrange(input, 0, end);
    assert(taken@ =~= input@.take(end as int));
    decode_lossy(taken)
}

/// The banner line of the input at `file_path`.
pub fn print_header(file_path: &str, is_first: bool) -> (out: Vec<u8>)
    ensures
        out@ == banner(file_path.spec_bytes(), is_first),
{
    let mut out: Vec<u8> = Vec::new();
    if !is_first {
        out.push(NEWLINE);
    }
    out.push(61u8);
    out.push(61u8);
    out.push(62u8);
    out.push(32u8);
    push_all(&mut out, file_path.as_bytes());
    out.push(32u8);
    out.push(60u8);
    out.push(61u8);
    out.push(61u8);
    out.push(NEWLINE);
    assert(out@ =~= banner(file_path.spec_bytes(), is_first));
    out
}

/// What is put out for one input: its banner where several inputs are given,
/// then its first bytes as text where a byte limit is set, its first lines
/// otherwise.
pub open spec fn head_output(args: Args, file_path: Seq<u8>, is_first: bool, input: Seq<u8>) -> Seq<
    u8,
> {
    (if args.files@.len() > 1 {
        banner(file_path, is_first)
    } else {
        Seq::<u8>::empty()
    }) + match args.bytes {
        Some(limit) => encode_utf8(head_bytes_output(input, limit as nat)),
        None => head_lines_output(input, args.lines as nat),
    }
}

/// What is put out for the inputs in order; one that could not be opened adds
/// nothing. Only the banner of the first path has no blank line before it.
pub open spec fn run_output(args: Args, inputs: Seq<Option<Vec<u8>>>) -> Seq<u8>
    decreases inputs.len(),
{
    if inputs.len() == 0 {
        Seq::empty()
    } else {
        run_output(args, inputs.drop_last()) + match inputs.last() {
            Some(bytes) => head_output(
                args,
                encode_utf8(args.files@[inputs.len() - 1]@),
                inputs.len() == 1,
                bytes@,
            ),
            None => Seq::empty(),
        }
    }
}

/// Handles one input: the banner, where one is due, and the head of `input`.
pub fn head(args: &Args, file_path: &str, is_first: bool, input: &[u8]) -> (out: Vec<u8>)
    ensures
        out@ == head_output(*args, file_path.spec_bytes(), is_first, input@),
{
    let mut out: Vec<u8> = if args.files.len() > 1 {
        print_header(file_path, is_first)
    } else {
        Vec::new()
    };
    match args.bytes {
        Some(limit) => {
            let text = head_bytes(input, limit);
            push_all(&mut out, text.as_str().as_bytes());
        },
        None => {
            let lines = head_lines(input, args.lines);
            push_all(&mut out, lines.as_slice());
        },
    }
    out
}

/// Handles the inputs in order. `inputs[i]` holds the contents of the input at
/// `args.files[i]`, or `None` where it could not be opened: such an input is
/// passed over, and the others are handled all the same.
pub fn run(args: &Args, inputs: &[Option<Vec<u8>>]) -> (out: Vec<u8>)
    ensures
        out@ == run_output(*args, aligned(inputs@, args.files@.len())),
{
    let mut out: Vec<u8> = Vec::new();
    let mut i: usize = 0;
    let ghost all = aligned(inputs@, args.files@.len());
    while i < args.files.len()
        invariant
            i <= args.files@.len(),
            all == aligned(inputs@, args.files@.len()),
            out@ == run_output(*args, all.take(i as int)),
        decreases args.files.len() - i,
    {
        proof {
            assert(all.take(i + 1).drop_last() =~= all.take(i as int));
            assert(all.take(i + 1).last() == all[i as int]);
        }
        if i < inputs.len() {
            match &inputs[i] {
                Some(bytes) => {
                    let piece = head(args, args.files[i].as_str(), i == 0, bytes.as_slice());
                    push_all(&mut out, piece.as_slice());
                },
                None => {},
            }
        }
        i += 1;
    }
    assert(all.take(i as int) =~= all);
    out
}

} // verus!
