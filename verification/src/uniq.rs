//! The duplicate collapser: each run of adjacent equal lines becomes one
//! line, optionally with the length of the run in front.

use crate::numfmt::{push_all, push_right_aligned, right_aligned, SPACE};
use crate::text::{
    ends_with_newline, first_line_len, is_line, is_line_sequence, join_lines,
    lemma_split_is_line_sequence, lemma_split_join, lemma_split_lines_step, line_end, split_lines,
    NEWLINE,
};
use vstd::prelude::*;

verus! {

/// Width of the field that holds a run's length.
pub const COUNT_WIDTH: usize = 4;

/// What the collapser is asked to do.
pub struct Args {
    /// The input path, `-` for standard input.
    pub input_file: String,
    /// The path to append the output to; standard output when absent.
    pub output_file: Option<String>,
    /// Put the length of its run in front of each line.
    pub count: bool,
}

/// A line without its trailing newline, if it has one.
pub open spec fn strip_newline(line: Seq<u8>) -> Seq<u8> {
    if ends_with_newline(line) {
        line.drop_last()
    } else {
        line
    }
}

/// Two lines are duplicates when they are equal once each has lost its
/// trailing newline.
pub open spec fn duplicates(a: Seq<u8>, b: Seq<u8>) -> bool {
    strip_newline(a) == strip_newline(b)
}

/// The runs of `rest`, after a run that began with `prev` and has `count`
/// lines so far: each run as its first line and its length.
pub open spec fn runs_from(prev: Seq<u8>, count: nat, rest: Seq<Seq<u8>>) -> Seq<(Seq<u8>, nat)>
    decreases rest.len(),
{
    if rest.len() == 0 {
        seq![(prev, count)]
    } else if duplicates(prev, rest[0]) {
        runs_from(prev, count + 1, rest.drop_first())
    } else {
        seq![(prev, count)] + runs_from(rest[0], 1, rest.drop_first())
    }
}

/// The runs of `lines`: maximal sequences of adjacent duplicates.
pub open spec fn runs(lines: Seq<Seq<u8>>) -> Seq<(Seq<u8>, nat)> {
    if lines.len() == 0 {
        Seq::empty()
    } else {
        runs_from(lines[0], 1, lines.drop_first())
    }
}

/// One output line: the run's length in its field and a space, when counting,
/// then the line as it was read.
pub open spec fn unique_line(with_count: bool, count: nat, line: Seq<u8>) -> Seq<u8> {
    if with_count {
        right_aligned(count, COUNT_WIDTH as nat) + seq![SPACE] + line
    } else {
        line
    }
}

/// The output lines of the runs, in order.
pub open spec fn render_runs(with_count: bool, rs: Seq<(Seq<u8>, nat)>) -> Seq<u8>
    decreases rs.len(),
{
    if rs.len() == 0 {
        Seq::empty()
    } else {
        unique_line(with_count, rs[0].1, rs[0].0) + render_runs(with_count, rs.drop_first())
    }
}

/// What the collapser puts out for `lines`.
pub open spec fn uniq_output(with_count: bool, lines: Seq<Seq<u8>>) -> Seq<u8> {
    render_runs(with_count, runs(lines))
}

/// The first lines of the runs, in order.
pub open spec fn run_lines(rs: Seq<(Seq<u8>, nat)>) -> Seq<Seq<u8>> {
    Seq::new(rs.len(), |i: int| rs[i].0)
}

/// Each line as a run of its own, of length 1.
pub open spec fn single_runs(lines: Seq<Seq<u8>>) -> Seq<(Seq<u8>, nat)> {
    Seq::new(lines.len(), |i: int| (lines[i], 1nat))
}

/// No line is a duplicate of the line before it.
pub open spec fn no_adjacent_duplicates(lines: Seq<Seq<u8>>) -> bool {
    forall|i: int| 0 <= i < lines.len() - 1 ==> !duplicates(#[trigger] lines[i], lines[i + 1])
}

/// A line sequence without its first line is a line sequence.
pub proof fn lemma_line_sequence_tail(lines: Seq<Seq<u8>>)
    requires
        is_line_sequence(lines),
        lines.len() > 0,
    ensures
        is_line_sequence(lines.drop_first()),
{
    let tail = lines.drop_first();
    assert forall|i: int| 0 <= i < tail.len() implies is_line(#[trigger] tail[i]) by {
        assert(tail[i] == lines[i + 1]);
    }
    assert forall|i: int| 0 <= i < tail.len() - 1 implies ends_with_newline(#[trigger] tail[i]) by {
        assert(tail[i] == lines[i + 1]);
    }
}

/// The lines that the runs of a stream begin with: the first is the line that
/// the first run began with, no two neighbours are duplicates, and together
/// they are a line sequence again.
pub proof fn lemma_runs_from_shape(prev: Seq<u8>, count: nat, rest: Seq<Seq<u8>>)
    requires
        is_line(prev),
        is_line_sequence(rest),
        ends_with_newline(prev) || rest.len() == 0,
    ensures
        run_lines(runs_from(prev, count, rest)).len() > 0,
        run_lines(runs_from(prev, count, rest))[0] == prev,
        no_adjacent_duplicates(run_lines(runs_from(prev, count, rest))),
        is_line_sequence(run_lines(runs_from(prev, count, rest))),
    decreases rest.len(),
{
    let ls = run_lines(runs_from(prev, count, rest));
    if rest.len() > 0 {
        let tail = rest.drop_first();
        lemma_line_sequence_tail(rest);
        assert(is_line(rest[0]));
        if duplicates(prev, rest[0]) {
            lemma_runs_from_shape(prev, count + 1, tail);
        } else {
            lemma_runs_from_shape(rest[0], 1, tail);
            if tail.len() > 0 {
                assert(ends_with_newline(rest[0]));
            }
            let inner = run_lines(runs_from(rest[0], 1, tail));
            assert(ls =~= seq![prev] + inner);
            assert forall|i: int| 0 <= i < ls.len() - 1 implies !duplicates(
                #[trigger] ls[i],
                ls[i + 1],
            ) by {
                if i > 0 {
                    assert(ls[i] == inner[i - 1]);
                    assert(ls[i + 1] == inner[i]);
                } else {
                    assert(ls[1] == inner[0]);
                }
            }
            assert forall|i: int| 0 <= i < ls.len() implies is_line(#[trigger] ls[i]) by {
                if i > 0 {
                    assert(ls[i] == inner[i - 1]);
                }
            }
            assert forall|i: int| 0 <= i < ls.len() - 1 implies ends_with_newline(
                #[trigger] ls[i],
            ) by {
                if i > 0 {
                    assert(ls[i] == inner[i - 1]);
                }
            }
        }
    }
}

/// Without counts, what is put out for the runs is their first lines glued
/// together.
pub proof fn lemma_render_plain(rs: Seq<(Seq<u8>, nat)>)
    ensures
        render_runs(false, rs) == join_lines(run_lines(rs)),
    decreases rs.len(),
{
    if rs.len() > 0 {
        lemma_render_plain(rs.drop_first());
        assert(run_lines(rs).drop_first() =~= run_lines(rs.drop_first()));
    }
}

/// Where no line is a duplicate of the line before it, every line is a run of
/// length 1.
pub proof fn lemma_runs_of_distinct(lines: Seq<Seq<u8>>)
    requires
        no_adjacent_duplicates(lines),
    ensures
        runs(lines) == single_runs(lines),
    decreases lines.len(),
{
    if lines.len() == 0 {
        assert(runs(lines) =~= single_runs(lines));
    } else {
        let rest = lines.drop_first();
        if rest.len() == 0 {
            assert(runs(lines) =~= single_runs(lines));
        } else {
            assert(rest[0] == lines[1]);
            assert(!duplicates(lines[0], lines[1]));
            assert forall|i: int| 0 <= i < rest.len() - 1 implies !duplicates(
                #[trigger] rest[i],
                rest[i + 1],
            ) by {
                assert(rest[i] == lines[i + 1]);
                assert(rest[i + 1] == lines[i + 2]);
            }
            lemma_runs_of_distinct(rest);
            assert(runs(lines) == seq![(lines[0], 1nat)] + runs(rest));
            assert(seq![(lines[0], 1nat)] + single_runs(rest) =~= single_runs(lines));
        }
    }
}

/// Collapsing is idempotent: the output of the collapser, collapsed again,
/// has the same lines, each as a run of length 1, and so is put out unchanged.
pub proof fn lemma_collapse_idempotent(input: Seq<u8>)
    ensures
        runs(split_lines(uniq_output(false, split_lines(input)))) == single_runs(
            run_lines(runs(split_lines(input))),
        ),
        uniq_output(false, split_lines(uniq_output(false, split_lines(input)))) == uniq_output(
            false,
            split_lines(input),
        ),
{
    let lines = split_lines(input);
    let once = uniq_output(false, lines);
    let kept = run_lines(runs(lines));
    lemma_render_plain(runs(lines));
    if lines.len() == 0 {
        assert(kept =~= Seq::<Seq<u8>>::empty());
        assert(once =~= Seq::<u8>::empty());
        assert(split_lines(once) =~= kept);
    } else {
        lemma_split_is_line_sequence(input);
        lemma_line_sequence_tail(lines);
        if lines.len() > 1 {
            assert(ends_with_newline(lines[0]));
        }
        lemma_runs_from_shape(lines[0], 1, lines.drop_first());
        lemma_split_join(kept);
    }
    assert(split_lines(once) == kept);
    lemma_runs_of_distinct(kept);
    lemma_render_plain(single_runs(kept));
    assert(run_lines(single_runs(kept)) =~= kept);
}

/// The bytes of `line` without its trailing newline.
fn stripped_len(line: &[u8]) -> (n: usize)
    ensures
        n == strip_newline(line@).len(),
        strip_newline(line@) == line@.take(n as int),
{
    if line.len() > 0 && line[line.len() - 1] == NEWLINE {
        assert(line@.drop_last() =~= line@.take(line.len() - 1));
        line.len() - 1
    } else {
        assert(line@ =~= line@.take(line.len() as int));
        line.len()
    }
}

/// Whether two lines are duplicates of each other.
pub fn lines_are_duplicates(prev: &[u8], cur: &[u8]) -> (r: bool)
    ensures
        r == duplicates(prev@, cur@),
{
    let n = stripped_len(prev);
    if stripped_len(cur) != n {
        return false;
    }
    let mut i: usize = 0;
    while i < n
        invariant
            i <= n,
            n <= prev.len(),
            n <= cur.len(),
            strip_newline(prev@) == prev@.take(n as int),
            strip_newline(cur@) == cur@.take(n as int),
            forall|j: int| 0 <= j < i ==> prev@[j] == cur@[j],
        decreases n - i,
    {
        if prev[i] != cur[i] {
            assert(prev@.take(n as int)[i as int] != cur@.take(n as int)[i as int]);
            return false;
        }
        i += 1;
    }
    assert(prev@.take(n as int) =~= cur@.take(n as int));
    true
}

/// Appends the output line of a run to `out`.
pub fn write_unique_line(out: &mut Vec<u8>, with_count: bool, count: u64, line: &[u8])
    ensures
        final(out)@ == old(out)@ + unique_line(with_count, count as nat, line@),
{
    if with_count {
        push_right_aligned(out, count as u128, COUNT_WIDTH);
        out.push(SPACE);
    }
    push_all(out, line);
    assert(final(out)@ =~= old(out)@ + unique_line(with_count, count as nat, line@));
}

/// The run that is being read: its first line and how many lines of it were
/// seen.
pub struct RunState {
    pub previous_line: Vec<u8>,
    pub adjacent_count: u64,
}

impl RunState {
    /// A run holds at least the line it began with.
    pub open spec fn wf(&self) -> bool {
        self.adjacent_count >= 1
    }

    /// A run that begins with `first`.
    pub fn new(first: Vec<u8>) -> (state: RunState)
        ensures
            state.previous_line@ == first@,
            state.adjacent_count == 1,
            state.wf(),
    {
        RunState { previous_line: first, adjacent_count: 1 }
    }

    /// Takes the next line. A duplicate of the run's line is counted and
    /// nothing is put out; another line ends the run, whose output line is
    /// returned, and begins the next.
    pub fn push_line(&mut self, with_count: bool, current: &[u8]) -> (out: Vec<u8>)
        requires
            old(self).adjacent_count < u64::MAX,
        ensures
            old(self).wf() ==> final(self).wf(),
            duplicates(old(self).previous_line@, current@) ==> {
                &&& out@ == Seq::<u8>::empty()
                &&& final(self).previous_line@ == old(self).previous_line@
                &&& final(self).adjacent_count == old(self).adjacent_count + 1
            },
            !duplicates(old(self).previous_line@, current@) ==> {
                &&& out@ == unique_line(
                    with_count,
                    old(self).adjacent_count as nat,
                    old(self).previous_line@,
                )
                &&& final(self).previous_line@ == current@
                &&& final(self).adjacent_count == 1
            },
    {
        let mut out: Vec<u8> = Vec::new();
        if lines_are_duplicates(self.previous_line.as_slice(), current) {
            self.adjacent_count += 1;
        } else {
            write_unique_line(
                &mut out,
                with_count,
                self.adjacent_count,
                self.previous_line.as_slice(),
            );
            self.previous_line = vstd::slice::slice_to_vec(current);
            self.adjacent_count = 1;
        }
        out
    }

    /// The output line of the run, for the end of the stream.
    pub fn flush(&self, with_count: bool) -> (out: Vec<u8>)
        ensures
            out@ == unique_line(with_count, self.adjacent_count as nat, self.previous_line@),
    {
        let mut out: Vec<u8> = Vec::new();
        write_unique_line(
            &mut out,
            with_count,
            self.adjacent_count,
            self.previous_line.as_slice(),
        );
        out
    }
}

/// Collapses the runs of adjacent duplicate lines of `input`.
pub fn uniqr(args: &Args, input: &[u8]) -> (out: Vec<u8>)
    ensures
        out@ == uniq_output(args.count, split_lines(input@)),
{
    let mut out: Vec<u8> = Vec::new();
    if input.len() == 0 {
        return out;
    }
    assert(input@.skip(0) =~= input@);
    let first_end = line_end(input, 0);
    proof {
        lemma_split_lines_step(input@);
        assert(input@.take(first_end as int) =~= input@.subrange(0, first_end as int));
    }
    let mut state = RunState::new(
        vstd::slice::slice_to_vec(vstd::slice::slice_subrange(input, 0, first_end)),
    );
    let mut start: usize = first_end;
    while start < input.len()
        invariant
            0 < start <= input.len(),
            1 <= state.adjacent_count <= start,
            uniq_output(args.count, split_lines(input@)) == out@ + render_runs(
                args.count,
                runs_from(
                    state.previous_line@,
                    state.adjacent_count as nat,
                    split_lines(input@.skip(start as int)),
                ),
            ),
        decreases input.len() - start,
    {
        let end = line_end(input, start);
        let line = vstd::slice::slice_subrange(input, start, end);
        proof {
            let rest = input@.skip(start as int);
            lemma_split_lines_step(rest);
            let n = first_line_len(rest);
            assert(rest.take(n) =~= line@);
            assert(rest.skip(n) =~= input@.skip(end as int));
        }
        let ghost before = state;
        let ghost out_before = out@;
        let piece = state.push_line(args.count, line);
        push_all(&mut out, piece.as_slice());
        proof {
            let rest_lines = split_lines(input@.skip(start as int));
            let next_lines = split_lines(input@.skip(end as int));
            let old_runs = runs_from(
                before.previous_line@,
                before.adjacent_count as nat,
                rest_lines,
            );
            let new_runs = runs_from(
                state.previous_line@,
                state.adjacent_count as nat,
                next_lines,
            );
            if duplicates(before.previous_line@, line@) {
                assert(old_runs == new_runs);
                assert(out@ =~= out_before);
            } else {
                let head = (before.previous_line@, before.adjacent_count as nat);
                assert(old_runs == seq![head] + new_runs);
                assert((seq![head] + new_runs).drop_first() =~= new_runs);
                assert(out@ + render_runs(args.count, new_runs) =~= out_before + render_runs(
                    args.count,
                    old_runs,
                ));
            }
        }
        start = end;
    }
    let ghost out_before = out@;
    write_unique_line(
        &mut out,
        args.count,
        state.adjacent_count,
        state.previous_line.as_slice(),
    );
    proof {
        let last = (state.previous_line@, state.adjacent_count as nat);
        let rs = runs_from(
            state.previous_line@,
            state.adjacent_count as nat,
            split_lines(input@.skip(start as int)),
        );
        assert(rs == seq![last]);
        assert(rs.drop_first() =~= Seq::<(Seq<u8>, nat)>::empty());
        assert(render_runs(args.count, rs.drop_first()) =~= Seq::<u8>::empty());
        assert(rs[0] == last);
        assert(render_runs(args.count, rs) =~= unique_line(args.count, last.1, last.0));
    }
    out
}

/// The report of a path that could not be opened: the path, a colon and a
/// space, and the cause.
pub open spec fn open_error(path: Seq<char>, cause: Seq<char>) -> Seq<char> {
    path + seq![':', ' '] + cause
}

/// Formats the report of a path that could not be opened.
pub fn format_open_error(path: &str, cause: &str) -> (report: String)
    ensures
        report@ == open_error(path@, cause@),
{
    let mut report = String::from_str(path);
    report.append(": ");
    report.append(cause);
    proof {
        reveal_strlit(": ");
        assert(": "@ =~= seq![':', ' ']);
    }
    report
}

/// Runs the collapser on an input that was read, or reports the input that
/// could not be opened: `input` holds the contents, or the cause of the
/// failure.
pub fn run(args: &Args, input: Result<&[u8], &str>) -> (r: Result<Vec<u8>, String>)
    ensures
        match input {
            Ok(bytes) => r matches Ok(out) && out@ == uniq_output(args.count, split_lines(bytes@)),
            Err(cause) => r matches Err(report) && report@ == open_error(
                args.input_file@,
                cause@,
            ),
        },
{
    match input {
        Ok(bytes) => Ok(uniqr(args, bytes)),
        Err(cause) => Err(format_open_error(args.input_file.as_str(), cause)),
    }
}

} // verus!
