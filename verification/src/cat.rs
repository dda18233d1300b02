//! The concatenator: copies lines, optionally numbering them and squeezing
//! runs of blank lines.

use crate::numfmt::{lemma_counter_fits, push_all, push_right_aligned, right_aligned};
use crate::text::{first_line_len, join_lines, line_end, lemma_join_split, lemma_split_lines_step, split_lines};
use crate::unicode::{all_whitespace, chars_of, decode_lossy, is_all_whitespace, utf8_lossy};
use vstd::prelude::*;

verus! {

/// The separator between a line's number and the line.
pub const TAB: u8 = 9u8;

/// Width of the field that holds a line's number.
pub const NUMBER_WIDTH: usize = 6;

/// What the concatenator is asked to do.
pub struct Args {
    /// Input paths, `-` for standard input.
    pub files: Vec<String>,
    /// Number every output line.
    pub number_lines: bool,
    /// Number the output lines that are not blank.
    pub number_nonblank_lines: bool,
    /// Squeeze adjacent blank lines into one.
    pub squeeze: bool,
}

/// Numbering and squeezing state. The counter is carried from line to line
/// and from input to input; the blank flag from line to line of one input
/// only: every input begins as after a line that was not blank.
#[derive(Clone, Copy, Debug, PartialEq, Eq)]
pub struct Cat {
    pub number_lines: bool,
    pub number_nonblank_lines: bool,
    pub squeeze: bool,
    /// The number that the next numbered line gets. Wide enough for every
    /// line of as many inputs as a slice can hold.
    pub line_counter: u128,
    /// Whether the last line that was put out was blank.
    pub prev_line_empty: bool,
}

/// A line is blank when it holds nothing but whitespace.
pub open spec fn is_blank(line: Seq<u8>) -> bool {
    all_whitespace(utf8_lossy(line))
}

impl Cat {
    /// Whether `line` is dropped: a blank line after a blank line, when squeezing.
    pub open spec fn suppresses(self, line: Seq<u8>) -> bool {
        self.squeeze && self.prev_line_empty && is_blank(line)
    }

    /// Whether `line` is put out with a number.
    pub open spec fn numbers(self, line: Seq<u8>) -> bool {
        !self.suppresses(line) && (self.number_lines || (self.number_nonblank_lines && !is_blank(
            line,
        )))
    }

    /// What is put out for `line`.
    pub open spec fn line_output(self, line: Seq<u8>) -> Seq<u8> {
        if self.suppresses(line) {
            Seq::empty()
        } else if self.numbers(line) {
            right_aligned(self.line_counter as nat, NUMBER_WIDTH as nat) + seq![TAB] + line
        } else {
            line
        }
    }

    /// The state after `line`.
    pub open spec fn after_line(self, line: Seq<u8>) -> Cat {
        if self.suppresses(line) {
            self
        } else {
            Cat {
                number_lines: self.number_lines,
                number_nonblank_lines: self.number_nonblank_lines,
                squeeze: self.squeeze,
                line_counter: if self.numbers(line) {
                    (self.line_counter + 1) as u128
                } else {
                    self.line_counter
                },
                prev_line_empty: is_blank(line),
            }
        }
    }

    /// What is put out for `lines`, in order.
    pub open spec fn output(self, lines: Seq<Seq<u8>>) -> Seq<u8>
        decreases lines.len(),
    {
        if lines.len() == 0 {
            Seq::empty()
        } else {
            self.line_output(lines[0]) + self.after_line(lines[0]).output(lines.drop_first())
        }
    }

    /// The state after `lines`.
    pub open spec fn after(self, lines: Seq<Seq<u8>>) -> Cat
        decreases lines.len(),
    {
        if lines.len() == 0 {
            self
        } else {
            self.after_line(lines[0]).after(lines.drop_first())
        }
    }

    /// The state at the start of an input: the counter as it stands, and no
    /// blank line before the first line.
    pub open spec fn at_input_start(self) -> Cat {
        Cat {
            number_lines: self.number_lines,
            number_nonblank_lines: self.number_nonblank_lines,
            squeeze: self.squeeze,
            line_counter: self.line_counter,
            prev_line_empty: false,
        }
    }

    /// The state after the inputs: those that could not be opened change nothing.
    pub open spec fn after_inputs(self, inputs: Seq<Option<Vec<u8>>>) -> Cat
        decreases inputs.len(),
    {
        if inputs.len() == 0 {
            self
        } else {
            let before = self.after_inputs(inputs.drop_last());
            match inputs.last() {
                Some(bytes) => before.at_input_start().after(split_lines(bytes@)),
                None => before,
            }
        }
    }

    /// What is put out for the inputs, one after the other, the counter carried
    /// from each to the next.
    pub open spec fn inputs_output(self, inputs: Seq<Option<Vec<u8>>>) -> Seq<u8>
        decreases inputs.len(),
    {
        if inputs.len() == 0 {
            Seq::empty()
        } else {
            let before = self.after_inputs(inputs.drop_last());
            self.inputs_output(inputs.drop_last()) + match inputs.last() {
                Some(bytes) => before.at_input_start().output(split_lines(bytes@)),
                None => Seq::empty(),
            }
        }
    }

    /// The state before the first line: numbering starts at 1.
    pub fn new(args: &Args) -> (cat: Cat)
        ensures
            cat == (Cat {
                number_lines: args.number_lines,
                number_nonblank_lines: args.number_nonblank_lines,
                squeeze: args.squeeze,
                line_counter: 1,
                prev_line_empty: false,
            }),
    {
        Cat {
            number_lines: args.number_lines,
            number_nonblank_lines: args.number_nonblank_lines,
            squeeze: args.squeeze,
            line_counter: 1,
            prev_line_empty: false,
        }
    }

    /// Makes the state ready for the next input: the counter stays, the blank
    /// flag is cleared.
    pub fn begin_input(&mut self)
        ensures
            *final(self) == old(self).at_input_start(),
    {
        self.prev_line_empty = false;
    }

    /// Appends the number of a line that is put out to `out`, where the line
    /// gets one, and advances the counter.
    pub fn number_line(&mut self, out: &mut Vec<u8>, cur_line_empty: bool)
        requires
            old(self).line_counter < u128::MAX,
        ensures
            final(self).number_lines == old(self).number_lines,
            final(self).number_nonblank_lines == old(self).number_nonblank_lines,
            final(self).squeeze == old(self).squeeze,
            final(self).prev_line_empty == old(self).prev_line_empty,
            old(self).number_lines || (old(self).number_nonblank_lines && !cur_line_empty) ==> {
                &&& final(self).line_counter == old(self).line_counter + 1
                &&& final(out)@ == old(out)@ + right_aligned(
                    old(self).line_counter as nat,
                    NUMBER_WIDTH as nat,
                ) + seq![TAB]
            },
            !(old(self).number_lines || (old(self).number_nonblank_lines && !cur_line_empty)) ==> {
                &&& final(self).line_counter == old(self).line_counter
                &&& final(out)@ == old(out)@
            },
    {
        if self.number_lines || (self.number_nonblank_lines && !cur_line_empty) {
            push_right_aligned(out, self.line_counter, NUMBER_WIDTH);
            out.push(TAB);
            self.line_counter += 1;
        }
    }

    /// Handles one line: returns what is put out for it and moves the state on.
    pub fn cat_line(&mut self, line: &[u8]) -> (out: Vec<u8>)
        requires
            old(self).line_counter < u128::MAX,
        ensures
            out@ == old(self).line_output(line@),
            *final(self) == old(self).after_line(line@),
            final(self).line_counter >= old(self).line_counter,
    {
        let mut out: Vec<u8> = Vec::new();
        let text = chars_of(decode_lossy(line).as_str());
        let cur_line_empty = is_all_whitespace(text.as_slice());
        if self.squeeze && self.prev_line_empty && cur_line_empty {
            return out;
        }
        self.number_line(&mut out, cur_line_empty);
        push_all(&mut out, line);
        self.prev_line_empty = cur_line_empty;
        proof {
            assert(out@ =~= old(self).line_output(line@));
        }
        out
    }

    /// Handles one input from its first line to its last.
    pub fn cat(&mut self, input: &[u8]) -> (out: Vec<u8>)
        requires
            old(self).line_counter + input@.len() < u128::MAX,
        ensures
            out@ == old(self).output(split_lines(input@)),
            *final(self) == old(self).after(split_lines(input@)),
            final(self).line_counter <= old(self).line_counter + input@.len(),
            final(self).line_counter >= old(self).line_counter,
            !old(self).number_lines && !old(self).number_nonblank_lines && !old(self).squeeze
                ==> out@ == input@,
    {
        let mut out: Vec<u8> = Vec::new();
        let mut start: usize = 0;
        assert(input@.skip(0) =~= input@);
        while start < input.len()
            invariant
                start <= input.len(),
                old(self).line_counter + input@.len() < u128::MAX,
                old(self).line_counter <= self.line_counter <= old(self).line_counter + start,
                old(self).output(split_lines(input@)) == out@ + self.output(
                    split_lines(input@.skip(start as int)),
                ),
                old(self).after(split_lines(input@)) == self.after(
                    split_lines(input@.skip(start as int)),
                ),
            decreases input.len() - start,
        {
            let end = line_end(input, start);
            let line = vstd::slice::slice_subrange(input, start, end);
            proof {
                let rest = input@.skip(start as int);
                lemma_split_lines_step(rest);
                let n = first_line_len(rest);
                assert(rest.take(n) =~= line@);
                assert(rest.skip(n) =~= input@.skip(end as int));
            }
            let ghost before = *self;
            let ghost out_before = out@;
            let piece = self.cat_line(line);
            push_all(&mut out, piece.as_slice());
            proof {
                let rest_lines = split_lines(input@.skip(start as int));
                assert(before.output(rest_lines) == before.line_output(line@) + self.output(
                    split_lines(input@.skip(end as int)),
                ));
                assert(out@ + self.output(split_lines(input@.skip(end as int))) =~= out_before
                    + before.output(rest_lines));
            }
            start = end;
        }
        proof {
            assert(self.output(split_lines(input@.skip(start as int))) =~= Seq::<u8>::empty());
            assert(out@ + Seq::<u8>::empty() =~= out@);
            if !old(self).number_lines && !old(self).number_nonblank_lines && !old(self).squeeze {
                old(self).lemma_plain_copy(input@);
            }
        }
        out
    }

    /// Handles one input with a state of its own.
    pub fn run(args: &Args, input: &[u8]) -> (out: Vec<u8>)
        ensures
            out@ == (Cat {
                number_lines: args.number_lines,
                number_nonblank_lines: args.number_nonblank_lines,
                squeeze: args.squeeze,
                line_counter: 1,
                prev_line_empty: false,
            }).output(split_lines(input@)),
    {
        let mut cat = Cat::new(args);
        assert(input.len() <= usize::MAX);
        cat.cat(input)
    }

    /// With neither numbering nor squeezing, every line is put out as it is.
    pub proof fn lemma_plain_lines(self, lines: Seq<Seq<u8>>)
        requires
            !self.number_lines,
            !self.number_nonblank_lines,
            !self.squeeze,
        ensures
            self.output(lines) == join_lines(lines),
        decreases lines.len(),
    {
        if lines.len() > 0 {
            self.after_line(lines[0]).lemma_plain_lines(lines.drop_first());
        }
    }

    /// With neither numbering nor squeezing, what is put out for an input is
    /// the input, byte for byte, whatever the state.
    pub proof fn lemma_plain_copy(self, input: Seq<u8>)
        requires
            !self.number_lines,
            !self.number_nonblank_lines,
            !self.squeeze,
        ensures
            self.output(split_lines(input)) == input,
    {
        self.lemma_plain_lines(split_lines(input));
        lemma_join_split(input);
    }
}

/// The inputs that could be opened, glued together in order.
pub open spec fn concat_inputs(inputs: Seq<Option<Vec<u8>>>) -> Seq<u8>
    decreases inputs.len(),
{
    if inputs.len() == 0 {
        Seq::empty()
    } else {
        concat_inputs(inputs.drop_last()) + match inputs.last() {
            Some(bytes) => bytes@,
            None => Seq::empty(),
        }
    }
}

/// With neither numbering nor squeezing, what is put out for a list of inputs
/// is their contents glued together in order.
pub proof fn lemma_plain_run(cat: Cat, inputs: Seq<Option<Vec<u8>>>)
    requires
        !cat.number_lines,
        !cat.number_nonblank_lines,
        !cat.squeeze,
    ensures
        cat.inputs_output(inputs) == concat_inputs(inputs),
        !cat.after_inputs(inputs).number_lines,
        !cat.after_inputs(inputs).number_nonblank_lines,
        !cat.after_inputs(inputs).squeeze,
    decreases inputs.len(),
{
    if inputs.len() > 0 {
        lemma_plain_run(cat, inputs.drop_last());
        let before = cat.after_inputs(inputs.drop_last());
        match inputs.last() {
            Some(bytes) => {
                before.at_input_start().lemma_plain_copy(bytes@);
                lemma_after_keeps_options(before.at_input_start(), split_lines(bytes@));
            },
            None => {},
        }
    }
}

/// Lines change the counter and the blank flag, never the options.
pub proof fn lemma_after_keeps_options(cat: Cat, lines: Seq<Seq<u8>>)
    ensures
        cat.after(lines).number_lines == cat.number_lines,
        cat.after(lines).number_nonblank_lines == cat.number_nonblank_lines,
        cat.after(lines).squeeze == cat.squeeze,
    decreases lines.len(),
{
    if lines.len() > 0 {
        lemma_after_keeps_options(cat.after_line(lines[0]), lines.drop_first());
    }
}

/// Concatenates the inputs in order, with one line counter for all of them;
/// blank lines are squeezed within an input, never across two.
/// `inputs[i]` holds the contents of the i-th input, or `None` where it could
/// not be opened: such an input is passed over.
pub fn run(args: &Args, inputs: &[Option<Vec<u8>>]) -> (out: Vec<u8>)
    ensures
        out@ == (Cat {
            number_lines: args.number_lines,
            number_nonblank_lines: args.number_nonblank_lines,
            squeeze: args.squeeze,
            line_counter: 1,
            prev_line_empty: false,
        }).inputs_output(inputs@),
        !args.number_lines && !args.number_nonblank_lines && !args.squeeze ==> out@
            == concat_inputs(inputs@),
{
    let mut cat = Cat::new(args);
    let ghost first = cat;
    proof {
        if !args.number_lines && !args.number_nonblank_lines && !args.squeeze {
            lemma_plain_run(first, inputs@);
        }
    }
    let mut out: Vec<u8> = Vec::new();
    let mut i: usize = 0;
    while i < inputs.len()
        invariant
            i <= inputs.len(),
            cat.line_counter <= 1 + i * usize::MAX,
            cat == first.after_inputs(inputs@.take(i as int)),
            out@ == first.inputs_output(inputs@.take(i as int)),
        decreases inputs.len() - i,
    {
        proof {
            assert(inputs@.take(i + 1).drop_last() =~= inputs@.take(i as int));
            lemma_counter_fits(i as nat, inputs.len() as nat, usize::MAX as nat);
        }
        match &inputs[i] {
            Some(bytes) => {
                assert(bytes.len() <= usize::MAX);
                cat.begin_input();
                let piece = cat.cat(bytes.as_slice());
                push_all(&mut out, piece.as_slice());
            },
            None => {},
        }
        i += 1;
    }
    assert(inputs@.take(i as int) =~= inputs@);
    out
}

} // verus!
