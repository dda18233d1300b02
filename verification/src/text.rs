//! Lines of a byte stream: how a buffer is cut into lines and glued back.

use vstd::prelude::*;

verus! {

/// The newline byte that ends a line.
pub const NEWLINE: u8 = 10u8;

/// Index just past the first newline of `s` at or after `i`, or `s.len()` when
/// no newline follows.
pub open spec fn scan_line(s: Seq<u8>, i: int) -> int
    decreases s.len() - i,
{
    if i < 0 || i >= s.len() {
        s.len() as int
    } else if s[i] == NEWLINE {
        i + 1
    } else {
        scan_line(s, i + 1)
    }
}

/// Length of the first line of `s`, its newline included when present.
pub open spec fn first_line_len(s: Seq<u8>) -> int {
    scan_line(s, 0)
}

/// The lines of `s`: each runs up to and including the next newline; a final
/// fragment without newline is a line too. The empty stream has no line.
pub open spec fn split_lines(s: Seq<u8>) -> Seq<Seq<u8>>
    decreases s.len(),
{
    if s.len() == 0 {
        Seq::empty()
    } else {
        let n = first_line_len(s);
        if 0 < n <= s.len() {
            seq![s.take(n)] + split_lines(s.skip(n))
        } else {
            Seq::empty()
        }
    }
}

/// The lines glued together in order.
pub open spec fn join_lines(lines: Seq<Seq<u8>>) -> Seq<u8>
    decreases lines.len(),
{
    if lines.len() == 0 {
        Seq::empty()
    } else {
        lines[0] + join_lines(lines.drop_first())
    }
}

/// Whether `line` ends with the newline byte.
pub open spec fn ends_with_newline(line: Seq<u8>) -> bool {
    line.len() > 0 && line.last() == NEWLINE
}

/// A line as a stream yields it: not empty, and no newline before its last byte.
pub open spec fn is_line(line: Seq<u8>) -> bool {
    &&& line.len() > 0
    &&& forall|i: int| 0 <= i < line.len() - 1 ==> line[i] != NEWLINE
}

/// The lines of one stream: each is a line, and all but the last are terminated.
pub open spec fn is_line_sequence(lines: Seq<Seq<u8>>) -> bool {
    &&& forall|i: int| 0 <= i < lines.len() ==> is_line(#[trigger] lines[i])
    &&& forall|i: int| 0 <= i < lines.len() - 1 ==> ends_with_newline(#[trigger] lines[i])
}

/// Number of newline bytes in `s`.
pub open spec fn count_newlines(s: Seq<u8>) -> nat
    decreases s.len(),
{
    if s.len() == 0 {
        0
    } else {
        count_newlines(s.drop_last()) + if s.last() == NEWLINE { 1nat } else { 0nat }
    }
}

/// Where the scan from `i` stops, and that no newline lies before the stop.
pub proof fn lemma_scan_line(s: Seq<u8>, i: int)
    requires
        0 <= i < s.len(),
    ensures
        i < scan_line(s, i) <= s.len(),
        forall|j: int| i <= j < scan_line(s, i) - 1 ==> s[j] != NEWLINE,
        s[scan_line(s, i) - 1] == NEWLINE || scan_line(s, i) == s.len(),
    decreases s.len() - i,
{
    if s[i] != NEWLINE {
        if i + 1 < s.len() {
            lemma_scan_line(s, i + 1);
        } else {
            assert(scan_line(s, i + 1) == s.len());
        }
    }
}

/// A scan of a suffix is the scan of the whole, shifted.
pub proof fn lemma_scan_line_skip(s: Seq<u8>, k: int, i: int)
    requires
        0 <= k <= s.len(),
        0 <= i,
    ensures
        scan_line(s.skip(k), i) + k == scan_line(s, i + k),
    decreases s.len() - k - i,
{
    if i < s.len() - k {
        assert(s.skip(k)[i] == s[i + k]);
        if s[i + k] != NEWLINE {
            lemma_scan_line_skip(s, k, i + 1);
        }
    }
}

/// The first line of a non-empty stream, and the lines that follow it.
pub proof fn lemma_split_lines_step(s: Seq<u8>)
    requires
        s.len() > 0,
    ensures
        0 < first_line_len(s) <= s.len(),
        split_lines(s).len() > 0,
        split_lines(s)[0] == s.take(first_line_len(s)),
        split_lines(s).drop_first() == split_lines(s.skip(first_line_len(s))),
        is_line(s.take(first_line_len(s))),
        ends_with_newline(s.take(first_line_len(s))) || first_line_len(s) == s.len(),
{
    lemma_scan_line(s, 0);
    let n = first_line_len(s);
    let rest = split_lines(s.skip(n));
    assert((seq![s.take(n)] + rest).drop_first() =~= rest);
}

/// Cutting a stream into lines and gluing them gives the stream back.
pub proof fn lemma_join_split(s: Seq<u8>)
    ensures
        join_lines(split_lines(s)) == s,
    decreases s.len(),
{
    if s.len() > 0 {
        lemma_split_lines_step(s);
        let n = first_line_len(s);
        lemma_join_split(s.skip(n));
        assert(s.take(n) + s.skip(n) =~= s);
    } else {
        assert(join_lines(split_lines(s)) =~= s);
    }
}

/// What a stream is cut into is a line sequence.
pub proof fn lemma_split_is_line_sequence(s: Seq<u8>)
    ensures
        is_line_sequence(split_lines(s)),
    decreases s.len(),
{
    if s.len() > 0 {
        lemma_split_lines_step(s);
        let n = first_line_len(s);
        let lines = split_lines(s);
        let rest = split_lines(s.skip(n));
        lemma_split_is_line_sequence(s.skip(n));
        assert forall|i: int| 0 <= i < lines.len() implies is_line(#[trigger] lines[i]) by {
            if i > 0 {
                assert(lines[i] == rest[i - 1]);
            }
        }
        assert forall|i: int| 0 <= i < lines.len() - 1 implies ends_with_newline(
            #[trigger] lines[i],
        ) by {
            if i > 0 {
                assert(lines[i] == rest[i - 1]);
            } else {
                assert(rest.len() > 0);
                assert(n < s.len()) by {
                    if n == s.len() {
                        assert(s.skip(n).len() == 0);
                    }
                }
            }
        }
    }
}

/// Gluing a line sequence and cutting the result gives the lines back.
pub proof fn lemma_split_join(lines: Seq<Seq<u8>>)
    requires
        is_line_sequence(lines),
    ensures
        split_lines(join_lines(lines)) == lines,
    decreases lines.len(),
{
    if lines.len() == 0 {
        assert(split_lines(join_lines(lines)) =~= lines);
    } else {
        let head = lines[0];
        let tail = lines.drop_first();
        let s = join_lines(lines);
        assert(is_line(head));
        assert forall|i: int| 0 <= i < tail.len() implies is_line(#[trigger] tail[i]) by {
            assert(tail[i] == lines[i + 1]);
        }
        assert forall|i: int| 0 <= i < tail.len() - 1 implies ends_with_newline(
            #[trigger] tail[i],
        ) by {
            assert(tail[i] == lines[i + 1]);
        }
        lemma_split_join(tail);
        assert(s == head + join_lines(tail));
        lemma_first_line_of_concat(head, join_lines(tail));
        if tail.len() == 0 {
            assert(join_lines(tail).len() == 0);
        } else {
            assert(ends_with_newline(lines[0]));
        }
        let n = first_line_len(s);
        assert(n == head.len());
        assert(s.take(n) =~= head);
        assert(s.skip(n) =~= join_lines(tail));
        assert(seq![head] + tail =~= lines);
    }
}

/// The first line of `head + rest` is `head`, where `head` is a line that is
/// terminated or has nothing after it.
pub proof fn lemma_first_line_of_concat(head: Seq<u8>, rest: Seq<u8>)
    requires
        is_line(head),
        ends_with_newline(head) || rest.len() == 0,
    ensures
        first_line_len(head + rest) == head.len(),
{
    let s = head + rest;
    lemma_scan_line(s, 0);
    let n = scan_line(s, 0);
    if n < head.len() {
        assert(s[n - 1] == head[n - 1]);
    } else if n > head.len() {
        assert(s[head.len() - 1] == head[head.len() - 1]);
    }
}

/// Newline counts add up over a concatenation.
pub proof fn lemma_count_newlines_concat(a: Seq<u8>, b: Seq<u8>)
    ensures
        count_newlines(a + b) == count_newlines(a) + count_newlines(b),
    decreases b.len(),
{
    if b.len() == 0 {
        assert(a + b =~= a);
    } else {
        lemma_count_newlines_concat(a, b.drop_last());
        assert((a + b).drop_last() =~= a + b.drop_last());
        assert((a + b).last() == b.last());
    }
}

/// A line holds one newline when it is terminated, and none otherwise.
pub proof fn lemma_count_newlines_line(line: Seq<u8>)
    requires
        is_line(line),
    ensures
        count_newlines(line) == if ends_with_newline(line) { 1nat } else { 0nat },
{
    lemma_count_newlines_none(line.drop_last());
}

/// A sequence without newline bytes counts none.
pub proof fn lemma_count_newlines_none(s: Seq<u8>)
    requires
        forall|i: int| 0 <= i < s.len() ==> s[i] != NEWLINE,
    ensures
        count_newlines(s) == 0,
    decreases s.len(),
{
    if s.len() > 0 {
        lemma_count_newlines_none(s.drop_last());
    }
}

/// The number of lines of a stream is its number of newline bytes, plus one
/// when the stream is not empty and does not end in a newline.
pub proof fn lemma_line_count(s: Seq<u8>)
    ensures
        split_lines(s).len() == count_newlines(s) + if s.len() > 0 && s.last() != NEWLINE {
            1nat
        } else {
            0nat
        },
    decreases s.len(),
{
    if s.len() > 0 {
        lemma_split_lines_step(s);
        let n = first_line_len(s);
        let line = s.take(n);
        let rest = s.skip(n);
        lemma_line_count(rest);
        lemma_count_newlines_line(line);
        lemma_count_newlines_concat(line, rest);
        assert(line + rest =~= s);
        assert(split_lines(s).len() == 1 + split_lines(rest).len());
        if rest.len() > 0 {
            assert(rest.last() == s.last());
        } else {
            assert(line =~= s);
        }
    }
}

/// End of the line of `buf` that starts at `start`.
pub fn line_end(buf: &[u8], start: usize) -> (end: usize)
    requires
        start < buf.len(),
    ensures
        start < end <= buf.len(),
        end == start + first_line_len(buf@.skip(start as int)),
{
    let mut i: usize = start;
    proof {
        lemma_scan_line_skip(buf@, start as int, 0);
        lemma_scan_line(buf@, start as int);
    }
    while i < buf.len() && buf[i] != NEWLINE
        invariant
            start <= i <= buf.len(),
            scan_line(buf@, i as int) == scan_line(buf@, start as int),
        decreases buf.len() - i,
    {
        i += 1;
    }
    if i < buf.len() {
        i + 1
    } else {
        i
    }
}

/// The byte sequences that a vector of lines stands for.
pub open spec fn line_views(lines: Seq<Vec<u8>>) -> Seq<Seq<u8>> {
    Seq::new(lines.len(), |i: int| lines[i]@)
}

/// Cuts `buf` into its lines.
pub fn lines_of(buf: &[u8]) -> (lines: Vec<Vec<u8>>)
    ensures
        line_views(lines@) == split_lines(buf@),
{
    let mut lines: Vec<Vec<u8>> = Vec::new();
    let mut start: usize = 0;
    assert(buf@.skip(0) =~= buf@);
    assert(line_views(lines@) =~= Seq::<Seq<u8>>::empty());
    while start < buf.len()
        invariant
            start <= buf.len(),
            split_lines(buf@) == line_views(lines@) + split_lines(buf@.skip(start as int)),
        decreases buf.len() - start,
    {
        let end = line_end(buf, start);
        let line = vstd::slice::slice_to_vec(vstd::slice::slice_subrange(buf, start, end));
        proof {
            let rest = buf@.skip(start as int);
            lemma_split_lines_step(rest);
            let n = first_line_len(rest);
            assert(rest.take(n) =~= buf@.subrange(start as int, end as int));
            assert(rest.skip(n) =~= buf@.skip(end as int));
            assert(split_lines(rest) =~= seq![line@] + split_lines(buf@.skip(end as int)));
            assert(line_views(lines@).push(line@) + split_lines(buf@.skip(end as int))
                =~= line_views(lines@) + split_lines(rest));
        }
        let ghost before = line_views(lines@);
        lines.push(line);
        proof {
            assert(line_views(lines@) =~= before.push(line@));
        }
        start = end;
    }
    proof {
        assert(split_lines(buf@.skip(start as int)) =~= Seq::<Seq<u8>>::empty());
        assert(line_views(lines@) + Seq::<Seq<u8>>::empty() =~= line_views(lines@));
    }
    lines
}

/// What opening `n` paths gave: a path for which no contents were handed over
/// counts as one that could not be opened, and contents beyond the paths are
/// left aside.
pub open spec fn aligned(inputs: Seq<Option<Vec<u8>>>, n: nat) -> Seq<Option<Vec<u8>>> {
    Seq::new(
        n,
        |i: int|
            if i < inputs.len() {
                inputs[i]
            } else {
                None
            },
    )
}

} // verus!
