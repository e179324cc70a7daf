//! The lines of a text.

use crate::text::{find_char, index_of, lemma_index_of};
use vstd::prelude::*;
use vstd::slice::slice_subrange;

verus! {

/// Where the line that begins at `from` ends, its line feed included.
pub open spec fn line_end(s: Seq<char>, from: int) -> int {
    match index_of(s, '\n', from, s.len() as int) {
        Some(i) => i + 1,
        None => s.len() as int,
    }
}

/// A line ends after it begins.
pub proof fn lemma_line_end(s: Seq<char>, from: int)
    requires
        0 <= from < s.len(),
    ensures
        from < line_end(s, from) <= s.len(),
{
    lemma_index_of(s, '\n', from, s.len() as int);
}

/// `line` without the carriage returns and line feeds at its end.
pub open spec fn without_line_break(line: Seq<char>) -> Seq<char>
    decreases line.len(),
{
    if line.len() > 0 && (line.last() == '\r' || line.last() == '\n') {
        without_line_break(line.drop_last())
    } else {
        line
    }
}

/// The line that begins at `from`, without its line break.
pub open spec fn line_at(s: Seq<char>, from: int) -> Seq<char> {
    without_line_break(s.subrange(from, line_end(s, from)))
}

/// Finds the end of the line that begins at `from`.
pub fn find_line_end(text: &[char], from: usize) -> (end: usize)
    requires
        from < text@.len(),
    ensures
        end == line_end(text@, from as int),
        from < end <= text@.len(),
{
    match find_char(text, '\n', from, text.len()) {
        Some(i) => i + 1,
        None => text.len(),
    }
}

/// Drops the carriage returns and line feeds at the end of `line`.
pub fn strip_line_break(line: &[char]) -> (kept: &[char])
    ensures
        kept@ == without_line_break(line@),
        kept@.len() <= line@.len(),
        kept@ == line@.take(kept@.len() as int),
{
    let mut n: usize = line.len();
    assert(line@.take(n as int) =~= line@);
    while n > 0 && (line[n - 1] == '\r' || line[n - 1] == '\n')
        invariant
            n <= line@.len(),
            without_line_break(line@) == without_line_break(line@.take(n as int)),
        decreases n,
    {
        assert(line@.take(n as int).drop_last() =~= line@.take(n - 1));
        n -= 1;
    }
    let kept = slice_subrange(line, 0, n);
    assert(kept@ =~= line@.take(n as int));
    kept
}

/// Reads the line in `from..end`.
pub fn read_line(text: &[char], from: usize, end: usize) -> (line: &[char])
    requires
        from < text@.len(),
        end == line_end(text@, from as int),
        from < end <= text@.len(),
    ensures
        line@ == line_at(text@, from as int),
        from + line@.len() <= end,
        line@ == text@.subrange(from as int, from + line@.len()),
{
    let line = slice_subrange(text, from, end);
    let kept = strip_line_break(line);
    assert(kept@ =~= text@.subrange(from as int, from + kept@.len()));
    kept
}

/// A line without the line feed that ends it and a carriage return before that.
pub open spec fn without_terminator(line: Seq<char>) -> Seq<char> {
    if line.len() > 1 && line.last() == '\n' && line[line.len() - 2] == '\r' {
        line.take(line.len() - 2)
    } else if line.len() > 0 && line.last() == '\n' {
        line.drop_last()
    } else {
        line
    }
}

/// The lines of a text from `from` on, without their terminators.
pub open spec fn text_lines(s: Seq<char>, from: int) -> Seq<Seq<char>>
    decreases s.len() - from,
{
    if from < 0 || from >= s.len() {
        Seq::empty()
    } else {
        proof {
            lemma_line_end(s, from);
        }
        seq![without_terminator(s.subrange(from, line_end(s, from)))] + text_lines(
            s,
            line_end(s, from),
        )
    }
}

/// Splits a text into its lines.
pub fn split_lines<'a>(text: &'a [char]) -> (lines: Vec<&'a [char]>)
    ensures
        lines@.len() == text_lines(text@, 0).len(),
        forall|i: int| 0 <= i < lines@.len() ==> (#[trigger] lines@[i])@ == text_lines(text@, 0)[i],
{
    let mut lines: Vec<&'a [char]> = Vec::new();
    let mut from: usize = 0;
    let ghost whole = text_lines(text@, 0);
    while from < text.len()
        invariant
            from <= text@.len(),
            whole == text_lines(text@, 0),
            whole.len() == lines@.len() + text_lines(text@, from as int).len(),
            forall|i: int| 0 <= i < lines@.len() ==> (#[trigger] lines@[i])@ == whole[i],
            forall|i: int|
                0 <= i < text_lines(text@, from as int).len() ==> whole[lines@.len() + i]
                    == #[trigger] text_lines(text@, from as int)[i],
        decreases text@.len() - from,
    {
        let end = find_line_end(text, from);
        let line = slice_subrange(text, from, end);
        let n: usize = line.len();
        let kept = if n > 1 && line[n - 1] == '\n' && line[n - 2] == '\r' {
            slice_subrange(line, 0, n - 2)
        } else if line[n - 1] == '\n' {
            slice_subrange(line, 0, n - 1)
        } else {
            line
        };
        assert(kept@ =~= without_terminator(line@));
        let ghost here = text_lines(text@, from as int);
        let ghost rest = text_lines(text@, end as int);
        assert(here == seq![kept@] + rest);
        assert(here[0] == kept@);
        assert forall|k: int| 0 <= k < rest.len() implies whole[lines@.len() + 1 + k]
            == #[trigger] rest[k] by {
            assert(here[k + 1] == rest[k]);
        }
        lines.push(kept);
        from = end;
    }
    lines
}

} // verus!
