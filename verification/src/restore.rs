use crate::htmldiff::diff_text;
use crate::text::{trim_whitespace, without};
use vstd::prelude::*;

verus! {

/// The lines of a text: the stretches between its line feeds. A text with `n`
/// line feeds has `n + 1` lines, the last of which may be empty.
pub open spec fn lines_of(text: Seq<char>) -> Seq<Seq<char>>
    decreases text.len(),
{
    if text.len() == 0 {
        seq![Seq::empty()]
    } else {
        let earlier = lines_of(text.drop_last());
        if text.last() == '\n' {
            earlier.push(Seq::empty())
        } else {
            earlier.drop_last().push(earlier.last().push(text.last()))
        }
    }
}

/// The character sequences that a list of lines stands for.
pub open spec fn rows(lines: Seq<Vec<char>>) -> Seq<Seq<char>> {
    Seq::new(lines.len(), |i: int| lines[i]@)
}

/// Splits a text at its line feeds.
pub fn split_lines(chars: &Vec<char>) -> (lines: Vec<Vec<char>>)
    ensures
        rows(lines@) == lines_of(chars@),
{
    let mut lines: Vec<Vec<char>> = Vec::new();
    let mut current: Vec<char> = Vec::new();
    let mut i: usize = 0;
    assert(rows(lines@).push(current@) =~= lines_of(chars@.take(0)));
    while i < chars.len()
        invariant
            i <= chars.len(),
            rows(lines@).push(current@) == lines_of(chars@.take(i as int)),
        decreases chars.len() - i,
    {
        let ghost read = chars@.take(i + 1);
        let ghost earlier = rows(lines@).push(current@);
        proof {
            assert(read.drop_last() =~= chars@.take(i as int));
            assert(read.last() == chars@[i as int]);
        }
        if chars[i] == '\n' {
            lines.push(current);
            current = Vec::new();
            assert(rows(lines@).push(current@) =~= earlier.push(Seq::empty()));
        } else {
            let ghost line = current@;
            current.push(chars[i]);
            assert(rows(lines@).push(current@) =~= earlier.drop_last().push(
                earlier.last().push(chars@[i as int]),
            ));
        }
        i += 1;
    }
    assert(chars@.take(chars@.len() as int) =~= chars@);
    let ghost earlier = rows(lines@);
    lines.push(current);
    assert(rows(lines@) =~= earlier.push(current@));
    lines
}

/// `text` without the markers that open and close a wrapper: first every
/// opening marker is taken out, then from what is left every closing marker.
pub open spec fn without_markers(text: Seq<char>, opening: Seq<char>, closing: Seq<char>) -> Seq<
    char,
> {
    without(without(text, opening), closing)
}

/// The entry of a batch at position `i`; the empty text where the batch has
/// none.
pub open spec fn entry(batch: Seq<Seq<char>>, i: int) -> Seq<char> {
    if 0 <= i < batch.len() {
        batch[i]
    } else {
        Seq::empty()
    }
}

/// The rendered differences of the first `n` pairs of the two batches, each
/// followed by a line feed.
pub open spec fn paired_upto(deletions: Seq<Seq<char>>, insertions: Seq<Seq<char>>, n: nat) -> Seq<
    char,
>
    decreases n,
{
    if n == 0 {
        Seq::empty()
    } else {
        paired_upto(deletions, insertions, (n - 1) as nat) + diff_text(
            entry(deletions, n - 1),
            entry(insertions, n - 1),
        ) + seq!['\n']
    }
}

/// What the pending batches give when they are flushed: the deletions and the
/// insertions are paired by position, up to the length of the longer batch, and
/// an entry that has no partner is compared with the empty text.
pub open spec fn paired(deletions: Seq<Seq<char>>, insertions: Seq<Seq<char>>) -> Seq<char> {
    paired_upto(
        deletions,
        insertions,
        if deletions.len() > insertions.len() {
            deletions.len()
        } else {
            insertions.len()
        },
    )
}

/// The state of a restoration between two lines.
pub struct Restoring {
    /// What has been written so far.
    pub output: Seq<char>,
    /// The removed lines that wait for their partners.
    pub deletions: Seq<Seq<char>>,
    /// The added lines that wait for their partners.
    pub insertions: Seq<Seq<char>>,
}

/// The state after one more line. A line that begins with a space flushes the
/// batches and is written out without the space; one that begins with `-` or
/// `+` joins the deletions or the insertions, without that character and
/// without the markers of its wrapper; any other line changes nothing.
pub open spec fn take_line(state: Restoring, line: Seq<char>) -> Restoring {
    if line.len() > 0 && line[0] == ' ' {
        Restoring {
            output: state.output + paired(state.deletions, state.insertions) + line.skip(1)
                + seq!['\n'],
            deletions: Seq::empty(),
            insertions: Seq::empty(),
        }
    } else if line.len() > 0 && line[0] == '-' {
        Restoring {
            output: state.output,
            deletions: state.deletions.push(without_markers(line.skip(1), "<del>"@, "</del>"@)),
            insertions: state.insertions,
        }
    } else if line.len() > 0 && line[0] == '+' {
        Restoring {
            output: state.output,
            deletions: state.deletions,
            insertions: state.insertions.push(without_markers(line.skip(1), "<ins>"@, "</ins>"@)),
        }
    } else {
        state
    }
}

/// The state after the given lines, starting with nothing written and nothing
/// pending.
pub open spec fn restoring(lines: Seq<Seq<char>>) -> Restoring
    decreases lines.len(),
{
    if lines.len() == 0 {
        Restoring { output: Seq::empty(), deletions: Seq::empty(), insertions: Seq::empty() }
    } else {
        take_line(restoring(lines.drop_last()), lines.last())
    }
}

/// What a line-oriented diff restores to, before the whitespace around it is
/// taken off: the state after its lines, with the batches flushed once more.
pub open spec fn restored_lines(diff_content: Seq<char>) -> Seq<char> {
    let end = restoring(lines_of(diff_content));
    end.output + paired(end.deletions, end.insertions)
}

/// What a line-oriented diff restores to.
pub open spec fn restored(diff_content: Seq<char>) -> Seq<char> {
    trim_whitespace(restored_lines(diff_content))
}

} // verus!
