//! Renders the difference between two versions of a marked-up text, with
//! `<ins>` around what was added and `<del>` around what was removed, and
//! rebuilds such a rendering from a line-oriented diff.
//!
//! The text is split into tokens (`tokenizer`), the longest runs of tokens that
//! both versions share are found (`matcher`), an edit script is derived from
//! them (`operations`) and written out (`render`). Every function is verified
//! against its contract; what the `regex` crate decides is named in `pattern`.

pub mod htmldiff;
pub mod matcher;
pub mod operations;
pub mod pattern;
pub mod render;
pub mod restore;
pub mod text;
pub mod tokenizer;

pub use htmldiff::HtmlDiff;

use restore::{
    lines_of, paired, paired_upto, restored, restored_lines, restoring, rows, split_lines,
    take_line, without_markers,
};
use text::{chars_of, lemma_texts_push, remove_all, string_of, texts, trim_whitespace_of};
use vstd::prelude::*;

verus! {

/// Compares the pending deletions with the pending insertions, pair by pair,
/// writes each rendered difference and a line feed to `result`, and empties both
/// batches. Where one batch is longer, its further entries are compared with the
/// empty text.
pub fn process_changes(
    diff: &HtmlDiff,
    result: &mut String,
    deletions: &mut Vec<String>,
    insertions: &mut Vec<String>,
)
    ensures
        final(result)@ == old(result)@ + paired(texts(old(deletions)@), texts(old(insertions)@)),
        final(deletions)@.len() == 0,
        final(insertions)@.len() == 0,
{
    let max_len: usize = if deletions.len() > insertions.len() {
        deletions.len()
    } else {
        insertions.len()
    };
    let mut i: usize = 0;
    assert(result@ + Seq::<char>::empty() =~= result@);
    while i < max_len
        invariant
            i <= max_len,
            deletions@ == old(deletions)@,
            insertions@ == old(insertions)@,
            max_len == if old(deletions)@.len() > old(insertions)@.len() {
                old(deletions)@.len()
            } else {
                old(insertions)@.len()
            },
            result@ == old(result)@ + paired_upto(
                texts(old(deletions)@),
                texts(old(insertions)@),
                i as nat,
            ),
        decreases max_len - i,
    {
        let before = if i < deletions.len() {
            deletions[i].clone()
        } else {
            String::new()
        };
        let after = if i < insertions.len() {
            insertions[i].clone()
        } else {
            String::new()
        };
        let ghost earlier = result@;
        let piece = diff.diff(before.as_str(), after.as_str());
        result.append(piece.as_str());
        result.push('\n');
        assert(result@ =~= old(result)@ + paired_upto(
            texts(old(deletions)@),
            texts(old(insertions)@),
            (i + 1) as nat,
        ));
        i += 1;
    }
    deletions.clear();
    insertions.clear();
}

/// The content of a removed or added line: the line from its second character
/// on, without the markers `opening` and `closing`.
pub fn line_content(line: &Vec<char>, opening: &str, closing: &str) -> (content: String)
    requires
        line.len() > 0,
    ensures
        content@ == without_markers(line@.skip(1), opening@, closing@),
{
    let opening_chars = chars_of(opening);
    let closing_chars = chars_of(closing);
    let opened = remove_all(line, 1, &opening_chars);
    assert(opened@.skip(0) =~= opened@);
    let closed = remove_all(&opened, 0, &closing_chars);
    assert(closed@.subrange(0, closed@.len() as int) =~= closed@);
    string_of(&closed, 0, closed.len())
}

/// Rebuilds a marked-up text from a line-oriented diff, in which a line begins
/// with a space where it stayed, with `-` where it was removed and with `+`
/// where it was added. Runs of removed and added lines are compared pair by
/// pair; other lines are left out. The result has no whitespace at either end.
pub fn restore_from_diff(diff_content: &str) -> (result: String)
    ensures
        result@ == restored(diff_content@),
{
    let chars = chars_of(diff_content);
    let lines = split_lines(&chars);
    let mut result = String::new();
    let mut deletions: Vec<String> = Vec::new();
    let mut insertions: Vec<String> = Vec::new();
    let diff = HtmlDiff::new();
    let mut i: usize = 0;
    assert(rows(lines@).take(0) =~= Seq::<Seq<char>>::empty());
    assert(texts(deletions@) =~= Seq::<Seq<char>>::empty());
    assert(texts(insertions@) =~= Seq::<Seq<char>>::empty());
    while i < lines.len()
        invariant
            i <= lines.len(),
            rows(lines@) == lines_of(diff_content@),
            result@ == restoring(rows(lines@).take(i as int)).output,
            texts(deletions@) == restoring(rows(lines@).take(i as int)).deletions,
            texts(insertions@) == restoring(rows(lines@).take(i as int)).insertions,
        decreases lines.len() - i,
    {
        let line = &lines[i];
        proof {
            let read = rows(lines@).take(i + 1);
            assert(read.drop_last() =~= rows(lines@).take(i as int));
            assert(read.last() == line@);
            assert(restoring(read) == take_line(restoring(read.drop_last()), line@));
        }
        if line.len() > 0 && line[0] == ' ' {
            process_changes(&diff, &mut result, &mut deletions, &mut insertions);
            let rest = string_of(line, 1, line.len());
            result.append(rest.as_str());
            result.push('\n');
            assert(line@.subrange(1, line@.len() as int) =~= line@.skip(1));
            assert(texts(deletions@) =~= Seq::<Seq<char>>::empty());
            assert(texts(insertions@) =~= Seq::<Seq<char>>::empty());
        } else if line.len() > 0 && line[0] == '-' {
            let content = line_content(line, "<del>", "</del>");
            proof {
                lemma_texts_push(deletions@, content);
            }
            deletions.push(content);
        } else if line.len() > 0 && line[0] == '+' {
            let content = line_content(line, "<ins>", "</ins>");
            proof {
                lemma_texts_push(insertions@, content);
            }
            insertions.push(content);
        }
        i += 1;
    }
    assert(rows(lines@).take(lines@.len() as int) =~= rows(lines@));
    process_changes(&diff, &mut result, &mut deletions, &mut insertions);
    assert(result@ == restored_lines(diff_content@));
    trim_whitespace_of(result.as_str())
}

} // verus!
