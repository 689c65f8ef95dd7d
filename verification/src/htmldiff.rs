use crate::pattern::{
    compile, is_match, regex_source, TAG_PATTERN, WHITESPACE_PATTERN, WORD_PATTERN,
};
use crate::matcher::{blocks, whole_range};
use crate::operations::{edit_script, sound_operation};
use crate::render::{renderable, rendered};
use crate::text::{
    is_delimiter, joined, lemma_texts_push, texts, trim_delimiters, trim_delimiters_of,
};
use crate::tokenizer::{
    classify_token, feed, is_markup, is_space, is_token, is_word, lemma_tokenize_lossless,
    lemma_tokens_are_tokens, scan, tokenize, Mode,
};
use regex::Regex;
use vstd::prelude::*;

verus! {

/// The rendered difference between two token sequences.
pub open spec fn diff_of_tokens(before: Seq<Seq<char>>, after: Seq<Seq<char>>) -> Seq<char> {
    rendered(
        edit_script(
            blocks(before, after, whole_range(before.len(), after.len())),
            before.len() as usize,
            after.len() as usize,
        ),
        before,
        after,
    )
}

/// The rendered difference between two texts: both are freed of the delimiters
/// around them; where they are then equal, the result is that text, else the
/// rendered difference between their tokens.
pub open spec fn diff_text(before: Seq<char>, after: Seq<char>) -> Seq<char> {
    let before = trim_delimiters(before);
    let after = trim_delimiters(after);
    if before == after {
        before
    } else {
        diff_of_tokens(tokenize(before), tokenize(after))
    }
}

/// Identity: the difference between a text and itself is the text, without the
/// one layer of delimiters around it; so it is the text itself where the text
/// does not begin with a delimiter or does not end with one.
pub proof fn lemma_diff_identity(text: Seq<char>)
    ensures
        diff_text(text, text) == trim_delimiters(text),
        text.len() == 0 || !is_delimiter(text.first()) || !is_delimiter(text.last())
            ==> diff_text(text, text) == text,
{
}

/// Compares two versions of a marked-up text and renders the difference, with
/// `<ins>` around what was added and `<del>` around what was removed.
#[derive(Debug)]
pub struct HtmlDiff {
    whitespace_regex: Regex,
    tag_regex: Regex,
    char_regex: Regex,
}

impl HtmlDiff {
    /// Each classifier was compiled from the pattern that its name stands for.
    #[verifier::type_invariant]
    spec fn well_formed(&self) -> bool {
        &&& regex_source(self.whitespace_regex) == Some(WHITESPACE_PATTERN@)
        &&& regex_source(self.tag_regex) == Some(TAG_PATTERN@)
        &&& regex_source(self.char_regex) == Some(WORD_PATTERN@)
    }

    /// Compiles the three classifiers, each from the pattern of its name.
    pub fn new() -> (diff: Self)
        ensures
            diff.whitespace_pattern() == Some(WHITESPACE_PATTERN@),
            diff.tag_pattern() == Some(TAG_PATTERN@),
            diff.word_pattern() == Some(WORD_PATTERN@),
    {
        HtmlDiff {
            whitespace_regex: compile(WHITESPACE_PATTERN),
            tag_regex: compile(TAG_PATTERN),
            char_regex: compile(WORD_PATTERN),
        }
    }

    /// The pattern that the classifier of whitespace was compiled from.
    pub closed spec fn whitespace_pattern(&self) -> Option<Seq<char>> {
        regex_source(self.whitespace_regex)
    }

    /// The pattern that the classifier of tags was compiled from.
    pub closed spec fn tag_pattern(&self) -> Option<Seq<char>> {
        regex_source(self.tag_regex)
    }

    /// The pattern that the classifier of word characters was compiled from.
    pub closed spec fn word_pattern(&self) -> Option<Seq<char>> {
        regex_source(self.char_regex)
    }

    /// Whether `c` is a whitespace character.
    pub fn is_whitespace(&self, c: char) -> (b: bool)
        ensures
            b == is_space(c),
    {
        proof {
            use_type_invariant(self);
        }
        let mut s = String::new();
        s.push(c);
        assert(s@ =~= seq![c]);
        is_match(&self.whitespace_regex, s.as_str())
    }

    /// Whether `c` can stand inside a word.
    pub fn is_word_character(&self, c: char) -> (b: bool)
        ensures
            b == is_word(c),
    {
        proof {
            use_type_invariant(self);
        }
        let mut s = String::new();
        s.push(c);
        assert(s@ =~= seq![c]);
        is_match(&self.char_regex, s.as_str())
    }

    /// Whether `token` is markup, which is rendered outside of `<ins>` and `<del>`.
    pub fn is_tag(&self, token: &str) -> (b: bool)
        ensures
            b == is_markup(token@),
    {
        proof {
            use_type_invariant(self);
        }
        let shaped = is_match(&self.tag_regex, token);
        classify_token(shaped, token)
    }

    /// Splits a text into tags, entities, words, runs of whitespace and single
    /// other characters. The tokens, written one after another, are the text.
    pub fn html_to_tokens(&self, html: &str) -> (words: Vec<String>)
        ensures
            texts(words@) == tokenize(html@),
            joined(texts(words@)) == html@,
            forall|i: int| 0 <= i < words.len() ==> #[trigger] words[i]@.len() > 0,
            forall|i: int| 0 <= i < words.len() ==> is_token(#[trigger] words[i]@),
    {
        broadcast use vstd::string::group_string_axioms;

        let mut mode = Mode::Char;
        let mut current_word = String::new();
        let mut words: Vec<String> = Vec::new();
        assert(texts(words@) =~= scan(html@.take(0)).done);
        for c in it: html.chars()
            invariant
                it.seq() == html@,
                scan(html@.take(it.index())).mode == mode,
                scan(html@.take(it.index())).current == current_word@,
                scan(html@.take(it.index())).done == texts(words@),
        {
            proof {
                let read = html@.take(it.index() + 1);
                assert(read.drop_last() =~= html@.take(it.index()));
                assert(read.last() == c);
                assert(scan(read) == feed(scan(read.drop_last()), c));
            }
            let whitespace = self.is_whitespace(c);
            let word = self.is_word_character(c);
            let t = mode.advance(c, whitespace, word);
            if t.flush_before && !current_word.as_str().is_empty() {
                proof {
                    lemma_texts_push(words@, current_word);
                }
                words.push(current_word);
                current_word = String::new();
            }
            current_word.push(c);
            if t.flush_after {
                proof {
                    lemma_texts_push(words@, current_word);
                }
                words.push(current_word);
                current_word = String::new();
            }
            mode = t.next;
        }
        assert(html@.take(html@.len() as int) =~= html@);
        if !current_word.as_str().is_empty() {
            proof {
                lemma_texts_push(words@, current_word);
            }
            words.push(current_word);
        }
        proof {
            lemma_tokenize_lossless(html@);
            lemma_tokens_are_tokens(html@);
            assert forall|i: int| 0 <= i < words.len() implies (#[trigger] words[i]@).len() > 0
                && is_token(words[i]@) by {
                assert(texts(words@)[i] == words[i]@);
            }
        }
        words
    }

    /// Renders the difference between `before` and `after`, with `<ins>` around
    /// what only `after` holds and `<del>` around what only `before` holds. One
    /// layer of delimiters around either text is left out first: a pair of
    /// backticks, of double quotes or of single quotes. Texts that are then
    /// equal come back as they are.
    pub fn diff(&self, before: &str, after: &str) -> (rendering: String)
        ensures
            rendering@ == diff_text(before@, after@),
            trim_delimiters(before@) == trim_delimiters(after@) ==> rendering@ == trim_delimiters(
                before@,
            ),
    {
        let before = trim_delimiters_of(before);
        let after = trim_delimiters_of(after);
        if before == after {
            return before;
        }
        let before_tokens = self.html_to_tokens(before.as_str());
        let after_tokens = self.html_to_tokens(after.as_str());
        let operations = self.calculate_operations(
            before_tokens.as_slice(),
            after_tokens.as_slice(),
        );
        proof {
            assert forall|k: int| 0 <= k < operations.len() implies renderable(
                #[trigger] operations[k],
                before_tokens@.len() as int,
                after_tokens@.len() as int,
            ) by {
                assert(sound_operation(texts(before_tokens@), texts(after_tokens@), operations[k]));
            }
        }
        self.render(&operations, before_tokens.as_slice(), after_tokens.as_slice())
    }
}

} // verus!
