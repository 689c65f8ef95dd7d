use crate::pattern::{regex_matches, TAG_PATTERN, WHITESPACE_PATTERN, WORD_PATTERN};
use crate::text::{chars_of, ends_with, joined, lemma_joined_push, starts_with};
use vstd::prelude::*;

verus! {

/// What the tokenizer is in the middle of.
#[derive(Clone, Copy, Debug, PartialEq, Eq, Structural)]
pub enum Mode {
    /// Inside a word, or between tokens.
    Char,
    /// Between `<` and the `>` that closes it.
    Tag,
    /// Between `&` and the `;` that closes it.
    Entity,
    /// Inside a run of whitespace.
    Whitespace,
}

/// What one character does to the tokenizer.
#[derive(Clone, Copy, Debug, PartialEq, Eq, Structural)]
pub struct Transition {
    /// The mode after the character.
    pub next: Mode,
    /// The token under construction, if it holds anything, ends before the character.
    pub flush_before: bool,
    /// The token under construction ends with the character.
    pub flush_after: bool,
}

/// The mode after a tag or an entity has been closed by `c`.
pub open spec fn mode_after_close(whitespace: bool) -> Mode {
    if whitespace {
        Mode::Whitespace
    } else {
        Mode::Char
    }
}

/// The tokenizer's transition table: what character `c` does in `mode`, given
/// whether `c` counts as whitespace and whether it counts as a word character.
/// Inside a tag or an entity every character is taken up, and the closing one
/// ends the token. Elsewhere `<` and `&` begin a tag and an entity, whitespace
/// and word characters each gather in runs, and any other character is a token
/// by itself.
pub open spec fn next_transition(mode: Mode, c: char, whitespace: bool, word: bool) -> Transition {
    match mode {
        Mode::Tag => Transition {
            next: if c == '>' {
                mode_after_close(whitespace)
            } else {
                Mode::Tag
            },
            flush_before: false,
            flush_after: c == '>',
        },
        Mode::Entity => Transition {
            next: if c == ';' {
                mode_after_close(whitespace)
            } else {
                Mode::Entity
            },
            flush_before: false,
            flush_after: c == ';',
        },
        Mode::Char => if c == '<' {
            Transition { next: Mode::Tag, flush_before: true, flush_after: false }
        } else if c == '&' {
            Transition { next: Mode::Entity, flush_before: true, flush_after: false }
        } else if whitespace {
            Transition { next: Mode::Whitespace, flush_before: true, flush_after: false }
        } else if word {
            Transition { next: Mode::Char, flush_before: false, flush_after: false }
        } else {
            Transition { next: Mode::Char, flush_before: true, flush_after: true }
        },
        Mode::Whitespace => if c == '<' {
            Transition { next: Mode::Tag, flush_before: true, flush_after: false }
        } else if c == '&' {
            Transition { next: Mode::Entity, flush_before: true, flush_after: false }
        } else if whitespace {
            Transition { next: Mode::Whitespace, flush_before: false, flush_after: false }
        } else if word {
            Transition { next: Mode::Char, flush_before: true, flush_after: false }
        } else {
            Transition { next: Mode::Char, flush_before: true, flush_after: true }
        },
    }
}

impl Mode {
    /// Looks up the transition table for one character whose two classifications
    /// the caller has already obtained.
    pub fn advance(self, c: char, whitespace: bool, word: bool) -> (t: Transition)
        ensures
            t == next_transition(self, c, whitespace, word),
    {
        let after_close = if whitespace {
            Mode::Whitespace
        } else {
            Mode::Char
        };
        match self {
            Mode::Tag => if c == '>' {
                Transition { next: after_close, flush_before: false, flush_after: true }
            } else {
                Transition { next: Mode::Tag, flush_before: false, flush_after: false }
            },
            Mode::Entity => if c == ';' {
                Transition { next: after_close, flush_before: false, flush_after: true }
            } else {
                Transition { next: Mode::Entity, flush_before: false, flush_after: false }
            },
            Mode::Char => if c == '<' {
                Transition { next: Mode::Tag, flush_before: true, flush_after: false }
            } else if c == '&' {
                Transition { next: Mode::Entity, flush_before: true, flush_after: false }
            } else if whitespace {
                Transition { next: Mode::Whitespace, flush_before: true, flush_after: false }
            } else if word {
                Transition { next: Mode::Char, flush_before: false, flush_after: false }
            } else {
                Transition { next: Mode::Char, flush_before: true, flush_after: true }
            },
            Mode::Whitespace => if c == '<' {
                Transition { next: Mode::Tag, flush_before: true, flush_after: false }
            } else if c == '&' {
                Transition { next: Mode::Entity, flush_before: true, flush_after: false }
            } else if whitespace {
                Transition { next: Mode::Whitespace, flush_before: false, flush_after: false }
            } else if word {
                Transition { next: Mode::Char, flush_before: true, flush_after: false }
            } else {
                Transition { next: Mode::Char, flush_before: true, flush_after: true }
            },
        }
    }
}

/// Whether the whitespace pattern matches the one-character text `c`.
pub open spec fn is_space(c: char) -> bool {
    regex_matches(WHITESPACE_PATTERN@, seq![c])
}

/// Whether the word pattern matches the one-character text `c`.
pub open spec fn is_word(c: char) -> bool {
    regex_matches(WORD_PATTERN@, seq![c])
}

/// The tokenizer's state between two characters.
pub struct Scan {
    pub mode: Mode,
    /// The token under construction.
    pub current: Seq<char>,
    /// The tokens already emitted.
    pub done: Seq<Seq<char>>,
}

/// The state after one more character.
pub open spec fn feed(s: Scan, c: char) -> Scan {
    let t = next_transition(s.mode, c, is_space(c), is_word(c));
    let cut = t.flush_before && s.current.len() > 0;
    let done = if cut {
        s.done.push(s.current)
    } else {
        s.done
    };
    let current = if cut {
        seq![c]
    } else {
        s.current.push(c)
    };
    if t.flush_after {
        Scan { mode: t.next, current: Seq::empty(), done: done.push(current) }
    } else {
        Scan { mode: t.next, current, done }
    }
}

/// The state after all of `text`, starting in `Mode::Char` with nothing read.
pub open spec fn scan(text: Seq<char>) -> Scan
    decreases text.len(),
{
    if text.len() == 0 {
        Scan { mode: Mode::Char, current: Seq::empty(), done: Seq::empty() }
    } else {
        feed(scan(text.drop_last()), text.last())
    }
}

/// The tokens of `text`: what the scan emitted, and last the token that was still
/// under construction when the text ended, if it holds anything.
pub open spec fn tokenize(text: Seq<char>) -> Seq<Seq<char>> {
    let s = scan(text);
    if s.current.len() > 0 {
        s.done.push(s.current)
    } else {
        s.done
    }
}

/// Whether a token is rendered as markup: it has the shape of a tag, opens or
/// closes a comment, or closes itself.
pub open spec fn is_markup(token: Seq<char>) -> bool {
    regex_matches(TAG_PATTERN@, token) || has_markup_marks(token)
}

/// Whether a token begins with `<!--` or ends with `-->` or `/>`.
pub open spec fn has_markup_marks(token: Seq<char>) -> bool {
    "<!--"@.is_prefix_of(token) || "-->"@.is_suffix_of(token) || "/>"@.is_suffix_of(token)
}

/// Decides whether a token is markup, given whether the tag pattern matched it.
pub fn classify_token(shaped: bool, token: &str) -> (b: bool)
    ensures
        b == (shaped || has_markup_marks(token@)),
{
    if shaped {
        return true;
    }
    let chars = chars_of(token);
    let comment_open = chars_of("<!--");
    let comment_close = chars_of("-->");
    let self_close = chars_of("/>");
    starts_with(&chars, &comment_open) || ends_with(&chars, &comment_close) || ends_with(
        &chars,
        &self_close,
    )
}

/// At every point of a scan, the emitted tokens followed by the token under
/// construction spell out exactly what has been read, and no emitted token is empty.
pub proof fn lemma_scan_lossless(text: Seq<char>)
    ensures
        joined(scan(text).done) + scan(text).current == text,
        forall|i: int| 0 <= i < scan(text).done.len() ==> #[trigger] scan(text).done[i].len() > 0,
    decreases text.len(),
{
    if text.len() > 0 {
        let before = scan(text.drop_last());
        let c = text.last();
        lemma_scan_lossless(text.drop_last());
        let t = next_transition(before.mode, c, is_space(c), is_word(c));
        let cut = t.flush_before && before.current.len() > 0;
        let done = if cut {
            before.done.push(before.current)
        } else {
            before.done
        };
        let current = if cut {
            seq![c]
        } else {
            before.current.push(c)
        };
        if cut {
            lemma_joined_push(before.done, before.current);
        }
        assert(joined(done) + current =~= text.drop_last().push(c));
        assert(text.drop_last().push(c) =~= text);
        if t.flush_after {
            lemma_joined_push(done, current);
            assert(joined(done.push(current)) + Seq::<char>::empty() =~= joined(done) + current);
        }
    } else {
        assert(joined(scan(text).done) + scan(text).current =~= text);
    }
}

/// Tokenization is lossless: the tokens of a text, written one after another,
/// are the text. No token is empty.
pub proof fn lemma_tokenize_lossless(text: Seq<char>)
    ensures
        joined(tokenize(text)) == text,
        forall|i: int| 0 <= i < tokenize(text).len() ==> #[trigger] tokenize(text)[i].len() > 0,
{
    lemma_scan_lossless(text);
    let s = scan(text);
    if s.current.len() > 0 {
        lemma_joined_push(s.done, s.current);
    } else {
        assert(joined(s.done) + s.current =~= joined(s.done));
    }
}

/// Whether `c` opens neither a tag nor an entity.
pub open spec fn is_text_char(c: char) -> bool {
    c != '<' && c != '&'
}

/// A tag: it begins with `<`, and `>` stands nowhere in it but at its end.
pub open spec fn is_tag_token(token: Seq<char>) -> bool {
    &&& token.len() > 0
    &&& token[0] == '<'
    &&& forall|i: int| 0 <= i < token.len() - 1 ==> #[trigger] token[i] != '>'
}

/// An entity: it begins with `&`, and `;` stands nowhere in it but at its end.
pub open spec fn is_entity_token(token: Seq<char>) -> bool {
    &&& token.len() > 0
    &&& token[0] == '&'
    &&& forall|i: int| 0 <= i < token.len() - 1 ==> #[trigger] token[i] != ';'
}

/// A run of whitespace.
pub open spec fn is_whitespace_token(token: Seq<char>) -> bool {
    &&& token.len() > 0
    &&& forall|i: int|
        0 <= i < token.len() ==> is_text_char(#[trigger] token[i]) && is_space(token[i])
}

/// A word: a run of word characters, none of them whitespace.
pub open spec fn is_word_token(token: Seq<char>) -> bool {
    &&& token.len() > 0
    &&& forall|i: int|
        0 <= i < token.len() ==> is_text_char(#[trigger] token[i]) && !is_space(token[i])
            && is_word(token[i])
}

/// A single character that is neither whitespace nor a word character.
pub open spec fn is_punctuation_token(token: Seq<char>) -> bool {
    &&& token.len() == 1
    &&& is_text_char(token[0])
    &&& !is_space(token[0])
    &&& !is_word(token[0])
}

/// One of the five kinds of token.
pub open spec fn is_token(token: Seq<char>) -> bool {
    ||| is_tag_token(token)
    ||| is_entity_token(token)
    ||| is_whitespace_token(token)
    ||| is_word_token(token)
    ||| is_punctuation_token(token)
}

/// What holds of a scan between two characters: what it has emitted are
/// tokens, and what it is gathering is the beginning of a token of the kind
/// that its mode stands for.
spec fn shaped(s: Scan) -> bool {
    &&& forall|i: int| 0 <= i < s.done.len() ==> is_token(#[trigger] s.done[i])
    &&& match s.mode {
        Mode::Tag => s.current.len() > 0 && s.current[0] == '<' && forall|i: int|
            0 <= i < s.current.len() ==> #[trigger] s.current[i] != '>',
        Mode::Entity => s.current.len() > 0 && s.current[0] == '&' && forall|i: int|
            0 <= i < s.current.len() ==> #[trigger] s.current[i] != ';',
        Mode::Char => s.current.len() == 0 || is_word_token(s.current),
        Mode::Whitespace => s.current.len() == 0 || is_whitespace_token(s.current),
    }
}

proof fn lemma_scan_shaped(text: Seq<char>)
    ensures
        shaped(scan(text)),
    decreases text.len(),
{
    if text.len() > 0 {
        let before = scan(text.drop_last());
        let c = text.last();
        lemma_scan_shaped(text.drop_last());
        let t = next_transition(before.mode, c, is_space(c), is_word(c));
        let cut = t.flush_before && before.current.len() > 0;
        let done = if cut {
            before.done.push(before.current)
        } else {
            before.done
        };
        let current = if cut {
            seq![c]
        } else {
            before.current.push(c)
        };
        let after = scan(text);
        assert(after == feed(before, c));
        if cut {
            assert(is_token(before.current));
        }
        assert forall|i: int| 0 <= i < done.len() implies is_token(#[trigger] done[i]) by {
            if i < before.done.len() {
                assert(done[i] == before.done[i]);
            }
        }
        assert forall|i: int| 0 <= i < current.len() implies #[trigger] current[i] == (if !cut
            && i < before.current.len() {
            before.current[i]
        } else {
            c
        }) by {}
        if t.flush_after {
            assert(is_token(current)) by {
                if before.mode == Mode::Tag {
                    assert(is_tag_token(current));
                } else if before.mode == Mode::Entity {
                    assert(is_entity_token(current));
                } else {
                    assert(current.len() == 1);
                    assert(is_punctuation_token(current));
                }
            }
            assert forall|i: int| 0 <= i < after.done.len() implies is_token(
                #[trigger] after.done[i],
            ) by {
                if i < done.len() {
                    assert(after.done[i] == done[i]);
                }
            }
        } else {
            assert(after.current == current);
            assert(after.done == done);
            match after.mode {
                Mode::Tag => {
                    assert(current[0] == '<');
                },
                Mode::Entity => {
                    assert(current[0] == '&');
                },
                Mode::Char => {
                    assert(is_word_token(current));
                },
                Mode::Whitespace => {
                    assert(is_whitespace_token(current));
                },
            }
        }
    }
}

/// Every token is of one of the five kinds: a tag, an entity, a run of
/// whitespace, a word, or a single other character. So a character that is
/// neither whitespace nor a word character shares its token with another
/// character only inside a tag or an entity.
pub proof fn lemma_tokens_are_tokens(text: Seq<char>)
    ensures
        forall|i: int| 0 <= i < tokenize(text).len() ==> is_token(#[trigger] tokenize(text)[i]),
{
    lemma_scan_shaped(text);
    let s = scan(text);
    assert forall|i: int| 0 <= i < tokenize(text).len() implies is_token(
        #[trigger] tokenize(text)[i],
    ) by {
        if i < s.done.len() {
            assert(tokenize(text)[i] == s.done[i]);
        } else {
            assert(tokenize(text)[i] == s.current);
            match s.mode {
                Mode::Tag => {
                    assert(is_tag_token(s.current));
                },
                Mode::Entity => {
                    assert(is_entity_token(s.current));
                },
                Mode::Char => {},
                Mode::Whitespace => {},
            }
        }
    }
}

} // verus!
