use vstd::prelude::*;

verus! {

/// `String::push` appends exactly one character to the end of the string.
pub assume_specification[ String::push ](s: &mut String, c: char)
    ensures
        final(s)@ == old(s)@.push(c),
;

/// The characters of `s`, in order.
pub fn chars_of(s: &str) -> (out: Vec<char>)
    ensures
        out@ == s@,
{
    broadcast use vstd::string::group_string_axioms;

    let mut out: Vec<char> = Vec::new();
    for c in it: s.chars()
        invariant
            it.seq() == s@,
            out@ == s@.take(it.index()),
    {
        out.push(c);
    }
    assert(out@ == s@);
    out
}

/// The string holding `chars[from..to]`.
pub fn string_of(chars: &Vec<char>, from: usize, to: usize) -> (out: String)
    requires
        from <= to <= chars.len(),
    ensures
        out@ == chars@.subrange(from as int, to as int),
{
    let mut out = String::new();
    let mut i: usize = from;
    while i < to
        invariant
            from <= i <= to <= chars.len(),
            out@ == chars@.subrange(from as int, i as int),
        decreases to - i,
    {
        out.push(chars[i]);
        i += 1;
    }
    out
}

/// The character sequences that a list of strings stands for.
pub open spec fn texts(strings: Seq<String>) -> Seq<Seq<char>> {
    Seq::new(strings.len(), |i: int| strings[i]@)
}

/// All parts written one after another.
pub open spec fn joined(parts: Seq<Seq<char>>) -> Seq<char>
    decreases parts.len(),
{
    if parts.len() == 0 {
        Seq::empty()
    } else {
        joined(parts.drop_last()) + parts.last()
    }
}

/// Pushing a string onto a list pushes its characters onto the list's texts.
pub proof fn lemma_texts_push(strings: Seq<String>, s: String)
    ensures
        texts(strings.push(s)) == texts(strings).push(s@),
{
    assert(texts(strings.push(s)) =~= texts(strings).push(s@));
}

/// Joining a list that ends in `last` appends `last` to the join of the rest.
pub proof fn lemma_joined_push(parts: Seq<Seq<char>>, last: Seq<char>)
    ensures
        joined(parts.push(last)) == joined(parts) + last,
{
    assert(parts.push(last).drop_last() =~= parts);
}

/// Whether `text` begins with `prefix`.
pub fn starts_with(text: &Vec<char>, prefix: &Vec<char>) -> (b: bool)
    ensures
        b == prefix@.is_prefix_of(text@),
{
    if prefix.len() > text.len() {
        return false;
    }
    let mut i: usize = 0;
    while i < prefix.len()
        invariant
            i <= prefix.len() <= text.len(),
            forall|k: int| 0 <= k < i ==> text@[k] == prefix@[k],
        decreases prefix.len() - i,
    {
        if text[i] != prefix[i] {
            assert(text@.subrange(0, prefix@.len() as int)[i as int] != prefix@[i as int]);
            return false;
        }
        i += 1;
    }
    assert(text@.subrange(0, prefix@.len() as int) =~= prefix@);
    true
}

/// Whether `text` ends with `suffix`.
pub fn ends_with(text: &Vec<char>, suffix: &Vec<char>) -> (b: bool)
    ensures
        b == suffix@.is_suffix_of(text@),
{
    if suffix.len() > text.len() {
        return false;
    }
    let offset: usize = text.len() - suffix.len();
    let mut i: usize = 0;
    while i < suffix.len()
        invariant
            i <= suffix.len() <= text.len(),
            offset == text.len() - suffix.len(),
            forall|k: int| 0 <= k < i ==> text@[offset + k] == suffix@[k],
        decreases suffix.len() - i,
    {
        if text[offset + i] != suffix[i] {
            assert(text@.subrange(offset as int, text@.len() as int)[i as int] != suffix@[i as int]);
            return false;
        }
        i += 1;
    }
    assert(text@.subrange(offset as int, text@.len() as int) =~= suffix@);
    true
}

/// Appends each of `parts`, in order, to `out`.
pub fn append_all(out: &mut String, parts: &[String])
    ensures
        final(out)@ == old(out)@ + joined(texts(parts@)),
{
    let mut i: usize = 0;
    assert(texts(parts@).take(0) =~= Seq::<Seq<char>>::empty());
    assert(out@ + joined(texts(parts@).take(0)) =~= out@);
    while i < parts.len()
        invariant
            i <= parts.len(),
            out@ == old(out)@ + joined(texts(parts@).take(i as int)),
        decreases parts.len() - i,
    {
        proof {
            lemma_joined_push(texts(parts@).take(i as int), parts@[i as int]@);
            assert(texts(parts@).take(i + 1) =~= texts(parts@).take(i as int).push(
                parts@[i as int]@,
            ));
        }
        out.append(parts[i].as_str());
        i += 1;
    }
    assert(texts(parts@).take(parts@.len() as int) =~= texts(parts@));
}

/// `text` without the pair of characters `c` around it: where the text both
/// begins and ends with `c`, in two places, those two characters are taken off;
/// any other text stays as it is.
pub open spec fn strip_pair(text: Seq<char>, c: char) -> Seq<char> {
    if text.len() >= 2 && text.first() == c && text.last() == c {
        text.subrange(1, text.len() - 1)
    } else {
        text
    }
}

/// Whether `c` is one of the characters that may stand around a text as
/// delimiters: the backtick, the double quote and the single quote.
pub open spec fn is_delimiter(c: char) -> bool {
    c == '`' || c == '"' || c == '\''
}

/// `text` without one layer of delimiters around it: a pair of backticks is
/// taken off, from what is left a pair of double quotes, and from that a pair of
/// single quotes, each only where it is there.
pub open spec fn trim_delimiters(text: Seq<char>) -> Seq<char> {
    strip_pair(strip_pair(strip_pair(text, '`'), '"'), '\'')
}

/// Narrows the part `from..to` of `chars` by one character at either end where
/// it both begins and ends with `c`.
pub fn strip_pair_in(chars: &Vec<char>, from: usize, to: usize, c: char) -> (part: (usize, usize))
    requires
        from <= to <= chars.len(),
    ensures
        from <= part.0 <= part.1 <= to,
        chars@.subrange(part.0 as int, part.1 as int) == strip_pair(
            chars@.subrange(from as int, to as int),
            c,
        ),
{
    if to - from >= 2 && chars[from] == c && chars[to - 1] == c {
        assert(chars@.subrange(from as int, to as int).subrange(1, to - from - 1)
            =~= chars@.subrange(from + 1, to - 1));
        (from + 1, to - 1)
    } else {
        (from, to)
    }
}

/// The text without one layer of delimiters around it.
pub fn trim_delimiters_of(text: &str) -> (trimmed: String)
    ensures
        trimmed@ == trim_delimiters(text@),
{
    let chars = chars_of(text);
    assert(chars@.subrange(0, chars@.len() as int) =~= chars@);
    let (lo, hi) = strip_pair_in(&chars, 0, chars.len(), '`');
    let (lo, hi) = strip_pair_in(&chars, lo, hi, '"');
    let (lo, hi) = strip_pair_in(&chars, lo, hi, '\'');
    string_of(&chars, lo, hi)
}

/// Whether `c` has the Unicode property White_Space, as `char::is_whitespace`
/// reports it.
pub uninterp spec fn is_unicode_whitespace(c: char) -> bool;

/// `char::is_whitespace`: the answer depends on the character alone.
#[verifier::external_body]
pub(crate) fn is_whitespace_char(c: char) -> (b: bool)
    ensures
        b == is_unicode_whitespace(c),
{
    c.is_whitespace()
}

/// For each character, whether it is whitespace.
pub open spec fn spaces_of(text: Seq<char>) -> Seq<bool> {
    Seq::new(text.len(), |i: int| is_unicode_whitespace(text[i]))
}

/// Where what is left of a text begins once the flagged characters in front
/// are taken off.
pub open spec fn kept_from(flags: Seq<bool>, from: int) -> int
    decreases flags.len() - from,
{
    if 0 <= from < flags.len() && flags[from] {
        kept_from(flags, from + 1)
    } else {
        from
    }
}

/// Where what is left of a text ends once the flagged characters at the back
/// are taken off, down to `from` at most.
pub open spec fn kept_to(flags: Seq<bool>, from: int, to: int) -> int
    decreases to,
{
    if 0 <= from < to <= flags.len() && flags[to - 1] {
        kept_to(flags, from, to - 1)
    } else {
        to
    }
}

/// The text without the flagged characters at either end.
pub open spec fn trim_flagged(text: Seq<char>, flags: Seq<bool>) -> Seq<char> {
    text.subrange(
        kept_from(flags, 0),
        kept_to(flags, kept_from(flags, 0), text.len() as int),
    )
}

/// The text without the whitespace at either end.
pub open spec fn trim_whitespace(text: Seq<char>) -> Seq<char> {
    trim_flagged(text, spaces_of(text))
}

/// The part of a text that is left once the flagged characters at either end
/// are taken off: where it begins, and where it ends.
pub fn trim_by_flags(flags: &Vec<bool>) -> (part: (usize, usize))
    ensures
        part.0 <= part.1 <= flags.len(),
        part.0 == kept_from(flags@, 0),
        part.1 == kept_to(flags@, kept_from(flags@, 0), flags.len() as int),
{
    let mut lo: usize = 0;
    while lo < flags.len() && flags[lo]
        invariant
            lo <= flags.len(),
            kept_from(flags@, lo as int) == kept_from(flags@, 0),
        decreases flags.len() - lo,
    {
        lo += 1;
    }
    let mut hi: usize = flags.len();
    while lo < hi && flags[hi - 1]
        invariant
            lo <= hi <= flags.len(),
            kept_to(flags@, lo as int, hi as int) == kept_to(flags@, lo as int, flags.len() as int),
        decreases hi - lo,
    {
        hi -= 1;
    }
    (lo, hi)
}

/// The text without the whitespace at either end.
pub fn trim_whitespace_of(text: &str) -> (trimmed: String)
    ensures
        trimmed@ == trim_whitespace(text@),
{
    let chars = chars_of(text);
    let mut flags: Vec<bool> = Vec::new();
    let mut i: usize = 0;
    while i < chars.len()
        invariant
            i <= chars.len(),
            flags.len() == i,
            forall|k: int| 0 <= k < i ==> flags@[k] == is_unicode_whitespace(#[trigger] chars@[k]),
        decreases chars.len() - i,
    {
        flags.push(is_whitespace_char(chars[i]));
        i += 1;
    }
    assert(flags@ =~= spaces_of(text@));
    let (lo, hi) = trim_by_flags(&flags);
    string_of(&chars, lo, hi)
}

/// `text` without the occurrences of `pattern` that a search from left to
/// right finds, each search going on behind the occurrence found last.
pub open spec fn without(text: Seq<char>, pattern: Seq<char>) -> Seq<char>
    decreases text.len(),
{
    if pattern.len() == 0 || text.len() < pattern.len() {
        text
    } else if pattern.is_prefix_of(text) {
        without(text.skip(pattern.len() as int), pattern)
    } else {
        seq![text.first()] + without(text.drop_first(), pattern)
    }
}

/// Whether `pattern` stands in `text` at position `at`.
pub fn matches_at(text: &Vec<char>, at: usize, pattern: &Vec<char>) -> (b: bool)
    requires
        at <= text.len(),
    ensures
        b == pattern@.is_prefix_of(text@.skip(at as int)),
{
    if pattern.len() > text.len() - at {
        return false;
    }
    let mut i: usize = 0;
    while i < pattern.len()
        invariant
            at <= text.len(),
            i <= pattern.len() <= text.len() - at,
            forall|k: int| 0 <= k < i ==> text@[at + k] == pattern@[k],
        decreases pattern.len() - i,
    {
        if text[at + i] != pattern[i] {
            assert(text@.skip(at as int).subrange(0, pattern@.len() as int)[i as int]
                != pattern@[i as int]);
            return false;
        }
        i += 1;
    }
    assert(text@.skip(at as int).subrange(0, pattern@.len() as int) =~= pattern@);
    true
}

/// What is left of `text` from position `from` on when every occurrence of
/// `pattern` is taken out.
pub fn remove_all(text: &Vec<char>, from: usize, pattern: &Vec<char>) -> (out: Vec<char>)
    requires
        from <= text.len(),
    ensures
        out@ == without(text@.skip(from as int), pattern@),
{
    let mut out: Vec<char> = Vec::new();
    let mut i: usize = from;
    assert(out@ + without(text@.skip(i as int), pattern@) =~= without(
        text@.skip(from as int),
        pattern@,
    ));
    while i < text.len()
        invariant
            from <= i <= text.len(),
            out@ + without(text@.skip(i as int), pattern@) == without(
                text@.skip(from as int),
                pattern@,
            ),
        decreases text.len() - i,
    {
        let ghost rest = text@.skip(i as int);
        if pattern.len() > 0 && matches_at(text, i, pattern) {
            assert(rest.skip(pattern@.len() as int) =~= text@.skip(i + pattern@.len()));
            i += pattern.len();
        } else {
            assert(rest.drop_first() =~= text@.skip(i + 1));
            assert(rest.first() == text@[i as int]);
            assert(without(rest, pattern@) =~= seq![rest.first()] + without(
                rest.drop_first(),
                pattern@,
            ));
            let ghost earlier = out@;
            out.push(text[i]);
            assert(out@ + without(text@.skip(i + 1), pattern@) =~= earlier + (seq![rest.first()]
                + without(rest.drop_first(), pattern@)));
            i += 1;
        }
    }
    assert(text@.skip(text@.len() as int) =~= Seq::<char>::empty());
    assert(out@ + Seq::<char>::empty() =~= out@);
    out
}

} // verus!
