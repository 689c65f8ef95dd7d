use diff_html_rs::tokenizer::{classify_token, Mode, Transition};
use diff_html_rs::HtmlDiff;

fn strings(items: &[&str]) -> Vec<String> {
    items.iter().map(|s| s.to_string()).collect()
}

#[test]
fn tokens_of_a_paragraph() {
    let diff = HtmlDiff::new();
    assert_eq!(
        diff.html_to_tokens("<p>Hello World</p>"),
        strings(&["<p>", "Hello", " ", "World", "</p>"])
    );
}

#[test]
fn tokens_of_the_empty_text() {
    let diff = HtmlDiff::new();
    assert_eq!(diff.html_to_tokens(""), Vec::<String>::new());
}

#[test]
fn tokens_keep_runs_of_whitespace_together() {
    let diff = HtmlDiff::new();
    assert_eq!(diff.html_to_tokens("a  \t\nb"), strings(&["a", "  \t\n", "b"]));
}

#[test]
fn tokens_of_entities() {
    let diff = HtmlDiff::new();
    assert_eq!(diff.html_to_tokens("&amp; x"), strings(&["&amp;", " ", "x"]));
    assert_eq!(diff.html_to_tokens("a&lt;b"), strings(&["a", "&lt;", "b"]));
}

#[test]
fn tokens_of_words_with_special_characters() {
    let diff = HtmlDiff::new();
    assert_eq!(diff.html_to_tokens("#tag @you snake_case"), strings(&["#tag", " ", "@you", " ", "snake_case"]));
}

#[test]
fn punctuation_is_a_token_by_itself() {
    let diff = HtmlDiff::new();
    assert_eq!(diff.html_to_tokens("a.b"), strings(&["a", ".", "b"]));
    assert_eq!(diff.html_to_tokens("x, y"), strings(&["x", ",", " ", "y"]));
    assert_eq!(diff.html_to_tokens("!?"), strings(&["!", "?"]));
    assert_eq!(diff.html_to_tokens("(a-b_c)"), strings(&["(", "a", "-", "b_c", ")"]));
    assert_eq!(diff.html_to_tokens(" .x"), strings(&[" ", ".", "x"]));
    assert_eq!(diff.html_to_tokens("a>b;c"), strings(&["a", ">", "b", ";", "c"]));
}

#[test]
fn every_token_is_of_one_kind() {
    let diff = HtmlDiff::new();
    let text = "Hi, <b class=\"x.y\">you</b> &amp; me - 3.14!  (ok)";
    for token in diff.html_to_tokens(text) {
        let first = token.chars().next().unwrap();
        let markup = first == '<' || first == '&';
        let space = token.chars().all(|c| diff.is_whitespace(c));
        let word = token.chars().all(|c| !diff.is_whitespace(c) && diff.is_word_character(c));
        assert!(markup || space || word || token.chars().count() == 1, "{}", token);
    }
}

#[test]
fn an_unclosed_tag_or_entity_is_kept() {
    let diff = HtmlDiff::new();
    assert_eq!(diff.html_to_tokens("a <b c"), strings(&["a", " ", "<b c"]));
    assert_eq!(diff.html_to_tokens("x &amp"), strings(&["x", " ", "&amp"]));
}

#[test]
fn a_tag_holds_everything_up_to_its_close() {
    let diff = HtmlDiff::new();
    assert_eq!(
        diff.html_to_tokens("<a href=\"x y\">t</a>"),
        strings(&["<a href=\"x y\">", "t", "</a>"])
    );
    assert_eq!(diff.html_to_tokens("<!-- a & b -->"), strings(&["<!-- a & b -->"]));
}

#[test]
fn tokens_spell_out_the_text() {
    let diff = HtmlDiff::new();
    let texts = [
        "",
        "<p>Hello World</p>",
        "a.b, c  d&amp;e<unclosed",
        "  leading and trailing  ",
        "Ünïcödé — text\u{2003}with \u{a0} spaces",
        "<<>>&&;;",
    ];
    for text in texts {
        let tokens = diff.html_to_tokens(text);
        assert_eq!(tokens.concat(), text);
        assert!(tokens.iter().all(|token| !token.is_empty()));
    }
}

#[test]
fn whitespace_is_unicode_whitespace() {
    let diff = HtmlDiff::new();
    assert!(diff.is_whitespace(' '));
    assert!(diff.is_whitespace('\n'));
    assert!(diff.is_whitespace('\t'));
    assert!(diff.is_whitespace('\u{a0}'));
    assert!(!diff.is_whitespace('a'));
    assert!(!diff.is_whitespace('<'));
    assert!(!diff.is_whitespace('>'));
    assert!(!diff.is_whitespace(';'));
}

#[test]
fn word_characters() {
    let diff = HtmlDiff::new();
    assert!(diff.is_word_character('a'));
    assert!(diff.is_word_character('Z'));
    assert!(diff.is_word_character('7'));
    assert!(diff.is_word_character('_'));
    assert!(diff.is_word_character('#'));
    assert!(diff.is_word_character('@'));
    assert!(diff.is_word_character('é'));
    assert!(!diff.is_word_character('.'));
    assert!(!diff.is_word_character(' '));
    assert!(!diff.is_word_character('-'));
}

#[test]
fn tags_are_told_from_other_tokens() {
    let diff = HtmlDiff::new();
    assert!(diff.is_tag("<p>"));
    assert!(diff.is_tag("</p>"));
    assert!(diff.is_tag(" <p> "));
    assert!(diff.is_tag("<a href=\"x\">"));
    assert!(diff.is_tag("<!-- open"));
    assert!(diff.is_tag("close -->"));
    assert!(diff.is_tag("<br/>"));
    assert!(diff.is_tag("x/>"));
    assert!(!diff.is_tag("hello"));
    assert!(!diff.is_tag("<>"));
    assert!(!diff.is_tag("<p"));
    assert!(!diff.is_tag("a<p>"));
    assert!(!diff.is_tag(""));
}

#[test]
fn a_token_is_classified_by_its_shape_or_its_marks() {
    assert!(classify_token(true, "anything"));
    assert!(classify_token(false, "<!--"));
    assert!(classify_token(false, "-->"));
    assert!(classify_token(false, "/>"));
    assert!(classify_token(false, "<!-- a -->"));
    assert!(!classify_token(false, "<p>"));
    assert!(!classify_token(false, "<!-"));
    assert!(!classify_token(false, "->"));
    assert!(!classify_token(false, ""));
}

#[test]
fn transitions_inside_a_tag_and_an_entity() {
    assert_eq!(
        Mode::Tag.advance('x', false, true),
        Transition { next: Mode::Tag, flush_before: false, flush_after: false }
    );
    assert_eq!(
        Mode::Tag.advance('>', false, false),
        Transition { next: Mode::Char, flush_before: false, flush_after: true }
    );
    assert_eq!(
        Mode::Tag.advance('>', true, false),
        Transition { next: Mode::Whitespace, flush_before: false, flush_after: true }
    );
    assert_eq!(
        Mode::Entity.advance(';', false, false),
        Transition { next: Mode::Char, flush_before: false, flush_after: true }
    );
    assert_eq!(
        Mode::Entity.advance(';', true, false),
        Transition { next: Mode::Whitespace, flush_before: false, flush_after: true }
    );
    assert_eq!(
        Mode::Entity.advance('<', false, false),
        Transition { next: Mode::Entity, flush_before: false, flush_after: false }
    );
}

#[test]
fn transitions_in_text() {
    assert_eq!(
        Mode::Char.advance('<', false, false),
        Transition { next: Mode::Tag, flush_before: true, flush_after: false }
    );
    assert_eq!(
        Mode::Char.advance('&', false, false),
        Transition { next: Mode::Entity, flush_before: true, flush_after: false }
    );
    assert_eq!(
        Mode::Char.advance(' ', true, false),
        Transition { next: Mode::Whitespace, flush_before: true, flush_after: false }
    );
    assert_eq!(
        Mode::Char.advance('a', false, true),
        Transition { next: Mode::Char, flush_before: false, flush_after: false }
    );
    assert_eq!(
        Mode::Char.advance('.', false, false),
        Transition { next: Mode::Char, flush_before: true, flush_after: true }
    );
    assert_eq!(
        Mode::Whitespace.advance('.', false, false),
        Transition { next: Mode::Char, flush_before: true, flush_after: true }
    );
    assert_eq!(
        Mode::Whitespace.advance('<', false, false),
        Transition { next: Mode::Tag, flush_before: true, flush_after: false }
    );
    assert_eq!(
        Mode::Whitespace.advance('&', false, false),
        Transition { next: Mode::Entity, flush_before: true, flush_after: false }
    );
    assert_eq!(
        Mode::Whitespace.advance(' ', true, false),
        Transition { next: Mode::Whitespace, flush_before: false, flush_after: false }
    );
    assert_eq!(
        Mode::Whitespace.advance('a', false, true),
        Transition { next: Mode::Char, flush_before: true, flush_after: false }
    );
}
