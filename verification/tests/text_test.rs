use diff_html_rs::text::{
    append_all, chars_of, ends_with, matches_at, remove_all, starts_with, string_of,
    strip_pair_in, trim_by_flags, trim_delimiters_of, trim_whitespace_of,
};

fn chars(text: &str) -> Vec<char> {
    text.chars().collect()
}

#[test]
fn a_text_and_its_characters() {
    assert_eq!(chars_of("héllo"), vec!['h', 'é', 'l', 'l', 'o']);
    assert_eq!(chars_of(""), Vec::<char>::new());
    assert_eq!(string_of(&chars("héllo"), 1, 4), "éll");
    assert_eq!(string_of(&chars("héllo"), 0, 5), "héllo");
    assert_eq!(string_of(&chars("héllo"), 2, 2), "");
}

#[test]
fn beginnings_and_endings() {
    assert!(starts_with(&chars("<!-- a"), &chars("<!--")));
    assert!(!starts_with(&chars("<!- a"), &chars("<!--")));
    assert!(!starts_with(&chars("<!"), &chars("<!--")));
    assert!(starts_with(&chars("abc"), &chars("")));
    assert!(ends_with(&chars("a -->"), &chars("-->")));
    assert!(!ends_with(&chars("a ->"), &chars("-->")));
    assert!(!ends_with(&chars(">"), &chars("/>")));
    assert!(ends_with(&chars("abc"), &chars("")));
}

#[test]
fn strings_are_appended_in_order() {
    let mut out = String::from("start:");
    append_all(&mut out, &["a".to_string(), "".to_string(), "bc".to_string()]);
    assert_eq!(out, "start:abc");
    append_all(&mut out, &[]);
    assert_eq!(out, "start:abc");
}

#[test]
fn one_pair_of_a_character_is_taken_off() {
    let text = chars("xxaxbxx");
    assert_eq!(strip_pair_in(&text, 0, 7, 'x'), (1, 6));
    assert_eq!(strip_pair_in(&text, 1, 6, 'x'), (2, 5));
    assert_eq!(strip_pair_in(&text, 0, 7, 'a'), (0, 7));
    assert_eq!(strip_pair_in(&text, 2, 5, 'a'), (2, 5));
    assert_eq!(strip_pair_in(&text, 0, 5, 'x'), (0, 5));
    assert_eq!(strip_pair_in(&text, 2, 7, 'x'), (2, 7));
    assert_eq!(strip_pair_in(&chars("xx"), 0, 2, 'x'), (1, 1));
    assert_eq!(strip_pair_in(&chars("x"), 0, 1, 'x'), (0, 1));
    assert_eq!(strip_pair_in(&chars(""), 0, 0, 'x'), (0, 0));
}

#[test]
fn delimiters_are_trimmed() {
    assert_eq!(trim_delimiters_of("`code`"), "code");
    assert_eq!(trim_delimiters_of("\"quoted\""), "quoted");
    assert_eq!(trim_delimiters_of("'single'"), "single");
    assert_eq!(trim_delimiters_of("```many'"), "```many'");
    assert_eq!(trim_delimiters_of("``twice``"), "`twice`");
    assert_eq!(trim_delimiters_of("''a"), "''a");
    assert_eq!(trim_delimiters_of("'open"), "'open");
    assert_eq!(trim_delimiters_of("close\""), "close\"");
    assert_eq!(trim_delimiters_of("\""), "\"");
    assert_eq!(trim_delimiters_of("`\"'nested'\"`"), "nested");
    assert_eq!(trim_delimiters_of("'\"`other order`\"'"), "\"`other order`\"");
    assert_eq!(trim_delimiters_of("it's \"fine\" inside"), "it's \"fine\" inside");
    assert_eq!(trim_delimiters_of("\"\""), "");
    assert_eq!(trim_delimiters_of(""), "");
}

#[test]
fn flagged_ends_are_trimmed() {
    assert_eq!(trim_by_flags(&vec![true, true, false, true, false, true]), (2, 5));
    assert_eq!(trim_by_flags(&vec![false, false]), (0, 2));
    assert_eq!(trim_by_flags(&vec![true, true, true]), (3, 3));
    assert_eq!(trim_by_flags(&Vec::new()), (0, 0));
}

#[test]
fn whitespace_is_trimmed() {
    assert_eq!(trim_whitespace_of("  a b \n"), "a b");
    assert_eq!(trim_whitespace_of("\u{a0}\t x\u{2003}"), "x");
    assert_eq!(trim_whitespace_of(" \n "), "");
    assert_eq!(trim_whitespace_of("none"), "none");
    assert_eq!(trim_whitespace_of(""), "");
}

#[test]
fn a_pattern_is_found_at_a_position() {
    let text = chars("a<del>b");
    let pattern = chars("<del>");
    assert!(matches_at(&text, 1, &pattern));
    assert!(!matches_at(&text, 0, &pattern));
    assert!(!matches_at(&text, 2, &pattern));
    assert!(!matches_at(&text, 6, &pattern));
    assert!(!matches_at(&text, 7, &pattern));
    assert!(matches_at(&text, 7, &chars("")));
}

#[test]
fn every_occurrence_of_a_pattern_is_removed() {
    let pattern = chars("<del>");
    assert_eq!(remove_all(&chars("<del>a<del><del>b"), 0, &pattern), chars("ab"));
    assert_eq!(remove_all(&chars("-<del>a"), 1, &pattern), chars("a"));
    assert_eq!(remove_all(&chars("<de<del>l>"), 0, &pattern), chars("<del>"));
    assert_eq!(remove_all(&chars("<del"), 0, &pattern), chars("<del"));
    assert_eq!(remove_all(&chars("abc"), 0, &chars("")), chars("abc"));
    assert_eq!(remove_all(&chars("aaa"), 0, &chars("aa")), chars("a"));
    assert_eq!(remove_all(&chars("abc"), 3, &pattern), chars(""));
}
