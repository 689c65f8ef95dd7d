use diff_html_rs::restore::split_lines;
use diff_html_rs::{line_content, process_changes, restore_from_diff, HtmlDiff};

fn chars(text: &str) -> Vec<char> {
    text.chars().collect()
}

#[test]
fn test_restore_from_diff() {
    let diff_content = "-A command line tool for generating and applying unified diffs between HTML files. The tool helps visualize and track changes in HTML documents by producing clean, semantic markup that clearly shows additions, deletions, and modifications.
+A command line tool for generating and applying unified diffs changed HTML files. The tool helps visualize and track changes in HTML documents producing clean, semantic markup that clearly shows , deletions, and modifications. adding text and more
+
+
+update 
+
+new lines
";
    let result = restore_from_diff(diff_content);
    println!("{}", result);
}

#[test]
fn a_removed_and_an_added_line_are_compared() {
    let rendered = restore_from_diff("-foo\n+bar\n");
    assert_eq!(rendered, "<del>foo</del><ins>bar</ins>");
    assert_eq!(rendered, HtmlDiff::new().diff("foo", "bar"));
    assert_eq!(rendered.lines().count(), 1);
}

#[test]
fn context_lines_are_written_out() {
    assert_eq!(
        restore_from_diff(" ctx\n-a\n+b\n c2"),
        "ctx\n<del>a</del><ins>b</ins>\nc2"
    );
    assert_eq!(restore_from_diff(" only context"), "only context");
    assert_eq!(restore_from_diff(" <p>kept</p>\n  indented\n"), "<p>kept</p>\n indented");
}

#[test]
fn a_line_without_a_partner_is_compared_with_nothing() {
    assert_eq!(restore_from_diff("-a\n-b\n+c\n"), "<del>a</del><ins>c</ins>\n<del>b</del>");
    assert_eq!(restore_from_diff("+a\n+b\n-c\n"), "<del>c</del><ins>a</ins>\n<ins>b</ins>");
    assert_eq!(restore_from_diff("+only"), "<ins>only</ins>");
}

#[test]
fn markers_in_changed_lines_are_left_out() {
    assert_eq!(
        restore_from_diff("-<del>old</del>\n+<ins>new</ins>\n"),
        "<del>old</del><ins>new</ins>"
    );
    assert_eq!(
        restore_from_diff("-<p>a <del>b</del> c</p>\n+<p>a <ins>d</ins> c</p>"),
        "<p>a <del>b</del><ins>d</ins> c</p>"
    );
    // Only the markers of the line's own kind are taken out.
    assert_eq!(restore_from_diff("-<ins>x</ins>\n+<ins>x</ins>"), "<ins>x</ins>");
    assert_eq!(restore_from_diff("-<ins>x</ins>\n+y"), "<ins><del>x</del></ins><ins>y</ins>");
}

#[test]
fn other_lines_are_left_out() {
    assert_eq!(
        restore_from_diff("--- a/file\n@@ -1 +1 @@\n-foo\n+bar\n\\ No newline"),
        "<del>-- a/file</del><ins>bar</ins>\n<del>foo</del>"
    );
    assert_eq!(restore_from_diff("@@ -1 +1 @@\nheader\n\n"), "");
    assert_eq!(restore_from_diff(""), "");
}

#[test]
fn whitespace_around_the_result_is_taken_off() {
    assert_eq!(restore_from_diff(" \n  a  \n \n"), "a");
    assert_eq!(restore_from_diff("\n\n x\n"), "x");
}

#[test]
fn equal_lines_come_back_as_they_are() {
    assert_eq!(restore_from_diff("-<p>same</p>\n+<p>same</p>\n"), "<p>same</p>");
}

#[test]
fn a_text_is_split_at_its_line_feeds() {
    assert_eq!(split_lines(&chars("a\nb\n")), vec![chars("a"), chars("b"), chars("")]);
    assert_eq!(split_lines(&chars("")), vec![chars("")]);
    assert_eq!(split_lines(&chars("one")), vec![chars("one")]);
    assert_eq!(split_lines(&chars("\n\nx")), vec![chars(""), chars(""), chars("x")]);
    assert_eq!(split_lines(&chars("a\r\nb")), vec![chars("a\r"), chars("b")]);
}

#[test]
fn the_content_of_a_changed_line() {
    assert_eq!(line_content(&chars("-<del>a</del>b"), "<del>", "</del>"), "ab");
    assert_eq!(line_content(&chars("+<ins>a</ins>b"), "<ins>", "</ins>"), "ab");
    assert_eq!(line_content(&chars("-<ins>a</ins>"), "<del>", "</del>"), "<ins>a</ins>");
    assert_eq!(line_content(&chars("-"), "<del>", "</del>"), "");
    assert_eq!(line_content(&chars("-<d<del>el>"), "<del>", "</del>"), "<del>");
}

#[test]
fn pending_changes_are_flushed_in_pairs() {
    let diff = HtmlDiff::new();
    let mut result = String::from("head\n");
    let mut deletions = vec!["a".to_string(), "b".to_string()];
    let mut insertions = vec!["c".to_string()];
    process_changes(&diff, &mut result, &mut deletions, &mut insertions);
    assert_eq!(result, "head\n<del>a</del><ins>c</ins>\n<del>b</del>\n");
    assert!(deletions.is_empty());
    assert!(insertions.is_empty());
    process_changes(&diff, &mut result, &mut deletions, &mut insertions);
    assert_eq!(result, "head\n<del>a</del><ins>c</ins>\n<del>b</del>\n");
}
