use diff_html_rs::operations::{DiffOperation, Operation};
use diff_html_rs::HtmlDiff;

fn strings(items: &[&str]) -> Vec<String> {
    items.iter().map(|s| s.to_string()).collect()
}

#[test]
fn wrapping_puts_text_between_markers() {
    let diff = HtmlDiff::new();
    assert_eq!(diff.wrap("ins", &strings(&["New", " "])), "<ins>New </ins>");
    assert_eq!(diff.wrap("del", &strings(&["x"])), "<del>x</del>");
}

#[test]
fn wrapping_leaves_markup_bare() {
    let diff = HtmlDiff::new();
    assert_eq!(diff.wrap("ins", &strings(&["<div>"])), "<div>");
    assert_eq!(diff.wrap("ins", &strings(&["a", "<b>", "c"])), "<ins>a</ins><b><ins>c</ins>");
    assert_eq!(
        diff.wrap("del", &strings(&["<p>", "<i>", "x", " ", "y", "</i>", "</p>", "z"])),
        "<p><i><del>x y</del></i></p><del>z</del>"
    );
    assert_eq!(diff.wrap("ins", &strings(&["<!-- note -->", "t", "<br/>"])), "<!-- note --><ins>t</ins><br/>");
}

#[test]
fn wrapping_nothing_gives_nothing() {
    let diff = HtmlDiff::new();
    assert_eq!(diff.wrap("ins", &[]), "");
}

#[test]
fn wrapping_goes_by_the_marks_it_is_given() {
    let diff = HtmlDiff::new();
    let content = strings(&["a", "b", "c", "d"]);
    assert_eq!(
        diff.wrap_marked("m", &content, &vec![false, true, true, false]),
        "<m>a</m>bc<m>d</m>"
    );
    assert_eq!(diff.wrap_marked("m", &content, &vec![true, true, true, true]), "abcd");
    assert_eq!(diff.wrap_marked("m", &content, &vec![false, false, false, false]), "<m>abcd</m>");
    assert_eq!(
        diff.wrap_marked("m", &content, &vec![true, false, true, false]),
        "a<m>b</m>c<m>d</m>"
    );
    assert_eq!(diff.wrap_marked("m", &[], &Vec::new()), "");
}

#[test]
fn a_run_of_tokens_with_one_mark() {
    let diff = HtmlDiff::new();
    let content = strings(&["a", "b", "c", "d"]);
    let marks = vec![false, false, true, false];
    assert_eq!(diff.consecutive_where(0, &content, &marks, false), strings(&["a", "b"]));
    assert_eq!(diff.consecutive_where(0, &content, &marks, true), Vec::<String>::new());
    assert_eq!(diff.consecutive_where(2, &content, &marks, true), strings(&["c"]));
    assert_eq!(diff.consecutive_where(3, &content, &marks, false), strings(&["d"]));
    assert_eq!(diff.consecutive_where(4, &content, &marks, false), Vec::<String>::new());
    assert_eq!(diff.consecutive_where(9, &content, &marks, false), Vec::<String>::new());
}

#[test]
fn rendering_an_edit_script() {
    let diff = HtmlDiff::new();
    let before = strings(&["x", "a"]);
    let after = strings(&["a", "x"]);
    let operations = diff.calculate_operations(&before, &after);
    assert_eq!(diff.render(&operations, &before, &after), "<ins>a</ins>x<del>a</del>");
}

#[test]
fn rendering_each_kind_of_operation() {
    let diff = HtmlDiff::new();
    let before = strings(&["k", "<b>", "old", "gone"]);
    let after = strings(&["k", "new", "<i>", "more"]);
    let operations = vec![
        DiffOperation {
            action: Operation::Equal,
            start_in_before: 0,
            end_in_before: Some(0),
            start_in_after: 0,
            end_in_after: Some(0),
        },
        DiffOperation {
            action: Operation::Replace,
            start_in_before: 1,
            end_in_before: Some(2),
            start_in_after: 1,
            end_in_after: Some(2),
        },
        DiffOperation {
            action: Operation::Delete,
            start_in_before: 3,
            end_in_before: Some(3),
            start_in_after: 3,
            end_in_after: None,
        },
        DiffOperation {
            action: Operation::Insert,
            start_in_before: 4,
            end_in_before: None,
            start_in_after: 3,
            end_in_after: Some(3),
        },
    ];
    assert_eq!(
        diff.render(&operations, &before, &after),
        "k<b><del>old</del><ins>new</ins><i><del>gone</del><ins>more</ins>"
    );
    assert_eq!(diff.render(&Vec::new(), &before, &after), "");
}
