use diff_html_rs::matcher::Match;
use diff_html_rs::operations::{operations_between, DiffOperation, Operation};
use diff_html_rs::HtmlDiff;

fn strings(items: &[&str]) -> Vec<String> {
    items.iter().map(|s| s.to_string()).collect()
}

fn op(
    action: Operation,
    start_in_before: usize,
    end_in_before: Option<usize>,
    start_in_after: usize,
    end_in_after: Option<usize>,
) -> DiffOperation {
    DiffOperation { action, start_in_before, end_in_before, start_in_after, end_in_after }
}

#[test]
fn a_walk_over_one_block_and_the_end() {
    let matches = vec![Match::new(0, 0, 2), Match::new(3, 2, 0)];
    assert_eq!(
        operations_between(&matches, 3, 2),
        vec![
            op(Operation::Equal, 0, Some(1), 0, Some(1)),
            op(Operation::Delete, 2, Some(2), 2, None),
        ]
    );
}

#[test]
fn a_walk_gives_each_kind_of_operation() {
    // before: 0 1 2 3 4 5 6, after: 0 1 2 3 4 5
    let matches = vec![
        Match::new(1, 0, 1),
        Match::new(2, 2, 1),
        Match::new(4, 4, 2),
        Match::new(7, 6, 0),
    ];
    assert_eq!(
        operations_between(&matches, 7, 6),
        vec![
            op(Operation::Delete, 0, Some(0), 0, None),
            op(Operation::Equal, 1, Some(1), 0, Some(0)),
            op(Operation::Insert, 2, None, 1, Some(1)),
            op(Operation::Equal, 2, Some(2), 2, Some(2)),
            op(Operation::Replace, 3, Some(3), 3, Some(3)),
            op(Operation::Equal, 4, Some(5), 4, Some(5)),
            op(Operation::Delete, 6, Some(6), 6, None),
        ]
    );
}

#[test]
fn a_walk_over_nothing_but_the_end() {
    assert_eq!(operations_between(&vec![Match::new(0, 0, 0)], 0, 0), Vec::<DiffOperation>::new());
    assert_eq!(
        operations_between(&vec![Match::new(2, 0, 0)], 2, 0),
        vec![op(Operation::Delete, 0, Some(1), 0, None)]
    );
    assert_eq!(
        operations_between(&vec![Match::new(0, 3, 0)], 0, 3),
        vec![op(Operation::Insert, 0, None, 0, Some(2))]
    );
    assert_eq!(
        operations_between(&vec![Match::new(1, 1, 0)], 1, 1),
        vec![op(Operation::Replace, 0, Some(0), 0, Some(0))]
    );
    assert_eq!(operations_between(&Vec::new(), 4, 4), Vec::<DiffOperation>::new());
}

#[test]
fn operations_for_an_insertion() {
    let diff = HtmlDiff::new();
    let before = strings(&["<p>", "Hello", " ", "World", "</p>"]);
    let after = strings(&["<p>", "Hello", " ", "New", " ", "World", "</p>"]);
    assert_eq!(
        diff.calculate_operations(&before, &after),
        vec![
            op(Operation::Equal, 0, Some(2), 0, Some(2)),
            op(Operation::Insert, 3, None, 3, Some(4)),
            op(Operation::Equal, 3, Some(4), 5, Some(6)),
        ]
    );
}

#[test]
fn operations_for_swapped_tokens() {
    let diff = HtmlDiff::new();
    let before = strings(&["x", "a"]);
    let after = strings(&["a", "x"]);
    assert_eq!(
        diff.calculate_operations(&before, &after),
        vec![
            op(Operation::Insert, 0, None, 0, Some(0)),
            op(Operation::Equal, 0, Some(0), 1, Some(1)),
            op(Operation::Delete, 1, Some(1), 2, None),
        ]
    );
}

#[test]
fn operations_for_empty_sequences() {
    let diff = HtmlDiff::new();
    let empty: Vec<String> = Vec::new();
    let some = strings(&["a", "b"]);
    assert_eq!(diff.calculate_operations(&empty, &empty), Vec::<DiffOperation>::new());
    assert_eq!(
        diff.calculate_operations(&empty, &some),
        vec![op(Operation::Insert, 0, None, 0, Some(1))]
    );
    assert_eq!(
        diff.calculate_operations(&some, &empty),
        vec![op(Operation::Delete, 0, Some(1), 0, None)]
    );
}

fn check_coverage(before: &[String], after: &[String]) {
    let diff = HtmlDiff::new();
    let operations = diff.calculate_operations(before, after);
    let mut position_in_before = 0;
    let mut position_in_after = 0;
    for operation in &operations {
        assert_eq!(operation.start_in_before, position_in_before);
        assert_eq!(operation.start_in_after, position_in_after);
        assert_eq!(operation.end_in_before.is_none(), operation.action == Operation::Insert);
        assert_eq!(operation.end_in_after.is_none(), operation.action == Operation::Delete);
        if let Some(end) = operation.end_in_before {
            assert!(end >= operation.start_in_before);
            position_in_before = end + 1;
        }
        if let Some(end) = operation.end_in_after {
            assert!(end >= operation.start_in_after);
            position_in_after = end + 1;
        }
        if operation.action == Operation::Equal {
            let b = &before[operation.start_in_before..=operation.end_in_before.unwrap()];
            let a = &after[operation.start_in_after..=operation.end_in_after.unwrap()];
            assert_eq!(b, a);
        }
    }
    assert_eq!(position_in_before, before.len());
    assert_eq!(position_in_after, after.len());
}

#[test]
fn operations_cover_both_sequences() {
    check_coverage(&strings(&[]), &strings(&[]));
    check_coverage(&strings(&["a"]), &strings(&[]));
    check_coverage(&strings(&[]), &strings(&["a"]));
    check_coverage(&strings(&["a", "b", "c"]), &strings(&["a", "b", "c"]));
    check_coverage(&strings(&["a", "b", "c"]), &strings(&["c", "b", "a"]));
    check_coverage(
        &strings(&["a", "b", "c", "a", "b", "d", "e", "a", "b", "c", "f"]),
        &strings(&["b", "c", "a", "a", "b", "c", "f", "d", "e", "a"]),
    );
    check_coverage(&strings(&["a", "a", "a", "a"]), &strings(&["a", "a"]));
    check_coverage(&strings(&["x", "y"]), &strings(&["p", "q", "r"]));
}
