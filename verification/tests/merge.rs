use perftree::diff::{counts_differ, Diff};
use perftree::report::Perft;

fn report(total: u128, rows: &[(&str, u128)]) -> Perft {
    let owned: Vec<(String, u128)> = rows.iter().map(|(m, c)| (m.to_string(), *c)).collect();
    Perft::new(total, owned)
}

#[test]
fn merge_is_union_of_move_keys() {
    let a = report(100, &[("a2a3", 80), ("a2a4", 60)]);
    let b = report(90, &[("a2a4", 60), ("b3b4", 65)]);
    let d = Diff::new(&a, &b);
    let rows = d.child_count();
    assert_eq!(rows.len(), 3);
    assert_eq!(rows[0].0, "a2a3");
    assert_eq!(rows[0].1, (Some(80), None));
    assert_eq!(rows[1].0, "a2a4");
    assert_eq!(rows[1].1, (Some(60), Some(60)));
    assert_eq!(rows[2].0, "b3b4");
    assert_eq!(rows[2].1, (None, Some(65)));
    assert_eq!(d.total_count(), (100, 90));
}

#[test]
fn merge_copies_totals_verbatim_even_when_rows_disagree() {
    // totals are never recomputed from the rows
    let a = report(7, &[("e2e4", 20)]);
    let b = report(9000, &[]);
    let d = Diff::new(&a, &b);
    assert_eq!(d.total_count(), (7, 9000));
    assert_eq!(d.child_count().len(), 1);
    assert_eq!(d.child_count()[0].1, (Some(20), None));
}

#[test]
fn merge_with_itself_has_no_disagreeing_row() {
    let a = report(39, &[("e2e3", 19), ("e2e4", 20)]);
    let b = report(39, &[("e2e3", 19), ("e2e4", 20)]);
    let d = Diff::new(&a, &b);
    for (_, (lhs, rhs)) in d.child_count() {
        assert_eq!(lhs, rhs);
    }
    let (lhs, rhs) = d.total_count();
    assert_eq!(lhs, rhs);
    assert!(!d.totals_differ());
}

#[test]
fn merge_of_empty_reports_is_empty() {
    let a = report(0, &[]);
    let b = report(0, &[]);
    let d = Diff::new(&a, &b);
    assert_eq!(d.child_count().len(), 0);
    assert_eq!(d.total_count(), (0, 0));
}

#[test]
fn merge_rows_come_out_sorted_by_move() {
    let a = report(3, &[("h7h8", 1), ("a1a2", 1), ("c3c4", 1)]);
    let b = report(1, &[("b2b3", 1)]);
    let d = Diff::new(&a, &b);
    let moves: Vec<&str> = d.child_count().iter().map(|r| r.0.as_str()).collect();
    assert_eq!(moves, ["a1a2", "b2b3", "c3c4", "h7h8"]);
}

#[test]
fn report_builder_keeps_last_count_of_a_repeated_move() {
    let a = report(5, &[("e2e4", 3), ("e2e4", 5)]);
    assert_eq!(a.child_count().len(), 1);
    assert_eq!(a.child_count()[0], ("e2e4".to_string(), 5));
    assert_eq!(a.total_count(), 5);
}

#[test]
fn mismatched_rows_are_emphasized_and_equal_rows_are_not() {
    let a = report(140, &[("a2a3", 80), ("a2a4", 60)]);
    let b = report(197, &[("a2a3", 72), ("a2a4", 60), ("b3b4", 65)]);
    let d = Diff::new(&a, &b);
    let rows = d.child_count();
    assert_eq!(rows[0].0, "a2a3");
    assert!(counts_differ(&rows[0].1 .0, &rows[0].1 .1));
    assert_eq!(rows[1].0, "a2a4");
    assert!(!counts_differ(&rows[1].1 .0, &rows[1].1 .1));
    assert_eq!(rows[2].0, "b3b4");
    assert!(counts_differ(&rows[2].1 .0, &rows[2].1 .1));
    assert!(d.totals_differ());
}

#[test]
fn column_width_of_a_diff_covers_its_largest_count() {
    let a = report(140, &[("a2a3", 80), ("a2a4", 60)]);
    let b = report(197, &[("a2a3", 72), ("a2a4", 60), ("b3b4", 65)]);
    let d = Diff::new(&a, &b);
    // the widest count is 80: the least power of ten at or above it is 10^2
    assert_eq!(d.min_width(), 2);
    let empty = Diff::new(&report(0, &[]), &report(0, &[]));
    assert_eq!(empty.min_width(), 0);
}
