use split_test::record::DurationRecord;
use split_test::report::{aggregate, ElementKind, ReportInput, ReportTree, SkipNote, SkipReason};

fn s(x: &str) -> String {
    String::from(x)
}

#[test]
fn nested_report_attributes_case_and_suite_files() {
    let mut t = ReportTree::new();
    let suite = t.add(None, ElementKind::Suite, Some(s("/src/x")), 3_000_000);
    t.add(Some(suite), ElementKind::Case, Some(s("/src/y")), 1_000_000);
    t.add(Some(suite), ElementKind::Case, None, 2_000_000);
    let (record, notes) = aggregate(&vec![ReportInput::Parsed(t)]);
    assert!(notes.is_empty());
    assert_eq!(record.get(&s("/src/y")), Some(1_000_000));
    assert_eq!(record.get(&s("/src/x")), Some(2_000_000));
}

#[test]
fn faulty_report_files_are_skipped_with_a_note_each() {
    let mut t = ReportTree::new();
    let suite = t.add(None, ElementKind::Suite, Some(s("/src/a")), 0);
    t.add(Some(suite), ElementKind::Case, None, 1_500_000);
    t.add(Some(suite), ElementKind::Case, None, 500_000);
    let inputs = vec![ReportInput::Parsed(t), ReportInput::Empty, ReportInput::Malformed];
    let (record, notes) = aggregate(&inputs);
    assert_eq!(record.get(&s("/src/a")), Some(2_000_000));
    assert_eq!(
        notes,
        vec![
            SkipNote { index: 1, reason: SkipReason::EmptyFile },
            SkipNote { index: 2, reason: SkipReason::MalformedFile },
        ]
    );
}

#[test]
fn case_file_wins_over_suite_file() {
    let mut t = ReportTree::new();
    let suite = t.add(None, ElementKind::Suite, Some(s("/x")), 0);
    let case = t.add(Some(suite), ElementKind::Case, Some(s("/y")), 7);
    let a = t.attributions();
    assert_eq!(a[suite], Some(s("/x")));
    assert_eq!(a[case], Some(s("/y")));
}

#[test]
fn deeply_nested_case_takes_nearest_file() {
    let mut t = ReportTree::new();
    let outer = t.add(None, ElementKind::Suite, Some(s("/outer")), 0);
    let middle = t.add(Some(outer), ElementKind::Suite, None, 0);
    let inner = t.add(Some(middle), ElementKind::Suite, Some(s("/inner")), 0);
    t.add(Some(middle), ElementKind::Case, None, 4);
    t.add(Some(inner), ElementKind::Case, None, 6);
    let (record, _) = aggregate(&vec![ReportInput::Parsed(t)]);
    assert_eq!(record.get(&s("/outer")), Some(4));
    assert_eq!(record.get(&s("/inner")), Some(6));
}

#[test]
fn unattributed_case_time_is_dropped() {
    let mut t = ReportTree::new();
    let suite = t.add(None, ElementKind::Suite, None, 9);
    t.add(Some(suite), ElementKind::Case, None, 5);
    t.add(None, ElementKind::Case, None, 5);
    let (record, notes) = aggregate(&vec![ReportInput::Parsed(t)]);
    assert!(notes.is_empty());
    assert_eq!(record.get(&s("")), None);
}

#[test]
fn link_to_a_later_element_counts_as_no_parent() {
    let mut t = ReportTree::new();
    t.add(Some(1), ElementKind::Case, None, 5);
    t.add(None, ElementKind::Suite, Some(s("/late")), 0);
    let a = t.attributions();
    assert_eq!(a[0], None);
    let (record, _) = aggregate(&vec![ReportInput::Parsed(t)]);
    assert_eq!(record.get(&s("/late")), None);
}

#[test]
fn suite_time_is_not_counted() {
    let mut t = ReportTree::new();
    let suite = t.add(None, ElementKind::Suite, Some(s("/f")), 100);
    t.add(Some(suite), ElementKind::Case, None, 1);
    let (record, _) = aggregate(&vec![ReportInput::Parsed(t)]);
    assert_eq!(record.get(&s("/f")), Some(1));
}

#[test]
fn root_level_case_is_counted() {
    let mut t = ReportTree::new();
    t.add(None, ElementKind::Case, Some(s("/solo")), 42);
    let (record, _) = aggregate(&vec![ReportInput::Parsed(t)]);
    assert_eq!(record.get(&s("/solo")), Some(42));
}

#[test]
fn times_add_up_across_reports() {
    let mut t1 = ReportTree::new();
    t1.add(None, ElementKind::Case, Some(s("/a")), 10);
    t1.add(None, ElementKind::Case, Some(s("/b")), 1);
    let mut t2 = ReportTree::new();
    let suite = t2.add(None, ElementKind::Suite, Some(s("/a")), 0);
    t2.add(Some(suite), ElementKind::Case, None, 20);
    let (record, _) = aggregate(&vec![ReportInput::Parsed(t1), ReportInput::Empty, ReportInput::Parsed(t2)]);
    assert_eq!(record.get(&s("/a")), Some(30));
    assert_eq!(record.get(&s("/b")), Some(1));
}

#[test]
fn no_reports_give_an_empty_record() {
    let (record, notes) = aggregate(&Vec::new());
    assert!(notes.is_empty());
    assert_eq!(record.get(&s("/a")), None);
}

#[test]
fn record_add_accumulates() {
    let mut r = DurationRecord::new();
    assert_eq!(r.get(&s("/a")), None);
    r.add(s("/a"), 5);
    r.add(s("/b"), 1);
    r.add(s("/a"), 7);
    assert_eq!(r.get(&s("/a")), Some(12));
    assert_eq!(r.get(&s("/b")), Some(1));
    r.add(s("/c"), 0);
    assert_eq!(r.get(&s("/c")), Some(0));
}

fn small_report(file: &str, time: u64) -> ReportInput {
    let mut t = ReportTree::new();
    let suite = t.add(None, ElementKind::Suite, Some(s(file)), 0);
    t.add(Some(suite), ElementKind::Case, None, time);
    t.add(Some(suite), ElementKind::Case, Some(s("/shared")), 1);
    ReportInput::Parsed(t)
}

#[test]
fn report_order_does_not_change_the_record() {
    let first = vec![small_report("/a", 3), ReportInput::Malformed, small_report("/b", 4)];
    let second = vec![small_report("/b", 4), small_report("/a", 3), ReportInput::Malformed];
    let (r1, n1) = aggregate(&first);
    let (r2, n2) = aggregate(&second);
    for p in ["/a", "/b", "/shared", "/c"] {
        assert_eq!(r1.get(&s(p)), r2.get(&s(p)));
    }
    assert_eq!(r1.get(&s("/shared")), Some(2));
    assert_eq!(n1, vec![SkipNote { index: 1, reason: SkipReason::MalformedFile }]);
    assert_eq!(n2, vec![SkipNote { index: 2, reason: SkipReason::MalformedFile }]);
}
