use tree_playground::tester::{within_limit, Run};

#[test]
fn run_counts_passes_and_failures() {
    let mut run = Run::new();
    assert_eq!((run.test_number(), run.ok(), run.failed()), (0, 0, 0));
    assert!(!run.is_stopped());
    assert!(run.record("1 2 3", "1 2 3", true));
    assert!(!run.record("1 2 3", "1 2 3 ", true));
    assert!(!run.record("", "x", true));
    assert!(run.record("", "", false));
    assert_eq!((run.test_number(), run.ok(), run.failed()), (3, 2, 2));
    assert!(run.is_stopped());
}

#[test]
fn run_that_stopped_judges_no_more() {
    let mut run = Run::new();
    assert!(run.record("a", "a", false));
    assert!(!run.record("a", "a", true));
    assert_eq!((run.test_number(), run.ok(), run.failed()), (0, 1, 0));
}

#[test]
fn run_reaches_the_last_number() {
    let mut run = Run::new();
    for n in 0..=255u8 {
        assert_eq!(run.test_number(), n);
        assert!(!run.is_stopped());
        run.record("é", "é", within_limit(n, u8::MAX));
    }
    assert!(run.is_stopped());
    assert_eq!((run.test_number(), run.ok(), run.failed()), (255, 256, 0));
}

#[test]
fn limit_is_exclusive() {
    assert!(within_limit(0, 1));
    assert!(!within_limit(1, 1));
    assert!(!within_limit(0, 0));
    assert!(within_limit(254, 255));
    assert!(!within_limit(255, 255));
}
