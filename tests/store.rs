use uncover::{
    __CoversGuard, __covers_get_coverage, __covers_record_coverage, covered_by, covers,
    CoverageStore,
};

#[test]
fn unrecorded_mark_counts_zero() {
    let mut store = CoverageStore::new();
    assert_eq!(__covers_get_coverage(&store, "foo"), 0);
    __covers_record_coverage(&mut store, "bar");
    assert_eq!(__covers_get_coverage(&store, "foo"), 0);
    assert_eq!(__covers_get_coverage(&store, ""), 0);
}

#[test]
fn records_add_up() {
    let mut store = CoverageStore::new();
    __covers_record_coverage(&mut store, "foo");
    let before = __covers_get_coverage(&store, "foo");
    for _ in 0..7 {
        __covers_record_coverage(&mut store, "foo");
    }
    assert_eq!(before, 1);
    assert_eq!(__covers_get_coverage(&store, "foo"), 8);
}

#[test]
fn marks_are_counted_apart() {
    let mut store = CoverageStore::new();
    __covers_record_coverage(&mut store, "a");
    __covers_record_coverage(&mut store, "b");
    __covers_record_coverage(&mut store, "a");
    __covers_record_coverage(&mut store, "ab");
    assert_eq!(__covers_get_coverage(&store, "a"), 2);
    assert_eq!(__covers_get_coverage(&store, "b"), 1);
    assert_eq!(__covers_get_coverage(&store, "ab"), 1);
    assert_eq!(__covers_get_coverage(&store, "ba"), 0);
}

#[test]
fn guard_takes_current_count() {
    let mut store = CoverageStore::new();
    __covers_record_coverage(&mut store, "bar");
    __covers_record_coverage(&mut store, "bar");
    let guard = __CoversGuard::new(&store, "bar");
    assert_eq!(guard.mark_name(), "bar");
    assert!(guard.release(&store, false).is_err());
    __covers_record_coverage(&mut store, "bar");
    assert!(guard.release(&store, false).is_ok());
}

#[test]
fn guard_passes_after_several_hits() {
    let mut store = CoverageStore::new();
    let guard = __CoversGuard::new(&store, "bar");
    __covers_record_coverage(&mut store, "bar");
    __covers_record_coverage(&mut store, "bar");
    __covers_record_coverage(&mut store, "bar");
    assert!(guard.release(&store, false).is_ok());
}

#[test]
fn hit_before_guard_does_not_count() {
    let mut store = CoverageStore::new();
    __covers_record_coverage(&mut store, "bar");
    let guard = __CoversGuard::new(&store, "bar");
    assert!(guard.release(&store, false).is_err());
}

#[test]
fn other_mark_does_not_cover() {
    let mut store = CoverageStore::new();
    let guard = __CoversGuard::new(&store, "bar");
    __covers_record_coverage(&mut store, "baz");
    let err = guard.release(&store, false).unwrap_err();
    assert_eq!(err.mark, "bar");
    assert_eq!(format!("not covered: {:?}", err.mark), "not covered: \"bar\"");
}

#[test]
fn unwinding_suppresses_failure() {
    let mut store = CoverageStore::new();
    let guard = __CoversGuard::new(&store, "bar");
    assert!(guard.release(&store, true).is_ok());
    __covers_record_coverage(&mut store, "bar");
    assert!(guard.release(&store, true).is_ok());
}

#[test]
fn disabled_calls_have_no_effect() {
    let mut store = CoverageStore::new();
    assert!(covers(&store, false, "quux").is_none());
    covered_by(&mut store, false, "quux");
    covered_by(&mut store, false, "quux");
    assert_eq!(__covers_get_coverage(&store, "quux"), 0);
    assert!(covers(&store, true, "quux").is_some());
}

#[test]
fn enabled_calls_record_and_check() {
    let mut store = CoverageStore::new();
    let guard = covers(&store, true, "foo").unwrap();
    covered_by(&mut store, true, "foo");
    assert_eq!(__covers_get_coverage(&store, "foo"), 1);
    assert!(guard.release(&store, false).is_ok());
}

#[test]
fn nested_guards_on_one_mark() {
    let mut store = CoverageStore::new();
    let outer = __CoversGuard::new(&store, "bar");
    __covers_record_coverage(&mut store, "bar");
    let inner = __CoversGuard::new(&store, "bar");
    assert!(inner.release(&store, false).is_err());
    assert!(outer.release(&store, false).is_ok());
}

#[test]
fn guard_then_hit_many_times() {
    let mut store = CoverageStore::new();
    for _ in 0..100 {
        let guard = __CoversGuard::new(&store, "foo");
        __covers_record_coverage(&mut store, "foo");
        assert!(guard.release(&store, false).is_ok());
    }
    assert_eq!(__covers_get_coverage(&store, "foo"), 100);
}
