use bundle_builder::stats::PickStatistics;
use std::cmp::Ordering;

#[test]
fn summary_of_nothing() {
    let s = PickStatistics::default();
    assert_eq!(
        s.make_string(),
        "=============== Summary ===============\n    extra file conflicts: 0\n    files ignored:        0\n    files replaced:       0\n    diffs applied/found:  0/0\n    =============================\n    extra files:          0\n    total files:          0\n\n======================================="
    );
}

#[test]
fn summary_with_counts_and_sources() {
    let mut s = PickStatistics::default();
    s.count_ignored();
    s.count_ignored();
    s.count_conflict();
    s.count_patches_found(12);
    s.count_patch_applied();
    s.set_added("texlive", 3);
    s.set_added("a-source-with-a-long-name", 40);
    s.set_added("é", 5);
    assert_eq!(
        s.make_string(),
        "=============== Summary ===============\n    extra file conflicts: 1\n    files ignored:        2\n    files replaced:       0\n    diffs applied/found:  1/12\n    =============================\n    extra files:          0\n    texlive files:        3\n    a-source-with-a-long-name files: 40\n    é files:             5\n    total files:          48\n\n======================================="
    );
}

#[test]
fn set_added_replaces_an_earlier_count() {
    let mut s = PickStatistics::default();
    assert_eq!(s.added("a"), None);
    s.set_added("a", 1);
    s.set_added("b", 2);
    s.set_added("a", 10);
    assert_eq!(s.added("a"), Some(10));
    assert_eq!(s.added("b"), Some(2));
    assert_eq!(s.added("c"), None);
    assert!(s.make_string().contains("    a files:              10\n    b files:              2\n    total files:          12\n"));
}

#[test]
fn total_does_not_overflow() {
    let mut s = PickStatistics::default();
    s.set_added("a", usize::MAX);
    s.set_added("b", usize::MAX);
    let want = (usize::MAX as u128) * 2;
    assert!(s.make_string().contains(&format!("    total files:          {want}\n")));
}

#[test]
fn counters_count() {
    let mut s = PickStatistics::default();
    assert_eq!(
        (s.extra(), s.extra_conflict(), s.ignored(), s.replaced(), s.patch_applied(), s.patch_found()),
        (0, 0, 0, 0, 0, 0)
    );
    s.count_ignored();
    s.count_conflict();
    s.count_conflict();
    s.count_patch_applied();
    s.count_patches_found(3);
    s.count_patches_found(0);
    assert_eq!(
        (s.extra(), s.extra_conflict(), s.ignored(), s.replaced(), s.patch_applied(), s.patch_found()),
        (0, 2, 1, 0, 1, 3)
    );
}

#[test]
fn counters_stop_at_the_largest_value() {
    let mut s = PickStatistics::default();
    s.count_patches_found(usize::MAX - 1);
    s.count_patches_found(5);
    assert_eq!(s.patch_found(), usize::MAX);
}

#[test]
fn compare_found_with_applied() {
    let mut s = PickStatistics::default();
    assert_eq!(s.compare_patch_found_applied(), Ordering::Equal);
    s.count_patches_found(2);
    assert_eq!(s.compare_patch_found_applied(), Ordering::Greater);
    s.count_patch_applied();
    assert_eq!(s.compare_patch_found_applied(), Ordering::Greater);
    s.count_patch_applied();
    assert_eq!(s.compare_patch_found_applied(), Ordering::Equal);
    s.count_patch_applied();
    assert_eq!(s.compare_patch_found_applied(), Ordering::Less);
}
