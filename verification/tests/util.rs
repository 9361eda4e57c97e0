use taletool::util::{duplicate_id_counts, duplicate_id_summary, fnv1a64};

#[test]
fn duplicate_id_counts_returns_only_duplicates_sorted_by_id() {
    assert_eq!(
        duplicate_id_counts(&[7, 2, 7, 2, 9, 2, 1]),
        vec![(2, 3), (7, 2)]
    );
}

#[test]
fn duplicate_id_summary_limits_large_lists() {
    let duplicates = (0..10).map(|id| (id, 2)).collect::<Vec<_>>();
    assert_eq!(
        duplicate_id_summary(&duplicates),
        "0 x2, 1 x2, 2 x2, 3 x2, 4 x2, 5 x2, 6 x2, 7 x2, 2 more"
    );
}

#[test]
fn duplicate_reports_handle_empty_and_negative_ids() {
    assert!(duplicate_id_counts(&[1, 2, 3]).is_empty());
    assert_eq!(duplicate_id_counts(&[-4, -4, i32::MIN, i32::MIN, i32::MIN]), vec![(i32::MIN, 3), (-4, 2)]);
    assert_eq!(duplicate_id_summary(&[(-12, 3)]), "-12 x3");
    assert_eq!(duplicate_id_summary(&[]), "");
}

#[test]
fn fnv1a64_matches_reference_values() {
    assert_eq!(fnv1a64(b""), 0xcbf29ce484222325);
    assert_eq!(fnv1a64(b"a"), 0xaf63dc4c8601ec8c);
    assert_eq!(fnv1a64(b"foobar"), 0x85944171f73967e8);
}
