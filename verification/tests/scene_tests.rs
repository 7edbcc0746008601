use envi::scene::{check_profile_counts, polyline_edges, CrsInfo, ProfileShapeError};

#[test]
fn local_metric_is_the_default_crs() {
    assert_eq!(CrsInfo::local_metric().label, "local-metric");
    assert_eq!(CrsInfo::default(), CrsInfo::local_metric());
}

#[test]
fn profile_counts_reject_malformed_input_with_typed_errors() {
    assert_eq!(check_profile_counts(0, 0), Err(ProfileShapeError::EmptyProfile));
    assert_eq!(
        check_profile_counts(2, 2),
        Err(ProfileShapeError::SegmentCountMismatch {
            points: 2,
            segments: 2,
            expected: 1
        })
    );
    assert_eq!(check_profile_counts(2, 1), Ok(()));
    assert_eq!(check_profile_counts(1, 0), Ok(()));
}

#[test]
fn barrier_lists_its_screen_edges() {
    let top = vec![[0.0, 0.0, 3.0], [10.0, 0.0, 3.0], [10.0, 5.0, 3.0]];
    let edges = polyline_edges(&top);
    assert_eq!(edges.len(), 2);
    assert_eq!(edges[0], ([0.0, 0.0, 3.0], [10.0, 0.0, 3.0]));
    assert_eq!(edges[1], ([10.0, 0.0, 3.0], [10.0, 5.0, 3.0]));
    // single-vertex degenerate barrier has no edges
    let thin = vec![[0.0, 0.0, 3.0]];
    assert!(polyline_edges(&thin).is_empty());
    let none: Vec<[f64; 3]> = Vec::new();
    assert!(polyline_edges(&none).is_empty());
}
