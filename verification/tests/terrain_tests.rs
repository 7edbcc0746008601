use envi::terrain::{
    classify_screens, face_segments, primary_run, run_flanks, screen_runs, strip_span,
    ScreenClass, ScreenRun,
};

#[test]
fn screens_are_maximal_runs_of_above_points() {
    let above = vec![false, true, true, false, false, true, false];
    let runs = screen_runs(&above);
    assert_eq!(
        runs,
        vec![
            ScreenRun { first: 1, last: 2 },
            ScreenRun { first: 5, last: 5 }
        ]
    );
    assert!(screen_runs(&vec![false, false, false]).is_empty());
    assert_eq!(
        screen_runs(&vec![true, true]),
        vec![ScreenRun { first: 0, last: 1 }]
    );
    assert!(screen_runs(&Vec::new()).is_empty());
}

#[test]
fn edge_finding_identifies_screen_classes() {
    // Thin screen: one run, one top edge.
    let runs = screen_runs(&vec![false, true, false]);
    assert_eq!(classify_screens(runs.len(), 1), ScreenClass::SingleEdge);
    // Thick screen: one run whose reduced shape keeps two tops.
    let runs = screen_runs(&vec![false, true, true, false]);
    assert_eq!(classify_screens(runs.len(), 2), ScreenClass::ThickScreen);
    // Two separate screens.
    let runs = screen_runs(&vec![false, true, false, true, false]);
    assert_eq!(classify_screens(runs.len(), 1), ScreenClass::DoubleScreen);
}

#[test]
fn primary_screen_contains_the_edge() {
    let runs = vec![ScreenRun { first: 1, last: 2 }, ScreenRun { first: 5, last: 6 }];
    assert_eq!(primary_run(&runs, 6), 1);
    assert_eq!(primary_run(&runs, 1), 0);
    assert_eq!(primary_run(&runs, 4), 0);
}

#[test]
fn flanks_faces_and_strips() {
    assert_eq!(run_flanks(ScreenRun { first: 1, last: 2 }, 4), (0, 3));
    assert_eq!(run_flanks(ScreenRun { first: 0, last: 3 }, 4), (0, 3));
    assert_eq!(face_segments(2, 3), (1, 2));
    assert_eq!(face_segments(0, 3), (0, 0));
    assert_eq!(face_segments(3, 3), (2, 2));
    assert_eq!(strip_span(0, 3, 3), (0, 3));
    assert_eq!(strip_span(0, 5, 3), (0, 3));
    assert_eq!(strip_span(4, 5, 3), (4, 4));
}

#[test]
fn transition_flags_take_the_documented_limits() {
    let f = ScreenClass::Flat.transition_flags();
    assert!(!f.screen && !f.two_screens && !f.thick);
    let s = ScreenClass::SingleEdge.transition_flags();
    assert!(s.screen && !s.two_screens && !s.thick);
    let t = ScreenClass::ThickScreen.transition_flags();
    assert!(t.screen && !t.two_screens && t.thick);
    let d = ScreenClass::DoubleScreen.transition_flags();
    assert!(d.screen && d.two_screens && !d.thick);
}
