use raster2d::line_2d::wide_line_events;

#[test]
fn degenerate_wide_line_is_one_pixel() {
    assert_eq!(wide_line_events(5, 5, 5, 5, 3), vec![(5, 5, 0)]);
}

#[test]
fn horizontal_wide_line_has_one_pixel_runs() {
    let events = wide_line_events(0, 0, 3, 0, 4);
    assert_eq!(
        events,
        vec![
            (0, 0, 0),
            (0, -1, 3),
            (1, 0, 0),
            (1, -1, 3),
            (2, 0, 0),
            (2, -1, 3),
            (3, 0, 0),
            (3, -1, 3)
        ]
    );
}

#[test]
fn wider_limit_gives_longer_runs() {
    let events = wide_line_events(0, 0, 2, 0, 7);
    assert_eq!(
        events,
        vec![
            (0, 0, 0),
            (0, -1, 2),
            (0, -2, 4),
            (0, -3, 6),
            (1, 0, 0),
            (1, -1, 2),
            (1, -2, 4),
            (1, -3, 6),
            (2, 0, 0),
            (2, -1, 2),
            (2, -2, 4),
            (2, -3, 6)
        ]
    );
}

#[test]
fn wide_line_spine_reaches_both_ends() {
    for &(x1, y1) in &[(10, 3), (-4, 9), (7, -7), (0, -6), (12, 0)] {
        let events = wide_line_events(0, 0, x1, y1, 20);
        assert_eq!((events[0].0, events[0].1, events[0].2), (0, 0, 0));
        assert!(events.iter().any(|e| (e.0, e.1) == (x1 as i64, y1 as i64)));
    }
}

#[test]
fn wide_line_errors_grow_along_each_run() {
    let events = wide_line_events(0, 0, 9, 4, 30);
    let mut runs = 0;
    for w in events.windows(2) {
        let (a, b) = (w[0], w[1]);
        let same_column = a.0 == b.0 && (a.1 - b.1).abs() == 1;
        if same_column && b.2 != 0 && a.2 < b.2 {
            runs += 1;
        }
    }
    assert!(runs > 0);
    for e in &events {
        assert!(e.2 < 30);
    }
}

#[test]
fn wide_line_errors_are_distances_from_the_line() {
    for &(x1, y1) in &[(10, 0), (9, 4), (-4, 9), (7, -7), (0, -6), (3, 1)] {
        let events = wide_line_events(0, 0, x1, y1, 25);
        for &(x, y, err) in &events {
            let cross = x * y1 as i64 - y * x1 as i64;
            assert_eq!(err.abs(), cross.abs(), "line to ({}, {}) at ({}, {})", x1, y1, x, y);
        }
    }
}

#[test]
fn wide_horizontal_line_of_width_three() {
    // Length 10, width 3: half-width 2, so the limit is 20.
    let events = wide_line_events(0, 0, 10, 0, 20);
    assert!(events.contains(&(4, 0, 0)));
    assert!(events.contains(&(4, -1, 10)));
    assert!(!events.iter().any(|e| e.1 == -2 || e.1 == 1));
}
