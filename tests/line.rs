use raster2d::common_2d::{PixelLog, PutPixel};
use raster2d::line_2d::plot_line;

fn line(x0: i32, y0: i32, x1: i32, y1: i32) -> Vec<(i32, i32, u8)> {
    let mut log = PixelLog::new();
    plot_line(&mut log, x0, y0, x1, y1);
    log.events
}

fn assert_connected(events: &[(i32, i32, u8)]) {
    for w in events.windows(2) {
        assert!((w[1].0 - w[0].0).abs() <= 1, "gap in x: {:?}", w);
        assert!((w[1].1 - w[0].1).abs() <= 1, "gap in y: {:?}", w);
    }
}

fn assert_near_ideal(events: &[(i32, i32, u8)], x0: i32, y0: i32, x1: i32, y1: i32) {
    let (dx, dy) = ((x1 - x0) as i64, (y1 - y0) as i64);
    let steps = dx.abs().max(dy.abs());
    for &(x, y, _) in events {
        let cross = (x - x0) as i64 * dy - (y - y0) as i64 * dx;
        assert!(2 * cross.abs() <= steps, "({}, {}) too far from the line", x, y);
    }
}

#[test]
fn solid_line_count_and_end_points() {
    let events = line(10, 10, 50, 100);
    assert_eq!(events.len(), 91);
    assert_eq!(events[0], (10, 10, 255));
    assert_eq!(events[events.len() - 1], (50, 100, 255));
    assert_connected(&events);
    assert_near_ideal(&events, 10, 10, 50, 100);
}

#[test]
fn degenerate_line_is_one_pixel() {
    assert_eq!(line(5, 5, 5, 5), vec![(5, 5, 255)]);
}

#[test]
fn diagonal_line_is_not_staircased() {
    assert_eq!(
        line(0, 0, 3, 3),
        vec![(0, 0, 255), (1, 1, 255), (2, 2, 255), (3, 3, 255)]
    );
}

#[test]
fn horizontal_and_vertical_lines() {
    assert_eq!(line(2, 7, 5, 7), vec![(2, 7, 255), (3, 7, 255), (4, 7, 255), (5, 7, 255)]);
    assert_eq!(line(4, 3, 4, 0), vec![(4, 3, 255), (4, 2, 255), (4, 1, 255), (4, 0, 255)]);
}

#[test]
fn line_walks_backwards_from_start_to_end() {
    assert_eq!(
        line(3, 1, 0, 0),
        vec![(3, 1, 255), (2, 1, 255), (1, 0, 255), (0, 0, 255)]
    );
}

#[test]
fn every_line_is_connected_and_near_ideal() {
    let ends = [(0, 0), (7, 2), (-3, 9), (12, -5), (1, 1), (-8, -8), (0, 13)];
    for &(x0, y0) in &ends {
        for &(x1, y1) in &ends {
            let events = line(x0, y0, x1, y1);
            let steps = (x1 - x0).abs().max((y1 - y0).abs()) as usize;
            assert_eq!(events.len(), steps + 1);
            assert_eq!((events[0].0, events[0].1), (x0, y0));
            assert_eq!((events[steps].0, events[steps].1), (x1, y1));
            assert_connected(&events);
            assert_near_ideal(&events, x0, y0, x1, y1);
        }
    }
}

#[test]
fn line_far_from_origin_does_not_overflow() {
    let events = line(i32::MIN, i32::MAX, i32::MIN + 2, i32::MAX - 1);
    assert_eq!(
        events,
        vec![(i32::MIN, i32::MAX, 255), (i32::MIN + 1, i32::MAX - 1, 255), (i32::MIN + 2, i32::MAX - 1, 255)]
    );
}

#[test]
fn pixel_log_records_alpha() {
    let mut log = PixelLog::new();
    log.put_pixel_alpha(1, 2, 77);
    log.put_pixel(3, 4);
    assert_eq!(log.events, vec![(1, 2, 77), (3, 4, 255)]);
}
