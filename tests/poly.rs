use raster2d::poly_2d::{draw_poly, PolyError};

fn fill(xmax: i32, ymax: i32, coords: &[[i32; 2]]) -> Vec<(i32, i32, i32)> {
    draw_poly(xmax, ymax, &coords.to_vec()).unwrap()
}

fn row(spans: &[(i32, i32, i32)], y: i32) -> Vec<(i32, i32, i32)> {
    spans.iter().copied().filter(|s| s.2 == y).collect()
}

fn pixels(spans: &[(i32, i32, i32)]) -> Vec<(i32, i32)> {
    let mut out = Vec::new();
    for &(xs, xe, y) in spans {
        for x in xs..xe {
            out.push((x, y));
        }
    }
    out.sort();
    out
}

fn assert_well_formed(spans: &[(i32, i32, i32)], xmax: i32, ymax: i32) {
    for s in spans {
        assert!(0 <= s.0 && s.0 < s.1 && s.1 <= xmax && 0 <= s.2 && s.2 < ymax, "{:?}", s);
    }
    for w in spans.windows(2) {
        assert!(w[0].2 < w[1].2 || (w[0].2 == w[1].2 && w[0].1 <= w[1].0), "{:?}", w);
    }
}

const TRIANGLE: [[i32; 2]; 3] = [[300, 200], [300, 400], [400, 300]];

#[test]
fn triangle_widest_row() {
    let spans = fill(640, 480, &TRIANGLE);
    assert_well_formed(&spans, 640, 480);
    assert_eq!(row(&spans, 300), vec![(300, 400, 300)]);
    assert_eq!(row(&spans, 250), vec![(300, 350, 250)]);
    assert_eq!(row(&spans, 350), vec![(300, 350, 350)]);
    assert!(row(&spans, 200).is_empty());
    assert!(row(&spans, 400).is_empty());
    assert_eq!(spans.len(), 199);
}

#[test]
fn same_polygon_twice_gives_same_spans() {
    let a = fill(640, 480, &TRIANGLE);
    let b = fill(640, 480, &TRIANGLE);
    assert_eq!(a, b);
}

#[test]
fn reversed_winding_gives_same_pixels() {
    let ring = [[3, 1], [17, 4], [12, 9], [20, 15], [2, 13], [8, 7]];
    let mut reversed = ring;
    reversed.reverse();
    let a = fill(30, 20, &ring);
    let b = fill(30, 20, &reversed);
    assert!(!a.is_empty());
    assert_eq!(pixels(&a), pixels(&b));
    assert_eq!(a, b);
}

#[test]
fn horizontal_edges_add_no_crossing() {
    let spans = fill(64, 64, &[[10, 10], [20, 10], [20, 20], [10, 20]]);
    let expected: Vec<(i32, i32, i32)> = (11..=20).map(|y| (10, 20, y)).collect();
    assert_eq!(spans, expected);
}

#[test]
fn bowtie_is_filled_even_odd() {
    let spans = fill(64, 64, &[[0, 0], [10, 10], [10, 0], [0, 10]]);
    assert_well_formed(&spans, 64, 64);
    assert_eq!(row(&spans, 2), vec![(0, 2, 2), (8, 10, 2)]);
    assert_eq!(row(&spans, 5), vec![(0, 5, 5), (5, 10, 5)]);
    assert_eq!(row(&spans, 8), vec![(0, 2, 8), (8, 10, 8)]);
    assert!(row(&spans, 0).is_empty());
}

#[test]
fn spans_are_clipped_to_the_viewport() {
    let spans = fill(10, 10, &[[-5, -5], [5, -5], [5, 5], [-5, 5]]);
    let expected: Vec<(i32, i32, i32)> = (0..=5).map(|y| (0, 5, y)).collect();
    assert_eq!(spans, expected);
    let right = fill(10, 10, &[[6, 2], [30, 2], [30, 6], [6, 6]]);
    let expected: Vec<(i32, i32, i32)> = (3..=6).map(|y| (6, 10, y)).collect();
    assert_eq!(right, expected);
    assert!(fill(10, 10, &[[12, 2], [30, 2], [30, 6]]).is_empty());
}

#[test]
fn crossings_round_half_away_from_zero() {
    let spans = fill(16, 16, &[[0, 0], [1, 2], [4, 2]]);
    assert_eq!(spans, vec![(1, 2, 1), (1, 4, 2)]);
}

#[test]
fn empty_viewport_fills_nothing() {
    assert!(fill(0, 0, &TRIANGLE).is_empty());
    assert!(fill(640, -3, &TRIANGLE).is_empty());
}

#[test]
fn too_few_vertices_is_an_error() {
    assert_eq!(draw_poly(64, 64, &vec![]), Err(PolyError::TooFewVertices));
    assert_eq!(draw_poly(64, 64, &vec![[1, 1], [5, 5]]), Err(PolyError::TooFewVertices));
}

#[test]
fn pentagram_centre_is_left_open() {
    let star = [[50, 10], [74, 82], [12, 38], [88, 38], [26, 82]];
    let spans = fill(100, 100, &star);
    assert_well_formed(&spans, 100, 100);
    assert_eq!(row(&spans, 50), vec![(29, 37, 50), (63, 71, 50)]);
    assert_eq!(row(&spans, 14), vec![(49, 51, 14)]);
    assert!(!pixels(&spans).contains(&(50, 50)));
}

#[test]
fn degenerate_rings_fill_nothing_without_error() {
    assert_eq!(draw_poly(10, 10, &vec![[1, 1], [1, 1], [1, 1]]), Ok(vec![]));
    assert_eq!(draw_poly(10, 10, &vec![[1, 1], [5, 5], [9, 9]]), Ok(vec![]));
    assert_eq!(draw_poly(10, 10, &vec![[1, 1], [8, 1], [4, 1], [2, 1]]), Ok(vec![]));
}
