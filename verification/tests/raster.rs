use hershey::raster::trace_line;

#[test]
fn horizontal_line_points() {
    let pts = trace_line((0, 0), (5, 0));
    assert_eq!(pts, vec![(0, 0), (1, 0), (2, 0), (3, 0), (4, 0), (5, 0)]);
}

#[test]
fn degenerate_line_is_one_point() {
    let pts = trace_line((0, 0), (0, 0));
    assert_eq!(pts, vec![(0, 0)]);
}

#[test]
fn diagonal_line_points() {
    let pts = trace_line((0, 0), (3, 3));
    assert_eq!(pts, vec![(0, 0), (1, 1), (2, 2), (3, 3)]);
}

#[test]
fn steep_line_points() {
    let pts = trace_line((0, 0), (1, 3));
    assert_eq!(pts, vec![(0, 0), (0, 1), (1, 2), (1, 3)]);
}

#[test]
fn negative_direction_line_points() {
    let pts = trace_line((2, 1), (0, 0));
    assert_eq!(pts, vec![(2, 1), (1, 1), (0, 0)]);
}

#[test]
fn reversed_trace_visits_the_same_points() {
    let ends: Vec<((i64, i64), (i64, i64))> = vec![
        ((0, 0), (5, 0)),
        ((0, 0), (2, 1)),
        ((3, 7), (-2, -1)),
        ((-4, 2), (9, -5)),
        ((1, 1), (1, 1)),
    ];
    for (a, b) in ends {
        let fwd = trace_line(a, b);
        let bwd = trace_line(b, a);
        let mut rev = fwd.clone();
        rev.reverse();
        assert_eq!(rev, bwd);
        for p in &fwd {
            assert!(bwd.contains(p));
        }
    }
}

#[test]
fn endpoints_are_included() {
    let pts = trace_line((-3, 4), (10, -2));
    assert_eq!(pts.first(), Some(&(-3, 4)));
    assert_eq!(pts.last(), Some(&(10, -2)));
    assert_eq!(pts.len(), 14);
}
