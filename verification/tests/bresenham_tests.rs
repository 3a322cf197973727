use robo::bresenham::Bresenham;

fn collect(mut b: Bresenham) -> Vec<(i32, i32)> {
    let mut out = Vec::new();
    while let Some(p) = b.next() {
        out.push(p);
    }
    out
}

#[test]
fn horizontal_line_stops_before_end() {
    let pts = collect(Bresenham::new(0, 0, 3, 0));
    assert_eq!(pts, vec![(0, 0), (1, 0), (2, 0)]);
}

#[test]
fn same_start_and_end_yields_nothing() {
    let mut b = Bresenham::new(4, -2, 4, -2);
    assert_eq!(b.next(), None);
    assert_eq!(b.next(), None);
}

#[test]
fn exhausted_walk_keeps_returning_none() {
    let mut b = Bresenham::new(0, 0, 1, 0);
    assert_eq!(b.next(), Some((0, 0)));
    assert_eq!(b.next(), None);
    assert_eq!(b.next(), None);
}

#[test]
fn diagonal_line() {
    let pts = collect(Bresenham::new(0, 0, 3, 3));
    assert_eq!(pts, vec![(0, 0), (1, 1), (2, 2)]);
}

#[test]
fn shallow_line() {
    let pts = collect(Bresenham::new(0, 0, 5, 2));
    assert_eq!(pts, vec![(0, 0), (1, 0), (2, 1), (3, 1), (4, 2)]);
}

#[test]
fn steep_line() {
    let pts = collect(Bresenham::new(0, 0, 1, 4));
    assert_eq!(pts, vec![(0, 0), (0, 1), (1, 2), (1, 3)]);
}

#[test]
fn line_towards_negative_axes() {
    let pts = collect(Bresenham::new(3, 2, 0, 0));
    assert_eq!(pts, vec![(3, 2), (2, 1), (1, 1)]);
}

#[test]
fn line_length_is_longer_axis() {
    for &(x1, y1) in &[(7, 3), (-7, 3), (2, -9), (-4, -4), (0, 6), (6, 0)] {
        let pts = collect(Bresenham::new(0, 0, x1, y1));
        let longer = std::cmp::max(i32::abs(x1), i32::abs(y1)) as usize;
        assert_eq!(pts.len(), longer);
    }
}

#[test]
fn line_is_connected_and_in_box() {
    let (x0, y0, x1, y1) = (-3, 5, 8, -1);
    let pts = collect(Bresenham::new(x0, y0, x1, y1));
    assert_eq!(pts[0], (x0, y0));
    let mut with_end = pts.clone();
    with_end.push((x1, y1));
    for w in with_end.windows(2) {
        let (a, b) = (w[0], w[1]);
        assert!(a != b);
        assert!((b.0 - a.0).abs() <= 1 && (b.1 - a.1).abs() <= 1);
        assert!((x1 - b.0).abs() <= (x1 - a.0).abs());
        assert!((y1 - b.1).abs() <= (y1 - a.1).abs());
    }
    for p in &pts {
        assert!(*p != (x1, y1));
        assert!(p.0 >= x0 && p.0 <= x1 && p.1 <= y0 && p.1 >= y1);
    }
}

#[test]
fn clone_continues_from_same_cell() {
    let mut b = Bresenham::new(0, 0, 4, 1);
    b.next();
    let c = b.clone();
    assert_eq!(collect(b), collect(c));
}
