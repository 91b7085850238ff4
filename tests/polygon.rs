use graphics_introduction::{
    Color, OneColorLine, Point, Polygon, PolygonFromLinesError,
};

#[test]
fn new_polygon_has_correct_points() {
    let points: [Point; 4] = [
        (100, 100).into(),
        (100, 200).into(),
        (200, 200).into(),
        (200, 100).into(),
    ];
    let polygon = Polygon::new(&points, Color::red()).unwrap();

    assert_eq!(polygon.points(), points);
}

#[test]
fn new_polygon_has_correct_edges() {
    let points: [Point; 4] = [
        (100, 100).into(),
        (100, 200).into(),
        (200, 200).into(),
        (200, 100).into(),
    ];
    let color = Color::red();
    let polygon = Polygon::new(&points, color).unwrap();

    let mut lines: Vec<OneColorLine> = Vec::new();
    for i in 0..points.len() {
        let next = (i + 1) % points.len();
        lines.push(OneColorLine::new_all_deg(points[i], points[next], color));
    }

    for (i, edge) in polygon.edges().iter().enumerate() {
        assert_eq!(*edge, lines[i]);
    }
}

#[test]
fn polygon_contains_returns_false_if_not_inside() {
    let polygon = Polygon::new(
        &[
            (186, 14).into(),
            (186, 44).into(),
            (175, 115).into(),
            (175, 85).into(),
        ],
        Color::red(),
    )
    .unwrap();

    let point = (150, 85).into();

    assert!(!polygon.contains(point))
}

#[test]
fn polygon_contains_returns_true_if_inside() {
    let polygon = Polygon::new(
        &[(0, 0).into(), (5, 0).into(), (5, 5).into(), (0, 5).into()],
        Color::red(),
    )
    .unwrap();

    let point = (3, 3).into();

    assert!(polygon.contains(point))
}

fn square() -> Vec<Point> {
    vec![
        Point::new(0, 0),
        Point::new(5, 0),
        Point::new(5, 5),
        Point::new(0, 5),
    ]
}

#[test]
fn new_polygon_needs_three_points() {
    let pts = square();
    assert!(Polygon::new(&pts[..0], Color::red()).is_err());
    assert!(Polygon::new(&pts[..1], Color::red()).is_err());
    assert!(Polygon::new(&pts[..2], Color::red()).is_err());
    let triangle = Polygon::new(&pts[..3], Color::red()).unwrap();
    assert_eq!(triangle.points(), pts[..3].to_vec());
    assert_eq!(triangle.edges().len(), 3);
}

#[test]
fn new_polygon_edges_close_the_outline() {
    let pts = square();
    let polygon = Polygon::new(&pts, Color::red()).unwrap();
    let edges = polygon.edges();
    assert_eq!(edges.len(), 4);
    assert_eq!(
        edges[3].points(),
        &[
            Point::new(0, 5),
            Point::new(0, 4),
            Point::new(0, 3),
            Point::new(0, 2),
            Point::new(0, 1),
            Point::new(0, 0)
        ]
    );
    for i in 0..4 {
        let last = *edges[i].points().last().unwrap();
        assert_eq!(last, edges[(i + 1) % 4].points()[0]);
        assert_eq!(edges[i].color(), Color::red());
    }
}

#[test]
fn contains_counts_a_vertex_on_the_ray_once() {
    let triangle = Polygon::new(
        &[Point::new(0, 0), Point::new(10, 5), Point::new(0, 10)],
        Color::red(),
    )
    .unwrap();
    assert!(triangle.contains(Point::new(3, 5)));
    assert!(!triangle.contains(Point::new(10, 5)));
    assert!(!triangle.contains(Point::new(11, 5)));
}

#[test]
fn contains_point_on_a_vertex_is_not_double_counted() {
    let pts = square();
    let polygon = Polygon::new(&pts, Color::red()).unwrap();
    assert!(!polygon.contains(Point::new(5, 5)));
    // The two edges meeting at (0, 0) add nothing; the ray crosses x = 5 once.
    assert!(polygon.contains(Point::new(0, 0)));
    assert!(!polygon.contains(Point::new(6, 3)));
    assert!(!polygon.contains(Point::new(-1, 3)));
}

#[test]
fn contains_uses_truncating_interpolation() {
    let triangle = Polygon::new(
        &[Point::new(0, 0), Point::new(7, 3), Point::new(0, 3)],
        Color::red(),
    )
    .unwrap();
    // Edge (0,0)->(7,3) meets row 1 at 0 + 1 * 7 / 3 = 2.
    assert!(triangle.contains(Point::new(1, 1)));
    assert!(!triangle.contains(Point::new(2, 1)));
}

fn lines_of(pts: &[Point]) -> Vec<OneColorLine> {
    let mut lines = Vec::new();
    for i in 0..pts.len() {
        lines.push(OneColorLine::new_all_deg(
            pts[i],
            pts[(i + 1) % pts.len()],
            Color::red(),
        ));
    }
    lines
}

#[test]
fn new_from_lines_needs_three_lines() {
    let pts = square();
    let lines = lines_of(&pts[..2]);
    assert_eq!(
        Polygon::new_from_lines(lines).unwrap_err(),
        PolygonFromLinesError::NotEnoughLines
    );
    assert_eq!(
        Polygon::new_from_lines(Vec::<OneColorLine>::new()).unwrap_err(),
        PolygonFromLinesError::NotEnoughLines
    );
}

#[test]
fn new_from_lines_rejects_lines_off_by_one() {
    let mut lines = lines_of(&square());
    lines[2] = OneColorLine::new_all_deg(Point::new(5, 5), Point::new(0, 6), Color::red());
    assert_eq!(
        Polygon::new_from_lines(lines).unwrap_err(),
        PolygonFromLinesError::LinesDontTouch
    );
}

#[test]
fn new_from_lines_keeps_the_lines() {
    let pts = square();
    let lines = lines_of(&pts);
    let polygon = Polygon::new_from_lines(lines.clone()).unwrap();
    assert_eq!(polygon.edges(), &lines[..]);
    assert_eq!(polygon.points(), pts);
    assert!(polygon.contains(Point::new(3, 3)));
}

#[test]
fn new_from_lines_with_few_empty_lines_reports_not_enough() {
    let p = Point::new(2, 2);
    let empty = OneColorLine::new_45_deg(p, p, Color::red());
    assert_eq!(
        Polygon::new_from_lines(vec![empty.clone(), empty]).unwrap_err(),
        PolygonFromLinesError::NotEnoughLines
    );
}
