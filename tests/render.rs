use graphics_introduction::{
    draw_outcome, Color, LineDrawError, OneColorLine, Point, Polygon, Renderable, Renderer,
};

struct Recorder {
    color: Color,
    fail_after: usize,
    draws: Vec<(Vec<Point>, Color, Color)>,
}

impl Recorder {
    fn new(fail_after: usize) -> Recorder {
        Recorder {
            color: Color::RGBA(1, 2, 3, 4),
            fail_after,
            draws: Vec::new(),
        }
    }
}

impl Renderer for Recorder {
    fn current_color(&self) -> Color {
        self.color
    }

    fn draw_color(&self) -> Color {
        self.color
    }

    fn set_draw_color(&mut self, color: Color) {
        self.color = color;
    }

    fn draw_points(&mut self, points: &[Point], color: Color) -> Result<(), String> {
        if self.draws.len() >= self.fail_after {
            return Err(String::from("surface lost"));
        }
        self.draws.push((points.to_vec(), color, self.color));
        Ok(())
    }
}

#[test]
fn empty_line_render_is_refused_without_drawing() {
    let p = Point::new(1, 1);
    let line = OneColorLine::new_45_deg(p, p, Color::red());
    let mut r = Recorder::new(10);
    let res = line.draw(&mut r);
    assert!(matches!(res, Err(LineDrawError::Empty)));
    assert!(r.draws.is_empty());
    assert_eq!(r.color, Color::RGBA(1, 2, 3, 4));
    assert!(matches!(line.render(&mut r), Err(LineDrawError::Empty)));
}

#[test]
fn line_render_restores_draw_color() {
    let line = OneColorLine::new_all_deg(Point::new(0, 0), Point::new(2, 1), Color::red());
    let mut r = Recorder::new(10);
    line.render(&mut r).unwrap();
    assert_eq!(r.color, Color::RGBA(1, 2, 3, 4));
    assert_eq!(r.draws.len(), 1);
    assert_eq!(r.draws[0].0, line.points().to_vec());
    assert_eq!(r.draws[0].1, Color::red());
    assert_eq!(r.draws[0].2, Color::red());
}

#[test]
fn line_render_failure_restores_draw_color() {
    let line = OneColorLine::new_all_deg(Point::new(0, 0), Point::new(2, 1), Color::red());
    let mut r = Recorder::new(0);
    match line.draw(&mut r) {
        Err(LineDrawError::Draw(msg)) => assert_eq!(msg, "surface lost"),
        other => panic!("unexpected {:?}", other),
    }
    assert_eq!(r.color, Color::RGBA(1, 2, 3, 4));
}

#[test]
fn polygon_render_stops_at_first_failure() {
    let polygon = Polygon::new(
        &[Point::new(0, 0), Point::new(4, 0), Point::new(0, 4)],
        Color::red(),
    )
    .unwrap();
    let mut ok = Recorder::new(10);
    polygon.render(&mut ok).unwrap();
    assert_eq!(ok.draws.len(), 3);
    assert_eq!(ok.color, Color::RGBA(1, 2, 3, 4));

    let mut failing = Recorder::new(1);
    assert!(matches!(polygon.render(&mut failing), Err(LineDrawError::Draw(_))));
    assert_eq!(failing.draws.len(), 1);
    assert_eq!(failing.color, Color::RGBA(1, 2, 3, 4));
}

#[test]
fn draw_outcome_keeps_backend_message() {
    assert!(draw_outcome(Ok(())).is_ok());
    match draw_outcome(Err(String::from("no surface"))) {
        Err(LineDrawError::Draw(m)) => assert_eq!(m, "no surface"),
        other => panic!("unexpected {:?}", other),
    }
}

#[test]
fn polygon_render_paints_each_edge_once_in_order() {
    let polygon = Polygon::new(
        &[Point::new(0, 0), Point::new(4, 0), Point::new(4, 4), Point::new(0, 4)],
        Color::red(),
    )
    .unwrap();
    let mut r = Recorder::new(10);
    polygon.render(&mut r).unwrap();
    assert_eq!(r.draws.len(), 4);
    for (i, edge) in polygon.edges().iter().enumerate() {
        assert_eq!(r.draws[i].0, edge.points().to_vec());
        assert_eq!(r.draws[i].1, Color::red());
    }
    assert_eq!(r.color, Color::RGBA(1, 2, 3, 4));
}
