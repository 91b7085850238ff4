use vstd::prelude::*;
use crate::geometry::{Color, Point};
use crate::render::{Renderable, Renderer};

verus! {

pub open spec fn abs(v: int) -> int {
    if v < 0 { -v } else { v }
}

pub open spec fn sign(v: int) -> int {
    if v < 0 { -1 } else if v > 0 { 1 } else { 0 }
}

/// How far a line with extents `major` and `minor` (`0 <= minor <= major`,
/// `0 < major`) has moved along its minor axis after `k` steps along its major
/// one: `k * minor / major` rounded to the nearest integer, halves down.
pub open spec fn minor_offset(k: int, major: int, minor: int) -> int {
    (2 * k * minor + major - 1) / (2 * major)
}

/// The two pixels differ by at most 1 in each coordinate.
pub open spec fn touching(p: Point, q: Point) -> bool {
    abs(q.x - p.x) <= 1 && abs(q.y - p.y) <= 1
}

/// Each pixel of `s` touches the one before it.
pub open spec fn eight_connected(s: Seq<Point>) -> bool {
    forall|i: int| 0 < i < s.len() ==> touching(s[i - 1], #[trigger] s[i])
}

/// Number of steps along the dominant axis between `start` and `end`.
pub open spec fn major_extent(start: Point, end: Point) -> int {
    let dx = abs(end.x - start.x);
    let dy = abs(end.y - start.y);
    if dx >= dy { dx } else { dy }
}

/// The `k`-th pixel of the rasterized segment from `start` to `end`.
pub open spec fn raster_point(start: Point, end: Point, k: int) -> Point {
    let dx = end.x - start.x;
    let dy = end.y - start.y;
    if abs(dx) >= abs(dy) {
        Point {
            x: (start.x + sign(dx) * k) as i32,
            y: (start.y + sign(dy) * minor_offset(k, abs(dx), abs(dy))) as i32,
        }
    } else {
        Point {
            x: (start.x + sign(dx) * minor_offset(k, abs(dy), abs(dx))) as i32,
            y: (start.y + sign(dy) * k) as i32,
        }
    }
}

/// The pixels approximating the segment from `start` to `end`, both included,
/// one per step along the dominant axis.
pub open spec fn raster(start: Point, end: Point) -> Seq<Point> {
    Seq::new((major_extent(start, end) + 1) as nat, |k: int| raster_point(start, end, k))
}

/// One step of the decision variable moves the minor offset by 0 or 1, as the
/// sign of the decision variable says.
proof fn lemma_offset_step(k: int, major: int, minor: int)
    requires
        0 <= k,
        0 <= minor <= major,
        0 < major,
    ensures
        0 <= minor_offset(k, major, minor),
        ({
            let o = minor_offset(k, major, minor);
            let d = 2 * minor - major + 2 * k * minor - 2 * major * o;
            &&& minor_offset(k + 1, major, minor) == if d > 0 { o + 1 } else { o }
            &&& -2 * major < d <= 2 * minor
        }),
{
    let a = 2 * k * minor + major - 1;
    let b = 2 * major;
    let o = minor_offset(k, major, minor);
    assert(0 <= a) by (nonlinear_arith)
        requires 0 <= k, 0 <= minor, 0 < major, a == 2 * k * minor + major - 1;
    assert(b * o <= a < b * (o + 1)) by (nonlinear_arith)
        requires b > 0, o == a / b, 0 <= a;
    assert(0 <= o) by (nonlinear_arith)
        requires b > 0, o == a / b, 0 <= a;
    let a2 = a + 2 * minor;
    assert(a2 == 2 * (k + 1) * minor + major - 1) by (nonlinear_arith)
        requires a2 == a + 2 * minor, a == 2 * k * minor + major - 1;
    let d = 2 * minor - major + 2 * k * minor - 2 * major * o;
    if d > 0 {
        assert(b * (o + 1) <= a2 < b * (o + 2)) by (nonlinear_arith)
            requires
                b * o <= a < b * (o + 1),
                d > 0,
                d == 2 * minor - major + 2 * k * minor - 2 * major * o,
                a == 2 * k * minor + major - 1,
                a2 == a + 2 * minor,
                b == 2 * major,
                minor <= major;
        assert(a2 / b == o + 1) by (nonlinear_arith)
            requires b * (o + 1) <= a2 < b * (o + 2), b > 0;
    } else {
        assert(b * o <= a2 < b * (o + 1)) by (nonlinear_arith)
            requires
                b * o <= a < b * (o + 1),
                d <= 0,
                d == 2 * minor - major + 2 * k * minor - 2 * major * o,
                a == 2 * k * minor + major - 1,
                a2 == a + 2 * minor,
                b == 2 * major,
                0 <= minor;
        assert(a2 / b == o) by (nonlinear_arith)
            requires b * o <= a2 < b * (o + 1), b > 0;
    }
    assert(-2 * major < d <= 2 * minor) by (nonlinear_arith)
        requires
            0 <= minor,
            b * o <= a < b * (o + 1),
            d == 2 * minor - major + 2 * k * minor - 2 * major * o,
            a == 2 * k * minor + major - 1,
            b == 2 * major;
}

/// Within the segment the minor offset stays between 0 and the minor extent,
/// and it reaches that extent at the last step.
proof fn lemma_offset_range(k: int, major: int, minor: int)
    requires
        0 <= k <= major,
        0 <= minor <= major,
        0 < major,
    ensures
        0 <= minor_offset(k, major, minor) <= minor,
        minor_offset(0, major, minor) == 0,
        minor_offset(major, major, minor) == minor,
{
    let z = major - 1;
    assert(z / (2 * major) == 0) by (nonlinear_arith)
        requires z == major - 1, 0 < major;
    assert(2 * 0 * minor + major - 1 == z) by (nonlinear_arith)
        requires z == major - 1;
    assert(minor_offset(0, major, minor) == z / (2 * major));
    let a = 2 * k * minor + major - 1;
    let b = 2 * major;
    assert(0 <= a < b * (minor + 1)) by (nonlinear_arith)
        requires 0 <= k <= major, 0 <= minor, 0 < major, a == 2 * k * minor + major - 1, b == 2 * major;
    assert(0 <= a / b <= minor) by (nonlinear_arith)
        requires 0 <= a < b * (minor + 1), b > 0;
    let e = 2 * major * minor + major - 1;
    assert(b * minor <= e < b * (minor + 1)) by (nonlinear_arith)
        requires e == 2 * major * minor + major - 1, b == 2 * major, 0 < major;
    assert(e / b == minor) by (nonlinear_arith)
        requires b * minor <= e < b * (minor + 1), b > 0;
    assert(minor_offset(major, major, minor) == e / b);
}

/// The coordinates of the `k`-th pixel as integers: they fit in `i32`, so the
/// casts in `raster_point` change nothing.
proof fn lemma_raster_point_bounds(start: Point, end: Point, k: int)
    requires
        0 <= k <= major_extent(start, end),
    ensures
        ({
            let dx = end.x - start.x;
            let dy = end.y - start.y;
            let p = raster_point(start, end, k);
            if abs(dx) >= abs(dy) {
                &&& p.x == start.x + sign(dx) * k
                &&& p.y == start.y + sign(dy) * minor_offset(k, abs(dx), abs(dy))
            } else {
                &&& p.x == start.x + sign(dx) * minor_offset(k, abs(dy), abs(dx))
                &&& p.y == start.y + sign(dy) * k
            }
        }),
{
    let dx = end.x - start.x;
    let dy = end.y - start.y;
    if abs(dx) >= abs(dy) {
        if abs(dx) > 0 {
            lemma_offset_range(k, abs(dx), abs(dy));
        }
    } else {
        lemma_offset_range(k, abs(dy), abs(dx));
    }
}

proof fn lemma_sign_step(s: int, a: int, b: int)
    requires
        -1 <= s <= 1,
        0 <= b - a <= 1,
    ensures
        abs(s * b - s * a) <= 1,
{
    assert(s * b - s * a == s * (b - a)) by (nonlinear_arith);
    assert(-1 <= s * (b - a) <= 1) by (nonlinear_arith)
        requires -1 <= s <= 1, 0 <= b - a <= 1;
}

/// The rasterized segment starts at `start`, ends at `end`, has one pixel per
/// step along the dominant axis plus one, and each pixel touches the previous
/// one (differs by at most 1 in each coordinate).
pub proof fn lemma_raster_shape(start: Point, end: Point)
    ensures
        raster(start, end).len() == major_extent(start, end) + 1,
        raster(start, end)[0] == start,
        raster(start, end).last() == end,
        eight_connected(raster(start, end)),
{
    let m = major_extent(start, end);
    let dx = end.x - start.x;
    let dy = end.y - start.y;
    lemma_raster_point_bounds(start, end, 0);
    lemma_raster_point_bounds(start, end, m);
    if abs(dx) >= abs(dy) {
        if abs(dx) > 0 {
            lemma_offset_range(0, abs(dx), abs(dy));
            lemma_offset_range(m, abs(dx), abs(dy));
        }
    } else {
        lemma_offset_range(0, abs(dy), abs(dx));
        lemma_offset_range(m, abs(dy), abs(dx));
    }
    let r = raster(start, end);
    assert forall|i: int| 0 < i < r.len() implies touching(r[i - 1], #[trigger] r[i]) by {
        lemma_raster_point_bounds(start, end, i);
        lemma_raster_point_bounds(start, end, i - 1);
        if abs(dx) >= abs(dy) {
            lemma_offset_step(i - 1, abs(dx), abs(dy));
            lemma_sign_step(sign(dx), i - 1, i);
            lemma_sign_step(sign(dy), minor_offset(i - 1, abs(dx), abs(dy)), minor_offset(i, abs(dx), abs(dy)));
        } else {
            lemma_offset_step(i - 1, abs(dy), abs(dx));
            lemma_sign_step(sign(dy), i - 1, i);
            lemma_sign_step(sign(dx), minor_offset(i - 1, abs(dy), abs(dx)), minor_offset(i, abs(dy), abs(dx)));
        }
    }
}

/// Something with a first and a last pixel, usable as a polygon edge.
pub trait LineSegment {
    /// Whether the segment holds at least one pixel.
    spec fn has_endpoints(&self) -> bool;

    spec fn spec_first_point(&self) -> Point;

    spec fn spec_last_point(&self) -> Point;

    fn first_point(&self) -> (p: Point)
        requires
            self.has_endpoints(),
        ensures
            p == self.spec_first_point(),
    ;

    fn last_point(&self) -> (p: Point)
        requires
            self.has_endpoints(),
        ensures
            p == self.spec_last_point(),
    ;
}

/// A rasterized line segment drawn in a single color.
#[derive(Debug, Clone, PartialEq, Eq)]
pub struct OneColorLine {
    color: Color,
    points: Vec<Point>,
}

impl View for OneColorLine {
    type V = Seq<Point>;

    closed spec fn view(&self) -> Seq<Point> {
        self.points@
    }
}

impl OneColorLine {
    pub closed spec fn spec_color(&self) -> Color {
        self.color
    }

    /// Rasterizes a segment that runs right and rises by at most one pixel
    /// per column (screen y grows downwards). The pixels are those of the
    /// general rasterizer, without the end point.
    pub fn new_45_deg(start: Point, end: Point, color: Color) -> (r: Self)
        requires
            start.x <= end.x,
            0 <= start.y - end.y <= end.x - start.x,
        ensures
            r@ == raster(start, end).take(end.x - start.x),
            r.spec_color() == color,
    {
        let distance_x: i64 = end.x as i64 - start.x as i64;
        let distance_y: i64 = start.y as i64 - end.y as i64;
        let mut decision: i64 = 2 * distance_y - distance_x;
        let mut points: Vec<Point> = Vec::new();
        let mut x: i64 = start.x as i64;
        let mut y: i64 = start.y as i64;
        let mut k: i64 = 0;
        proof {
            if distance_x > 0 {
                lemma_offset_range(0, distance_x as int, distance_y as int);
            }
            assert(2 * 0 * distance_y == 0) by (nonlinear_arith);
        }
        while k < distance_x
            invariant
                distance_x == end.x - start.x,
                distance_y == start.y - end.y,
                0 <= distance_y <= distance_x,
                0 <= k <= distance_x,
                points@.len() == k,
                forall|j: int| 0 <= j < k ==> points@[j] == raster_point(start, end, j),
                x == start.x + k,
                distance_x > 0 ==> ({
                    let o = minor_offset(k as int, distance_x as int, distance_y as int);
                    &&& y == start.y - o
                    &&& decision == 2 * distance_y - distance_x + 2 * k * distance_y - 2 * distance_x * o
                }),
            decreases distance_x - k,
        {
            let ghost o = minor_offset(k as int, distance_x as int, distance_y as int);
            let ghost o1 = minor_offset(k + 1, distance_x as int, distance_y as int);
            proof {
                lemma_offset_step(k as int, distance_x as int, distance_y as int);
                lemma_offset_range(k as int, distance_x as int, distance_y as int);
                lemma_raster_point_bounds(start, end, k as int);
                assert(sign(end.y - start.y) * o == -o) by (nonlinear_arith)
                    requires
                        distance_y > 0 ==> sign(end.y - start.y) == -1,
                        distance_y == 0 ==> o == 0,
                        0 <= o <= distance_y;
            }
            points.push(Point { x: x as i32, y: y as i32 });
            if decision > 0 {
                assert(o1 == o + 1);
                y = y - 1;
                decision = decision + 2 * (distance_y - distance_x);
            } else {
                assert(o1 == o);
                decision = decision + 2 * distance_y;
            }
            x = x + 1;
            proof {
                assert(decision == 2 * distance_y - distance_x + 2 * (k + 1) * distance_y - 2 * distance_x * o1)
                    by (nonlinear_arith)
                    requires
                        decision == 2 * distance_y - distance_x + 2 * k * distance_y - 2 * distance_x * o
                            + 2 * distance_y - (if o1 == o + 1 { 2 * distance_x } else { 0 }),
                        o1 == o || o1 == o + 1;
            }
            k = k + 1;
        }
        proof {
            assert(points@ =~= raster(start, end).take(end.x - start.x));
        }
        OneColorLine { color, points }
    }

    /// Rasterizes the segment from `start` to `end` in any direction, with
    /// Bresenham's integer decision variable stepping along the dominant axis.
    pub fn new_all_deg(start: Point, end: Point, color: Color) -> (r: Self)
        ensures
            r@ == raster(start, end),
            r.spec_color() == color,
            r@.len() == major_extent(start, end) + 1,
            r@[0] == start,
            r@.last() == end,
            r.has_endpoints(),
            r.spec_first_point() == start,
            r.spec_last_point() == end,
            eight_connected(r@),
    {
        let dx: i64 = end.x as i64 - start.x as i64;
        let dy: i64 = end.y as i64 - start.y as i64;
        let mut distance_x: i64 = if dx < 0 { -dx } else { dx };
        let mut distance_y: i64 = if dy < 0 { -dy } else { dy };
        let sign_x: i64 = if dx < 0 { -1 } else if dx > 0 { 1 } else { 0 };
        let sign_y: i64 = if dy < 0 { -1 } else if dy > 0 { 1 } else { 0 };
        let swapped = distance_x < distance_y;
        if swapped {
            let t = distance_x;
            distance_x = distance_y;
            distance_y = t;
        }
        let mut decision: i64 = 2 * distance_y - distance_x;
        let mut x: i64 = start.x as i64;
        let mut y: i64 = start.y as i64;
        let mut points: Vec<Point> = Vec::new();
        points.push(start);
        let mut k: i64 = 0;
        proof {
            lemma_raster_shape(start, end);
            if distance_x > 0 {
                lemma_offset_range(0, distance_x as int, distance_y as int);
            }
            assert(2 * 0 * distance_y == 0) by (nonlinear_arith);
            assert(sign_x * 0 == 0 && sign_y * 0 == 0) by (nonlinear_arith);
        }
        while k < distance_x
            invariant
                sign_x == sign(end.x - start.x),
                sign_y == sign(end.y - start.y),
                swapped == (abs(end.x - start.x) < abs(end.y - start.y)),
                distance_x == if swapped { abs(end.y - start.y) } else { abs(end.x - start.x) },
                distance_y == if swapped { abs(end.x - start.x) } else { abs(end.y - start.y) },
                distance_x == major_extent(start, end),
                0 <= distance_y <= distance_x <= 0x1_0000_0000,
                0 <= k <= distance_x,
                points@.len() == k + 1,
                forall|j: int| 0 <= j <= k ==> points@[j] == raster_point(start, end, j),
                distance_x > 0 ==> ({
                    let o = minor_offset(k as int, distance_x as int, distance_y as int);
                    &&& decision == 2 * distance_y - distance_x + 2 * k * distance_y - 2 * distance_x * o
                    &&& swapped ==> x == start.x + sign_x * o && y == start.y + sign_y * k
                    &&& !swapped ==> x == start.x + sign_x * k && y == start.y + sign_y * o
                }),
                distance_x == 0 ==> x == start.x && y == start.y,
            decreases distance_x - k,
        {
            let ghost o = minor_offset(k as int, distance_x as int, distance_y as int);
            let ghost o1 = minor_offset(k + 1, distance_x as int, distance_y as int);
            proof {
                lemma_offset_step(k as int, distance_x as int, distance_y as int);
                lemma_raster_point_bounds(start, end, k + 1);
                lemma_offset_range(k + 1, distance_x as int, distance_y as int);
                assert(sign_x * (k + 1) == sign_x * k + sign_x) by (nonlinear_arith);
                assert(sign_y * (k + 1) == sign_y * k + sign_y) by (nonlinear_arith);
                assert(sign_x * (o + 1) == sign_x * o + sign_x) by (nonlinear_arith);
                assert(sign_y * (o + 1) == sign_y * o + sign_y) by (nonlinear_arith);
            }
            if decision > 0 {
                assert(o1 == o + 1);
                if swapped {
                    x = x + sign_x;
                } else {
                    y = y + sign_y;
                }
                decision = decision - 2 * distance_x;
            } else {
                assert(o1 == o);
            }
            if swapped {
                y = y + sign_y;
            } else {
                x = x + sign_x;
            }
            decision = decision + 2 * distance_y;
            proof {
                assert(decision == 2 * distance_y - distance_x + 2 * (k + 1) * distance_y - 2 * distance_x * o1)
                    by (nonlinear_arith)
                    requires
                        decision == 2 * distance_y - distance_x + 2 * k * distance_y - 2 * distance_x * o
                            + 2 * distance_y - (if o1 == o + 1 { 2 * distance_x } else { 0 }),
                        o1 == o || o1 == o + 1;
            }
            points.push(Point { x: x as i32, y: y as i32 });
            k = k + 1;
        }
        proof {
            assert(points@ =~= raster(start, end));
        }
        OneColorLine { color, points }
    }
}

impl OneColorLine {
    /// The line's pixels, from its start to its end.
    pub fn points(&self) -> (r: &[Point])
        ensures
            r@ == self@,
    {
        self.points.as_slice()
    }

    pub fn color(&self) -> (c: Color)
        ensures
            c == self.spec_color(),
    {
        self.color
    }

    /// Paints the line's pixels in its own color with one call of
    /// `draw_points`. An empty line is refused before the renderer is
    /// touched; otherwise the renderer's draw color is set for the draw and
    /// put back afterwards, whatever the draw returned.
    pub fn draw<R: Renderer>(&self, renderer: &mut R) -> (r: Result<(), LineDrawError>)
        ensures
            self@.len() == 0 <==> r == Err::<(), LineDrawError>(LineDrawError::Empty),
            self@.len() == 0 ==> *final(renderer) == *old(renderer),
            self@.len() > 0 ==> (r is Ok || r matches Err(LineDrawError::Draw(_))),
            self@.len() > 0 ==> (r is Ok <==> final(renderer).painted() == old(renderer).painted().push(
                (self@, self.spec_color()),
            )),
            r is Err ==> final(renderer).painted() == old(renderer).painted(),
            final(renderer).current_color() == old(renderer).current_color(),
    {
        let old_color = renderer.draw_color();
        if self.points.len() == 0 {
            return Err(LineDrawError::Empty);
        }
        renderer.set_draw_color(self.color);
        let drawn = renderer.draw_points(self.points.as_slice(), self.color);
        renderer.set_draw_color(old_color);
        proof {
            let before = old(renderer).painted();
            assert(before.push((self@, self.spec_color())).len() == before.len() + 1);
        }
        draw_outcome(drawn)
    }
}

/// What a line's render returns for what the renderer's draw returned: `Ok`
/// for `Ok`, and the renderer's message unchanged in `Draw` for an error.
pub fn draw_outcome(drawn: Result<(), String>) -> (r: Result<(), LineDrawError>)
    ensures
        match drawn {
            Ok(()) => r is Ok,
            Err(m) => r == Err::<(), LineDrawError>(LineDrawError::Draw(m)),
        },
{
    match drawn {
        Ok(()) => Ok(()),
        Err(message) => Err(LineDrawError::Draw(message)),
    }
}

impl LineSegment for OneColorLine {
    closed spec fn has_endpoints(&self) -> bool {
        self.points@.len() > 0
    }

    closed spec fn spec_first_point(&self) -> Point {
        self.points@[0]
    }

    closed spec fn spec_last_point(&self) -> Point {
        self.points@.last()
    }

    fn first_point(&self) -> (p: Point) {
        self.points[0]
    }

    fn last_point(&self) -> (p: Point) {
        self.points[self.points.len() - 1]
    }
}

impl OneColorLine {
    /// The segment ends are the line's first and last pixels.
    pub proof fn lemma_endpoints(&self)
        ensures
            self.has_endpoints() == (self@.len() > 0),
            self.has_endpoints() ==> self.spec_first_point() == self@[0],
            self.has_endpoints() ==> self.spec_last_point() == self@.last(),
    {
    }
}

impl Renderable for OneColorLine {
    type Error = LineDrawError;

    open spec fn batches(&self) -> Seq<(Seq<Point>, Color)> {
        seq![(self@, self.spec_color())]
    }

    fn render<R: Renderer>(&self, renderer: &mut R) -> (r: Result<(), LineDrawError>) {
        let r = self.draw(renderer);
        proof {
            let before = old(renderer).painted();
            assert(before.push((self@, self.spec_color())) =~= before + self.batches());
            assert(before =~= before + self.batches().take(0));
        }
        r
    }
}

/// Why a line could not be drawn.
#[non_exhaustive]
#[derive(Debug)]
pub enum LineDrawError {
    /// The renderer refused the draw, with its own message.
    Draw(String),
    /// The line holds no pixel.
    Empty,
}

} // verus!
