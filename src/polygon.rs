use vstd::prelude::*;
use crate::geometry::{Color, Point};
use crate::line::{abs, lemma_raster_shape, raster, LineSegment, OneColorLine};
use crate::render::{Renderable, Renderer};
use vstd::arithmetic::div_mod::{lemma_mod_self_0, lemma_small_mod};

verus! {

/// Every segment holds at least one pixel.
pub open spec fn all_have_endpoints<T: LineSegment>(lines: Seq<T>) -> bool {
    forall|i: int| 0 <= i < lines.len() ==> #[trigger] lines[i].has_endpoints()
}

/// Each segment ends where the next one starts, and the last one ends where
/// the first one starts.
pub open spec fn segments_touch<T: LineSegment>(lines: Seq<T>) -> bool {
    forall|i: int|
        0 <= i < lines.len() ==> #[trigger] lines[i].spec_last_point() == lines[(i + 1)
            % lines.len() as int].spec_first_point()
}

/// The pixels of the closed outline through `points`: one rasterized edge
/// from each vertex to the next, and one from the last vertex back to the first.
pub open spec fn closed_outline(points: Seq<Point>) -> Seq<Seq<Point>> {
    Seq::new(points.len(), |i: int| raster(points[i], points[(i + 1) % points.len() as int]))
}

/// The index after `i` around a cycle of length `n`.
proof fn lemma_next_index(i: int, n: int)
    requires
        0 <= i < n,
    ensures
        (i + 1) % n == if i + 1 < n { i + 1 } else { 0 },
{
    if i + 1 < n {
        lemma_small_mod((i + 1) as nat, n as nat);
    } else {
        lemma_mod_self_0(n);
    }
}

/// Integer division rounding toward zero.
pub open spec fn trunc_div(a: int, b: int) -> int {
    if (a < 0) == (b < 0) {
        abs(a) / abs(b)
    } else {
        -(abs(a) / abs(b))
    }
}

/// One end of the edge from `p0` to `p1` lies past the row of `q` (greater
/// y) and the other does not. An end on the row counts as not past it, so a
/// flat edge never spans a row.
pub open spec fn spans(p0: Point, p1: Point, q: Point) -> bool {
    (p0.y > q.y) != (p1.y > q.y)
}

/// Where the edge from `p0` to `p1` meets the horizontal line through `q`.
pub open spec fn crossing_x(p0: Point, p1: Point, q: Point) -> int {
    p0.x + trunc_div((q.y - p0.y) * (p1.x - p0.x), p1.y - p0.y)
}

/// The ray from `q` towards growing x crosses the edge from `p0` to `p1`.
pub open spec fn crosses(p0: Point, p1: Point, q: Point) -> bool {
    spans(p0, p1, q) && q.x < crossing_x(p0, p1, q)
}

/// How many of the first `n` edges of the closed outline through `vertices`
/// the ray from `q` crosses.
pub open spec fn crossings(vertices: Seq<Point>, q: Point, n: int) -> nat
    decreases n,
{
    if n <= 0 {
        0
    } else {
        crossings(vertices, q, n - 1) + if crosses(
            vertices[n - 1],
            vertices[n % vertices.len() as int],
            q,
        ) {
            1nat
        } else {
            0nat
        }
    }
}

/// Even-odd rule: `q` lies inside the outline through `vertices` when the ray
/// from it crosses an odd number of edges.
pub open spec fn inside(vertices: Seq<Point>, q: Point) -> bool {
    crossings(vertices, q, vertices.len() as int) % 2 == 1
}

/// A closed outline made of at least three segments, each ending where the
/// next one begins.
#[derive(Debug)]
pub struct Polygon<T: LineSegment> {
    edges: Vec<T>,
}

/// A polygon needs at least three vertices.
#[non_exhaustive]
#[derive(Debug, Clone, Copy, PartialEq, Eq, Structural)]
pub struct NotEnoughPointsError;

/// Why segments do not make a polygon.
#[non_exhaustive]
#[derive(Debug, Clone, Copy, PartialEq, Eq, PartialOrd, Ord, Hash, Structural)]
pub enum PolygonFromLinesError {
    /// Fewer than three segments.
    NotEnoughLines,
    /// Some segment does not end where the next one begins.
    LinesDontTouch,
}

impl<T: LineSegment> Polygon<T> {
    pub closed spec fn spec_edges(&self) -> Seq<T> {
        self.edges@
    }

    pub open spec fn wf(&self) -> bool {
        &&& self.spec_edges().len() >= 3
        &&& all_have_endpoints(self.spec_edges())
        &&& segments_touch(self.spec_edges())
    }

    /// The first point of each edge, in edge order.
    pub open spec fn vertices(&self) -> Seq<Point> {
        Seq::new(self.spec_edges().len(), |i: int| self.spec_edges()[i].spec_first_point())
    }

    pub fn edges(&self) -> (r: &[T])
        ensures
            r@ == self.spec_edges(),
    {
        self.edges.as_slice()
    }

    pub fn points(&self) -> (r: Vec<Point>)
        requires
            self.wf(),
        ensures
            r@ == self.vertices(),
    {
        let mut r: Vec<Point> = Vec::new();
        let mut i: usize = 0;
        while i < self.edges.len()
            invariant
                self.wf(),
                i <= self.edges@.len(),
                r@ == self.vertices().take(i as int),
            decreases self.edges@.len() - i,
        {
            r.push(self.edges[i].first_point());
            i = i + 1;
            proof {
                assert(r@ =~= self.vertices().take(i as int));
            }
        }
        proof {
            assert(r@ =~= self.vertices());
        }
        r
    }

    /// Builds a polygon from segments that already form a closed outline.
    pub fn new_from_lines(lines: Vec<T>) -> (r: Result<Self, PolygonFromLinesError>)
        requires
            lines@.len() >= 3 ==> all_have_endpoints(lines@),
        ensures
            lines@.len() < 3 <==> r == Err::<Self, PolygonFromLinesError>(
                PolygonFromLinesError::NotEnoughLines,
            ),
            (lines@.len() >= 3 && !segments_touch(lines@)) <==> r == Err::<
                Self,
                PolygonFromLinesError,
            >(PolygonFromLinesError::LinesDontTouch),
            r matches Ok(p) ==> p.spec_edges() == lines@ && p.wf(),
    {
        let n = lines.len();
        if n < 3 {
            return Err(PolygonFromLinesError::NotEnoughLines);
        }
        let mut i: usize = 0;
        while i < n
            invariant
                n == lines@.len(),
                n >= 3,
                i <= n,
                all_have_endpoints(lines@),
                forall|j: int|
                    0 <= j < i ==> #[trigger] lines@[j].spec_last_point() == lines@[(j + 1)
                        % n as int].spec_first_point(),
            decreases n - i,
        {
            let next: usize = if i + 1 < n { i + 1 } else { 0 };
            proof {
                lemma_next_index(i as int, n as int);
                assert(lines@[i as int].has_endpoints());
                assert(lines@[next as int].has_endpoints());
            }
            if lines[i].last_point() != lines[next].first_point() {
                return Err(PolygonFromLinesError::LinesDontTouch);
            }
            i = i + 1;
        }
        Ok(Polygon { edges: lines })
    }

    /// Even-odd test of `point` against the outline through the vertices; an
    /// edge counts when it spans the point's row and meets that row right of
    /// the point.
    pub fn contains(&self, point: Point) -> (r: bool)
        requires
            self.wf(),
        ensures
            r == inside(self.vertices(), point),
    {
        let points = self.points();
        let n = points.len();
        let mut count: usize = 0;
        let mut i: usize = 0;
        while i < n
            invariant
                n == points@.len(),
                n >= 3,
                points@ == self.vertices(),
                i <= n,
                count == crossings(points@, point, i as int),
                count <= i,
            decreases n - i,
        {
            let first = points[i];
            let last = if i + 1 < n { points[i + 1] } else { points[0] };
            proof {
                lemma_next_index(i as int, n as int);
            }
            if (first.y > point.y) != (last.y > point.y) {
                proof {
                    let a = point.y as int - first.y as int;
                    let b = last.x as int - first.x as int;
                    assert(-0x1_0000_0000_0000_0000 <= a * b <= 0x1_0000_0000_0000_0000) by (nonlinear_arith)
                        requires
                            -0x1_0000_0000 <= a <= 0x1_0000_0000,
                            -0x1_0000_0000 <= b <= 0x1_0000_0000;
                }
                let numerator: i128 = (point.y as i128 - first.y as i128) * (last.x as i128
                    - first.x as i128);
                let intersect_x: i128 = first.x as i128 + truncated_div(
                    numerator,
                    last.y as i128 - first.y as i128,
                );
                if (point.x as i128) < intersect_x {
                    count = count + 1;
                }
            }
            i = i + 1;
        }
        count % 2 == 1
    }
}

/// Division of `a` by `b` rounding toward zero, as Rust's `/` does.
fn truncated_div(a: i128, b: i128) -> (q: i128)
    requires
        b != 0,
        -0x1_0000_0000_0000_0000_0000 < a < 0x1_0000_0000_0000_0000_0000,
        -0x1_0000_0000_0000_0000_0000 < b < 0x1_0000_0000_0000_0000_0000,
    ensures
        q == trunc_div(a as int, b as int),
{
    let ua: u128 = if a < 0 { (-a) as u128 } else { a as u128 };
    let ub: u128 = if b < 0 { (-b) as u128 } else { b as u128 };
    let uq: u128 = ua / ub;
    proof {
        assert(uq <= ua) by (nonlinear_arith)
            requires uq == ua / ub, ub >= 1;
    }
    if (a < 0) == (b < 0) {
        uq as i128
    } else {
        -(uq as i128)
    }
}

impl Polygon<OneColorLine> {
    /// The pixels of each edge, in edge order.
    pub open spec fn edge_pixels(&self) -> Seq<Seq<Point>> {
        Seq::new(self.spec_edges().len(), |i: int| self.spec_edges()[i]@)
    }

    /// Builds the closed outline through `points` in `color`: an edge from
    /// each vertex to the next and one from the last back to the first.
    pub fn new(points: &[Point], color: Color) -> (r: Result<Self, NotEnoughPointsError>)
        ensures
            points@.len() < 3 <==> r is Err,
            r matches Ok(p) ==> {
                &&& p.wf()
                &&& p.edge_pixels() == closed_outline(points@)
                &&& forall|i: int| 0 <= i < p.spec_edges().len() ==> #[trigger] p.spec_edges()[i].spec_color() == color
            },
    {
        let n = points.len();
        if n < 3 {
            return Err(NotEnoughPointsError);
        }
        let mut edges: Vec<OneColorLine> = Vec::new();
        let mut i: usize = 0;
        while i < n
            invariant
                n == points@.len(),
                n >= 3,
                i <= n,
                edges@.len() == i,
                forall|j: int|
                    0 <= j < i ==> (#[trigger] edges@[j])@ == raster(points@[j], points@[(j + 1) % n as int])
                        && edges@[j].spec_color() == color,
            decreases n - i,
        {
            let next: usize = if i + 1 < n { i + 1 } else { 0 };
            proof {
                lemma_next_index(i as int, n as int);
            }
            edges.push(OneColorLine::new_all_deg(points[i], points[next], color));
            i = i + 1;
        }
        let r = Polygon { edges };
        proof {
            assert(r.edge_pixels() =~= closed_outline(points@));
            assert forall|j: int| 0 <= j < n implies #[trigger] r.spec_edges()[j].has_endpoints() by {
                lemma_raster_shape(points@[j], points@[(j + 1) % n as int]);
                r.spec_edges()[j].lemma_endpoints();
            }
            assert forall|j: int| 0 <= j < n implies #[trigger] r.spec_edges()[j].spec_last_point()
                == r.spec_edges()[(j + 1) % n as int].spec_first_point() by {
                let k = (j + 1) % n as int;
                lemma_next_index(j, n as int);
                lemma_raster_shape(points@[j], points@[k]);
                lemma_raster_shape(points@[k], points@[(k + 1) % n as int]);
                r.spec_edges()[j].lemma_endpoints();
                r.spec_edges()[k].lemma_endpoints();
            }
        }
        Ok(r)
    }
}

/// A polygon built from vertices gives those vertices back: the first pixel
/// of each edge of the closed outline is the vertex it starts from.
pub proof fn lemma_points_round_trip(points: Seq<Point>, polygon: Polygon<OneColorLine>)
    requires
        points.len() >= 3,
        polygon.edge_pixels() == closed_outline(points),
    ensures
        polygon.vertices() == points,
{
    assert(polygon.edge_pixels().len() == points.len());
    assert(polygon.spec_edges().len() == points.len());
    assert forall|i: int| 0 <= i < points.len() implies #[trigger] polygon.vertices()[i] == points[i] by {
        assert(polygon.edge_pixels()[i] == closed_outline(points)[i]);
        assert(polygon.spec_edges()[i]@ == raster(points[i], points[(i + 1) % points.len() as int]));
        lemma_raster_shape(points[i], points[(i + 1) % points.len() as int]);
        polygon.spec_edges()[i].lemma_endpoints();
    }
    assert(polygon.vertices() =~= points);
}

/// A ray through a vertex, from a point left of it on its row, is counted once
/// by the two edges meeting there when they leave the row on opposite sides,
/// and zero or two times when both leave on the same side: the pair adds 1 to
/// the parity exactly when the edges' far ends lie on opposite sides of the row.
pub proof fn lemma_ray_through_vertex(prev: Point, vertex: Point, next: Point, q: Point)
    requires
        vertex.y == q.y,
        q.x < vertex.x,
    ensures
        ((if crosses(prev, vertex, q) { 1int } else { 0int }) + (if crosses(vertex, next, q) {
            1int
        } else {
            0int
        })) % 2 == 1 <==> ((prev.y > q.y) != (next.y > q.y)),
{
    if spans(prev, vertex, q) {
        lemma_trunc_div_exact(vertex.x - prev.x, vertex.y - prev.y);
        assert((q.y - prev.y) * (vertex.x - prev.x) == (vertex.x - prev.x) * (vertex.y - prev.y))
            by (nonlinear_arith) requires vertex.y == q.y;
        assert(crosses(prev, vertex, q));
    }
    if spans(vertex, next, q) {
        assert((q.y - vertex.y) * (next.x - vertex.x) == 0) by (nonlinear_arith) requires vertex.y == q.y;
        assert(trunc_div(0, next.y - vertex.y) == 0);
        assert(crosses(vertex, next, q));
    }
}

/// Dividing a multiple of `d` by `d` leaves no remainder to round.
proof fn lemma_trunc_div_exact(k: int, d: int)
    requires
        d != 0,
    ensures
        trunc_div(k * d, d) == k,
{
    assert(abs(k * d) == abs(k) * abs(d)) by (nonlinear_arith);
    assert(abs(k) * abs(d) / abs(d) == abs(k)) by (nonlinear_arith)
        requires abs(d) > 0;
    assert((k * d < 0) == ((k < 0) != (d < 0)) || k == 0) by (nonlinear_arith)
        requires d != 0;
}

/// A point lying on a vertex is never counted twice by the two edges that
/// share that vertex: together they add at most one crossing.
pub proof fn lemma_vertex_not_double_counted(prev: Point, vertex: Point, next: Point, q: Point)
    requires
        q == vertex,
    ensures
        (if crosses(prev, vertex, q) { 1int } else { 0int }) + (if crosses(vertex, next, q) {
            1int
        } else {
            0int
        }) <= 1,
{
    if spans(prev, vertex, q) {
        lemma_trunc_div_exact(vertex.x - prev.x, vertex.y - prev.y);
        assert((q.y - prev.y) * (vertex.x - prev.x) == (vertex.x - prev.x) * (vertex.y - prev.y))
            by (nonlinear_arith) requires q == vertex;
        assert(!crosses(prev, vertex, q));
    }
    if spans(vertex, next, q) {
        assert((q.y - vertex.y) * (next.x - vertex.x) == 0) by (nonlinear_arith) requires q == vertex;
        assert(trunc_div(0, next.y - vertex.y) == 0);
        assert(!crosses(vertex, next, q));
    }
}

/// The batches that rendering the first `n` of `edges` paints, in order.
pub open spec fn edge_batches<T: Renderable>(edges: Seq<T>, n: int) -> Seq<(Seq<Point>, Color)>
    decreases n,
{
    if n <= 0 {
        Seq::empty()
    } else {
        edge_batches(edges, n - 1) + edges[n - 1].batches()
    }
}

/// What the first `i + 1` edges paint is a prefix of what the first `n` paint.
proof fn lemma_edge_batches_prefix<T: Renderable>(edges: Seq<T>, i: int, n: int)
    requires
        0 <= i < n,
    ensures
        edge_batches(edges, i + 1).len() <= edge_batches(edges, n).len(),
        edge_batches(edges, n).take(edge_batches(edges, i + 1).len() as int) == edge_batches(
            edges,
            i + 1,
        ),
    decreases n,
{
    if n > i + 1 {
        lemma_edge_batches_prefix(edges, i, n - 1);
        let a = edge_batches(edges, n - 1);
        let l = edge_batches(edges, i + 1).len() as int;
        assert((a + edges[n - 1].batches()).take(l) =~= a.take(l));
    } else {
        assert(edge_batches(edges, n).take(edge_batches(edges, n).len() as int) =~= edge_batches(
            edges,
            n,
        ));
    }
}

impl<T: LineSegment + Renderable> Renderable for Polygon<T> {
    type Error = T::Error;

    open spec fn batches(&self) -> Seq<(Seq<Point>, Color)> {
        edge_batches(self.spec_edges(), self.spec_edges().len() as int)
    }

    /// Renders each edge once, in edge order, and stops at the first one that
    /// fails, returning its error; what earlier edges painted stays.
    fn render<R: Renderer>(&self, renderer: &mut R) -> (r: Result<(), T::Error>) {
        let n = self.edges.len();
        let mut i: usize = 0;
        proof {
            assert(old(renderer).painted() =~= old(renderer).painted() + edge_batches(self.edges@, 0));
        }
        while i < n
            invariant
                n == self.edges@.len(),
                i <= n,
                renderer.current_color() == old(renderer).current_color(),
                renderer.painted() == old(renderer).painted() + edge_batches(self.edges@, i as int),
            decreases n - i,
        {
            let ghost before = renderer.painted();
            match self.edges[i].render(renderer) {
                Ok(()) => {
                    proof {
                        assert(renderer.painted() =~= old(renderer).painted() + edge_batches(
                            self.edges@,
                            i + 1,
                        ));
                    }
                },
                Err(e) => {
                    proof {
                        let x = self.edges@[i as int].batches();
                        let j = choose|j: int|
                            0 <= j < x.len() && renderer.painted() == before + #[trigger] x.take(j);
                        let up = edge_batches(self.edges@, i as int);
                        lemma_edge_batches_prefix(self.edges@, i as int, n as int);
                        let total = self.batches();
                        let k = up.len() + j;
                        assert(edge_batches(self.edges@, i + 1) == up + x);
                        assert(total.take(k) =~= (up + x).take(k));
                        assert((up + x).take(k) =~= up + x.take(j));
                        assert(renderer.painted() =~= old(renderer).painted() + total.take(k));
                        assert(0 <= k < total.len());
                    }
                    return Err(e);
                },
            }
            i = i + 1;
        }
        Ok(())
    }
}

} // verus!
