//! Delaunay triangulation of points in the plane, one point after the other.

use vstd::prelude::*;
use crate::double::Double;
use crate::model::Point;

verus! {

/// A triangle by the places of its corners in a list of points.
#[derive(Clone, Copy, Debug, PartialEq, Eq, Structural)]
pub struct Triangle {
    pub a: usize,
    pub b: usize,
    pub c: usize,
}

impl Triangle {
    /// All corners are among the first `count` points.
    pub open spec fn is_within(self, count: int) -> bool {
        self.a < count && self.b < count && self.c < count
    }

    /// The corners differ.
    pub open spec fn is_proper(self) -> bool {
        self.a != self.b && self.b != self.c && self.c != self.a
    }
}

/// An edge between two points, the one with the lower place first, and whether it has been met
/// more than once.
#[derive(Clone, Copy, Debug, PartialEq, Eq, Structural)]
pub struct Edge {
    pub left: usize,
    pub right: usize,
    pub repeated: bool,
}

/// An edge comes before another.
pub open spec fn edge_before(left: usize, right: usize, other: Edge) -> bool {
    left < other.left || (left == other.left && right < other.right)
}

/// A sorted list of edges with one more: marked as repeated where it is there already.
pub open spec fn noted(edges: Seq<Edge>, left: usize, right: usize) -> Seq<Edge>
    decreases edges.len(),
{
    if edges.len() == 0 {
        seq![Edge { left, right, repeated: false }]
    } else {
        let last = edges.last();
        if edge_before(left, right, last) {
            noted(edges.drop_last(), left, right).push(last)
        } else if left == last.left && right == last.right {
            edges.drop_last().push(Edge { left, right, repeated: true })
        } else {
            edges.push(Edge { left, right, repeated: false })
        }
    }
}

/// A sorted list of edges with one more, whichever of its points comes first.
pub open spec fn spec_note(edges: Seq<Edge>, i: usize, j: usize) -> Seq<Edge> {
    if i < j {
        noted(edges, i, j)
    } else {
        noted(edges, j, i)
    }
}

proof fn lemma_noted_at(edges: Seq<Edge>, left: usize, right: usize, k: int)
    requires
        0 <= k <= edges.len(),
        forall|i: int| k <= i < edges.len() ==> edge_before(left, right, #[trigger] edges[i]),
        k > 0 ==> !edge_before(left, right, edges[k - 1]),
    ensures
        noted(edges, left, right) == if k > 0 && edges[k - 1].left == left && edges[k - 1].right
            == right {
            edges.update(k - 1, Edge { left, right, repeated: true })
        } else {
            edges.insert(k, Edge { left, right, repeated: false })
        },
    decreases edges.len(),
{
    if edges.len() > 0 && edge_before(left, right, edges.last()) {
        let rest = edges.drop_last();
        assert(k < edges.len());
        lemma_noted_at(rest, left, right, k);
        if k > 0 && edges[k - 1].left == left && edges[k - 1].right == right {
            assert(rest.update(k - 1, Edge { left, right, repeated: true }).push(edges.last())
                =~= edges.update(k - 1, Edge { left, right, repeated: true }));
        } else {
            assert(rest.insert(k, Edge { left, right, repeated: false }).push(edges.last())
                =~= edges.insert(k, Edge { left, right, repeated: false }));
        }
    } else {
        assert(k == edges.len()) by {
            if k < edges.len() {
                assert(edge_before(left, right, edges[edges.len() - 1]));
            }
        }
        if edges.len() > 0 && edges.last().left == left && edges.last().right == right {
            assert(edges.drop_last().push(Edge { left, right, repeated: true }) =~= edges.update(
                k - 1,
                Edge { left, right, repeated: true },
            ));
        } else {
            assert(edges.push(Edge { left, right, repeated: false }) =~= edges.insert(
                k,
                Edge { left, right, repeated: false },
            ));
            assert(edges.len() == 0 ==> seq![Edge { left, right, repeated: false }]
                =~= edges.insert(k, Edge { left, right, repeated: false }));
        }
    }
}

/// Notes an edge in a sorted list.
pub fn note(edges: &mut Vec<Edge>, i: usize, j: usize)
    ensures
        final(edges)@ == spec_note(old(edges)@, i, j),
{
    let left: usize = if i < j {
        i
    } else {
        j
    };
    let right: usize = if i < j {
        j
    } else {
        i
    };
    let mut k: usize = edges.len();
    while k > 0 && (left < edges[k - 1].left || (left == edges[k - 1].left && right < edges[k
        - 1].right))
        invariant
            k <= edges.len(),
            edges@ == old(edges)@,
            forall|m: int| k <= m < edges.len() ==> edge_before(left, right, #[trigger] edges[m]),
        decreases k,
    {
        k -= 1;
    }
    proof {
        lemma_noted_at(edges@, left, right, k as int);
    }
    if k > 0 && edges[k - 1].left == left && edges[k - 1].right == right {
        edges.set(k - 1, Edge { left, right, repeated: true });
    } else {
        edges.insert(k, Edge { left, right, repeated: false });
    }
}

/// Twice the signed area of a triangle.
#[verifier::allow_in_spec]
pub fn triangle_area(a: Point, b: Point, c: Point) -> Double
    returns
        (b.x - a.x) * (c.y - a.y) - (b.y - a.y) * (c.x - a.x),
{
    (b.x - a.x) * (c.y - a.y) - (b.y - a.y) * (c.x - a.x)
}

/// The circle through the corners of a triangle: nothing where they are on a line.
#[derive(Clone, Copy, Debug, PartialEq, Eq, Structural)]
pub struct Circle {
    pub center: Point,
    /// The square of the radius and a little more.
    pub limit: Double,
}

/// A distance along both axes, squared.
#[verifier::allow_in_spec]
pub fn distance_squared(a: Point, b: Point) -> Double
    returns
        (a.x - b.x) * (a.x - b.x) + (a.y - b.y) * (a.y - b.y),
{
    let dx = a.x - b.x;
    let dy = a.y - b.y;
    dx * dx + dy * dy
}

/// Four times the signed area of a triangle.
#[verifier::allow_in_spec]
pub fn circle_denominator(a: Point, b: Point, c: Point) -> Double
    returns
        Double::integer(2) * (a.x * (b.y - c.y) + b.x * (c.y - a.y) + c.x * (a.y - b.y)),
{
    Double::integer(2) * (a.x * (b.y - c.y) + b.x * (c.y - a.y) + c.x * (a.y - b.y))
}

/// The middle of the circle through three points.
pub open spec fn spec_circle_center(a: Point, b: Point, c: Point) -> Point {
    let a_squared = a.x * a.x + a.y * a.y;
    let b_squared = b.x * b.x + b.y * b.y;
    let c_squared = c.x * c.x + c.y * c.y;
    Point {
        x: (a_squared * (b.y - c.y) + b_squared * (c.y - a.y) + c_squared * (a.y - b.y))
            / circle_denominator(a, b, c),
        y: (a_squared * (c.x - b.x) + b_squared * (a.x - c.x) + c_squared * (b.x - a.x))
            / circle_denominator(a, b, c),
    }
}

fn circle_center(a: Point, b: Point, c: Point) -> (r: Point)
    ensures
        r == spec_circle_center(a, b, c),
{
    let a_squared = a.x * a.x + a.y * a.y;
    let b_squared = b.x * b.x + b.y * b.y;
    let c_squared = c.x * c.x + c.y * c.y;
    let denominator = circle_denominator(a, b, c);
    Point {
        x: (a_squared * (b.y - c.y) + b_squared * (c.y - a.y) + c_squared * (a.y - b.y))
            / denominator,
        y: (a_squared * (c.x - b.x) + b_squared * (a.x - c.x) + c_squared * (b.x - a.x))
            / denominator,
    }
}

/// The circle through three points.
pub open spec fn spec_circumcircle(a: Point, b: Point, c: Point) -> Option<Circle> {
    let center = spec_circle_center(a, b, c);
    if circle_denominator(a, b, c).abs().at_most(Double::ratio(1, 1_000_000_000_000)) {
        None
    } else {
        Some(
            Circle {
                center,
                limit: distance_squared(center, a) + Double::ratio(1, 10_000_000_000),
            },
        )
    }
}

pub fn circumcircle(a: Point, b: Point, c: Point) -> (r: Option<Circle>)
    ensures
        r == spec_circumcircle(a, b, c),
{
    if circle_denominator(a, b, c).abs().at_most(Double::ratio(1, 1_000_000_000_000)) {
        return None;
    }
    let center = circle_center(a, b, c);
    Some(
        Circle {
            center,
            limit: distance_squared(center, a) + Double::ratio(1, 10_000_000_000),
        },
    )
}

/// Whether a circle holds a point, its edge and a little more included.
#[verifier::allow_in_spec]
pub fn holds(circle: Option<Circle>, point: Point) -> bool
    returns
        (match circle {
            Some(circle) => distance_squared(circle.center, point).at_most(circle.limit),
            None => false,
        }),
{
    match circle {
        Some(circle) => distance_squared(circle.center, point).at_most(circle.limit),
        None => false,
    }
}

/// The circle through the corners of a triangle.
pub open spec fn circle_of(points: Seq<Point>, triangle: Triangle) -> Option<Circle> {
    spec_circumcircle(
        points[triangle.a as int],
        points[triangle.b as int],
        points[triangle.c as int],
    )
}

/// Whether the circle through the corners of a triangle holds a point.
pub open spec fn spec_circumcircle_contains(
    points: Seq<Point>,
    triangle: Triangle,
    point: Point,
) -> bool {
    holds(circle_of(points, triangle), point)
}

/// The first `k` triangles without those whose circle holds a point.
pub open spec fn retained(
    points: Seq<Point>,
    triangles: Seq<Triangle>,
    point: Point,
    k: int,
) -> Seq<Triangle>
    decreases k,
{
    if k <= 0 {
        Seq::empty()
    } else if spec_circumcircle_contains(points, triangles[k - 1], point) {
        retained(points, triangles, point, k - 1)
    } else {
        retained(points, triangles, point, k - 1).push(triangles[k - 1])
    }
}

/// The edges of those of the first `k` triangles whose circle holds a point.
pub open spec fn cavity(
    points: Seq<Point>,
    triangles: Seq<Triangle>,
    point: Point,
    k: int,
) -> Seq<Edge>
    decreases k,
{
    if k <= 0 {
        Seq::empty()
    } else {
        let before = cavity(points, triangles, point, k - 1);
        let t = triangles[k - 1];
        if spec_circumcircle_contains(points, t, point) {
            spec_note(spec_note(spec_note(before, t.a, t.b), t.b, t.c), t.c, t.a)
        } else {
            before
        }
    }
}

/// The triangles from those of the first `k` edges that were met once to the point at `index`, but
/// for those without an area.
pub open spec fn fan(points: Seq<Point>, edges: Seq<Edge>, index: usize, k: int) -> Seq<Triangle>
    decreases k,
{
    if k <= 0 {
        Seq::empty()
    } else {
        let before = fan(points, edges, index, k - 1);
        let edge = edges[k - 1];
        if !edge.repeated && Double::ratio(1, 10_000_000_000).less(
            triangle_area(
                points[edge.left as int],
                points[edge.right as int],
                points[index as int],
            ).abs(),
        ) {
            before.push(Triangle { a: edge.left, b: edge.right, c: index })
        } else {
            before
        }
    }
}

/// The triangles after the point at `index` was added.
pub open spec fn added(points: Seq<Point>, triangles: Seq<Triangle>, index: usize) -> Seq<Triangle> {
    let point = points[index as int];
    let n = triangles.len() as int;
    let edges = cavity(points, triangles, point, n);
    retained(points, triangles, point, n) + fan(points, edges, index, edges.len() as int)
}

/// Points with the corners of a triangle around them.
pub open spec fn enclosed(points: Seq<Point>) -> Seq<Point> {
    let ten = Double::integer(10);
    points.push(Point { x: ten.negated(), y: ten.negated() }).push(
        Point { x: ten, y: ten.negated() },
    ).push(Point { x: Double::integer(0), y: ten })
}

/// The triangles after the first `k` points were added to the one around all points.
pub open spec fn grown(points: Seq<Point>, k: int) -> Seq<Triangle>
    decreases k,
{
    let n = points.len();
    if k <= 0 {
        seq![Triangle { a: n as usize, b: (n + 1) as usize, c: (n + 2) as usize }]
    } else {
        added(enclosed(points), grown(points, k - 1), (k - 1) as usize)
    }
}

/// Those of the first `k` triangles that have all corners among the first `count` points.
pub open spec fn inner(triangles: Seq<Triangle>, count: usize, k: int) -> Seq<Triangle>
    decreases k,
{
    if k <= 0 {
        Seq::empty()
    } else if triangles[k - 1].is_within(count as int) {
        inner(triangles, count, k - 1).push(triangles[k - 1])
    } else {
        inner(triangles, count, k - 1)
    }
}

/// The triangulation of points: nothing of fewer than three.
pub open spec fn spec_delaunay(points: Seq<Point>) -> Seq<Triangle> {
    if points.len() < 3 {
        Seq::empty()
    } else {
        let all = grown(points, points.len() as int);
        inner(all, points.len() as usize, all.len() as int)
    }
}

/// Corners that have been added so far: the first `k` points, and those around all points.
pub open spec fn is_known(index: usize, k: int, n: int) -> bool {
    index < k || n <= index < n + 3
}

/// A triangle with three different corners that have been added.
spec fn is_sound(triangle: Triangle, k: int, n: int) -> bool {
    &&& triangle.is_proper()
    &&& is_known(triangle.a, k, n)
    &&& is_known(triangle.b, k, n)
    &&& is_known(triangle.c, k, n)
}

/// An edge between two different corners that have been added.
spec fn is_sound_edge(edge: Edge, k: int, n: int) -> bool {
    edge.left < edge.right && is_known(edge.left, k, n) && is_known(edge.right, k, n)
}

proof fn lemma_noted_sound(edges: Seq<Edge>, left: usize, right: usize, k: int, n: int)
    requires
        left < right,
        is_known(left, k, n),
        is_known(right, k, n),
        forall|i: int| 0 <= i < edges.len() ==> is_sound_edge(#[trigger] edges[i], k, n),
    ensures
        forall|i: int|
            0 <= i < noted(edges, left, right).len() ==> is_sound_edge(
                #[trigger] noted(edges, left, right)[i],
                k,
                n,
            ),
    decreases edges.len(),
{
    if edges.len() > 0 && edge_before(left, right, edges.last()) {
        let rest = edges.drop_last();
        lemma_noted_sound(rest, left, right, k, n);
        assert(is_sound_edge(edges[edges.len() - 1], k, n));
        let result = noted(edges, left, right);
        assert(result == noted(rest, left, right).push(edges.last()));
        assert forall|i: int| 0 <= i < result.len() implies is_sound_edge(
            #[trigger] result[i],
            k,
            n,
        ) by {
            if i < result.len() - 1 {
                assert(result[i] == noted(rest, left, right)[i]);
            }
        }
    } else {
        let result = noted(edges, left, right);
        assert forall|i: int| 0 <= i < result.len() implies is_sound_edge(
            #[trigger] result[i],
            k,
            n,
        ) by {
            if i < edges.len() - 1 {
                assert(result[i] == edges[i]);
            } else if i < edges.len() {
                assert(is_sound_edge(edges[i], k, n));
            }
        }
    }
}

/// Notes the edges of the triangles whose circle holds a point, and keeps the others.
fn dig(
    points: &Vec<Point>,
    triangles: &Vec<Triangle>,
    circles: &Vec<Option<Circle>>,
    point: Point,
    Ghost(k): Ghost<int>,
    Ghost(n): Ghost<int>,
) -> (r: (Vec<Triangle>, Vec<Option<Circle>>, Vec<Edge>))
    requires
        circles.len() == triangles.len(),
        points.len() == n + 3,
        0 <= k <= n,
        forall|i: int| 0 <= i < triangles.len() ==> is_sound(#[trigger] triangles[i], k, n),
        forall|i: int|
            0 <= i < circles.len() ==> #[trigger] circles[i] == circle_of(points@, triangles[i]),
    ensures
        r.0@ == retained(points@, triangles@, point, triangles.len() as int),
        r.1.len() == r.0.len(),
        forall|i: int|
            0 <= i < r.1.len() ==> #[trigger] r.1[i] == circle_of(points@, r.0[i]),
        forall|i: int| 0 <= i < r.0.len() ==> is_sound(#[trigger] r.0[i], k, n),
        r.2@ == cavity(points@, triangles@, point, triangles.len() as int),
        forall|i: int| 0 <= i < r.2.len() ==> is_sound_edge(#[trigger] r.2[i], k, n),
{
    let mut kept: Vec<Triangle> = Vec::new();
    let mut kept_circles: Vec<Option<Circle>> = Vec::new();
    let mut edges: Vec<Edge> = Vec::new();
    let mut i: usize = 0;
    while i < triangles.len()
        invariant
            i <= triangles.len(),
            circles.len() == triangles.len(),
                points.len() == n + 3,
            0 <= k <= n,
            forall|m: int| 0 <= m < triangles.len() ==> is_sound(#[trigger] triangles[m], k, n),
            forall|m: int|
                0 <= m < circles.len() ==> #[trigger] circles[m] == circle_of(
                    points@,
                    triangles[m],
                ),
            kept@ == retained(points@, triangles@, point, i as int),
            kept_circles.len() == kept.len(),
            forall|m: int|
                0 <= m < kept_circles.len() ==> #[trigger] kept_circles[m] == circle_of(
                    points@,
                    kept[m],
                ),
            forall|m: int| 0 <= m < kept.len() ==> is_sound(#[trigger] kept[m], k, n),
            edges@ == cavity(points@, triangles@, point, i as int),
            forall|m: int| 0 <= m < edges.len() ==> is_sound_edge(#[trigger] edges[m], k, n),
        decreases triangles.len() - i,
    {
        let triangle = triangles[i];
        assert(circles[i as int] == circle_of(points@, triangle));
        assert(is_sound(triangles[i as int], k, n));
        if holds(circles[i], point) {
            proof {
                lemma_note_sound(edges@, triangle.a, triangle.b, k, n);
            }
            note(&mut edges, triangle.a, triangle.b);
            proof {
                lemma_note_sound(edges@, triangle.b, triangle.c, k, n);
            }
            note(&mut edges, triangle.b, triangle.c);
            proof {
                lemma_note_sound(edges@, triangle.c, triangle.a, k, n);
            }
            note(&mut edges, triangle.c, triangle.a);
        } else {
            kept.push(triangle);
            kept_circles.push(circles[i]);
        }
        i += 1;
    }
    (kept, kept_circles, edges)
}

proof fn lemma_note_sound(edges: Seq<Edge>, i: usize, j: usize, k: int, n: int)
    requires
        i != j,
        is_known(i, k, n),
        is_known(j, k, n),
        forall|m: int| 0 <= m < edges.len() ==> is_sound_edge(#[trigger] edges[m], k, n),
    ensures
        forall|m: int|
            0 <= m < spec_note(edges, i, j).len() ==> is_sound_edge(
                #[trigger] spec_note(edges, i, j)[m],
                k,
                n,
            ),
{
    if i < j {
        lemma_noted_sound(edges, i, j, k, n);
    } else {
        lemma_noted_sound(edges, j, i, k, n);
    }
}

/// Adds the point at `index`.
fn add_point(
    points: &Vec<Point>,
    triangles: &Vec<Triangle>,
    circles: &Vec<Option<Circle>>,
    index: usize,
    Ghost(n): Ghost<int>,
) -> (r: (Vec<Triangle>, Vec<Option<Circle>>))
    requires
        circles.len() == triangles.len(),
        points.len() == n + 3,
        index < n,
        forall|i: int|
            0 <= i < triangles.len() ==> is_sound(#[trigger] triangles[i], index as int, n),
        forall|i: int|
            0 <= i < circles.len() ==> #[trigger] circles[i] == circle_of(points@, triangles[i]),
    ensures
        r.0@ == added(points@, triangles@, index),
        r.1.len() == r.0.len(),
        forall|i: int| 0 <= i < r.0.len() ==> is_sound(#[trigger] r.0[i], index + 1, n),
        forall|i: int| 0 <= i < r.1.len() ==> #[trigger] r.1[i] == circle_of(points@, r.0[i]),
{
    let point = points[index];
    let (kept, kept_circles, edges) = dig(
        points,
        triangles,
        circles,
        point,
        Ghost(index as int),
        Ghost(n),
    );
    let ghost base = kept@;
    let mut grown = kept;
    let mut grown_circles = kept_circles;
    let mut i: usize = 0;
    assert forall|m: int| 0 <= m < grown.len() implies is_sound(
        #[trigger] grown[m],
        index + 1,
        n,
    ) by {
        assert(is_sound(kept[m], index as int, n));
    }
    assert(grown@ =~= base + fan(points@, edges@, index, 0));
    while i < edges.len()
        invariant
            i <= edges.len(),
            points.len() == n + 3,
            index < n,
            point == points[index as int],
            forall|m: int|
                0 <= m < edges.len() ==> is_sound_edge(#[trigger] edges[m], index as int, n),
            grown@ == base + fan(points@, edges@, index, i as int),
            grown_circles.len() == grown.len(),
            forall|m: int| 0 <= m < grown.len() ==> is_sound(#[trigger] grown[m], index + 1, n),
            forall|m: int|
                0 <= m < grown_circles.len() ==> #[trigger] grown_circles[m] == circle_of(
                    points@,
                    grown[m],
                ),
        decreases edges.len() - i,
    {
        let edge = edges[i];
        assert(is_sound_edge(edges[i as int], index as int, n));
        let ghost before = grown@;
        if !edge.repeated && Double::ratio(1, 10_000_000_000).less(
            triangle_area(points[edge.left], points[edge.right], point).abs(),
        ) {
            grown.push(Triangle { a: edge.left, b: edge.right, c: index });
            grown_circles.push(circumcircle(points[edge.left], points[edge.right], point));
            assert(grown@ =~= base + fan(points@, edges@, index, i + 1));
        }
        i += 1;
    }
    (grown, grown_circles)
}

fn enclose(points: &Vec<Point>) -> (r: Vec<Point>)
    ensures
        r@ == enclosed(points@),
{
    let ten = Double::integer(10);
    let mut work = points.clone();
    assert(work@ =~= points@);
    work.push(Point { x: ten.negated(), y: ten.negated() });
    work.push(Point { x: ten, y: ten.negated() });
    work.push(Point { x: Double::integer(0), y: ten });
    work
}

/// Triangulates points.
pub fn delaunay_triangles(points: &Vec<Point>) -> (r: Vec<Triangle>)
    requires
        points.len() <= usize::MAX - 3,
    ensures
        r@ == spec_delaunay(points@),
        forall|i: int|
            0 <= i < r.len() ==> (#[trigger] r[i]).is_within(points.len() as int)
                && r[i].is_proper(),
{
    let n: usize = points.len();
    if n < 3 {
        return Vec::new();
    }
    let work = enclose(points);
    let mut triangles: Vec<Triangle> = Vec::new();
    let mut circles: Vec<Option<Circle>> = Vec::new();
    triangles.push(Triangle { a: n, b: n + 1, c: n + 2 });
    circles.push(circumcircle(work[n], work[n + 1], work[n + 2]));
    assert(triangles@ =~= grown(points@, 0));
    let mut index: usize = 0;
    while index < n
        invariant
            n == points.len(),
            index <= n <= usize::MAX - 3,
            work@ == enclosed(points@),
            triangles@ == grown(points@, index as int),
            circles.len() == triangles.len(),
            forall|i: int|
                0 <= i < triangles.len() ==> is_sound(
                    #[trigger] triangles[i],
                    index as int,
                    n as int,
                ),
            forall|i: int|
                0 <= i < circles.len() ==> #[trigger] circles[i] == circle_of(
                    work@,
                    triangles[i],
                ),
        decreases n - index,
    {
        let (next, next_circles) = add_point(&work, &triangles, &circles, index, Ghost(n as int));
        triangles = next;
        circles = next_circles;
        index += 1;
    }
    let mut found: Vec<Triangle> = Vec::new();
    let mut i: usize = 0;
    while i < triangles.len()
        invariant
            i <= triangles.len(),
            n == points.len(),
            found@ == inner(triangles@, n, i as int),
            forall|m: int|
                0 <= m < triangles.len() ==> is_sound(#[trigger] triangles[m], n as int, n as int),
            forall|m: int|
                0 <= m < found.len() ==> (#[trigger] found[m]).is_within(n as int)
                    && found[m].is_proper(),
        decreases triangles.len() - i,
    {
        let triangle = triangles[i];
        assert(is_sound(triangles[i as int], n as int, n as int));
        if triangle.a < n && triangle.b < n && triangle.c < n {
            found.push(triangle);
        }
        i += 1;
    }
    found
}

/// What is known of a triangle after `k` points were added: it is the one around all points, or
/// its corners come in their order, the last one with a point that was added, and its circle holds
/// no point that was added later.
spec fn is_delaunay(points: Seq<Point>, triangle: Triangle, k: int) -> bool {
    let n = points.len() as int;
    ||| triangle == Triangle { a: n as usize, b: (n + 1) as usize, c: (n + 2) as usize }
    ||| {
        &&& triangle.c < k
        &&& triangle.a < triangle.b
        &&& is_known(triangle.a, triangle.c as int, n)
        &&& is_known(triangle.b, triangle.c as int, n)
        &&& forall|m: int|
            triangle.c < m < k ==> !spec_circumcircle_contains(
                enclosed(points),
                triangle,
                #[trigger] points[m],
            )
    }
}

pub(crate) proof fn lemma_retained(points: Seq<Point>, triangles: Seq<Triangle>, point: Point, k: int)
    requires
        0 <= k <= triangles.len(),
    ensures
        forall|i: int|
            0 <= i < retained(points, triangles, point, k).len() ==> {
                let t = #[trigger] retained(points, triangles, point, k)[i];
                triangles.contains(t) && !spec_circumcircle_contains(points, t, point)
            },
    decreases k,
{
    if k > 0 {
        lemma_retained(points, triangles, point, k - 1);
        let before = retained(points, triangles, point, k - 1);
        let after = retained(points, triangles, point, k);
        assert forall|i: int| 0 <= i < after.len() implies triangles.contains(
            #[trigger] after[i],
        ) && !spec_circumcircle_contains(points, after[i], point) by {
            if i < before.len() {
                assert(after[i] == before[i]);
            } else {
                assert(after[i] == triangles[k - 1]);
            }
        }
    }
}

proof fn lemma_cavity_sound(
    points: Seq<Point>,
    triangles: Seq<Triangle>,
    point: Point,
    count: int,
    k: int,
    n: int,
)
    requires
        0 <= count <= triangles.len(),
        forall|i: int| 0 <= i < triangles.len() ==> is_sound(#[trigger] triangles[i], k, n),
    ensures
        forall|i: int|
            0 <= i < cavity(points, triangles, point, count).len() ==> is_sound_edge(
                #[trigger] cavity(points, triangles, point, count)[i],
                k,
                n,
            ),
    decreases count,
{
    if count > 0 {
        lemma_cavity_sound(points, triangles, point, count - 1, k, n);
        let before = cavity(points, triangles, point, count - 1);
        let t = triangles[count - 1];
        assert(is_sound(t, k, n));
        lemma_note_sound(before, t.a, t.b, k, n);
        let first = spec_note(before, t.a, t.b);
        lemma_note_sound(first, t.b, t.c, k, n);
        lemma_note_sound(spec_note(first, t.b, t.c), t.c, t.a, k, n);
    }
}

proof fn lemma_fan(points: Seq<Point>, edges: Seq<Edge>, index: usize, k: int, n: int)
    requires
        0 <= k <= edges.len(),
        forall|i: int| 0 <= i < edges.len() ==> is_sound_edge(#[trigger] edges[i], index as int, n),
    ensures
        forall|i: int|
            0 <= i < fan(points, edges, index, k).len() ==> {
                let t = #[trigger] fan(points, edges, index, k)[i];
                &&& t.c == index
                &&& t.a < t.b
                &&& is_known(t.a, index as int, n)
                &&& is_known(t.b, index as int, n)
            },
    decreases k,
{
    if k > 0 {
        lemma_fan(points, edges, index, k - 1, n);
        assert(is_sound_edge(edges[k - 1], index as int, n));
        let before = fan(points, edges, index, k - 1);
        let after = fan(points, edges, index, k);
        assert forall|i: int| 0 <= i < after.len() implies {
            let t = #[trigger] after[i];
            &&& t.c == index
            &&& t.a < t.b
            &&& is_known(t.a, index as int, n)
            &&& is_known(t.b, index as int, n)
        } by {
            if i < before.len() {
                assert(after[i] == before[i]);
            }
        }
    }
}

proof fn lemma_grown(points: Seq<Point>, k: int)
    requires
        0 <= k <= points.len(),
        points.len() <= usize::MAX - 3,
    ensures
        forall|i: int|
            0 <= i < grown(points, k).len() ==> is_delaunay(points, #[trigger] grown(points, k)[i], k),
    decreases k,
{
    if k > 0 {
        lemma_grown(points, k - 1);
        let all = enclosed(points);
        let before = grown(points, k - 1);
        let after = grown(points, k);
        let index = (k - 1) as usize;
        let point = all[k - 1];
        let n = points.len() as int;
        assert(point == points[k - 1]);
        assert forall|i: int| 0 <= i < before.len() implies is_sound(
            #[trigger] before[i],
            k - 1,
            n,
        ) by {
            assert(is_delaunay(points, before[i], k - 1));
        }
        let edges = cavity(all, before, point, before.len() as int);
        lemma_cavity_sound(all, before, point, before.len() as int, k - 1, n);
        lemma_retained(all, before, point, before.len() as int);
        lemma_fan(all, edges, index, edges.len() as int, n);
        let kept = retained(all, before, point, before.len() as int);
        let new = fan(all, edges, index, edges.len() as int);
        assert(after == kept + new);
        assert forall|i: int| 0 <= i < after.len() implies is_delaunay(
            points,
            #[trigger] after[i],
            k,
        ) by {
            let t = after[i];
            if i < kept.len() {
                assert(t == kept[i]);
                let j = choose|j: int| 0 <= j < before.len() && before[j] == t;
                assert(is_delaunay(points, before[j], k - 1));
            } else {
                assert(t == new[i - kept.len()]);
            }
        }
    }
}

proof fn lemma_inner(triangles: Seq<Triangle>, count: usize, k: int)
    requires
        0 <= k <= triangles.len(),
    ensures
        forall|i: int|
            0 <= i < inner(triangles, count, k).len() ==> {
                let t = #[trigger] inner(triangles, count, k)[i];
                triangles.contains(t) && t.is_within(count as int)
            },
    decreases k,
{
    if k > 0 {
        lemma_inner(triangles, count, k - 1);
        let before = inner(triangles, count, k - 1);
        let after = inner(triangles, count, k);
        assert forall|i: int| 0 <= i < after.len() implies triangles.contains(
            #[trigger] after[i],
        ) && after[i].is_within(count as int) by {
            if i < before.len() {
                assert(after[i] == before[i]);
            } else {
                assert(after[i] == triangles[k - 1]);
            }
        }
    }
}

/// The circles of a triangulation are empty: the corners of a triangle come in their order, and
/// its circle holds no point that comes after the last of them.
pub proof fn law_circles_are_empty(points: Seq<Point>, i: int)
    requires
        points.len() <= usize::MAX - 3,
        0 <= i < spec_delaunay(points).len(),
    ensures
        ({
            let t = spec_delaunay(points)[i];
            &&& t.a < t.b < t.c < points.len()
            &&& forall|m: int|
                t.c < m < points.len() ==> !spec_circumcircle_contains(
                    points,
                    t,
                    #[trigger] points[m],
                )
        }),
{
    let n = points.len() as int;
    let all = grown(points, n);
    let t = spec_delaunay(points)[i];
    lemma_grown(points, n);
    lemma_inner(all, n as usize, all.len() as int);
    let j = choose|j: int| 0 <= j < all.len() && all[j] == t;
    assert(is_delaunay(points, all[j], n));
    assert(circle_of(points, t) == circle_of(enclosed(points), t));
}

/// Whether a ray from a point to the right crosses the side of a polygon that ends at corner `i`.
pub open spec fn crosses(point: Point, polygon: Seq<Point>, i: int) -> bool {
    let a = polygon[i];
    let b = polygon[if i == 0 {
        polygon.len() - 1
    } else {
        i - 1
    }];
    point.y.less(a.y) != point.y.less(b.y) && point.x.less(
        (b.x - a.x) * (point.y - a.y) / (b.y - a.y) + a.x,
    )
}

/// Whether a ray from a point to the right crosses an odd number of the sides that end at the
/// first `k` corners.
pub open spec fn is_odd(point: Point, polygon: Seq<Point>, k: int) -> bool
    decreases k,
{
    if k <= 0 {
        false
    } else {
        is_odd(point, polygon, k - 1) != crosses(point, polygon, k - 1)
    }
}

/// Whether a polygon holds a point; never of fewer than three corners.
pub open spec fn spec_point_in_polygon(point: Point, polygon: Seq<Point>) -> bool {
    polygon.len() >= 3 && is_odd(point, polygon, polygon.len() as int)
}

pub fn point_in_polygon(point: Point, polygon: &Vec<Point>) -> (r: bool)
    ensures
        r == spec_point_in_polygon(point, polygon@),
{
    if polygon.len() < 3 {
        return false;
    }
    let mut inside = false;
    let mut previous: usize = polygon.len() - 1;
    let mut current: usize = 0;
    while current < polygon.len()
        invariant
            current <= polygon.len(),
            polygon.len() >= 3,
            previous == if current == 0 {
                polygon.len() - 1
            } else {
                current - 1
            },
            inside == is_odd(point, polygon@, current as int),
        decreases polygon.len() - current,
    {
        let a = polygon[current];
        let b = polygon[previous];
        if point.y.less(a.y) != point.y.less(b.y) && point.x.less(
            (b.x - a.x) * (point.y - a.y) / (b.y - a.y) + a.x,
        ) {
            inside = !inside;
        }
        previous = current;
        current += 1;
    }
    inside
}

} // verus!
