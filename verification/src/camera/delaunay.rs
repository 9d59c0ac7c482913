//! What a triangulation holds: every triangle with an empty circle, once.

use vstd::prelude::*;
use crate::camera::pencil;
use crate::camera::pencil::Place;
use crate::camera::triangulation::{
    added, cavity, edge_before, enclosed, fan, grown, inner, is_known, noted, retained,
    spec_circumcircle_contains, spec_delaunay, spec_note, triangle_area, Edge, Triangle,
};
use crate::double::Double;
use crate::model::Point;

verus! {

/// Edges in a strict order.
spec fn is_sorted(edges: Seq<Edge>) -> bool {
    forall|i: int, j: int|
        0 <= i < j < edges.len() ==> edge_before(
            (#[trigger] edges[i]).left,
            edges[i].right,
            #[trigger] edges[j],
        )
}

/// An edge is in the list, as one that was met once or more often.
spec fn is_marked(edges: Seq<Edge>, left: usize, right: usize, repeated: bool) -> bool {
    exists|i: int| 0 <= i < edges.len() && #[trigger] edges[i] == (Edge { left, right, repeated })
}

/// How an edge is marked once another one has been noted.
spec fn is_marked_after(
    edges: Seq<Edge>,
    left: usize,
    right: usize,
    x: usize,
    y: usize,
    repeated: bool,
) -> bool {
    if x == left && y == right {
        repeated == (is_marked(edges, left, right, true) || is_marked(edges, left, right, false))
    } else {
        is_marked(edges, x, y, repeated)
    }
}

proof fn lemma_marked_pushed(edges: Seq<Edge>, edge: Edge, x: usize, y: usize, repeated: bool)
    ensures
        is_marked(edges.push(edge), x, y, repeated) == (is_marked(edges, x, y, repeated) || edge
            == (Edge { left: x, right: y, repeated })),
{
    let all = edges.push(edge);
    if is_marked(edges, x, y, repeated) {
        let i = choose|i: int|
            0 <= i < edges.len() && #[trigger] edges[i] == (Edge { left: x, right: y, repeated });
        assert(all[i] == edges[i]);
    }
    assert(all[edges.len() as int] == edge);
    if is_marked(all, x, y, repeated) {
        let i = choose|i: int|
            0 <= i < all.len() && #[trigger] all[i] == (Edge { left: x, right: y, repeated });
        if i < edges.len() {
            assert(edges[i] == all[i]);
        }
    }
}

proof fn lemma_noted_marks(
    edges: Seq<Edge>,
    left: usize,
    right: usize,
    x: usize,
    y: usize,
    repeated: bool,
)
    requires
        is_sorted(edges),
    ensures
        is_marked(noted(edges, left, right), x, y, repeated) == is_marked_after(
            edges,
            left,
            right,
            x,
            y,
            repeated,
        ),
    decreases edges.len(),
{
    if edges.len() == 0 {
        let e = Edge { left, right, repeated: false };
        lemma_marked_pushed(edges, e, x, y, repeated);
        assert(edges.push(e) =~= seq![e]);
        assert(!is_marked(edges, left, right, true) && !is_marked(edges, left, right, false));
        assert(!is_marked(edges, x, y, repeated));
    } else {
        let last = edges.last();
        let rest = edges.drop_last();
        assert(edges =~= rest.push(last));
        assert forall|i: int, j: int| 0 <= i < j < rest.len() implies edge_before(
            (#[trigger] rest[i]).left,
            rest[i].right,
            #[trigger] rest[j],
        ) by {
            assert(edge_before(edges[i].left, edges[i].right, edges[j]));
        }
        assert forall|r: bool| !(#[trigger] is_marked(rest, last.left, last.right, r)) by {
            if is_marked(rest, last.left, last.right, r) {
                let i = choose|i: int|
                    0 <= i < rest.len() && #[trigger] rest[i] == (Edge {
                        left: last.left,
                        right: last.right,
                        repeated: r,
                    });
                assert(edge_before(edges[i].left, edges[i].right, edges[edges.len() - 1]));
            }
        }
        lemma_marked_pushed(rest, last, x, y, repeated);
        lemma_marked_pushed(rest, last, left, right, true);
        lemma_marked_pushed(rest, last, left, right, false);
        if edge_before(left, right, last) {
            lemma_noted_marks(rest, left, right, x, y, repeated);
            lemma_marked_pushed(noted(rest, left, right), last, x, y, repeated);
        } else if left == last.left && right == last.right {
            lemma_marked_pushed(rest, Edge { left, right, repeated: true }, x, y, repeated);
        } else {
            lemma_marked_pushed(edges, Edge { left, right, repeated: false }, x, y, repeated);
            assert forall|r: bool| !(#[trigger] is_marked(edges, left, right, r)) by {
                if is_marked(edges, left, right, r) {
                    let i = choose|i: int|
                        0 <= i < edges.len() && #[trigger] edges[i] == (Edge {
                            left,
                            right,
                            repeated: r,
                        });
                    if i < edges.len() - 1 {
                        assert(edge_before(edges[i].left, edges[i].right, edges[edges.len() - 1]));
                    }
                }
            }
        }
    }
}

proof fn lemma_noted_sorted(edges: Seq<Edge>, left: usize, right: usize)
    requires
        is_sorted(edges),
    ensures
        is_sorted(noted(edges, left, right)),
    decreases edges.len(),
{
    if edges.len() > 0 {
        let last = edges.last();
        let rest = edges.drop_last();
        let n = edges.len() as int;
        assert forall|i: int, j: int| 0 <= i < j < rest.len() implies edge_before(
            (#[trigger] rest[i]).left,
            rest[i].right,
            #[trigger] rest[j],
        ) by {
            assert(edge_before(edges[i].left, edges[i].right, edges[j]));
        }
        let result = noted(edges, left, right);
        if edge_before(left, right, last) {
            lemma_noted_sorted(rest, left, right);
            let before = noted(rest, left, right);
            assert(result == before.push(last));
            assert forall|i: int, j: int| 0 <= i < j < result.len() implies edge_before(
                (#[trigger] result[i]).left,
                result[i].right,
                #[trigger] result[j],
            ) by {
                if j < before.len() {
                    assert(edge_before(before[i].left, before[i].right, before[j]));
                } else {
                    let e = before[i];
                    assert(result[i] == e);
                    assert(before[i] == (Edge {
                        left: e.left,
                        right: e.right,
                        repeated: e.repeated,
                    }));
                    assert(is_marked(before, e.left, e.right, e.repeated));
                    lemma_noted_marks(rest, left, right, e.left, e.right, e.repeated);
                    if e.left != left || e.right != right {
                        let m = choose|m: int|
                            0 <= m < rest.len() && #[trigger] rest[m] == (Edge {
                                left: e.left,
                                right: e.right,
                                repeated: e.repeated,
                            });
                        assert(edge_before(edges[m].left, edges[m].right, edges[n - 1]));
                    }
                }
            }
        } else {
            assert forall|i: int, j: int| 0 <= i < j < result.len() implies edge_before(
                (#[trigger] result[i]).left,
                result[i].right,
                #[trigger] result[j],
            ) by {
                if j < n {
                    assert(edge_before(edges[i].left, edges[i].right, edges[j]));
                } else if i < n - 1 {
                    assert(edge_before(edges[i].left, edges[i].right, edges[n - 1]));
                }
            }
        }
    }
}

/// Two points are corners of a triangle.
spec fn has_edge(t: Triangle, l: usize, r: usize) -> bool {
    ||| (l == t.a && r == t.b) || (l == t.b && r == t.a)
    ||| (l == t.b && r == t.c) || (l == t.c && r == t.b)
    ||| (l == t.c && r == t.a) || (l == t.a && r == t.c)
}

/// A triangle with an edge whose circle holds a point.
spec fn is_hit(points: Seq<Point>, t: Triangle, point: Point, l: usize, r: usize) -> bool {
    spec_circumcircle_contains(points, t, point) && has_edge(t, l, r)
}

/// How many of the first `k` triangles have an edge and a circle that holds a point.
spec fn hits(
    points: Seq<Point>,
    triangles: Seq<Triangle>,
    point: Point,
    l: usize,
    r: usize,
    k: int,
) -> nat
    decreases k,
{
    if k <= 0 {
        0
    } else {
        hits(points, triangles, point, l, r, k - 1) + if is_hit(
            points,
            triangles[k - 1],
            point,
            l,
            r,
        ) {
            1nat
        } else {
            0nat
        }
    }
}

/// The marks of the edges of a cavity say how often an edge was hit.
proof fn lemma_cavity_marks(
    points: Seq<Point>,
    triangles: Seq<Triangle>,
    point: Point,
    k: int,
    l: usize,
    r: usize,
)
    requires
        0 <= k <= triangles.len(),
        l < r,
        forall|i: int| 0 <= i < triangles.len() ==> (#[trigger] triangles[i]).is_proper(),
    ensures
        is_sorted(cavity(points, triangles, point, k)),
        is_marked(cavity(points, triangles, point, k), l, r, false) == (hits(
            points,
            triangles,
            point,
            l,
            r,
            k,
        ) == 1),
        is_marked(cavity(points, triangles, point, k), l, r, true) == (hits(
            points,
            triangles,
            point,
            l,
            r,
            k,
        ) >= 2),
    decreases k,
{
    if k > 0 {
        lemma_cavity_marks(points, triangles, point, k - 1, l, r);
        let e0 = cavity(points, triangles, point, k - 1);
        let t = triangles[k - 1];
        assert(t.is_proper());
        if spec_circumcircle_contains(points, t, point) {
            let e1 = spec_note(e0, t.a, t.b);
            let e2 = spec_note(e1, t.b, t.c);
            lemma_note(e0, t.a, t.b, l, r);
            lemma_note(e1, t.b, t.c, l, r);
            lemma_note(e2, t.c, t.a, l, r);
        }
    } else {
        let none = cavity(points, triangles, point, k);
        assert(none.len() == 0);
    }
}

/// What noting an edge does to the marks of another one.
proof fn lemma_note(edges: Seq<Edge>, i: usize, j: usize, l: usize, r: usize)
    requires
        is_sorted(edges),
        l < r,
        i != j,
    ensures
        is_sorted(spec_note(edges, i, j)),
        ({
            let after = spec_note(edges, i, j);
            if (l == i && r == j) || (l == j && r == i) {
                let there = is_marked(edges, l, r, true) || is_marked(edges, l, r, false);
                &&& is_marked(after, l, r, true) == there
                &&& is_marked(after, l, r, false) == !there
            } else {
                &&& is_marked(after, l, r, true) == is_marked(edges, l, r, true)
                &&& is_marked(after, l, r, false) == is_marked(edges, l, r, false)
            }
        }),
{
    let (x, y) = if i < j {
        (i, j)
    } else {
        (j, i)
    };
    lemma_noted_sorted(edges, x, y);
    lemma_noted_marks(edges, x, y, l, r, true);
    lemma_noted_marks(edges, x, y, l, r, false);
}

/// What the number of hits says.
proof fn lemma_hits(
    points: Seq<Point>,
    triangles: Seq<Triangle>,
    point: Point,
    l: usize,
    r: usize,
    k: int,
)
    requires
        0 <= k <= triangles.len(),
    ensures
        hits(points, triangles, point, l, r, k) >= 1 <==> exists|i: int|
            0 <= i < k && is_hit(points, #[trigger] triangles[i], point, l, r),
        hits(points, triangles, point, l, r, k) >= 2 <==> exists|i: int, j: int|
            0 <= i < j < k && is_hit(points, #[trigger] triangles[i], point, l, r) && is_hit(
                points,
                #[trigger] triangles[j],
                point,
                l,
                r,
            ),
    decreases k,
{
    if k > 0 {
        lemma_hits(points, triangles, point, l, r, k - 1);
        let before = hits(points, triangles, point, l, r, k - 1);
        let now = is_hit(points, triangles[k - 1], point, l, r);
        if before >= 1 {
            let i = choose|i: int|
                0 <= i < k - 1 && is_hit(points, #[trigger] triangles[i], point, l, r);
            assert(0 <= i < k && is_hit(points, triangles[i], point, l, r));
            if now {
                assert(0 <= i < k - 1 && is_hit(points, triangles[i], point, l, r) && is_hit(
                    points,
                    triangles[k - 1],
                    point,
                    l,
                    r,
                ));
            }
        }
        if before >= 2 {
            let (i, j) = choose|i: int, j: int|
                0 <= i < j < k - 1 && is_hit(points, #[trigger] triangles[i], point, l, r)
                    && is_hit(points, #[trigger] triangles[j], point, l, r);
            assert(0 <= i < j < k && is_hit(points, triangles[i], point, l, r) && is_hit(
                points,
                triangles[j],
                point,
                l,
                r,
            ));
        }
        if now {
            assert(is_hit(points, triangles[k - 1], point, l, r));
        }
    }
}

/// Which triangles are kept.
proof fn lemma_retained_holds(
    points: Seq<Point>,
    triangles: Seq<Triangle>,
    point: Point,
    k: int,
    t: Triangle,
)
    requires
        0 <= k <= triangles.len(),
    ensures
        retained(points, triangles, point, k).contains(t) <==> exists|i: int|
            0 <= i < k && #[trigger] triangles[i] == t && !spec_circumcircle_contains(
                points,
                t,
                point,
            ),
        triangles.no_duplicates() ==> retained(points, triangles, point, k).no_duplicates(),
    decreases k,
{
    if k > 0 {
        lemma_retained_holds(points, triangles, point, k - 1, t);
        let before = retained(points, triangles, point, k - 1);
        let after = retained(points, triangles, point, k);
        let last = triangles[k - 1];
        if before.contains(t) {
            let m = choose|m: int| 0 <= m < before.len() && before[m] == t;
            assert(after[m] == t);
        }
        if !spec_circumcircle_contains(points, last, point) {
            assert(after[before.len() as int] == last);
        }
        if after.contains(t) {
            let m = choose|m: int| 0 <= m < after.len() && after[m] == t;
            if m < before.len() {
                assert(before[m] == t);
            }
        }
        if triangles.no_duplicates() && !spec_circumcircle_contains(points, last, point) {
            lemma_retained_holds(points, triangles, point, k - 1, last);
            assert(!before.contains(last));
            assert forall|i: int, j: int|
                0 <= i < after.len() && 0 <= j < after.len() && i != j implies after[i]
                != after[j] by {
                if i < before.len() && j < before.len() {
                    assert(before[i] != before[j]);
                } else if i < before.len() {
                    assert(before[i] == after[i]);
                    assert(before.contains(before[i]));
                } else {
                    assert(before[j] == after[j]);
                    assert(before.contains(before[j]));
                }
            }
        }
    }
}

/// Whether three points span enough of an area.
pub open spec fn is_wide(points: Seq<Point>, a: usize, b: usize, c: usize) -> bool {
    Double::ratio(1, 10_000_000_000).less(
        triangle_area(points[a as int], points[b as int], points[c as int]).abs(),
    )
}

/// Which triangles are new.
proof fn lemma_fan_holds(
    points: Seq<Point>,
    edges: Seq<Edge>,
    index: usize,
    k: int,
    t: Triangle,
)
    requires
        0 <= k <= edges.len(),
        is_sorted(edges),
    ensures
        fan(points, edges, index, k).contains(t) <==> t.c == index && is_wide(
            points,
            t.a,
            t.b,
            index,
        ) && exists|i: int|
            0 <= i < k && #[trigger] edges[i] == (Edge { left: t.a, right: t.b, repeated: false }),
        fan(points, edges, index, k).no_duplicates(),
    decreases k,
{
    if k > 0 {
        lemma_fan_holds(points, edges, index, k - 1, t);
        let before = fan(points, edges, index, k - 1);
        let after = fan(points, edges, index, k);
        let edge = edges[k - 1];
        let new = Triangle { a: edge.left, b: edge.right, c: index };
        lemma_fan_holds(points, edges, index, k - 1, new);
        assert(!before.contains(new)) by {
            if before.contains(new) {
                let i = choose|i: int|
                    0 <= i < k - 1 && #[trigger] edges[i] == (Edge {
                        left: new.a,
                        right: new.b,
                        repeated: false,
                    });
                assert(edge_before(edges[i].left, edges[i].right, edges[k - 1]));
            }
        }
        if before.contains(t) {
            let m = choose|m: int| 0 <= m < before.len() && before[m] == t;
            assert(after[m] == t);
        }
        let grows = !edge.repeated && is_wide(points, edge.left, edge.right, index);
        if grows {
            assert(after[before.len() as int] == new);
            assert forall|i: int, j: int|
                0 <= i < after.len() && 0 <= j < after.len() && i != j implies after[i]
                != after[j] by {
                if i < before.len() && j < before.len() {
                    assert(before[i] != before[j]);
                } else if i < before.len() {
                    assert(before[i] == after[i]);
                    assert(before.contains(before[i]));
                } else {
                    assert(before[j] == after[j]);
                    assert(before.contains(before[j]));
                }
            }
        }
        if after.contains(t) {
            let m = choose|m: int| 0 <= m < after.len() && after[m] == t;
            if m < before.len() {
                assert(before[m] == t);
            }
        }
    }
}

/// How late a point came: the corners around all points first, then the points in their order.
pub open spec fn age(i: usize, n: int) -> int {
    if i < n {
        i + 3
    } else {
        i - n
    }
}

/// A triangle of points that have been added, the last one of them at its end and the others in
/// their order.
pub open spec fn is_ordered(t: Triangle, k: int, n: int) -> bool {
    &&& is_known(t.a, k, n)
    &&& is_known(t.b, k, n)
    &&& is_known(t.c, k, n)
    &&& t.a < t.b
    &&& age(t.a, n) < age(t.c, n)
    &&& age(t.b, n) < age(t.c, n)
}

/// Some triangle hits where an edge is marked.
proof fn lemma_marked_is_edge(
    points: Seq<Point>,
    triangles: Seq<Triangle>,
    point: Point,
    k: int,
    n: int,
    l: usize,
    r: usize,
)
    requires
        forall|i: int| 0 <= i < triangles.len() ==> is_ordered(#[trigger] triangles[i], k, n),
        l < r,
        is_marked(cavity(points, triangles, point, triangles.len() as int), l, r, false),
    ensures
        is_known(l, k, n),
        is_known(r, k, n),
{
    let count = triangles.len() as int;
    assert forall|i: int| 0 <= i < triangles.len() implies (
    #[trigger] triangles[i]).is_proper() by {
        assert(is_ordered(triangles[i], k, n));
    }
    lemma_cavity_marks(points, triangles, point, count, l, r);
    lemma_hits(points, triangles, point, l, r, count);
    let i = choose|i: int|
        0 <= i < count && is_hit(points, #[trigger] triangles[i], point, l, r);
    assert(is_ordered(triangles[i], k, n));
}

/// Every edge of a cavity has its lower point first.
proof fn lemma_cavity_edges(
    points: Seq<Point>,
    triangles: Seq<Triangle>,
    point: Point,
    k: int,
    i: int,
)
    requires
        0 <= k <= triangles.len(),
        forall|m: int| 0 <= m < triangles.len() ==> (#[trigger] triangles[m]).is_proper(),
        0 <= i < cavity(points, triangles, point, k).len(),
    ensures
        cavity(points, triangles, point, k)[i].left < cavity(points, triangles, point, k)[i].right,
    decreases k,
{
    if k > 0 {
        let e0 = cavity(points, triangles, point, k - 1);
        let t = triangles[k - 1];
        assert(t.is_proper());
        lemma_cavity_marks(points, triangles, point, k - 1, 0, 1);
        assert forall|m: int| 0 <= m < e0.len() implies (#[trigger] e0[m]).left < e0[m].right by {
            lemma_cavity_edges(points, triangles, point, k - 1, m);
        }
        if spec_circumcircle_contains(points, t, point) {
            let e1 = spec_note(e0, t.a, t.b);
            let e2 = spec_note(e1, t.b, t.c);
            lemma_note_edges(e0, t.a, t.b);
            lemma_note_edges(e1, t.b, t.c);
            lemma_note_edges(e2, t.c, t.a);
        }
    }
}

proof fn lemma_note_edges(edges: Seq<Edge>, i: usize, j: usize)
    requires
        is_sorted(edges),
        i != j,
        forall|m: int| 0 <= m < edges.len() ==> (#[trigger] edges[m]).left < edges[m].right,
    ensures
        is_sorted(spec_note(edges, i, j)),
        forall|m: int|
            0 <= m < spec_note(edges, i, j).len() ==> (#[trigger] spec_note(edges, i, j)[m]).left
                < spec_note(edges, i, j)[m].right,
{
    let (x, y) = if i < j {
        (i, j)
    } else {
        (j, i)
    };
    let after = noted(edges, x, y);
    lemma_noted_sorted(edges, x, y);
    assert forall|m: int| 0 <= m < after.len() implies (#[trigger] after[m]).left
        < after[m].right by {
        let e = after[m];
        assert(after[m] == (Edge { left: e.left, right: e.right, repeated: e.repeated }));
        assert(is_marked(after, e.left, e.right, e.repeated));
        lemma_noted_marks(edges, x, y, e.left, e.right, e.repeated);
        if e.left != x || e.right != y {
            let o = choose|o: int|
                0 <= o < edges.len() && #[trigger] edges[o] == (Edge {
                    left: e.left,
                    right: e.right,
                    repeated: e.repeated,
                });
            assert(edges[o].left < edges[o].right);
        }
    }
}

/// The triangles after some points are ordered and differ.
proof fn lemma_grown_differ(points: Seq<Point>, k: int)
    requires
        0 <= k <= points.len(),
        points.len() <= usize::MAX - 3,
    ensures
        grown(points, k).no_duplicates(),
        forall|i: int|
            0 <= i < grown(points, k).len() ==> is_ordered(
                #[trigger] grown(points, k)[i],
                k,
                points.len() as int,
            ),
    decreases k,
{
    let n = points.len() as int;
    if k > 0 {
        lemma_grown_differ(points, k - 1);
        let all = enclosed(points);
        let before = grown(points, k - 1);
        let after = grown(points, k);
        let index = (k - 1) as usize;
        let point = all[k - 1];
        let count = before.len() as int;
        let edges = cavity(all, before, point, count);
        assert forall|i: int| 0 <= i < before.len() implies (#[trigger] before[i]).is_proper() by {
            assert(is_ordered(before[i], k - 1, n));
        }
        lemma_cavity_marks(all, before, point, count, 0, 1);
        let kept = retained(all, before, point, count);
        let new = fan(all, edges, index, edges.len() as int);
        assert(after == kept + new);
        assert forall|i: int| 0 <= i < kept.len() implies is_ordered(
            #[trigger] kept[i],
            k - 1,
            n,
        ) by {
            lemma_retained_holds(all, before, point, count, kept[i]);
            assert(kept.contains(kept[i]));
            let m = choose|m: int| 0 <= m < count && #[trigger] before[m] == kept[i];
            assert(is_ordered(before[m], k - 1, n));
        }
        assert forall|i: int| 0 <= i < new.len() implies (#[trigger] new[i]).c == index
            && is_ordered(new[i], k, n) by {
            let t = new[i];
            lemma_fan_holds(all, edges, index, edges.len() as int, t);
            assert(new.contains(t));
            let m = choose|m: int|
                0 <= m < edges.len() && #[trigger] edges[m] == (Edge {
                    left: t.a,
                    right: t.b,
                    repeated: false,
                });
            lemma_cavity_edges(all, before, point, count, m);
            assert(is_marked(edges, t.a, t.b, false));
            lemma_marked_is_edge(all, before, point, k - 1, n, t.a, t.b);
        }
        lemma_retained_holds(all, before, point, count, Triangle { a: 0, b: 0, c: 0 });
        lemma_fan_holds(
            all,
            edges,
            index,
            edges.len() as int,
            Triangle { a: 0, b: 0, c: 0 },
        );
        assert forall|i: int, j: int|
            0 <= i < after.len() && 0 <= j < after.len() && i != j implies after[i] != after[j] by {
            if i < kept.len() && j < kept.len() {
                assert(kept[i] != kept[j]);
            } else if i >= kept.len() && j >= kept.len() {
                assert(new[i - kept.len()] != new[j - kept.len()]);
            } else if i < kept.len() {
                assert(is_ordered(kept[i], k - 1, n));
                assert(new[j - kept.len()].c == index);
            } else {
                assert(is_ordered(kept[j], k - 1, n));
                assert(new[i - kept.len()].c == index);
            }
        }
        assert forall|i: int| 0 <= i < after.len() implies is_ordered(
            #[trigger] after[i],
            k,
            n,
        ) by {
            if i < kept.len() {
                assert(is_ordered(kept[i], k - 1, n));
            } else {
                assert(is_ordered(new[i - kept.len()], k, n));
            }
        }
    }
}

/// Which triangles have all corners among the points.
proof fn lemma_inner_holds(triangles: Seq<Triangle>, count: usize, k: int, t: Triangle)
    requires
        0 <= k <= triangles.len(),
    ensures
        inner(triangles, count, k).contains(t) <==> t.is_within(count as int) && exists|i: int|
            0 <= i < k && #[trigger] triangles[i] == t,
        triangles.no_duplicates() ==> inner(triangles, count, k).no_duplicates(),
    decreases k,
{
    if k > 0 {
        lemma_inner_holds(triangles, count, k - 1, t);
        let before = inner(triangles, count, k - 1);
        let after = inner(triangles, count, k);
        let last = triangles[k - 1];
        if before.contains(t) {
            let m = choose|m: int| 0 <= m < before.len() && before[m] == t;
            assert(after[m] == t);
        }
        if last.is_within(count as int) {
            assert(after[before.len() as int] == last);
        }
        if after.contains(t) {
            let m = choose|m: int| 0 <= m < after.len() && after[m] == t;
            if m < before.len() {
                assert(before[m] == t);
            }
        }
        if triangles.no_duplicates() && last.is_within(count as int) {
            lemma_inner_holds(triangles, count, k - 1, last);
            assert(!before.contains(last));
            assert forall|i: int, j: int|
                0 <= i < after.len() && 0 <= j < after.len() && i != j implies after[i]
                != after[j] by {
                if i < before.len() && j < before.len() {
                    assert(before[i] != before[j]);
                } else if i < before.len() {
                    assert(before[i] == after[i]);
                    assert(before.contains(before[i]));
                } else {
                    assert(before[j] == after[j]);
                    assert(before.contains(before[j]));
                }
            }
        }
    }
}

/// No triangle occurs twice, in whatever order its corners are named: they come in their order.
pub proof fn law_no_triangle_twice(points: Seq<Point>)
    requires
        points.len() <= usize::MAX - 3,
    ensures
        spec_delaunay(points).no_duplicates(),
        forall|i: int|
            0 <= i < spec_delaunay(points).len() ==> {
                let t = #[trigger] spec_delaunay(points)[i];
                t.a < t.b < t.c < points.len()
            },
{
    if points.len() >= 3 {
        let n = points.len() as int;
        let all = grown(points, n);
        lemma_grown_differ(points, n);
        lemma_inner_holds(all, n as usize, all.len() as int, Triangle { a: 0, b: 0, c: 0 });
        let found = spec_delaunay(points);
        assert forall|i: int| 0 <= i < found.len() implies {
            let t = #[trigger] found[i];
            t.a < t.b < t.c < points.len()
        } by {
            let t = found[i];
            lemma_inner_holds(all, n as usize, all.len() as int, t);
            assert(found.contains(t));
            let m = choose|m: int| 0 <= m < all.len() && #[trigger] all[m] == t;
            assert(is_ordered(all[m], n, n));
        }
    }
}

/// Where a point is, in units of the smallest positive double.
pub open spec fn place(points: Seq<Point>, i: usize) -> Place {
    Place { x: points[i as int].x.value(), y: points[i as int].y.value() }
}

/// Points in general position within the triangle around them: no three of them are on a line, no
/// four are on a circle, no triangle of them is too thin to be kept, and the test of a point
/// against the circle through three others is right.
pub open spec fn is_general(points: Seq<Point>) -> bool {
    let n = points.len() as int;
    let all = enclosed(points);
    &&& forall|a: usize, b: usize, c: usize|
        a < n + 3 && b < n + 3 && c < n + 3 && a != b && b != c && c != a ==> #[trigger]
            pencil::side(place(all, a), place(all, b), place(all, c)) != 0
    &&& forall|a: usize, b: usize, c: usize, m: usize|
        a < n + 3 && b < n + 3 && c < n + 3 && m < n + 3 && a != b && b != c && c != a && m != a
            && m != b && m != c ==> #[trigger] pencil::against(
            place(all, a),
            place(all, b),
            place(all, c),
            place(all, m),
        ) != 0
    &&& forall|t: Triangle| #[trigger] is_ordered(t, n, n) ==> is_wide(all, t.a, t.b, t.c)
    &&& forall|t: Triangle, m: usize|
        is_ordered(t, n, n) && m < n + 3 && m != t.a && m != t.b && m != t.c ==> #[trigger]
            spec_circumcircle_contains(all, t, all[m as int]) == pencil::is_inside(
            place(all, t.a),
            place(all, t.b),
            place(all, t.c),
            place(all, m),
        )
    &&& forall|m: usize|
        m < n ==> {
            let p = #[trigger] place(all, m);
            let c1 = place(all, n as usize);
            let c2 = place(all, (n + 1) as usize);
            let c3 = place(all, (n + 2) as usize);
            pencil::side(c1, c2, p) > 0 && pencil::side(c2, c3, p) > 0 && pencil::side(c3, c1, p)
                > 0
        }
}

/// The circle through three points holds none of the others that have been added, in exact
/// arithmetic.
spec fn is_free(all: Seq<Point>, a: usize, b: usize, c: usize, k: int, n: int) -> bool {
    forall|m: usize|
        is_known(m, k, n) && m != a && m != b && m != c ==> !pencil::is_inside(
            place(all, a),
            place(all, b),
            place(all, c),
            #[trigger] place(all, m),
        )
}

/// The order in which three points of a circle are named does not matter.
proof fn lemma_any_order(a: Place, b: Place, c: Place, q: Place)
    ensures
        pencil::is_inside(b, a, c, q) == pencil::is_inside(a, b, c, q),
        pencil::is_inside(b, c, a, q) == pencil::is_inside(a, b, c, q),
        pencil::is_inside(c, b, a, q) == pencil::is_inside(a, b, c, q),
        pencil::is_inside(c, a, b, q) == pencil::is_inside(a, b, c, q),
        pencil::is_inside(a, c, b, q) == pencil::is_inside(a, b, c, q),
{
    pencil::lemma_swapped(a, b, c, q);
    pencil::lemma_turned(a, b, c, q);
    pencil::lemma_swapped(b, c, a, q);
    pencil::lemma_turned(b, c, a, q);
    pencil::lemma_swapped(c, a, b, q);
}

proof fn lemma_free_any_order(all: Seq<Point>, a: usize, b: usize, c: usize, k: int, n: int)
    ensures
        is_free(all, b, a, c, k, n) == is_free(all, a, b, c, k, n),
        is_free(all, b, c, a, k, n) == is_free(all, a, b, c, k, n),
        is_free(all, c, b, a, k, n) == is_free(all, a, b, c, k, n),
        is_free(all, c, a, b, k, n) == is_free(all, a, b, c, k, n),
        is_free(all, a, c, b, k, n) == is_free(all, a, b, c, k, n),
{
    assert forall|m: usize| true implies {
        let (x, y, z) = (place(all, a), place(all, b), place(all, c));
        let q = #[trigger] place(all, m);
        &&& pencil::is_inside(y, x, z, q) == pencil::is_inside(x, y, z, q)
        &&& pencil::is_inside(y, z, x, q) == pencil::is_inside(x, y, z, q)
        &&& pencil::is_inside(z, y, x, q) == pencil::is_inside(x, y, z, q)
        &&& pencil::is_inside(z, x, y, q) == pencil::is_inside(x, y, z, q)
        &&& pencil::is_inside(x, z, y, q) == pencil::is_inside(x, y, z, q)
    } by {
        lemma_any_order(place(all, a), place(all, b), place(all, c), place(all, m));
    }
}

/// The point `x` closes a triangle over an edge whose circle is empty but for the new point `p`.
spec fn is_candidate(
    all: Seq<Point>,
    a: usize,
    b: usize,
    x: usize,
    p: usize,
    k: int,
    n: int,
) -> bool {
    &&& is_known(x, k, n)
    &&& x != a
    &&& x != b
    &&& is_free(all, a, b, x, k, n)
    &&& pencil::is_inside(place(all, a), place(all, b), place(all, x), place(all, p))
}

/// What general position says of the circles through two points.
proof fn lemma_general(points: Seq<Point>, a: usize, b: usize, q: usize, r: usize)
    requires
        is_general(points),
        points.len() <= usize::MAX - 3,
        a < points.len() + 3,
        b < points.len() + 3,
        q < points.len() + 3,
        r < points.len() + 3,
        a != b,
        q != a,
        q != b,
        r != a,
        r != b,
        q != r,
    ensures
        ({
            let all = enclosed(points);
            let (x, y, u, v) = (place(all, a), place(all, b), place(all, q), place(all, r));
            &&& pencil::side(x, y, u) != 0
            &&& pencil::side(x, y, v) != 0
            &&& pencil::is_inside(x, y, v, u) == if pencil::side(x, y, u) > 0 {
                pencil::is_before(x, y, u, v)
            } else {
                pencil::is_before(x, y, v, u)
            }
            &&& pencil::is_before(x, y, u, v) == !pencil::is_before(x, y, v, u)
        }),
{
    let all = enclosed(points);
    assert(pencil::side(place(all, a), place(all, b), place(all, q)) != 0);
    assert(pencil::side(place(all, a), place(all, b), place(all, r)) != 0);
    assert(pencil::against(place(all, a), place(all, b), place(all, r), place(all, q)) != 0);
    pencil::lemma_inside_before(place(all, a), place(all, b), place(all, r), place(all, q));
}

/// A point on one side of an edge.
spec fn is_on(all: Seq<Point>, a: usize, b: usize, i: int, left: bool, k: int, n: int) -> bool {
    &&& 0 <= i < n + 3
    &&& is_known(i as usize, k, n)
    &&& i != a
    &&& i != b
    &&& (pencil::side(place(all, a), place(all, b), place(all, i as usize)) > 0) == left
}

/// `i` meets an earlier circle through two points than `j`.
spec fn comes_before(all: Seq<Point>, a: usize, b: usize, i: int, j: int) -> bool {
    pencil::is_before(
        place(all, a),
        place(all, b),
        place(all, i as usize),
        place(all, j as usize),
    )
}

/// Of the first `m` points on one side of an edge, the one nearest to the circles on the other.
proof fn lemma_nearest_on(
    points: Seq<Point>,
    a: usize,
    b: usize,
    left: bool,
    k: int,
    m: int,
) -> (f: int)
    requires
        is_general(points),
        points.len() <= usize::MAX - 3,
        a < points.len() + 3,
        b < points.len() + 3,
        a != b,
        0 <= k <= points.len(),
        0 <= m <= points.len() + 3,
    ensures
        ({
            let all = enclosed(points);
            let n = points.len() as int;
            if f < 0 {
                forall|i: int| 0 <= i < m ==> !#[trigger] is_on(all, a, b, i, left, k, n)
            } else {
                &&& f < m
                &&& is_on(all, a, b, f, left, k, n)
                &&& forall|i: int|
                    0 <= i < m && i != f && #[trigger] is_on(all, a, b, i, left, k, n) ==> if left {
                        comes_before(all, a, b, f, i)
                    } else {
                        comes_before(all, a, b, i, f)
                    }
            }
        }),
    decreases m,
{
    let all = enclosed(points);
    let n = points.len() as int;
    if m <= 0 {
        -1
    } else {
        let g = lemma_nearest_on(points, a, b, left, k, m - 1);
        let i = m - 1;
        if !is_on(all, a, b, i, left, k, n) {
            g
        } else if g < 0 {
            i
        } else {
            lemma_general(points, a, b, i as usize, g as usize);
            let nearer = if left {
                comes_before(all, a, b, i, g)
            } else {
                comes_before(all, a, b, g, i)
            };
            if nearer {
                assert forall|j: int|
                    0 <= j < m && j != i && #[trigger] is_on(all, a, b, j, left, k, n) implies if
                    left {
                    comes_before(all, a, b, i, j)
                } else {
                    comes_before(all, a, b, j, i)
                } by {
                    if j != g {
                        lemma_general(points, a, b, j as usize, g as usize);
                        let (x, y) = (place(all, a), place(all, b));
                        let (pi, pg, pj) = (
                            place(all, i as usize),
                            place(all, g as usize),
                            place(all, j as usize),
                        );
                        if left {
                            pencil::lemma_before_passes(x, y, pi, pg, pj);
                        } else {
                            pencil::lemma_before_passes(x, y, pj, pg, pi);
                        }
                    }
                }
                i
            } else {
                g
            }
        }
    }
}

/// One point meets an earlier circle than a second, and the second than a third.
proof fn lemma_chain(points: Seq<Point>, a: usize, b: usize, i: usize, j: usize, l: usize)
    requires
        is_general(points),
        points.len() <= usize::MAX - 3,
        a < points.len() + 3,
        b < points.len() + 3,
        i < points.len() + 3,
        j < points.len() + 3,
        l < points.len() + 3,
        a != b,
        i != a && i != b && j != a && j != b && l != a && l != b,
        i != j,
        j != l,
        comes_before(enclosed(points), a, b, i as int, j as int),
        comes_before(enclosed(points), a, b, j as int, l as int),
    ensures
        comes_before(enclosed(points), a, b, i as int, l as int),
        i != l,
{
    let all = enclosed(points);
    lemma_general(points, a, b, i, j);
    lemma_general(points, a, b, j, l);
    pencil::lemma_before_passes(
        place(all, a),
        place(all, b),
        place(all, i),
        place(all, j),
        place(all, l),
    );
}

/// Some corner around all points is on the side of an edge on which a new point is.
proof fn lemma_left_not_empty(points: Seq<Point>, a: usize, b: usize, p: usize, k: int)
    requires
        is_general(points),
        points.len() <= usize::MAX - 3,
        0 <= k < points.len(),
        p == k,
        a != b,
        pencil::side(
            place(enclosed(points), a),
            place(enclosed(points), b),
            place(enclosed(points), p),
        ) > 0,
    ensures
        exists|i: int|
            0 <= i < points.len() + 3 && #[trigger] is_on(
                enclosed(points),
                a,
                b,
                i,
                true,
                k,
                points.len() as int,
            ),
{
    let all = enclosed(points);
    let n = points.len() as int;
    let (x, y) = (place(all, a), place(all, b));
    let (c1, c2, c3) = (
        place(all, n as usize),
        place(all, (n + 1) as usize),
        place(all, (n + 2) as usize),
    );
    pencil::lemma_corner_on_side(x, y, place(all, p), c1, c2, c3);
    assert(pencil::side(x, y, x) == 0 && pencil::side(x, y, y) == 0) by (nonlinear_arith)
        requires
            pencil::side(x, y, x) == (y.x - x.x) * (x.y - x.y) - (y.y - x.y) * (x.x - x.x),
            pencil::side(x, y, y) == (y.x - x.x) * (y.y - x.y) - (y.y - x.y) * (y.x - x.x),
    ;
    if pencil::side(x, y, c1) > 0 {
        assert(is_on(all, a, b, n, true, k, n));
    } else if pencil::side(x, y, c2) > 0 {
        assert(is_on(all, a, b, n + 1, true, k, n));
    } else {
        assert(is_on(all, a, b, n + 2, true, k, n));
    }
}

/// Over an edge with the new point on its left: the circle through both is empty where one
/// candidate is left, and no or two candidates are where it is not.
proof fn lemma_pencil(points: Seq<Point>, a: usize, b: usize, p: usize, k: int)
    requires
        is_general(points),
        points.len() <= usize::MAX - 3,
        0 <= k < points.len(),
        p == k,
        a != b,
        is_known(a, k, points.len() as int),
        is_known(b, k, points.len() as int),
        pencil::side(
            place(enclosed(points), a),
            place(enclosed(points), b),
            place(enclosed(points), p),
        ) > 0,
    ensures
        ({
            let all = enclosed(points);
            let n = points.len() as int;
            &&& is_free(all, a, b, p, k, n) ==> exists|x: usize| #[trigger]
                is_candidate(all, a, b, x, p, k, n) && forall|y: usize| #[trigger]
                    is_candidate(all, a, b, y, p, k, n) ==> y == x
            &&& !is_free(all, a, b, p, k, n) ==> forall|x: usize| #[trigger]
                is_candidate(all, a, b, x, p, k, n) ==> exists|y: usize|
                    y != x && #[trigger] is_candidate(all, a, b, y, p, k, n)
        }),
{
    let all = enclosed(points);
    let n = points.len() as int;
    let pi = p as int;
    lemma_left_not_empty(points, a, b, p, k);
    let fi = lemma_nearest_on(points, a, b, true, k, n + 3);
    let gi = lemma_nearest_on(points, a, b, false, k, n + 3);
    let f = fi as usize;
    assert(fi >= 0);
    lemma_general(points, a, b, p, f);
    lemma_general(points, a, b, f, p);
    if is_free(all, a, b, p, k, n) {
        assert(!pencil::is_inside(
            place(all, a),
            place(all, b),
            place(all, p),
            place(all, f),
        ));
        assert(comes_before(all, a, b, pi, fi));
        assert(is_free(all, a, b, f, k, n)) by {
            assert forall|m: usize|
                is_known(m, k, n) && m != a && m != b && m != f implies !pencil::is_inside(
                place(all, a),
                place(all, b),
                place(all, f),
                #[trigger] place(all, m),
            ) by {
                lemma_general(points, a, b, m, f);
                if pencil::side(place(all, a), place(all, b), place(all, m)) > 0 {
                    assert(is_on(all, a, b, m as int, true, k, n));
                } else {
                    lemma_general(points, a, b, m, p);
                    assert(!pencil::is_inside(
                        place(all, a),
                        place(all, b),
                        place(all, p),
                        place(all, m),
                    ));
                    assert(comes_before(all, a, b, m as int, pi));
                    lemma_chain(points, a, b, m, p, f);
                }
            }
        }
        assert(is_candidate(all, a, b, f, p, k, n));
        assert forall|y: usize| #[trigger] is_candidate(all, a, b, y, p, k, n) implies y == f by {
            if y != f {
                lemma_general(points, a, b, f, y);
                lemma_general(points, a, b, y, p);
                lemma_general(points, a, b, p, y);
                if pencil::side(place(all, a), place(all, b), place(all, y)) > 0 {
                    assert(is_on(all, a, b, y as int, true, k, n));
                    assert(!pencil::is_inside(
                        place(all, a),
                        place(all, b),
                        place(all, y),
                        place(all, f),
                    ));
                } else {
                    assert(!pencil::is_inside(
                        place(all, a),
                        place(all, b),
                        place(all, p),
                        place(all, y),
                    ));
                }
            }
        }
    } else {
        assert forall|x: usize| #[trigger] is_candidate(all, a, b, x, p, k, n) implies (exists|
            y: usize,
        |
            y != x && #[trigger] is_candidate(all, a, b, y, p, k, n)) by {
            let xi = x as int;
            lemma_general(points, a, b, p, x);
            assert(comes_before(all, a, b, pi, xi));
            if pencil::side(place(all, a), place(all, b), place(all, x)) > 0 {
                let m = choose|m: usize|
                    is_known(m, k, n) && m != a && m != b && m != p && pencil::is_inside(
                        place(all, a),
                        place(all, b),
                        place(all, p),
                        #[trigger] place(all, m),
                    );
                lemma_general(points, a, b, m, p);
                if pencil::side(place(all, a), place(all, b), place(all, m)) > 0 {
                    assert(m != x);
                    lemma_general(points, a, b, m, x);
                    assert(!pencil::is_inside(
                        place(all, a),
                        place(all, b),
                        place(all, x),
                        place(all, m),
                    ));
                    lemma_chain(points, a, b, p, x, m);
                    assert(false);
                }
                assert(is_on(all, a, b, m as int, false, k, n));
                assert(gi >= 0);
                let g = gi as usize;
                assert(comes_before(all, a, b, pi, gi)) by {
                    if g != m {
                        lemma_chain(points, a, b, p, m, g);
                    }
                }
                lemma_general(points, a, b, g, x);
                assert(!pencil::is_inside(
                    place(all, a),
                    place(all, b),
                    place(all, x),
                    place(all, g),
                ));
                assert(comes_before(all, a, b, gi, xi));
                assert(is_free(all, a, b, g, k, n)) by {
                    assert forall|t: usize|
                        is_known(t, k, n) && t != a && t != b && t != g implies !pencil::is_inside(
                        place(all, a),
                        place(all, b),
                        place(all, g),
                        #[trigger] place(all, t),
                    ) by {
                        lemma_general(points, a, b, t, g);
                        if pencil::side(place(all, a), place(all, b), place(all, t)) > 0 {
                            if t != x {
                                lemma_general(points, a, b, t, x);
                                assert(!pencil::is_inside(
                                    place(all, a),
                                    place(all, b),
                                    place(all, x),
                                    place(all, t),
                                ));
                                lemma_chain(points, a, b, g, x, t);
                            }
                        } else {
                            assert(is_on(all, a, b, t as int, false, k, n));
                        }
                    }
                }
                lemma_general(points, a, b, p, g);
                assert(is_candidate(all, a, b, g, p, k, n));
            } else {
                lemma_general(points, a, b, f, x);
                assert(!pencil::is_inside(
                    place(all, a),
                    place(all, b),
                    place(all, x),
                    place(all, f),
                ));
                assert(comes_before(all, a, b, xi, fi));
                lemma_chain(points, a, b, p, x, f);
                assert(is_free(all, a, b, f, k, n)) by {
                    assert forall|t: usize|
                        is_known(t, k, n) && t != a && t != b && t != f implies !pencil::is_inside(
                        place(all, a),
                        place(all, b),
                        place(all, f),
                        #[trigger] place(all, t),
                    ) by {
                        lemma_general(points, a, b, t, f);
                        if pencil::side(place(all, a), place(all, b), place(all, t)) > 0 {
                            assert(is_on(all, a, b, t as int, true, k, n));
                        } else if t != x {
                            lemma_general(points, a, b, t, x);
                            assert(!pencil::is_inside(
                                place(all, a),
                                place(all, b),
                                place(all, x),
                                place(all, t),
                            ));
                            lemma_chain(points, a, b, t, x, f);
                        }
                    }
                }
                assert(is_candidate(all, a, b, f, p, k, n));
            }
        }
    }
}

/// A point on the left of an edge is on the right of the edge turned round.
proof fn lemma_side_swapped(a: Place, b: Place, q: Place)
    ensures
        pencil::side(b, a, q) == -pencil::side(a, b, q),
{
    let (u1, u2) = (b.x - a.x, b.y - a.y);
    let (v1, v2) = (q.x - a.x, q.y - a.y);
    assert((-u1) * (v2 - u2) - (-u2) * (v1 - u1) == -(u1 * v2 - u2 * v1)) by (nonlinear_arith);
    assert(a.x - b.x == -u1 && a.y - b.y == -u2);
    assert(q.x - b.x == v1 - u1 && q.y - b.y == v2 - u2);
}

/// The same wherever the new point is.
proof fn lemma_candidates(points: Seq<Point>, a: usize, b: usize, p: usize, k: int)
    requires
        is_general(points),
        points.len() <= usize::MAX - 3,
        0 <= k < points.len(),
        p == k,
        a != b,
        is_known(a, k, points.len() as int),
        is_known(b, k, points.len() as int),
    ensures
        ({
            let all = enclosed(points);
            let n = points.len() as int;
            &&& is_free(all, a, b, p, k, n) ==> exists|x: usize| #[trigger]
                is_candidate(all, a, b, x, p, k, n) && forall|y: usize| #[trigger]
                    is_candidate(all, a, b, y, p, k, n) ==> y == x
            &&& !is_free(all, a, b, p, k, n) ==> forall|x: usize| #[trigger]
                is_candidate(all, a, b, x, p, k, n) ==> exists|y: usize|
                    y != x && #[trigger] is_candidate(all, a, b, y, p, k, n)
        }),
{
    let all = enclosed(points);
    let n = points.len() as int;
    assert(pencil::side(place(all, a), place(all, b), place(all, p)) != 0);
    if pencil::side(place(all, a), place(all, b), place(all, p)) > 0 {
        lemma_pencil(points, a, b, p, k);
    } else {
        lemma_side_swapped(place(all, a), place(all, b), place(all, p));
        lemma_pencil(points, b, a, p, k);
        lemma_free_any_order(all, a, b, p, k, n);
        assert forall|x: usize| #[trigger]
            is_candidate(all, a, b, x, p, k, n) == is_candidate(all, b, a, x, p, k, n) by {
            lemma_free_any_order(all, a, b, x, k, n);
            lemma_any_order(place(all, a), place(all, b), place(all, x), place(all, p));
        }
        if is_free(all, a, b, p, k, n) {
            let x = choose|x: usize| #[trigger]
                is_candidate(all, b, a, x, p, k, n) && forall|y: usize| #[trigger]
                    is_candidate(all, b, a, y, p, k, n) ==> y == x;
            assert(is_candidate(all, a, b, x, p, k, n));
        } else {
            assert forall|x: usize| #[trigger] is_candidate(all, a, b, x, p, k, n) implies (exists|
                y: usize,
            |
                y != x && #[trigger] is_candidate(all, a, b, y, p, k, n)) by {
                assert(is_candidate(all, b, a, x, p, k, n));
                let y = choose|y: usize|
                    y != x && #[trigger] is_candidate(all, b, a, y, p, k, n);
                assert(is_candidate(all, a, b, y, p, k, n));
            }
        }
    }
}

spec fn lesser(i: usize, j: usize) -> usize {
    if i < j {
        i
    } else {
        j
    }
}

spec fn greater(i: usize, j: usize) -> usize {
    if i < j {
        j
    } else {
        i
    }
}

/// The triangle over an edge, its corners in their order.
spec fn over(l: usize, r: usize, x: usize, n: int) -> Triangle {
    if age(l, n) < age(x, n) && age(r, n) < age(x, n) {
        Triangle { a: l, b: r, c: x }
    } else if age(l, n) < age(r, n) {
        Triangle { a: lesser(l, x), b: greater(l, x), c: r }
    } else {
        Triangle { a: lesser(r, x), b: greater(r, x), c: l }
    }
}

/// The corner of a triangle that is not on an edge.
spec fn beyond(t: Triangle, l: usize, r: usize) -> usize {
    if t.a != l && t.a != r {
        t.a
    } else if t.b != l && t.b != r {
        t.b
    } else {
        t.c
    }
}

/// The triangle over an edge and its third corner give each other.
proof fn lemma_over(all: Seq<Point>, l: usize, r: usize, x: usize, q: Place, k: int, n: int)
    requires
        0 <= k <= n,
        is_known(l, k, n),
        is_known(r, k, n),
        is_known(x, k, n),
        l < r,
        x != l,
        x != r,
    ensures
        ({
            let t = over(l, r, x, n);
            &&& is_ordered(t, k, n)
            &&& has_edge(t, l, r)
            &&& beyond(t, l, r) == x
            &&& is_free(all, t.a, t.b, t.c, k, n) == is_free(all, l, r, x, k, n)
            &&& pencil::is_inside(place(all, t.a), place(all, t.b), place(all, t.c), q)
                == pencil::is_inside(place(all, l), place(all, r), place(all, x), q)
        }),
{
    lemma_free_any_order(all, l, r, x, k, n);
    lemma_any_order(place(all, l), place(all, r), place(all, x), q);
}

proof fn lemma_beyond(t: Triangle, l: usize, r: usize, k: int, n: int)
    requires
        0 <= k <= n,
        is_ordered(t, k, n),
        has_edge(t, l, r),
        l < r,
    ensures
        t == over(l, r, beyond(t, l, r), n),
        is_known(l, k, n),
        is_known(r, k, n),
        is_known(beyond(t, l, r), k, n),
        beyond(t, l, r) != l,
        beyond(t, l, r) != r,
{
}

/// After some points the triangles are those whose circles are empty.
spec fn is_complete(points: Seq<Point>, k: int) -> bool {
    let n = points.len() as int;
    forall|t: Triangle| #[trigger]
        is_ordered(t, k, n) ==> grown(points, k).contains(t) == is_free(
            enclosed(points),
            t.a,
            t.b,
            t.c,
            k,
            n,
        )
}

/// A triangle is hit over an edge just where its third corner is a candidate.
proof fn lemma_hit_candidate(points: Seq<Point>, l: usize, r: usize, x: usize, k: int)
    requires
        is_general(points),
        points.len() <= usize::MAX - 3,
        0 <= k < points.len(),
        is_complete(points, k),
        l < r,
        is_known(l, k, points.len() as int),
        is_known(r, k, points.len() as int),
        is_known(x, k, points.len() as int),
        x != l,
        x != r,
    ensures
        ({
            let all = enclosed(points);
            let n = points.len() as int;
            let t = over(l, r, x, n);
            is_candidate(all, l, r, x, k as usize, k, n) == (grown(points, k).contains(t)
                && is_hit(all, t, all[k], l, r))
        }),
{
    let all = enclosed(points);
    let n = points.len() as int;
    let p = k as usize;
    let t = over(l, r, x, n);
    lemma_over(all, l, r, x, place(all, p), k, n);
    assert(is_ordered(t, n, n));
    assert(spec_circumcircle_contains(all, t, all[p as int]) == pencil::is_inside(
        place(all, t.a),
        place(all, t.b),
        place(all, t.c),
        place(all, p),
    ));
}

/// The third corner of a triangle that is hit over an edge is a candidate.
proof fn lemma_hit_found(points: Seq<Point>, l: usize, r: usize, k: int, i: int)
    requires
        is_general(points),
        points.len() <= usize::MAX - 3,
        0 <= k < points.len(),
        is_complete(points, k),
        l < r,
        0 <= i < grown(points, k).len(),
        is_hit(enclosed(points), grown(points, k)[i], enclosed(points)[k], l, r),
    ensures
        ({
            let n = points.len() as int;
            let t = grown(points, k)[i];
            let x = beyond(t, l, r);
            is_candidate(enclosed(points), l, r, x, k as usize, k, n) && t == over(l, r, x, n)
        }),
{
    let n = points.len() as int;
    let found = grown(points, k);
    lemma_grown_differ(points, k);
    assert(is_ordered(found[i], k, n));
    lemma_beyond(found[i], l, r, k, n);
    assert(found.contains(found[i]));
    lemma_hit_candidate(points, l, r, beyond(found[i], l, r), k);
}

/// The triangle of a candidate is hit.
proof fn lemma_candidate_found(points: Seq<Point>, l: usize, r: usize, x: usize, k: int) -> (i: int)
    requires
        is_general(points),
        points.len() <= usize::MAX - 3,
        0 <= k < points.len(),
        is_complete(points, k),
        l < r,
        is_known(l, k, points.len() as int),
        is_known(r, k, points.len() as int),
        is_candidate(enclosed(points), l, r, x, k as usize, k, points.len() as int),
    ensures
        0 <= i < grown(points, k).len(),
        is_hit(enclosed(points), grown(points, k)[i], enclosed(points)[k], l, r),
        beyond(grown(points, k)[i], l, r) == x,
{
    let n = points.len() as int;
    let found = grown(points, k);
    lemma_hit_candidate(points, l, r, x, k);
    lemma_over(enclosed(points), l, r, x, place(enclosed(points), k as usize), k, n);
    let t = over(l, r, x, n);
    choose|i: int| 0 <= i < found.len() && found[i] == t
}

/// An edge is hit once just where the circle through it and the new point is empty.
proof fn lemma_hit_once(points: Seq<Point>, l: usize, r: usize, k: int)
    requires
        is_general(points),
        points.len() <= usize::MAX - 3,
        0 <= k < points.len(),
        is_complete(points, k),
        l < r,
        is_known(l, k, points.len() as int),
        is_known(r, k, points.len() as int),
    ensures
        (hits(
            enclosed(points),
            grown(points, k),
            enclosed(points)[k],
            l,
            r,
            grown(points, k).len() as int,
        ) == 1) == is_free(enclosed(points), l, r, k as usize, k, points.len() as int),
{
    if is_free(enclosed(points), l, r, k as usize, k, points.len() as int) {
        lemma_free_hit_once(points, l, r, k);
    } else {
        lemma_taken_not_once(points, l, r, k);
    }
}

proof fn lemma_free_hit_once(points: Seq<Point>, l: usize, r: usize, k: int)
    requires
        is_general(points),
        points.len() <= usize::MAX - 3,
        0 <= k < points.len(),
        is_complete(points, k),
        l < r,
        is_known(l, k, points.len() as int),
        is_known(r, k, points.len() as int),
        is_free(enclosed(points), l, r, k as usize, k, points.len() as int),
    ensures
        hits(
            enclosed(points),
            grown(points, k),
            enclosed(points)[k],
            l,
            r,
            grown(points, k).len() as int,
        ) == 1,
{
    let all = enclosed(points);
    let n = points.len() as int;
    let p = k as usize;
    let found = grown(points, k);
    let count = found.len() as int;
    lemma_candidates(points, l, r, p, k);
    let x = choose|x: usize| #[trigger]
        is_candidate(all, l, r, x, p, k, n) && forall|y: usize| #[trigger]
            is_candidate(all, l, r, y, p, k, n) ==> y == x;
    let first = lemma_candidate_found(points, l, r, x, k);
    assert forall|i: int, j: int| 0 <= i < j < count implies !(is_hit(
        all,
        #[trigger] found[i],
        all[k],
        l,
        r,
    ) && is_hit(all, #[trigger] found[j], all[k], l, r)) by {
        if is_hit(all, found[i], all[k], l, r) && is_hit(all, found[j], all[k], l, r) {
            lemma_hit_found(points, l, r, k, i);
            lemma_hit_found(points, l, r, k, j);
            assert(found[i] == found[j]);
            lemma_grown_differ(points, k);
        }
    }
    lemma_hits(all, found, all[k], l, r, count);
    assert(0 <= first < count && is_hit(all, found[first], all[k], l, r));
}

proof fn lemma_taken_not_once(points: Seq<Point>, l: usize, r: usize, k: int)
    requires
        is_general(points),
        points.len() <= usize::MAX - 3,
        0 <= k < points.len(),
        is_complete(points, k),
        l < r,
        is_known(l, k, points.len() as int),
        is_known(r, k, points.len() as int),
        !is_free(enclosed(points), l, r, k as usize, k, points.len() as int),
    ensures
        hits(
            enclosed(points),
            grown(points, k),
            enclosed(points)[k],
            l,
            r,
            grown(points, k).len() as int,
        ) != 1,
{
    let all = enclosed(points);
    let n = points.len() as int;
    let p = k as usize;
    let found = grown(points, k);
    let count = found.len() as int;
    lemma_hits(all, found, all[k], l, r, count);
    if hits(all, found, all[k], l, r, count) == 1 {
        let i = choose|i: int|
            0 <= i < count && is_hit(all, #[trigger] found[i], all[k], l, r);
        let x = beyond(found[i], l, r);
        lemma_hit_found(points, l, r, k, i);
        lemma_candidates(points, l, r, p, k);
        let y = choose|y: usize| y != x && #[trigger] is_candidate(all, l, r, y, p, k, n);
        let j = lemma_candidate_found(points, l, r, y, k);
        if i < j {
            assert(is_hit(all, found[i], all[k], l, r) && is_hit(all, found[j], all[k], l, r));
        } else {
            assert(is_hit(all, found[j], all[k], l, r) && is_hit(all, found[i], all[k], l, r));
        }
    }
}

/// For points in general position the triangles after some points are those whose circles are
/// empty.
proof fn lemma_complete(points: Seq<Point>, k: int)
    requires
        is_general(points),
        points.len() <= usize::MAX - 3,
        0 <= k <= points.len(),
    ensures
        is_complete(points, k),
    decreases k,
{
    let all = enclosed(points);
    let n = points.len() as int;
    if k == 0 {
        assert forall|t: Triangle| #[trigger] is_ordered(t, k, n) implies grown(points, k).contains(
            t,
        ) == is_free(all, t.a, t.b, t.c, k, n) by {
            let outer = Triangle { a: n as usize, b: (n + 1) as usize, c: (n + 2) as usize };
            assert(grown(points, k)[0] == outer);
            assert(t == outer);
        }
    } else {
        lemma_complete(points, k - 1);
        lemma_grown_differ(points, k - 1);
        let before = grown(points, k - 1);
        let after = grown(points, k);
        let index = (k - 1) as usize;
        let point = all[k - 1];
        let count = before.len() as int;
        let edges = cavity(all, before, point, count);
        let kept = retained(all, before, point, count);
        let new = fan(all, edges, index, edges.len() as int);
        assert(after == kept + new);
        assert forall|i: int| 0 <= i < before.len() implies (#[trigger] before[i]).is_proper() by {
            assert(is_ordered(before[i], k - 1, n));
        }
        lemma_cavity_marks(all, before, point, count, 0, 1);
        assert forall|t: Triangle| #[trigger] is_ordered(t, k, n) implies after.contains(t)
            == is_free(all, t.a, t.b, t.c, k, n) by {
            lemma_retained_holds(all, before, point, count, t);
            lemma_fan_holds(all, edges, index, edges.len() as int, t);
            assert(after.contains(t) == (kept.contains(t) || new.contains(t))) by {
                if kept.contains(t) {
                    let i = choose|i: int| 0 <= i < kept.len() && kept[i] == t;
                    assert(after[i] == t);
                }
                if new.contains(t) {
                    let i = choose|i: int| 0 <= i < new.len() && new[i] == t;
                    assert(after[kept.len() + i] == t);
                }
                if after.contains(t) {
                    let i = choose|i: int| 0 <= i < after.len() && after[i] == t;
                    if i < kept.len() {
                        assert(kept[i] == t);
                    } else {
                        assert(new[i - kept.len()] == t);
                    }
                }
            }
            if t.c == index {
                assert(!kept.contains(t)) by {
                    if kept.contains(t) {
                        let m = choose|m: int| 0 <= m < count && #[trigger] before[m] == t;
                        assert(is_ordered(before[m], k - 1, n));
                    }
                }
                assert(is_ordered(t, n, n));
                assert(is_wide(all, t.a, t.b, index));
                lemma_cavity_marks(all, before, point, count, t.a, t.b);
                lemma_hit_once(points, t.a, t.b, k - 1);
                assert(is_free(all, t.a, t.b, t.c, k, n) == is_free(
                    all,
                    t.a,
                    t.b,
                    t.c,
                    k - 1,
                    n,
                ));
            } else {
                assert(is_ordered(t, k - 1, n));
                assert(is_ordered(t, n, n));
                assert(spec_circumcircle_contains(all, t, all[index as int]) == pencil::is_inside(
                    place(all, t.a),
                    place(all, t.b),
                    place(all, t.c),
                    place(all, index),
                ));
                if before.contains(t) {
                    let m = choose|m: int| 0 <= m < before.len() && before[m] == t;
                    assert(before[m] == t);
                }
            }
        }
    }
}

/// Of points in general position the triangulation has every triangle whose circle holds no other
/// point and no corner of the triangle around all points, and only those: a circle holds no
/// earlier point either.
pub proof fn law_circles_hold_no_point(points: Seq<Point>, t: Triangle)
    requires
        points.len() >= 3,
        points.len() <= usize::MAX - 3,
        is_general(points),
        t.a < t.b < t.c < points.len(),
    ensures
        spec_delaunay(points).contains(t) <==> forall|m: int|
            0 <= m < points.len() + 3 && m != t.a && m != t.b && m != t.c
                ==> !spec_circumcircle_contains(
                enclosed(points),
                t,
                #[trigger] enclosed(points)[m],
            ),
        spec_delaunay(points).contains(t) ==> forall|m: int|
            0 <= m < points.len() && m != t.a && m != t.b && m != t.c
                ==> !spec_circumcircle_contains(points, t, #[trigger] points[m]),
{
    let n = points.len() as int;
    let all = enclosed(points);
    let grown_all = grown(points, n);
    lemma_complete(points, n);
    assert(is_ordered(t, n, n));
    lemma_inner_holds(grown_all, n as usize, grown_all.len() as int, t);
    if grown_all.contains(t) {
        let i = choose|i: int| 0 <= i < grown_all.len() && grown_all[i] == t;
        assert(grown_all[i] == t);
    }
    assert forall|m: int|
        0 <= m < n + 3 && m != t.a && m != t.b && m != t.c implies #[trigger]
    spec_circumcircle_contains(all, t, all[m]) == pencil::is_inside(
        place(all, t.a),
        place(all, t.b),
        place(all, t.c),
        place(all, m as usize),
    ) by {
        assert(spec_circumcircle_contains(all, t, all[(m as usize) as int]) == pencil::is_inside(
            place(all, t.a),
            place(all, t.b),
            place(all, t.c),
            place(all, m as usize),
        ));
    }
    let holds_none = forall|m: int|
        0 <= m < n + 3 && m != t.a && m != t.b && m != t.c ==> !spec_circumcircle_contains(
            all,
            t,
            #[trigger] all[m],
        );
    if is_free(all, t.a, t.b, t.c, n, n) {
        assert forall|m: int|
            0 <= m < n + 3 && m != t.a && m != t.b && m != t.c implies !spec_circumcircle_contains(
            all,
            t,
            #[trigger] all[m],
        ) by {
            assert(is_known(m as usize, n, n));
        }
        assert forall|m: int|
            0 <= m < n && m != t.a && m != t.b && m != t.c implies !spec_circumcircle_contains(
            points,
            t,
            #[trigger] points[m],
        ) by {
            assert(all[m] == points[m]);
            assert(spec_circumcircle_contains(points, t, points[m]) == spec_circumcircle_contains(
                all,
                t,
                all[m],
            ));
        }
    }
    if holds_none {
        assert forall|m: usize|
            is_known(m, n, n) && m != t.a && m != t.b && m != t.c implies !pencil::is_inside(
            place(all, t.a),
            place(all, t.b),
            place(all, t.c),
            #[trigger] place(all, m),
        ) by {
            assert(!spec_circumcircle_contains(all, t, all[m as int]));
        }
    }
}

} // verus!
