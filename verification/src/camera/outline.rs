//! Which points a mesh is made of, and which points an outline holds.

use vstd::prelude::*;
use vstd::arithmetic::power2::pow2;
use crate::bounds;
use crate::bounds::is_within;
use crate::camera::mesh;
use crate::camera::mesh::{
    base_vertices, deduplicated, distinct, eye_points, forehead, forehead_row, gathered, half,
    has_near, is_eye_feature, is_near, row_points, rows_points, spec_forehead_point, Axes, Extent,
    Row,
};
use crate::camera::relief;
use crate::camera::surface::{
    interpolated, local_points, long_edges, middle, middles, refined, refined_once,
    spec_polygon_face_mesh,
};
use crate::camera::triangulation::{crosses, is_odd, spec_delaunay, spec_point_in_polygon};
use crate::camera::turning;
use crate::camera::warp::warped;
use crate::double::Double;
use crate::model;
use crate::model::{BoundingBox, FaceView, LandmarkKind, Point, RegionView};
use crate::monotone;
use crate::monotone::size;
use crate::patterns;
use crate::placing;

verus! {

/// Of points that are as good as one the first is kept: what is left are some of the points, and
/// each point is among them or is as good as one of them.
pub proof fn law_points_are_kept_or_near(points: Seq<Point>, width: Double, height: Double)
    ensures
        ({
            let left = deduplicated(points, width, height);
            &&& forall|i: int| 0 <= i < left.len() ==> points.contains(#[trigger] left[i])
            &&& forall|i: int|
                0 <= i < points.len() ==> left.contains(#[trigger] points[i]) || has_near(
                    left,
                    points[i],
                    width,
                    height,
                )
            &&& points.len() > 0 ==> left.len() > 0 && left[0] == points[0]
        }),
{
    lemma_distinct(points, width, height, points.len() as int);
}

proof fn lemma_distinct(points: Seq<Point>, width: Double, height: Double, k: int)
    requires
        0 <= k <= points.len(),
    ensures
        ({
            let left = distinct(points, width, height, k);
            &&& forall|i: int| 0 <= i < left.len() ==> points.contains(#[trigger] left[i])
            &&& forall|i: int|
                0 <= i < k ==> left.contains(#[trigger] points[i]) || has_near(
                    left,
                    points[i],
                    width,
                    height,
                )
            &&& k > 0 ==> left.len() > 0 && left[0] == points[0]
        }),
    decreases k,
{
    if k > 0 {
        lemma_distinct(points, width, height, k - 1);
        let before = distinct(points, width, height, k - 1);
        let left = distinct(points, width, height, k);
        assert(points.contains(points[k - 1]));
        assert forall|i: int| 0 <= i < k implies left.contains(#[trigger] points[i]) || has_near(
            left,
            points[i],
            width,
            height,
        ) by {
            if i < k - 1 {
                if before.contains(points[i]) {
                    let m = choose|m: int| 0 <= m < before.len() && before[m] == points[i];
                    assert(left[m] == points[i]);
                } else {
                    let m = choose|m: int|
                        0 <= m < before.len() && is_near(
                            #[trigger] before[m],
                            points[i],
                            width,
                            height,
                        );
                    assert(left[m] == before[m]);
                }
            } else if !has_near(before, points[k - 1], width, height) {
                assert(left[before.len() as int] == points[k - 1]);
            }
        }
        if k == 1 {
            assert(before.len() == 0);
            assert(!has_near(before, points[0], width, height));
        }
    }
}

/// A point of a region that is gathered.
spec fn is_point_of(landmarks: Seq<RegionView>, eyes: bool, k: int, point: Point) -> bool {
    exists|i: int, j: int|
        0 <= i < k && 0 <= j < landmarks[i].points.len() && (if eyes {
            is_eye_feature(landmarks[i].kind)
        } else {
            landmarks[i].kind != LandmarkKind::AllPoints
        }) && #[trigger] landmarks[i].points[j] == point
}

proof fn lemma_gathered(landmarks: Seq<RegionView>, eyes: bool, k: int, point: Point)
    requires
        0 <= k <= landmarks.len(),
    ensures
        gathered(landmarks, eyes, k).contains(point) == is_point_of(landmarks, eyes, k, point),
    decreases k,
{
    if k > 0 {
        lemma_gathered(landmarks, eyes, k - 1, point);
        let before = gathered(landmarks, eyes, k - 1);
        let after = gathered(landmarks, eyes, k);
        let last = landmarks[k - 1];
        let taken = if eyes {
            is_eye_feature(last.kind)
        } else {
            last.kind != LandmarkKind::AllPoints
        };
        if before.contains(point) {
            let m = choose|m: int| 0 <= m < before.len() && before[m] == point;
            assert(after[m] == point);
            let (i, j) = choose|i: int, j: int|
                0 <= i < k - 1 && 0 <= j < landmarks[i].points.len() && (if eyes {
                    is_eye_feature(landmarks[i].kind)
                } else {
                    landmarks[i].kind != LandmarkKind::AllPoints
                }) && #[trigger] landmarks[i].points[j] == point;
            assert(landmarks[i].points[j] == point);
        }
        if is_point_of(landmarks, eyes, k, point) {
            let (i, j) = choose|i: int, j: int|
                0 <= i < k && 0 <= j < landmarks[i].points.len() && (if eyes {
                    is_eye_feature(landmarks[i].kind)
                } else {
                    landmarks[i].kind != LandmarkKind::AllPoints
                }) && #[trigger] landmarks[i].points[j] == point;
            if i == k - 1 {
                assert(after[before.len() + j] == point);
            } else {
                assert(landmarks[i].points[j] == point);
                assert(is_point_of(landmarks, eyes, k - 1, point));
            }
        }
        if after.contains(point) {
            let m = choose|m: int| 0 <= m < after.len() && after[m] == point;
            if m < before.len() {
                assert(before[m] == point);
            } else {
                assert(last.points[m - before.len()] == point);
                assert(landmarks[k - 1].points[m - before.len()] == point);
            }
        }
    }
}

/// A mesh begins with the landmarks of a face: with the points of the list of all points, where
/// there is one, and with those of all other regions where there is none; and in any case with
/// those of both eyes and both eyebrows.
pub proof fn law_mesh_begins_with_landmarks(face: FaceView, point: Point)
    ensures
        ({
            let all = model::spec_region(face.landmarks, LandmarkKind::AllPoints);
            let of_eyes = exists|i: int, j: int|
                0 <= i < face.landmarks.len() && 0 <= j < face.landmarks[i].points.len() && (
                face.landmarks[i].kind == LandmarkKind::LeftEye || face.landmarks[i].kind
                    == LandmarkKind::RightEye || face.landmarks[i].kind
                    == LandmarkKind::LeftEyebrow || face.landmarks[i].kind
                    == LandmarkKind::RightEyebrow) && #[trigger] face.landmarks[i].points[j]
                    == point;
            let of_any = exists|i: int, j: int|
                0 <= i < face.landmarks.len() && 0 <= j < face.landmarks[i].points.len()
                    && face.landmarks[i].kind != LandmarkKind::AllPoints
                    && #[trigger] face.landmarks[i].points[j] == point;
            base_vertices(face).contains(point) <==> of_eyes || match all {
                Some(points) => points.contains(point),
                None => of_any,
            }
        }),
{
    let n = face.landmarks.len() as int;
    lemma_gathered(face.landmarks, true, n, point);
    lemma_gathered(face.landmarks, false, n, point);
    let all = model::spec_region(face.landmarks, LandmarkKind::AllPoints);
    let first = match all {
        Some(points) => points,
        None => gathered(face.landmarks, false, n),
    };
    let eyes = eye_points(face);
    let base = base_vertices(face);
    assert(base == first + eyes);
    if first.contains(point) {
        let m = choose|m: int| 0 <= m < first.len() && first[m] == point;
        assert(base[m] == point);
    }
    if eyes.contains(point) {
        let m = choose|m: int| 0 <= m < eyes.len() && eyes[m] == point;
        assert(base[first.len() + m] == point);
    }
    if base.contains(point) {
        let m = choose|m: int| 0 <= m < base.len() && base[m] == point;
        if m < first.len() {
            assert(first[m] == point);
        } else {
            assert(eyes[m - first.len()] == point);
        }
    }
}

/// One half is one half.
proof fn lemma_half()
    ensures
        Double::ratio(1, 2).is_finite(),
        2 * Double::ratio(1, 2).value() == pow2(1074),
{
    bounds::lemma_ratio_below(1, 2, 4);
    bounds::lemma_ratio_above(1, 2, 4);
    vstd::arithmetic::power2::lemma_pow2_adds(3, 1071);
    vstd::arithmetic::power2::lemma2_to64();
}

proof fn lemma_middle(a: Double, b: Double)
    requires
        is_within(a, 1574),
        is_within(b, 1574),
    ensures
        half(a + b).is_finite(),
        0x8_0000_0000_0000 * size(2 * half(a + b).value() - (a.value() + b.value())) <= size(
            a.value() + b.value(),
        ) + 0x8_0000_0000_0000,
{
    let unit = pow2(1074) as int;
    vstd::arithmetic::power2::lemma_pow2_pos(1074);
    patterns::lemma_small_powers(52);
    vstd::arithmetic::power2::lemma_pow2_unfold(53);
    lemma_half();
    let h = Double::ratio(1, 2);
    bounds::lemma_sum_within(a, b, 1574);
    bounds::lemma_sum_error(a, b);
    let s = a + b;
    s.lemma_order(h);
    monotone::lemma_share_error(s, h);
    let (x, y) = (s.value(), h.value());
    let r = (s * h).value();
    assert(x * (2 * y) == 2 * (x * y)) by (nonlinear_arith);
    assert(2 * (r * unit - x * y) == (2 * r - x) * unit) by (nonlinear_arith)
        requires
            unit == 2 * y,
    ;
    let e = 2 * r - x;
    assert(size(e * unit) == size(e) * unit && size(x * unit) == size(x) * unit)
        by (nonlinear_arith)
        requires
            unit > 0,
    ;
    let big = 0x20_0000_0000_0000int;
    assert(big * (size(e) * unit) <= size(x) * unit + 0x20_0000_0000_0000 * unit);
    assert(big * size(e) <= size(x) + 0x20_0000_0000_0000) by (nonlinear_arith)
        requires
            big * (size(e) * unit) <= size(x) * unit + 0x20_0000_0000_0000 * unit,
            unit > 0,
    ;
}

/// Long edges are divided in the middle, up to rounding.
pub proof fn law_edges_are_halved(a: Point, b: Point)
    requires
        is_within(a.x, 1574),
        is_within(a.y, 1574),
        is_within(b.x, 1574),
        is_within(b.y, 1574),
    ensures
        ({
            let m = middle(a, b);
            let (x, y) = (a.x.value() + b.x.value(), a.y.value() + b.y.value());
            &&& m.x.is_finite() && m.y.is_finite()
            &&& 0x8_0000_0000_0000 * size(2 * m.x.value() - x) <= size(x) + 0x8_0000_0000_0000
            &&& 0x8_0000_0000_0000 * size(2 * m.y.value() - y) <= size(y) + 0x8_0000_0000_0000
        }),
{
    lemma_middle(a.x, b.x);
    lemma_middle(a.y, b.y);
}

/// A ray crosses an upright side where it starts to the left of it.
proof fn lemma_upright_side(point: Point, polygon: Seq<Point>, i: int, x: Double)
    requires
        polygon.len() == 4,
        0 <= i < 4,
        ({
            let a = polygon[i];
            let b = polygon[if i == 0 {
                3
            } else {
                i - 1
            }];
            &&& a.x == x && b.x == x
            &&& is_within(a.y, 1574) && is_within(b.y, 1574)
        }),
        is_within(x, 1574),
        is_within(point.x, 1574),
        is_within(point.y, 1574),
    ensures
        ({
            let a = polygon[i];
            let b = polygon[if i == 0 {
                3
            } else {
                i - 1
            }];
            crosses(point, polygon, i) == (point.y.less(a.y) != point.y.less(b.y) && point.x.less(x))
        }),
{
    let a = polygon[i];
    let b = polygon[if i == 0 {
        3
    } else {
        i - 1
    }];
    if point.y.less(a.y) != point.y.less(b.y) {
        let none = x - x;
        x.lemma_order(x.negated());
        assert(none.pattern() == 0) by {
            reveal(Double::spec_add);
            bounds::lemma_signed(x.negative() && x.negated().negative(), 0);
        }
        bounds::lemma_sum_within(point.y, a.y, 1574);
        bounds::lemma_sum_within(b.y, a.y, 1574);
        monotone::lemma_difference_error(b.y, a.y);
        let (up, rise) = (point.y - a.y, b.y - a.y);
        bounds::lemma_zero_product(none, up);
        let product = none * up;
        rise.lemma_order(product);
        assert(rise.value() != 0);
        assert((product / rise).pattern() == 0) by {
            reveal(Double::spec_div);
            reveal(Double::nearest);
            assert(0 * pow2(1074) == 0) by (nonlinear_arith);
            patterns::lemma_rounded_zero(rise.magnitude(), 52, 2047);
            bounds::lemma_signed(product.negative() != rise.negative(), 0);
        }
        let quotient = product / rise;
        lemma_zero_plus(quotient, x);
    }
}

/// Nothing and a value is the value.
proof fn lemma_zero_plus(zero: Double, x: Double)
    requires
        x.is_finite(),
        zero.pattern() == 0,
    ensures
        (zero + x).is_finite(),
        (zero + x).value() == x.value(),
{
    bounds::lemma_plus_zero(x, zero);
    reveal(Double::spec_add);
    zero.lemma_order(x);
    bounds::lemma_signed(x.negative() && zero.negative(), 0);
    let y = Double::signed(x.negative() && zero.negative(), 0);
    y.lemma_order(y);
}

/// An outline holds what is inside of it: of an upright rectangle, the points between its sides,
/// those on the left and the lower one included and those on the right and the upper one not. An
/// outline of fewer than three points holds nothing.
pub proof fn law_rectangle_holds_its_inside(
    point: Point,
    outline: Seq<Point>,
    left: Double,
    right: Double,
    low: Double,
    high: Double,
)
    requires
        outline == seq![
            Point { x: left, y: low },
            Point { x: right, y: low },
            Point { x: right, y: high },
            Point { x: left, y: high },
        ],
        is_within(left, 1574),
        is_within(right, 1574),
        is_within(low, 1574),
        is_within(high, 1574),
        is_within(point.x, 1574),
        is_within(point.y, 1574),
        left.at_most(right),
        low.at_most(high),
    ensures
        spec_point_in_polygon(point, outline) == (left.at_most(point.x) && point.x.less(right)
            && low.at_most(point.y) && point.y.less(high)),
        !spec_point_in_polygon(point, outline.take(2)),
{
    lemma_upright_side(point, outline, 0, left);
    lemma_upright_side(point, outline, 2, right);
    assert(!crosses(point, outline, 1));
    assert(!crosses(point, outline, 3));
    reveal_with_fuel(is_odd, 5);
}

/// The directions of a face that is level.
pub open spec fn is_level(axes: Axes) -> bool {
    &&& axes.horizontal == (Point { x: Double::integer(1), y: Double::integer(0) })
    &&& axes.vertical == (Point { x: Double::integer(0), y: Double::integer(1) })
    &&& is_within(axes.origin.x, 1400)
    &&& is_within(axes.origin.y, 1400)
}

/// How many points a row of the forehead has.
pub open spec fn columns_of(row: u64) -> nat {
    match row {
        0 | 1 => 11,
        2 => 10,
        3 => 9,
        _ => 7,
    }
}

/// Where a row of a level forehead is across the face.
spec fn across_at(extent: Extent, row: Row, column: u64) -> Double {
    let middle = half(extent.left + extent.right);
    let left = middle + (extent.left - middle) * row.width;
    let right = middle + (extent.right - middle) * row.width;
    left + (right - left) * Double::integer(column) / Double::integer((row.columns - 1) as u64)
}

/// The widths and heights of the rows are shares.
proof fn lemma_rows(r: u64)
    requires
        r < 5,
    ensures
        ({
            let row = forehead_row(r);
            &&& row.columns == columns_of(r)
            &&& row.width.is_finite() && 0 < row.width.value() <= pow2(1074)
            &&& row.height.is_finite() && 0 < row.height.value() <= pow2(1074)
            &&& r > 0 ==> forehead_row((r - 1) as u64).height.value() <= row.height.value()
        }),
{
    relief::lemma_ratio_error(98, 100);
    relief::lemma_ratio_error(92, 100);
    relief::lemma_ratio_error(83, 100);
    relief::lemma_ratio_error(71, 100);
    relief::lemma_ratio_error(57, 100);
    relief::lemma_ratio_error(6, 100);
    relief::lemma_ratio_error(27, 100);
    relief::lemma_ratio_error(48, 100);
    relief::lemma_ratio_error(69, 100);
    relief::lemma_ratio_error(90, 100);
    bounds::lemma_ratio_positive(98, 100);
    bounds::lemma_ratio_positive(92, 100);
    bounds::lemma_ratio_positive(83, 100);
    bounds::lemma_ratio_positive(71, 100);
    bounds::lemma_ratio_positive(57, 100);
    bounds::lemma_ratio_positive(6, 100);
    bounds::lemma_ratio_positive(27, 100);
    bounds::lemma_ratio_positive(48, 100);
    bounds::lemma_ratio_positive(69, 100);
    bounds::lemma_ratio_positive(90, 100);
    Double::law_ratios_are_ordered(6, 100, 27, 100);
    Double::law_ratios_are_ordered(27, 100, 48, 100);
    Double::law_ratios_are_ordered(48, 100, 69, 100);
    Double::law_ratios_are_ordered(69, 100, 90, 100);
}

/// A row goes from the left to the right.
proof fn lemma_across(extent: Extent, row: Row, column: u64, other: u64)
    requires
        is_within(extent.left, 1400),
        is_within(extent.right, 1400),
        extent.left.value() <= extent.right.value(),
        row.width.is_finite(),
        0 < row.width.value() <= pow2(1074),
        2 <= row.columns <= 1000,
        column <= other <= 1000,
    ensures
        across_at(extent, row, column).is_finite(),
        across_at(extent, row, other).is_finite(),
        is_within(across_at(extent, row, column), 1430),
        across_at(extent, row, column).value() <= across_at(extent, row, other).value(),
{
    let (l, r, w) = (extent.left, extent.right, row.width);
    lemma_half();
    let h = Double::ratio(1, 2);
    vstd::arithmetic::power2::lemma_pow2_pos(1074);
    w.lemma_order(h);
    bounds::lemma_sum_within(l, r, 1400);
    (l + r).lemma_order(h);
    monotone::lemma_share_error(l + r, h);
    let middle = half(l + r);
    middle.lemma_order(l + r);
    bounds::lemma_within_wider(l, 1400, 1401);
    bounds::lemma_within_wider(r, 1400, 1401);
    bounds::lemma_sum_within(l, middle, 1401);
    bounds::lemma_sum_within(r, middle, 1401);
    monotone::lemma_difference_order(l, middle, r, middle);
    let (a, b) = (l - middle, r - middle);
    placing::lemma_factors_commute(a, w);
    placing::lemma_factors_commute(b, w);
    monotone::lemma_scaled_order(w, a, b);
    monotone::lemma_share_error(a, w);
    monotone::lemma_share_error(b, w);
    bounds::lemma_within_wider(middle, 1401, 1402);
    bounds::lemma_sum_within(middle, a * w, 1402);
    bounds::lemma_sum_within(middle, b * w, 1402);
    monotone::lemma_sum_order(middle, a * w, middle, b * w);
    let (x, y) = (middle + a * w, middle + b * w);
    bounds::lemma_sum_within(y, x, 1403);
    monotone::lemma_difference_order(x, x, y, x);
    lemma_nothing_between(x);
    let way = y - x;
    let (m, n) = (Double::integer(column), Double::integer(other));
    monotone::lemma_integer(column);
    monotone::lemma_integer(other);
    monotone::lemma_integer((row.columns - 1) as u64);
    let unit = pow2(1074) as int;
    vstd::arithmetic::power2::lemma2_to64();
    vstd::arithmetic::power2::lemma_pow2_adds(10, 1074);
    assert(0 <= column * unit <= other * unit <= 1024 * unit) by (nonlinear_arith)
        requires
            column <= other <= 1000,
            unit > 0,
    ;
    way.lemma_order(m);
    way.lemma_order(n);
    bounds::lemma_product_bound(way, m, 1404, 1084);
    bounds::lemma_product_bound(way, n, 1404, 1084);
    monotone::lemma_product_order(way, m, way, n);
    let d = Double::integer((row.columns - 1) as u64);
    let k = (row.columns - 1) as int;
    assert(k * unit >= unit) by (nonlinear_arith)
        requires
            k >= 1,
            unit > 0,
    ;
    lemma_divided(way * m, d);
    lemma_divided(way * n, d);
    (way * m).lemma_order(way * n);
    lemma_signed_order(way * m, way * n, d);
    bounds::lemma_within_wider(x, 1403, 1414);
    bounds::lemma_sum_within(x, way * m / d, 1414);
    bounds::lemma_sum_within(x, way * n / d, 1414);
    monotone::lemma_sum_order(x, way * m / d, x, way * n / d);
    bounds::lemma_within_wider(across_at(extent, row, column), 1415, 1430);
}

proof fn lemma_nothing_between(x: Double)
    requires
        x.is_finite(),
    ensures
        !(x - x).nan(),
        (x - x).value() == 0,
{
    reveal(Double::spec_add);
    x.lemma_order(x.negated());
    bounds::lemma_signed(x.negative() && x.negated().negative(), 0);
    (x - x).lemma_order(x);
}

/// A value over one or more.
proof fn lemma_divided(a: Double, d: Double)
    requires
        is_within(a, 1414),
        d.is_finite(),
        d.value() >= pow2(1074),
    ensures
        is_within(a / d, 1414),
{
    let unit = pow2(1074) as int;
    vstd::arithmetic::power2::lemma_pow2_pos(1074);
    a.lemma_order(d);
    let (m, t) = (a.magnitude(), d.value());
    assert(m * unit <= pow2(1414) * t) by (nonlinear_arith)
        requires
            0 <= m <= pow2(1414),
            0 < unit <= t,
    ;
    monotone::lemma_quotient_error(a, d, 1414);
}

proof fn lemma_signed_order(x: Double, y: Double, d: Double)
    requires
        x.is_finite(),
        y.is_finite(),
        d.is_finite(),
        d.value() > 0,
        x.value() <= y.value(),
    ensures
        (x / d).value() <= (y / d).value(),
{
    turning::lemma_quotient_order_signed(x, y, d);
}

/// The forehead of a level face rises from its eyes: five rows, each no lower than the one before,
/// none below the eyes and none higher than the space that there is; and each row goes from the
/// left to the right.
pub proof fn law_forehead_rises_from_the_eyes(
    axes: Axes,
    extent: Extent,
    space: Double,
    r: u64,
    c: int,
)
    requires
        is_level(axes),
        is_within(extent.left, 1400),
        is_within(extent.right, 1400),
        extent.left.value() <= extent.right.value(),
        is_within(space, 1400),
        space.value() >= 0,
        r < 5,
        0 <= c < columns_of(r),
    ensures
        ({
            let row = row_points(axes, extent, space, r);
            let p = row[c];
            &&& row.len() == columns_of(r)
            &&& axes.origin.y.value() <= p.y.value() <= (axes.origin.y + space).value()
            &&& r + 1 < 5 ==> p.y.value() <= row_points(axes, extent, space, (r + 1) as u64)[0].y.value()
            &&& c + 1 < columns_of(r) ==> p.x.value() <= row[c + 1].x.value()
        }),
        rows_points(axes, extent, space, 5).len() == 48,
{
    lemma_rows(r);
    let row = forehead_row(r);
    lemma_across(extent, row, c as u64, (c + 1) as u64);
    lemma_level_point(axes, extent, space, row, c as u64);
    if c + 1 < columns_of(r) {
        lemma_across(extent, row, (c + 1) as u64, (c + 1) as u64);
        lemma_level_point(axes, extent, space, row, (c + 1) as u64);
        let (a, b) = (across_at(extent, row, c as u64), across_at(extent, row, (c + 1) as u64));
        monotone::lemma_sum_order(axes.origin.x, a, axes.origin.x, b);
    }
    if r + 1 < 5 {
        lemma_rows((r + 1) as u64);
        let next = forehead_row((r + 1) as u64);
        lemma_across(extent, next, 0, 0);
        lemma_level_point(axes, extent, space, next, 0);
        space.lemma_order(row.height);
        next.height.lemma_order(row.height);
        monotone::lemma_product_order(space, row.height, space, next.height);
        monotone::lemma_sum_order(
            axes.origin.y,
            space * row.height,
            axes.origin.y,
            space * next.height,
        );
    }
    reveal_with_fuel(rows_points, 6);
    lemma_rows(0);
    lemma_rows(1);
    lemma_rows(2);
    lemma_rows(3);
    lemma_rows(4);
}

/// A point of a level forehead.
proof fn lemma_level_point(axes: Axes, extent: Extent, space: Double, row: Row, column: u64)
    requires
        is_level(axes),
        is_within(space, 1400),
        space.value() >= 0,
        is_within(across_at(extent, row, column), 1430),
        row.height.is_finite(),
        0 < row.height.value() <= pow2(1074),
    ensures
        ({
            let p = spec_forehead_point(axes, extent, space, row, column);
            &&& p.x.value() == (axes.origin.x + across_at(extent, row, column)).value()
            &&& p.y.value() == (axes.origin.y + space * row.height).value()
            &&& axes.origin.y.value() <= p.y.value() <= (axes.origin.y + space).value()
            &&& (space * row.height).is_finite()
        }),
{
    let zero = Double { bits: 0 };
    let one = Double::integer(1);
    bounds::lemma_zero();
    bounds::lemma_one();
    zero.lemma_order(zero);
    let a = across_at(extent, row, column);
    let h = row.height;
    h.lemma_order(one);
    space.lemma_order(h);
    placing::lemma_factors_commute(one, a);
    placing::lemma_factors_commute(zero, a);
    placing::lemma_factors_commute(one, space);
    bounds::lemma_times_one(a);
    bounds::lemma_times_one(space);
    bounds::lemma_zero_product(zero, a);
    bounds::lemma_zero_product(zero, space);
    bounds::lemma_zero_product(zero * space, h);
    monotone::lemma_share_error(space, h);
    let up = space * h;
    up.lemma_order(space);
    placing::lemma_factors_commute(space, h);
    monotone::lemma_scaled_order(h, zero, space);
    bounds::lemma_zero_product(h, zero);
    (h * zero).lemma_order(zero);
    // across
    let o = axes.origin;
    bounds::lemma_within_wider(o.x, 1400, 1430);
    bounds::lemma_sum_within(o.x, a, 1430);
    bounds::lemma_plus_zero(o.x + a, zero * space * h);
    // up
    bounds::lemma_plus_zero(o.y, zero * a);
    let base = o.y + zero * a;
    base.lemma_order(o.y);
    bounds::lemma_sum_within(o.y, up, 1400);
    bounds::lemma_sum_within(o.y, space, 1400);
    monotone::lemma_sum_order(base, up, o.y, up);
    monotone::lemma_sum_order(o.y, up, base, up);
    monotone::lemma_sum_order(o.y, zero, o.y, up);
    monotone::lemma_sum_order(o.y, up, o.y, space);
    bounds::lemma_plus_zero(o.y, zero);
}

/// Refining keeps what there is and adds the middles of long edges: each vertex, and each middle of
/// an edge that there is room for, is among the vertices then, or is as good as one of them.
pub proof fn law_refining_keeps_vertices(vertices: Seq<Point>, bounds: BoundingBox, i: int)
    requires
        refined_once(vertices, bounds) is Some,
    ensures
        ({
            let next = refined_once(vertices, bounds)->0;
            let local = local_points(vertices, bounds);
            let triangles = spec_delaunay(local);
            let edges = long_edges(local, triangles, triangles.len() as int);
            let kept = |p: Point| next.contains(p) || has_near(next, p, bounds.width, bounds.height);
            &&& 0 <= i < vertices.len() ==> kept(vertices[i])
            &&& 0 <= i < edges.len() && vertices.len() + i < 600 ==> kept(
                middle(vertices[edges[i].left as int], vertices[edges[i].right as int]),
            )
        }),
{
    let local = local_points(vertices, bounds);
    let triangles = spec_delaunay(local);
    let edges = long_edges(local, triangles, triangles.len() as int);
    let room = (600 - vertices.len()) as nat;
    let count = if edges.len() < room {
        edges.len()
    } else {
        room
    };
    let all = vertices + middles(vertices, edges, count);
    law_points_are_kept_or_near(all, bounds.width, bounds.height);
    if 0 <= i < vertices.len() {
        assert(all[i] == vertices[i]);
    }
    if 0 <= i < edges.len() && vertices.len() + i < 600 {
        assert(all[vertices.len() + i] == middle(
            vertices[edges[i].left as int],
            vertices[edges[i].right as int],
        ));
    }
}

/// Points are as good as one where they are within two thousandths of the box of each other along
/// both axes, and are not where they are eight thousandths apart along one, in powers of two.
pub proof fn law_near_points_are_one(a: Point, b: Point, width: Double, height: Double)
    requires
        is_within((a.x - b.x) / width, 1084),
        is_within((a.y - b.y) / height, 1084),
    ensures
        ((a.x - b.x) / width).magnitude() <= pow2(1065) && ((a.y - b.y) / height).magnitude()
            <= pow2(1065) ==> is_near(a, b, width, height),
        ((a.x - b.x) / width).magnitude() >= pow2(1067) || ((a.y - b.y) / height).magnitude()
            >= pow2(1067) ==> !is_near(a, b, width, height),
{
    let (x, y) = ((a.x - b.x) / width, (a.y - b.y) / height);
    let limit = Double::ratio(25, 1_000_000);
    let unit = pow2(1074) as int;
    vstd::arithmetic::power2::lemma_pow2_pos(1074);
    vstd::arithmetic::power2::lemma2_to64();
    vstd::arithmetic::power2::lemma_pow2_adds(15, 1059);
    vstd::arithmetic::power2::lemma_pow2_adds(16, 1058);
    bounds::lemma_nearest_within(false, 25u64 * pow2(1074), 1_000_000, 1059);
    bounds::lemma_nearest_signed(false, 25u64 * pow2(1074), 1_000_000);
    bounds::lemma_share_above(25, 1_000_000, 1058);
    bounds::lemma_product_within(x, x, 1084);
    bounds::lemma_product_within(y, y, 1084);
    bounds::lemma_sum_within(x * x, y * y, 1094);
    relief::lemma_square_not_negative(x);
    relief::lemma_square_not_negative(y);
    let (p, q) = (x * x, y * y);
    p.lemma_order(q);
    let zero = Double { bits: 0 };
    bounds::lemma_zero();
    zero.lemma_order(zero);
    if x.magnitude() <= pow2(1065) && y.magnitude() <= pow2(1065) {
        bounds::lemma_product_within(x, x, 1065);
        bounds::lemma_product_within(y, y, 1065);
        bounds::lemma_sum_within(p, q, 1056);
        (p + q).lemma_order(limit);
        vstd::arithmetic::power2::lemma_pow2_strictly_increases(1057, 1058);
    }
    if x.magnitude() >= pow2(1067) || y.magnitude() >= pow2(1067) {
        vstd::arithmetic::power2::lemma_pow2_strictly_increases(1059, 1060);
        monotone::lemma_sum_order(p, zero, p, q);
        bounds::lemma_plus_zero(p, zero);
        monotone::lemma_sum_order(zero, q, p, q);
        lemma_zero_plus(zero, q);
        let (u, v) = (x.abs(), y.abs());
        u.lemma_order(x);
        v.lemma_order(y);
        assert(u * u == p && v * v == q) by {
            reveal(Double::spec_mul);
        }
        if x.magnitude() >= pow2(1067) {
            monotone::lemma_product_above(u, u, 1067, 1067);
        } else {
            monotone::lemma_product_above(v, v, 1067, 1067);
        }
        limit.lemma_order(p + q);
    }
}

/// No two of some points are as good as one.
spec fn are_apart(points: Seq<Point>, width: Double, height: Double) -> bool {
    forall|i: int, j: int|
        0 <= i < j < points.len() ==> !is_near(
            #[trigger] points[i],
            #[trigger] points[j],
            width,
            height,
        )
}

/// Some points begin with others.
spec fn begins_with(points: Seq<Point>, others: Seq<Point>) -> bool {
    &&& others.len() <= points.len()
    &&& forall|i: int| 0 <= i < others.len() ==> points[i] == #[trigger] others[i]
}

/// Points that are apart, and stand first, are all kept.
proof fn lemma_first_are_kept(
    points: Seq<Point>,
    others: Seq<Point>,
    width: Double,
    height: Double,
    k: int,
)
    requires
        begins_with(points, others),
        are_apart(others, width, height),
        0 <= k <= points.len(),
    ensures
        k <= others.len() ==> distinct(points, width, height, k) == others.take(k),
        k >= others.len() ==> begins_with(distinct(points, width, height, k), others),
    decreases k,
{
    if k > 0 {
        lemma_first_are_kept(points, others, width, height, k - 1);
        let before = distinct(points, width, height, k - 1);
        if k <= others.len() {
            assert(before == others.take(k - 1));
            assert(!has_near(before, points[k - 1], width, height)) by {
                if has_near(before, points[k - 1], width, height) {
                    let i = choose|i: int|
                        0 <= i < before.len() && is_near(
                            #[trigger] before[i],
                            points[k - 1],
                            width,
                            height,
                        );
                    assert(before[i] == others[i] && points[k - 1] == others[k - 1]);
                }
            }
            assert(distinct(points, width, height, k) =~= others.take(k));
            if k == others.len() {
                assert(others.take(k) =~= others);
            }
        } else {
            let after = distinct(points, width, height, k);
            assert forall|i: int| 0 <= i < others.len() implies after[i] == #[trigger] others[i] by {
                assert(before[i] == others[i]);
            }
        }
    } else {
        assert(others.take(0) =~= Seq::<Point>::empty());
        if others.len() == 0 {
            assert(begins_with(distinct(points, width, height, 0), others));
        }
    }
}

proof fn lemma_left_are_apart(points: Seq<Point>, width: Double, height: Double)
    ensures
        are_apart(deduplicated(points, width, height), width, height),
{
    let left = deduplicated(points, width, height);
    assert forall|i: int, j: int| 0 <= i < j < left.len() implies !is_near(
        #[trigger] left[i],
        #[trigger] left[j],
        width,
        height,
    ) by {
        mesh::law_vertices_are_apart(points, width, height, i, j);
    }
}

/// Refining keeps all vertices, at the beginning.
proof fn lemma_refined_begins(vertices: Seq<Point>, bounds: BoundingBox, passes: int)
    requires
        are_apart(vertices, bounds.width, bounds.height),
    ensures
        begins_with(refined(vertices, bounds, passes), vertices),
        are_apart(refined(vertices, bounds, passes), bounds.width, bounds.height),
    decreases passes,
{
    if passes > 0 {
        if let Some(next) = refined_once(vertices, bounds) {
            let local = local_points(vertices, bounds);
            let triangles = spec_delaunay(local);
            let edges = long_edges(local, triangles, triangles.len() as int);
            let room = (600 - vertices.len()) as nat;
            let count = if edges.len() < room {
                edges.len()
            } else {
                room
            };
            let all = vertices + middles(vertices, edges, count);
            assert(begins_with(all, vertices));
            lemma_first_are_kept(
                all,
                vertices,
                bounds.width,
                bounds.height,
                all.len() as int,
            );
            lemma_left_are_apart(all, bounds.width, bounds.height);
            assert(next == deduplicated(all, bounds.width, bounds.height));
            lemma_refined_begins(next, bounds, passes - 1);
            let last = refined(next, bounds, passes - 1);
            assert forall|i: int| 0 <= i < vertices.len() implies last[i] == #[trigger] vertices[i] by {
                assert(next[i] == vertices[i]);
            }
        }
    }
}

/// A mesh covers the whole face: the landmarks that it begins with and the points of the forehead,
/// warped by the turn of the head, are vertices of it, or as good as vertices of it.
pub proof fn law_mesh_covers_the_face(face: FaceView, i: int)
    requires
        spec_polygon_face_mesh(face) is Some,
        ({
            let (width, height) = (face.bounding_box.width, face.bounding_box.height);
            let landmarks = deduplicated(base_vertices(face), width, height);
            0 <= i < landmarks.len() + forehead(face).len()
        }),
    ensures
        ({
            let (width, height) = (face.bounding_box.width, face.bounding_box.height);
            let landmarks = deduplicated(base_vertices(face), width, height);
            let vertices = (spec_polygon_face_mesh(face)->0).vertices;
            let p = warped(face, landmarks + forehead(face))[i];
            vertices.contains(p) || has_near(vertices, p, width, height)
        }),
{
    let bounds = face.bounding_box;
    let (width, height) = (bounds.width, bounds.height);
    let landmarks = deduplicated(base_vertices(face), width, height);
    let all = warped(face, landmarks + forehead(face));
    let turned = deduplicated(all, width, height);
    law_points_are_kept_or_near(all, width, height);
    lemma_left_are_apart(all, width, height);
    let fine = interpolated(turned, bounds);
    lemma_refined_begins(turned, bounds, 6);
    assert(begins_with(fine, turned) && are_apart(fine, width, height));
    let vertices = (spec_polygon_face_mesh(face)->0).vertices;
    assert(vertices == deduplicated(fine, width, height));
    lemma_first_are_kept(fine, fine, width, height, fine.len() as int);
    assert(begins_with(vertices, fine));
    assert(all.len() == landmarks.len() + forehead(face).len());
    let p = all[i];
    if turned.contains(p) {
        let m = choose|m: int| 0 <= m < turned.len() && turned[m] == p;
        assert(fine[m] == turned[m]);
        assert(vertices[m] == fine[m]);
    } else {
        let m = choose|m: int|
            0 <= m < turned.len() && is_near(#[trigger] turned[m], p, width, height);
        assert(fine[m] == turned[m]);
        assert(vertices[m] == fine[m]);
    }
}

} // verus!
