use vstd::prelude::*;
use crate::config::ImageProcessingConfig;
use crate::models::{Contour, ContourInfo, Point, ProcessedImage, Quad, RecError};
use crate::myutils::image::{lemma_area_bound, Plane, MAX_SIDE};
use crate::myutils::math::lemma_product_bound;

verus! {

/// The greatest magnitude of a coordinate of a corner taken relative to the
/// centroid of four, four times enlarged.
pub const MAX_REL: i64 = 0x4_0000_0000;

/// The sum of the `x` coordinates of four corners.
pub open spec fn sum_x(p: Seq<Point>) -> int {
    p[0].x + p[1].x + p[2].x + p[3].x
}

/// The sum of the `y` coordinates of four corners.
pub open spec fn sum_y(p: Seq<Point>) -> int {
    p[0].y + p[1].y + p[2].y + p[3].y
}

/// The `x` coordinate of corner `i` relative to the centroid of the four,
/// four times enlarged so that it is whole.
pub open spec fn rel_x(p: Seq<Point>, i: int) -> int {
    4 * p[i].x - sum_x(p)
}

/// The `y` coordinate of corner `i` relative to the centroid of the four,
/// four times enlarged.
pub open spec fn rel_y(p: Seq<Point>, i: int) -> int {
    4 * p[i].y - sum_y(p)
}

/// The part of the circle in which a direction lies, in the order of its
/// polar angle from just above minus a half turn up to a half turn: 0 where
/// `dy` is negative, 1 on the positive `x` axis and at the origin, 2 where
/// `dy` is positive, 3 on the negative `x` axis.
pub open spec fn sector(dx: int, dy: int) -> int {
    if dy < 0 {
        0
    } else if dy > 0 {
        2
    } else if dx >= 0 {
        1
    } else {
        3
    }
}

/// Whether the polar angle of the direction `(ax, ay)` is strictly less than
/// that of `(bx, by)`.
pub open spec fn angle_lt(ax: int, ay: int, bx: int, by: int) -> bool {
    sector(ax, ay) < sector(bx, by) || (sector(ax, ay) == sector(bx, by) && ay != 0 && ax * by
        - ay * bx > 0)
}

/// Whether corner `j` comes before corner `i` when the four are sorted by
/// their polar angle about the centroid, corners of equal angle staying in
/// their order.
#[verifier::opaque]
pub open spec fn before(p: Seq<Point>, j: int, i: int) -> bool {
    let lt = angle_lt(rel_x(p, j), rel_y(p, j), rel_x(p, i), rel_y(p, i));
    let gt = angle_lt(rel_x(p, i), rel_y(p, i), rel_x(p, j), rel_y(p, j));
    lt || (!gt && j < i)
}

/// 1 if corner `j` comes before corner `i`, else 0.
pub open spec fn precedes(p: Seq<Point>, j: int, i: int) -> int {
    if before(p, j, i) {
        1
    } else {
        0
    }
}

/// The place of corner `i` among the four sorted by angle: the number of
/// corners that come before it.
pub open spec fn rank(p: Seq<Point>, i: int) -> int {
    precedes(p, 0, i) + precedes(p, 1, i) + precedes(p, 2, i) + precedes(p, 3, i)
}

/// The corner that takes place `k` among the four sorted by angle.
pub open spec fn slot(p: Seq<Point>, k: int) -> int {
    if rank(p, 0) == k {
        0
    } else if rank(p, 1) == k {
        1
    } else if rank(p, 2) == k {
        2
    } else {
        3
    }
}

/// The four corners sorted by their polar angle about the centroid.
pub open spec fn sorted_by_angle(p: Seq<Point>) -> Seq<Point> {
    seq![p[slot(p, 0)], p[slot(p, 1)], p[slot(p, 2)], p[slot(p, 3)]]
}

/// The first of four corners for which `x + y` is least.
pub open spec fn first_min(s: Seq<Point>) -> int {
    let a = if s[1].x + s[1].y < s[0].x + s[0].y {
        1
    } else {
        0int
    };
    let b = if s[2].x + s[2].y < s[a].x + s[a].y {
        2
    } else {
        a
    };
    if s[3].x + s[3].y < s[b].x + s[b].y {
        3
    } else {
        b
    }
}

/// Four corners in the same cyclic order, starting at corner `m`.
pub open spec fn rotated(s: Seq<Point>, m: int) -> Seq<Point> {
    seq![s[m % 4], s[(m + 1) % 4], s[(m + 2) % 4], s[(m + 3) % 4]]
}

/// The canonical order of four corners: sorted by polar angle about their
/// centroid, and starting at the first for which `x + y` is least. On a
/// plane whose `y` axis points down this is clockwise from the top left.
pub open spec fn canonical_order(p: Seq<Point>) -> Seq<Point> {
    let s = sorted_by_angle(p);
    rotated(s, first_min(s))
}

/// Whether the polar angle of `(ax, ay)` is at most that of `(bx, by)`.
pub open spec fn angle_le(ax: int, ay: int, bx: int, by: int) -> bool {
    !angle_lt(bx, by, ax, ay)
}

/// Of two directions, one has a polar angle that is at most the other's.
pub proof fn lemma_angle_le_total(ax: int, ay: int, bx: int, by: int)
    ensures
        angle_le(ax, ay, bx, by) || angle_le(bx, by, ax, ay),
        angle_le(ax, ay, ax, ay),
{
    assert(ax * by - ay * bx == -(bx * ay - by * ax)) by (nonlinear_arith);
    assert(ax * ay - ay * ax == 0) by (nonlinear_arith);
}

/// To be at most in polar angle is transitive.
pub proof fn lemma_angle_le_transitive(ax: int, ay: int, bx: int, by: int, cx: int, cy: int)
    requires
        angle_le(ax, ay, bx, by),
        angle_le(bx, by, cx, cy),
    ensures
        angle_le(ax, ay, cx, cy),
{
    assert(ax * by - ay * bx == -(bx * ay - by * ax)) by (nonlinear_arith);
    assert(bx * cy - by * cx == -(cx * by - cy * bx)) by (nonlinear_arith);
    assert(ax * cy - ay * cx == -(cx * ay - cy * ax)) by (nonlinear_arith);
    if sector(ax, ay) == sector(bx, by) && sector(bx, by) == sector(cx, cy) && ay != 0 {
        let ab = ax * by - ay * bx;
        let bc = bx * cy - by * cx;
        let ac = ax * cy - ay * cx;
        assert(ab >= 0);
        assert(bc >= 0);
        assert(by * ac == cy * ab + ay * bc) by (nonlinear_arith)
            requires
                ab == ax * by - ay * bx,
                bc == bx * cy - by * cx,
                ac == ax * cy - ay * cx,
        ;
        if ay > 0 {
            assert(ac >= 0) by (nonlinear_arith)
                requires
                    by * ac == cy * ab + ay * bc,
                    ab >= 0,
                    bc >= 0,
                    ay > 0,
                    by > 0,
                    cy > 0,
            ;
        } else {
            assert(ac >= 0) by (nonlinear_arith)
                requires
                    by * ac == cy * ab + ay * bc,
                    ab >= 0,
                    bc >= 0,
                    ay < 0,
                    by < 0,
                    cy < 0,
            ;
        }
    }
}

/// Among four corners, to come before is a strict total order: no corner
/// comes before itself, of two corners exactly one comes before the other,
/// and what comes before a corner comes before all that follow it.
pub proof fn lemma_before_order(p: Seq<Point>, i: int, j: int, k: int)
    ensures
        !before(p, i, i),
        i != j ==> (before(p, i, j) <==> !before(p, j, i)),
        before(p, i, j) && before(p, j, k) ==> before(p, i, k),
{
    reveal(before);
    let (ax, ay) = (rel_x(p, i), rel_y(p, i));
    let (bx, by) = (rel_x(p, j), rel_y(p, j));
    let (cx, cy) = (rel_x(p, k), rel_y(p, k));
    lemma_angle_le_total(ax, ay, ax, ay);
    lemma_angle_le_total(ax, ay, bx, by);
    lemma_angle_le_total(bx, by, cx, cy);
    lemma_angle_le_total(ax, ay, cx, cy);
    if before(p, i, j) && before(p, j, k) {
        lemma_angle_le_transitive(ax, ay, bx, by, cx, cy);
        if angle_le(cx, cy, ax, ay) {
            lemma_angle_le_transitive(cx, cy, ax, ay, bx, by);
            lemma_angle_le_transitive(bx, by, cx, cy, ax, ay);
        }
    }
}

/// The places of four corners among them sorted are the four places: every
/// place is taken by exactly one corner.
pub proof fn lemma_rank_bijective(p: Seq<Point>)
    ensures
        forall|i: int| 0 <= i < 4 ==> 0 <= #[trigger] rank(p, i) < 4,
        forall|i: int, j: int|
            0 <= i < 4 && 0 <= j < 4 && i != j ==> #[trigger] rank(p, i) != #[trigger] rank(p, j),
        forall|k: int| 0 <= k < 4 ==> 0 <= #[trigger] slot(p, k) < 4 && rank(p, slot(p, k)) == k,
        forall|i: int| 0 <= i < 4 ==> slot(p, #[trigger] rank(p, i)) == i,
{
    lemma_before_order(p, 0, 0, 0);
    lemma_before_order(p, 1, 1, 1);
    lemma_before_order(p, 2, 2, 2);
    lemma_before_order(p, 3, 3, 3);
    lemma_before_order(p, 0, 1, 2);
    lemma_before_order(p, 0, 1, 3);
    lemma_before_order(p, 0, 2, 1);
    lemma_before_order(p, 0, 2, 3);
    lemma_before_order(p, 0, 3, 1);
    lemma_before_order(p, 0, 3, 2);
    lemma_before_order(p, 1, 0, 2);
    lemma_before_order(p, 1, 0, 3);
    lemma_before_order(p, 1, 2, 0);
    lemma_before_order(p, 1, 2, 3);
    lemma_before_order(p, 1, 3, 0);
    lemma_before_order(p, 1, 3, 2);
    lemma_before_order(p, 2, 0, 1);
    lemma_before_order(p, 2, 0, 3);
    lemma_before_order(p, 2, 1, 0);
    lemma_before_order(p, 2, 1, 3);
    lemma_before_order(p, 2, 3, 0);
    lemma_before_order(p, 2, 3, 1);
    lemma_before_order(p, 3, 0, 1);
    lemma_before_order(p, 3, 0, 2);
    lemma_before_order(p, 3, 1, 0);
    lemma_before_order(p, 3, 1, 2);
    lemma_before_order(p, 3, 2, 0);
    lemma_before_order(p, 3, 2, 1);
}

/// Every corner is found among the four sorted by angle, at its place.
pub proof fn lemma_sorted_holds_every_corner(p: Seq<Point>, i: int)
    requires
        p.len() == 4,
        0 <= i < 4,
    ensures
        0 <= rank(p, i) < 4,
        sorted_by_angle(p)[rank(p, i)] == p[i],
{
    lemma_rank_bijective(p);
    assert(slot(p, rank(p, i)) == i);
}

/// Among the four sorted by angle, no corner has a polar angle about the
/// centroid that is less than that of the corner before it.
pub proof fn lemma_sorted_ascends(p: Seq<Point>, k: int)
    requires
        p.len() == 4,
        0 <= k < 3,
    ensures
        !before(p, slot(p, k + 1), slot(p, k)),
        angle_le(
            rel_x(p, slot(p, k)),
            rel_y(p, slot(p, k)),
            rel_x(p, slot(p, k + 1)),
            rel_y(p, slot(p, k + 1)),
        ),
{
    lemma_rank_bijective(p);
    let i = slot(p, k);
    let j = slot(p, k + 1);
    assert(rank(p, i) == k);
    assert(rank(p, j) == k + 1);
    lemma_before_order(p, 0, j, i);
    lemma_before_order(p, 1, j, i);
    lemma_before_order(p, 2, j, i);
    lemma_before_order(p, 3, j, i);
    lemma_before_order(p, i, i, i);
    lemma_before_order(p, j, j, j);
    assert(!before(p, j, i));
    reveal(before);
}

/// Whether `a`, `b`, `c` and `d` are the four indices 0 to 3 in some order.
pub open spec fn is_arrangement(a: int, b: int, c: int, d: int) -> bool {
    &&& 0 <= a < 4
    &&& 0 <= b < 4
    &&& 0 <= c < 4
    &&& 0 <= d < 4
    &&& a != b
    &&& a != c
    &&& a != d
    &&& b != c
    &&& b != d
    &&& c != d
}

/// Whether no two of four corners have the same polar angle about their
/// centroid.
pub open spec fn distinct_angles(p: Seq<Point>) -> bool {
    forall|i: int, j: int|
        0 <= i < 4 && 0 <= j < 4 && i != j ==> #[trigger] angle_lt(
            rel_x(p, i),
            rel_y(p, i),
            rel_x(p, j),
            rel_y(p, j),
        ) || angle_lt(rel_x(p, j), rel_y(p, j), rel_x(p, i), rel_y(p, i))
}

/// Where two corners of different angle stand in another arrangement of the
/// same four, the one comes before the other there as it does here.
proof fn lemma_before_rearranged(p: Seq<Point>, q: Seq<Point>, j: int, i: int, sj: int, si: int)
    requires
        p.len() == 4,
        q.len() == 4,
        sum_x(p) == sum_x(q),
        sum_y(p) == sum_y(q),
        0 <= i < 4,
        0 <= j < 4,
        0 <= si < 4,
        0 <= sj < 4,
        q[i] == p[si],
        q[j] == p[sj],
        i != j <==> si != sj,
        distinct_angles(p),
    ensures
        before(q, j, i) == before(p, sj, si),
{
    reveal(before);
    if si != sj {
        assert(angle_lt(rel_x(p, si), rel_y(p, si), rel_x(p, sj), rel_y(p, sj)) || angle_lt(
            rel_x(p, sj),
            rel_y(p, sj),
            rel_x(p, si),
            rel_y(p, si),
        ));
        lemma_angle_le_total(rel_x(p, si), rel_y(p, si), rel_x(p, sj), rel_y(p, sj));
    }
}

/// The four corners sorted by angle do not depend on the order in which the
/// corners are given, as long as no two have the same angle.
pub proof fn lemma_sorted_independent_of_arrangement(
    p: Seq<Point>,
    a: int,
    b: int,
    c: int,
    d: int,
)
    requires
        p.len() == 4,
        is_arrangement(a, b, c, d),
        distinct_angles(p),
    ensures
        sorted_by_angle(seq![p[a], p[b], p[c], p[d]]) == sorted_by_angle(p),
{
    let q = seq![p[a], p[b], p[c], p[d]];
    let sigma = seq![a, b, c, d];
    assert(sum_x(q) == sum_x(p));
    assert(sum_y(q) == sum_y(p));
    assert forall|j: int, i: int| 0 <= j < 4 && 0 <= i < 4 implies #[trigger] before(q, j, i)
        == before(p, sigma[j], sigma[i]) by {
        lemma_before_rearranged(p, q, j, i, sigma[j], sigma[i]);
    }
    assert forall|i: int| 0 <= i < 4 implies #[trigger] rank(q, i) == rank(p, sigma[i]) by {
        assert(before(q, 0, i) == before(p, sigma[0], sigma[i]));
        assert(before(q, 1, i) == before(p, sigma[1], sigma[i]));
        assert(before(q, 2, i) == before(p, sigma[2], sigma[i]));
        assert(before(q, 3, i) == before(p, sigma[3], sigma[i]));
    }
    lemma_rank_bijective(p);
    lemma_rank_bijective(q);
    assert forall|k: int| 0 <= k < 4 implies q[slot(q, k)] == p[slot(p, k)] by {
        let i = slot(q, k);
        assert(rank(q, i) == k);
        assert(rank(p, sigma[i]) == k);
        assert(slot(p, rank(p, sigma[i])) == sigma[i]);
        assert(q[i] == p[sigma[i]]);
    }
    assert(sorted_by_angle(q) =~= sorted_by_angle(p));
}

/// The canonical order of four corners does not depend on the order in which
/// they are given, as long as no two have the same polar angle about the
/// centroid: any rotation or reflection of the same corners is ordered alike.
pub proof fn lemma_order_independent_of_arrangement(p: Seq<Point>, a: int, b: int, c: int, d: int)
    requires
        p.len() == 4,
        is_arrangement(a, b, c, d),
        distinct_angles(p),
    ensures
        canonical_order(seq![p[a], p[b], p[c], p[d]]) == canonical_order(p),
{
    lemma_sorted_independent_of_arrangement(p, a, b, c, d);
}

/// The corners that take four different places are four different corners.
proof fn lemma_slots_arranged(p: Seq<Point>, k0: int, k1: int, k2: int, k3: int)
    requires
        is_arrangement(k0, k1, k2, k3),
    ensures
        is_arrangement(slot(p, k0), slot(p, k1), slot(p, k2), slot(p, k3)),
{
    lemma_rank_bijective(p);
    assert(rank(p, slot(p, k0)) == k0);
    assert(rank(p, slot(p, k1)) == k1);
    assert(rank(p, slot(p, k2)) == k2);
    assert(rank(p, slot(p, k3)) == k3);
}

/// Corners in canonical order stay as they are when ordered again, as long
/// as no two have the same polar angle about the centroid.
pub proof fn lemma_order_idempotent(p: Seq<Point>)
    requires
        p.len() == 4,
        distinct_angles(p),
    ensures
        canonical_order(canonical_order(p)) == canonical_order(p),
{
    let s = sorted_by_angle(p);
    let m = first_min(s);
    let k0 = m % 4;
    let k1 = (m + 1) % 4;
    let k2 = (m + 2) % 4;
    let k3 = (m + 3) % 4;
    assert(0 <= m < 4);
    assert(is_arrangement(k0, k1, k2, k3));
    lemma_slots_arranged(p, k0, k1, k2, k3);
    let q = seq![p[slot(p, k0)], p[slot(p, k1)], p[slot(p, k2)], p[slot(p, k3)]];
    assert(rotated(s, m) =~= q);
    lemma_order_independent_of_arrangement(p, slot(p, k0), slot(p, k1), slot(p, k2), slot(p, k3));
}

/// Whether the polar angle of `(ax, ay)` is strictly less than that of
/// `(bx, by)`.
fn angle_less(ax: i64, ay: i64, bx: i64, by: i64) -> (r: bool)
    requires
        -MAX_REL <= ax <= MAX_REL,
        -MAX_REL <= ay <= MAX_REL,
        -MAX_REL <= bx <= MAX_REL,
        -MAX_REL <= by <= MAX_REL,
    ensures
        r == angle_lt(ax as int, ay as int, bx as int, by as int),
{
    let sa: u8 = if ay < 0 {
        0
    } else if ay > 0 {
        2
    } else if ax >= 0 {
        1
    } else {
        3
    };
    let sb: u8 = if by < 0 {
        0
    } else if by > 0 {
        2
    } else if bx >= 0 {
        1
    } else {
        3
    };
    if sa != sb {
        return sa < sb;
    }
    if ay == 0 {
        return false;
    }
    proof {
        crate::myutils::math::lemma_product_bound(ax as int, by as int, MAX_REL as int);
        crate::myutils::math::lemma_product_bound(ay as int, bx as int, MAX_REL as int);
    }
    let cross: i128 = (ax as i128) * (by as i128) - (ay as i128) * (bx as i128);
    cross > 0
}

/// Whether the directions in `rx` and `ry` are those of the corners `p`
/// relative to their centroid.
spec fn relative_to_centroid(rx: Seq<i64>, ry: Seq<i64>, p: Seq<Point>) -> bool {
    &&& p.len() == 4
    &&& rx.len() == 4
    &&& ry.len() == 4
    &&& forall|k: int| 0 <= k < 4 ==> #[trigger] rx[k] == rel_x(p, k) && ry[k] == rel_y(p, k)
}

/// The directions of four corners relative to their centroid.
fn directions(pts: &[Point; 4]) -> (r: ([i64; 4], [i64; 4]))
    ensures
        relative_to_centroid(r.0@, r.1@, pts@),
{
    let sx: i64 = pts[0].x as i64 + pts[1].x as i64 + pts[2].x as i64 + pts[3].x as i64;
    let sy: i64 = pts[0].y as i64 + pts[1].y as i64 + pts[2].y as i64 + pts[3].y as i64;
    let rx: [i64; 4] = [
        4 * (pts[0].x as i64) - sx,
        4 * (pts[1].x as i64) - sx,
        4 * (pts[2].x as i64) - sx,
        4 * (pts[3].x as i64) - sx,
    ];
    let ry: [i64; 4] = [
        4 * (pts[0].y as i64) - sy,
        4 * (pts[1].y as i64) - sy,
        4 * (pts[2].y as i64) - sy,
        4 * (pts[3].y as i64) - sy,
    ];
    (rx, ry)
}

/// 1 if corner `j` comes before corner `i`, else 0.
fn precedes_at(rx: &[i64; 4], ry: &[i64; 4], j: usize, i: usize, Ghost(p): Ghost<Seq<Point>>) -> (r:
    usize)
    requires
        relative_to_centroid(rx@, ry@, p),
        j < 4,
        i < 4,
    ensures
        r == precedes(p, j as int, i as int),
{
    reveal(before);
    assert(rx@[j as int] == rel_x(p, j as int) && ry@[j as int] == rel_y(p, j as int));
    assert(rx@[i as int] == rel_x(p, i as int) && ry@[i as int] == rel_y(p, i as int));
    let lt: bool = angle_less(rx[j], ry[j], rx[i], ry[i]);
    let gt: bool = angle_less(rx[i], ry[i], rx[j], ry[j]);
    if lt || (!gt && j < i) {
        1
    } else {
        0
    }
}

/// The place of corner `i` among the four sorted by angle.
fn rank_at(rx: &[i64; 4], ry: &[i64; 4], i: usize, Ghost(p): Ghost<Seq<Point>>) -> (r: usize)
    requires
        relative_to_centroid(rx@, ry@, p),
        i < 4,
    ensures
        r == rank(p, i as int),
{
    let a: usize = precedes_at(rx, ry, 0, i, Ghost(p));
    let b: usize = precedes_at(rx, ry, 1, i, Ghost(p));
    let c: usize = precedes_at(rx, ry, 2, i, Ghost(p));
    let d: usize = precedes_at(rx, ry, 3, i, Ghost(p));
    a + b + c + d
}

/// The corner that takes place `k` among the four sorted by angle.
fn slot_at(ranks: &[usize; 4], k: usize, Ghost(p): Ghost<Seq<Point>>) -> (r: usize)
    requires
        forall|c: int| 0 <= c < 4 ==> #[trigger] ranks@[c] == rank(p, c),
    ensures
        r == slot(p, k as int),
        r < 4,
{
    if ranks[0] == k {
        0
    } else if ranks[1] == k {
        1
    } else if ranks[2] == k {
        2
    } else {
        3
    }
}

/// The first of four corners for which `x + y` is least.
fn min_sum_index(s: &[Point; 4]) -> (r: usize)
    ensures
        r == first_min(s@),
        r < 4,
{
    let s0: i64 = s[0].x as i64 + s[0].y as i64;
    let s1: i64 = s[1].x as i64 + s[1].y as i64;
    let s2: i64 = s[2].x as i64 + s[2].y as i64;
    let s3: i64 = s[3].x as i64 + s[3].y as i64;
    let mut index: usize = 0;
    let mut least: i64 = s0;
    if s1 < least {
        index = 1;
        least = s1;
    }
    if s2 < least {
        index = 2;
        least = s2;
    }
    if s3 < least {
        index = 3;
    }
    index
}

/// Brings four corners into their canonical order.
fn order_corners(pts: &mut [Point; 4])
    ensures
        final(pts)@ == canonical_order(old(pts)@),
{
    let ghost p = pts@;
    let (rx, ry) = directions(pts);
    let ranks: [usize; 4] = [
        rank_at(&rx, &ry, 0, Ghost(p)),
        rank_at(&rx, &ry, 1, Ghost(p)),
        rank_at(&rx, &ry, 2, Ghost(p)),
        rank_at(&rx, &ry, 3, Ghost(p)),
    ];
    let sorted: [Point; 4] = [
        pts[slot_at(&ranks, 0, Ghost(p))],
        pts[slot_at(&ranks, 1, Ghost(p))],
        pts[slot_at(&ranks, 2, Ghost(p))],
        pts[slot_at(&ranks, 3, Ghost(p))],
    ];
    assert(sorted@ =~= sorted_by_angle(p));
    let m: usize = min_sum_index(&sorted);
    let ordered: [Point; 4] = [
        sorted[m % 4],
        sorted[(m + 1) % 4],
        sorted[(m + 2) % 4],
        sorted[(m + 3) % 4],
    ];
    assert(ordered@ =~= rotated(sorted@, m as int));
    *pts = ordered;
}

/// The cross product of two positions taken as vectors.
pub open spec fn cross(a: Point, b: Point) -> int {
    a.x * b.y - b.x * a.y
}

/// The point that follows point `i` on a closed contour of `n` points.
pub open spec fn next_index(i: int, n: int) -> int {
    if i + 1 == n {
        0
    } else {
        i + 1
    }
}

/// The sum of the cross products of the first `n` edges of a closed contour.
pub open spec fn edge_sum(points: Seq<Point>, n: int) -> int
    decreases n,
{
    if n <= 0 {
        0
    } else {
        edge_sum(points, n - 1) + cross(points[n - 1], points[next_index(n - 1, points.len() as int)])
    }
}

/// Twice the area that a closed contour encloses: the magnitude of the sum
/// of the cross products of its edges.
pub open spec fn spec_area2(points: Seq<Point>) -> int {
    let s = edge_sum(points, points.len() as int);
    if s < 0 {
        -s
    } else {
        s
    }
}

/// The least `x` among the points.
pub open spec fn least_x(points: Seq<Point>) -> int
    decreases points.len(),
{
    if points.len() <= 1 {
        points[0].x as int
    } else if points.last().x < least_x(points.drop_last()) {
        points.last().x as int
    } else {
        least_x(points.drop_last())
    }
}

/// The least `y` among the points.
pub open spec fn least_y(points: Seq<Point>) -> int
    decreases points.len(),
{
    if points.len() <= 1 {
        points[0].y as int
    } else if points.last().y < least_y(points.drop_last()) {
        points.last().y as int
    } else {
        least_y(points.drop_last())
    }
}

/// The greatest `x` among the points.
pub open spec fn greatest_x(points: Seq<Point>) -> int
    decreases points.len(),
{
    if points.len() <= 1 {
        points[0].x as int
    } else if points.last().x > greatest_x(points.drop_last()) {
        points.last().x as int
    } else {
        greatest_x(points.drop_last())
    }
}

/// The greatest `y` among the points.
pub open spec fn greatest_y(points: Seq<Point>) -> int
    decreases points.len(),
{
    if points.len() <= 1 {
        points[0].y as int
    } else if points.last().y > greatest_y(points.drop_last()) {
        points.last().y as int
    } else {
        greatest_y(points.drop_last())
    }
}

/// The least of four numbers, or zero if that is negative.
pub open spec fn least_gap(a: int, b: int, c: int, d: int) -> int {
    let ab = if a < b {
        a
    } else {
        b
    };
    let cd = if c < d {
        c
    } else {
        d
    };
    let m = if ab < cd {
        ab
    } else {
        cd
    };
    if m < 0 {
        0
    } else {
        m
    }
}

/// The margin of a contour on a plane of the given size: the least distance
/// from a side of the contour's bounding rectangle to the plane's edge on
/// that side, and zero where the rectangle touches or crosses an edge. The
/// rectangle spans the columns from the least to the greatest `x`, both
/// included, and the rows likewise. A contour without points has margin zero.
pub open spec fn spec_margin(points: Seq<Point>, width: int, height: int) -> int {
    if points.len() == 0 {
        0
    } else {
        least_gap(
            least_x(points),
            least_y(points),
            width - greatest_x(points) - 1,
            height - greatest_y(points) - 1,
        )
    }
}

/// Twice the score of a candidate outline: its area less the penalty for
/// each pixel of its margin.
pub open spec fn spec_score2(info: &ContourInfo, width: int, height: int) -> int {
    info.area2 - 2 * ImageProcessingConfig::MARGIN_PENALTY * spec_margin(info.points@, width, height)
}

/// Whether a contour encloses a large enough share of the plane to be the
/// sheet's outline.
pub open spec fn large_enough(points: Seq<Point>, width: int, height: int) -> bool {
    spec_area2(points) * ImageProcessingConfig::MIN_AREA_RATIO_DEN >= 2
        * ImageProcessingConfig::MIN_AREA_RATIO_NUM * (width * height)
}

/// The contours that are large enough, by their indices in order.
pub open spec fn kept_indices(contours: Seq<Contour>, width: int, height: int) -> Seq<int>
    decreases contours.len(),
{
    if contours.len() == 0 {
        Seq::empty()
    } else if large_enough(contours.last().points@, width, height) {
        kept_indices(contours.drop_last(), width, height).push(contours.len() - 1)
    } else {
        kept_indices(contours.drop_last(), width, height)
    }
}

/// The first of the first `n` scores that is the greatest of them.
pub open spec fn first_max_index(scores: Seq<int>, n: int) -> int
    decreases n,
{
    if n <= 1 {
        0
    } else {
        let b = first_max_index(scores, n - 1);
        if scores[n - 1] > scores[b] {
            n - 1
        } else {
            b
        }
    }
}

/// The scores of the candidates, doubled, in order.
pub open spec fn scores_of(boundaries: Seq<ContourInfo>, width: int, height: int) -> Seq<int> {
    Seq::new(boundaries.len(), |k: int| spec_score2(&boundaries[k], width, height))
}

/// The first of the greatest scores is a score that none before it reaches
/// and none after it exceeds.
pub proof fn lemma_first_max_index(scores: Seq<int>, n: int)
    requires
        1 <= n <= scores.len(),
    ensures
        0 <= first_max_index(scores, n) < n,
        forall|k: int|
            0 <= k < first_max_index(scores, n) ==> #[trigger] scores[k] < scores[first_max_index(
                scores,
                n,
            )],
        forall|k: int|
            first_max_index(scores, n) < k < n ==> #[trigger] scores[k] <= scores[first_max_index(
                scores,
                n,
            )],
    decreases n,
{
    if n > 1 {
        lemma_first_max_index(scores, n - 1);
    }
}

/// Of two candidates of equal area the one with the smaller margin has the
/// greater score: every pixel of margin costs the penalty.
pub proof fn lemma_score_falls_with_margin(a: &ContourInfo, b: &ContourInfo, width: int, height: int)
    requires
        a.area2 == b.area2,
    ensures
        spec_margin(a.points@, width, height) < spec_margin(b.points@, width, height)
            <==> spec_score2(a, width, height) > spec_score2(b, width, height),
        spec_score2(a, width, height) - spec_score2(b, width, height) == 2
            * ImageProcessingConfig::MARGIN_PENALTY * (spec_margin(b.points@, width, height)
            - spec_margin(a.points@, width, height)),
{
    let ma = spec_margin(a.points@, width, height);
    let mb = spec_margin(b.points@, width, height);
    let pen = ImageProcessingConfig::MARGIN_PENALTY as int;
    assert(2 * pen * ma == 100 * ma && 2 * pen * mb == 100 * mb && 2 * pen * (mb - ma) == 100 * (mb
        - ma)) by (nonlinear_arith)
        requires
            pen == 50,
    ;
}

/// Twice the area that a closed contour encloses.
pub fn contour_area2(points: &Vec<Point>) -> (r: u128)
    ensures
        r == spec_area2(points@),
{
    let n: usize = points.len();
    let mut acc: i128 = 0;
    let mut i: usize = 0;
    while i < n
        invariant
            i <= n,
            n == points@.len(),
            acc == edge_sum(points@, i as int),
            -(i * 0x8000_0000_0000_0000) <= acc <= i * 0x8000_0000_0000_0000,
        decreases n - i,
    {
        let a: Point = points[i];
        let b: Point = if i + 1 == n {
            points[0]
        } else {
            points[i + 1]
        };
        proof {
            lemma_product_bound(a.x as int, b.y as int, 0x8000_0000);
            lemma_product_bound(b.x as int, a.y as int, 0x8000_0000);
            assert((i + 1) * 0x8000_0000_0000_0000 == i * 0x8000_0000_0000_0000
                + 0x8000_0000_0000_0000) by (nonlinear_arith);
            assert((i + 1) * 0x8000_0000_0000_0000 <= 0xFFFF_FFFF_FFFF_FFFF
                * 0x8000_0000_0000_0000) by (nonlinear_arith)
                requires
                    i + 1 <= 0xFFFF_FFFF_FFFF_FFFF,
            ;
        }
        let term: i128 = (a.x as i128) * (b.y as i128) - (b.x as i128) * (a.y as i128);
        acc = acc + term;
        i += 1;
    }
    if acc < 0 {
        (-acc) as u128
    } else {
        acc as u128
    }
}

/// The extremes of a contour's points: the least `x`, the least `y`, the
/// greatest `x` and the greatest `y`.
pub fn extremes(points: &Vec<Point>) -> (r: (i32, i32, i32, i32))
    requires
        points@.len() > 0,
    ensures
        r.0 == least_x(points@),
        r.1 == least_y(points@),
        r.2 == greatest_x(points@),
        r.3 == greatest_y(points@),
{
    let mut left: i32 = points[0].x;
    let mut top: i32 = points[0].y;
    let mut right: i32 = points[0].x;
    let mut bottom: i32 = points[0].y;
    let mut i: usize = 1;
    assert(points@.take(1).len() == 1);
    while i < points.len()
        invariant
            1 <= i <= points@.len(),
            left == least_x(points@.take(i as int)),
            top == least_y(points@.take(i as int)),
            right == greatest_x(points@.take(i as int)),
            bottom == greatest_y(points@.take(i as int)),
        decreases points@.len() - i,
    {
        let p: Point = points[i];
        proof {
            assert(points@.take(i + 1).drop_last() =~= points@.take(i as int));
            assert(points@.take(i + 1).last() == p);
        }
        if p.x < left {
            left = p.x;
        }
        if p.y < top {
            top = p.y;
        }
        if p.x > right {
            right = p.x;
        }
        if p.y > bottom {
            bottom = p.y;
        }
        i += 1;
    }
    assert(points@.take(points@.len() as int) =~= points@);
    (left, top, right, bottom)
}

/// The margin of a contour on a plane of the given size.
pub fn margin(points: &Vec<Point>, width: usize, height: usize) -> (r: i64)
    requires
        width <= MAX_SIDE,
        height <= MAX_SIDE,
    ensures
        r == spec_margin(points@, width as int, height as int),
        0 <= r <= 0x7FFF_FFFF,
{
    if points.len() == 0 {
        return 0;
    }
    let (left, top, right, bottom) = extremes(points);
    let a: i64 = left as i64;
    let b: i64 = top as i64;
    let c: i64 = width as i64 - right as i64 - 1;
    let d: i64 = height as i64 - bottom as i64 - 1;
    let ab: i64 = if a < b {
        a
    } else {
        b
    };
    let cd: i64 = if c < d {
        c
    } else {
        d
    };
    let m: i64 = if ab < cd {
        ab
    } else {
        cd
    };
    if m < 0 {
        0
    } else {
        m
    }
}

/// A copy of the points.
fn copy_points(points: &Vec<Point>) -> (r: Vec<Point>)
    ensures
        r@ == points@,
{
    let mut out: Vec<Point> = Vec::new();
    let mut i: usize = 0;
    while i < points.len()
        invariant
            i <= points@.len(),
            out@ == points@.take(i as int),
        decreases points@.len() - i,
    {
        out.push(points[i]);
        proof {
            assert(out@ =~= points@.take(i + 1));
        }
        i += 1;
    }
    assert(points@.take(points@.len() as int) =~= points@);
    out
}

/// The scores, doubled, of the contours that are large enough, each with the
/// area that it encloses.
pub open spec fn kept_scores(contours: Seq<Contour>, width: int, height: int) -> Seq<int> {
    let kept = kept_indices(contours, width, height);
    Seq::new(
        kept.len(),
        |k: int|
            spec_area2(contours[kept[k]].points@) - 2 * ImageProcessingConfig::MARGIN_PENALTY
                * spec_margin(contours[kept[k]].points@, width, height),
    )
}

/// The contour that is taken for the sheet's outline: of those that are
/// large enough, the first of greatest score.
pub open spec fn spec_best_contour(contours: Seq<Contour>, width: int, height: int) -> int {
    let kept = kept_indices(contours, width, height);
    kept[first_max_index(kept_scores(contours, width, height), kept.len() as int)]
}

/// Why no outline is found among the contours, if none is: no contour is
/// large enough, or the polygon of the best does not have four vertices.
pub open spec fn spec_outline_error(contours: Seq<Contour>, width: int, height: int) -> Option<
    RecError,
> {
    if kept_indices(contours, width, height).len() == 0 {
        Some(RecError::NoBoundaryFound)
    } else if contours[spec_best_contour(contours, width, height)].approx@.len() != 4 {
        Some(RecError::BoundaryShapeInvalid)
    } else {
        None
    }
}

/// The sheet's outline among the contours: the polygon of the best contour,
/// its corners in canonical order.
pub open spec fn spec_outline(contours: Seq<Contour>, width: int, height: int) -> Seq<Point> {
    canonical_order(contours[spec_best_contour(contours, width, height)].approx@)
}

/// The first of the greatest scores of the candidates.
fn best_candidate(boundaries: &Vec<ContourInfo>, width: usize, height: usize) -> (r: usize)
    requires
        boundaries@.len() > 0,
        width <= MAX_SIDE,
        height <= MAX_SIDE,
    ensures
        r == first_max_index(
            scores_of(boundaries@, width as int, height as int),
            boundaries@.len() as int,
        ),
        r < boundaries@.len(),
{
    let ghost scores = scores_of(boundaries@, width as int, height as int);
    let mut best: usize = 0;
    let mut best_margin: i64 = margin(&boundaries[0].points, width, height);
    let mut i: usize = 1;
    while i < boundaries.len()
        invariant
            1 <= i <= boundaries@.len(),
            width <= MAX_SIDE,
            height <= MAX_SIDE,
            scores == scores_of(boundaries@, width as int, height as int),
            best == first_max_index(scores, i as int),
            best < i,
            best_margin == spec_margin(boundaries@[best as int].points@, width as int, height as int),
            0 <= best_margin <= 0x7FFF_FFFF,
        decreases boundaries@.len() - i,
    {
        let m: i64 = margin(&boundaries[i].points, width, height);
        let area: u128 = boundaries[i].area2;
        let best_area: u128 = boundaries[best].area2;
        proof {
            let pen = ImageProcessingConfig::MARGIN_PENALTY as int;
            assert(2 * pen * m == 100 * m && 2 * pen * best_margin == 100 * best_margin)
                by (nonlinear_arith)
                requires
                    pen == 50,
            ;
            assert(scores[i as int] == area - 100 * m);
            assert(scores[best as int] == best_area - 100 * best_margin);
        }
        // The scores are compared without being formed: a score may lie
        // below the least number that fits.
        let penalty: i128 = 100 * (m as i128);
        let best_penalty: i128 = 100 * (best_margin as i128);
        let better: bool = if area >= best_area {
            penalty < best_penalty || area - best_area > (penalty - best_penalty) as u128
        } else {
            penalty < best_penalty && best_area - area < (best_penalty - penalty) as u128
        };
        if better {
            best = i;
            best_margin = m;
        }
        i += 1;
    }
    best
}

/// Finds the sheet's outline among the contours of a plane.
pub struct LocationModule;

impl LocationModule {
    pub fn new() -> (r: LocationModule) {
        LocationModule
    }

    /// The outline of the sheet among the contours traced on the closed
    /// plane: of the contours that are large enough, the first of greatest
    /// score, reduced to four corners in canonical order.
    pub fn infer(&self, processed_image: &ProcessedImage, contours: &Vec<Contour>) -> (r: Result<
        Quad,
        RecError,
    >)
        requires
            processed_image.wf(),
        ensures
            r.is_err() <==> spec_outline_error(
                contours@,
                processed_image.closed.spec_width(),
                processed_image.closed.spec_height(),
            ).is_some(),
            r matches Err(e) ==> spec_outline_error(
                contours@,
                processed_image.closed.spec_width(),
                processed_image.closed.spec_height(),
            ) == Some(e),
            r matches Ok(q) ==> q.points@ == spec_outline(
                contours@,
                processed_image.closed.spec_width(),
                processed_image.closed.spec_height(),
            ),
    {
        let boundaries = match self.detect_boundary(&processed_image.closed, contours) {
            Ok(b) => b,
            Err(e) => {
                return Err(e);
            },
        };
        proof {
            let w = processed_image.closed.spec_width();
            let h = processed_image.closed.spec_height();
            let kept = kept_indices(contours@, w, h);
            let scores = kept_scores(contours@, w, h);
            assert(scores =~= scores_of(boundaries@, w, h));
            if kept.len() > 0 {
                lemma_first_max_index(scores, kept.len() as int);
            }
        }
        let boundary = match self.filter_boundary(&boundaries, &processed_image.closed) {
            Ok(q) => q,
            Err(e) => {
                return Err(e);
            },
        };
        if !self.validate_boundary(&boundary) {
            return Err(RecError::BoundaryShapeInvalid);
        }
        Ok(boundary)
    }

    /// The contours that enclose a large enough share of the plane, in
    /// order, each with its area.
    pub fn detect_boundary(&self, morphology: &Plane, contours: &Vec<Contour>) -> (r: Result<
        Vec<ContourInfo>,
        RecError,
    >)
        requires
            morphology.wf(),
        ensures
            r matches Ok(infos) && ({
                let kept = kept_indices(
                    contours@,
                    morphology.spec_width(),
                    morphology.spec_height(),
                );
                &&& infos@.len() == kept.len()
                &&& forall|k: int|
                    0 <= k < kept.len() ==> {
                        &&& 0 <= #[trigger] kept[k] < contours@.len()
                        &&& infos@[k].points@ == contours@[kept[k]].points@
                        &&& infos@[k].approx@ == contours@[kept[k]].approx@
                        &&& infos@[k].area2 == spec_area2(contours@[kept[k]].points@)
                    }
            }),
    {
        let width: usize = morphology.width();
        let height: usize = morphology.height();
        proof {
            lemma_area_bound(width as int, height as int, MAX_SIDE as int);
        }
        let plane_area: u128 = (width as u128) * (height as u128);
        let min_area2: u128 = 2 * (ImageProcessingConfig::MIN_AREA_RATIO_NUM as u128) * plane_area;
        let mut infos: Vec<ContourInfo> = Vec::new();
        let mut i: usize = 0;
        while i < contours.len()
            invariant
                i <= contours@.len(),
                width == morphology.spec_width(),
                height == morphology.spec_height(),
                plane_area == width * height,
                min_area2 == 2 * ImageProcessingConfig::MIN_AREA_RATIO_NUM * (width * height),
                0 <= min_area2 <= 0x1000_0000_0000_0000,
                ({
                    let kept = kept_indices(contours@.take(i as int), width as int, height as int);
                    &&& infos@.len() == kept.len()
                    &&& forall|k: int|
                        0 <= k < kept.len() ==> {
                            &&& 0 <= #[trigger] kept[k] < i
                            &&& infos@[k].points@ == contours@[kept[k]].points@
                            &&& infos@[k].approx@ == contours@[kept[k]].approx@
                            &&& infos@[k].area2 == spec_area2(contours@[kept[k]].points@)
                        }
                }),
            decreases contours@.len() - i,
        {
            let area2: u128 = contour_area2(&contours[i].points);
            proof {
                assert(contours@.take(i + 1).drop_last() =~= contours@.take(i as int));
                assert(contours@.take(i + 1).last() == contours@[i as int]);
            }
            // Ten times a doubled area may exceed what fits: compare a
            // tenth of the bound instead, which is whole or lies between
            // two whole numbers.
            let den: u128 = ImageProcessingConfig::MIN_AREA_RATIO_DEN as u128;
            let enough: bool = if min_area2 % den == 0 {
                area2 >= min_area2 / den
            } else {
                area2 > min_area2 / den
            };
            proof {
                let a = area2 as int;
                let b = min_area2 as int;
                assert(den == 10);
                assert(enough <==> a * 10 >= b) by (nonlinear_arith)
                    requires
                        enough == (if b % 10 == 0 {
                            a >= b / 10
                        } else {
                            a > b / 10
                        }),
                        b >= 0,
                ;
                assert(spec_area2(contours@[i as int].points@)
                    * ImageProcessingConfig::MIN_AREA_RATIO_DEN == a * 10) by (nonlinear_arith)
                    requires
                        spec_area2(contours@[i as int].points@) == a,
                        ImageProcessingConfig::MIN_AREA_RATIO_DEN == 10,
                ;
            }
            if enough {
                let info = ContourInfo {
                    points: copy_points(&contours[i].points),
                    approx: copy_points(&contours[i].approx),
                    area2,
                };
                infos.push(info);
            }
            i += 1;
        }
        assert(contours@.take(contours@.len() as int) =~= contours@);
        Ok(infos)
    }

    /// Of the candidates the first of greatest score, reduced to four
    /// corners in canonical order. Fails if there is no candidate, or if
    /// the best one's polygon does not have four vertices.
    pub fn filter_boundary(&self, boundaries: &Vec<ContourInfo>, image: &Plane) -> (r: Result<
        Quad,
        RecError,
    >)
        requires
            image.wf(),
        ensures
            ({
                let scores = scores_of(boundaries@, image.spec_width(), image.spec_height());
                let best = first_max_index(scores, boundaries@.len() as int);
                &&& r == Err::<Quad, RecError>(RecError::NoBoundaryFound) <==> boundaries@.len()
                    == 0
                &&& r == Err::<Quad, RecError>(RecError::BoundaryShapeInvalid) <==> boundaries@.len()
                    > 0 && boundaries@[best].approx@.len() != 4
                &&& r matches Err(e) ==> e == RecError::NoBoundaryFound || e
                    == RecError::BoundaryShapeInvalid
                &&& r matches Ok(q) ==> q.points@ == canonical_order(boundaries@[best].approx@)
            }),
    {
        if boundaries.len() == 0 {
            return Err(RecError::NoBoundaryFound);
        }
        let best: usize = best_candidate(boundaries, image.width(), image.height());
        let approx = &boundaries[best].approx;
        if approx.len() != 4 {
            return Err(RecError::BoundaryShapeInvalid);
        }
        let mut points: [Point; 4] = [approx[0], approx[1], approx[2], approx[3]];
        assert(points@ =~= approx@);
        LocationModule::order_points(&mut points);
        Ok(Quad { points })
    }

    /// Brings four corners into their canonical order: sorted by polar angle
    /// about their centroid, starting at the first for which `x + y` is
    /// least.
    pub fn order_points(pts: &mut [Point; 4])
        ensures
            final(pts)@ == canonical_order(old(pts)@),
    {
        order_corners(pts);
    }

    /// Whether four ordered corners are accepted as the sheet's outline.
    /// Every outline is.
    pub fn validate_boundary(&self, boundary: &Quad) -> (r: bool)
        ensures
            r,
    {
        true
    }
}

} // verus!
