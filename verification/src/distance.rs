//! The distance between two points of the grid.
//!
//! Lengths are measured in a unit finer than the coordinates: a grid unit is
//! divided into [`PARTS`] parts, and a length is a whole number of parts. The
//! straight-line distance between two grid points is rarely a whole number
//! of parts. It is rounded up to the next one: rounded up, it is still zero
//! only between a point and itself, still symmetric, and still obeys the
//! triangle inequality, so it is a metric on the grid.

use crate::utils::Point;
use vstd::prelude::*;

verus! {

/// The square of the straight-line distance between `a` and `b`, over all
/// three coordinates.
pub open spec fn dist_sq(a: Point, b: Point) -> nat {
    ((a.x - b.x) * (a.x - b.x) + (a.y - b.y) * (a.y - b.y) + (a.z - b.z) * (a.z - b.z)) as nat
}

/// `h` is the square root of `n`, rounded up: the least natural number whose
/// square is at least `n`.
pub open spec fn is_ceil_sqrt(n: nat, h: nat) -> bool {
    &&& h * h >= n
    &&& h > 0 ==> (h - 1) * (h - 1) < n
}

/// The square root of `n`, rounded up.
pub open spec fn ceil_sqrt(n: nat) -> nat {
    choose|h: nat| is_ceil_sqrt(n, h)
}

/// The parts into which a grid unit is divided for measuring lengths.
pub const PARTS: u64 = 1024;

/// The square of the straight-line distance between `a` and `b`, in parts of
/// a grid unit.
pub open spec fn fine_sq(a: Point, b: Point) -> nat {
    dist_sq(a, b) * PARTS as nat * PARTS as nat
}

/// The distance between `a` and `b`: the straight-line distance in parts of a
/// grid unit, rounded up to a whole number of parts.
pub open spec fn distance(a: Point, b: Point) -> nat {
    ceil_sqrt(fine_sq(a, b))
}

/// No distance between two points of the grid exceeds this.
pub open spec fn max_distance() -> nat {
    0x800_0000_0000
}

proof fn lemma_square_monotonic(a: nat, b: nat)
    requires
        a <= b,
    ensures
        a * a <= b * b,
{
    assert(a * a <= b * b) by (nonlinear_arith)
        requires
            0 <= a <= b,
    ;
}

/// Every natural number has a rounded-up square root, and only one.
pub proof fn lemma_ceil_sqrt(n: nat)
    ensures
        is_ceil_sqrt(n, ceil_sqrt(n)),
        forall|h: nat| is_ceil_sqrt(n, h) ==> h == ceil_sqrt(n),
    decreases n,
{
    if n == 0 {
        assert(is_ceil_sqrt(0, 0));
    } else {
        lemma_ceil_sqrt((n - 1) as nat);
        let r = ceil_sqrt((n - 1) as nat);
        if r * r >= n {
            assert(is_ceil_sqrt(n, r));
        } else {
            assert((r + 1) * (r + 1) == r * r + 2 * r + 1) by (nonlinear_arith);
            assert(is_ceil_sqrt(n, r + 1));
        }
    }
    let c = ceil_sqrt(n);
    assert forall|h: nat| is_ceil_sqrt(n, h) implies h == c by {
        if h < c {
            lemma_square_monotonic(h, (c - 1) as nat);
        } else if c < h {
            lemma_square_monotonic(c, (h - 1) as nat);
        }
    }
}

/// A number whose square reaches `n` is at least the rounded-up root of `n`.
pub proof fn lemma_ceil_sqrt_least(n: nat, h: nat)
    requires
        h * h >= n,
    ensures
        ceil_sqrt(n) <= h,
{
    lemma_ceil_sqrt(n);
    let c = ceil_sqrt(n);
    if h < c {
        lemma_square_monotonic(h, (c - 1) as nat);
    }
}

/// The square root of `n`, rounded up.
fn rounded_up_root(n: u128) -> (h: u64)
    requires
        n <= 0x40_0000_0000_0000_0000_0000,
    ensures
        h == ceil_sqrt(n as nat),
        h <= 0x800_0000_0000,
{
    let mut lo: u64 = 0;
    let mut hi: u64 = 0x800_0000_0000;
    assert(0x800_0000_0000 * 0x800_0000_0000 == 0x40_0000_0000_0000_0000_0000) by (nonlinear_arith);
    while lo < hi
        invariant
            lo <= hi <= 0x800_0000_0000,
            hi * hi >= n,
            lo > 0 ==> (lo - 1) * (lo - 1) < n,
        decreases hi - lo,
    {
        let mid = lo + (hi - lo) / 2;
        assert(mid * mid <= 0x800_0000_0000 * 0x800_0000_0000) by (nonlinear_arith)
            requires
                0 <= mid <= 0x800_0000_0000,
        ;
        let sq: u128 = (mid as u128) * (mid as u128);
        if sq >= n {
            hi = mid;
        } else {
            lo = mid + 1;
        }
    }
    proof {
        assert(is_ceil_sqrt(n as nat, lo as nat));
        lemma_ceil_sqrt(n as nat);
    }
    lo
}

/// The distance between two points, in parts of a grid unit, rounded up.
pub fn heuristic(p1: &Point, p2: &Point) -> (h: u64)
    ensures
        h == distance(*p1, *p2),
        is_ceil_sqrt(fine_sq(*p1, *p2), h as nat),
        h <= max_distance(),
{
    let dx: i128 = p1.x as i128 - p2.x as i128;
    let dy: i128 = p1.y as i128 - p2.y as i128;
    let dz: i128 = p1.z as i128 - p2.z as i128;
    assert(0 <= dx * dx <= 0x1_0000_0000_0000_0000 - 0x1_0000_0000) by (nonlinear_arith)
        requires
            -0xffff_ffff <= dx <= 0xffff_ffff,
    ;
    assert(0 <= dy * dy <= 0x1_0000_0000_0000_0000 - 0x1_0000_0000) by (nonlinear_arith)
        requires
            -0xffff_ffff <= dy <= 0xffff_ffff,
    ;
    assert(0 <= dz * dz <= 0x1_0000_0000_0000_0000 - 0x1_0000_0000) by (nonlinear_arith)
        requires
            -0xffff_ffff <= dz <= 0xffff_ffff,
    ;
    let sum: i128 = dx * dx + dy * dy + dz * dz;
    let fine: u128 = sum as u128 * (PARTS as u128) * (PARTS as u128);
    let h = rounded_up_root(fine);
    proof {
        lemma_ceil_sqrt(fine_sq(*p1, *p2));
        lemma_distance_bounded(*p1, *p2);
    }
    h
}

/// No two points of the grid are further apart than [`max_distance`].
pub proof fn lemma_distance_bounded(a: Point, b: Point)
    ensures
        distance(a, b) <= max_distance(),
{
    let dx = a.x - b.x;
    let dy = a.y - b.y;
    let dz = a.z - b.z;
    assert(0 <= dx * dx <= 0x1_0000_0000_0000_0000) by (nonlinear_arith)
        requires
            -0xffff_ffff <= dx <= 0xffff_ffff,
    ;
    assert(0 <= dy * dy <= 0x1_0000_0000_0000_0000) by (nonlinear_arith)
        requires
            -0xffff_ffff <= dy <= 0xffff_ffff,
    ;
    assert(0 <= dz * dz <= 0x1_0000_0000_0000_0000) by (nonlinear_arith)
        requires
            -0xffff_ffff <= dz <= 0xffff_ffff,
    ;
    assert(0x800_0000_0000 * 0x800_0000_0000 == 0x40_0000_0000_0000_0000_0000) by (nonlinear_arith);
    lemma_ceil_sqrt_least(fine_sq(a, b), 0x800_0000_0000);
}

/// The distance from `a` to `b` is the distance from `b` to `a`.
pub proof fn lemma_distance_symmetric(a: Point, b: Point)
    ensures
        distance(a, b) == distance(b, a),
{
    let dx = a.x - b.x;
    let dy = a.y - b.y;
    let dz = a.z - b.z;
    assert(dx * dx == (-dx) * (-dx)) by (nonlinear_arith);
    assert(dy * dy == (-dy) * (-dy)) by (nonlinear_arith);
    assert(dz * dz == (-dz) * (-dz)) by (nonlinear_arith);
    assert(dist_sq(a, b) == dist_sq(b, a));
}

/// The distance between two points is zero exactly when they are the same
/// point.
pub proof fn lemma_distance_zero(a: Point, b: Point)
    ensures
        distance(a, b) == 0 <==> a == b,
{
    let dx = a.x - b.x;
    let dy = a.y - b.y;
    let dz = a.z - b.z;
    lemma_ceil_sqrt(fine_sq(a, b));
    assert(dx * dx >= 0 && (dx != 0 ==> dx * dx > 0)) by (nonlinear_arith);
    assert(dy * dy >= 0 && (dy != 0 ==> dy * dy > 0)) by (nonlinear_arith);
    assert(dz * dz >= 0 && (dz != 0 ==> dz * dz > 0)) by (nonlinear_arith);
    if a == b {
        assert(dx == 0 && dy == 0 && dz == 0);
        assert(dist_sq(a, b) == 0);
        assert(is_ceil_sqrt(fine_sq(a, b), 0));
    } else {
        assert(dx != 0 || dy != 0 || dz != 0);
        assert(dist_sq(a, b) > 0);
        let c = distance(a, b);
        assert(c * c >= fine_sq(a, b));
        assert(c != 0) by (nonlinear_arith)
            requires
                c * c > 0,
        ;
    }
}

proof fn lemma_square_of_product(x: int, y: int)
    ensures
        (x * x) * (y * y) == (x * y) * (x * y),
{
    assert((x * x) * (y * y) == (x * y) * (x * y)) by (nonlinear_arith);
}

proof fn lemma_products_exchange(x1: int, y1: int, x2: int, y2: int)
    ensures
        (x1 * y1) * (x2 * y2) == (x1 * y2) * (x2 * y1),
{
    assert((x1 * y1) * (x2 * y2) == (x1 * y2) * (x2 * y1)) by (nonlinear_arith);
}

/// The inner product of two vectors is at most the product of any two bounds
/// on their lengths.
proof fn lemma_inner_product_bounded(
    u1: int,
    u2: int,
    u3: int,
    v1: int,
    v2: int,
    v3: int,
    h1: nat,
    h2: nat,
)
    requires
        u1 * u1 + u2 * u2 + u3 * u3 <= h1 * h1,
        v1 * v1 + v2 * v2 + v3 * v3 <= h2 * h2,
    ensures
        u1 * v1 + u2 * v2 + u3 * v3 <= h1 * h2,
{
    let uu = u1 * u1 + u2 * u2 + u3 * u3;
    let vv = v1 * v1 + v2 * v2 + v3 * v3;
    let d = u1 * v1 + u2 * v2 + u3 * v3;
    let c12 = u1 * v2 - u2 * v1;
    let c13 = u1 * v3 - u3 * v1;
    let c23 = u2 * v3 - u3 * v2;
    // The identity of Lagrange, term by term over the nine products.
    let (p11, p12, p13) = (u1 * v1, u1 * v2, u1 * v3);
    let (p21, p22, p23) = (u2 * v1, u2 * v2, u2 * v3);
    let (p31, p32, p33) = (u3 * v1, u3 * v2, u3 * v3);
    lemma_square_of_product(u1, v1);
    lemma_square_of_product(u1, v2);
    lemma_square_of_product(u1, v3);
    lemma_square_of_product(u2, v1);
    lemma_square_of_product(u2, v2);
    lemma_square_of_product(u2, v3);
    lemma_square_of_product(u3, v1);
    lemma_square_of_product(u3, v2);
    lemma_square_of_product(u3, v3);
    lemma_products_exchange(u1, v1, u2, v2);
    lemma_products_exchange(u1, v1, u3, v3);
    lemma_products_exchange(u2, v2, u3, v3);
    let (a1, a2, a3) = (u1 * u1, u2 * u2, u3 * u3);
    let (b1, b2, b3) = (v1 * v1, v2 * v2, v3 * v3);
    assert(uu * vv == a1 * vv + a2 * vv + a3 * vv) by (nonlinear_arith)
        requires
            uu == a1 + a2 + a3,
    ;
    assert(a1 * vv == a1 * b1 + a1 * b2 + a1 * b3) by (nonlinear_arith)
        requires
            vv == b1 + b2 + b3,
    ;
    assert(a2 * vv == a2 * b1 + a2 * b2 + a2 * b3) by (nonlinear_arith)
        requires
            vv == b1 + b2 + b3,
    ;
    assert(a3 * vv == a3 * b1 + a3 * b2 + a3 * b3) by (nonlinear_arith)
        requires
            vv == b1 + b2 + b3,
    ;
    assert(d * d == p11 * d + p22 * d + p33 * d) by (nonlinear_arith)
        requires
            d == p11 + p22 + p33,
    ;
    assert(p11 * d == p11 * p11 + p11 * p22 + p11 * p33) by (nonlinear_arith)
        requires
            d == p11 + p22 + p33,
    ;
    assert(p22 * d == p11 * p22 + p22 * p22 + p22 * p33) by (nonlinear_arith)
        requires
            d == p11 + p22 + p33,
    ;
    assert(p33 * d == p11 * p33 + p22 * p33 + p33 * p33) by (nonlinear_arith)
        requires
            d == p11 + p22 + p33,
    ;
    assert(c12 * c12 == p12 * p12 - 2 * (p12 * p21) + p21 * p21) by (nonlinear_arith)
        requires
            c12 == p12 - p21,
    ;
    assert(c13 * c13 == p13 * p13 - 2 * (p13 * p31) + p31 * p31) by (nonlinear_arith)
        requires
            c13 == p13 - p31,
    ;
    assert(c23 * c23 == p23 * p23 - 2 * (p23 * p32) + p32 * p32) by (nonlinear_arith)
        requires
            c23 == p23 - p32,
    ;
    assert(uu * vv - d * d == c12 * c12 + c13 * c13 + c23 * c23);
    assert(c12 * c12 >= 0 && c13 * c13 >= 0 && c23 * c23 >= 0) by (nonlinear_arith);
    assert(uu >= 0 && vv >= 0) by (nonlinear_arith)
        requires
            uu == u1 * u1 + u2 * u2 + u3 * u3,
            vv == v1 * v1 + v2 * v2 + v3 * v3,
    ;
    let a = h1 * h1;
    let b = h2 * h2;
    assert(uu * vv <= a * b) by (nonlinear_arith)
        requires
            0 <= uu <= a,
            0 <= vv <= b,
    ;
    let p = h1 * h2;
    assert(a * b == p * p) by (nonlinear_arith)
        requires
            a == h1 * h1,
            b == h2 * h2,
            p == h1 * h2,
    ;
    assert(p >= 0) by (nonlinear_arith)
        requires
            p == h1 * h2,
            h1 >= 0,
            h2 >= 0,
    ;
    assert(d <= p) by (nonlinear_arith)
        requires
            d * d <= p * p,
            p >= 0,
    ;
}

/// The square of a difference in parts of a grid unit is the square of the
/// difference in grid units, times the square of [`PARTS`].
proof fn lemma_fine_square(d: int)
    ensures
        (1024 * d) * (1024 * d) == (d * d) * 1024 * 1024,
{
    assert((1024 * d) * (1024 * d) == (d * d) * 1024 * 1024) by (nonlinear_arith);
}

/// The way round by `b` is never shorter than the straight way from `a` to
/// `c`.
pub proof fn lemma_distance_triangle(a: Point, b: Point, c: Point)
    ensures
        distance(a, c) <= distance(a, b) + distance(b, c),
{
    // The three differences, in parts of a grid unit.
    let (u1, u2, u3) = (1024 * (a.x - b.x), 1024 * (a.y - b.y), 1024 * (a.z - b.z));
    let (v1, v2, v3) = (1024 * (b.x - c.x), 1024 * (b.y - c.y), 1024 * (b.z - c.z));
    let (w1, w2, w3) = (1024 * (a.x - c.x), 1024 * (a.y - c.y), 1024 * (a.z - c.z));
    let h1 = distance(a, b);
    let h2 = distance(b, c);
    lemma_ceil_sqrt(fine_sq(a, b));
    lemma_ceil_sqrt(fine_sq(b, c));
    lemma_fine_square(a.x - b.x);
    lemma_fine_square(a.y - b.y);
    lemma_fine_square(a.z - b.z);
    lemma_fine_square(b.x - c.x);
    lemma_fine_square(b.y - c.y);
    lemma_fine_square(b.z - c.z);
    lemma_fine_square(a.x - c.x);
    lemma_fine_square(a.y - c.y);
    lemma_fine_square(a.z - c.z);
    assert(u1 * u1 >= 0 && u2 * u2 >= 0 && u3 * u3 >= 0) by (nonlinear_arith);
    assert(v1 * v1 >= 0 && v2 * v2 >= 0 && v3 * v3 >= 0) by (nonlinear_arith);
    assert(w1 * w1 >= 0 && w2 * w2 >= 0 && w3 * w3 >= 0) by (nonlinear_arith);
    let uu = u1 * u1 + u2 * u2 + u3 * u3;
    let vv = v1 * v1 + v2 * v2 + v3 * v3;
    let ww = w1 * w1 + w2 * w2 + w3 * w3;
    let d = u1 * v1 + u2 * v2 + u3 * v3;
    assert(uu == fine_sq(a, b));
    assert(vv == fine_sq(b, c));
    assert(ww == fine_sq(a, c));
    lemma_inner_product_bounded(u1, u2, u3, v1, v2, v3, h1, h2);
    assert(ww == uu + 2 * d + vv) by (nonlinear_arith)
        requires
            w1 == u1 + v1,
            w2 == u2 + v2,
            w3 == u3 + v3,
            uu == u1 * u1 + u2 * u2 + u3 * u3,
            vv == v1 * v1 + v2 * v2 + v3 * v3,
            ww == w1 * w1 + w2 * w2 + w3 * w3,
            d == u1 * v1 + u2 * v2 + u3 * v3,
    ;
    let s = h1 + h2;
    assert(s * s == h1 * h1 + 2 * (h1 * h2) + h2 * h2) by (nonlinear_arith)
        requires
            s == h1 + h2,
    ;
    assert(s * s >= ww);
    lemma_ceil_sqrt_least(fine_sq(a, c), s);
}

/// The length of a path, in parts of a grid unit: the distances from each of
/// its points to the next, added up.
pub open spec fn path_length(path: Seq<Point>) -> nat
    decreases path.len(),
{
    if path.len() <= 1 {
        0
    } else {
        path_length(path.drop_last()) + distance(path[path.len() - 2], path.last())
    }
}

/// No path is shorter than the straight way from its first point to its last.
///
/// So a way round an obstacle is never shorter than the blocked straight
/// segment, and it is no longer only where the two lengths are equal.
pub proof fn lemma_path_not_shorter_than_straight(path: Seq<Point>)
    requires
        path.len() >= 1,
    ensures
        path_length(path) >= distance(path.first(), path.last()),
        path_length(path) <= distance(path.first(), path.last()) <==> path_length(path)
            == distance(path.first(), path.last()),
        path.len() <= 2 ==> path_length(path) == distance(path.first(), path.last()),
    decreases path.len(),
{
    if path.len() == 1 {
        lemma_distance_zero(path[0], path[0]);
    } else {
        let head = path.drop_last();
        lemma_path_not_shorter_than_straight(head);
        assert(head.first() == path.first());
        assert(head.last() == path[path.len() - 2]);
        lemma_distance_triangle(path.first(), path[path.len() - 2], path.last());
        if path.len() == 2 {
            lemma_distance_zero(path[0], path[0]);
            assert(path_length(head) == 0);
        }
    }
}

/// One more point makes a path longer by the distance from its last point.
pub proof fn lemma_path_longer_by_a_step(path: Seq<Point>, next: Point)
    requires
        path.len() >= 1,
    ensures
        path_length(path.push(next)) == path_length(path) + distance(path.last(), next),
{
    let longer = path.push(next);
    assert(longer.drop_last() =~= path);
    assert(longer[longer.len() - 2] == path.last());
}

/// A path is as long as its part up to a point and its part from that point
/// on, taken together.
pub proof fn lemma_path_split(path: Seq<Point>, k: int)
    requires
        0 <= k < path.len(),
    ensures
        path_length(path) == path_length(path.subrange(0, k + 1)) + path_length(
            path.subrange(k, path.len() as int),
        ),
    decreases path.len(),
{
    let n = path.len() as int;
    if k == n - 1 {
        assert(path.subrange(0, k + 1) =~= path);
        assert(path.subrange(k, n).len() == 1);
    } else {
        let head = path.drop_last();
        lemma_path_split(head, k);
        assert(head.subrange(0, k + 1) =~= path.subrange(0, k + 1));
        let tail = path.subrange(k, n);
        assert(tail.drop_last() =~= head.subrange(k, n - 1));
        assert(tail[tail.len() - 2] == path[n - 2]);
        assert(tail.last() == path.last());
    }
}

/// The length of a path, in parts of a grid unit.
pub fn path_length_of(path: &Vec<Point>) -> (total: u128)
    ensures
        total == path_length(path@),
{
    let n = path.len();
    if n <= 1 {
        return 0;
    }
    let mut total: u128 = 0;
    let mut i: usize = 1;
    while i < n
        invariant
            n == path@.len(),
            1 <= i <= n,
            total == path_length(path@.subrange(0, i as int)),
            total <= (i - 1) * max_distance(),
        decreases n - i,
    {
        let step = heuristic(&path[i - 1], &path[i]);
        proof {
            let upto = path@.subrange(0, i as int + 1);
            assert(upto.drop_last() =~= path@.subrange(0, i as int));
            assert(upto[upto.len() - 2] == path@[i - 1]);
            assert(upto.last() == path@[i as int]);
            assert((i - 1) * max_distance() + max_distance() == i * max_distance())
                by (nonlinear_arith);
            assert(i * max_distance() <= 0x1_0000_0000_0000_0000 * 0x800_0000_0000)
                by (nonlinear_arith)
                requires
                    i <= 0x1_0000_0000_0000_0000,
                    max_distance() == 0x800_0000_0000,
            ;
        }
        total = total + step as u128;
        i += 1;
    }
    assert(path@.subrange(0, n as int) =~= path@);
    total
}

} // verus!
