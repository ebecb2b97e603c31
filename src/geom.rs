//! Fixed-point plane geometry on integer coordinates.
use vstd::arithmetic::div_mod::{
    lemma_div_is_ordered, lemma_div_multiples_vanish, lemma_div_nonincreasing,
    lemma_div_pos_is_pos, lemma_fundamental_div_mod, lemma_fundamental_div_mod_converse,
    lemma_mod_bound, lemma_mod_pos_bound,
};
use vstd::prelude::*;

verus! {

/// Length one of a direction vector: directions carry six decimal places.
pub const UNIT: i64 = 1_000_000;

/// Largest magnitude of a coordinate that the engine accepts.
pub const COORD_MAX: i64 = 1_000_000_000;

/// Exclusive upper bound on the square root of any number that `isqrt` takes.
pub const ROOT_BOUND: u128 = 0x4000_0000_0000_0000;

/// A point or a vector of the plane, in integer coordinates.
#[derive(Clone, Copy, Debug, PartialEq, Eq, Structural)]
pub struct Vec2 {
    pub x: i64,
    pub y: i64,
}

pub open spec fn coord_ok(c: int) -> bool {
    -COORD_MAX <= c <= COORD_MAX
}

/// Both coordinates lie within the accepted range.
pub open spec fn in_range(p: Vec2) -> bool {
    coord_ok(p.x as int) && coord_ok(p.y as int)
}

/// A direction vector as `normalize` produces it: each component within one unit.
pub open spec fn dir_ok(d: Vec2) -> bool {
    -UNIT <= d.x <= UNIT && -UNIT <= d.y <= UNIT
}

/// `r` is the integer square root of `n`.
pub open spec fn is_root(n: int, r: int) -> bool {
    0 <= r && r * r <= n < (r + 1) * (r + 1)
}

/// The integer square root of a non-negative `n`: the largest `r` with `r * r <= n`.
pub open spec fn root(n: int) -> int {
    choose|r: int| is_root(n, r)
}

pub open spec fn dot(ax: int, ay: int, bx: int, by: int) -> int {
    ax * bx + ay * by
}

/// Squared Euclidean distance between two points.
pub open spec fn dist_sq(a: Vec2, b: Vec2) -> int {
    dot(b.x - a.x, b.y - a.y, b.x - a.x, b.y - a.y)
}

/// Euclidean distance between two points, rounded down.
pub open spec fn distance_spec(a: Vec2, b: Vec2) -> int {
    root(dist_sq(a, b))
}

/// Length of `(x, y)` in units of `1 / UNIT`, rounded down.
pub open spec fn scaled_length(x: int, y: int) -> int {
    root(dot(x, y, x, y) * UNIT * UNIT)
}

/// `(x, y)` scaled to length `UNIT`, each component rounded down; the zero
/// vector stays zero.
pub open spec fn normalize_spec(x: int, y: int) -> Vec2 {
    let s = scaled_length(x, y);
    if s == 0 {
        Vec2 { x: 0, y: 0 }
    } else {
        Vec2 { x: (x * UNIT * UNIT / s) as i64, y: (y * UNIT * UNIT / s) as i64 }
    }
}

/// Direction from `a` towards `b`, of length `UNIT`.
pub open spec fn direction_spec(a: Vec2, b: Vec2) -> Vec2 {
    normalize_spec(b.x - a.x, b.y - a.y)
}

/// The integer square root is unique.
pub proof fn lemma_root_unique(n: int, a: int, b: int)
    requires
        is_root(n, a),
        is_root(n, b),
    ensures
        a == b,
{
    if a < b {
        assert((a + 1) * (a + 1) <= b * b) by (nonlinear_arith)
            requires
                0 <= a + 1 <= b,
        ;
    } else if b < a {
        assert((b + 1) * (b + 1) <= a * a) by (nonlinear_arith)
            requires
                0 <= b + 1 <= a,
        ;
    }
}

/// Any root that has been found is the one that `root` names.
pub proof fn lemma_root_is(n: int, r: int)
    requires
        is_root(n, r),
    ensures
        root(n) == r,
{
    lemma_root_unique(n, r, root(n));
}

/// Floor division, as `/` on `int` denotes it, is fixed by its two bounds.
pub proof fn lemma_floor_div(a: int, b: int, q: int)
    requires
        b > 0,
        b * q <= a < b * q + b,
    ensures
        a / b == q,
{
    lemma_fundamental_div_mod_converse(a, b, q, a - q * b);
}

/// Every non-negative number has an integer square root.
pub proof fn lemma_root_exists(n: int)
    requires
        n >= 0,
    ensures
        is_root(n, root(n)),
    decreases n,
{
    if n == 0 {
        assert(is_root(0, 0));
    } else {
        lemma_root_exists(n - 1);
        let r = root(n - 1);
        if (r + 1) * (r + 1) <= n {
            assert((r + 2) * (r + 2) > n) by (nonlinear_arith)
                requires
                    r >= 0,
                    (r + 1) * (r + 1) > n - 1,
            ;
            assert(is_root(n, r + 1));
        } else {
            assert(is_root(n, r));
        }
    }
}

/// The distance between two points in range is the integer square root of
/// their squared distance and at most `RADIUS_MAX`.
pub proof fn lemma_distance(a: Vec2, b: Vec2)
    requires
        in_range(a),
        in_range(b),
    ensures
        is_root(dist_sq(a, b), distance_spec(a, b)),
        0 <= distance_spec(a, b) <= RADIUS_MAX,
{
    let dx = b.x - a.x;
    let dy = b.y - a.y;
    assert(0 <= dx * dx <= 4_000_000_000_000_000_000 && 0 <= dy * dy <= 4_000_000_000_000_000_000)
        by (nonlinear_arith)
        requires
            -2_000_000_000 <= dx <= 2_000_000_000,
            -2_000_000_000 <= dy <= 2_000_000_000,
    ;
    let n = dist_sq(a, b);
    lemma_root_exists(n);
    let r = root(n);
    assert(r <= 3_000_000_000) by (nonlinear_arith)
        requires
            r >= 0,
            r * r <= n,
            n <= 8_000_000_000_000_000_000int,
    ;
}

proof fn lemma_sq_expand(a: int, t: int, u: int)
    ensures
        (a + t * u) * (a + t * u) == a * a + 2 * t * (a * u) + (t * t) * (u * u),
{
    assert((a + t * u) * (a + t * u) == a * a + 2 * t * (a * u) + (t * t) * (u * u))
        by (nonlinear_arith);
}

/// The orthogonal projection onto a line with a direction. Scaled by the
/// squared direction length `dd`, the exact foot of the perpendicular from `p`
/// is `dd * pos + along * dir`: the way from `dd * p` to it is perpendicular
/// to the direction, and among the points `dd * pos + t * dir` none is closer
/// to `dd * p`. The returned point is that foot divided by `dd`, rounded down
/// on each axis.
pub proof fn lemma_project_line(l: Line, p: Vec2, t: int)
    requires
        line_ok(l),
        in_range(p),
        dir_len_sq(l) > 0,
    ensures
        ({
            let dd = dir_len_sq(l);
            let k = along(l, p);
            let (ux, uy) = (l.dir.x as int, l.dir.y as int);
            let fx = dd * l.pos.x + k * ux;
            let fy = dd * l.pos.y + k * uy;
            let gx = dd * l.pos.x + t * ux;
            let gy = dd * l.pos.y + t * uy;
            &&& dot(fx - dd * p.x, fy - dd * p.y, ux, uy) == 0
            &&& dot(fx - dd * p.x, fy - dd * p.y, fx - dd * p.x, fy - dd * p.y) <= dot(
                gx - dd * p.x,
                gy - dd * p.y,
                gx - dd * p.x,
                gy - dd * p.y,
            )
            &&& dd * (line_foot_x(l, p) - l.pos.x) <= k * ux < dd * (line_foot_x(l, p) - l.pos.x)
                + dd
            &&& dd * (line_foot_y(l, p) - l.pos.y) <= k * uy < dd * (line_foot_y(l, p) - l.pos.y)
                + dd
        }),
{
    let dd = dir_len_sq(l);
    let k = along(l, p);
    let ux = l.dir.x as int;
    let uy = l.dir.y as int;
    let wx = l.pos.x - p.x;
    let wy = l.pos.y - p.y;
    let ax = dd * wx;
    let ay = dd * wy;
    assert(k == -(wx * ux + wy * uy)) by (nonlinear_arith)
        requires
            k == (p.x - l.pos.x) * ux + (p.y - l.pos.y) * uy,
            wx == l.pos.x - p.x,
            wy == l.pos.y - p.y,
    ;
    assert(ax * ux + ay * uy == -(dd * k)) by (nonlinear_arith)
        requires
            ax == dd * wx,
            ay == dd * wy,
            k == -(wx * ux + wy * uy),
    ;
    assert((ax + k * ux) * ux + (ay + k * uy) * uy == 0) by (nonlinear_arith)
        requires
            dd == ux * ux + uy * uy,
            ax * ux + ay * uy == -(dd * k),
    ;
    lemma_sq_expand(ax, t, ux);
    lemma_sq_expand(ay, t, uy);
    lemma_sq_expand(ax, k, ux);
    lemma_sq_expand(ay, k, uy);
    assert(2 * t * (ax * ux) + 2 * t * (ay * uy) == 2 * t * (ax * ux + ay * uy)) by (nonlinear_arith);
    assert(2 * k * (ax * ux) + 2 * k * (ay * uy) == 2 * k * (ax * ux + ay * uy)) by (nonlinear_arith);
    assert((t * t) * (ux * ux) + (t * t) * (uy * uy) == t * t * dd) by (nonlinear_arith)
        requires
            dd == ux * ux + uy * uy,
    ;
    assert((k * k) * (ux * ux) + (k * k) * (uy * uy) == k * k * dd) by (nonlinear_arith)
        requires
            dd == ux * ux + uy * uy,
    ;
    assert(2 * t * (-(dd * k)) + t * t * dd - (2 * k * (-(dd * k)) + k * k * dd) == dd * ((t - k)
        * (t - k))) by (nonlinear_arith);
    assert(dd * ((t - k) * (t - k)) >= 0) by (nonlinear_arith)
        requires
            dd > 0,
    ;
    assert(dd * l.pos.x + k * ux - dd * p.x == ax + k * ux) by (nonlinear_arith)
        requires
            ax == dd * wx,
            wx == l.pos.x - p.x,
    ;
    assert(dd * l.pos.y + k * uy - dd * p.y == ay + k * uy) by (nonlinear_arith)
        requires
            ay == dd * wy,
            wy == l.pos.y - p.y,
    ;
    assert(dd * l.pos.x + t * ux - dd * p.x == ax + t * ux) by (nonlinear_arith)
        requires
            ax == dd * wx,
            wx == l.pos.x - p.x,
    ;
    assert(dd * l.pos.y + t * uy - dd * p.y == ay + t * uy) by (nonlinear_arith)
        requires
            ay == dd * wy,
            wy == l.pos.y - p.y,
    ;
    lemma_fundamental_div_mod(ux * k, dd);
    lemma_mod_bound(ux * k, dd);
    lemma_fundamental_div_mod(uy * k, dd);
    lemma_mod_bound(uy * k, dd);
    assert(ux * k == k * ux && uy * k == k * uy) by (nonlinear_arith);
}

/// A rounded-down quotient `a - e` (with `e` the remainder part) of a value
/// bounded by `b`: the rounding moves its square by at most the given amounts.
proof fn lemma_rounded_square(a: int, e: int, s: int, b: int)
    requires
        0 <= e < s,
        -b <= a <= b,
    ensures
        a * a - 2 * (b * s) <= (a - e) * (a - e),
        (a - e) * (a - e) <= a * a + 2 * (b * s) + s * s,
{
    assert((a - e) * (a - e) == a * a - 2 * (a * e) + e * e) by (nonlinear_arith);
    assert(-(b * s) <= a * e <= b * s) by (nonlinear_arith)
        requires
            0 <= e < s,
            -b <= a <= b,
    ;
    assert(0 <= e * e <= s * s) by (nonlinear_arith)
        requires
            0 <= e < s,
    ;
}

/// Unit length of normalized vectors: a nonzero vector in range is scaled
/// to a squared length within `8 * UNIT` below and `12 * UNIT` above
/// `UNIT * UNIT`, that is a length within six millionths of one unit.
pub proof fn lemma_normalize_unit(x: int, y: int)
    requires
        -2 * COORD_MAX <= x <= 2 * COORD_MAX,
        -2 * COORD_MAX <= y <= 2 * COORD_MAX,
        x != 0 || y != 0,
    ensures
        ({
            let d = normalize_spec(x, y);
            let len_sq = dot(d.x as int, d.y as int, d.x as int, d.y as int);
            UNIT * UNIT - 8 * UNIT <= len_sq <= UNIT * UNIT + 12 * UNIT
        }),
{
    let u = UNIT as int;
    let n = dot(x, y, x, y);
    assert(x * x >= 0 && y * y >= 0) by (nonlinear_arith);
    assert(n >= 1) by (nonlinear_arith)
        requires
            n == x * x + y * y,
            x != 0 || y != 0,
    ;
    assert(n * u * u >= u * u) by (nonlinear_arith)
        requires
            n >= 1,
    ;
    lemma_root_exists(n * u * u);
    let s = scaled_length(x, y);
    assert(s >= u) by (nonlinear_arith)
        requires
            s >= 0,
            u > 0,
            (s + 1) * (s + 1) > n * u * u,
            n * u * u >= u * u,
    ;
    let ax = x * u * u;
    let ay = y * u * u;
    lemma_component_bound(x, n, s);
    lemma_component_bound(y, n, s);
    let qx = ax / s;
    let qy = ay / s;
    lemma_fundamental_div_mod(ax, s);
    lemma_mod_bound(ax, s);
    lemma_fundamental_div_mod(ay, s);
    lemma_mod_bound(ay, s);
    let ex = ax - s * qx;
    let ey = ay - s * qy;
    // each scaled component lies within (s + 1) * u
    assert(-((s + 1) * u) <= ax <= (s + 1) * u) by (nonlinear_arith)
        requires
            ax == x * u * u,
            x * x <= n,
            n * u * u < (s + 1) * (s + 1),
            u > 0,
            s >= 0,
    ;
    assert(-((s + 1) * u) <= ay <= (s + 1) * u) by (nonlinear_arith)
        requires
            ay == y * u * u,
            y * y <= n,
            n * u * u < (s + 1) * (s + 1),
            u > 0,
            s >= 0,
    ;
    lemma_rounded_square(ax, ex, s, (s + 1) * u);
    lemma_rounded_square(ay, ey, s, (s + 1) * u);
    assert(((s + 1) * u) * s == (s + 1) * u * s) by (nonlinear_arith);
    assert(s * qx == ax - ex && s * qy == ay - ey);
    let sq = qx * qx + qy * qy;
    let t = (s + 1) * u * s;
    assert(s * s * sq == (ax - ex) * (ax - ex) + (ay - ey) * (ay - ey)) by (nonlinear_arith)
        requires
            s * qx == ax - ex,
            s * qy == ay - ey,
            sq == qx * qx + qy * qy,
    ;
    assert(ax * ax + ay * ay == n * u * u * (u * u)) by (nonlinear_arith)
        requires
            ax == x * u * u,
            ay == y * u * u,
            n == x * x + y * y,
    ;
    assert(s * s * (u * u) <= n * u * u * (u * u) < (s + 1) * (s + 1) * (u * u)) by (nonlinear_arith)
        requires
            s * s <= n * u * u,
            n * u * u < (s + 1) * (s + 1),
            u > 0,
    ;
    assert((s + 1) * (s + 1) * (u * u) + 4 * t + 2 * (s * s) <= s * s * (u * u + 12 * u))
        by (nonlinear_arith)
        requires
            t == (s + 1) * u * s,
            s >= u,
            u >= 2,
    ;
    assert(s * s * (u * u) - 4 * t >= s * s * (u * u - 8 * u)) by (nonlinear_arith)
        requires
            t == (s + 1) * u * s,
            s >= 1,
            u >= 0,
    ;
    assert(s * s * sq <= s * s * (u * u + 12 * u));
    assert(s * s * sq >= s * s * (u * u - 8 * u));
    assert(u * u - 8 * u <= sq <= u * u + 12 * u) by (nonlinear_arith)
        requires
            s * s * sq <= s * s * (u * u + 12 * u),
            s * s * sq >= s * s * (u * u - 8 * u),
            s >= 1,
    ;
    assert(normalize_spec(x, y) == Vec2 { x: qx as i64, y: qy as i64 });
}

/// A point placed on a circle lies at the radius from the centre, up to
/// rounding: `UNIT` times its squared distance from the centre differs from
/// `UNIT * r * r` by at most `8 * r * r + 4 * UNIT * r` below and
/// `12 * r * r + 4 * UNIT * r + 2 * UNIT` above.
pub proof fn lemma_project_circle(circ: Circle, p: Vec2, prev: Vec2)
    requires
        circle_ok(circ),
        in_range(p),
        in_range(prev),
        project_circle_spec(circ, p, prev) is Some,
    ensures
        ({
            let q = project_circle_spec(circ, p, prev)->Some_0;
            let r = circ.radius as int;
            let u = UNIT as int;
            &&& u * dist_sq(circ.pos, q) <= u * (r * r) + 12 * (r * r) + 4 * u * r + 2 * u
            &&& u * dist_sq(circ.pos, q) >= u * (r * r) - 8 * (r * r) - 4 * u * r
        }),
{
    let c = circ.pos;
    let r = circ.radius as int;
    let u = UNIT as int;
    let d = circle_dir_spec(c, p, prev);
    if p != c {
        lemma_normalize_unit(p.x - c.x, p.y - c.y);
    } else if prev != c {
        lemma_normalize_unit(prev.x - c.x, prev.y - c.y);
    } else {
        lemma_normalize_unit(1, 0);
    }
    let dx = d.x as int;
    let dy = d.y as int;
    let dd = dx * dx + dy * dy;
    assert(dir_ok(d)) by {
        if p != c {
            let s0 = scaled_length(p.x - c.x, p.y - c.y);
            if s0 != 0 {
                lemma_normalize_bounds(p.x - c.x, p.y - c.y);
            }
        } else if prev != c {
            lemma_normalize_bounds(prev.x - c.x, prev.y - c.y);
        } else {
            lemma_normalize_bounds(1, 0);
        }
    }
    let ax = dx * r;
    let ay = dy * r;
    let ox = ax / u;
    let oy = ay / u;
    lemma_fundamental_div_mod(ax, u);
    lemma_mod_bound(ax, u);
    lemma_fundamental_div_mod(ay, u);
    lemma_mod_bound(ay, u);
    let ex = ax - u * ox;
    let ey = ay - u * oy;
    assert(-(u * r) <= ax <= u * r && -(u * r) <= ay <= u * r) by (nonlinear_arith)
        requires
            ax == dx * r,
            ay == dy * r,
            -u <= dx <= u,
            -u <= dy <= u,
            r >= 0,
    ;
    lemma_rounded_square(ax, ex, u, u * r);
    lemma_rounded_square(ay, ey, u, u * r);
    let q = project_circle_spec(circ, p, prev)->Some_0;
    assert(q.x - c.x == ox && q.y - c.y == oy);
    let m = ox * ox + oy * oy;
    assert(dist_sq(c, q) == m);
    assert(u * u * m == (ax - ex) * (ax - ex) + (ay - ey) * (ay - ey)) by (nonlinear_arith)
        requires
            u * ox == ax - ex,
            u * oy == ay - ey,
            m == ox * ox + oy * oy,
    ;
    assert(ax * ax + ay * ay == dd * (r * r)) by (nonlinear_arith)
        requires
            ax == dx * r,
            ay == dy * r,
            dd == dx * dx + dy * dy,
    ;
    assert(u * u - 8 * u <= dd <= u * u + 12 * u);
    assert(dd * (r * r) <= (u * u + 12 * u) * (r * r) && dd * (r * r) >= (u * u - 8 * u) * (r
        * r)) by (nonlinear_arith)
        requires
            u * u - 8 * u <= dd <= u * u + 12 * u,
    ;
    assert(u * u * m <= u * (u * (r * r) + 12 * (r * r) + 4 * u * r + 2 * u)) by (nonlinear_arith)
        requires
            u * u * m <= dd * (r * r) + 2 * ((u * r) * u) + 2 * ((u * r) * u) + u * u + u * u,
            dd * (r * r) <= (u * u + 12 * u) * (r * r),
    ;
    assert(u * u * m >= u * (u * (r * r) - 8 * (r * r) - 4 * u * r)) by (nonlinear_arith)
        requires
            u * u * m >= dd * (r * r) - 2 * ((u * r) * u) - 2 * ((u * r) * u),
            dd * (r * r) >= (u * u - 8 * u) * (r * r),
    ;
    assert(u * m <= u * (r * r) + 12 * (r * r) + 4 * u * r + 2 * u) by (nonlinear_arith)
        requires
            u * u * m <= u * (u * (r * r) + 12 * (r * r) + 4 * u * r + 2 * u),
            u > 0,
    ;
    assert(u * m >= u * (r * r) - 8 * (r * r) - 4 * u * r) by (nonlinear_arith)
        requires
            u * u * m >= u * (u * (r * r) - 8 * (r * r) - 4 * u * r),
            u > 0,
    ;
}

/// Components of a normalized vector stay within one unit.
proof fn lemma_normalize_bounds(x: int, y: int)
    requires
        -2 * COORD_MAX <= x <= 2 * COORD_MAX,
        -2 * COORD_MAX <= y <= 2 * COORD_MAX,
    ensures
        dir_ok(normalize_spec(x, y)),
{
    let u = UNIT as int;
    let n = dot(x, y, x, y);
    assert(x * x >= 0 && y * y >= 0) by (nonlinear_arith);
    assert(x * x <= n && y * y <= n);
    assert(n * u * u >= 0) by (nonlinear_arith)
        requires
            n >= 0,
    ;
    lemma_root_exists(n * u * u);
    let s = scaled_length(x, y);
    if s != 0 {
        assert(n * (u * u) == n * u * u) by (nonlinear_arith);
        lemma_component_bound(x, n, s);
        lemma_component_bound(y, n, s);
    }
}

/// Integer square root by bisection.
pub fn isqrt(n: u128) -> (r: u128)
    requires
        n < ROOT_BOUND * ROOT_BOUND,
    ensures
        is_root(n as int, r as int),
        r == root(n as int),
        r < ROOT_BOUND,
{
    let mut lo: u128 = 0;
    let mut hi: u128 = ROOT_BOUND;
    while lo + 1 < hi
        invariant
            lo < hi <= ROOT_BOUND,
            lo * lo <= n,
            n < hi * hi,
        decreases hi - lo,
    {
        let mid: u128 = lo + (hi - lo) / 2;
        assert(mid * mid <= ROOT_BOUND * ROOT_BOUND) by (nonlinear_arith)
            requires
                mid <= ROOT_BOUND,
        ;
        if mid * mid <= n {
            lo = mid;
        } else {
            hi = mid;
        }
    }
    proof {
        lemma_root_is(n as int, lo as int);
    }
    lo
}

/// Division rounded towards negative infinity.
pub fn floor_div(a: i128, b: i128) -> (q: i128)
    requires
        b > 0,
        a > i128::MIN,
    ensures
        q == a / b,
        a >= 0 ==> 0 <= q <= a,
        a < 0 ==> a <= q < 0,
{
    if a >= 0 {
        let q: i128 = a / b;
        proof {
            lemma_div_pos_is_pos(a as int, b as int);
            lemma_div_nonincreasing(a as int, b as int);
        }
        q
    } else {
        let t: i128 = (-a - 1) / b;
        proof {
            let tt = (-a - 1) as int / b as int;
            assert(b * tt <= -a - 1 < b * tt + b) by {
                lemma_fundamental_div_mod(-a - 1, b as int);
                lemma_mod_pos_bound(-a - 1, b as int);
            }
            assert(b * (-tt - 1) == -(b * tt) - b) by (nonlinear_arith);
            lemma_floor_div(a as int, b as int, -tt - 1);
            lemma_div_pos_is_pos(-a - 1, b as int);
            lemma_div_nonincreasing(-a - 1, b as int);
        }
        -t - 1
    }
}

/// Largest radius that a circle through two in-range points can have.
pub const RADIUS_MAX: i64 = 3_000_000_000;

/// A line through `pos` along the direction `dir`, infinite both ways.
#[derive(Clone, Copy, Debug, PartialEq, Eq, Structural)]
pub struct Line {
    pub pos: Vec2,
    pub dir: Vec2,
}

/// A circle of centre `pos`.
#[derive(Clone, Copy, Debug, PartialEq, Eq, Structural)]
pub struct Circle {
    pub pos: Vec2,
    pub radius: i64,
}

pub open spec fn line_ok(l: Line) -> bool {
    in_range(l.pos) && dir_ok(l.dir)
}

pub open spec fn circle_ok(c: Circle) -> bool {
    in_range(c.pos) && 0 <= c.radius <= RADIUS_MAX
}

/// A point built from integer coordinates, when both are in range.
pub open spec fn point_if_in_range(x: int, y: int) -> Option<Vec2> {
    if coord_ok(x) && coord_ok(y) {
        Some(Vec2 { x: x as i64, y: y as i64 })
    } else {
        None
    }
}

/// Squared length of a line's direction.
pub open spec fn dir_len_sq(l: Line) -> int {
    dot(l.dir.x as int, l.dir.y as int, l.dir.x as int, l.dir.y as int)
}

/// How far along the direction `p` lies from the anchor, in units of the
/// squared direction length.
pub open spec fn along(l: Line, p: Vec2) -> int {
    dot(p.x - l.pos.x, p.y - l.pos.y, l.dir.x as int, l.dir.y as int)
}

/// The foot of the perpendicular from `p` onto `l`, rounded down on each axis;
/// a line without direction projects everything onto its anchor.
pub open spec fn line_foot_x(l: Line, p: Vec2) -> int {
    if dir_len_sq(l) == 0 {
        l.pos.x as int
    } else {
        l.pos.x + l.dir.x * along(l, p) / dir_len_sq(l)
    }
}

pub open spec fn line_foot_y(l: Line, p: Vec2) -> int {
    if dir_len_sq(l) == 0 {
        l.pos.y as int
    } else {
        l.pos.y + l.dir.y * along(l, p) / dir_len_sq(l)
    }
}

/// The point of `l` closest to `p`, if its coordinates are in range.
pub open spec fn project_line_spec(l: Line, p: Vec2) -> Option<Vec2> {
    point_if_in_range(line_foot_x(l, p), line_foot_y(l, p))
}

/// The direction from the centre `c` in which a point dragged to `p` is placed
/// on a circle: towards `p`; where `p` is the centre, towards `prev`; where
/// that is the centre too, along the x axis.
pub open spec fn circle_dir_spec(c: Vec2, p: Vec2, prev: Vec2) -> Vec2 {
    if p != c {
        direction_spec(c, p)
    } else if prev != c {
        direction_spec(c, prev)
    } else {
        normalize_spec(1, 0)
    }
}

/// The point of `circ` in the direction of `p` from its centre (see
/// `circle_dir_spec`), if its coordinates are in range.
pub open spec fn project_circle_spec(circ: Circle, p: Vec2, prev: Vec2) -> Option<Vec2> {
    let d = circle_dir_spec(circ.pos, p, prev);
    point_if_in_range(
        circ.pos.x + d.x * circ.radius / (UNIT as int),
        circ.pos.y + d.y * circ.radius / (UNIT as int),
    )
}

proof fn lemma_mul_bound(a: int, b: int, ba: int, bb: int)
    requires
        -ba <= a <= ba,
        -bb <= b <= bb,
    ensures
        -(ba * bb) <= a * b <= ba * bb,
{
    assert(-(ba * bb) <= a * b <= ba * bb) by (nonlinear_arith)
        requires
            -ba <= a <= ba,
            -bb <= b <= bb,
    ;
}

/// A component of a vector scaled by `UNIT * UNIT` and divided by the root of
/// the scaled squared length stays within one unit.
proof fn lemma_component_bound(c: int, n: int, s: int)
    requires
        s > 0,
        c * c <= n,
        n * (UNIT * UNIT) < (s + 1) * (s + 1),
    ensures
        -UNIT <= c * UNIT * UNIT / s <= UNIT,
{
    let u = UNIT as int;
    let a = if c >= 0 {
        c
    } else {
        -c
    };
    assert(a * a == c * c) by (nonlinear_arith)
        requires
            a == c || a == -c,
    ;
    assert((a * u) * (a * u) < (s + 1) * (s + 1)) by (nonlinear_arith)
        requires
            a * a == c * c,
            c * c <= n,
            n * (u * u) < (s + 1) * (s + 1),
            u > 0,
    ;
    assert(a * u <= s) by (nonlinear_arith)
        requires
            (a * u) * (a * u) < (s + 1) * (s + 1),
            a >= 0,
            u > 0,
            s >= 0,
    ;
    assert(-(u * s) <= c * u * u <= u * s) by (nonlinear_arith)
        requires
            a * u <= s,
            a == c || a == -c,
            a >= 0,
            u > 0,
    ;
    lemma_div_is_ordered(c * u * u, u * s, s);
    lemma_div_is_ordered(-(u * s), c * u * u, s);
    lemma_div_multiples_vanish(u, s);
    lemma_div_multiples_vanish(-u, s);
    assert(s * u == u * s) by (nonlinear_arith);
    assert(s * (-u) == -(u * s)) by (nonlinear_arith);
}

/// Scales `(x, y)` to length `UNIT`.
pub fn normalize(x: i64, y: i64) -> (r: Vec2)
    requires
        -2 * COORD_MAX <= x <= 2 * COORD_MAX,
        -2 * COORD_MAX <= y <= 2 * COORD_MAX,
    ensures
        r == normalize_spec(x as int, y as int),
        dir_ok(r),
{
    let xi = x as i128;
    let yi = y as i128;
    proof {
        lemma_mul_bound(xi as int, xi as int, 2_000_000_000, 2_000_000_000);
        lemma_mul_bound(yi as int, yi as int, 2_000_000_000, 2_000_000_000);
        assert(0 <= xi * xi) by (nonlinear_arith);
        assert(0 <= yi * yi) by (nonlinear_arith);
        assert(xi * xi <= 4_000_000_000_000_000_000int);
        assert(yi * yi <= 4_000_000_000_000_000_000int);
    }
    let n: i128 = xi * xi + yi * yi;
    let uu: i128 = (UNIT as i128) * (UNIT as i128);
    let m: u128 = (n as u128) * (uu as u128);
    let s = isqrt(m);
    if s == 0 {
        Vec2 { x: 0, y: 0 }
    } else {
        proof {
            assert(n * (UNIT * UNIT) == n * UNIT * UNIT) by (nonlinear_arith);
            lemma_component_bound(xi as int, n as int, s as int);
            lemma_component_bound(yi as int, n as int, s as int);
            lemma_mul_bound(xi as int, uu as int, 2_000_000_000, 1_000_000_000_000);
            lemma_mul_bound(yi as int, uu as int, 2_000_000_000, 1_000_000_000_000);
            assert(xi * uu == xi * UNIT * UNIT) by (nonlinear_arith) requires uu == UNIT * UNIT;
            assert(yi * uu == yi * UNIT * UNIT) by (nonlinear_arith) requires uu == UNIT * UNIT;
        }
        let qx = floor_div(xi * uu, s as i128);
        let qy = floor_div(yi * uu, s as i128);
        Vec2 { x: qx as i64, y: qy as i64 }
    }
}

/// Unit direction from `a` towards `b`; zero where the two points coincide.
pub fn direction(a: Vec2, b: Vec2) -> (r: Vec2)
    requires
        in_range(a),
        in_range(b),
    ensures
        r == direction_spec(a, b),
        dir_ok(r),
{
    normalize(b.x - a.x, b.y - a.y)
}

/// Euclidean distance between two points, rounded down.
pub fn distance(a: Vec2, b: Vec2) -> (r: i64)
    requires
        in_range(a),
        in_range(b),
    ensures
        r == distance_spec(a, b),
        0 <= r <= RADIUS_MAX,
{
    let dx = (b.x as i128) - (a.x as i128);
    let dy = (b.y as i128) - (a.y as i128);
    proof {
        lemma_mul_bound(dx as int, dx as int, 2_000_000_000, 2_000_000_000);
        lemma_mul_bound(dy as int, dy as int, 2_000_000_000, 2_000_000_000);
        assert(0 <= dx * dx) by (nonlinear_arith);
        assert(0 <= dy * dy) by (nonlinear_arith);
    }
    let n: i128 = dx * dx + dy * dy;
    let r = isqrt(n as u128);
    proof {
        assert(r <= RADIUS_MAX) by (nonlinear_arith)
            requires
                r * r <= n,
                n <= 8_000_000_000_000_000_000int,
        ;
    }
    r as i64
}

/// Orthogonal projection of `p` onto the line `l` (see `project_line_spec`).
pub fn project_line(l: Line, p: Vec2) -> (r: Option<Vec2>)
    requires
        line_ok(l),
        in_range(p),
    ensures
        r == project_line_spec(l, p),
{
    let dx = l.dir.x as i128;
    let dy = l.dir.y as i128;
    let wx = (p.x as i128) - (l.pos.x as i128);
    let wy = (p.y as i128) - (l.pos.y as i128);
    proof {
        lemma_mul_bound(dx as int, dx as int, 1_000_000, 1_000_000);
        lemma_mul_bound(dy as int, dy as int, 1_000_000, 1_000_000);
        lemma_mul_bound(wx as int, dx as int, 2_000_000_000, 1_000_000);
        lemma_mul_bound(wy as int, dy as int, 2_000_000_000, 1_000_000);
        assert(0 <= dx * dx) by (nonlinear_arith);
        assert(0 <= dy * dy) by (nonlinear_arith);
    }
    let dd: i128 = dx * dx + dy * dy;
    if dd == 0 {
        return Some(l.pos);
    }
    let k: i128 = wx * dx + wy * dy;
    proof {
        lemma_mul_bound(dx as int, k as int, 1_000_000, 4_000_000_000_000_000);
        lemma_mul_bound(dy as int, k as int, 1_000_000, 4_000_000_000_000_000);
    }
    let fx: i128 = (l.pos.x as i128) + floor_div(dx * k, dd);
    let fy: i128 = (l.pos.y as i128) + floor_div(dy * k, dd);
    if -(COORD_MAX as i128) <= fx && fx <= COORD_MAX as i128 && -(COORD_MAX as i128) <= fy
        && fy <= COORD_MAX as i128 {
        Some(Vec2 { x: fx as i64, y: fy as i64 })
    } else {
        None
    }
}

/// Placement of a point dragged to `p` onto the circle `circ` (see
/// `project_circle_spec`); `prev` is where the point stood before.
pub fn project_circle(circ: Circle, p: Vec2, prev: Vec2) -> (r: Option<Vec2>)
    requires
        circle_ok(circ),
        in_range(p),
        in_range(prev),
    ensures
        r == project_circle_spec(circ, p, prev),
{
    let d = if p != circ.pos {
        direction(circ.pos, p)
    } else if prev != circ.pos {
        direction(circ.pos, prev)
    } else {
        normalize(1, 0)
    };
    proof {
        lemma_mul_bound(d.x as int, circ.radius as int, 1_000_000, 3_000_000_000);
        lemma_mul_bound(d.y as int, circ.radius as int, 1_000_000, 3_000_000_000);
    }
    let fx: i128 = (circ.pos.x as i128) + floor_div((d.x as i128) * (circ.radius as i128), UNIT as i128);
    let fy: i128 = (circ.pos.y as i128) + floor_div((d.y as i128) * (circ.radius as i128), UNIT as i128);
    if -(COORD_MAX as i128) <= fx && fx <= COORD_MAX as i128 && -(COORD_MAX as i128) <= fy
        && fy <= COORD_MAX as i128 {
        Some(Vec2 { x: fx as i64, y: fy as i64 })
    } else {
        None
    }
}

} // verus!
