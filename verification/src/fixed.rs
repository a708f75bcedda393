//! Fixed-point scalars and two-dimensional vectors.

use vstd::prelude::*;

verus! {

/// The fixed-point representation of 1.0: scalars count millionths.
pub const UNIT: i64 = 1_000_000;

/// The largest magnitude a coordinate or a velocity component may have.
pub const COORD_MAX: i64 = 1_000_000_000_000;

/// Microseconds in a second, the scale of elapsed times.
pub const MICROS_PER_SECOND: i64 = 1_000_000;

/// Whether `v` is a representable component.
pub open spec fn in_coord_range(v: int) -> bool {
    -COORD_MAX <= v <= COORD_MAX
}

/// The representable component nearest to `v`.
pub open spec fn clamp_coord(v: int) -> int {
    if v > COORD_MAX {
        COORD_MAX as int
    } else if v < -COORD_MAX {
        -COORD_MAX
    } else {
        v
    }
}

/// The magnitude of `v`.
pub open spec fn magnitude(v: int) -> int {
    if v < 0 {
        -v
    } else {
        v
    }
}

/// The quotient of `a` by a positive `d`, rounded toward zero.
pub open spec fn trunc_div(a: int, d: int) -> int {
    if a >= 0 {
        a / d
    } else {
        -((-a) / d)
    }
}

/// The sum of the squares of two components.
pub open spec fn norm_sq(x: int, y: int) -> int {
    x * x + y * y
}

/// Whether `r` is the integer square root of `n`, rounded down.
pub open spec fn is_floor_sqrt(n: int, r: int) -> bool {
    0 <= r && r * r <= n && n < (r + 1) * (r + 1)
}

/// Saturates a wide value into the component range.
pub fn saturate(v: i128) -> (r: i64)
    ensures
        r as int == clamp_coord(v as int),
        in_coord_range(r as int),
{
    if v > COORD_MAX as i128 {
        COORD_MAX
    } else if v < -(COORD_MAX as i128) {
        -COORD_MAX
    } else {
        v as i64
    }
}

/// Divides a product by a positive divisor, rounding toward zero.
pub fn mul_div(a: i128, b: i128, d: i128) -> (r: i128)
    requires
        -i128::MAX <= a * b <= i128::MAX,
        d > 0,
    ensures
        r as int == trunc_div(a * b, d as int),
        magnitude(r as int) <= magnitude(a * b),
{
    let p: i128 = a * b;
    if p >= 0 {
        let q: i128 = p / d;
        proof {
            vstd::arithmetic::div_mod::lemma_div_nonincreasing(p as int, d as int);
            vstd::arithmetic::div_mod::lemma_div_pos_is_pos(p as int, d as int);
        }
        q
    } else {
        let n: i128 = -p;
        let q: i128 = n / d;
        proof {
            vstd::arithmetic::div_mod::lemma_div_nonincreasing(n as int, d as int);
            vstd::arithmetic::div_mod::lemma_div_pos_is_pos(n as int, d as int);
        }
        -q
    }
}

/// The bound under which `floor_sqrt` takes its argument: 2 to the 124th.
pub const SQRT_ARG_LIMIT: u128 = 0x1000_0000_0000_0000_0000_0000_0000_0000;

/// The bound under which `floor_sqrt` finds the root: 2 to the 62nd.
pub const SQRT_LIMIT: u128 = 0x4000_0000_0000_0000;

/// The integer square root of `n`, rounded down.
pub fn floor_sqrt(n: u128) -> (r: u128)
    requires
        n < SQRT_ARG_LIMIT,
    ensures
        is_floor_sqrt(n as int, r as int),
        r < SQRT_LIMIT,
{
    let mut lo: u128 = 0;
    let mut hi: u128 = SQRT_LIMIT;
    assert(SQRT_LIMIT * SQRT_LIMIT == SQRT_ARG_LIMIT) by (nonlinear_arith)
        requires
            SQRT_LIMIT == 0x4000_0000_0000_0000u128,
            SQRT_ARG_LIMIT == 0x1000_0000_0000_0000_0000_0000_0000_0000u128,
    ;
    while hi - lo > 1
        invariant
            lo < hi <= SQRT_LIMIT,
            lo * lo <= n,
            n < hi * hi,
        decreases hi - lo,
    {
        let mid: u128 = lo + (hi - lo) / 2;
        assert(mid * mid < SQRT_LIMIT * SQRT_LIMIT) by (nonlinear_arith)
            requires
                mid < SQRT_LIMIT,
        ;
        assert(SQRT_LIMIT * SQRT_LIMIT == SQRT_ARG_LIMIT) by (nonlinear_arith)
            requires
                SQRT_LIMIT == 0x4000_0000_0000_0000u128,
                SQRT_ARG_LIMIT == 0x1000_0000_0000_0000_0000_0000_0000_0000u128,
        ;
        if mid * mid <= n {
            lo = mid;
        } else {
            hi = mid;
        }
    }
    lo
}

/// Whether `r` is the square root of `n`, rounded up to a whole number.
pub open spec fn is_ceil_sqrt(n: int, r: int) -> bool {
    0 <= r && n <= r * r && (r > 0 ==> (r - 1) * (r - 1) < n)
}

/// The length of the vector `(x, y)`, rounded up to a whole number.
pub open spec fn length_up(x: int, y: int) -> int {
    choose|r: int| is_ceil_sqrt(norm_sq(x, y), r)
}

/// The largest magnitude of a component whose length `length` computes.
pub const LENGTH_ARG_MAX: i128 = 2_000_000_000_000_000_000;

/// A number has at most one rounded-up square root.
pub proof fn lemma_ceil_sqrt_unique(n: int, r1: int, r2: int)
    requires
        is_ceil_sqrt(n, r1),
        is_ceil_sqrt(n, r2),
    ensures
        r1 == r2,
{
    if r1 < r2 {
        assert(r1 * r1 <= (r2 - 1) * (r2 - 1)) by (nonlinear_arith)
            requires
                0 <= r1 <= r2 - 1,
        ;
    } else if r2 < r1 {
        assert(r2 * r2 <= (r1 - 1) * (r1 - 1)) by (nonlinear_arith)
            requires
                0 <= r2 <= r1 - 1,
        ;
    }
}

/// Every vector has a rounded-up length.
pub proof fn lemma_length_up_exists(x: int, y: int)
    ensures
        is_ceil_sqrt(norm_sq(x, y), length_up(x, y)),
{
    let n = norm_sq(x, y);
    assert(n >= 0) by (nonlinear_arith)
        requires
            n == x * x + y * y,
    ;
    assert(n <= n * n) by (nonlinear_arith)
        requires
            n >= 0,
    ;
    lemma_ceil_sqrt_exists(n, n);
}

/// Below any bound whose square reaches `n` stands the rounded-up square
/// root of `n`.
pub proof fn lemma_ceil_sqrt_exists(n: int, bound: int)
    requires
        0 <= bound,
        n <= bound * bound,
    ensures
        exists|r: int| is_ceil_sqrt(n, r),
    decreases bound,
{
    if bound > 0 && n <= (bound - 1) * (bound - 1) {
        lemma_ceil_sqrt_exists(n, bound - 1);
    } else {
        assert(is_ceil_sqrt(n, bound));
    }
}

/// Rescaling by a length that is not too short brings a vector under the
/// cap.
pub proof fn lemma_rescale_bound(vx: int, vy: int, len: int, cap: int)
    requires
        len > 0,
        cap >= 0,
        norm_sq(vx, vy) <= len * len,
    ensures
        norm_sq(trunc_div(vx * cap, len), trunc_div(vy * cap, len)) <= cap * cap,
        magnitude(trunc_div(vx * cap, len)) <= cap,
        magnitude(trunc_div(vy * cap, len)) <= cap,
{
    let ax = magnitude(vx);
    let ay = magnitude(vy);
    let qx = (ax * cap) / len;
    let qy = (ay * cap) / len;
    assert(ax * cap >= 0 && ay * cap >= 0) by (nonlinear_arith)
        requires
            ax >= 0,
            ay >= 0,
            cap >= 0,
    ;
    if vx < 0 {
        assert(-(vx * cap) == ax * cap && vx * cap <= 0) by (nonlinear_arith)
            requires
                vx < 0,
                ax == -vx,
                cap >= 0,
        ;
    }
    if vy < 0 {
        assert(-(vy * cap) == ay * cap && vy * cap <= 0) by (nonlinear_arith)
            requires
                vy < 0,
                ay == -vy,
                cap >= 0,
        ;
    }
    assert(magnitude(trunc_div(vx * cap, len)) == qx) by {
        vstd::arithmetic::div_mod::lemma_div_pos_is_pos(ax * cap, len);
    }
    assert(magnitude(trunc_div(vy * cap, len)) == qy) by {
        vstd::arithmetic::div_mod::lemma_div_pos_is_pos(ay * cap, len);
    }
    vstd::arithmetic::div_mod::lemma_fundamental_div_mod(ax * cap, len);
    vstd::arithmetic::div_mod::lemma_fundamental_div_mod(ay * cap, len);
    vstd::arithmetic::div_mod::lemma_mod_bound(ax * cap, len);
    vstd::arithmetic::div_mod::lemma_mod_bound(ay * cap, len);
    vstd::arithmetic::div_mod::lemma_div_pos_is_pos(ax * cap, len);
    vstd::arithmetic::div_mod::lemma_div_pos_is_pos(ay * cap, len);
    assert(len * qx <= ax * cap);
    assert(len * qy <= ay * cap);
    assert((len * qx) * (len * qx) <= (ax * cap) * (ax * cap)) by (nonlinear_arith)
        requires
            0 <= len * qx <= ax * cap,
    ;
    assert((len * qy) * (len * qy) <= (ay * cap) * (ay * cap)) by (nonlinear_arith)
        requires
            0 <= len * qy <= ay * cap,
            0 <= qy,
    ;
    assert((qx * qx + qy * qy) * (len * len) == (len * qx) * (len * qx) + (len * qy) * (len * qy))
        by (nonlinear_arith);
    assert((ax * cap) * (ax * cap) + (ay * cap) * (ay * cap) == (ax * ax + ay * ay) * (cap * cap))
        by (nonlinear_arith);
    assert(ax * ax + ay * ay == norm_sq(vx, vy)) by (nonlinear_arith)
        requires
            ax == magnitude(vx),
            ay == magnitude(vy),
    ;
    assert((ax * ax + ay * ay) * (cap * cap) <= (len * len) * (cap * cap)) by (nonlinear_arith)
        requires
            ax * ax + ay * ay <= len * len,
    ;
    let lhs = qx * qx + qy * qy;
    assert(lhs * (len * len) <= (cap * cap) * (len * len)) by (nonlinear_arith)
        requires
            lhs * (len * len) <= (len * len) * (cap * cap),
    ;
    assert(lhs <= cap * cap) by (nonlinear_arith)
        requires
            lhs * (len * len) <= (cap * cap) * (len * len),
            len > 0,
    ;
    assert(norm_sq(trunc_div(vx * cap, len), trunc_div(vy * cap, len)) == lhs) by (nonlinear_arith)
        requires
            magnitude(trunc_div(vx * cap, len)) == qx,
            magnitude(trunc_div(vy * cap, len)) == qy,
            lhs == qx * qx + qy * qy,
    ;
    assert(qx <= cap && qy <= cap) by (nonlinear_arith)
        requires
            qx * qx + qy * qy <= cap * cap,
            qx >= 0,
            qy >= 0,
            cap >= 0,
    ;
}

/// Rescaling by the rounded-up length, where that is at least the wanted
/// length, falls short of the wanted length by less than three.
pub proof fn lemma_rescale_reach(vx: int, vy: int, len: int, cap: int)
    requires
        is_ceil_sqrt(norm_sq(vx, vy), len),
        len >= cap,
        cap >= 3,
    ensures
        (cap - 3) * (cap - 3) <= norm_sq(trunc_div(vx * cap, len), trunc_div(vy * cap, len)),
{
    let a = magnitude(vx);
    let b = magnitude(vy);
    let p = (a * cap) / len;
    let q = (b * cap) / len;
    assert(a * cap >= 0 && b * cap >= 0) by (nonlinear_arith)
        requires
            a >= 0,
            b >= 0,
            cap >= 0,
    ;
    if vx < 0 {
        assert(-(vx * cap) == a * cap && vx * cap < 0) by (nonlinear_arith)
            requires
                vx < 0,
                a == -vx,
                cap > 0,
        ;
    }
    if vy < 0 {
        assert(-(vy * cap) == b * cap && vy * cap < 0) by (nonlinear_arith)
            requires
                vy < 0,
                b == -vy,
                cap > 0,
        ;
    }
    vstd::arithmetic::div_mod::lemma_fundamental_div_mod(a * cap, len);
    vstd::arithmetic::div_mod::lemma_fundamental_div_mod(b * cap, len);
    vstd::arithmetic::div_mod::lemma_mod_bound(a * cap, len);
    vstd::arithmetic::div_mod::lemma_mod_bound(b * cap, len);
    vstd::arithmetic::div_mod::lemma_div_pos_is_pos(a * cap, len);
    vstd::arithmetic::div_mod::lemma_div_pos_is_pos(b * cap, len);
    assert(magnitude(trunc_div(vx * cap, len)) == p);
    assert(magnitude(trunc_div(vy * cap, len)) == q);
    let lhs = p * p + q * q;
    assert(norm_sq(trunc_div(vx * cap, len), trunc_div(vy * cap, len)) == lhs) by (nonlinear_arith)
        requires
            magnitude(trunc_div(vx * cap, len)) == p,
            magnitude(trunc_div(vy * cap, len)) == q,
            lhs == p * p + q * q,
    ;
    let r = cap - 3;
    if lhs < r * r {
        // The quotients, each one more, reach the products.
        assert(len * p + len > a * cap);
        assert(len * q + len > b * cap);
        let p1 = p + 1;
        let q1 = q + 1;
        assert(len * p1 == len * p + len) by (nonlinear_arith)
            requires
                p1 == p + 1,
        ;
        assert(len * q1 == len * q + len) by (nonlinear_arith)
            requires
                q1 == q + 1,
        ;
        assert((len * p1) * (len * p1) >= (a * cap) * (a * cap)) by (nonlinear_arith)
            requires
                len * p1 >= a * cap,
                a * cap >= 0,
        ;
        assert((len * q1) * (len * q1) >= (b * cap) * (b * cap)) by (nonlinear_arith)
            requires
                len * q1 >= b * cap,
                b * cap >= 0,
        ;
        let big = p1 * p1 + q1 * q1;
        assert(big * (len * len) == (len * p1) * (len * p1) + (len * q1) * (len * q1))
            by (nonlinear_arith)
            requires
                big == p1 * p1 + q1 * q1,
        ;
        let n = a * a + b * b;
        assert((a * cap) * (a * cap) + (b * cap) * (b * cap) == n * (cap * cap))
            by (nonlinear_arith)
            requires
                n == a * a + b * b,
        ;
        assert(n == norm_sq(vx, vy)) by (nonlinear_arith)
            requires
                a == magnitude(vx),
                b == magnitude(vy),
                n == a * a + b * b,
        ;
        assert(big * (len * len) >= n * (cap * cap));
        // The quotients are short, so one more each stays under `cap - 1`.
        assert(2 * (p + q) <= 3 * r) by (nonlinear_arith)
            requires
                p >= 0,
                q >= 0,
                r >= 0,
                p * p + q * q < r * r,
        ;
        assert(big == lhs + 2 * (p + q) + 2) by (nonlinear_arith)
            requires
                big == p1 * p1 + q1 * q1,
                p1 == p + 1,
                q1 == q + 1,
                lhs == p * p + q * q,
        ;
        let c1 = cap - 1;
        assert(big < c1 * c1) by (nonlinear_arith)
            requires
                big <= r * r - 1 + 3 * r + 2,
                c1 == r + 2,
                r >= 0,
        ;
        // The length is rounded up by less than one.
        let l1 = len - 1;
        assert(l1 * l1 < n);
        assert(l1 * cap >= c1 * len) by (nonlinear_arith)
            requires
                l1 == len - 1,
                c1 == cap - 1,
                len >= cap,
        ;
        assert(c1 * len >= 0) by (nonlinear_arith)
            requires
                c1 >= 0,
                len >= 0,
        ;
        assert((l1 * cap) * (l1 * cap) >= (c1 * len) * (c1 * len)) by (nonlinear_arith)
            requires
                l1 * cap >= c1 * len,
                c1 * len >= 0,
        ;
        assert((l1 * cap) * (l1 * cap) == (l1 * l1) * (cap * cap)) by (nonlinear_arith);
        assert((c1 * len) * (c1 * len) == (c1 * c1) * (len * len)) by (nonlinear_arith);
        assert((l1 * l1) * (cap * cap) < n * (cap * cap)) by (nonlinear_arith)
            requires
                l1 * l1 < n,
                cap > 0,
        ;
        assert(big * (len * len) < (c1 * c1) * (len * len)) by (nonlinear_arith)
            requires
                big < c1 * c1,
                len > 0,
        ;
        assert(false);
    }
}

/// The length of the vector `(x, y)`, rounded up. It is at least the
/// magnitude of each component and at most their sum.
pub fn length(x: i128, y: i128) -> (r: i128)
    requires
        -LENGTH_ARG_MAX <= x <= LENGTH_ARG_MAX,
        -LENGTH_ARG_MAX <= y <= LENGTH_ARG_MAX,
    ensures
        r as int == length_up(x as int, y as int),
        is_ceil_sqrt(norm_sq(x as int, y as int), r as int),
        magnitude(x as int) <= r,
        magnitude(y as int) <= r,
        r <= magnitude(x as int) + magnitude(y as int),
{
    let ax: i128 = if x < 0 { -x } else { x };
    let ay: i128 = if y < 0 { -y } else { y };
    assert(ax * ax == x * x && ay * ay == y * y) by (nonlinear_arith)
        requires
            ax == magnitude(x as int),
            ay == magnitude(y as int),
    ;
    assert(0 <= ax * ax <= LENGTH_ARG_MAX * LENGTH_ARG_MAX && 0 <= ay * ay <= LENGTH_ARG_MAX
        * LENGTH_ARG_MAX) by (nonlinear_arith)
        requires
            0 <= ax <= LENGTH_ARG_MAX,
            0 <= ay <= LENGTH_ARG_MAX,
    ;
    assert(LENGTH_ARG_MAX * LENGTH_ARG_MAX == 4_000_000_000_000_000_000_000_000_000_000_000_000int)
        by (nonlinear_arith);
    let n: u128 = (ax * ax + ay * ay) as u128;
    let s: u128 = floor_sqrt(n);
    let r: i128 = if s * s == n {
        s as i128
    } else {
        (s + 1) as i128
    };
    proof {
        let ni = norm_sq(x as int, y as int);
        assert(ni == n as int);
        assert(s * s == n ==> (s > 0 ==> (s - 1) * (s - 1) < s * s)) by (nonlinear_arith)
            requires
                s >= 0,
        ;
        assert(is_ceil_sqrt(ni, r as int));
        let picked = length_up(x as int, y as int);
        assert(is_ceil_sqrt(ni, picked));
        lemma_ceil_sqrt_unique(ni, r as int, picked);
        assert(ax <= r) by (nonlinear_arith)
            requires
                0 <= ax,
                0 <= r,
                ax * ax <= r * r,
        ;
        assert(ay <= r) by (nonlinear_arith)
            requires
                0 <= ay,
                0 <= r,
                ay * ay <= r * r,
        ;
        assert(r <= ax + ay) by (nonlinear_arith)
            requires
                0 <= ax,
                0 <= ay,
                0 <= r,
                r > 0 ==> (r - 1) * (r - 1) < ax * ax + ay * ay,
        ;
    }
    r
}

/// The most that `spread` makes of the larger component: 10 to the 18th.
pub const SPREAD: i128 = 1_000_000_000_000_000_000;

/// The least that `spread` makes of the larger component of a vector that is
/// not zero: 10 to the 17th.
pub const SPREAD_FLOOR: i128 = 100_000_000_000_000_000;

/// The largest magnitude of a component that `normalize` takes: 10 to the
/// 37th.
pub const NORMALIZE_ARG_MAX: i128 = 10_000_000_000_000_000_000_000_000_000_000_000_000;

/// The magnitude of the larger component of `(x, y)`.
pub open spec fn larger(x: int, y: int) -> int {
    if magnitude(x) >= magnitude(y) {
        magnitude(x)
    } else {
        magnitude(y)
    }
}

/// A vector along `(x, y)` whose larger component lies between
/// `SPREAD_FLOOR` and `SPREAD`, so that its rounded-up length is off by less
/// than one part in `SPREAD_FLOOR`. A short vector is multiplied by a whole
/// number, which keeps its direction exactly; a long one is divided.
pub open spec fn spread(x: int, y: int) -> (int, int) {
    let m = larger(x, y);
    if m == 0 {
        (0, 0)
    } else if m < SPREAD {
        (x * (SPREAD as int / m), y * (SPREAD as int / m))
    } else {
        (trunc_div(x, m / (SPREAD_FLOOR as int)), trunc_div(y, m / (SPREAD_FLOOR as int)))
    }
}

/// The vector of length `m` along `(x, y)`, each component rounded toward
/// zero; the zero vector along the zero vector.
pub open spec fn normalized(x: int, y: int, m: int) -> (int, int) {
    let g = spread(x, y);
    let len = length_up(g.0, g.1);
    if len == 0 {
        (0, 0)
    } else {
        (trunc_div(g.0 * m, len), trunc_div(g.1 * m, len))
    }
}

/// The larger component of a spread vector lies between `SPREAD_FLOOR` and
/// `SPREAD`, unless the vector is zero.
pub proof fn lemma_spread_range(x: int, y: int)
    requires
        larger(x, y) > 0,
    ensures
        SPREAD_FLOOR <= larger(spread(x, y).0, spread(x, y).1) <= SPREAD,
        magnitude(spread(x, y).0) <= SPREAD,
        magnitude(spread(x, y).1) <= SPREAD,
{
    let m = larger(x, y);
    let ax = magnitude(x);
    let ay = magnitude(y);
    if m < SPREAD {
        let c = SPREAD as int / m;
        vstd::arithmetic::div_mod::lemma_fundamental_div_mod(SPREAD as int, m);
        vstd::arithmetic::div_mod::lemma_mod_bound(SPREAD as int, m);
        let mc = m * c;
        assert(c >= 1) by (nonlinear_arith)
            requires
                SPREAD == m * c + (SPREAD as int % m),
                0 <= (SPREAD as int % m) < m,
                m < SPREAD,
                m > 0,
        ;
        assert(mc >= m) by (nonlinear_arith)
            requires
                mc == m * c,
                c >= 1,
                m > 0,
        ;
        assert(2 * mc > SPREAD);
        assert(magnitude(x * c) == ax * c && magnitude(y * c) == ay * c) by (nonlinear_arith)
            requires
                ax == magnitude(x),
                ay == magnitude(y),
                c >= 1,
        ;
        assert(ax * c <= mc && ay * c <= mc) by (nonlinear_arith)
            requires
                mc == m * c,
                0 <= ax <= m,
                0 <= ay <= m,
                c >= 1,
        ;
        assert(ax == m ==> ax * c == mc);
        assert(ay == m ==> ay * c == mc);
    } else {
        let d = m / (SPREAD_FLOOR as int);
        let q = m / d;
        vstd::arithmetic::div_mod::lemma_fundamental_div_mod(m, SPREAD_FLOOR as int);
        vstd::arithmetic::div_mod::lemma_mod_bound(m, SPREAD_FLOOR as int);
        let fd = SPREAD_FLOOR * d;
        assert(d >= 10) by (nonlinear_arith)
            requires
                m == SPREAD_FLOOR * d + (m % (SPREAD_FLOOR as int)),
                0 <= (m % (SPREAD_FLOOR as int)) < SPREAD_FLOOR,
                m >= 10 * SPREAD_FLOOR,
                SPREAD_FLOOR > 0,
        ;
        vstd::arithmetic::div_mod::lemma_fundamental_div_mod(m, d);
        vstd::arithmetic::div_mod::lemma_mod_bound(m, d);
        assert(q >= SPREAD_FLOOR) by (nonlinear_arith)
            requires
                m == d * q + (m % d),
                0 <= (m % d) < d,
                m >= SPREAD_FLOOR * d,
                d > 0,
        ;
        assert(q < 2 * SPREAD_FLOOR) by (nonlinear_arith)
            requires
                m == d * q + (m % d),
                0 <= (m % d),
                m < SPREAD_FLOOR * d + SPREAD_FLOOR,
                d >= 10,
                SPREAD_FLOOR > 0,
        ;
        vstd::arithmetic::div_mod::lemma_div_is_ordered(ax, m, d);
        vstd::arithmetic::div_mod::lemma_div_is_ordered(ay, m, d);
        vstd::arithmetic::div_mod::lemma_div_pos_is_pos(ax, d);
        vstd::arithmetic::div_mod::lemma_div_pos_is_pos(ay, d);
        assert(magnitude(trunc_div(x, d)) == ax / d);
        assert(magnitude(trunc_div(y, d)) == ay / d);
    }
}

/// A normalized vector is no longer than asked and, along a vector that is
/// not zero, shorter by less than three.
pub proof fn lemma_normalized_length(x: int, y: int, m: int)
    requires
        0 <= m <= SPREAD_FLOOR,
    ensures
        norm_sq(normalized(x, y, m).0, normalized(x, y, m).1) <= m * m,
        magnitude(normalized(x, y, m).0) <= m,
        magnitude(normalized(x, y, m).1) <= m,
        (x != 0 || y != 0) && m >= 3 ==> (m - 3) * (m - 3) <= norm_sq(
            normalized(x, y, m).0,
            normalized(x, y, m).1,
        ),
        x == 0 && y == 0 ==> normalized(x, y, m) == (0int, 0int),
{
    let g = spread(x, y);
    lemma_length_up_exists(g.0, g.1);
    let len = length_up(g.0, g.1);
    assert(m * m >= 0) by (nonlinear_arith);
    if larger(x, y) == 0 {
        assert(is_ceil_sqrt(norm_sq(0, 0), 0));
        lemma_ceil_sqrt_unique(norm_sq(0, 0), 0, len);
    } else {
        lemma_spread_range(x, y);
        let a = magnitude(g.0);
        let b = magnitude(g.1);
        assert(len >= a && len >= b) by (nonlinear_arith)
            requires
                a == magnitude(g.0),
                b == magnitude(g.1),
                len >= 0,
                g.0 * g.0 + g.1 * g.1 <= len * len,
        ;
        assert(len >= SPREAD_FLOOR);
        lemma_rescale_bound(g.0, g.1, len, m);
        if m >= 3 {
            lemma_rescale_reach(g.0, g.1, len, m);
        }
    }
}

/// The vector of length `m` along `(x, y)`: the components are spread so
/// that rounding the length up costs nothing to speak of, then scaled by
/// `m` over that length and rounded toward zero. The result is no longer
/// than `m` and shorter by less than three; along the zero vector it is
/// zero.
pub fn normalize(x: i128, y: i128, m: i64) -> (r: (i64, i64))
    requires
        -NORMALIZE_ARG_MAX <= x <= NORMALIZE_ARG_MAX,
        -NORMALIZE_ARG_MAX <= y <= NORMALIZE_ARG_MAX,
        0 <= m <= COORD_MAX,
    ensures
        (r.0 as int, r.1 as int) == normalized(x as int, y as int, m as int),
        norm_sq(r.0 as int, r.1 as int) <= m * m,
        (x != 0 || y != 0) && m >= 3 ==> (m - 3) * (m - 3) <= norm_sq(r.0 as int, r.1 as int),
        x == 0 && y == 0 ==> r == (0i64, 0i64),
{
    proof {
        lemma_normalized_length(x as int, y as int, m as int);
    }
    let ax: i128 = if x < 0 { -x } else { x };
    let ay: i128 = if y < 0 { -y } else { y };
    let big: i128 = if ax >= ay { ax } else { ay };
    if big == 0 {
        return (0, 0);
    }
    proof {
        lemma_spread_range(x as int, y as int);
    }
    let gx: i128;
    let gy: i128;
    if big < SPREAD {
        let c: i128 = SPREAD / big;
        gx = x * c;
        gy = y * c;
    } else {
        let d: i128 = big / SPREAD_FLOOR;
        gx = mul_div(x, 1, d);
        gy = mul_div(y, 1, d);
    }
    let len: i128 = length(gx, gy);
    let wide: i128 = m as i128;
    assert(-(SPREAD * COORD_MAX) <= gx * wide <= SPREAD * COORD_MAX && -(SPREAD * COORD_MAX) <= gy
        * wide <= SPREAD * COORD_MAX) by (nonlinear_arith)
        requires
            -SPREAD <= gx <= SPREAD,
            -SPREAD <= gy <= SPREAD,
            0 <= wide <= COORD_MAX,
    ;
    assert(SPREAD * COORD_MAX == 1_000_000_000_000_000_000_000_000_000_000int) by (nonlinear_arith)
        requires
            SPREAD == 1_000_000_000_000_000_000int,
            COORD_MAX == 1_000_000_000_000int,
    ;
    let sx: i128 = mul_div(gx, wide, len);
    let sy: i128 = mul_div(gy, wide, len);
    (sx as i64, sy as i64)
}

/// A point or a displacement in the arena.
#[derive(Copy, Clone, Debug, PartialEq, Eq, Structural)]
pub struct Vec2 {
    pub x: i64,
    pub y: i64,
}

impl Vec2 {
    /// Both components are representable.
    pub open spec fn wf(self) -> bool {
        in_coord_range(self.x as int) && in_coord_range(self.y as int)
    }

    /// The squared length, in squared millionths.
    pub open spec fn length_sq(self) -> int {
        norm_sq(self.x as int, self.y as int)
    }

    /// The vector with the given components, each saturated into range.
    pub fn new(x: i64, y: i64) -> (v: Vec2)
        ensures
            v.x as int == clamp_coord(x as int),
            v.y as int == clamp_coord(y as int),
            v.wf(),
    {
        Vec2 { x: saturate(x as i128), y: saturate(y as i128) }
    }

    /// The origin.
    pub fn zero() -> (v: Vec2)
        ensures
            v == (Vec2 { x: 0, y: 0 }),
            v.wf(),
    {
        Vec2 { x: 0, y: 0 }
    }

    /// The same vector pointing the other way.
    pub fn reversed(self) -> (v: Vec2)
        requires
            self.wf(),
        ensures
            v.x as int == -(self.x as int),
            v.y as int == -(self.y as int),
            v.wf(),
    {
        Vec2 { x: -self.x, y: -self.y }
    }
}

} // verus!
