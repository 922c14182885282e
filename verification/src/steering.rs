//! Steering forces: bounded pushes that turn a velocity toward a wanted
//! direction.
//!
//! All vectors are counted in lattice steps. Where a vector is rescaled
//! to a given length, each component is the exact value rounded toward
//! zero. The result is therefore never longer than the wanted length, is
//! less than two steps shorter, and points the way the vector did to
//! within one step across: small against a world unit, which is some
//! thousand steps.

use vstd::prelude::*;
use crate::agent::Velocity;
use crate::plane::Vec2;
use crate::root::{
    isqrt, isqrt_u128, lemma_isqrt_exists, lemma_isqrt_is, lemma_square_monotone,
    lemma_square_strict,
};

verus! {

/// Inside this distance of its target an arriving agent slows down:
/// fifty world units.
pub const BRAKE_RADIUS: i32 = 51200;

/// The quotient of `a` by a positive `n`, rounded toward zero.
pub open spec fn trunc_div(a: int, n: int) -> int {
    if a >= 0 {
        a / n
    } else {
        -((-a) / n)
    }
}

/// The squared length of the vector `(dx, dz)`.
pub open spec fn norm2(dx: int, dz: int) -> int {
    dx * dx + dz * dz
}

/// One component of a vector of squared length `len2` after the vector is
/// rescaled to length `m`: `d * m / sqrt(len2)`, rounded toward zero.
pub open spec fn scaled_component(d: int, m: int, len2: int) -> int {
    let magnitude = isqrt(d * d * m * m / len2);
    if d < 0 {
        -magnitude
    } else {
        magnitude
    }
}

/// The vector `(dx, dz)` rescaled to length `m`.
pub open spec fn rescaled(dx: int, dz: int, m: int) -> (int, int) {
    (scaled_component(dx, m, norm2(dx, dz)), scaled_component(dz, m, norm2(dx, dz)))
}

/// The vector `(dx, dz)`, rescaled to length `m` if it is longer than that.
pub open spec fn limited(dx: int, dz: int, m: int) -> (int, int) {
    if norm2(dx, dz) > m * m {
        rescaled(dx, dz, m)
    } else {
        (dx, dz)
    }
}

/// The change of velocity that an agent moving as `v` says would need
/// to move along `(dx, dz)`, which is not zero, at full speed: the
/// direction rescaled to the agent's full speed, less its velocity.
pub open spec fn steer_wish(dx: int, dz: int, v: Velocity) -> (int, int) {
    let wanted = rescaled(dx, dz, v.max_velocity as int);
    (wanted.0 - v.velocity.x, wanted.1 - v.velocity.z)
}

/// The force that steers an agent moving as `v` says toward `(dx, dz)`:
/// the wished change of velocity, limited to the agent's steering force.
/// A zero direction calls for no force.
pub open spec fn steer_force(dx: int, dz: int, v: Velocity) -> (int, int) {
    if dx == 0 && dz == 0 {
        (0, 0)
    } else {
        limited(steer_wish(dx, dz, v).0, steer_wish(dx, dz, v).1, v.max_force as int)
    }
}

/// How far `(rx, rz)` points away from the direction of `(dx, dz)`: the
/// cross product of the two, which is zero for parallel vectors.
pub open spec fn cross(rx: int, rz: int, dx: int, dz: int) -> int {
    rx * dz - rz * dx
}

/// `(rx, rz)` has the length `m` and the direction of `(dx, dz)`, as
/// nearly as whole steps allow: it is not longer than `m` and less than
/// two steps shorter, no component points the other way, and it is less
/// than one step off the line of `(dx, dz)`.
pub open spec fn clamped_to(rx: int, rz: int, dx: int, dz: int, m: int) -> bool {
    &&& norm2(rx, rz) <= m * m
    &&& m >= 2 ==> (m - 2) * (m - 2) <= norm2(rx, rz)
    &&& dx >= 0 ==> rx >= 0
    &&& dx <= 0 ==> rx <= 0
    &&& dz >= 0 ==> rz >= 0
    &&& dz <= 0 ==> rz <= 0
    &&& -(magnitude(dx) + magnitude(dz)) <= cross(rx, rz, dx, dz) <= magnitude(dx) + magnitude(dz)
}

/// The velocity that an agent with the limits of `v` wants on its way to
/// a target that lies `(dx, dz)` away, which is not zero: toward the
/// target, at full speed outside the brake radius, and inside it at a
/// speed that grows in proportion to the distance, from nothing at the
/// target.
pub open spec fn arrive_wish(dx: int, dz: int, v: Velocity) -> (int, int) {
    if norm2(dx, dz) < BRAKE_RADIUS * BRAKE_RADIUS {
        (
            trunc_div(dx * v.max_velocity, BRAKE_RADIUS as int),
            trunc_div(dz * v.max_velocity, BRAKE_RADIUS as int),
        )
    } else {
        rescaled(dx, dz, v.max_velocity as int)
    }
}

/// The force that brings an agent moving as `v` says to rest at a target
/// that lies `(dx, dz)` away: the wanted velocity, limited to the agent's
/// steering force. At the target no force is called for.
pub open spec fn arrive_force(dx: int, dz: int, v: Velocity) -> (int, int) {
    if dx == 0 && dz == 0 {
        (0, 0)
    } else {
        limited(arrive_wish(dx, dz, v).0, arrive_wish(dx, dz, v).1, v.max_force as int)
    }
}

/// The size of `c`.
pub open spec fn magnitude(c: int) -> int {
    if c < 0 {
        -c
    } else {
        c
    }
}

/// A rescaled component keeps its sign, is at most `m` in size, and is
/// the exact value `d * m / sqrt(len2)` rounded toward zero: its size
/// does not exceed the exact size, and one more would.
pub proof fn lemma_scaled_component(d: int, m: int, len2: int)
    requires
        0 <= m,
        0 < len2,
        d * d <= len2,
    ensures
        ({
            let c = scaled_component(d, m, len2);
            let a = magnitude(c);
            &&& -m <= c <= m
            &&& d >= 0 ==> c >= 0
            &&& d <= 0 ==> c <= 0
            &&& a * a * len2 <= d * d * m * m
            &&& d * d * m * m < (a + 1) * (a + 1) * len2
        }),
{
    let n = d * d * m * m;
    let q = n / len2;
    assert(d * d >= 0) by (nonlinear_arith);
    assert(0 <= n <= len2 * (m * m)) by (nonlinear_arith)
        requires
            n == d * d * m * m,
            0 <= d * d <= len2,
            0 <= m,
    ;
    assert(0 <= q <= m * m && q * len2 <= n < (q + 1) * len2) by (nonlinear_arith)
        requires
            q == n / len2,
            0 <= n <= len2 * (m * m),
            0 < len2,
    ;
    lemma_isqrt_exists(q);
    let s = isqrt(q);
    if s > m {
        lemma_square_strict(m, s);
    }
    assert(s * s * len2 <= n) by (nonlinear_arith)
        requires
            s * s <= q,
            q * len2 <= n,
            0 < len2,
    ;
    assert(n < (s + 1) * (s + 1) * len2) by (nonlinear_arith)
        requires
            n < (q + 1) * len2,
            q + 1 <= (s + 1) * (s + 1),
            0 < len2,
    ;
    let c = scaled_component(d, m, len2);
    assert(magnitude(c) == s);
    if d == 0 {
        assert(n == 0) by (nonlinear_arith)
            requires
                n == d * d * m * m,
                d == 0,
        ;
        assert(s == 0) by {
            if s > 0 {
                lemma_square_monotone(1, s);
            }
        }
    }
}

/// A rescaled vector is never longer than the length asked for.
pub proof fn lemma_rescaled_bounded(dx: int, dz: int, m: int)
    requires
        0 <= m,
        dx != 0 || dz != 0,
    ensures
        norm2(rescaled(dx, dz, m).0, rescaled(dx, dz, m).1) <= m * m,
        -m <= rescaled(dx, dz, m).0 <= m,
        -m <= rescaled(dx, dz, m).1 <= m,
{
    let len2 = norm2(dx, dz);
    assert(dx * dx >= 0 && dz * dz >= 0 && len2 > 0) by (nonlinear_arith)
        requires
            len2 == dx * dx + dz * dz,
            dx != 0 || dz != 0,
    ;
    lemma_scaled_component(dx, m, len2);
    lemma_scaled_component(dz, m, len2);
    let rx = rescaled(dx, dz, m).0;
    let rz = rescaled(dx, dz, m).1;
    assert(rx * rx == magnitude(rx) * magnitude(rx) && rz * rz == magnitude(rz) * magnitude(rz))
        by (nonlinear_arith)
        requires
            magnitude(rx) == rx || magnitude(rx) == -rx,
            magnitude(rz) == rz || magnitude(rz) == -rz,
    ;
    assert(rx * rx + rz * rz <= m * m) by (nonlinear_arith)
        requires
            rx * rx * len2 <= dx * dx * m * m,
            rz * rz * len2 <= dz * dz * m * m,
            len2 == dx * dx + dz * dz,
            len2 > 0,
    ;
}

/// Where the lattice allows it, rescaling is exact: if the vector has
/// the whole length `len` and `len` divides both `dx * m` and `dz * m`,
/// the rescaled vector is `(dx * m / len, dz * m / len)`, its length is
/// exactly `m`, and it points the same way.
pub proof fn lemma_rescaled_exact(dx: int, dz: int, m: int, len: int)
    requires
        0 <= m,
        0 < len,
        len * len == norm2(dx, dz),
        (dx * m) % len == 0,
        (dz * m) % len == 0,
    ensures
        rescaled(dx, dz, m) == ((dx * m) / len, (dz * m) / len),
        norm2(rescaled(dx, dz, m).0, rescaled(dx, dz, m).1) == m * m,
        rescaled(dx, dz, m).0 * dz == rescaled(dx, dz, m).1 * dx,
{
    let len2 = norm2(dx, dz);
    let kx = (dx * m) / len;
    let kz = (dz * m) / len;
    assert(kx * len == dx * m && kz * len == dz * m) by (nonlinear_arith)
        requires
            kx == (dx * m) / len,
            kz == (dz * m) / len,
            (dx * m) % len == 0,
            (dz * m) % len == 0,
            0 < len,
    ;
    lemma_exact_component(dx, m, len, kx);
    lemma_exact_component(dz, m, len, kz);
    let l2 = len * len;
    let m2 = m * m;
    assert(kx * kx * l2 == dx * dx * m2) by (nonlinear_arith)
        requires
            kx * len == dx * m,
            l2 == len * len,
            m2 == m * m,
    {
        assert(kx * kx * (len * len) == (kx * len) * (kx * len));
        assert((dx * m) * (dx * m) == dx * dx * (m * m));
    }
    assert(kz * kz * l2 == dz * dz * m2) by (nonlinear_arith)
        requires
            kz * len == dz * m,
            l2 == len * len,
            m2 == m * m,
    {
        assert(kz * kz * (len * len) == (kz * len) * (kz * len));
        assert((dz * m) * (dz * m) == dz * dz * (m * m));
    }
    assert((kx * kx + kz * kz) * l2 == m2 * l2) by (nonlinear_arith)
        requires
            kx * kx * l2 == dx * dx * m2,
            kz * kz * l2 == dz * dz * m2,
            l2 == dx * dx + dz * dz,
    ;
    assert(kx * kx + kz * kz == m2) by (nonlinear_arith)
        requires
            (kx * kx + kz * kz) * l2 == m2 * l2,
            l2 == len * len,
            0 < len,
    ;
    assert((kx * dz) * len == (kz * dx) * len) by (nonlinear_arith)
        requires
            kx * len == dx * m,
            kz * len == dz * m,
    {
        assert((kx * dz) * len == (kx * len) * dz);
        assert((kz * dx) * len == (kz * len) * dx);
        assert((dx * m) * dz == (dz * m) * dx);
    }
    assert(kx * dz == kz * dx) by (nonlinear_arith)
        requires
            (kx * dz) * len == (kz * dx) * len,
            0 < len,
    ;
}

/// A component that the length divides is rescaled without rounding.
proof fn lemma_exact_component(d: int, m: int, len: int, k: int)
    requires
        0 <= m,
        0 < len,
        k * len == d * m,
    ensures
        scaled_component(d, m, len * len) == k,
{
    let a = if k < 0 { -k } else { k };
    assert(d * d * m * m == a * a * (len * len)) by (nonlinear_arith)
        requires
            k * len == d * m,
            a == k || a == -k,
    {
        assert(d * d * m * m == (d * m) * (d * m));
        assert((k * len) * (k * len) == k * k * (len * len));
        assert(a * a == k * k);
    }
    assert(len * len > 0) by (nonlinear_arith)
        requires
            0 < len,
    ;
    assert((a * a * (len * len)) / (len * len) == a * a) by (nonlinear_arith)
        requires
            len * len > 0,
    ;
    assert((a + 1) * (a + 1) > a * a) by (nonlinear_arith)
        requires
            a >= 0,
    ;
    lemma_isqrt_is(a * a, a);
    assert((d < 0 ==> k <= 0) && (d >= 0 ==> k >= 0)) by (nonlinear_arith)
        requires
            k * len == d * m,
            0 < len,
            0 <= m,
    ;
}

/// From `a * a * l <= bx * bx * m2` and `bz * bz * m2 <= e * e * l`
/// follows `a * bz <= bx * e`, all of them being non-negative.
proof fn lemma_cross_step(a: int, bx: int, bz: int, e: int, l: int, m2: int)
    requires
        0 <= a,
        0 <= bx,
        0 <= bz,
        0 <= e,
        0 < l,
        0 < m2,
        a * a * l <= bx * bx * m2,
        bz * bz * m2 <= e * e * l,
    ensures
        a * bz <= bx * e,
{
    let u = a * a * l;
    let v = bx * bx * m2;
    let w = bz * bz * m2;
    let x = e * e * l;
    let p = a * bz;
    let q = bx * e;
    let t = l * m2;
    assert(0 <= u && 0 <= w) by (nonlinear_arith)
        requires
            u == a * a * l,
            w == bz * bz * m2,
            0 < l,
            0 < m2,
    ;
    assert(u * w <= v * w) by (nonlinear_arith)
        requires
            u <= v,
            0 <= w,
    ;
    assert(v * w <= v * x) by (nonlinear_arith)
        requires
            w <= x,
            0 <= u <= v,
    ;
    assert(u * w == (p * p) * t) by (nonlinear_arith)
        requires
            u == a * a * l,
            w == bz * bz * m2,
            p == a * bz,
            t == l * m2,
    ;
    assert(v * x == (q * q) * t) by (nonlinear_arith)
        requires
            v == bx * bx * m2,
            x == e * e * l,
            q == bx * e,
            t == l * m2,
    ;
    assert(p * p <= q * q) by (nonlinear_arith)
        requires
            (p * p) * t <= (q * q) * t,
            t == l * m2,
            0 < l,
            0 < m2,
    ;
    assert(0 <= p && 0 <= q) by (nonlinear_arith)
        requires
            p == a * bz,
            q == bx * e,
            0 <= a,
            0 <= bz,
            0 <= bx,
            0 <= e,
    ;
    if p > q {
        lemma_square_strict(q, p);
    }
}

/// A rescaled vector has the length asked for and the direction of the
/// vector it was made from, as nearly as whole steps allow.
pub proof fn lemma_rescaled_close(dx: int, dz: int, m: int)
    requires
        0 <= m,
        dx != 0 || dz != 0,
    ensures
        clamped_to(rescaled(dx, dz, m).0, rescaled(dx, dz, m).1, dx, dz, m),
{
    let len2 = norm2(dx, dz);
    assert(dx * dx >= 0 && dz * dz >= 0 && len2 > 0) by (nonlinear_arith)
        requires
            len2 == dx * dx + dz * dz,
            dx != 0 || dz != 0,
    ;
    lemma_scaled_component(dx, m, len2);
    lemma_scaled_component(dz, m, len2);
    lemma_rescaled_bounded(dx, dz, m);
    let rx = rescaled(dx, dz, m).0;
    let rz = rescaled(dx, dz, m).1;
    let ax = magnitude(rx);
    let az = magnitude(rz);
    let bx = magnitude(dx);
    let bz = magnitude(dz);
    let m2 = m * m;
    assert(dx * dx * m * m == bx * bx * m2 && dz * dz * m * m == bz * bz * m2) by (nonlinear_arith)
        requires
            bx == dx || bx == -dx,
            bz == dz || bz == -dz,
            m2 == m * m,
    ;
    assert(rx * rx == ax * ax && rz * rz == az * az) by (nonlinear_arith)
        requires
            ax == rx || ax == -rx,
            az == rz || az == -rz,
    ;
    assert(bx * bx == dx * dx && bz * bz == dz * dz) by (nonlinear_arith)
        requires
            bx == dx || bx == -dx,
            bz == dz || bz == -dz,
    ;
    // the length
    assert(m2 < (ax + 1) * (ax + 1) + (az + 1) * (az + 1)) by (nonlinear_arith)
        requires
            bx * bx * m2 < (ax + 1) * (ax + 1) * len2,
            bz * bz * m2 < (az + 1) * (az + 1) * len2,
            len2 == bx * bx + bz * bz,
            len2 > 0,
    {
        assert((bx * bx + bz * bz) * m2 == bx * bx * m2 + bz * bz * m2);
        assert(((ax + 1) * (ax + 1) + (az + 1) * (az + 1)) * len2 == (ax + 1) * (ax + 1) * len2
            + (az + 1) * (az + 1) * len2);
    }
    if m >= 2 {
        lemma_short_by_less_than_two(ax, az, m);
    }
    // the direction
    if m == 0 {
        assert(cross(rx, rz, dx, dz) == 0) by (nonlinear_arith)
            requires
                rx == 0,
                rz == 0,
                cross(rx, rz, dx, dz) == rx * dz - rz * dx,
        ;
    } else {
        assert(m2 > 0) by (nonlinear_arith)
            requires
                m2 == m * m,
                m > 0,
        ;
        lemma_cross_step(ax, bx, bz, az + 1, len2, m2);
        lemma_cross_step(az, bz, bx, ax + 1, len2, m2);
        assert(ax * bz - az * bx <= bx && az * bx - ax * bz <= bz) by (nonlinear_arith)
            requires
                ax * bz <= bx * (az + 1),
                az * bx <= bz * (ax + 1),
        ;
        assert(cross(rx, rz, dx, dz) == ax * bz - az * bx || cross(rx, rz, dx, dz) == az * bx
            - ax * bz) by (nonlinear_arith)
            requires
                cross(rx, rz, dx, dz) == rx * dz - rz * dx,
                (rx == ax && dx == bx) || (rx == -ax && dx == -bx),
                (rz == az && dz == bz) || (rz == -az && dz == -bz),
        ;
    }
}

/// A vector with whole components `(ax, az)` that is not longer than
/// `m`, while `(ax + 1, az + 1)` is longer, is less than two shorter.
proof fn lemma_short_by_less_than_two(ax: int, az: int, m: int)
    requires
        0 <= ax,
        0 <= az,
        2 <= m,
        ax * ax + az * az <= m * m,
        m * m < (ax + 1) * (ax + 1) + (az + 1) * (az + 1),
    ensures
        (m - 2) * (m - 2) <= ax * ax + az * az,
{
    let n = ax * ax + az * az;
    assert(ax * ax >= 0 && az * az >= 0) by (nonlinear_arith);
    assert((ax + 1) * (ax + 1) + (az + 1) * (az + 1) == n + 2 * (ax + az) + 2) by (nonlinear_arith)
        requires
            n == ax * ax + az * az,
    ;
    assert((m - 2) * (m - 2) == m * m - 4 * m + 4) by (nonlinear_arith);
    if m >= 4 {
        let s = ax + az;
        assert(s * s <= 2 * n) by (nonlinear_arith)
            requires
                s == ax + az,
                n == ax * ax + az * az,
        {
            assert((ax - az) * (ax - az) >= 0);
        }
        if s >= 2 * m - 2 {
            lemma_square_monotone(2 * m - 2, s);
            assert((2 * m - 2) * (2 * m - 2) > 2 * (m * m)) by (nonlinear_arith)
                requires
                    m >= 4,
            ;
        }
    } else if m == 3 {
        if n == 0 {
            assert(ax == 0 && az == 0) by (nonlinear_arith)
                requires
                    ax * ax + az * az == 0,
                    0 <= ax,
                    0 <= az,
            ;
        }
    }
}

/// A vector that is longer than the limit is clamped to the limit: the
/// limited vector has the length of the limit and the direction of the
/// vector, as nearly as whole steps allow.
pub proof fn lemma_limited_close(dx: int, dz: int, m: int)
    requires
        0 <= m,
        norm2(dx, dz) > m * m,
    ensures
        clamped_to(limited(dx, dz, m).0, limited(dx, dz, m).1, dx, dz, m),
{
    assert(dx != 0 || dz != 0) by (nonlinear_arith)
        requires
            dx * dx + dz * dz > m * m,
            0 <= m,
    ;
    lemma_rescaled_close(dx, dz, m);
}

/// A limited vector is never longer than the limit, and a vector within
/// the limit is left as it is.
pub proof fn lemma_limited_bounded(dx: int, dz: int, m: int)
    requires
        0 <= m,
    ensures
        norm2(limited(dx, dz, m).0, limited(dx, dz, m).1) <= m * m,
        -m <= limited(dx, dz, m).0 <= m,
        -m <= limited(dx, dz, m).1 <= m,
        norm2(dx, dz) <= m * m ==> limited(dx, dz, m) == (dx, dz),
{
    if norm2(dx, dz) > m * m {
        assert(dx != 0 || dz != 0) by (nonlinear_arith)
            requires
                dx * dx + dz * dz > m * m,
                0 <= m,
        ;
        lemma_rescaled_bounded(dx, dz, m);
    } else {
        let ax = if dx < 0 { -dx } else { dx };
        let az = if dz < 0 { -dz } else { dz };
        assert(ax * ax == dx * dx && az * az == dz * dz) by (nonlinear_arith)
            requires
                ax == dx || ax == -dx,
                az == dz || az == -dz,
        ;
        assert(ax * ax >= 0 && az * az >= 0) by (nonlinear_arith);
        if ax > m {
            lemma_square_strict(m, ax);
        }
        if az > m {
            lemma_square_strict(m, az);
        }
    }
}

/// A steering force is never longer than the agent's steering force.
pub proof fn lemma_steer_force_bounded(dx: int, dz: int, v: Velocity)
    ensures
        norm2(steer_force(dx, dz, v).0, steer_force(dx, dz, v).1) <= v.max_force * v.max_force,
        -v.max_force <= steer_force(dx, dz, v).0 <= v.max_force,
        -v.max_force <= steer_force(dx, dz, v).1 <= v.max_force,
{
    if dx == 0 && dz == 0 {
        assert(v.max_force * v.max_force >= 0) by (nonlinear_arith);
    } else {
        lemma_limited_bounded(
            steer_wish(dx, dz, v).0,
            steer_wish(dx, dz, v).1,
            v.max_force as int,
        );
    }
}

/// An arrival force is never longer than the agent's steering force.
pub proof fn lemma_arrive_force_bounded(dx: int, dz: int, v: Velocity)
    ensures
        norm2(arrive_force(dx, dz, v).0, arrive_force(dx, dz, v).1) <= v.max_force * v.max_force,
        -v.max_force <= arrive_force(dx, dz, v).0 <= v.max_force,
        -v.max_force <= arrive_force(dx, dz, v).1 <= v.max_force,
{
    if dx == 0 && dz == 0 {
        assert(v.max_force * v.max_force >= 0) by (nonlinear_arith);
    } else {
        lemma_limited_bounded(
            arrive_wish(dx, dz, v).0,
            arrive_wish(dx, dz, v).1,
            v.max_force as int,
        );
    }
}

/// The quotient of `a` by a positive `n`, rounded toward zero.
pub(crate) fn div_toward_zero(a: i128, n: u64) -> (q: i128)
    requires
        n > 0,
        a > i128::MIN,
    ensures
        q == trunc_div(a as int, n as int),
{
    if a >= 0 {
        a / (n as i128)
    } else {
        -((-a) / (n as i128))
    }
}

/// The squared length of `(dx, dz)`.
fn norm2_wide(dx: i64, dz: i64) -> (len2: u128)
    requires
        -0x4_0000_0000 <= dx <= 0x4_0000_0000,
        -0x4_0000_0000 <= dz <= 0x4_0000_0000,
    ensures
        len2 == norm2(dx as int, dz as int),
        len2 <= 0x20_0000_0000_0000_0000,
        dx * dx <= len2,
        dz * dz <= len2,
{
    let ax: u128 = if dx < 0 { (-dx) as u128 } else { dx as u128 };
    let az: u128 = if dz < 0 { (-dz) as u128 } else { dz as u128 };
    assert(ax * ax == dx * dx && ax * ax <= 0x10_0000_0000_0000_0000) by (nonlinear_arith)
        requires
            ax == dx || ax == -dx,
            0 <= ax <= 0x4_0000_0000,
    ;
    assert(az * az == dz * dz && az * az <= 0x10_0000_0000_0000_0000) by (nonlinear_arith)
        requires
            az == dz || az == -dz,
            0 <= az <= 0x4_0000_0000,
    ;
    ax * ax + az * az
}

/// One component of a vector of squared length `len2`, rescaled to
/// length `m`.
fn scale_component(d: i64, m: u16, len2: u128) -> (c: i32)
    requires
        -0x4_0000_0000 <= d <= 0x4_0000_0000,
        0 < len2,
        d * d <= len2,
    ensures
        c == scaled_component(d as int, m as int, len2 as int),
        -m <= c <= m,
{
    let a: u128 = if d < 0 { (-d) as u128 } else { d as u128 };
    let mm: u128 = m as u128;
    assert(a * a == d * d && a * a <= 0x10_0000_0000_0000_0000) by (nonlinear_arith)
        requires
            a == d || a == -d,
            0 <= a <= 0x4_0000_0000,
    ;
    assert(a * a * mm <= 0x10_0000_0000_0000_0000 * 0x1_0000 && a * a * mm * mm
        <= 0x10_0000_0000_0000_0000 * 0x1_0000 * 0x1_0000) by (nonlinear_arith)
        requires
            0 <= a * a <= 0x10_0000_0000_0000_0000,
            0 <= mm < 0x1_0000,
    ;
    let q: u128 = a * a * mm * mm / len2;
    assert(d * d * m * m == a * a * mm * mm) by (nonlinear_arith)
        requires
            a * a == d * d,
            mm == m,
    ;
    let magnitude: u64 = isqrt_u128(q);
    proof {
        lemma_scaled_component(d as int, m as int, len2 as int);
    }
    if d < 0 {
        -(magnitude as i32)
    } else {
        magnitude as i32
    }
}

/// The vector `(dx, dz)`, which is not zero, rescaled to length `m`.
fn rescale(dx: i64, dz: i64, m: u16) -> (r: Vec2)
    requires
        -0x4_0000_0000 <= dx <= 0x4_0000_0000,
        -0x4_0000_0000 <= dz <= 0x4_0000_0000,
        dx != 0 || dz != 0,
    ensures
        r@ == rescaled(dx as int, dz as int, m as int),
        -m <= r.x <= m,
        -m <= r.z <= m,
{
    let len2 = norm2_wide(dx, dz);
    assert(len2 > 0) by (nonlinear_arith)
        requires
            len2 == dx * dx + dz * dz,
            dx != 0 || dz != 0,
    ;
    Vec2 { x: scale_component(dx, m, len2), z: scale_component(dz, m, len2) }
}

/// The vector `(dx, dz)`, rescaled to length `m` if it is longer.
fn limit_wide(dx: i64, dz: i64, m: u16) -> (r: Vec2)
    requires
        -0x4_0000_0000 <= dx <= 0x4_0000_0000,
        -0x4_0000_0000 <= dz <= 0x4_0000_0000,
    ensures
        r@ == limited(dx as int, dz as int, m as int),
        -m <= r.x <= m,
        -m <= r.z <= m,
{
    let len2 = norm2_wide(dx, dz);
    let mm: u128 = m as u128;
    assert(mm * mm <= 0x1_0000_0000) by (nonlinear_arith)
        requires
            0 <= mm < 0x1_0000,
    ;
    proof {
        lemma_limited_bounded(dx as int, dz as int, m as int);
    }
    if len2 > mm * mm {
        assert(dx != 0 || dz != 0) by (nonlinear_arith)
            requires
                dx * dx + dz * dz > mm * mm,
                mm >= 0,
        ;
        rescale(dx, dz, m)
    } else {
        Vec2 { x: dx as i32, z: dz as i32 }
    }
}

/// Clamps the length of `v` to `len`: a longer vector is rescaled to
/// length `len`, a shorter one is returned as it is.
pub fn limit(v: Vec2, len: u16) -> (r: Vec2)
    ensures
        r@ == limited(v.x as int, v.z as int, len as int),
        norm2(r.x as int, r.z as int) <= len * len,
        norm2(v.x as int, v.z as int) <= len * len ==> r == v,
        norm2(v.x as int, v.z as int) > len * len ==> clamped_to(
            r.x as int,
            r.z as int,
            v.x as int,
            v.z as int,
            len as int,
        ),
{
    proof {
        lemma_limited_bounded(v.x as int, v.z as int, len as int);
        if norm2(v.x as int, v.z as int) > len * len {
            lemma_limited_close(v.x as int, v.z as int, len as int);
        }
    }
    limit_wide(v.x as i64, v.z as i64, len)
}

/// The steering force of an agent moving as `v` says toward `(dx, dz)`.
pub(crate) fn steer_wide(dx: i64, dz: i64, v: &Velocity) -> (force: Vec2)
    requires
        -0x1_0000_0000 <= dx <= 0x1_0000_0000,
        -0x1_0000_0000 <= dz <= 0x1_0000_0000,
    ensures
        force@ == steer_force(dx as int, dz as int, *v),
        -v.max_force <= force.x <= v.max_force,
        -v.max_force <= force.z <= v.max_force,
{
    if dx == 0 && dz == 0 {
        return Vec2 { x: 0, z: 0 };
    }
    let wanted = rescale(dx, dz, v.max_velocity);
    limit_wide(
        wanted.x as i64 - v.velocity.x as i64,
        wanted.z as i64 - v.velocity.z as i64,
        v.max_force,
    )
}

/// The arrival force of an agent moving as `v` says for a target that
/// lies `(dx, dz)` away.
pub(crate) fn arrive_wide(dx: i64, dz: i64, v: &Velocity) -> (force: Vec2)
    requires
        -0x1_0000_0000 <= dx <= 0x1_0000_0000,
        -0x1_0000_0000 <= dz <= 0x1_0000_0000,
    ensures
        force@ == arrive_force(dx as int, dz as int, *v),
        -v.max_force <= force.x <= v.max_force,
        -v.max_force <= force.z <= v.max_force,
{
    if dx == 0 && dz == 0 {
        return Vec2 { x: 0, z: 0 };
    }
    let len2 = norm2_wide(dx, dz);
    let brake: u64 = BRAKE_RADIUS as u64;
    assert(brake * brake == 2621440000) by (nonlinear_arith)
        requires
            brake == 51200,
    ;
    if len2 < (brake as u128) * (brake as u128) {
        assert(-51200 < dx < 51200 && -51200 < dz < 51200) by (nonlinear_arith)
            requires
                dx * dx + dz * dz < 2621440000,
        ;
        let speed: i128 = v.max_velocity as i128;
        assert(-51200 * 0x1_0000 <= dx * speed <= 51200 * 0x1_0000 && -51200 * 0x1_0000 <= dz
            * speed <= 51200 * 0x1_0000) by (nonlinear_arith)
            requires
                -51200 < dx < 51200,
                -51200 < dz < 51200,
                0 <= speed < 0x1_0000,
        ;
        let wx = div_toward_zero(dx as i128 * speed, brake);
        let wz = div_toward_zero(dz as i128 * speed, brake);
        limit_wide(wx as i64, wz as i64, v.max_force)
    } else {
        let wanted = rescale(dx, dz, v.max_velocity);
        limit_wide(wanted.x as i64, wanted.z as i64, v.max_force)
    }
}

} // verus!
