use vstd::prelude::*;
use vstd::arithmetic::div_mod::{lemma_fundamental_div_mod, lemma_mod_pos_bound};
use crate::geometry::{
    abs, ceil_root, ceil_scale, ceil_sqrt, dist2, floor_sqrt, is_ceil_sqrt, saturate, trunc_scale, floor_root, in_range, saturate_coord, scale_ceil, scale_trunc, sq_dist,
    Vec2, COORD_LIMIT, INNER_LIMIT, MAX_EXTENT,
};
use crate::object::Object;

verus! {

/// A particle of radius `r` at `p` lies inside the boundary circle.
pub open spec fn inside(p: Vec2, r: int, center: Vec2, radius: int) -> bool {
    radius - r >= 0 && dist2(p, center) <= (radius - r) * (radius - r)
}

/// Coordinates `pa` and `pb` after they are moved apart by `t` in all: a
/// pinned side stays, the other takes all of it; otherwise `pa` takes the
/// share `num / den`, rounded toward zero, and `pb` the rest.
pub open spec fn split_spec(pa: int, pb: int, t: int, a_pinned: bool, b_pinned: bool, num: int, den: int) -> (int, int) {
    let ca = if a_pinned {
        0
    } else if b_pinned {
        t
    } else {
        trunc_scale(t, num, den)
    };
    (saturate(pa + ca), saturate(pb - (t - ca)))
}

/// Position of `obj` after the boundary circle of `radius` about `center`.
pub open spec fn border_spec(obj: Object, center: Vec2, radius: int) -> Vec2 {
    let k = radius - obj.radius;
    let rx = obj.position.x - center.x;
    let ry = obj.position.y - center.y;
    let d2 = rx * rx + ry * ry;
    if !(k < 0 || d2 > k * k) || d2 == 0 {
        obj.position
    } else {
        let dc = ceil_sqrt(d2);
        let nx = trunc_scale(rx, abs(k), dc);
        let ny = trunc_scale(ry, abs(k), dc);
        if k < 0 {
            Vec2 { x: (center.x - nx) as i64, y: (center.y - ny) as i64 }
        } else {
            Vec2 { x: (center.x + nx) as i64, y: (center.y + ny) as i64 }
        }
    }
}

/// Positions of `a` and `b` after one pass of a link of rest length `length`.
pub open spec fn link_spec(a: Object, b: Object, length: int) -> (Vec2, Vec2) {
    let ax = a.position.x - b.position.x;
    let ay = a.position.y - b.position.y;
    let d2 = ax * ax + ay * ay;
    if d2 == 0 || (a.pinned && b.pinned) {
        (a.position, b.position)
    } else {
        let dc = ceil_sqrt(d2);
        let sx = split_spec(a.position.x as int, b.position.x as int, trunc_scale(ax, length, dc) - ax, a.pinned, b.pinned, 1, 2);
        let sy = split_spec(a.position.y as int, b.position.y as int, trunc_scale(ay, length, dc) - ay, a.pinned, b.pinned, 1, 2);
        (Vec2 { x: sx.0 as i64, y: sy.0 as i64 }, Vec2 { x: sx.1 as i64, y: sy.1 as i64 })
    }
}

/// Positions of `a` and `b` after one collision test between them.
pub open spec fn collision_spec(a: Object, b: Object) -> (Vec2, Vec2) {
    let ax = a.position.x - b.position.x;
    let ay = a.position.y - b.position.y;
    let d2 = ax * ax + ay * ay;
    let min_distance = a.radius + b.radius;
    if d2 == 0 || d2 >= min_distance * min_distance || (a.pinned && b.pinned) {
        (a.position, b.position)
    } else {
        let d = floor_sqrt(d2);
        let delta = min_distance - d;
        let sx = split_spec(a.position.x as int, b.position.x as int, ceil_scale(ax, delta, d), a.pinned, b.pinned, b.radius as int, min_distance);
        let sy = split_spec(a.position.y as int, b.position.y as int, ceil_scale(ay, delta, d), a.pinned, b.pinned, b.radius as int, min_distance);
        (Vec2 { x: sx.0 as i64, y: sy.0 as i64 }, Vec2 { x: sx.1 as i64, y: sy.1 as i64 })
    }
}

proof fn lemma_ceil_sqrt_exists(n: int)
    requires
        n >= 0,
    ensures
        is_ceil_sqrt(n, ceil_sqrt(n)),
    decreases n,
{
    if n == 0 {
        assert(is_ceil_sqrt(0, 0));
    } else {
        lemma_ceil_sqrt_exists(n - 1);
        let r = ceil_sqrt(n - 1);
        if n <= r * r {
            assert(r >= 1) by (nonlinear_arith)
                requires
                    n <= r * r,
                    n >= 1,
                    r >= 0,
            ;
            assert(is_ceil_sqrt(n, r));
        } else {
            assert(is_ceil_sqrt(n, r + 1)) by (nonlinear_arith)
                requires
                    n - 1 <= r * r,
                    n > r * r,
                    r >= 0,
            ;
        }
    }
}

proof fn lemma_trunc_scale_bound(v: int, num: int, den: int)
    requires
        num >= 0,
        den >= 1,
    ensures
        abs(trunc_scale(v, num, den)) * den <= abs(v) * num,
        v >= 0 ==> trunc_scale(v, num, den) >= 0,
        v <= 0 ==> trunc_scale(v, num, den) <= 0,
{
    let m = abs(v) * num;
    assert(m >= 0) by (nonlinear_arith)
        requires
            m == abs(v) * num,
            num >= 0,
    ;
    lemma_fundamental_div_mod(m, den);
    lemma_mod_pos_bound(m, den);
    let q = m / den;
    assert(q * den <= m && q >= 0) by (nonlinear_arith)
        requires
            m == den * q + m % den,
            0 <= m % den < den,
            m >= 0,
    ;
    if v == 0 {
        assert(q == 0) by (nonlinear_arith)
            requires
                m == abs(v) * num,
                v == 0,
                q * den <= m,
                q >= 0,
                den >= 1,
        ;
    }
}

/// The boundary leaves every particle within `radius - obj.radius` of the
/// centre.
pub proof fn lemma_border_within(obj: Object, center: Vec2, radius: int)
    requires
        obj.wf(),
        in_range(center, MAX_EXTENT as int),
        1 <= radius <= MAX_EXTENT,
    ensures
        dist2(border_spec(obj, center, radius), center) <= (radius - obj.radius) * (radius
            - obj.radius),
{
    let k = radius - obj.radius;
    let rx = obj.position.x - center.x;
    let ry = obj.position.y - center.y;
    let d2 = rx * rx + ry * ry;
    assert(k * k >= 0 && d2 >= 0) by (nonlinear_arith)
        requires
            d2 == rx * rx + ry * ry,
    ;
    if !(k < 0 || d2 > k * k) || d2 == 0 {
        if d2 == 0 {
            assert(rx == 0 && ry == 0) by (nonlinear_arith)
                requires
                    d2 == rx * rx + ry * ry,
                    d2 == 0,
            ;
        }
    } else {
        let dc = ceil_sqrt(d2);
        lemma_ceil_sqrt_exists(d2);
        assert(dc >= 1) by (nonlinear_arith)
            requires
                d2 <= dc * dc,
                d2 >= 1,
                dc >= 0,
        ;
        let ka = abs(k);
        let nx = trunc_scale(rx, ka, dc);
        let ny = trunc_scale(ry, ka, dc);
        lemma_trunc_scale_bound(rx, ka, dc);
        lemma_trunc_scale_bound(ry, ka, dc);
        assert(abs(rx) <= dc && abs(ry) <= dc) by (nonlinear_arith)
            requires
                d2 == rx * rx + ry * ry,
                d2 <= dc * dc,
                dc >= 1,
        ;
        lemma_scaled_length(rx, ry, nx, ny, ka, dc);
        assert(abs(nx) <= ka && abs(ny) <= ka) by (nonlinear_arith)
            requires
                abs(nx) * dc <= abs(rx) * ka,
                abs(ny) * dc <= abs(ry) * ka,
                abs(rx) <= dc,
                abs(ry) <= dc,
                ka >= 0,
                dc >= 1,
        ;
        assert(ka * ka == k * k) by (nonlinear_arith)
            requires
                ka == abs(k),
        ;
        let p = border_spec(obj, center, radius);
        if k < 0 {
            assert(p.x == center.x - nx && p.y == center.y - ny);
        } else {
            assert(p.x == center.x + nx && p.y == center.y + ny);
        }
        assert(dist2(p, center) == nx * nx + ny * ny) by (nonlinear_arith)
            requires
                (p.x - center.x == nx && p.y - center.y == ny) || (p.x - center.x == -nx && p.y
                    - center.y == -ny),
        ;
    }
}

proof fn lemma_scaled_length(ax: int, ay: int, nx: int, ny: int, num: int, den: int)
    requires
        den >= 1,
        num >= 0,
        abs(nx) * den <= abs(ax) * num,
        abs(ny) * den <= abs(ay) * num,
        ax * ax + ay * ay <= den * den,
    ensures
        nx * nx + ny * ny <= num * num,
{
    assert(nx * nx * (den * den) <= ax * ax * (num * num)) by (nonlinear_arith)
        requires
            abs(nx) * den <= abs(ax) * num,
            den >= 1,
            num >= 0,
    ;
    assert(ny * ny * (den * den) <= ay * ay * (num * num)) by (nonlinear_arith)
        requires
            abs(ny) * den <= abs(ay) * num,
            den >= 1,
            num >= 0,
    ;
    assert((nx * nx + ny * ny) * (den * den) <= (den * den) * (num * num)) by (nonlinear_arith)
        requires
            nx * nx * (den * den) <= ax * ax * (num * num),
            ny * ny * (den * den) <= ay * ay * (num * num),
            ax * ax + ay * ay <= den * den,
            num >= 0,
    ;
    assert(nx * nx + ny * ny <= num * num) by (nonlinear_arith)
        requires
            (nx * nx + ny * ny) * (den * den) <= (den * den) * (num * num),
            den >= 1,
    ;
}

/// Where the boundary puts a particle: onto the circle of radius
/// `radius - obj.radius` about `center`, along the ray from the centre, when it
/// lies beyond that circle; where it is otherwise.
pub fn constrain_border(obj: &Object, center: Vec2, radius: i64) -> (r: Vec2)
    requires
        obj.wf(),
        in_range(center, MAX_EXTENT as int),
        1 <= radius <= MAX_EXTENT,
    ensures
        r == border_spec(*obj, center, radius as int),
        dist2(r, center) <= (radius - obj.radius) * (radius - obj.radius),
        in_range(r, 0x8000_0000),
        inside(obj.position, obj.radius as int, center, radius as int) ==> r == obj.position,
{
    let k: i64 = radius - obj.radius;
    let rx: i64 = obj.position.x - center.x;
    let ry: i64 = obj.position.y - center.y;
    let d2: i128 = sq_dist(obj.position, center);
    assert(0 <= k * k <= 0x4000_0000 * 0x4000_0000) by (nonlinear_arith)
        requires
            -0x4000_0000 <= k <= 0x4000_0000,
    ;
    let outside: bool = k < 0 || d2 > (k as i128) * (k as i128);
    if !outside || d2 == 0 {
        assert(d2 == 0 ==> rx == 0 && ry == 0) by (nonlinear_arith)
            requires
                d2 == rx * rx + ry * ry,
        ;
        if !outside {
            assert(abs(rx as int) <= k && abs(ry as int) <= k) by (nonlinear_arith)
                requires
                    rx * rx + ry * ry <= k * k,
                    k >= 0,
            ;
        }
        return obj.position;
    }
    let dc = ceil_root(d2);
    let ka: i64 = if k < 0 { -k } else { k };
    proof {
        assert(abs(rx as int) <= dc && abs(ry as int) <= dc) by (nonlinear_arith)
            requires
                d2 == rx * rx + ry * ry,
                d2 <= dc * dc,
                dc >= 1,
        ;
        assert(abs(rx as int) * ka <= dc * 0x4000_0000 && abs(ry as int) * ka <= dc * 0x4000_0000)
            by (nonlinear_arith)
            requires
                abs(rx as int) <= dc,
                abs(ry as int) <= dc,
                0 <= ka <= 0x4000_0000,
        ;
    }
    let nx0 = scale_trunc(rx, ka, dc);
    let ny0 = scale_trunc(ry, ka, dc);
    proof {
        lemma_scaled_length(rx as int, ry as int, nx0 as int, ny0 as int, ka as int, dc as int);
        assert(abs(nx0 as int) <= ka && abs(ny0 as int) <= ka) by (nonlinear_arith)
            requires
                abs(nx0 as int) * dc <= abs(rx as int) * ka,
                abs(ny0 as int) * dc <= abs(ry as int) * ka,
                abs(rx as int) <= dc,
                abs(ry as int) <= dc,
                ka >= 0,
                dc >= 1,
        ;
    }
    let (nx, ny) = if k < 0 { (-nx0, -ny0) } else { (nx0, ny0) };
    assert(ka * ka == k * k) by (nonlinear_arith)
        requires
            ka == abs(k as int),
    ;
    assert(nx * nx + ny * ny == nx0 * nx0 + ny0 * ny0) by (nonlinear_arith)
        requires
            (nx == nx0 && ny == ny0) || (nx == -nx0 && ny == -ny0),
    ;
    Vec2 { x: center.x + nx, y: center.y + ny }
}

proof fn lemma_scaled_length_lower(ax: int, ay: int, nx: int, ny: int, num: int, den: int)
    requires
        den >= 1,
        num >= 0,
        abs(nx) * den >= abs(ax) * num,
        abs(ny) * den >= abs(ay) * num,
        ax * ax + ay * ay >= den * den,
    ensures
        nx * nx + ny * ny >= num * num,
{
    assert(nx * nx * (den * den) >= ax * ax * (num * num)) by (nonlinear_arith)
        requires
            abs(nx) * den >= abs(ax) * num,
            den >= 1,
            num >= 0,
    ;
    assert(ny * ny * (den * den) >= ay * ay * (num * num)) by (nonlinear_arith)
        requires
            abs(ny) * den >= abs(ay) * num,
            den >= 1,
            num >= 0,
    ;
    assert((nx * nx + ny * ny) * (den * den) >= (den * den) * (num * num)) by (nonlinear_arith)
        requires
            nx * nx * (den * den) >= ax * ax * (num * num),
            ny * ny * (den * den) >= ay * ay * (num * num),
            ax * ax + ay * ay >= den * den,
            num >= 0,
    ;
    assert(nx * nx + ny * ny >= num * num) by (nonlinear_arith)
        requires
            (nx * nx + ny * ny) * (den * den) >= (den * den) * (num * num),
            den >= 1,
    ;
}

/// Moves coordinates `pa` and `pb` apart by `t` in all (`pa - pb` grows by `t`):
/// a pinned side stays put and the other takes all of it; otherwise `pa`
/// takes the share `num / den` and `pb` the rest.
fn split_axis(pa: i64, pb: i64, t: i64, a_pinned: bool, b_pinned: bool, num: i64, den: i64) -> (r: (
    i64,
    i64,
))
    requires
        -COORD_LIMIT <= pa <= COORD_LIMIT,
        -COORD_LIMIT <= pb <= COORD_LIMIT,
        abs(t as int) <= 0x200_0000_0000,
        1 <= den <= 0x1_0000_0000,
        0 <= num <= den,
        !(a_pinned && b_pinned),
    ensures
        r.0 == split_spec(pa as int, pb as int, t as int, a_pinned, b_pinned, num as int, den as int).0,
        r.1 == split_spec(pa as int, pb as int, t as int, a_pinned, b_pinned, num as int, den as int).1,
        -COORD_LIMIT <= r.0 <= COORD_LIMIT,
        -COORD_LIMIT <= r.1 <= COORD_LIMIT,
        a_pinned ==> r.0 == pa,
        b_pinned ==> r.1 == pb,
        abs(pa as int) + abs(t as int) <= COORD_LIMIT && abs(pb as int) + abs(t as int)
            <= COORD_LIMIT ==> r.0 - r.1 == pa - pb + t,
{
    let (ca, cb): (i64, i64) = if a_pinned {
        (0, t)
    } else if b_pinned {
        (t, 0)
    } else {
        assert(abs(t as int) * num <= den * 0x200_0000_0000) by (nonlinear_arith)
            requires
                abs(t as int) <= 0x200_0000_0000,
                0 <= num <= den,
        ;
        let h = scale_trunc(t, num, den);
        assert(abs(h as int) <= abs(t as int)) by (nonlinear_arith)
            requires
                abs(h as int) * den <= abs(t as int) * num,
                0 <= num <= den,
                den >= 1,
        ;
        (h, t - h)
    };
    (
        saturate_coord(pa as i128 + ca as i128),
        saturate_coord(pb as i128 - cb as i128),
    )
}

/// Where one pass of a link of rest length `length` puts its two particles:
/// the gap between them is rescaled to `length`, shared evenly, or taken all
/// by the free one when the other is pinned.
pub fn link_correction(a: &Object, b: &Object, length: i64) -> (r: (Vec2, Vec2))
    requires
        a.wf(),
        b.wf(),
        1 <= length <= MAX_EXTENT,
    ensures
        r == link_spec(*a, *b, length as int),
        in_range(r.0, COORD_LIMIT as int),
        in_range(r.1, COORD_LIMIT as int),
        a.pinned ==> r.0 == a.position,
        b.pinned ==> r.1 == b.position,
        dist2(a.position, b.position) == 0 ==> r == (a.position, b.position),
        !(a.pinned && b.pinned) && dist2(a.position, b.position) > 0 && in_range(
            a.position,
            INNER_LIMIT as int,
        ) && in_range(b.position, INNER_LIMIT as int) ==> {
            &&& dist2(r.0, r.1) <= length * length
            &&& (r.0.x - r.1.x) * (a.position.x - b.position.x) >= 0
            &&& (r.0.y - r.1.y) * (a.position.y - b.position.y) >= 0
        },
{
    let d2 = sq_dist(a.position, b.position);
    if d2 == 0 || (a.pinned && b.pinned) {
        return (a.position, b.position);
    }
    let ax: i64 = a.position.x - b.position.x;
    let ay: i64 = a.position.y - b.position.y;
    let dc = ceil_root(d2);
    proof {
        assert(abs(ax as int) <= dc && abs(ay as int) <= dc) by (nonlinear_arith)
            requires
                d2 == ax * ax + ay * ay,
                d2 <= dc * dc,
                dc >= 1,
        ;
        assert(abs(ax as int) * length <= dc * 0x4000_0000 && abs(ay as int) * length <= dc
            * 0x4000_0000) by (nonlinear_arith)
            requires
                abs(ax as int) <= dc,
                abs(ay as int) <= dc,
                0 <= length <= 0x4000_0000,
        ;
    }
    let nx = scale_trunc(ax, length, dc);
    let ny = scale_trunc(ay, length, dc);
    proof {
        lemma_scaled_length(ax as int, ay as int, nx as int, ny as int, length as int, dc as int);
        assert(abs(nx as int) <= length && abs(ny as int) <= length) by (nonlinear_arith)
            requires
                abs(nx as int) * dc <= abs(ax as int) * length,
                abs(ny as int) * dc <= abs(ay as int) * length,
                abs(ax as int) <= dc,
                abs(ay as int) <= dc,
                length >= 0,
                dc >= 1,
        ;
    }
    let (pax, pbx) = split_axis(a.position.x, b.position.x, nx - ax, a.pinned, b.pinned, 1, 2);
    let (pay, pby) = split_axis(a.position.y, b.position.y, ny - ay, a.pinned, b.pinned, 1, 2);
    let ra = Vec2 { x: pax, y: pay };
    let rb = Vec2 { x: pbx, y: pby };
    proof {
        if in_range(a.position, INNER_LIMIT as int) && in_range(b.position, INNER_LIMIT as int) {
            assert(ra.x - rb.x == nx && ra.y - rb.y == ny);
            assert(nx * ax >= 0 && ny * ay >= 0) by (nonlinear_arith)
                requires
                    ax >= 0 ==> nx >= 0,
                    ax <= 0 ==> nx <= 0,
                    ay >= 0 ==> ny >= 0,
                    ay <= 0 ==> ny <= 0,
            ;
        }
    }
    (ra, rb)
}

/// Where one collision test puts two particles: when their discs overlap they
/// are pushed apart along the line between their centres by the overlap,
/// rounded up; each free particle takes the share of the other's radius, or
/// all of it when the other is pinned.
pub fn collision_correction(a: &Object, b: &Object) -> (r: (Vec2, Vec2))
    requires
        a.wf(),
        b.wf(),
    ensures
        r == collision_spec(*a, *b),
        in_range(r.0, COORD_LIMIT as int),
        in_range(r.1, COORD_LIMIT as int),
        a.pinned ==> r.0 == a.position,
        b.pinned ==> r.1 == b.position,
        dist2(a.position, b.position) == 0 || dist2(a.position, b.position) >= (a.radius
            + b.radius) * (a.radius + b.radius) ==> r == (a.position, b.position),
        !(a.pinned && b.pinned) && dist2(a.position, b.position) > 0 && in_range(
            a.position,
            INNER_LIMIT as int,
        ) && in_range(b.position, INNER_LIMIT as int) ==> dist2(r.0, r.1) >= (a.radius
            + b.radius) * (a.radius + b.radius),
{
    let d2 = sq_dist(a.position, b.position);
    let min_distance: i64 = a.radius + b.radius;
    assert(min_distance * min_distance <= 0x8000_0000 * 0x8000_0000) by (nonlinear_arith)
        requires
            0 <= min_distance <= 0x8000_0000,
    ;
    if d2 == 0 || d2 >= (min_distance as i128) * (min_distance as i128) || (a.pinned
        && b.pinned) {
        return (a.position, b.position);
    }
    let ax: i64 = a.position.x - b.position.x;
    let ay: i64 = a.position.y - b.position.y;
    let d = floor_root(d2);
    proof {
        assert(d >= 1 && d < min_distance) by (nonlinear_arith)
            requires
                d * d <= d2 < (d + 1) * (d + 1),
                d2 >= 1,
                d2 < min_distance * min_distance,
                d >= 0,
                min_distance >= 1,
        ;
        assert(abs(ax as int) <= d && abs(ay as int) <= d) by (nonlinear_arith)
            requires
                d2 == ax * ax + ay * ay,
                d2 < (d + 1) * (d + 1),
                d >= 1,
        ;
    }
    let delta: i64 = min_distance - d;
    proof {
        assert(abs(ax as int) * delta <= d * 0x8000_0000 && abs(ay as int) * delta <= d
            * 0x8000_0000) by (nonlinear_arith)
            requires
                abs(ax as int) <= d,
                abs(ay as int) <= d,
                0 <= delta <= 0x8000_0000,
        ;
    }
    let tx = scale_ceil(ax, delta, d);
    let ty = scale_ceil(ay, delta, d);
    proof {
        assert(abs(tx as int) <= delta && abs(ty as int) <= delta) by (nonlinear_arith)
            requires
                abs(tx as int) == 0 || (abs(tx as int) - 1) * d < abs(ax as int) * delta,
                abs(ty as int) == 0 || (abs(ty as int) - 1) * d < abs(ay as int) * delta,
                abs(ax as int) <= d,
                abs(ay as int) <= d,
                delta >= 1,
                d >= 1,
        ;
    }
    let (pax, pbx) = split_axis(
        a.position.x,
        b.position.x,
        tx,
        a.pinned,
        b.pinned,
        b.radius,
        min_distance,
    );
    let (pay, pby) = split_axis(
        a.position.y,
        b.position.y,
        ty,
        a.pinned,
        b.pinned,
        b.radius,
        min_distance,
    );
    let ra = Vec2 { x: pax, y: pay };
    let rb = Vec2 { x: pbx, y: pby };
    proof {
        if in_range(a.position, INNER_LIMIT as int) && in_range(b.position, INNER_LIMIT as int) {
            let nx = ax + tx;
            let ny = ay + ty;
            assert(ra.x - rb.x == nx && ra.y - rb.y == ny);
            assert(abs(nx) == abs(ax as int) + abs(tx as int));
            assert(abs(ny) == abs(ay as int) + abs(ty as int));
            assert(abs(nx) * d >= abs(ax as int) * min_distance) by (nonlinear_arith)
                requires
                    abs(nx) == abs(ax as int) + abs(tx as int),
                    abs(ax as int) * delta <= abs(tx as int) * d,
                    min_distance == d + delta,
            ;
            assert(abs(ny) * d >= abs(ay as int) * min_distance) by (nonlinear_arith)
                requires
                    abs(ny) == abs(ay as int) + abs(ty as int),
                    abs(ay as int) * delta <= abs(ty as int) * d,
                    min_distance == d + delta,
            ;
            lemma_scaled_length_lower(ax as int, ay as int, nx, ny, min_distance as int, d as int);
        }
    }
    (ra, rb)
}

} // verus!
