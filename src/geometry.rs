use vstd::prelude::*;
use vstd::arithmetic::div_mod::{lemma_fundamental_div_mod, lemma_mod_pos_bound};

verus! {

/// Largest magnitude a stored coordinate may take; arithmetic saturates here.
pub const COORD_LIMIT: i64 = 1_099_511_627_776;

/// Largest radius, rest length or centre coordinate the solver accepts.
pub const MAX_EXTENT: i64 = 1_073_741_824;

/// Coordinates that stay this close to the origin never saturate in one correction.
pub const INNER_LIMIT: i64 = 274_877_906_944;

/// A point or displacement on the plane.
#[derive(Clone, Copy, Debug, PartialEq, Eq, Structural)]
pub struct Vec2 {
    pub x: i64,
    pub y: i64,
}

/// Squared Euclidean distance between two points.
pub open spec fn dist2(a: Vec2, b: Vec2) -> int {
    (a.x - b.x) * (a.x - b.x) + (a.y - b.y) * (a.y - b.y)
}

pub open spec fn in_range(v: Vec2, lim: int) -> bool {
    -lim <= v.x <= lim && -lim <= v.y <= lim
}

pub open spec fn saturate(v: int) -> int {
    if v > COORD_LIMIT {
        COORD_LIMIT as int
    } else if v < -COORD_LIMIT {
        -COORD_LIMIT
    } else {
        v
    }
}

pub open spec fn abs(v: int) -> int {
    if v < 0 {
        -v
    } else {
        v
    }
}

/// `v * num / den` rounded toward zero.
pub open spec fn trunc_scale(v: int, num: int, den: int) -> int {
    if v < 0 {
        -((-v) * num / den)
    } else {
        v * num / den
    }
}

/// `v * num / den` rounded away from zero.
pub open spec fn ceil_scale(v: int, num: int, den: int) -> int {
    let q = abs(v) * num / den;
    let m = if (abs(v) * num) % den == 0 {
        q
    } else {
        q + 1
    };
    if v < 0 {
        -m
    } else {
        m
    }
}

/// Whole part of the square root of `n`.
pub open spec fn floor_sqrt(n: int) -> int {
    choose|r: int| #[trigger] is_floor_sqrt(n, r)
}

pub open spec fn is_floor_sqrt(n: int, r: int) -> bool {
    r >= 0 && r * r <= n < (r + 1) * (r + 1)
}

pub open spec fn is_ceil_sqrt(n: int, r: int) -> bool {
    r >= 0 && n <= r * r && (r == 0 || (r - 1) * (r - 1) < n)
}

/// Smallest whole number whose square reaches `n`.
pub open spec fn ceil_sqrt(n: int) -> int {
    choose|r: int| #[trigger] is_ceil_sqrt(n, r)
}

proof fn lemma_floor_sqrt_unique(n: int, r: int)
    requires
        r >= 0,
        r * r <= n < (r + 1) * (r + 1),
    ensures
        floor_sqrt(n) == r,
{
    assert(is_floor_sqrt(n, r));
    let f = floor_sqrt(n);
    assert(f >= 0 && f * f <= n < (f + 1) * (f + 1));
    if f < r {
        assert((f + 1) * (f + 1) <= r * r) by (nonlinear_arith)
            requires
                0 <= f < r,
        ;
    } else if f > r {
        assert((r + 1) * (r + 1) <= f * f) by (nonlinear_arith)
            requires
                0 <= r < f,
        ;
    }
}

proof fn lemma_ceil_sqrt_unique(n: int, r: int)
    requires
        r >= 0,
        n <= r * r,
        r == 0 || (r - 1) * (r - 1) < n,
    ensures
        ceil_sqrt(n) == r,
{
    assert(is_ceil_sqrt(n, r));
    let c = ceil_sqrt(n);
    assert(c >= 0 && n <= c * c && (c == 0 || (c - 1) * (c - 1) < n));
    if c < r {
        assert(c * c <= (r - 1) * (r - 1)) by (nonlinear_arith)
            requires
                0 <= c < r,
        ;
    } else if c > r {
        assert(r * r <= (c - 1) * (c - 1)) by (nonlinear_arith)
            requires
                0 <= r < c,
        ;
    }
}

impl Vec2 {
    pub fn new(x: i64, y: i64) -> (r: Vec2)
        ensures
            r.x == x,
            r.y == y,
    {
        Vec2 { x, y }
    }
}

/// Clamps a wide intermediate value into the stored coordinate range.
pub fn saturate_coord(v: i128) -> (r: i64)
    ensures
        r == saturate(v as int),
{
    if v > COORD_LIMIT as i128 {
        COORD_LIMIT
    } else if v < -(COORD_LIMIT as i128) {
        -COORD_LIMIT
    } else {
        v as i64
    }
}

/// Largest `r` with `r * r <= n`.
pub fn isqrt_floor(n: u128) -> (r: u128)
    requires
        n < 0x4000_0000_0000_0000_0000_0000_0000_0000,
    ensures
        r * r <= n < (r + 1) * (r + 1),
        r < 0x8000_0000_0000_0000,
{
    let mut lo: u128 = 0;
    let mut hi: u128 = 0x8000_0000_0000_0000;
    assert(hi * hi > n) by (nonlinear_arith)
        requires
            hi == 0x8000_0000_0000_0000u128,
            n < 0x4000_0000_0000_0000_0000_0000_0000_0000,
    ;
    while lo + 1 < hi
        invariant
            lo < hi <= 0x8000_0000_0000_0000,
            lo * lo <= n < hi * hi,
        decreases hi - lo,
    {
        let mid: u128 = lo + (hi - lo) / 2;
        assert(mid * mid < 0x4000_0000_0000_0000_0000_0000_0000_0000) by (nonlinear_arith)
            requires
                mid < 0x8000_0000_0000_0000u128,
        ;
        if mid * mid <= n {
            lo = mid;
        } else {
            hi = mid;
        }
    }
    lo
}

/// Smallest `r` with `n <= r * r`.
pub fn isqrt_ceil(n: u128) -> (r: u128)
    requires
        n < 0x4000_0000_0000_0000_0000_0000_0000_0000,
    ensures
        n <= r * r,
        r == 0 || (r - 1) * (r - 1) < n,
        n > 0 ==> r >= 1,
        r <= 0x8000_0000_0000_0000,
{
    let f = isqrt_floor(n);
    if f * f == n {
        assert(f == 0 || (f - 1) * (f - 1) < f * f) by (nonlinear_arith);
        f
    } else {
        f + 1
    }
}

/// Rounds `v * num / den` toward zero; the sign of `v` is kept.
pub fn scale_trunc(v: i64, num: i64, den: i64) -> (r: i64)
    requires
        num >= 0,
        den >= 1,
        abs(v as int) * num < den * 0x4000_0000_0000_0000,
        abs(v as int) <= 0x400_0000_0000,
        num <= 0x4000_0000_0000,
    ensures
        r == trunc_scale(v as int, num as int, den as int),
        abs(r as int) * den <= abs(v as int) * num < (abs(r as int) + 1) * den,
        v >= 0 ==> r >= 0,
        v <= 0 ==> r <= 0,
{
    let a: i128 = if v < 0 { -(v as i128) } else { v as i128 };
    assert(a * num <= 0x400_0000_0000 * 0x4000_0000_0000) by (nonlinear_arith)
        requires
            0 <= a <= 0x400_0000_0000,
            0 <= num <= 0x4000_0000_0000,
    ;
    let m: i128 = a * (num as i128);
    let q: i128 = m / (den as i128);
    proof {
        lemma_fundamental_div_mod(m as int, den as int);
        lemma_mod_pos_bound(m as int, den as int);
        assert(q * den <= m < (q + 1) * den) by (nonlinear_arith)
            requires
                m as int == den as int * (q as int) + (m as int) % (den as int),
                0 <= (m as int) % (den as int) < den,
        ;
        assert(q < 0x4000_0000_0000_0000) by (nonlinear_arith)
            requires
                q * den <= m < den * 0x4000_0000_0000_0000,
                den >= 1,
        ;
        assert(q >= 0) by (nonlinear_arith)
            requires
                m >= 0,
                m < (q + 1) * den,
                den >= 1,
        ;
        assert(a == 0 ==> q == 0) by (nonlinear_arith)
            requires
                m == a * num,
                q * den <= m,
                q >= 0,
                den >= 1,
        ;
    }
    if v < 0 {
        -(q as i64)
    } else {
        q as i64
    }
}

/// Rounds `v * num / den` away from zero; the sign of `v` is kept.
pub fn scale_ceil(v: i64, num: i64, den: i64) -> (r: i64)
    requires
        num >= 0,
        den >= 1,
        abs(v as int) * num < den * 0x4000_0000_0000_0000,
        abs(v as int) <= 0x400_0000_0000,
        num <= 0x4000_0000_0000,
    ensures
        r == ceil_scale(v as int, num as int, den as int),
        abs(v as int) * num <= abs(r as int) * den,
        abs(r as int) == 0 || (abs(r as int) - 1) * den < abs(v as int) * num,
        v >= 0 ==> r >= 0,
        v <= 0 ==> r <= 0,
{
    let t = scale_trunc(v, num, den);
    let a: i128 = if v < 0 { -(v as i128) } else { v as i128 };
    let m: i128 = a * (num as i128);
    let at: i128 = if t < 0 { -(t as i128) } else { t as i128 };
    assert(at * den <= m) by (nonlinear_arith)
        requires
            at == abs(t as int),
            m == abs(v as int) * num,
            abs(t as int) * den <= abs(v as int) * num,
    ;
    assert(at < 0x4000_0000_0000_0000) by (nonlinear_arith)
        requires
            at * den <= m,
            m < den * 0x4000_0000_0000_0000,
            den >= 1,
    ;
    proof {
        assert(at as int == (m as int) / (den as int));
        lemma_fundamental_div_mod(m as int, den as int);
        assert((at * den == m) == ((m as int) % (den as int) == 0)) by (nonlinear_arith)
            requires
                m as int == den as int * (at as int) + (m as int) % (den as int),
        ;
    }
    assert(v == 0 ==> at * den == m) by (nonlinear_arith)
        requires
            v == 0 ==> a == 0 && at == 0,
            m == a * num,
    ;
    if at * (den as i128) == m {
        assert(at == 0 || (at - 1) * den < m) by (nonlinear_arith)
            requires
                at * den == m,
                den >= 1,
        ;
        t
    } else if v < 0 {
        assert(m < (at + 1) * den);
        assert((at + 1 - 1) * den < m) by (nonlinear_arith)
            requires
                at * den <= m,
                at * den != m,
        ;
        t - 1
    } else {
        assert(m < (at + 1) * den);
        assert((at + 1 - 1) * den < m) by (nonlinear_arith)
            requires
                at * den <= m,
                at * den != m,
        ;
        t + 1
    }
}

/// Squared distance between two points of moderate size.
pub fn sq_dist(a: Vec2, b: Vec2) -> (r: i128)
    requires
        in_range(a, 0x200_0000_0000),
        in_range(b, 0x200_0000_0000),
    ensures
        r == dist2(a, b),
        0 <= r <= 0x20_0000_0000_0000_0000_0000,
{
    let dx: i128 = a.x as i128 - b.x as i128;
    let dy: i128 = a.y as i128 - b.y as i128;
    assert(0 <= dx * dx <= 0x10_0000_0000_0000_0000_0000 && 0 <= dy * dy
        <= 0x10_0000_0000_0000_0000_0000) by (nonlinear_arith)
        requires
            -0x400_0000_0000 <= dx <= 0x400_0000_0000,
            -0x400_0000_0000 <= dy <= 0x400_0000_0000,
    ;
    dx * dx + dy * dy
}

/// Square root of a squared distance, rounded down.
pub fn floor_root(n: i128) -> (r: i64)
    requires
        0 <= n <= 0x20_0000_0000_0000_0000_0000,
    ensures
        r == floor_sqrt(n as int),
        r * r <= n < (r + 1) * (r + 1),
        0 <= r <= 0x800_0000_0001,
{
    let f = isqrt_floor(n as u128);
    proof {
        lemma_floor_sqrt_unique(n as int, f as int);
    }
    if f > 0x800_0000_0000 {
        assert(f * f > 0x800_0000_0000u128 * 0x800_0000_0000u128) by (nonlinear_arith)
            requires
                f > 0x800_0000_0000u128,
        ;
    }
    f as i64
}

/// Square root of a squared distance, rounded up.
pub fn ceil_root(n: i128) -> (r: i64)
    requires
        0 <= n <= 0x20_0000_0000_0000_0000_0000,
    ensures
        n <= r * r,
        r == 0 || (r - 1) * (r - 1) < n,
        n > 0 ==> r >= 1,
        r == ceil_sqrt(n as int),
        0 <= r <= 0x800_0000_0001,
{
    let c = isqrt_ceil(n as u128);
    proof {
        lemma_ceil_sqrt_unique(n as int, c as int);
    }
    if c > 0x800_0000_0001 {
        assert((c - 1) * (c - 1) > 0x800_0000_0000u128 * 0x800_0000_0000u128) by (nonlinear_arith)
            requires
                c > 0x800_0000_0001u128,
        ;
    }
    c as i64
}

} // verus!
