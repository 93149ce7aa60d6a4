use vstd::prelude::*;

verus! {

/// Largest coordinate magnitude of a position or of a configured length.
pub const COORD_LIMIT: i64 = 0x8000_0000;

/// Largest coordinate magnitude of a vector that can be rescaled.
pub const VECTOR_LIMIT: i64 = 0x4000_0000_0000;

/// A point, or a displacement, on the plane in fixed-point units.
#[derive(Clone, Copy, Debug, PartialEq, Eq, Structural)]
pub struct Point {
    pub x: i64,
    pub y: i64,
}

/// Squared Euclidean length of `(x, y)`.
pub open spec fn norm2(x: int, y: int) -> int {
    x * x + y * y
}

/// Squared Euclidean distance between two points.
pub open spec fn dist2(p: Point, q: Point) -> int {
    norm2(q.x - p.x, q.y - p.y)
}

/// Both coordinates lie within `limit` of the origin.
pub open spec fn within(p: Point, limit: int) -> bool {
    -limit <= p.x <= limit && -limit <= p.y <= limit
}

/// `r` is the least non-negative integer whose square reaches `n`.
pub open spec fn is_ceil_sqrt(r: int, n: int) -> bool {
    r >= 0 && r * r >= n && (r == 0 || (r - 1) * (r - 1) < n)
}

/// The ceiling of the square root of `n`.
pub open spec fn ceil_sqrt_of(n: int) -> int {
    choose|r: int| is_ceil_sqrt(r, n)
}

/// Integer division rounded toward zero, as the machine divides.
pub open spec fn tdiv(a: int, b: int) -> int {
    if a >= 0 {
        a / b
    } else {
        -((-a) / b)
    }
}

/// `(x, y)` rescaled to length `len`, each coordinate rounded toward zero;
/// the zero vector stays zero.
pub open spec fn spec_scale(x: int, y: int, len: int) -> Point {
    let n = ceil_sqrt_of(norm2(x, y));
    if n == 0 {
        Point { x: 0, y: 0 }
    } else {
        Point { x: tdiv(x * len, n) as i64, y: tdiv(y * len, n) as i64 }
    }
}

/// `p` when it lies within distance `m` of the origin, else `p` rescaled to length `m`.
pub open spec fn spec_clamp(p: Point, m: int) -> Point {
    if norm2(p.x as int, p.y as int) <= m * m {
        p
    } else {
        spec_scale(p.x as int, p.y as int, m)
    }
}

/// The point `alpha` thousandths of the way from `from` to `to`, the step rounded toward zero.
pub open spec fn spec_blend(from: Point, to: Point, alpha: int) -> Point {
    Point {
        x: (from.x + tdiv((to.x - from.x) * alpha, 1000)) as i64,
        y: (from.y + tdiv((to.y - from.y) * alpha, 1000)) as i64,
    }
}

pub proof fn lemma_norm2_parts(x: int, y: int)
    ensures
        0 <= x * x <= norm2(x, y),
        0 <= y * y <= norm2(x, y),
{
    assert(x * x >= 0 && y * y >= 0) by (nonlinear_arith);
}

proof fn lemma_square_monotone(u: int, v: int)
    requires
        0 <= u <= v,
    ensures
        u * u <= v * v,
{
    assert(u * u <= v * v) by (nonlinear_arith)
        requires
            0 <= u <= v,
    ;
}

proof fn lemma_ceil_sqrt_unique(r1: int, r2: int, n: int)
    requires
        is_ceil_sqrt(r1, n),
        is_ceil_sqrt(r2, n),
    ensures
        r1 == r2,
{
    if r1 < r2 {
        lemma_square_monotone(r1, r2 - 1);
    } else if r2 < r1 {
        lemma_square_monotone(r2, r1 - 1);
    }
}

/// Every non-negative integer has a ceiling square root.
pub proof fn lemma_ceil_sqrt_exists(n: int)
    requires
        n >= 0,
    ensures
        is_ceil_sqrt(ceil_sqrt_of(n), n),
    decreases n,
{
    let w = ceil_sqrt_witness(n);
    assert(is_ceil_sqrt(w, n));
}

proof fn ceil_sqrt_witness(n: int) -> (r: int)
    requires
        n >= 0,
    ensures
        is_ceil_sqrt(r, n),
    decreases n,
{
    if n == 0 {
        0
    } else {
        let r = ceil_sqrt_witness(n - 1);
        if r * r >= n {
            r
        } else {
            assert((r + 1) * (r + 1) == r * r + 2 * r + 1) by (nonlinear_arith);
            r + 1
        }
    }
}

proof fn lemma_ceil_sqrt_is(r: int, n: int)
    requires
        is_ceil_sqrt(r, n),
    ensures
        ceil_sqrt_of(n) == r,
{
    let c = ceil_sqrt_of(n);
    assert(is_ceil_sqrt(c, n));
    lemma_ceil_sqrt_unique(c, r, n);
}

/// The machine quotient, rounded toward zero, is never larger in magnitude than the exact one.
pub proof fn lemma_tdiv_bound(a: int, b: int)
    requires
        b > 0,
    ensures
        a >= 0 ==> 0 <= tdiv(a, b) && tdiv(a, b) * b <= a,
        a < 0 ==> tdiv(a, b) <= 0 && -tdiv(a, b) * b <= -a,
{
    if a >= 0 {
        assert(0 <= a / b && (a / b) * b <= a) by (nonlinear_arith)
            requires
                a >= 0,
                b > 0,
        ;
    } else {
        let c = -a;
        assert(0 <= c / b && (c / b) * b <= c) by (nonlinear_arith)
            requires
                c >= 0,
                b > 0,
        ;
    }
}

/// One coordinate of a rescaled vector: `|tdiv(c * len, n)| * n <= |c| * len`.
pub proof fn lemma_scaled_coord(c: int, len: int, n: int)
    requires
        n > 0,
        len >= 0,
    ensures
        tdiv(c * len, n) * tdiv(c * len, n) * (n * n) <= c * c * (len * len),
        c >= 0 ==> 0 <= tdiv(c * len, n) <= c * len,
        c < 0 ==> c * len <= tdiv(c * len, n) <= 0,
{
    let q = tdiv(c * len, n);
    lemma_tdiv_bound(c * len, n);
    let aq = if q >= 0 { q } else { -q };
    let ac = if c >= 0 { c } else { -c };
    assert(ac * len >= 0) by (nonlinear_arith)
        requires
            ac >= 0,
            len >= 0,
    ;
    if c >= 0 {
        assert(c * len >= 0) by (nonlinear_arith)
            requires
                c >= 0,
                len >= 0,
        ;
    } else {
        assert(c * len <= 0) by (nonlinear_arith)
            requires
                c < 0,
                len >= 0,
        ;
        assert(-(c * len) == ac * len) by (nonlinear_arith)
            requires
                ac == -c,
        ;
    }
    assert(aq * n <= ac * len);
    assert(aq * n >= 0) by (nonlinear_arith)
        requires
            aq >= 0,
            n > 0,
    ;
    lemma_square_monotone(aq * n, ac * len);
    assert(q * q * (n * n) == (aq * n) * (aq * n)) by (nonlinear_arith)
        requires
            aq == q || aq == -q,
    ;
    assert(c * c * (len * len) == (ac * len) * (ac * len)) by (nonlinear_arith)
        requires
            ac == c || ac == -c,
    ;
    assert(c >= 0 ==> q <= c * len) by (nonlinear_arith)
        requires
            c >= 0 ==> 0 <= q && q * n <= c * len,
            n > 0,
    ;
    assert(c < 0 ==> c * len <= q) by (nonlinear_arith)
        requires
            c < 0 ==> q <= 0 && -q * n <= -(c * len),
            n > 0,
    ;
}

/// A vector rescaled to length `len` is no longer than `len`.
proof fn lemma_scale_short(x: int, y: int, len: int)
    requires
        0 <= len <= VECTOR_LIMIT,
    ensures
        norm2(spec_scale(x, y, len).x as int, spec_scale(x, y, len).y as int) <= len * len,
{
    let n = ceil_sqrt_of(norm2(x, y));
    if n != 0 {
        lemma_scale_coords(x, y, len);
        lemma_norm2_parts(x, y);
        lemma_ceil_sqrt_exists(norm2(x, y));
        let qx = tdiv(x * len, n);
        let qy = tdiv(y * len, n);
        lemma_scaled_coord(x, len, n);
        lemma_scaled_coord(y, len, n);
        assert((qx * qx + qy * qy) * (n * n) <= (x * x + y * y) * (len * len)) by (nonlinear_arith)
            requires
                qx * qx * (n * n) <= x * x * (len * len),
                qy * qy * (n * n) <= y * y * (len * len),
        ;
        assert((x * x + y * y) * (len * len) <= (n * n) * (len * len)) by (nonlinear_arith)
            requires
                x * x + y * y <= n * n,
        ;
        assert(qx * qx + qy * qy <= len * len) by (nonlinear_arith)
            requires
                (qx * qx + qy * qy) * (n * n) <= (n * n) * (len * len),
                n * n > 0,
        ;
        assert(spec_scale(x, y, len).x == qx);
        assert(spec_scale(x, y, len).y == qy);
    }
}

/// The coordinates of a rescaled vector fit their machine type.
pub proof fn lemma_scale_coords(x: int, y: int, len: int)
    requires
        len >= 0,
    ensures
        ceil_sqrt_of(norm2(x, y)) != 0 ==> {
            let n = ceil_sqrt_of(norm2(x, y));
            let qx = tdiv(x * len, n);
            let qy = tdiv(y * len, n);
            -len <= qx <= len && -len <= qy <= len
        },
{
    let n = ceil_sqrt_of(norm2(x, y));
    if n != 0 {
        lemma_norm2_parts(x, y);
        lemma_ceil_sqrt_exists(norm2(x, y));
        let qx = tdiv(x * len, n);
        let qy = tdiv(y * len, n);
        lemma_scaled_coord(x, len, n);
        lemma_scaled_coord(y, len, n);
        assert(qx * qx * (n * n) <= (n * n) * (len * len)) by (nonlinear_arith)
            requires
                qx * qx * (n * n) <= x * x * (len * len),
                x * x <= n * n,
                len * len >= 0,
        ;
        assert(qy * qy * (n * n) <= (n * n) * (len * len)) by (nonlinear_arith)
            requires
                qy * qy * (n * n) <= y * y * (len * len),
                y * y <= n * n,
                len * len >= 0,
        ;
        assert(-len <= qx <= len) by (nonlinear_arith)
            requires
                qx * qx * (n * n) <= (n * n) * (len * len),
                n * n > 0,
                len >= 0,
        ;
        assert(-len <= qy <= len) by (nonlinear_arith)
            requires
                qy * qy * (n * n) <= (n * n) * (len * len),
                n * n > 0,
                len >= 0,
        ;
    }
}

/// A blended step lies between zero and the whole step.
proof fn lemma_blend_step(d: int, alpha: int)
    requires
        0 <= alpha <= 1000,
    ensures
        d >= 0 ==> 0 <= tdiv(d * alpha, 1000) <= d,
        d < 0 ==> d <= tdiv(d * alpha, 1000) <= 0,
{
    lemma_tdiv_bound(d * alpha, 1000);
    let q = tdiv(d * alpha, 1000);
    if d >= 0 {
        assert(d * alpha >= 0 && d * alpha <= d * 1000) by (nonlinear_arith)
            requires
                d >= 0,
                0 <= alpha <= 1000,
        ;
        assert(q <= d) by (nonlinear_arith)
            requires
                q * 1000 <= d * 1000,
        ;
    } else {
        assert(d * alpha <= 0 && d * alpha >= d * 1000) by (nonlinear_arith)
            requires
                d < 0,
                0 <= alpha <= 1000,
        ;
        if d * alpha < 0 {
            assert(d <= q) by (nonlinear_arith)
                requires
                    -q * 1000 <= -(d * alpha),
                    d * alpha >= d * 1000,
            ;
        } else {
            assert(q == 0);
        }
    }
}

/// The least `r` with `r * r >= n`.
pub fn ceil_sqrt(n: u128) -> (r: u64)
    requires
        n <= 0x4000_0000_0000_0000_0000_0000,
    ensures
        is_ceil_sqrt(r as int, n as int),
        r as int == ceil_sqrt_of(n as int),
        r <= 0x8000_0000_0000,
{
    let mut lo: u128 = 0;
    let mut hi: u128 = 0x8000_0000_0000;
    assert(hi * hi == 0x4000_0000_0000_0000_0000_0000) by (nonlinear_arith)
        requires
            hi == 0x8000_0000_0000,
    ;
    while lo < hi
        invariant
            lo <= hi <= 0x8000_0000_0000,
            hi * hi >= n,
            lo == 0 || (lo - 1) * (lo - 1) < n,
        decreases hi - lo,
    {
        let mid = lo + (hi - lo) / 2;
        assert(mid * mid <= 0x4000_0000_0000_0000_0000_0000) by (nonlinear_arith)
            requires
                mid <= 0x8000_0000_0000,
        ;
        if mid * mid >= n {
            hi = mid;
        } else {
            lo = mid + 1;
        }
    }
    proof {
        lemma_ceil_sqrt_is(lo as int, n as int);
    }
    lo as u64
}

/// `a / b` rounded toward zero.
pub fn div_toward_zero(a: i128, b: i128) -> (r: i128)
    requires
        b > 0,
        a > i128::MIN,
    ensures
        r == tdiv(a as int, b as int),
{
    if a >= 0 {
        a / b
    } else {
        let q = (-a) / b;
        proof {
            lemma_tdiv_bound(a as int, b as int);
        }
        -q
    }
}

/// `(x, y)` rescaled to length `len`; the zero vector stays zero.
pub fn scale_to(x: i64, y: i64, len: i64) -> (r: Point)
    requires
        -VECTOR_LIMIT <= x <= VECTOR_LIMIT,
        -VECTOR_LIMIT <= y <= VECTOR_LIMIT,
        0 <= len <= VECTOR_LIMIT,
    ensures
        r == spec_scale(x as int, y as int, len as int),
        norm2(r.x as int, r.y as int) <= len * len,
        within(r, len as int),
{
    let xw = x as i128;
    let yw = y as i128;
    assert(xw * xw <= 0x1000_0000_0000_0000_0000_0000 && yw * yw <= 0x1000_0000_0000_0000_0000_0000)
        by (nonlinear_arith)
        requires
            -VECTOR_LIMIT <= xw <= VECTOR_LIMIT,
            -VECTOR_LIMIT <= yw <= VECTOR_LIMIT,
    ;
    proof {
        lemma_norm2_parts(x as int, y as int);
    }
    let n2 = (xw * xw + yw * yw) as u128;
    let n = ceil_sqrt(n2);
    proof {
        lemma_scale_short(x as int, y as int, len as int);
        lemma_scale_coords(x as int, y as int, len as int);
    }
    if n == 0 {
        Point { x: 0, y: 0 }
    } else {
        let lw = len as i128;
        assert(-0x1000_0000_0000_0000_0000_0000 <= xw * lw <= 0x1000_0000_0000_0000_0000_0000
            && -0x1000_0000_0000_0000_0000_0000 <= yw * lw <= 0x1000_0000_0000_0000_0000_0000)
            by (nonlinear_arith)
            requires
                -VECTOR_LIMIT <= xw <= VECTOR_LIMIT,
                -VECTOR_LIMIT <= yw <= VECTOR_LIMIT,
                0 <= lw <= VECTOR_LIMIT,
        ;
        let qx = div_toward_zero(xw * lw, n as i128);
        let qy = div_toward_zero(yw * lw, n as i128);
        Point { x: qx as i64, y: qy as i64 }
    }
}

/// `p` pulled back onto the circle of radius `m` when it lies outside it.
pub fn clamp_length_max(p: Point, m: i64) -> (r: Point)
    requires
        within(p, VECTOR_LIMIT as int),
        0 <= m <= COORD_LIMIT,
    ensures
        r == spec_clamp(p, m as int),
        norm2(r.x as int, r.y as int) <= m * m,
        within(r, m as int),
{
    let xw = p.x as i128;
    let yw = p.y as i128;
    let mw = m as i128;
    assert(0 <= xw * xw <= 0x1000_0000_0000_0000_0000_0000 && 0 <= yw * yw <= 0x1000_0000_0000_0000_0000_0000
        && 0 <= mw * mw <= 0x8000_0000_0000_0000) by (nonlinear_arith)
        requires
            -VECTOR_LIMIT <= xw <= VECTOR_LIMIT,
            -VECTOR_LIMIT <= yw <= VECTOR_LIMIT,
            0 <= mw <= COORD_LIMIT,
    ;
    if xw * xw + yw * yw <= mw * mw {
        proof {
            lemma_norm2_parts(p.x as int, p.y as int);
            assert(p.x * p.x <= m * m && p.y * p.y <= m * m);
            assert(-m <= p.x <= m && -m <= p.y <= m) by (nonlinear_arith)
                requires
                    p.x * p.x <= m * m,
                    p.y * p.y <= m * m,
                    m >= 0,
            ;
        }
        p
    } else {
        scale_to(p.x, p.y, m)
    }
}

/// The point `alpha` thousandths of the way from `from` to `to`.
pub fn blend(from: Point, to: Point, alpha: u32) -> (r: Point)
    requires
        within(from, VECTOR_LIMIT as int),
        within(to, VECTOR_LIMIT as int),
        alpha <= 1000,
    ensures
        r == spec_blend(from, to, alpha as int),
        within(r, VECTOR_LIMIT as int),
{
    let dx = (to.x as i128) - (from.x as i128);
    let dy = (to.y as i128) - (from.y as i128);
    let aw = alpha as i128;
    assert(-0x8000_0000_0000 * 1000 <= dx * aw <= 0x8000_0000_0000 * 1000
        && -0x8000_0000_0000 * 1000 <= dy * aw <= 0x8000_0000_0000 * 1000) by (nonlinear_arith)
        requires
            -0x8000_0000_0000 <= dx <= 0x8000_0000_0000,
            -0x8000_0000_0000 <= dy <= 0x8000_0000_0000,
            0 <= aw <= 1000,
    ;
    let sx = div_toward_zero(dx * aw, 1000);
    let sy = div_toward_zero(dy * aw, 1000);
    proof {
        lemma_blend_step(dx as int, alpha as int);
        lemma_blend_step(dy as int, alpha as int);
    }
    Point { x: (from.x as i128 + sx) as i64, y: (from.y as i128 + sy) as i64 }
}

} // verus!
