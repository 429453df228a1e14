use vstd::prelude::*;
use crate::client::Client;

verus! {

/// Upper bound on any distance between admitted coordinates:
/// the diagonal of the admitted square is below 300 million units.
pub const MAX_DISTANCE: u64 = 300_000_000;

/// Largest squared distance the integer square root has to accept.
pub const MAX_SQUARED: u64 = 90_000_000_000_000_000;

/// Least natural number whose square is at least `n`. Distances round
/// upward so that the triangle inequality survives the rounding.
pub open spec fn sqrt_ceil(n: nat) -> nat
    decreases n,
{
    if n == 0 {
        0
    } else {
        let r = sqrt_ceil((n - 1) as nat);
        if r * r >= n {
            r
        } else {
            r + 1
        }
    }
}

/// `sqrt_ceil(n)` squared reaches `n`, and the previous square does not.
pub proof fn lemma_sqrt_ceil_bracket(n: nat)
    ensures
        n <= sqrt_ceil(n) * sqrt_ceil(n),
        sqrt_ceil(n) > 0 ==> (sqrt_ceil(n) - 1) * (sqrt_ceil(n) - 1) < n,
        n == 0 ==> sqrt_ceil(n) == 0,
    decreases n,
{
    if n == 0 {
    } else {
        lemma_sqrt_ceil_bracket((n - 1) as nat);
        let r = sqrt_ceil((n - 1) as nat);
        if r * r >= n {
            assert(sqrt_ceil(n) == r);
            if r > 0 {
                assert((r - 1) * (r - 1) < n - 1 + 1);
            }
        } else {
            assert(sqrt_ceil(n) == r + 1);
            assert(n <= (r + 1) * (r + 1)) by (nonlinear_arith)
                requires
                    n - 1 <= r * r,
                    r >= 0,
            ;
        }
    }
}

/// Any square at or above `n` bounds the rounded-up square root.
pub proof fn lemma_sqrt_ceil_le(n: nat, b: nat)
    requires
        n <= b * b,
    ensures
        sqrt_ceil(n) <= b,
{
    lemma_sqrt_ceil_bracket(n);
    let s = sqrt_ceil(n);
    if s > b {
        assert(b * b <= (s - 1) * (s - 1)) by (nonlinear_arith)
            requires
                b <= s - 1,
                b >= 0,
        ;
    }
}

/// The bracketing property determines the rounded-up square root uniquely.
pub proof fn lemma_sqrt_ceil_unique(n: nat, r: nat)
    requires
        n <= r * r,
        r > 0 ==> (r - 1) * (r - 1) < n,
    ensures
        r == sqrt_ceil(n),
{
    lemma_sqrt_ceil_bracket(n);
    let s = sqrt_ceil(n);
    if r < s {
        assert(r * r <= (s - 1) * (s - 1)) by (nonlinear_arith)
            requires
                r <= s - 1,
                r >= 0,
        ;
    } else if s < r {
        assert(s * s <= (r - 1) * (r - 1)) by (nonlinear_arith)
            requires
                s <= r - 1,
                s >= 0,
        ;
    }
}

/// Squared Euclidean distance between two points.
pub open spec fn sq_dist(ax: int, ay: int, bx: int, by: int) -> int {
    (ax - bx) * (ax - bx) + (ay - by) * (ay - by)
}

/// Euclidean distance between two points, rounded up to a whole number
/// of fixed-point units.
pub open spec fn euclid_dist(ax: int, ay: int, bx: int, by: int) -> int {
    sqrt_ceil(sq_dist(ax, ay, bx, by) as nat) as int
}

/// Distance between two clients under the fixed-point model.
pub open spec fn client_dist(a: Client, b: Client) -> int {
    euclid_dist(a.x as int, a.y as int, b.x as int, b.y as int)
}

/// Squares are never negative.
proof fn lemma_sq_dist_nonneg(ax: int, ay: int, bx: int, by: int)
    ensures
        sq_dist(ax, ay, bx, by) >= 0,
        (ax - bx) * (ax - bx) >= 0,
        (ay - by) * (ay - by) >= 0,
{
    assert((ax - bx) * (ax - bx) >= 0) by (nonlinear_arith);
    assert((ay - by) * (ay - by) >= 0) by (nonlinear_arith);
}

/// The distance does not depend on the order of its endpoints.
pub proof fn lemma_client_dist_symmetric(a: Client, b: Client)
    ensures
        client_dist(a, b) == client_dist(b, a),
{
    assert(sq_dist(a.x as int, a.y as int, b.x as int, b.y as int)
        == sq_dist(b.x as int, b.y as int, a.x as int, a.y as int)) by (nonlinear_arith);
}

/// The distance from a client to itself is zero.
pub proof fn lemma_client_dist_zero(a: Client)
    ensures
        client_dist(a, a) == 0,
{
}

/// Distances between admitted coordinates stay at or below `MAX_DISTANCE`.
pub proof fn lemma_client_dist_bounded(a: Client, b: Client)
    requires
        a.coords_in_range(),
        b.coords_in_range(),
    ensures
        0 <= client_dist(a, b) <= MAX_DISTANCE,
        sq_dist(a.x as int, a.y as int, b.x as int, b.y as int) <= MAX_SQUARED,
{
    let dx = a.x as int - b.x as int;
    let dy = a.y as int - b.y as int;
    assert(dx * dx <= 40_000_000_000_000_000) by (nonlinear_arith)
        requires
            -200_000_000 <= dx <= 200_000_000,
    ;
    assert(dy * dy <= 40_000_000_000_000_000) by (nonlinear_arith)
        requires
            -200_000_000 <= dy <= 200_000_000,
    ;
    lemma_sq_dist_nonneg(a.x as int, a.y as int, b.x as int, b.y as int);
    let n = sq_dist(a.x as int, a.y as int, b.x as int, b.y as int) as nat;
    assert(n <= MAX_DISTANCE * MAX_DISTANCE) by (nonlinear_arith)
        requires
            n <= 90_000_000_000_000_000,
    ;
    lemma_sqrt_ceil_le(n, MAX_DISTANCE as nat);
}

/// The rounded-up metric keeps the triangle inequality: rounding each leg
/// upward can only help the two-leg side.
#[verifier::rlimit(100)]
pub proof fn lemma_client_dist_triangle(a: Client, b: Client, c: Client)
    ensures
        client_dist(a, c) <= client_dist(a, b) + client_dist(b, c),
{
    let x1 = a.x as int - b.x as int;
    let y1 = a.y as int - b.y as int;
    let x2 = b.x as int - c.x as int;
    let y2 = b.y as int - c.y as int;
    let s12 = x1 * x1 + y1 * y1;
    let s23 = x2 * x2 + y2 * y2;
    let s13 = sq_dist(a.x as int, a.y as int, c.x as int, c.y as int);
    assert(a.x as int - c.x as int == x1 + x2);
    assert(a.y as int - c.y as int == y1 + y2);
    assert(s13 == (x1 + x2) * (x1 + x2) + (y1 + y2) * (y1 + y2));
    assert((x1 + x2) * (x1 + x2) + (y1 + y2) * (y1 + y2)
        == x1 * x1 + y1 * y1 + (x2 * x2 + y2 * y2) + 2 * (x1 * x2 + y1 * y2))
        by (nonlinear_arith);
    // Lagrange's identity, in small expansions, gives Cauchy-Schwarz for
    // the two displacements
    let g1 = x1 * x2;
    let g2 = y1 * y2;
    let p = x1 * y2;
    let q = y1 * x2;
    let t = g1 + g2;
    let u = p - q;
    assert(t * t == g1 * g1 + 2 * (g1 * g2) + g2 * g2) by (nonlinear_arith)
        requires
            t == g1 + g2,
    ;
    assert(u * u == p * p - 2 * (p * q) + q * q) by (nonlinear_arith)
        requires
            u == p - q,
    ;
    assert(g1 * g1 == x1 * x1 * (x2 * x2)) by (nonlinear_arith)
        requires
            g1 == x1 * x2,
    ;
    assert(g2 * g2 == y1 * y1 * (y2 * y2)) by (nonlinear_arith)
        requires
            g2 == y1 * y2,
    ;
    assert(p * p == x1 * x1 * (y2 * y2)) by (nonlinear_arith)
        requires
            p == x1 * y2,
    ;
    assert(q * q == y1 * y1 * (x2 * x2)) by (nonlinear_arith)
        requires
            q == y1 * x2,
    ;
    assert(g1 * g2 == p * q) by (nonlinear_arith)
        requires
            g1 == x1 * x2,
            g2 == y1 * y2,
            p == x1 * y2,
            q == y1 * x2,
    ;
    assert(s12 * s23
        == x1 * x1 * (x2 * x2) + x1 * x1 * (y2 * y2) + y1 * y1 * (x2 * x2) + y1 * y1 * (y2 * y2))
        by (nonlinear_arith)
        requires
            s12 == x1 * x1 + y1 * y1,
            s23 == x2 * x2 + y2 * y2,
    ;
    assert(u * u >= 0) by (nonlinear_arith);
    assert(t * t <= s12 * s23);
    assert(t == x1 * x2 + y1 * y2);
    lemma_sq_dist_nonneg(a.x as int, a.y as int, b.x as int, b.y as int);
    lemma_sq_dist_nonneg(b.x as int, b.y as int, c.x as int, c.y as int);
    assert(s12 == sq_dist(a.x as int, a.y as int, b.x as int, b.y as int));
    assert(s23 == sq_dist(b.x as int, b.y as int, c.x as int, c.y as int));
    lemma_sqrt_ceil_bracket(s12 as nat);
    lemma_sqrt_ceil_bracket(s23 as nat);
    let c12 = sqrt_ceil(s12 as nat) as int;
    let c23 = sqrt_ceil(s23 as nat) as int;
    assert(s12 * s23 <= (c12 * c23) * (c12 * c23)) by (nonlinear_arith)
        requires
            0 <= s12 <= c12 * c12,
            0 <= s23 <= c23 * c23,
            c12 >= 0,
            c23 >= 0,
    ;
    assert(t <= c12 * c23) by (nonlinear_arith)
        requires
            t * t <= (c12 * c23) * (c12 * c23),
            c12 * c23 >= 0,
    ;
    assert(s13 <= (c12 + c23) * (c12 + c23)) by (nonlinear_arith)
        requires
            s13 == s12 + s23 + 2 * t,
            s12 <= c12 * c12,
            s23 <= c23 * c23,
            t <= c12 * c23,
    ;
    assert(s13 >= 0) by {
        lemma_sq_dist_nonneg(a.x as int, a.y as int, c.x as int, c.y as int);
    }
    assert(c12 + c23 >= 0);
    assert((s13 as nat) <= ((c12 + c23) as nat) * ((c12 + c23) as nat));
    lemma_sqrt_ceil_le(s13 as nat, (c12 + c23) as nat);
}

/// Integer square root, rounded up, by binary search over the admitted
/// window.
pub fn isqrt(n: u64) -> (r: u64)
    requires
        n <= MAX_SQUARED,
    ensures
        r as nat == sqrt_ceil(n as nat),
        r <= MAX_DISTANCE,
{
    if n == 0 {
        return 0;
    }
    let mut lo: u64 = 0;
    let mut hi: u64 = 300_000_000;
    assert((n as int) <= (hi as int) * (hi as int)) by (nonlinear_arith)
        requires
            n <= 90_000_000_000_000_000u64,
            hi == 300_000_000u64,
    ;
    while lo + 1 < hi
        invariant
            lo < hi <= 300_000_000,
            (lo as int) * (lo as int) < n as int,
            (n as int) <= (hi as int) * (hi as int),
        decreases hi - lo,
    {
        let mid = lo + (hi - lo) / 2;
        assert(lo < mid < hi);
        assert((mid as int) * (mid as int) <= 90_000_000_000_000_000) by (nonlinear_arith)
            requires
                0 <= mid <= 300_000_000,
        ;
        if mid * mid >= n {
            hi = mid;
        } else {
            lo = mid;
        }
    }
    proof {
        lemma_sqrt_ceil_unique(n as nat, hi as nat);
    }
    hi
}

/// Distance between two clients: the verified fixed-point Euclidean metric.
pub fn euclid_distance(a: &Client, b: &Client) -> (d: u64)
    requires
        a.coords_in_range(),
        b.coords_in_range(),
    ensures
        d as int == client_dist(*a, *b),
        d <= MAX_DISTANCE,
{
    proof {
        lemma_sq_dist_nonneg(a.x as int, a.y as int, b.x as int, b.y as int);
        lemma_client_dist_bounded(*a, *b);
    }
    let dx = a.x - b.x;
    let dy = a.y - b.y;
    assert((dx as int) * (dx as int) <= 40_000_000_000_000_000) by (nonlinear_arith)
        requires
            -200_000_000 <= dx <= 200_000_000,
    ;
    assert((dy as int) * (dy as int) <= 40_000_000_000_000_000) by (nonlinear_arith)
        requires
            -200_000_000 <= dy <= 200_000_000,
    ;
    let sx = dx * dx;
    let sy = dy * dy;
    let sq = (sx as u64) + (sy as u64);
    isqrt(sq)
}

} // verus!
