//! Fixed-point 2D vectors. One world unit is `UNIT` sub-units; every
//! coordinate, velocity and acceleration is an integer count of sub-units.
use vstd::prelude::*;

verus! {

/// Sub-units per world unit.
pub const UNIT: i64 = 1000;

/// Largest magnitude of a vector component that the arithmetic below accepts.
pub const COMPONENT_LIMIT: i64 = 1_099_511_627_776;

#[derive(Clone, Copy, Debug, PartialEq, Eq, Structural)]
pub struct Vector {
    pub x: i64,
    pub y: i64,
}

pub open spec fn abs(a: int) -> int {
    if a >= 0 { a } else { -a }
}

/// Integer division rounding toward zero, for a positive divisor.
pub open spec fn tdiv(a: int, b: int) -> int {
    if a >= 0 { a / b } else { -((-a) / b) }
}

/// `r` is the smallest natural number whose square reaches `n`.
pub open spec fn is_root_ceil(n: int, r: int) -> bool {
    &&& r >= 0
    &&& r * r >= n
    &&& (r == 0 || (r - 1) * (r - 1) < n)
}

/// The rounded-up square root of `n`.
pub open spec fn root_ceil(n: int) -> int {
    choose|r: int| is_root_ceil(n, r)
}

impl Vector {
    pub open spec fn bounded(self) -> bool {
        abs(self.x as int) <= COMPONENT_LIMIT && abs(self.y as int) <= COMPONENT_LIMIT
    }

    pub open spec fn len_sq(self) -> int {
        self.x * self.x + self.y * self.y
    }

    /// Euclidean length rounded up.
    pub open spec fn norm(self) -> int {
        root_ceil(self.len_sq())
    }

    /// `FINE` times the Euclidean length, rounded up.
    pub open spec fn fine_norm(self) -> int {
        root_ceil(self.len_sq() * FINE * FINE)
    }

    pub open spec fn is_zero(self) -> bool {
        self.x == 0 && self.y == 0
    }
}

pub open spec fn dist_sq(a: Vector, b: Vector) -> int {
    (a.x - b.x) * (a.x - b.x) + (a.y - b.y) * (a.y - b.y)
}

/// Distance squared between two bounded points.
pub fn distance_squared(a: &Vector, b: &Vector) -> (r: u128)
    requires
        a.bounded(),
        b.bounded(),
    ensures
        r == dist_sq(*a, *b),
{
    let dx = a.x as i128 - b.x as i128;
    let dy = a.y as i128 - b.y as i128;
    proof {
        lemma_square_monotone(abs(dx as int), 2 * COMPONENT_LIMIT);
        lemma_square_monotone(abs(dy as int), 2 * COMPONENT_LIMIT);
        assert(dx * dx == abs(dx as int) * abs(dx as int)) by (nonlinear_arith);
        assert(dy * dy == abs(dy as int) * abs(dy as int)) by (nonlinear_arith);
        assert(abs(dx as int) * abs(dx as int) >= 0) by (nonlinear_arith);
        assert(abs(dy as int) * abs(dy as int) >= 0) by (nonlinear_arith);
    }
    (dx * dx + dy * dy) as u128
}

/// `v` rescaled so that rounding never leaves it short of `len` (see
/// `Vector::with_length_at_least`).
pub open spec fn reaching_length_spec(v: Vector, len: int) -> (int, int) {
    let first = with_length_spec(v, len);
    if first.0 * first.0 + first.1 * first.1 >= len * len {
        first
    } else {
        with_length_spec(v, len + 2)
    }
}

/// Scale applied to a vector before its length is taken when it is
/// rescaled, so that rounding the length up loses almost nothing.
pub const FINE: i64 = 1_048_576;

/// The vector `v` rescaled to length `len`, or the zero vector when `v` is
/// zero. The length of `v` is taken at `FINE` times its scale and rounded
/// up, and each component is rounded toward zero, so the result is never
/// longer than `len`.
pub open spec fn with_length_spec(v: Vector, len: int) -> (int, int) {
    if v.is_zero() {
        (0, 0)
    } else {
        (tdiv(v.x * FINE * len, v.fine_norm()), tdiv(v.y * FINE * len, v.fine_norm()))
    }
}

pub proof fn lemma_square_monotone(a: int, b: int)
    requires
        0 <= a <= b,
    ensures
        a * a <= b * b,
{
    assert(a * a <= b * b) by (nonlinear_arith)
        requires
            0 <= a <= b,
    ;
}

/// The rounded-up root exists and is unique.
pub proof fn lemma_root_ceil_unique(n: int, r: int)
    requires
        n >= 0,
        is_root_ceil(n, r),
    ensures
        root_ceil(n) == r,
{
    let s = root_ceil(n);
    assert(is_root_ceil(n, s));
    if s < r {
        lemma_square_monotone(s, r - 1);
    } else if r < s {
        lemma_square_monotone(r, s - 1);
    }
}

/// Every natural number has a rounded-up root.
pub proof fn lemma_root_ceil_exists(n: int)
    requires
        n >= 0,
    ensures
        is_root_ceil(n, root_ceil(n)),
        root_ceil(n) >= 0,
{
    let r = ceil_root_witness(n);
    assert(is_root_ceil(n, r));
}

proof fn ceil_root_witness(n: int) -> (r: int)
    requires
        n >= 0,
    ensures
        is_root_ceil(n, r),
    decreases n,
{
    if n == 0 {
        0
    } else {
        let r = ceil_root_witness(n - 1);
        if r * r >= n {
            r
        } else {
            assert((r + 1 - 1) * (r + 1 - 1) < n);
            assert((r + 1) * (r + 1) >= n) by (nonlinear_arith)
                requires
                    r * r >= n - 1,
                    r >= 0,
            ;
            r + 1
        }
    }
}

/// The squared length of a nonzero vector at `FINE` times its scale: it
/// fits the root finder, it is positive, and it is the sum of the squares
/// of the scaled components.
pub proof fn lemma_fine_scaling(v: Vector, n: int)
    requires
        !v.is_zero(),
        n == v.len_sq(),
        n <= 2 * COMPONENT_LIMIT * COMPONENT_LIMIT,
    ensures
        0 < n * FINE * FINE <= 0x4000_0000_0000_0000_0000_0000_0000_0000,
        (abs(v.x as int) * FINE) * (abs(v.x as int) * FINE) + (abs(v.y as int) * FINE) * (abs(v.y as int) * FINE)
            == n * FINE * FINE,
        (abs(v.x as int) * FINE) * (abs(v.x as int) * FINE) <= n * FINE * FINE,
        (abs(v.y as int) * FINE) * (abs(v.y as int) * FINE) <= n * FINE * FINE,
{
    assert(v.x * v.x == abs(v.x as int) * abs(v.x as int)) by (nonlinear_arith);
    assert(v.y * v.y == abs(v.y as int) * abs(v.y as int)) by (nonlinear_arith);
    assert(abs(v.x as int) * abs(v.x as int) > 0 || abs(v.y as int) * abs(v.y as int) > 0) by (nonlinear_arith)
        requires
            v.x != 0 || v.y != 0,
    ;
    assert(abs(v.x as int) * abs(v.x as int) >= 0 && abs(v.y as int) * abs(v.y as int) >= 0) by (nonlinear_arith);
    assert(0 < n * FINE * FINE <= 2 * COMPONENT_LIMIT * COMPONENT_LIMIT * FINE * FINE) by (nonlinear_arith)
        requires
            0 < n <= 2 * COMPONENT_LIMIT * COMPONENT_LIMIT,
    ;
    assert((abs(v.x as int) * FINE) * (abs(v.x as int) * FINE) + (abs(v.y as int) * FINE) * (abs(v.y as int) * FINE)
        == (abs(v.x as int) * abs(v.x as int) + abs(v.y as int) * abs(v.y as int)) * FINE * FINE) by (nonlinear_arith);
    assert((abs(v.x as int) * FINE) * (abs(v.x as int) * FINE) >= 0) by (nonlinear_arith);
    assert((abs(v.y as int) * FINE) * (abs(v.y as int) * FINE) >= 0) by (nonlinear_arith);
}

/// The rescaled vector is at most `len` long on each axis.
pub proof fn lemma_with_length_bound(v: Vector, len: int)
    requires
        len >= 0,
        v.bounded(),
    ensures
        abs(with_length_spec(v, len).0) <= len,
        abs(with_length_spec(v, len).1) <= len,
{
    if !v.is_zero() {
        lemma_component_square(v.x as int);
        lemma_component_square(v.y as int);
        let n = v.len_sq();
        lemma_fine_scaling(v, n);
        let m = n * FINE * FINE;
        lemma_root_ceil_exists(m);
        let r = root_ceil(m);
        let ax = abs(v.x as int) * FINE;
        let ay = abs(v.y as int) * FINE;
        assert(ax >= 0 && ay >= 0) by (nonlinear_arith)
            requires
                ax == abs(v.x as int) * FINE,
                ay == abs(v.y as int) * FINE,
        ;
        lemma_root_dominates(ax, m, r);
        lemma_root_dominates(ay, m, r);
        assert(r > 0);
        lemma_tdiv_magnitude(v.x * FINE * len, r);
        lemma_tdiv_magnitude(v.y * FINE * len, r);
        assert(abs(v.x * FINE * len) == ax * len) by (nonlinear_arith)
            requires
                len >= 0,
                ax == abs(v.x as int) * FINE,
        ;
        assert(abs(v.y * FINE * len) == ay * len) by (nonlinear_arith)
            requires
                len >= 0,
                ay == abs(v.y as int) * FINE,
        ;
        assert(ax * len / r <= len) by (nonlinear_arith)
            requires
                0 <= ax <= r,
                r > 0,
                len >= 0,
        ;
        assert(ay * len / r <= len) by (nonlinear_arith)
            requires
                0 <= ay <= r,
                r > 0,
                len >= 0,
        ;
    }
}

/// Rescaling loses little length: a nonzero vector rescaled to `len` is at
/// most 2 sub-units shorter than `len`, for any `len` up to half of `FINE`.
pub proof fn lemma_with_length_floor(v: Vector, len: int)
    requires
        v.bounded(),
        !v.is_zero(),
        2 <= len,
        2 * len <= FINE,
    ensures
        with_length_spec(v, len).0 * with_length_spec(v, len).0
            + with_length_spec(v, len).1 * with_length_spec(v, len).1 >= (len - 2) * (len - 2),
{
    lemma_component_square(v.x as int);
    lemma_component_square(v.y as int);
    let n = v.len_sq();
    lemma_fine_scaling(v, n);
    let m = n * FINE * FINE;
    lemma_root_ceil_exists(m);
    let r = root_ceil(m);
    let a = abs(v.x as int) * FINE;
    let b = abs(v.y as int) * FINE;
    assert(a >= 0 && b >= 0) by (nonlinear_arith)
        requires
            a == abs(v.x as int) * FINE,
            b == abs(v.y as int) * FINE,
    ;
    assert(r * r >= m);
    if r == 0 {
        assert(r * r == 0);
    }
    // The rounded-up root is at least FINE, so at least twice `len`.
    assert(n >= 1);
    assert(m >= FINE * FINE) by (nonlinear_arith)
        requires
            m == n * FINE * FINE,
            n >= 1,
    ;
    if r < FINE {
        lemma_square_monotone(r, FINE - 1);
        assert((FINE - 1) * (FINE - 1) < FINE * FINE);
    }
    assert(r >= 2 * len);
    // Each component's magnitude is the floor of `a * len / r`.
    lemma_tdiv_magnitude(v.x * FINE * len, r);
    lemma_tdiv_magnitude(v.y * FINE * len, r);
    assert(abs(v.x * FINE * len) == a * len) by (nonlinear_arith)
        requires
            len >= 0,
            a == abs(v.x as int) * FINE,
    ;
    assert(abs(v.y * FINE * len) == b * len) by (nonlinear_arith)
        requires
            len >= 0,
            b == abs(v.y as int) * FINE,
    ;
    let w = with_length_spec(v, len);
    let p = abs(w.0);
    let q = abs(w.1);
    assert(p == (a * len) / r);
    assert(q == (b * len) / r);
    vstd::arithmetic::div_mod::lemma_fundamental_div_mod(a * len, r);
    vstd::arithmetic::div_mod::lemma_mod_bound(a * len, r);
    vstd::arithmetic::div_mod::lemma_fundamental_div_mod(b * len, r);
    vstd::arithmetic::div_mod::lemma_mod_bound(b * len, r);
    assert(0 <= a * len < (p + 1) * r) by (nonlinear_arith)
        requires
            a * len == r * p + (a * len) % r,
            0 <= (a * len) % r < r,
            a >= 0,
            len >= 0,
    ;
    assert(0 <= b * len < (q + 1) * r) by (nonlinear_arith)
        requires
            b * len == r * q + (b * len) % r,
            0 <= (b * len) % r < r,
            b >= 0,
            len >= 0,
    ;
    let big = (p + 1) * (p + 1) + (q + 1) * (q + 1);
    assert((a * len) * (a * len) < ((p + 1) * r) * ((p + 1) * r)) by (nonlinear_arith)
        requires
            0 <= a * len < (p + 1) * r,
    ;
    assert((b * len) * (b * len) < ((q + 1) * r) * ((q + 1) * r)) by (nonlinear_arith)
        requires
            0 <= b * len < (q + 1) * r,
    ;
    assert((a * len) * (a * len) + (b * len) * (b * len) == (a * a + b * b) * (len * len)) by (nonlinear_arith);
    assert(((p + 1) * r) * ((p + 1) * r) + ((q + 1) * r) * ((q + 1) * r) == big * (r * r)) by (nonlinear_arith)
        requires
            big == (p + 1) * (p + 1) + (q + 1) * (q + 1),
    ;
    assert(m * (len * len) < big * (r * r));
    assert((r - 1) * (r - 1) * (len * len) <= m * (len * len)) by (nonlinear_arith)
        requires
            (r - 1) * (r - 1) < m,
    ;
    if p * p + q * q < (len - 2) * (len - 2) {
        assert((p + q) * (p + q) <= 2 * (p * p + q * q)) by (nonlinear_arith);
        assert(2 * (p + q) <= 3 * (len - 2)) by (nonlinear_arith)
            requires
                (p + q) * (p + q) <= 2 * (p * p + q * q),
                p * p + q * q < (len - 2) * (len - 2),
                p >= 0,
                q >= 0,
                len >= 2,
        ;
        assert(big <= len * len - len) by (nonlinear_arith)
            requires
                big == (p + 1) * (p + 1) + (q + 1) * (q + 1),
                2 * (p + q) <= 3 * (len - 2),
                p * p + q * q < (len - 2) * (len - 2),
        ;
        assert(false) by (nonlinear_arith)
            requires
                (r - 1) * (r - 1) * (len * len) < big * (r * r),
                big <= len * len - len,
                r >= 2 * len,
                len >= 2,
        ;
    }
    assert(w.0 * w.0 == p * p) by (nonlinear_arith)
        requires
            p == abs(w.0),
    ;
    assert(w.1 * w.1 == q * q) by (nonlinear_arith)
        requires
            q == abs(w.1),
    ;
}

/// Square of a value of at most `COMPONENT_LIMIT` in magnitude.
pub proof fn lemma_component_square(a: int)
    requires
        abs(a) <= COMPONENT_LIMIT,
    ensures
        0 <= a * a <= COMPONENT_LIMIT * COMPONENT_LIMIT,
        a * a == abs(a) * abs(a),
{
    lemma_square_monotone(abs(a), COMPONENT_LIMIT as int);
    assert(a * a == abs(a) * abs(a)) by (nonlinear_arith);
    assert(a * a >= 0) by (nonlinear_arith);
}

/// Rounded-up square root of `n`, by bisection.
pub fn sqrt_ceil(n: u128) -> (r: u128)
    requires
        n <= 0x4000_0000_0000_0000_0000_0000_0000_0000,
    ensures
        is_root_ceil(n as int, r as int),
        r == root_ceil(n as int),
        r <= 0x8000_0000_0000_0000,
{
    if n == 0 {
        proof { lemma_root_ceil_unique(0, 0); }
        return 0;
    }
    let mut lo: u128 = 0;
    let mut hi: u128 = 0x8000_0000_0000_0000;
    assert(hi * hi == 0x4000_0000_0000_0000_0000_0000_0000_0000);
    while hi - lo > 1
        invariant
            lo < hi <= 0x8000_0000_0000_0000,
            lo * lo < n,
            hi * hi >= n,
        decreases hi - lo,
    {
        let mid: u128 = lo + (hi - lo) / 2;
        proof { lemma_square_monotone(mid as int, 0x8000_0000_0000_0000); }
        assert(0x8000_0000_0000_0000 * 0x8000_0000_0000_0000 == 0x4000_0000_0000_0000_0000_0000_0000_0000int);
        if mid * mid >= n {
            hi = mid;
        } else {
            lo = mid;
        }
    }
    assert(hi - 1 == lo);
    proof { lemma_root_ceil_unique(n as int, hi as int); }
    hi
}

/// `a / b` rounded toward zero.
pub fn div_toward_zero(a: i128, b: i128) -> (q: i128)
    requires
        b > 0,
        a > i128::MIN,
    ensures
        q == tdiv(a as int, b as int),
{
    if a >= 0 {
        a / b
    } else {
        -((-a) / b)
    }
}


/// A value whose square is at most `n` is at most any root of `n` rounded up.
pub proof fn lemma_root_dominates(a: int, n: int, r: int)
    requires
        a >= 0,
        r >= 0,
        a * a <= n <= r * r,
    ensures
        a <= r,
{
    if a > r {
        lemma_square_monotone(r + 1, a);
        assert((r + 1) * (r + 1) > r * r) by (nonlinear_arith)
            requires
                r >= 0,
        ;
    }
}

/// Dividing rounds toward zero, so the quotient never grows in magnitude.
pub proof fn lemma_tdiv_magnitude(a: int, b: int)
    requires
        b > 0,
    ensures
        abs(tdiv(a, b)) == abs(a) / b,
        abs(tdiv(a, b)) * b <= abs(a),
        abs(a) <= b ==> abs(tdiv(a, b)) <= 1,
{
    let m = abs(a);
    assert((m / b) * b <= m) by (nonlinear_arith)
        requires
            b > 0,
            m >= 0,
    ;
    assert(m / b >= 0) by (nonlinear_arith)
        requires
            b > 0,
            m >= 0,
    ;
    if m <= b {
        assert(m / b <= 1) by (nonlinear_arith)
            requires
                b > 0,
                0 <= m <= b,
        ;
    }
}

/// Rescaling each component of `(x, y)` by `len / r` with `r` at least the
/// length of `(x, y)` gives a vector no longer than `len`.
pub proof fn lemma_rescaled_length(p: int, q: int, x: int, y: int, r: int, len: int)
    requires
        r > 0,
        len >= 0,
        0 <= p,
        0 <= q,
        0 <= x,
        0 <= y,
        p * r <= x * len,
        q * r <= y * len,
        x * x + y * y <= r * r,
    ensures
        p * p + q * q <= len * len,
{
    assert(p * p * (r * r) <= x * x * (len * len)) by (nonlinear_arith)
        requires
            0 <= p,
            0 <= r,
            p * r <= x * len,
            0 <= x,
            0 <= len,
    ;
    assert(q * q * (r * r) <= y * y * (len * len)) by (nonlinear_arith)
        requires
            0 <= q,
            0 <= r,
            q * r <= y * len,
            0 <= y,
            0 <= len,
    ;
    assert((x * x + y * y) * (len * len) <= r * r * (len * len)) by (nonlinear_arith)
        requires
            x * x + y * y <= r * r,
    ;
    assert(x * x * (len * len) + y * y * (len * len) == (x * x + y * y) * (len * len))
        by (nonlinear_arith);
    assert(p * p + q * q <= len * len) by (nonlinear_arith)
        requires
            p * p * (r * r) + q * q * (r * r) <= r * r * (len * len),
            r > 0,
    ;
}

impl Vector {
    pub fn zero() -> (r: Vector)
        ensures
            r.is_zero(),
    {
        Vector { x: 0, y: 0 }
    }

    /// Squared length.
    pub fn length_squared(&self) -> (r: u128)
        requires
            self.bounded(),
        ensures
            r == self.len_sq(),
            r <= 2 * COMPONENT_LIMIT * COMPONENT_LIMIT,
    {
        proof {
            lemma_component_square(self.x as int);
            lemma_component_square(self.y as int);
        }
        let x = self.x as i128;
        let y = self.y as i128;
        (x * x + y * y) as u128
    }

    /// Length rounded up.
    pub fn length(&self) -> (r: i64)
        requires
            self.bounded(),
        ensures
            r == self.norm(),
            is_root_ceil(self.len_sq(), r as int),
            abs(self.x as int) <= r,
            abs(self.y as int) <= r,
            r <= 2 * COMPONENT_LIMIT,
    {
        let n = self.length_squared();
        let r = sqrt_ceil(n);
        proof {
            lemma_component_square(self.x as int);
            lemma_component_square(self.y as int);
            lemma_root_dominates(abs(self.x as int), n as int, r as int);
            lemma_root_dominates(abs(self.y as int), n as int, r as int);
            if r > 2 * COMPONENT_LIMIT {
                lemma_square_monotone(2 * COMPONENT_LIMIT, r - 1);
            }
        }
        r as i64
    }

    /// This vector rescaled to length `len`; the zero vector stays zero.
    pub fn with_length(&self, len: i64) -> (r: Vector)
        requires
            self.bounded(),
            0 <= len <= COMPONENT_LIMIT,
        ensures
            (r.x as int, r.y as int) == with_length_spec(*self, len as int),
            r.len_sq() <= len * len,
            abs(r.x as int) <= len,
            abs(r.y as int) <= len,
    {
        if self.x == 0 && self.y == 0 {
            let z = Vector { x: 0, y: 0 };
            assert(z.len_sq() == 0) by (nonlinear_arith)
                requires
                    z.x == 0,
                    z.y == 0,
            ;
            assert(len * len >= 0) by (nonlinear_arith);
            return z;
        }
        let n = self.length_squared();
        let ghost ax = abs(self.x as int) * FINE;
        let ghost ay = abs(self.y as int) * FINE;
        proof {
            lemma_fine_scaling(*self, n as int);
            assert(abs(self.x as int) * FINE * len <= COMPONENT_LIMIT * FINE * COMPONENT_LIMIT) by (nonlinear_arith)
                requires
                    abs(self.x as int) <= COMPONENT_LIMIT,
                    0 <= len <= COMPONENT_LIMIT,
            ;
            assert(abs(self.y as int) * FINE * len <= COMPONENT_LIMIT * FINE * COMPONENT_LIMIT) by (nonlinear_arith)
                requires
                    abs(self.y as int) <= COMPONENT_LIMIT,
                    0 <= len <= COMPONENT_LIMIT,
            ;
            assert(abs(self.x * FINE * len) == ax * len) by (nonlinear_arith)
                requires
                    len >= 0,
                    ax == abs(self.x as int) * FINE,
            ;
            assert(abs(self.y * FINE * len) == ay * len) by (nonlinear_arith)
                requires
                    len >= 0,
                    ay == abs(self.y as int) * FINE,
            ;
        }
        assert(FINE * FINE == 1_099_511_627_776);
        assert(n * (FINE * FINE) == n * FINE * FINE) by (nonlinear_arith);
        let r = sqrt_ceil(n * (FINE as u128 * FINE as u128)) as i128;
        proof {
            lemma_root_dominates(ax, n * FINE * FINE, r as int);
            lemma_root_dominates(ay, n * FINE * FINE, r as int);
            assert(r > 0);
        }
        let qx = div_toward_zero(self.x as i128 * FINE as i128 * len as i128, r);
        let qy = div_toward_zero(self.y as i128 * FINE as i128 * len as i128, r);
        proof {
            lemma_tdiv_magnitude(self.x * FINE * len, r as int);
            lemma_tdiv_magnitude(self.y * FINE * len, r as int);
            lemma_rescaled_length(abs(qx as int), abs(qy as int), ax, ay, r as int, len as int);
            assert(qx * qx == abs(qx as int) * abs(qx as int)) by (nonlinear_arith);
            assert(qy * qy == abs(qy as int) * abs(qy as int)) by (nonlinear_arith);
            assert(abs(qx as int) <= len) by (nonlinear_arith)
                requires
                    abs(qx as int) * r <= ax * len,
                    ax <= r,
                    r > 0,
                    len >= 0,
            ;
            assert(abs(qy as int) <= len) by (nonlinear_arith)
                requires
                    abs(qy as int) * r <= ay * len,
                    ay <= r,
                    r > 0,
                    len >= 0,
            ;
        }
        Vector { x: qx as i64, y: qy as i64 }
    }

    /// This vector rescaled to at least length `len`: the plain rescale when
    /// its rounding already reaches `len`, else the rescale to `len + 2`,
    /// which always does. The zero vector stays zero.
    pub fn with_length_at_least(&self, len: i64) -> (r: Vector)
        requires
            self.bounded(),
            0 <= len,
            2 * (len + 2) <= FINE,
        ensures
            (r.x as int, r.y as int) == reaching_length_spec(*self, len as int),
            self.is_zero() ==> r.is_zero(),
            !self.is_zero() ==> len * len <= r.len_sq() <= (len + 2) * (len + 2),
            abs(r.x as int) <= len + 2,
            abs(r.y as int) <= len + 2,
    {
        let first = self.with_length(len);
        proof {
            lemma_square_monotone(len as int, len + 2);
            lemma_square_monotone(len as int, FINE as int);
        }
        if first.length_squared() >= len as u128 * len as u128 {
            first
        } else {
            proof {
                if !self.is_zero() {
                    lemma_with_length_floor(*self, len + 2);
                }
            }
            self.with_length(len + 2)
        }
    }

    /// This vector shortened to length `max` when it is longer.
    pub fn clamp_length_max(&self, max: i64) -> (r: Vector)
        requires
            self.bounded(),
            0 <= max <= COMPONENT_LIMIT,
        ensures
            r.len_sq() <= max * max,
            self.len_sq() <= max * max ==> r == *self,
            self.len_sq() > max * max ==> (r.x as int, r.y as int) == with_length_spec(*self, max as int),
    {
        proof {
            lemma_square_monotone(max as int, COMPONENT_LIMIT as int);
        }
        if self.length_squared() > max as u128 * max as u128 {
            self.with_length(max)
        } else {
            *self
        }
    }
}

} // verus!
