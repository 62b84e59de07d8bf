//! Integer plane geometry: vectors, rational factors and the rounding helpers
//! the flocking rules are stated with.
use vstd::arithmetic::div_mod::*;
use vstd::prelude::*;

verus! {

/// Largest magnitude of a value a [`Ratio`] is applied to.
pub const APPLY_LIMIT: i128 = 0x10_0000_0000_0000_0000_0000_0000;

/// Largest magnitude of a value a [`Ratio`] yields.
pub const FORCE_LIMIT: i128 = 0x10_0000_0000_0000_0000_0000_0000_0000;

/// Largest magnitude of the numerator and denominator of a [`Ratio`].
pub const RATIO_LIMIT: i32 = 65536;

/// Floor of `a / b` for a positive `b` (spec `/` is Euclidean).
pub fn floor_div(a: i128, b: i128) -> (r: i128)
    requires
        b > 0,
    ensures
        r == a / b,
{
    if a >= 0 {
        a / b
    } else {
        let m: i128 = -(a + 1);
        let q: i128 = m / b;
        proof {
            lemma_fundamental_div_mod(m as int, b as int);
            let rem = m as int % b as int;
            assert(0 <= rem < b);
            assert(a as int == (-q - 1) * b + (b - rem - 1)) by (nonlinear_arith)
                requires
                    m as int == b * q + rem,
                    a == -m - 1,
            ;
            lemma_fundamental_div_mod_converse_div(a as int, b as int, -q - 1, b - rem - 1);
        }
        -q - 1
    }
}

/// Division rounded toward zero, for a positive divisor.
pub open spec fn trunc_div(a: int, b: int) -> int {
    if a >= 0 {
        a / b
    } else {
        -((-a) / b)
    }
}

/// Computes [`trunc_div`].
pub fn trunc_div_exec(a: i128, b: i128) -> (r: i128)
    requires
        b > 0,
        a > i128::MIN,
    ensures
        r == trunc_div(a as int, b as int),
{
    if a >= 0 {
        a / b
    } else {
        let q: i128 = (-a) / b;
        -q
    }
}

/// Rounding toward zero commutes with negation.
pub proof fn lemma_trunc_div_negate(a: int, b: int)
    requires
        b > 0,
    ensures
        trunc_div(-a, b) == -trunc_div(a, b),
{
    if a == 0 {
        lemma_div_of0(b);
    }
}

/// Rounding toward zero never grows a value's magnitude.
pub proof fn lemma_trunc_div_bound(a: int, b: int)
    requires
        b > 0,
    ensures
        abs(trunc_div(a, b)) <= abs(a),
        0 <= abs(a) / b,
        abs(trunc_div(a, b)) == abs(a) / b,
{
    lemma_div_is_ordered_by_denominator(abs(a), 1, b);
    lemma_div_pos_is_pos(abs(a), b);
    lemma_div_basics(abs(a));
}

/// `r` is the smallest natural number whose square is at least `n`.
pub open spec fn is_ceil_sqrt(r: int, n: int) -> bool {
    &&& r >= 0
    &&& r * r >= n
    &&& (r == 0 || (r - 1) * (r - 1) < n)
}

/// The rounded-up square root of `n`.
pub open spec fn ceil_sqrt(n: int) -> int {
    choose|r: int| is_ceil_sqrt(r, n)
}

proof fn lemma_ceil_sqrt_unique(r1: int, r2: int, n: int)
    requires
        is_ceil_sqrt(r1, n),
        is_ceil_sqrt(r2, n),
    ensures
        r1 == r2,
{
    if r1 < r2 {
        assert((r2 - 1) * (r2 - 1) >= r1 * r1) by (nonlinear_arith)
            requires
                0 <= r1 <= r2 - 1,
        ;
    } else if r2 < r1 {
        assert((r1 - 1) * (r1 - 1) >= r2 * r2) by (nonlinear_arith)
            requires
                0 <= r2 <= r1 - 1,
        ;
    }
}

/// Rounded-up integer square root, by bisection.
pub fn ceil_sqrt_exec(n: u128) -> (r: u128)
    requires
        n <= 0x100_0000_0000_0000_0000_0000_0000_0000,
    ensures
        r == ceil_sqrt(n as int),
        r <= 0x1000_0000_0000_0000,
{
    if n == 0 {
        proof {
            assert(is_ceil_sqrt(0, 0));
            lemma_ceil_sqrt_unique(0, ceil_sqrt(0), 0);
        }
        return 0;
    }
    let mut lo: u128 = 0;
    let mut hi: u128 = 0x1000_0000_0000_0000;
    assert(hi * hi == 0x100_0000_0000_0000_0000_0000_0000_0000) by (nonlinear_arith)
        requires
            hi == 0x1000_0000_0000_0000,
    ;
    while hi - lo > 1
        invariant
            lo < hi <= 0x1000_0000_0000_0000,
            lo * lo < n,
            hi * hi >= n,
        decreases hi - lo,
    {
        let mid: u128 = lo + (hi - lo) / 2;
        assert(mid * mid <= 0x1000_0000_0000_0000 * 0x1000_0000_0000_0000) by (nonlinear_arith)
            requires
                mid <= 0x1000_0000_0000_0000,
        ;
        if mid * mid < n {
            lo = mid;
        } else {
            hi = mid;
        }
    }
    proof {
        assert(is_ceil_sqrt(hi as int, n as int));
        lemma_ceil_sqrt_unique(hi as int, ceil_sqrt(n as int), n as int);
    }
    hi
}

/// Largest magnitude of a velocity component before it is clamped.
pub const WIDE_LIMIT: i64 = 0x800_0000_0000_0000;

pub open spec fn abs(v: int) -> int {
    if v >= 0 {
        v
    } else {
        -v
    }
}

/// The vector `(x, y)` shortened to length at most `m`: unchanged when it is
/// no longer than `m`, else each component scaled by `m / ceil_sqrt(|v|²)`
/// and rounded toward zero.
pub open spec fn clamp_spec(x: int, y: int, m: int) -> (int, int) {
    let l2 = x * x + y * y;
    if l2 <= m * m {
        (x, y)
    } else {
        let l = ceil_sqrt(l2);
        (trunc_div(x * m, l), trunc_div(y * m, l))
    }
}

/// Facts on one component of a shortened vector: `q = |c| m / l` rounded
/// down, so `q l <= |c| m`, and `q <= m` when `|c| <= l`.
proof fn lemma_scaled_component(c: int, m: int, l: int)
    requires
        l > 0,
        m >= 0,
        c * c <= l * l,
    ensures
        abs(trunc_div(c * m, l)) == (abs(c) * m) / l,
        0 <= (abs(c) * m) / l <= m,
        ((abs(c) * m) / l) * l <= abs(c) * m,
        c >= 0 ==> trunc_div(c * m, l) >= 0,
        c < 0 ==> trunc_div(c * m, l) <= 0,
{
    let a = abs(c);
    assert(a * a == c * c) by (nonlinear_arith)
        requires
            a == abs(c),
    ;
    assert(a <= l) by (nonlinear_arith)
        requires
            a * a <= l * l,
            a >= 0,
            l > 0,
    ;
    assert(a * m >= 0) by (nonlinear_arith)
        requires
            a >= 0,
            m >= 0,
    ;
    if c < 0 {
        assert(-(c * m) == a * m) by (nonlinear_arith)
            requires
                a == -c,
        ;
        assert(c * m <= 0) by (nonlinear_arith)
            requires
                c < 0,
                m >= 0,
        ;
        if c * m == 0 {
            assert(a * m == 0);
            assert(trunc_div(c * m, l) == 0);
        }
    } else {
        assert(c * m == a * m);
    }
    lemma_div_pos_is_pos(a * m, l);
    let q = (a * m) / l;
    lemma_fundamental_div_mod(a * m, l);
    lemma_mod_bound(a * m, l);
    assert(0 <= q) by (nonlinear_arith)
        requires
            a * m == l * q + (a * m) % l,
            0 <= (a * m) % l < l,
            a * m >= 0,
            l > 0,
    ;
    assert(q * l <= a * m) by (nonlinear_arith)
        requires
            a * m == l * q + (a * m) % l,
            0 <= (a * m) % l,
    ;
    assert(q <= m) by (nonlinear_arith)
        requires
            q * l <= a * m,
            a <= l,
            m >= 0,
            l > 0,
    ;
}

/// A shortened vector is never longer than `m`, and a vector already no
/// longer than `m` is left as it is.
pub proof fn lemma_clamp_length(x: int, y: int, m: int)
    requires
        m >= 0,
    ensures
        clamp_spec(x, y, m).0 * clamp_spec(x, y, m).0 + clamp_spec(x, y, m).1 * clamp_spec(x, y, m).1
            <= m * m,
        x * x + y * y <= m * m ==> clamp_spec(x, y, m) == (x, y),
        abs(clamp_spec(x, y, m).0) <= abs(x),
        abs(clamp_spec(x, y, m).1) <= abs(y),
        clamp_spec(x, y, m).0 * x >= 0,
        clamp_spec(x, y, m).1 * y >= 0,
{
    let l2 = x * x + y * y;
    assert(x * x >= 0 && y * y >= 0) by (nonlinear_arith);
    if l2 > m * m {
        let l = ceil_sqrt(l2);
        lemma_ceil_sqrt_exists(l2);
        assert(l > 0) by (nonlinear_arith)
            requires
                l >= 0,
                l * l >= l2,
                l2 > m * m,
                m * m >= 0,
        ;
        lemma_scaled_component(x, m, l);
        lemma_scaled_component(y, m, l);
        let qa = (abs(x) * m) / l;
        let qb = (abs(y) * m) / l;
        let a = abs(x);
        let b = abs(y);
        assert(a * a == x * x && b * b == y * y) by (nonlinear_arith)
            requires
                a == abs(x),
                b == abs(y),
        ;
        assert((qa * qa + qb * qb) * (l * l) <= (a * a + b * b) * (m * m)) by (nonlinear_arith)
            requires
                0 <= qa,
                0 <= qb,
                qa * l <= a * m,
                qb * l <= b * m,
                l > 0,
        ;
        assert(qa * qa + qb * qb <= m * m) by (nonlinear_arith)
            requires
                (qa * qa + qb * qb) * (l * l) <= (a * a + b * b) * (m * m),
                a * a + b * b <= l * l,
                l > 0,
                m >= 0,
        ;
        let r = clamp_spec(x, y, m);
        assert(r.0 * r.0 == qa * qa && r.1 * r.1 == qb * qb) by (nonlinear_arith)
            requires
                abs(r.0) == qa,
                abs(r.1) == qb,
        ;
        assert(a <= l && b <= l) by (nonlinear_arith)
            requires
                a * a <= l * l,
                b * b <= l * l,
                a >= 0,
                b >= 0,
                l > 0,
        ;
        assert(qa <= a && qb <= b) by (nonlinear_arith)
            requires
                qa * l <= a * m,
                qb * l <= b * m,
                a * a + b * b > m * m,
                a * a + b * b <= l * l,
                0 <= a <= l,
                0 <= b <= l,
                qa <= m,
                qb <= m,
                l > 0,
                m >= 0,
        ;
        assert(r.0 * x >= 0 && r.1 * y >= 0) by (nonlinear_arith)
            requires
                r.0 == trunc_div(x * m, l),
                r.1 == trunc_div(y * m, l),
                x >= 0 ==> r.0 >= 0,
                x < 0 ==> r.0 <= 0,
                y >= 0 ==> r.1 >= 0,
                y < 0 ==> r.1 <= 0,
        ;
    } else {
        assert(x * x >= 0 && y * y >= 0) by (nonlinear_arith);
    }
}

proof fn lemma_ceil_sqrt_exists(n: int)
    requires
        n >= 0,
    ensures
        is_ceil_sqrt(ceil_sqrt(n), n),
{
    assert(n * n >= n) by (nonlinear_arith)
        requires
            n >= 0,
    ;
    lemma_ceil_sqrt_exists_below(n, n);
}

proof fn lemma_ceil_sqrt_exists_below(n: int, r: int)
    requires
        0 <= r,
        r * r >= n,
    ensures
        is_ceil_sqrt(ceil_sqrt(n), n),
    decreases r,
{
    if r == 0 || (r - 1) * (r - 1) < n {
        assert(is_ceil_sqrt(r, n));
    } else {
        lemma_ceil_sqrt_exists_below(n, r - 1);
    }
}

/// [`clamp_spec`] for a vector whose squared length fits 128 bits.
fn clamp_measurable(x: i64, y: i64, max: i32) -> (r: Vec2)
    requires
        -WIDE_LIMIT <= x <= WIDE_LIMIT,
        -WIDE_LIMIT <= y <= WIDE_LIMIT,
        0 <= max,
    ensures
        (r.x as int, r.y as int) == clamp_spec(x as int, y as int, max as int),
        -max <= r.x <= max,
        -max <= r.y <= max,
{
    let xw: i128 = x as i128;
    let yw: i128 = y as i128;
    let m: i128 = max as i128;
    assert(0 <= xw * xw <= 0x40_0000_0000_0000_0000_0000_0000_0000) by (nonlinear_arith)
        requires
            -0x800_0000_0000_0000 <= xw <= 0x800_0000_0000_0000,
    ;
    assert(0 <= yw * yw <= 0x40_0000_0000_0000_0000_0000_0000_0000) by (nonlinear_arith)
        requires
            -0x800_0000_0000_0000 <= yw <= 0x800_0000_0000_0000,
    ;
    let l2: i128 = xw * xw + yw * yw;
    assert(m * m <= 0x4000_0000_0000_0000) by (nonlinear_arith)
        requires
            0 <= m <= 0x7fff_ffff,
    ;
    if l2 <= m * m {
        assert(-m <= xw <= m && -m <= yw <= m) by (nonlinear_arith)
            requires
                xw * xw + yw * yw <= m * m,
                m >= 0,
        ;
        Vec2 { x: x as i32, y: y as i32 }
    } else {
        let l: u128 = ceil_sqrt_exec(l2 as u128);
        proof {
            lemma_ceil_sqrt_exists(l2 as int);
            assert(l > 0) by (nonlinear_arith)
                requires
                    l * l >= l2,
                    l2 > m * m,
                    m * m >= 0,
            ;
            lemma_scaled_component(x as int, m as int, l as int);
            lemma_scaled_component(y as int, m as int, l as int);
        }
        assert(-0x800_0000_0000_0000 * 0x8000_0000 <= xw * m <= 0x800_0000_0000_0000 * 0x8000_0000)
            by (nonlinear_arith)
            requires
                -0x800_0000_0000_0000 <= xw <= 0x800_0000_0000_0000,
                0 <= m <= 0x7fff_ffff,
        ;
        assert(-0x800_0000_0000_0000 * 0x8000_0000 <= yw * m <= 0x800_0000_0000_0000 * 0x8000_0000)
            by (nonlinear_arith)
            requires
                -0x800_0000_0000_0000 <= yw <= 0x800_0000_0000_0000,
                0 <= m <= 0x7fff_ffff,
        ;
        let rx: i128 = trunc_div_exec(xw * m, l as i128);
        let ry: i128 = trunc_div_exec(yw * m, l as i128);
        Vec2 { x: rx as i32, y: ry as i32 }
    }
}

/// Halves both components (rounding toward zero) until neither exceeds
/// `WIDE_LIMIT` in magnitude, so that the squared length can be measured.
pub open spec fn shrink(x: int, y: int) -> (int, int)
    decreases abs(x) + abs(y),
{
    if abs(x) > WIDE_LIMIT || abs(y) > WIDE_LIMIT {
        shrink(trunc_div(x, 2), trunc_div(y, 2))
    } else {
        (x, y)
    }
}

/// The vector `(x, y)` clamped to length at most `m`: first brought into
/// measurable range by [`shrink`], then shortened by [`clamp_spec`].
pub open spec fn clamp_length_spec(x: int, y: int, m: int) -> (int, int) {
    clamp_spec(shrink(x, y).0, shrink(x, y).1, m)
}

proof fn lemma_shrink(x: int, y: int)
    ensures
        abs(shrink(x, y).0) <= abs(x),
        abs(shrink(x, y).1) <= abs(y),
        shrink(x, y).0 * x >= 0,
        shrink(x, y).1 * y >= 0,
        abs(shrink(x, y).0) <= WIDE_LIMIT,
        abs(shrink(x, y).1) <= WIDE_LIMIT,
    decreases abs(x) + abs(y),
{
    if abs(x) > WIDE_LIMIT || abs(y) > WIDE_LIMIT {
        lemma_shrink(trunc_div(x, 2), trunc_div(y, 2));
        let s = shrink(x, y);
        assert(s.0 * x >= 0 && s.1 * y >= 0) by (nonlinear_arith)
            requires
                s.0 * trunc_div(x, 2) >= 0,
                s.1 * trunc_div(y, 2) >= 0,
                x >= 0 ==> trunc_div(x, 2) >= 0,
                x < 0 ==> trunc_div(x, 2) <= 0,
                y >= 0 ==> trunc_div(y, 2) >= 0,
                y < 0 ==> trunc_div(y, 2) <= 0,
                abs(s.0) <= abs(trunc_div(x, 2)),
                abs(s.1) <= abs(trunc_div(y, 2)),
        ;
    } else {
        assert(x * x >= 0 && y * y >= 0) by (nonlinear_arith);
    }
}

/// Clamping never yields a vector longer than `m`, leaves a vector no longer
/// than `m` as it is, and never grows or flips a component.
pub proof fn lemma_clamp_length_max(x: int, y: int, m: int)
    requires
        0 <= m <= i32::MAX,
    ensures
        clamp_length_spec(x, y, m).0 * clamp_length_spec(x, y, m).0 + clamp_length_spec(x, y, m).1
            * clamp_length_spec(x, y, m).1 <= m * m,
        x * x + y * y <= m * m ==> clamp_length_spec(x, y, m) == (x, y),
        abs(clamp_length_spec(x, y, m).0) <= abs(x),
        abs(clamp_length_spec(x, y, m).1) <= abs(y),
        clamp_length_spec(x, y, m).0 * x >= 0,
        clamp_length_spec(x, y, m).1 * y >= 0,
{
    lemma_shrink(x, y);
    let s = shrink(x, y);
    lemma_clamp_length(s.0, s.1, m);
    let r = clamp_length_spec(x, y, m);
    if x * x + y * y <= m * m {
        assert(abs(x) <= m && abs(y) <= m) by (nonlinear_arith)
            requires
                x * x + y * y <= m * m,
                m >= 0,
        ;
    }
    assert(r.0 * x >= 0 && r.1 * y >= 0) by (nonlinear_arith)
        requires
            r.0 * s.0 >= 0,
            r.1 * s.1 >= 0,
            s.0 * x >= 0,
            s.1 * y >= 0,
            abs(r.0) <= abs(s.0),
            abs(r.1) <= abs(s.1),
    ;
}

/// Clamps `(x, y)` to length at most `max`, keeping its direction as
/// closely as the integer plane allows.
pub fn clamp_length_max(x: i128, y: i128, max: i32) -> (r: Vec2)
    requires
        x > i128::MIN,
        y > i128::MIN,
        0 <= max,
    ensures
        (r.x as int, r.y as int) == clamp_length_spec(x as int, y as int, max as int),
        -max <= r.x <= max,
        -max <= r.y <= max,
{
    let mut a: i128 = x;
    let mut b: i128 = y;
    while a > WIDE_LIMIT as i128 || a < -(WIDE_LIMIT as i128) || b > WIDE_LIMIT as i128 || b < -(
    WIDE_LIMIT as i128)
        invariant
            shrink(a as int, b as int) == shrink(x as int, y as int),
            a > i128::MIN,
            b > i128::MIN,
        decreases abs(a as int) + abs(b as int),
    {
        a = trunc_div_exec(a, 2);
        b = trunc_div_exec(b, 2);
    }
    clamp_measurable(a as i64, b as i64, max)
}

/// A vector of the integer plane.
#[derive(Clone, Copy, Debug, PartialEq, Eq, Structural)]
pub struct Vec2 {
    pub x: i32,
    pub y: i32,
}

impl Vec2 {
    pub fn new(x: i32, y: i32) -> (r: Vec2)
        ensures
            r.x == x,
            r.y == y,
    {
        Vec2 { x, y }
    }

    pub fn zero() -> (r: Vec2)
        ensures
            r.x == 0,
            r.y == 0,
    {
        Vec2 { x: 0, y: 0 }
    }

    pub open spec fn dist2(self, o: Vec2) -> int {
        (self.x - o.x) * (self.x - o.x) + (self.y - o.y) * (self.y - o.y)
    }

    pub open spec fn is_zero(self) -> bool {
        self.x == 0 && self.y == 0
    }

    /// Squared distance between `self` and `o`.
    pub fn distance_squared(self, o: Vec2) -> (r: i128)
        ensures
            r == self.dist2(o),
    {
        let dx: i128 = self.x as i128 - o.x as i128;
        let dy: i128 = self.y as i128 - o.y as i128;
        assert(0 <= dx * dx <= 0x1_0000_0000_0000_0000 && 0 <= dy * dy <= 0x1_0000_0000_0000_0000)
            by (nonlinear_arith)
            requires
                -0x1_0000_0000 <= dx <= 0x1_0000_0000,
                -0x1_0000_0000 <= dy <= 0x1_0000_0000,
        ;
        dx * dx + dy * dy
    }

    /// Whether `a` and `b` are at most `distance` apart.
    pub fn are_closer_than(distance: i32, a: Vec2, b: Vec2) -> (r: bool)
        ensures
            r == (a.dist2(b) <= distance * distance),
    {
        let d: i128 = distance as i128;
        assert(0 <= d * d <= 0x1_0000_0000_0000_0000) by (nonlinear_arith)
            requires
                -0x8000_0000 <= d <= 0x8000_0000,
        ;
        a.distance_squared(b) <= d * d
    }
}

/// A rational factor `num / den`, used for rule strengths and time steps.
#[derive(Clone, Copy, Debug, PartialEq, Eq, Structural)]
pub struct Ratio {
    pub num: i32,
    pub den: i32,
}

impl Ratio {
    pub open spec fn wf(self) -> bool {
        &&& 0 < self.den <= RATIO_LIMIT
        &&& -RATIO_LIMIT <= self.num <= RATIO_LIMIT
    }

    /// `v` times the factor, rounded toward zero.
    pub open spec fn apply(self, v: int) -> int {
        trunc_div(v * self.num, self.den as int)
    }

    /// The factor commutes with negation: opposite values give opposite
    /// results.
    pub proof fn lemma_apply_negate(self, v: int)
        requires
            self.den > 0,
        ensures
            self.apply(-v) == -self.apply(v),
    {
        assert((-v) * self.num == -(v * self.num)) by (nonlinear_arith);
        lemma_trunc_div_negate(v * self.num, self.den as int);
    }

    pub fn new(num: i32, den: i32) -> (r: Ratio)
        ensures
            r.num == num,
            r.den == den,
    {
        Ratio { num, den }
    }

    /// Whether the factor is usable: [`Ratio::wf`].
    pub fn is_valid(&self) -> (r: bool)
        ensures
            r == self.wf(),
    {
        0 < self.den && self.den <= RATIO_LIMIT && -RATIO_LIMIT <= self.num && self.num <= RATIO_LIMIT
    }

    /// Computes [`Ratio::apply`].
    pub fn apply_exec(self, v: i128) -> (r: i128)
        requires
            self.wf(),
            -APPLY_LIMIT <= v <= APPLY_LIMIT,
        ensures
            r == self.apply(v as int),
            -FORCE_LIMIT <= r <= FORCE_LIMIT,
    {
        assert(-APPLY_LIMIT * 0x10000 <= v * self.num <= APPLY_LIMIT * 0x10000) by (nonlinear_arith)
            requires
                -APPLY_LIMIT <= v <= APPLY_LIMIT,
                -0x10000 <= self.num <= 0x10000,
        ;
        let p: i128 = v * self.num as i128;
        let q: i128 = trunc_div_exec(p, self.den as i128);
        proof {
            lemma_trunc_div_bound(p as int, self.den as int);
        }
        q
    }
}

} // verus!
