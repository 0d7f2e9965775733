use vstd::prelude::*;

verus! {

/// A pixel position (possibly off screen).
#[derive(Copy, Clone)]
pub struct Point {
    pub x: i16,
    pub y: i16,
}

/// A displacement together with the anchor it was last drawn from.
#[derive(Copy, Clone)]
pub struct Vector {
    pub delta_x: i16,
    pub delta_y: i16,
    pub last_anchor: Point,
}

/// An axis-aligned filled rectangle with its colour.
#[derive(Copy, Clone)]
pub struct Box {
    pub start: Point,
    pub length_x: u16,
    pub length_y: u16,
    pub color: u16,
}

/// Colours, in the display's 16-bit RGB565 format.
pub const BACKGROUND_COLOR: u16 = 0x11ac;
pub const FIRST_COLOR: u16 = 0xffff;
pub const SECOND_COLOR: u16 = 0xfae0;
pub const THIRD_COLOR: u16 = 0x07e0;
/// Display width and height in pixels.
pub const X_DIM_RES: u16 = 480;
pub const Y_DIM_RES: u16 = 272;
/// Ticks to wait between two toggles of the view mode.
pub const TOGGLE_COOLDOWN: usize = 1500;

pub fn init_point(new_x: i16, new_y: i16) -> (p: Point)
    ensures
        p.x == new_x,
        p.y == new_y,
{
    Point { x: new_x, y: new_y }
}

pub fn init_vector(new_delta_x: i16, new_delta_y: i16) -> (v: Vector)
    ensures
        v.delta_x == new_delta_x,
        v.delta_y == new_delta_y,
        v.last_anchor.x == 0,
        v.last_anchor.y == 0,
{
    Vector { delta_x: new_delta_x, delta_y: new_delta_y, last_anchor: Point { x: 0, y: 0 } }
}

pub fn init_box(new_start: Point, new_length_x: u16, new_length_y: u16, new_color: u16) -> (b: Box)
    ensures
        b.start == new_start,
        b.length_x == new_length_x,
        b.length_y == new_length_y,
        b.color == new_color,
{
    Box { start: new_start, length_x: new_length_x, length_y: new_length_y, color: new_color }
}

// ---------------------------------------------------------------------------
// Integer square root by a fixed-point Newton iteration
// ---------------------------------------------------------------------------

/// The starting guess for the root of `a`, scaled by 1024.
pub open spec fn sqrt_start(a: int) -> int {
    (a * 1024 + 1024) / 2
}

/// One Newton step towards the root of `a * 2^20`, where the quotient is
/// taken at a resolution of 1024.
pub open spec fn sqrt_step(a: int, x: int) -> int {
    (x + ((a * 1024) / x) * 1024) / 2
}

/// The guess after `n` Newton steps.
pub open spec fn sqrt_approx(a: int, n: nat) -> int
    decreases n,
{
    if n == 0 {
        sqrt_start(a)
    } else {
        sqrt_step(a, sqrt_approx(a, (n - 1) as nat))
    }
}

/// The value computed by `sqrt`: ten Newton steps, then the scaled guess is
/// brought back to whole units, rounding halves up.
pub open spec fn fixed_sqrt(a: int) -> int {
    if a <= 0 {
        0
    } else {
        let c = sqrt_approx(a, 10) / 512;
        if c % 2 == 1 {
            (c + 2) / 2
        } else {
            c / 2
        }
    }
}

/// The integer square root: the largest `s` with `s * s <= n`.
pub open spec fn isqrt(n: nat) -> nat
    decreases n,
{
    if n == 0 {
        0
    } else {
        let s = isqrt((n - 1) as nat);
        if (s + 1) * (s + 1) <= n {
            s + 1
        } else {
            s
        }
    }
}

pub proof fn lemma_isqrt(n: nat)
    ensures
        isqrt(n) * isqrt(n) <= n < (isqrt(n) + 1) * (isqrt(n) + 1),
    decreases n,
{
    if n > 0 {
        lemma_isqrt((n - 1) as nat);
        let s = isqrt((n - 1) as nat);
        assert((s + 1) * (s + 1) + 2 * s + 3 == (s + 2) * (s + 2)) by (nonlinear_arith);
        if (s + 1) * (s + 1) <= n {
            let t = isqrt(n);
            assert(t == s + 1);
            assert(t * t <= n < (t + 1) * (t + 1)) by (nonlinear_arith)
                requires
                    t == s + 1,
                    (s + 1) * (s + 1) <= n,
                    n - 1 < (s + 1) * (s + 1),
                    (s + 1) * (s + 1) + 2 * s + 3 == (s + 2) * (s + 2),
            ;
        } else {
            let t = isqrt(n);
            assert(t == s);
            assert(t * t <= n < (t + 1) * (t + 1)) by (nonlinear_arith)
                requires
                    t == s,
                    s * s <= n - 1,
                    n < (s + 1) * (s + 1),
            ;
        }
    } else {
        let t = isqrt(n);
        assert(t == 0);
        assert(t * t <= n < (t + 1) * (t + 1)) by (nonlinear_arith)
            requires
                t == 0,
                n == 0,
        ;
    }
}

/// Rational bounds `num(k) / den(k)` on how far above the root the guess
/// can lie after `k` steps, relative to the root.
spec fn ratio_num(k: nat) -> int {
    if k == 0 { 91 }
    else if k == 1 { 46 }
    else if k == 2 { 23 }
    else if k == 3 { 12 }
    else if k == 4 { 6 }
    else if k == 5 { 3 }
    else if k == 6 { 2 }
    else if k == 7 { 2 }
    else { 1 }
}

spec fn ratio_den(k: nat) -> int {
    if k <= 6 { 1 }
    else if k == 7 { 3 }
    else if k == 8 { 7 }
    else if k == 9 { 100 }
    else { 20000 }
}

proof fn lemma_ratio_table(k: nat)
    requires
        k < 10,
    ensures
        ratio_num(k) > 0,
        ratio_den(k) > 0,
        ratio_num(k + 1) > 0,
        ratio_den(k + 1) > 0,
        ratio_num(k) * ratio_num(k) * ratio_den(k + 1) <= ratio_num(k + 1) * (2 * ratio_den(k) * (
        ratio_den(k) + ratio_num(k))),
{
    if k == 0 {
        assert(ratio_num(0) == 91 && ratio_den(0) == 1);
        assert(ratio_num(1) == 46 && ratio_den(1) == 1);
        assert(ratio_num(k) * ratio_num(k) * ratio_den(k + 1) <= ratio_num(k + 1) * (2 * ratio_den(k) * (ratio_den(k) + ratio_num(k)))) by (nonlinear_arith)
            requires
                ratio_num(k) == 91,
                ratio_den(k) == 1,
                ratio_num(k + 1) == 46,
                ratio_den(k + 1) == 1,
        ;
    } else if k == 1 {
        assert(ratio_num(1) == 46 && ratio_den(1) == 1);
        assert(ratio_num(2) == 23 && ratio_den(2) == 1);
        assert(ratio_num(k) * ratio_num(k) * ratio_den(k + 1) <= ratio_num(k + 1) * (2 * ratio_den(k) * (ratio_den(k) + ratio_num(k)))) by (nonlinear_arith)
            requires
                ratio_num(k) == 46,
                ratio_den(k) == 1,
                ratio_num(k + 1) == 23,
                ratio_den(k + 1) == 1,
        ;
    } else if k == 2 {
        assert(ratio_num(2) == 23 && ratio_den(2) == 1);
        assert(ratio_num(3) == 12 && ratio_den(3) == 1);
        assert(ratio_num(k) * ratio_num(k) * ratio_den(k + 1) <= ratio_num(k + 1) * (2 * ratio_den(k) * (ratio_den(k) + ratio_num(k)))) by (nonlinear_arith)
            requires
                ratio_num(k) == 23,
                ratio_den(k) == 1,
                ratio_num(k + 1) == 12,
                ratio_den(k + 1) == 1,
        ;
    } else if k == 3 {
        assert(ratio_num(3) == 12 && ratio_den(3) == 1);
        assert(ratio_num(4) == 6 && ratio_den(4) == 1);
        assert(ratio_num(k) * ratio_num(k) * ratio_den(k + 1) <= ratio_num(k + 1) * (2 * ratio_den(k) * (ratio_den(k) + ratio_num(k)))) by (nonlinear_arith)
            requires
                ratio_num(k) == 12,
                ratio_den(k) == 1,
                ratio_num(k + 1) == 6,
                ratio_den(k + 1) == 1,
        ;
    } else if k == 4 {
        assert(ratio_num(4) == 6 && ratio_den(4) == 1);
        assert(ratio_num(5) == 3 && ratio_den(5) == 1);
        assert(ratio_num(k) * ratio_num(k) * ratio_den(k + 1) <= ratio_num(k + 1) * (2 * ratio_den(k) * (ratio_den(k) + ratio_num(k)))) by (nonlinear_arith)
            requires
                ratio_num(k) == 6,
                ratio_den(k) == 1,
                ratio_num(k + 1) == 3,
                ratio_den(k + 1) == 1,
        ;
    } else if k == 5 {
        assert(ratio_num(5) == 3 && ratio_den(5) == 1);
        assert(ratio_num(6) == 2 && ratio_den(6) == 1);
        assert(ratio_num(k) * ratio_num(k) * ratio_den(k + 1) <= ratio_num(k + 1) * (2 * ratio_den(k) * (ratio_den(k) + ratio_num(k)))) by (nonlinear_arith)
            requires
                ratio_num(k) == 3,
                ratio_den(k) == 1,
                ratio_num(k + 1) == 2,
                ratio_den(k + 1) == 1,
        ;
    } else if k == 6 {
        assert(ratio_num(6) == 2 && ratio_den(6) == 1);
        assert(ratio_num(7) == 2 && ratio_den(7) == 3);
        assert(ratio_num(k) * ratio_num(k) * ratio_den(k + 1) <= ratio_num(k + 1) * (2 * ratio_den(k) * (ratio_den(k) + ratio_num(k)))) by (nonlinear_arith)
            requires
                ratio_num(k) == 2,
                ratio_den(k) == 1,
                ratio_num(k + 1) == 2,
                ratio_den(k + 1) == 3,
        ;
    } else if k == 7 {
        assert(ratio_num(7) == 2 && ratio_den(7) == 3);
        assert(ratio_num(8) == 1 && ratio_den(8) == 7);
        assert(ratio_num(k) * ratio_num(k) * ratio_den(k + 1) <= ratio_num(k + 1) * (2 * ratio_den(k) * (ratio_den(k) + ratio_num(k)))) by (nonlinear_arith)
            requires
                ratio_num(k) == 2,
                ratio_den(k) == 3,
                ratio_num(k + 1) == 1,
                ratio_den(k + 1) == 7,
        ;
    } else if k == 8 {
        assert(ratio_num(8) == 1 && ratio_den(8) == 7);
        assert(ratio_num(9) == 1 && ratio_den(9) == 100);
        assert(ratio_num(k) * ratio_num(k) * ratio_den(k + 1) <= ratio_num(k + 1) * (2 * ratio_den(k) * (ratio_den(k) + ratio_num(k)))) by (nonlinear_arith)
            requires
                ratio_num(k) == 1,
                ratio_den(k) == 7,
                ratio_num(k + 1) == 1,
                ratio_den(k + 1) == 100,
        ;
    } else {
        assert(k == 9);
        assert(ratio_num(9) == 1 && ratio_den(9) == 100);
        assert(ratio_num(10) == 1 && ratio_den(10) == 20000);
        assert(ratio_num(k) * ratio_num(k) * ratio_den(k + 1) <= ratio_num(k + 1) * (2 * ratio_den(k) * (ratio_den(k) + ratio_num(k)))) by (nonlinear_arith)
            requires
                ratio_num(k) == 1,
                ratio_den(k) == 100,
                ratio_num(k + 1) == 1,
                ratio_den(k + 1) == 20000,
        ;
    }
}

/// Facts common to every Newton step: the step never lands far below the
/// root, and its distance above `m` is at most the square of the previous
/// distance over twice the previous guess.
proof fn lemma_step_basic(a: int, x: int, m: int)
    requires
        a >= 1,
        x >= 1,
        m >= 1,
        (m - 1) * (m - 1) <= a * 1048576,
        a * 1048576 < m * m,
    ensures
        2 * x * (sqrt_step(a, x) - m) <= (x - m) * (x - m),
        sqrt_step(a, x) >= m - 513,
{
    let b = a * 1024;
    let n = a * 1048576;
    let d = b / x;
    let q = d * 1024;
    let y = sqrt_step(a, x);
    assert(b == x * d + b % x && 0 <= b % x < x) by {
        vstd::arithmetic::div_mod::lemma_fundamental_div_mod(b, x);
    }
    assert(x * q <= n) by (nonlinear_arith)
        requires
            b == x * d + b % x,
            0 <= b % x,
            q == d * 1024,
            n == b * 1024,
    ;
    assert(x * q > n - 1024 * x) by (nonlinear_arith)
        requires
            b == x * d + b % x,
            b % x < x,
            q == d * 1024,
            n == b * 1024,
    ;
    assert(x + q - 1 <= 2 * y <= x + q);
    assert(2 * x * (y - m) <= (x - m) * (x - m)) by (nonlinear_arith)
        requires
            2 * y <= x + q,
            x * q <= n,
            n < m * m,
            x >= 1,
    ;
    assert(x * x + n >= 2 * x * (m - 1)) by (nonlinear_arith)
        requires
            (m - 1) * (m - 1) <= n,
    ;
    assert(x + q + 1024 > 2 * (m - 1)) by (nonlinear_arith)
        requires
            x * q > n - 1024 * x,
            x * x + n >= 2 * x * (m - 1),
            x >= 1,
    ;
}

/// Once the guess is within 259 above (or 513 below) the root, it stays
/// within 259 above it.
proof fn lemma_step_near(a: int, x: int, m: int)
    requires
        a >= 1,
        m >= 1025,
        (m - 1) * (m - 1) <= a * 1048576,
        a * 1048576 < m * m,
        m - 513 <= x <= m + 259,
    ensures
        sqrt_step(a, x) - m <= 259,
{
    lemma_step_basic(a, x, m);
    let z = x - m;
    let z2 = sqrt_step(a, x) - m;
    if z2 > 0 {
        assert(z2 <= 259) by (nonlinear_arith)
            requires
                2 * x * z2 <= z * z,
                z2 > 0,
                -513 <= z <= 259,
                x == z + m,
                m >= 1025,
        {
            if z <= 0 {
                assert(2 * 512 * z2 <= 2 * x * z2);
                assert(z * z <= 513 * 513);
            } else {
                assert(2 * 1025 * z2 <= 2 * x * z2);
                assert(z * z <= 259 * 259);
            }
        }
    }
}

/// Far above the root, the relative distance `t = z / m` shrinks to at
/// most `t^2 / (2 (1 + t))`.
proof fn lemma_step_far(a: int, x: int, m: int, tn: int, td: int, tn2: int, td2: int)
    requires
        a >= 1,
        m >= 1,
        (m - 1) * (m - 1) <= a * 1048576,
        a * 1048576 < m * m,
        x >= m,
        tn > 0,
        td > 0,
        tn2 > 0,
        td2 > 0,
        (x - m) * td <= tn * m,
        tn * tn * td2 <= tn2 * (2 * td * (td + tn)),
    ensures
        (sqrt_step(a, x) - m) * td2 <= tn2 * m,
{
    lemma_step_basic(a, x, m);
    let z = x - m;
    let z2 = sqrt_step(a, x) - m;
    if z2 > 0 {
        let w = z * td;
        let v = tn * m;
        assert(z * z * td * (td + tn) <= tn * tn * m * (z + m)) by (nonlinear_arith)
            requires
                0 <= w <= v,
                w == z * td,
                v == tn * m,
                z >= 0,
                tn > 0,
                td > 0,
        {
            assert(w * w <= v * v);
            assert(w * tn * z <= v * tn * z);
            assert(z * z * td * (td + tn) == w * w + w * tn * z);
            assert(tn * tn * m * (z + m) == v * tn * z + v * v);
        }
        assert(z2 * (2 * td * (td + tn)) <= tn * tn * m) by (nonlinear_arith)
            requires
                2 * (z + m) * z2 <= z * z,
                z * z * td * (td + tn) <= tn * tn * m * (z + m),
                z2 > 0,
                z >= 0,
                m >= 1,
                td > 0,
                tn > 0,
        {
            let e = td * (td + tn);
            assert(e > 0);
            assert(2 * (z + m) * z2 * e <= z * z * e);
            assert((z + m) * (z2 * 2 * e) <= (z + m) * (tn * tn * m));
        }
        assert(z2 * td2 <= tn2 * m) by (nonlinear_arith)
            requires
                z2 * (2 * td * (td + tn)) <= tn * tn * m,
                tn * tn * td2 <= tn2 * (2 * td * (td + tn)),
                z2 > 0,
                td2 > 0,
                m >= 1,
                td > 0,
                tn > 0,
        {
            let e = 2 * td * (td + tn);
            assert(e > 0);
            assert(z2 * e * td2 <= tn * tn * m * td2);
            assert(tn * tn * td2 * m <= tn2 * e * m);
            assert(e * (z2 * td2) <= e * (tn2 * m));
        }
    } else {
        assert(z2 * td2 <= 0) by (nonlinear_arith)
            requires
                z2 <= 0,
                td2 > 0,
        ;
        assert(tn2 * m > 0) by (nonlinear_arith)
            requires
                tn2 > 0,
                m >= 1,
        ;
    }
}

/// Where the guess lies after `k` steps, relative to `m = isqrt(a * 2^20) + 1`.
proof fn lemma_approx_bounds(a: int, m: int, k: nat)
    requires
        1 <= a <= 32767,
        m >= 1025,
        (m - 1) * (m - 1) <= a * 1048576,
        a * 1048576 < m * m,
        k <= 10,
    ensures
        sqrt_approx(a, k) >= m - 513,
        sqrt_approx(a, k) - m <= 259 || (sqrt_approx(a, k) - m) * ratio_den(k) <= ratio_num(
            k,
        ) * m,
    decreases k,
{
    if k == 0 {
        let x0 = sqrt_start(a);
        assert(x0 == 512 * (a + 1));
        assert(x0 * x0 >= a * 1048576) by (nonlinear_arith)
            requires
                x0 == 512 * (a + 1),
        {
            assert((a + 1) * (a + 1) >= 4 * a);
        }
        assert(x0 >= m - 1) by (nonlinear_arith)
            requires
                x0 * x0 >= a * 1048576,
                (m - 1) * (m - 1) <= a * 1048576,
                m >= 1,
                x0 >= 0,
        ;
        assert(x0 <= 92 * m) by (nonlinear_arith)
            requires
                x0 == 512 * (a + 1),
                a * 1048576 < m * m,
                1 <= a <= 32767,
                m >= 1,
        {
            assert((a + 1) * (a + 1) <= 33856 * a);
            assert(x0 * x0 <= 8464 * (m * m));
        }
    } else {
        let k1 = (k - 1) as nat;
        lemma_approx_bounds(a, m, k1);
        let x = sqrt_approx(a, k1);
        lemma_ratio_table(k1);
        lemma_step_basic(a, x, m);
        if x - m <= 259 {
            lemma_step_near(a, x, m);
        } else {
            lemma_step_far(a, x, m, ratio_num(k1), ratio_den(k1), ratio_num(k), ratio_den(k));
        }
    }
}

/// An integer `m` just above the true root of `a * 2^20`.
proof fn lemma_root_bracket(a: int) -> (m: int)
    requires
        1 <= a <= 32767,
    ensures
        1025 <= m <= 185364,
        (m - 1) * (m - 1) <= a * 1048576,
        a * 1048576 < m * m,
{
    let n = (a * 1048576) as nat;
    lemma_isqrt(n);
    let m: int = isqrt(n) as int + 1;
    assert(m >= 1025) by (nonlinear_arith)
        requires
            n < m * m,
            n >= 1048576,
            m >= 1,
    ;
    assert(m <= 185364) by (nonlinear_arith)
        requires
            (m - 1) * (m - 1) <= n,
            n <= 32767 * 1048576,
            m >= 1,
    ;
    m
}

/// Every guess stays in a range where the steps of `sqrt` cannot overflow.
proof fn lemma_approx_range(a: int, k: nat)
    requires
        1 <= a <= 32767,
        k <= 10,
    ensures
        512 <= sqrt_approx(a, k) <= 17053488,
{
    let m = lemma_root_bracket(a);
    lemma_approx_bounds(a, m, k);
    let z = sqrt_approx(a, k) - m;
    if z > 259 {
        assert(ratio_num(k) <= 91 * ratio_den(k) && ratio_den(k) >= 1);
        assert(z <= 91 * m) by (nonlinear_arith)
            requires
                z * ratio_den(k) <= ratio_num(k) * m,
                ratio_num(k) <= 91 * ratio_den(k),
                ratio_den(k) >= 1,
                z >= 0,
                m >= 0,
        {
            assert(z * ratio_den(k) <= 91 * ratio_den(k) * m);
        }
    }
}

/// The Newton guess ends within `[m - 513, m + 259]` of the root, so the
/// result of `fixed_sqrt` is within one of the real square root.
pub proof fn lemma_fixed_sqrt_accuracy(a: int)
    requires
        1 <= a <= 32767,
    ensures
        1 <= fixed_sqrt(a) <= 182,
        (fixed_sqrt(a) - 1) * (fixed_sqrt(a) - 1) <= a,
        a < (fixed_sqrt(a) + 1) * (fixed_sqrt(a) + 1),
{
    let m = lemma_root_bracket(a);
    lemma_approx_bounds(a, m, 10);
    let x = sqrt_approx(a, 10);
    assert(x - m <= 259);
    let c = x / 512;
    let r = fixed_sqrt(a);
    assert(512 * c <= x < 512 * c + 512);
    assert(2 * r <= c + 1 && c <= 2 * r);
    assert(1024 * (r + 1) >= m);
    assert(a < (r + 1) * (r + 1)) by (nonlinear_arith)
        requires
            1024 * (r + 1) >= m,
            m >= 1,
            a * 1048576 < m * m,
    ;
    assert(r >= 1) by (nonlinear_arith)
        requires
            a < (r + 1) * (r + 1),
            a >= 1,
            r >= 0,
    ;
    assert(0 <= 1024 * (r - 1) <= m - 253);
    assert((r - 1) * (r - 1) <= a) by (nonlinear_arith)
        requires
            0 <= 1024 * (r - 1) <= m - 253,
            (m - 1) * (m - 1) <= a * 1048576,
    {
        assert(1024 * (r - 1) <= m - 1);
        assert((1024 * (r - 1)) * (1024 * (r - 1)) <= (m - 1) * (m - 1));
    }
}

/// On perfect squares the rounding is exact: the root of `k * k` is `k`.
pub proof fn lemma_fixed_sqrt_exact_on_squares(k: int)
    requires
        1 <= k <= 181,
    ensures
        fixed_sqrt(k * k) == k,
{
    let a = k * k;
    assert(1 <= a <= 32761) by (nonlinear_arith)
        requires
            1 <= k <= 181,
            a == k * k,
    ;
    let m = lemma_root_bracket(a);
    let r = 1024 * k;
    assert(a * 1048576 == r * r) by (nonlinear_arith)
        requires
            a == k * k,
            r == 1024 * k,
    ;
    assert(m == r + 1) by (nonlinear_arith)
        requires
            (m - 1) * (m - 1) <= r * r,
            r * r < m * m,
            m >= 1,
            r >= 0,
    {
        if m - 1 > r {
            assert((m - 1) * (m - 1) > r * r);
        }
        if m <= r {
            assert(m * m <= r * r);
        }
    }
    lemma_approx_bounds(a, m, 10);
    let x = sqrt_approx(a, 10);
    assert(r - 512 <= x <= r + 260);
    let c = x / 512;
    assert(2 * k - 1 <= c <= 2 * k);
}

/// Square root of `a` rounded to a whole number by ten fixed-point Newton
/// steps; `0` for `a <= 0`. The result is within one of the true root.
pub fn sqrt(a: i16) -> (r: i16)
    ensures
        r == fixed_sqrt(a as int),
        a <= 0 ==> r == 0,
        a > 0 ==> 1 <= r <= 182,
        a > 0 ==> (r - 1) * (r - 1) <= a < (r + 1) * (r + 1),
        a > 0 && isqrt(a as nat) * isqrt(a as nat) == a ==> r == isqrt(a as nat),
{
    if a <= 0 {
        return 0;
    }
    proof {
        lemma_fixed_sqrt_accuracy(a as int);
        let k = isqrt(a as nat) as int;
        lemma_isqrt(a as nat);
        if k * k == a {
            assert(1 <= k <= 181) by (nonlinear_arith)
                requires
                    k * k == a,
                    1 <= a <= 32767,
                    k >= 0,
            ;
            lemma_fixed_sqrt_exact_on_squares(k);
        }
    }
    let ghost ai: int = a as int;
    let a64: u64 = a as u64;
    assert(a64 << 10 == a64 * 1024) by (bit_vector)
        requires
            a64 < 32768,
    ;
    let big_a: u64 = a64 << 10;
    assert((1u64 << 10) == 1024) by (bit_vector);
    let start: u64 = big_a + (1 << 10);
    assert(start >> 1 == start / 2) by (bit_vector);
    let mut current_root_approx: u64 = start >> 1;
    proof {
        lemma_approx_range(ai, 0);
    }
    for i in 0..10u32
        invariant
            1 <= ai <= 32767,
            big_a == ai * 1024,
            current_root_approx == sqrt_approx(ai, i as nat),
    {
        proof {
            lemma_approx_range(ai, i as nat);
            lemma_approx_range(ai, (i + 1) as nat);
        }
        let x = current_root_approx;
        let d: u64 = big_a / x;
        assert(d <= 65536) by (nonlinear_arith)
            requires
                d == big_a / x,
                x >= 512,
                big_a <= 32767 * 1024,
        ;
        assert(d << 10 == d * 1024) by (bit_vector)
            requires
                d <= 65536,
        ;
        let sum: u64 = x + (d << 10);
        assert(sum >> 1 == sum / 2) by (bit_vector);
        current_root_approx = sum >> 1;
    }
    let ghost x10 = current_root_approx;
    proof {
        lemma_approx_range(ai, 10);
    }
    assert(current_root_approx >> 9 == current_root_approx / 512) by (bit_vector);
    current_root_approx >>= 9;
    let c = current_root_approx;
    assert(c & 0x1 == c % 2) by (bit_vector);
    if (current_root_approx & 0x1) == 1 {
        current_root_approx += 2;
    }
    let h = current_root_approx;
    assert(h >> 1 == h / 2) by (bit_vector);
    proof {
        assert(c == x10 / 512);
    }
    (current_root_approx >> 1) as i16
}


// ---------------------------------------------------------------------------
// Screen geometry
// ---------------------------------------------------------------------------

/// The value of `v as i16`: `v` read as a two's complement 16-bit number.
pub open spec fn as_i16(v: u16) -> int {
    if v <= 32767 {
        v as int
    } else {
        v as int - 65536
    }
}

proof fn lemma_as_i16(v: u16)
    ensures
        (v as i16) as int == as_i16(v),
{
    if v <= 32767 {
        assert((v as i16) as int == v as int) by (bit_vector)
            requires
                v <= 32767,
        ;
    } else {
        assert((v as i16) as int == v as int - 65536) by (bit_vector)
            requires
                v > 32767,
        ;
    }
}

/// The pixel coordinate `p` clamped to `[0, dim - 1]`, where the border
/// `dim` is read as an `i16`.
pub open spec fn limit_spec(p: int, dim_max: u16) -> int {
    if p < 0 {
        0
    } else if p >= as_i16(dim_max) {
        as_i16(dim_max) - 1
    } else {
        p
    }
}

/// Keeps a pixel coordinate on the display: negative positions become `0`,
/// positions at or past the border `dim_max` become `dim_max - 1`.
pub fn limit(pixel_position: i16, dim_max: u16) -> (r: i16)
    requires
        pixel_position >= 0 && pixel_position >= as_i16(dim_max) ==> dim_max != 32768,
    ensures
        r == limit_spec(pixel_position as int, dim_max),
        1 <= dim_max <= 32767 ==> 0 <= r < dim_max,
        0 <= pixel_position < dim_max <= 32767 ==> r == pixel_position,
        pixel_position < 0 ==> r == 0,
        1 <= dim_max <= 32767 && pixel_position >= dim_max ==> r == dim_max - 1,
{
    proof {
        lemma_as_i16(dim_max);
    }
    if pixel_position < 0 {
        return 0;
    } else if pixel_position >= dim_max as i16 {
        return dim_max as i16 - 1;
    } else {
        return pixel_position;
    }
}

/// Whether `(current_x, current_y)`, each read as an `i16`, lies in the
/// half-open rectangle of the box.
pub open spec fn in_box_spec(current_x: u16, current_y: u16, b: Box) -> bool {
    &&& b.start.x <= as_i16(current_x) < b.start.x + as_i16(b.length_x)
    &&& b.start.y <= as_i16(current_y) < b.start.y + as_i16(b.length_y)
}

/// Every coordinate sum that `is_in_box` forms fits in an `i16`.
pub open spec fn in_box_sums_fit(current_x: u16, current_y: u16, b: Box) -> bool {
    &&& as_i16(current_x) >= b.start.x ==> i16::MIN <= b.start.x + as_i16(b.length_x) <= i16::MAX
    &&& (b.start.x <= as_i16(current_x) < b.start.x + as_i16(b.length_x) && as_i16(current_y)
        >= b.start.y) ==> i16::MIN <= b.start.y + as_i16(b.length_y) <= i16::MAX
}

/// A touch is in a box exactly when its horizontal coordinate lies in
/// `[start.x, start.x + length_x)` and its vertical one in
/// `[start.y, start.y + length_y)`, both read as `i16`.
pub proof fn lemma_in_box_by_axes(current_x: u16, current_y: u16, b: Box)
    ensures
        in_box_spec(current_x, current_y, b) <==> {
            &&& b.start.x <= (current_x as i16) < b.start.x + (b.length_x as i16) as int
            &&& b.start.y <= (current_y as i16) < b.start.y + (b.length_y as i16) as int
        },
{
    lemma_as_i16(current_x);
    lemma_as_i16(current_y);
    lemma_as_i16(b.length_x);
    lemma_as_i16(b.length_y);
}

/// Two boxes that differ only in their width answer alike for every touch
/// whose column lies within both: the vertical extent depends on the start
/// and the height alone. Likewise for two boxes that differ only in their
/// height and a touch whose row lies within both.
pub proof fn lemma_in_box_axes_independent(current_x: u16, current_y: u16, b1: Box, b2: Box)
    requires
        b1.start == b2.start,
        b1.start.x <= as_i16(current_x) < b1.start.x + as_i16(b1.length_x),
        b2.start.x <= as_i16(current_x) < b2.start.x + as_i16(b2.length_x),
        b1.length_y == b2.length_y,
    ensures
        in_box_spec(current_x, current_y, b1) == in_box_spec(current_x, current_y, b2),
        in_box_spec(current_x, current_y, b1) <==> b1.start.y <= as_i16(current_y) < b1.start.y
            + as_i16(b1.length_y),
{
}

/// Whether a touch at `(current_x, current_y)` hits the box.
pub fn is_in_box(current_x: u16, current_y: u16, input_box: &Box) -> (r: bool)
    requires
        in_box_sums_fit(current_x, current_y, *input_box),
    ensures
        r == in_box_spec(current_x, current_y, *input_box),
        ({
            let x = (current_x as i16) as int;
            let y = (current_y as i16) as int;
            let b = *input_box;
            &&& (b.start.x <= x < b.start.x + (b.length_x as i16) as int) ==> (r <==> (b.start.y
                <= y < b.start.y + (b.length_y as i16) as int))
            &&& !(b.start.x <= x < b.start.x + (b.length_x as i16) as int) ==> !r
        }),
        current_x <= 32767 && current_y <= 32767 && input_box.length_x <= 32767
            && input_box.length_y <= 32767 ==> (r <==> (input_box.start.x <= current_x
            < input_box.start.x + input_box.length_x && input_box.start.y <= current_y
            < input_box.start.y + input_box.length_y)),
{
    proof {
        lemma_as_i16(current_x);
        lemma_as_i16(current_y);
        lemma_as_i16(input_box.length_x);
        lemma_as_i16(input_box.length_y);
    }
    if (current_x as i16 >= input_box.start.x) && ((current_x as i16) < (input_box.start.x
        + input_box.length_x as i16)) {
        if (current_y as i16 >= input_box.start.y) && ((current_y as i16) < (input_box.start.y
            + input_box.length_y as i16)) {
            return true;
        }
    }
    return false;
}

/// Sets the vertical component of the vector to `delta_y` and the
/// horizontal one to the root of `126^2 - delta_y^2`, so that the vector
/// keeps a length of about 126 pixels.
pub fn apply_delta_y(input_vector: &mut Vector, delta_y: i16)
    requires
        delta_y * delta_y <= i16::MAX,
    ensures
        final(input_vector).delta_y == delta_y,
        final(input_vector).delta_x == fixed_sqrt(15876 - delta_y * delta_y),
        final(input_vector).last_anchor == old(input_vector).last_anchor,
        0 <= final(input_vector).delta_x <= 127,
        delta_y * delta_y < 15876 ==> {
            let dx = final(input_vector).delta_x as int;
            &&& (dx - 1) * (dx - 1) + delta_y * delta_y <= 15876
            &&& 15876 < (dx + 1) * (dx + 1) + delta_y * delta_y
        },
        delta_y * delta_y >= 15876 ==> final(input_vector).delta_x == 0,
{
    let length: u16 = (Y_DIM_RES / 2) - 10;
    input_vector.delta_y = delta_y;
    assert(0 <= delta_y * delta_y) by (nonlinear_arith);
    let square: i16 = delta_y * delta_y;
    assert(length == 126);
    assert(length * length == 15876) by (nonlinear_arith)
        requires
            length == 126,
    ;
    let raw_delta_x = sqrt((length * length) as i16 - square);
    proof {
        let v = 15876 - delta_y * delta_y;
        if v > 0 {
            assert(raw_delta_x <= 127) by (nonlinear_arith)
                requires
                    (raw_delta_x - 1) * (raw_delta_x - 1) <= v,
                    v <= 15876,
                    raw_delta_x >= 1,
            ;
        }
    }
    input_vector.delta_x = raw_delta_x;
}


// ---------------------------------------------------------------------------
// Drawing: the pixels that the display is asked to colour
// ---------------------------------------------------------------------------

/// One pixel to be coloured on the display.
#[derive(Copy, Clone)]
pub struct Pixel {
    pub x: u16,
    pub y: u16,
    pub color: u16,
}

/// The display pixel for the (possibly off-screen) position `(x, y)`.
pub open spec fn screen_pixel(x: int, y: int, color: u16) -> Pixel {
    Pixel {
        x: limit_spec(x, X_DIM_RES) as u16,
        y: limit_spec(y, Y_DIM_RES) as u16,
        color: color,
    }
}

/// Number of columns (or rows) that a box side of `len` spans.
pub open spec fn side_count(len: u16) -> int {
    if as_i16(len) > 0 {
        as_i16(len)
    } else {
        0
    }
}

/// The ends of both loops of `print_box` fit in an `i16`.
pub open spec fn box_drawable(b: Box) -> bool {
    &&& i16::MIN <= b.start.x + as_i16(b.length_x) <= i16::MAX
    &&& side_count(b.length_x) > 0 ==> i16::MIN <= b.start.y + as_i16(b.length_y) <= i16::MAX
}

/// The pixel that `print_box` emits for column `i` and row `j` of the box.
pub open spec fn box_pixel(b: Box, i: int, j: int) -> Pixel {
    screen_pixel(b.start.x + i, b.start.y + j, b.color)
}

proof fn lemma_screen_limits(p: int)
    ensures
        0 <= limit_spec(p, X_DIM_RES) < 480,
        0 <= limit_spec(p, Y_DIM_RES) < 272,
        0 <= p < 480 ==> limit_spec(p, X_DIM_RES) == p,
        0 <= p < 272 ==> limit_spec(p, Y_DIM_RES) == p,
{
    lemma_as_i16(X_DIM_RES);
    lemma_as_i16(Y_DIM_RES);
}

/// Every pixel placed with `screen_pixel` lies on the display.
pub proof fn lemma_screen_pixel_on_display(x: int, y: int, color: u16)
    ensures
        screen_pixel(x, y, color).x < X_DIM_RES,
        screen_pixel(x, y, color).y < Y_DIM_RES,
        0 <= x < X_DIM_RES ==> screen_pixel(x, y, color).x == x,
        0 <= y < Y_DIM_RES ==> screen_pixel(x, y, color).y == y,
        x < 0 ==> screen_pixel(x, y, color).x == 0,
        y < 0 ==> screen_pixel(x, y, color).y == 0,
        x >= X_DIM_RES ==> screen_pixel(x, y, color).x == X_DIM_RES - 1,
        y >= Y_DIM_RES ==> screen_pixel(x, y, color).y == Y_DIM_RES - 1,
        screen_pixel(x, y, color).color == color,
{
    lemma_as_i16(X_DIM_RES);
    lemma_as_i16(Y_DIM_RES);
    lemma_screen_limits(x);
    lemma_screen_limits(y);
}

/// Column `i`, row `j` of a box is painted in the box's colour, at the
/// position `start + (i, j)` clamped to the display.
pub proof fn lemma_box_pixel(b: Box, i: int, j: int)
    ensures
        box_pixel(b, i, j).color == b.color,
        box_pixel(b, i, j).x < X_DIM_RES,
        box_pixel(b, i, j).y < Y_DIM_RES,
        0 <= b.start.x + i < X_DIM_RES ==> box_pixel(b, i, j).x == b.start.x + i,
        0 <= b.start.y + j < Y_DIM_RES ==> box_pixel(b, i, j).y == b.start.y + j,
        b.start.x + i < 0 ==> box_pixel(b, i, j).x == 0,
        b.start.y + j < 0 ==> box_pixel(b, i, j).y == 0,
        b.start.x + i >= X_DIM_RES ==> box_pixel(b, i, j).x == X_DIM_RES - 1,
        b.start.y + j >= Y_DIM_RES ==> box_pixel(b, i, j).y == Y_DIM_RES - 1,
{
    lemma_screen_pixel_on_display(b.start.x + i, b.start.y + j, b.color);
}

/// The pixels that fill the box, column by column, each clamped to the
/// display. The result holds `side_count(length_x) * side_count(length_y)`
/// pixels; column `i`, row `j` is at position `i * side_count(length_y) + j`.
pub fn print_box(input_box: &Box) -> (out: Vec<Pixel>)
    requires
        box_drawable(*input_box),
    ensures
        out.len() == side_count(input_box.length_x) * side_count(input_box.length_y),
        forall|i: int, j: int|
            0 <= i < side_count(input_box.length_x) && 0 <= j < side_count(input_box.length_y)
                ==> #[trigger] out@[i * side_count(input_box.length_y) + j] == box_pixel(
                *input_box,
                i,
                j,
            ),
        forall|k: int| 0 <= k < out.len() ==> #[trigger] out@[k].x < X_DIM_RES && out@[k].y < Y_DIM_RES,
        forall|k: int| 0 <= k < out.len() ==> #[trigger] out@[k].color == input_box.color,
        ({
            let w = (input_box.length_x as i16) as int;
            let h = (input_box.length_y as i16) as int;
            let cols = if w > 0 { w } else { 0 };
            let rows = if h > 0 { h } else { 0 };
            &&& out.len() == cols * rows
            &&& forall|i: int, j: int|
                0 <= i < cols && 0 <= j < rows ==> {
                    let p = #[trigger] out@[i * rows + j];
                    let x = input_box.start.x + i;
                    let y = input_box.start.y + j;
                    &&& 0 <= x < X_DIM_RES ==> p.x == x
                    &&& x < 0 ==> p.x == 0
                    &&& x >= X_DIM_RES ==> p.x == X_DIM_RES - 1
                    &&& 0 <= y < Y_DIM_RES ==> p.y == y
                    &&& y < 0 ==> p.y == 0
                    &&& y >= Y_DIM_RES ==> p.y == Y_DIM_RES - 1
                }
        }),
{
    proof {
        lemma_as_i16(input_box.length_x);
        lemma_as_i16(input_box.length_y);
    }
    let ghost nx = side_count(input_box.length_x);
    let ghost ny = side_count(input_box.length_y);
    let mut out: Vec<Pixel> = Vec::new();
    let x_end: i16 = input_box.start.x + input_box.length_x as i16;
    let mut x: i16 = input_box.start.x;
    while x < x_end
        invariant
            box_drawable(*input_box),
            nx == side_count(input_box.length_x),
            ny == side_count(input_box.length_y),
            x_end == input_box.start.x + as_i16(input_box.length_x),
            input_box.start.x <= x,
            x < x_end ==> x - input_box.start.x < nx,
            x >= x_end ==> x - input_box.start.x == nx,
            out.len() == (x - input_box.start.x) * ny,
            forall|k: int| 0 <= k < out.len() ==> #[trigger] out@[k].x < X_DIM_RES && out@[k].y < Y_DIM_RES,
            forall|i: int, j: int|
                0 <= i < x - input_box.start.x && 0 <= j < ny ==> #[trigger] out@[i * ny + j]
                    == box_pixel(*input_box, i, j),
        decreases x_end - x,
    {
        let ghost i = x - input_box.start.x;
        proof {
            lemma_as_i16(input_box.length_y);
        }
        let y_end: i16 = input_box.start.y + input_box.length_y as i16;
        let mut y: i16 = input_box.start.y;
        assert(i * ny + ny == (i + 1) * ny) by (nonlinear_arith);
        while y < y_end
            invariant
                box_drawable(*input_box),
                nx == side_count(input_box.length_x),
                ny == side_count(input_box.length_y),
                x_end == input_box.start.x + as_i16(input_box.length_x),
                y_end == input_box.start.y + as_i16(input_box.length_y),
                i == x - input_box.start.x,
                0 <= i < nx,
                x < x_end,
                input_box.start.y <= y,
                y < y_end ==> y - input_box.start.y < ny,
                y >= y_end ==> y - input_box.start.y == ny,
                out.len() == i * ny + (y - input_box.start.y),
                forall|k: int| 0 <= k < out.len() ==> #[trigger] out@[k].x < X_DIM_RES && out@[k].y < Y_DIM_RES,
                forall|i2: int, j: int|
                    0 <= i2 < i && 0 <= j < ny ==> #[trigger] out@[i2 * ny + j] == box_pixel(
                        *input_box,
                        i2,
                        j,
                    ),
                forall|j: int|
                    0 <= j < y - input_box.start.y ==> #[trigger] out@[i * ny + j] == box_pixel(
                        *input_box,
                        i,
                        j,
                    ),
            decreases y_end - y,
        {
            proof {
                lemma_screen_limits(x as int);
                lemma_screen_limits(y as int);
            }
            let px = limit(x, X_DIM_RES) as u16;
            let py = limit(y, Y_DIM_RES) as u16;
            let ghost before = out@;
            out.push(Pixel { x: px, y: py, color: input_box.color });
            proof {
                assert forall|i2: int, j: int|
                    0 <= i2 < i && 0 <= j < ny implies #[trigger] out@[i2 * ny + j] == box_pixel(
                        *input_box,
                        i2,
                        j,
                    ) by {
                    assert(i2 * ny + j < i * ny) by (nonlinear_arith)
                        requires
                            0 <= i2 < i,
                            0 <= j < ny,
                    ;
                    assert(out@[i2 * ny + j] == before[i2 * ny + j]);
                }
            }
            y = y + 1;
        }
        proof {
            assert forall|i2: int, j: int|
                0 <= i2 < i + 1 && 0 <= j < ny implies #[trigger] out@[i2 * ny + j] == box_pixel(
                    *input_box,
                    i2,
                    j,
                ) by {
                if i2 == i {
                } else {
                }
            }
        }
        x = x + 1;
    }
    proof {
        assert forall|i: int, j: int|
            0 <= i < side_count(input_box.length_x) && 0 <= j < side_count(input_box.length_y)
                implies #[trigger] out@[i * side_count(input_box.length_y) + j] == box_pixel(
                *input_box,
                i,
                j,
            ) by {
            assert(out@[i * ny + j] == box_pixel(*input_box, i, j));
        }
    }
    proof {
        assert forall|k: int| 0 <= k < out.len() implies #[trigger] out@[k].color == input_box.color by {
            let i = k / ny;
            let j = k % ny;
            assert(ny > 0) by (nonlinear_arith)
                requires
                    0 <= k < nx * ny,
                    nx >= 0,
                    ny >= 0,
            ;
            vstd::arithmetic::div_mod::lemma_fundamental_div_mod(k, ny);
            assert(k == i * ny + j) by (nonlinear_arith)
                requires
                    k == ny * (k / ny) + k % ny,
                    i == k / ny,
                    j == k % ny,
            ;
            assert(0 <= j < ny);
            assert(0 <= i < nx) by (nonlinear_arith)
                requires
                    k == i * ny + j,
                    0 <= j < ny,
                    0 <= k < nx * ny,
            ;
            assert(out@[i * ny + j] == box_pixel(*input_box, i, j));
            lemma_screen_pixel_on_display(input_box.start.x + i, input_box.start.y + j, input_box.color);
        }
        assert forall|i: int, j: int| 0 <= i < nx && 0 <= j < ny implies {
            let p = #[trigger] out@[i * ny + j];
            let x = input_box.start.x + i;
            let y = input_box.start.y + j;
            &&& 0 <= x < X_DIM_RES ==> p.x == x
            &&& x < 0 ==> p.x == 0
            &&& x >= X_DIM_RES ==> p.x == X_DIM_RES - 1
            &&& 0 <= y < Y_DIM_RES ==> p.y == y
            &&& y < 0 ==> p.y == 0
            &&& y >= Y_DIM_RES ==> p.y == Y_DIM_RES - 1
        } by {
            assert(out@[i * ny + j] == box_pixel(*input_box, i, j));
            lemma_screen_pixel_on_display(input_box.start.x + i, input_box.start.y + j, input_box.color);
        }
    }
    out
}


/// `-1`, `0` or `1` according to the sign of `v`.
pub open spec fn sgn(v: int) -> int {
    if v < 0 {
        -1
    } else if v > 0 {
        1
    } else {
        0
    }
}

pub open spec fn iabs(v: int) -> int {
    if v < 0 {
        -v
    } else {
        v
    }
}

/// Whether the line is drawn column by column (it is wider than tall).
pub open spec fn x_major(v: Vector) -> bool {
    iabs(v.delta_x as int) > iabs(v.delta_y as int)
}

/// Length of the line along its major axis.
pub open spec fn major_len(v: Vector) -> int {
    if x_major(v) {
        iabs(v.delta_x as int)
    } else {
        iabs(v.delta_y as int)
    }
}

/// Length of the line along its minor axis.
pub open spec fn minor_len(v: Vector) -> int {
    if x_major(v) {
        iabs(v.delta_y as int)
    } else {
        iabs(v.delta_x as int)
    }
}

/// Number of steps along the minor axis among the first `k` steps: the
/// error term starts at half the major length and gains the minor length on
/// each step.
pub open spec fn minor_steps(v: Vector, k: int) -> int {
    if major_len(v) == 0 {
        0
    } else {
        (major_len(v) / 2 + k * minor_len(v)) / major_len(v)
    }
}

/// The error term of the line after `k` steps.
pub open spec fn error_term(v: Vector, k: int) -> int {
    if major_len(v) == 0 {
        0
    } else {
        (major_len(v) / 2 + k * minor_len(v)) % major_len(v)
    }
}

/// Horizontal position of the line after `k` steps from `from_x`.
pub open spec fn line_x(v: Vector, from_x: int, k: int) -> int {
    if x_major(v) {
        from_x + k * sgn(v.delta_x as int)
    } else {
        from_x + minor_steps(v, k) * sgn(v.delta_x as int)
    }
}

/// Vertical position of the line after `k` steps from `from_y`.
pub open spec fn line_y(v: Vector, from_y: int, k: int) -> int {
    if x_major(v) {
        from_y + minor_steps(v, k) * sgn(v.delta_y as int)
    } else {
        from_y + k * sgn(v.delta_y as int)
    }
}

/// The pixels of the line of `v` from `(from_x, from_y)`: one per step along
/// the major axis, both ends included, each clamped to the display.
pub open spec fn line_pixels(v: Vector, from_x: int, from_y: int, color: u16) -> Seq<Pixel> {
    Seq::new(
        (major_len(v) + 1) as nat,
        |k: int| screen_pixel(line_x(v, from_x, k), line_y(v, from_y, k), color),
    )
}

/// Every quantity that `print_vector` forms fits in an `i16`: the absolute
/// deltas, the step count, the error term, and the positions up to one step
/// past the end of the line.
pub open spec fn vector_drawable(v: Vector, from_x: int, from_y: int) -> bool {
    &&& v.delta_x != i16::MIN
    &&& v.delta_y != i16::MIN
    &&& major_len(v) < i16::MAX
    &&& forall|k: int|
        0 <= k <= major_len(v) ==> #[trigger] error_term(v, k) + minor_len(v) <= i16::MAX
    &&& i16::MIN <= line_x(v, from_x, major_len(v) + 1) <= i16::MAX
    &&& i16::MIN <= line_y(v, from_y, major_len(v) + 1) <= i16::MAX
}

/// One step of the error term: it either stays below the major length or
/// wraps around once, and the minor position moves exactly when it wraps.
proof fn lemma_line_step(v: Vector, k: int)
    requires
        major_len(v) > 0,
        k >= 0,
        0 <= minor_len(v) <= major_len(v),
    ensures
        0 <= error_term(v, k) < major_len(v),
        minor_steps(v, k) >= 0,
        error_term(v, k) + minor_len(v) >= major_len(v) ==> error_term(v, k + 1) == error_term(v, k)
            + minor_len(v) - major_len(v) && minor_steps(v, k + 1) == minor_steps(v, k) + 1,
        error_term(v, k) + minor_len(v) < major_len(v) ==> error_term(v, k + 1) == error_term(v, k)
            + minor_len(v) && minor_steps(v, k + 1) == minor_steps(v, k),
{
    let l = major_len(v);
    let s = minor_len(v);
    let t = l / 2 + k * s;
    assert(k * s >= 0) by (nonlinear_arith)
        requires
            k >= 0,
            s >= 0,
    ;
    assert((k + 1) * s == k * s + s) by (nonlinear_arith);
    vstd::arithmetic::div_mod::lemma_fundamental_div_mod(t, l);
    let d = t / l;
    let n = t % l;
    assert(d >= 0) by {
        vstd::arithmetic::div_mod::lemma_div_is_ordered(0, t, l);
    }
    assert(t == d * l + n) by (nonlinear_arith)
        requires
            t == l * d + n,
    ;
    if n + s >= l {
        assert(t + s == (d + 1) * l + (n + s - l)) by (nonlinear_arith)
            requires
                t == d * l + n,
        ;
        vstd::arithmetic::div_mod::lemma_fundamental_div_mod_converse(t + s, l, d + 1, n + s - l);
    } else {
        vstd::arithmetic::div_mod::lemma_fundamental_div_mod_converse(t + s, l, d, n + s);
    }
}

/// The minor position never decreases and advances at most once per step.
proof fn lemma_minor_steps_bounds(v: Vector, k: int)
    requires
        0 <= k <= major_len(v) + 1,
        0 <= minor_len(v) <= major_len(v),
    ensures
        0 <= minor_steps(v, k) <= minor_steps(v, major_len(v) + 1),
{
    let l = major_len(v);
    let s = minor_len(v);
    if l > 0 {
        assert(0 <= k * s <= (l + 1) * s) by (nonlinear_arith)
            requires
                0 <= k <= l + 1,
                s >= 0,
        ;
        vstd::arithmetic::div_mod::lemma_div_is_ordered(0, l / 2 + k * s, l);
        vstd::arithmetic::div_mod::lemma_div_is_ordered(l / 2 + k * s, l / 2 + (l + 1) * s, l);
    }
}

/// A position `start + t * s` with `s` a sign lies between the positions at
/// `t = 0` and `t = end`, for `0 <= t <= end`.
proof fn lemma_sign_between(start: int, t: int, end: int, s: int)
    requires
        0 <= t <= end,
        s == -1 || s == 0 || s == 1,
    ensures
        start + end * s <= start + t * s <= start || start <= start + t * s <= start + end * s,
{
    if s == 1 {
        assert(t * s == t && end * s == end) by (nonlinear_arith)
            requires
                s == 1,
        ;
    } else if s == -1 {
        assert(t * s == -t && end * s == -end) by (nonlinear_arith)
            requires
                s == -1,
        ;
    } else {
        assert(t * s == 0 && end * s == 0) by (nonlinear_arith)
            requires
                s == 0,
        ;
    }
}

/// Every position on the way lies between the start and the position one
/// step past the end, so it fits in an `i16` when both ends do.
proof fn lemma_line_in_range(v: Vector, from_x: int, from_y: int, k: int)
    requires
        0 <= k <= major_len(v) + 1,
        0 <= minor_len(v) <= major_len(v),
        i16::MIN <= from_x <= i16::MAX,
        i16::MIN <= from_y <= i16::MAX,
        i16::MIN <= line_x(v, from_x, major_len(v) + 1) <= i16::MAX,
        i16::MIN <= line_y(v, from_y, major_len(v) + 1) <= i16::MAX,
    ensures
        i16::MIN <= line_x(v, from_x, k) <= i16::MAX,
        i16::MIN <= line_y(v, from_y, k) <= i16::MAX,
{
    lemma_minor_steps_bounds(v, k);
    let end = major_len(v) + 1;
    let sx = sgn(v.delta_x as int);
    let sy = sgn(v.delta_y as int);
    if x_major(v) {
        lemma_sign_between(from_x, k, end, sx);
        lemma_sign_between(from_y, minor_steps(v, k), minor_steps(v, end), sy);
    } else {
        lemma_sign_between(from_x, minor_steps(v, k), minor_steps(v, end), sx);
        lemma_sign_between(from_y, k, end, sy);
    }
}

/// Moving one step from step `k`: the major position always advances by its
/// sign, the minor one exactly when `diagonal` holds.
proof fn lemma_line_advance(v: Vector, from_x: int, from_y: int, k: int, diagonal: bool)
    requires
        k >= 0,
        major_len(v) == 0 || minor_steps(v, k + 1) == minor_steps(v, k) + (if diagonal {
            1int
        } else {
            0int
        }),
    ensures
        line_x(v, from_x, k + 1) == line_x(v, from_x, k) + (if x_major(v) || diagonal {
            sgn(v.delta_x as int)
        } else {
            0
        }),
        line_y(v, from_y, k + 1) == line_y(v, from_y, k) + (if !x_major(v) || diagonal {
            sgn(v.delta_y as int)
        } else {
            0
        }),
{
    let d = minor_steps(v, k);
    let sx = sgn(v.delta_x as int);
    let sy = sgn(v.delta_y as int);
    assert((k + 1) * sx == k * sx + sx && (k + 1) * sy == k * sy + sy) by (nonlinear_arith);
    assert((d + 1) * sx == d * sx + sx && (d + 1) * sy == d * sy + sy) by (nonlinear_arith);
    if major_len(v) == 0 {
        assert(sx == 0 && sy == 0);
        assert(d * sx == 0 && minor_steps(v, k + 1) * sx == 0) by (nonlinear_arith)
            requires
                sx == 0,
        ;
    }
}

/// The line starts at the anchor and ends exactly at the anchor moved by the
/// vector's deltas.
pub proof fn lemma_line_endpoints(v: Vector, from_x: int, from_y: int)
    requires
        v.delta_x != i16::MIN,
        v.delta_y != i16::MIN,
    ensures
        line_x(v, from_x, 0) == from_x,
        line_y(v, from_y, 0) == from_y,
        line_x(v, from_x, major_len(v)) == from_x + v.delta_x,
        line_y(v, from_y, major_len(v)) == from_y + v.delta_y,
{
    let l = major_len(v);
    let s = minor_len(v);
    let sx = sgn(v.delta_x as int);
    let sy = sgn(v.delta_y as int);
    assert(0 * sx == 0 && 0 * sy == 0 && 0 * s == 0) by (nonlinear_arith);
    assert(iabs(v.delta_x as int) * sx == v.delta_x && iabs(v.delta_y as int) * sy == v.delta_y)
        by (nonlinear_arith)
        requires
            sx == sgn(v.delta_x as int),
            sy == sgn(v.delta_y as int),
    ;
    if l > 0 {
        assert(l / 2 + l * s == s * l + l / 2) by (nonlinear_arith);
        vstd::arithmetic::div_mod::lemma_fundamental_div_mod_converse(l / 2 + l * s, l, s, l / 2);
        vstd::arithmetic::div_mod::lemma_small_mod((l / 2) as nat, l as nat);
        vstd::arithmetic::div_mod::lemma_basic_div(l / 2, l);
        assert(minor_steps(v, 0) == 0);
        assert(minor_steps(v, l) == s);
    } else {
        assert(v.delta_x == 0 && v.delta_y == 0);
    }
}

/// Consecutive pixels of a line touch: each step moves by at most one in
/// each direction.
pub proof fn lemma_line_connected(v: Vector, from_x: int, from_y: int, k: int)
    requires
        0 <= k,
    ensures
        -1 <= line_x(v, from_x, k + 1) - line_x(v, from_x, k) <= 1,
        -1 <= line_y(v, from_y, k + 1) - line_y(v, from_y, k) <= 1,
{
    if major_len(v) > 0 {
        lemma_line_step(v, k);
        let diagonal = error_term(v, k) + minor_len(v) >= major_len(v);
        lemma_line_advance(v, from_x, from_y, k, diagonal);
    } else {
        lemma_line_advance(v, from_x, from_y, k, false);
    }
}

/// Each pixel of a line is the one nearest to the ideal line on the minor
/// axis: after `k` steps along the major axis, the minor offset times the
/// major length differs from `k` times the minor delta by at most half the
/// major length.
pub proof fn lemma_line_follows_ideal(v: Vector, from_x: int, from_y: int, k: int)
    requires
        0 <= k,
        v.delta_x != i16::MIN,
        v.delta_y != i16::MIN,
    ensures
        ({
            let l = major_len(v);
            let dx = v.delta_x as int;
            let dy = v.delta_y as int;
            &&& iabs(dx) > iabs(dy) ==> {
                &&& line_x(v, from_x, k) == from_x + k * sgn(dx)
                &&& -l <= 2 * (l * (line_y(v, from_y, k) - from_y) - k * dy) <= l
            }
            &&& iabs(dx) <= iabs(dy) ==> {
                &&& line_y(v, from_y, k) == from_y + k * sgn(dy)
                &&& -l <= 2 * (l * (line_x(v, from_x, k) - from_x) - k * dx) <= l
            }
        }),
{
    let l = major_len(v);
    let sm = minor_len(v);
    let d = minor_steps(v, k);
    let dx = v.delta_x as int;
    let dy = v.delta_y as int;
    let sg = if x_major(v) { sgn(dy) } else { sgn(dx) };
    let delta = if x_major(v) { dy } else { dx };
    assert(delta == sm * sg) by (nonlinear_arith)
        requires
            sg == sgn(delta),
            sm == iabs(delta),
    ;
    assert(k * sm >= 0) by (nonlinear_arith)
        requires
            k >= 0,
            sm >= 0,
    ;
    let e = l * d - k * sm;
    if l > 0 {
        let t = l / 2 + k * sm;
        vstd::arithmetic::div_mod::lemma_fundamental_div_mod(t, l);
        assert(l * d <= t < l * d + l);
        assert(-l <= 2 * e <= l);
    } else {
        assert(d == 0 && sm == 0);
        assert(e == 0) by (nonlinear_arith)
            requires
                d == 0,
                sm == 0,
                e == l * d - k * sm,
        ;
    }
    assert(l * (d * sg) - k * delta == sg * e) by (nonlinear_arith)
        requires
            delta == sm * sg,
            e == l * d - k * sm,
    ;
    assert(-l <= 2 * (sg * e) <= l) by (nonlinear_arith)
        requires
            -l <= 2 * e <= l,
            sg == -1 || sg == 0 || sg == 1,
            l >= 0,
    ;
}

/// Bresenham's line algorithm: the pixels of the line of `vec` starting at
/// `(from_x, from_y)`, in drawing order and in `color`. The vector then
/// remembers `(from_x, from_y)` as the anchor it was drawn from.
pub fn print_vector(vec: &mut Vector, from_x: i16, from_y: i16, color: u16) -> (out: Vec<Pixel>)
    requires
        vector_drawable(*old(vec), from_x as int, from_y as int),
    ensures
        out@ == line_pixels(*old(vec), from_x as int, from_y as int, color),
        forall|k: int| 0 <= k < out.len() ==> #[trigger] out@[k].x < X_DIM_RES && out@[k].y < Y_DIM_RES,
        forall|k: int| 0 <= k < out.len() ==> #[trigger] out@[k].color == color,
        out.len() == (if iabs(old(vec).delta_x as int) > iabs(old(vec).delta_y as int) {
            iabs(old(vec).delta_x as int)
        } else {
            iabs(old(vec).delta_y as int)
        }) + 1,
        final(vec).delta_x == old(vec).delta_x,
        final(vec).delta_y == old(vec).delta_y,
        final(vec).last_anchor == (Point { x: from_x, y: from_y }),
{
    let ghost v = *vec;
    let mut sign_start_x: i16 = 0;
    let mut sign_start_y: i16 = 0;
    let mut sign_dest_x: i16 = 0;
    let mut sign_dest_y: i16 = 0;
    if vec.delta_x < 0 {
        sign_start_x = -1;
        sign_dest_x = -1;
    } else if vec.delta_x > 0 {
        sign_start_x = 1;
        sign_dest_x = 1;
    }
    if vec.delta_y < 0 {
        sign_start_y = -1;
    } else if vec.delta_y > 0 {
        sign_start_y = 1;
    }
    let abs_delta_x: i16 = if vec.delta_x < 0 { -vec.delta_x } else { vec.delta_x };
    let abs_delta_y: i16 = if vec.delta_y < 0 { -vec.delta_y } else { vec.delta_y };
    let mut longest: i16 = abs_delta_x;
    let mut shortest: i16 = abs_delta_y;
    if !(longest > shortest) {
        longest = shortest;
        shortest = abs_delta_x;
        if vec.delta_y < 0 {
            sign_dest_y = -1;
        } else if vec.delta_y > 0 {
            sign_dest_y = 1;
        }
        sign_dest_x = 0;
    }
    assert(longest >> 1 == longest / 2) by (bit_vector)
        requires
            longest >= 0,
    ;
    let mut numerator: i16 = longest >> 1;
    let mut current_x: i16 = from_x;
    let mut current_y: i16 = from_y;
    let mut out: Vec<Pixel> = Vec::new();
    let steps: i16 = longest + 1;
    let mut k: i16 = 0;
    proof {
        if longest > 0 {
            vstd::arithmetic::div_mod::lemma_small_mod((longest / 2) as nat, longest as nat);
            vstd::arithmetic::div_mod::lemma_basic_div(longest / 2, longest as int);
        }
        assert(0 * (shortest as int) == 0) by (nonlinear_arith);
    }
    while k < steps
        invariant
            vec.delta_x == v.delta_x,
            vec.delta_y == v.delta_y,
            vector_drawable(v, from_x as int, from_y as int),
            longest == major_len(v),
            shortest == minor_len(v),
            0 <= shortest <= longest,
            steps == longest + 1,
            0 <= k <= steps,
            sign_start_x == sgn(v.delta_x as int),
            sign_start_y == sgn(v.delta_y as int),
            x_major(v) ==> sign_dest_x == sgn(v.delta_x as int) && sign_dest_y == 0,
            !x_major(v) ==> sign_dest_x == 0 && sign_dest_y == sgn(v.delta_y as int),
            numerator == error_term(v, k as int),
            current_x == line_x(v, from_x as int, k as int),
            current_y == line_y(v, from_y as int, k as int),
            out.len() == k,
            forall|j: int|
                0 <= j < k ==> #[trigger] out@[j] == screen_pixel(
                    line_x(v, from_x as int, j),
                    line_y(v, from_y as int, j),
                    color,
                ),
        decreases steps - k,
    {
        proof {
            lemma_screen_limits(current_x as int);
            lemma_screen_limits(current_y as int);
            lemma_line_in_range(v, from_x as int, from_y as int, k + 1);
        }
        let px = limit(current_x, X_DIM_RES) as u16;
        let py = limit(current_y, Y_DIM_RES) as u16;
        out.push(Pixel { x: px, y: py, color: color });
        proof {
            if longest > 0 {
                lemma_line_step(v, k as int);
            }
        }
        assert(error_term(v, k as int) + minor_len(v) <= i16::MAX);
        numerator += shortest;
        if !(numerator < longest) {
            proof {
                lemma_line_advance(v, from_x as int, from_y as int, k as int, true);
            }
            numerator -= longest;
            current_x += sign_start_x;
            current_y += sign_start_y;
        } else {
            proof {
                lemma_line_advance(v, from_x as int, from_y as int, k as int, false);
            }
            current_x += sign_dest_x;
            current_y += sign_dest_y;
        }
        k = k + 1;
    }
    vec.last_anchor.x = from_x;
    vec.last_anchor.y = from_y;
    assert(out@ =~= line_pixels(v, from_x as int, from_y as int, color));
    assert forall|k: int| 0 <= k < out.len() implies #[trigger] out@[k].x < X_DIM_RES && out@[k].y
        < Y_DIM_RES by {
        lemma_screen_pixel_on_display(line_x(v, from_x as int, k), line_y(v, from_y as int, k), color);
    }
    assert forall|k: int| 0 <= k < out.len() implies #[trigger] out@[k].color == color by {
        lemma_screen_pixel_on_display(line_x(v, from_x as int, k), line_y(v, from_y as int, k), color);
    }
    out
}


/// Removes the vector from the display by drawing it again, from the anchor
/// it was last drawn from, in the background colour.
pub fn remove_vector(vec: &mut Vector) -> (out: Vec<Pixel>)
    requires
        vector_drawable(
            *old(vec),
            old(vec).last_anchor.x as int,
            old(vec).last_anchor.y as int,
        ),
    ensures
        out@ == line_pixels(
            *old(vec),
            old(vec).last_anchor.x as int,
            old(vec).last_anchor.y as int,
            BACKGROUND_COLOR,
        ),
        forall|k: int| 0 <= k < out.len() ==> #[trigger] out@[k].x < X_DIM_RES && out@[k].y < Y_DIM_RES,
        forall|k: int| 0 <= k < out.len() ==> #[trigger] out@[k].color == BACKGROUND_COLOR,
        *final(vec) == *old(vec),
{
    let from_x = vec.last_anchor.x;
    let from_y = vec.last_anchor.y;
    print_vector(vec, from_x, from_y, BACKGROUND_COLOR)
}

/// Removing a vector right after drawing it repaints, in the background
/// colour, exactly the pixels that the drawing coloured, in the same order;
/// and the removal is possible whenever the drawing was.
pub proof fn lemma_remove_undoes_print(v: Vector, from_x: i16, from_y: i16, color: u16)
    requires
        vector_drawable(v, from_x as int, from_y as int),
    ensures
        ({
            let drawn_vec = Vector { last_anchor: Point { x: from_x, y: from_y }, ..v };
            let drawn = line_pixels(v, from_x as int, from_y as int, color);
            let erased = line_pixels(
                drawn_vec,
                drawn_vec.last_anchor.x as int,
                drawn_vec.last_anchor.y as int,
                BACKGROUND_COLOR,
            );
            &&& vector_drawable(
                drawn_vec,
                drawn_vec.last_anchor.x as int,
                drawn_vec.last_anchor.y as int,
            )
            &&& erased.len() == drawn.len()
            &&& forall|k: int|
                0 <= k < drawn.len() ==> {
                    &&& #[trigger] erased[k].x == drawn[k].x
                    &&& erased[k].y == drawn[k].y
                    &&& erased[k].color == BACKGROUND_COLOR
                }
        }),
{
    let drawn_vec = Vector { last_anchor: Point { x: from_x, y: from_y }, ..v };
    assert(major_len(drawn_vec) == major_len(v));
    assert(minor_len(drawn_vec) == minor_len(v));
    assert forall|k: int| true implies #[trigger] error_term(drawn_vec, k) == error_term(v, k)
        && minor_steps(drawn_vec, k) == minor_steps(v, k) && line_x(
        drawn_vec,
        from_x as int,
        k,
    ) == line_x(v, from_x as int, k) && line_y(drawn_vec, from_y as int, k) == line_y(
        v,
        from_y as int,
        k,
    ) by {}
}


/// Any vector of at most 1000 pixels per axis can be drawn from any anchor
/// within 10000 pixels of the origin: no quantity of `print_vector`
/// overflows.
pub proof fn lemma_short_vector_drawable(v: Vector, from_x: int, from_y: int)
    requires
        -1000 <= v.delta_x <= 1000,
        -1000 <= v.delta_y <= 1000,
        -10000 <= from_x <= 10000,
        -10000 <= from_y <= 10000,
    ensures
        vector_drawable(v, from_x, from_y),
{
    let l = major_len(v);
    let s = minor_len(v);
    assert forall|k: int| 0 <= k <= l implies #[trigger] error_term(v, k) + s <= i16::MAX by {
        if l > 0 {
            lemma_line_step(v, k);
        }
    }
    let end = l + 1;
    if l > 0 {
        assert(end * s <= end * l) by (nonlinear_arith)
            requires
                0 <= s <= l,
                end >= 0,
        ;
        assert(l / 2 + end * s <= (end + 1) * l) by (nonlinear_arith)
            requires
                end * s <= end * l,
                l > 0,
        ;
        vstd::arithmetic::div_mod::lemma_div_is_ordered(l / 2 + end * s, (end + 1) * l, l);
        vstd::arithmetic::div_mod::lemma_div_multiples_vanish(end + 1, l);
        assert((end + 1) * l == l * (end + 1)) by (nonlinear_arith);
    }
    lemma_minor_steps_bounds(v, end);
    let m = minor_steps(v, end);
    assert(0 <= m <= end + 1);
    lemma_sign_between(from_x, end, end, sgn(v.delta_x as int));
    lemma_sign_between(from_x, m, m, sgn(v.delta_x as int));
    lemma_sign_between(from_y, end, end, sgn(v.delta_y as int));
    lemma_sign_between(from_y, m, m, sgn(v.delta_y as int));
}
} // verus!
