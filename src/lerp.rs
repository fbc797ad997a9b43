//! Fixed-point interpolation between two values.
use vstd::prelude::*;

verus! {

/// The fixed-point unit: a fraction `f` stands for `f / ONE`.
pub const ONE: i64 = 65536;

/// Bound on the magnitude of every argument of the interpolation helpers.
pub const LIM: i64 = 1099511627776;

/// Floor of `a / b` for any nonzero `b`.
pub open spec fn floor_div(a: int, b: int) -> int {
    if b > 0 {
        a / b
    } else {
        (-a) / (-b)
    }
}

/// `a / b` rounded to the nearest integer (halves upward), for any nonzero
/// `b`.
pub open spec fn round_div(a: int, b: int) -> int {
    floor_div(2 * a + b, 2 * b)
}

/// `x` can be held in an `i64`.
pub open spec fn fits(x: int) -> bool {
    i64::MIN <= x <= i64::MAX
}

pub open spec fn in_lim(x: i64) -> bool {
    -LIM <= x <= LIM
}

/// `t` lies between `lo` and `hi`, in either order.
pub open spec fn between(t: int, lo: int, hi: int) -> bool {
    (lo <= t <= hi) || (hi <= t <= lo)
}

/// Where `t` sits between `min` and `max`, as a Q16 fraction.
pub open spec fn inv_lerp_spec(t: int, min: int, max: int) -> int {
    round_div((t - min) * ONE, max - min)
}

/// The value at Q16 fraction `t` of the way from `min` to `max`.
pub open spec fn lerp_spec(t: int, min: int, max: int) -> int {
    min + round_div(t * (max - min), ONE as int)
}

/// The linear map taking `tmin` to `min` and `tmax` to `max`, applied to `t`.
pub open spec fn lerp_as_spec(t: int, tmin: int, tmax: int, min: int, max: int) -> int {
    min + round_div((t - tmin) * (max - min), tmax - tmin)
}

/// Like `lerp_as_spec`, with the position squared: an eased curve.
pub open spec fn quadratic_spec(t: int, tmin: int, tmax: int, min: int, max: int) -> int {
    min + round_div((t - tmin) * (t - tmin) * (max - min), (tmax - tmin) * (tmax - tmin))
}

proof fn lemma_floor_div_bounds(a: int, b: int)
    requires
        b > 0,
    ensures
        b * (a / b) <= a < b * (a / b) + b,
{
    vstd::arithmetic::div_mod::lemma_fundamental_div_mod(a, b);
}

/// Floor division of `a` by `b`.
pub(crate) fn floor_div_exec(a: i128, b: i128) -> (r: i128)
    requires
        b != 0,
        -0x4000_0000_0000_0000_0000_0000_0000_0000 < a < 0x4000_0000_0000_0000_0000_0000_0000_0000,
        -0x4000_0000_0000_0000_0000_0000_0000_0000 < b < 0x4000_0000_0000_0000_0000_0000_0000_0000,
    ensures
        r == floor_div(a as int, b as int),
{
    let (n, d) = if b > 0 { (a, b) } else { (-a, -b) };
    assert(floor_div(a as int, b as int) == (n as int) / (d as int));
    if n >= 0 {
        ((n as u128) / (d as u128)) as i128
    } else {
        let m: u128 = (-n) as u128;
        let q: u128 = (m + (d as u128) - 1) / (d as u128);
        proof {
            let qi = q as int;
            let ni = n as int;
            let di = d as int;
            lemma_floor_div_bounds(m + di - 1, di);
            lemma_floor_div_bounds(ni, di);
            let f = ni / di;
            assert(di * f <= ni < di * f + di);
            assert(di * qi <= -ni + di - 1 < di * qi + di);
            assert(-qi == f) by (nonlinear_arith)
                requires
                    di * f <= ni < di * f + di,
                    di * qi <= -ni + di - 1 < di * qi + di,
                    di > 0,
            {
                assert(di * (f + qi) <= di - 1);
                assert(di * (f + qi) > -di);
            }
        }
        -(q as i128)
    }
}

/// `a / b` rounded to the nearest integer, halves upward.
fn round_div_exec(a: i128, b: i128) -> (r: i128)
    requires
        b != 0,
        -0x1000_0000_0000_0000_0000_0000_0000_0000 < a < 0x1000_0000_0000_0000_0000_0000_0000_0000,
        -0x1000_0000_0000_0000_0000_0000_0000_0000 < b < 0x1000_0000_0000_0000_0000_0000_0000_0000,
    ensures
        r == round_div(a as int, b as int),
{
    floor_div_exec(2 * a + b, 2 * b)
}

/// Where `t` sits relative to `min` and `max`, as a Q16 fraction (0 at
/// `min`, `ONE` at `max`, beyond those outside the range), rounded to nearest.
pub fn inv_lerp(t: i64, min: i64, max: i64) -> (r: i64)
    requires
        in_lim(t),
        in_lim(min),
        in_lim(max),
        min != max,
    ensures
        r == inv_lerp_spec(t as int, min as int, max as int),
        between(t as int, min as int, max as int) ==> 0 <= r <= ONE,
{
    proof {
        lemma_abs_mul_le((t - min) as int, ONE as int, 0x200_0000_0000, ONE as int);
    }
    let num: i128 = (t as i128 - min as i128) * (ONE as i128);
    let den: i128 = max as i128 - min as i128;
    let r = round_div_exec(num, den);
    proof {
        lemma_floor_div_shrinks(2 * num + den, 2 * den);
        if between(t as int, min as int, max as int) {
            lemma_round_unit((t - min) as int, (max - min) as int, ONE as int);
        }
    }
    r as i64
}

/// `x * k / d`, rounded, lies between 0 and `k` when `x / d` lies in the
/// unit interval.
proof fn lemma_round_unit(x: int, d: int, k: int)
    requires
        d != 0,
        (0 <= x <= d) || (d <= x <= 0),
    ensures
        between(round_div(x * k, d), 0, k),
{
    let (n, e) = if d > 0 { (x, d) } else { (-x, -d) };
    assert(2 * x * k + d == 2 * (x * k) + d) by (nonlinear_arith);
    if d < 0 {
        assert(-(2 * (x * k) + d) == 2 * (n * k) + e) by (nonlinear_arith)
            requires n == -x, e == -d;
        assert(round_div(x * k, d) == (2 * (n * k) + e) / (2 * e));
    } else {
        assert(round_div(x * k, d) == (2 * (n * k) + e) / (2 * e));
    }
    assert(0 <= n <= e);
    lemma_floor_div_bounds(2 * (n * k) + e, 2 * e);
    let f = (2 * (n * k) + e) / (2 * e);
    if k >= 0 {
        assert(0 <= n * k <= e * k) by (nonlinear_arith)
            requires 0 <= n <= e, k >= 0;
        assert(0 <= f <= k) by (nonlinear_arith)
            requires
                2 * e * f <= 2 * (n * k) + e < 2 * e * f + 2 * e,
                0 <= n * k <= e * k,
                e > 0;
    } else {
        assert(e * k <= n * k <= 0) by (nonlinear_arith)
            requires 0 <= n <= e, k < 0;
        assert(k <= f <= 0) by (nonlinear_arith)
            requires
                2 * e * f <= 2 * (n * k) + e < 2 * e * f + 2 * e,
                e * k <= n * k <= 0,
                e > 0;
    }
}

/// The value at Q16 fraction `t` of the way from `min` to `max` (beyond
/// them for a fraction outside 0 to `ONE`), rounded to nearest.
pub fn lerp(t: i64, min: i64, max: i64) -> (r: i64)
    requires
        in_lim(t),
        in_lim(min),
        in_lim(max),
        fits(lerp_spec(t as int, min as int, max as int)),
    ensures
        r == lerp_spec(t as int, min as int, max as int),
        0 <= t <= ONE ==> between(r as int, min as int, max as int),
{
    proof {
        lemma_abs_mul_le(t as int, (max - min) as int, 0x100_0000_0000, 0x200_0000_0000);
    }
    let num: i128 = (t as i128) * (max as i128 - min as i128);
    let q = round_div_exec(num, ONE as i128);
    proof {
        if 0 <= t <= ONE {
            lemma_between_offset(t as int, ONE as int, min as int, max as int);
        }
    }
    (min as i128 + q) as i64
}

/// The linear map that takes `tmin` to `min` and `tmax` to `max`, applied to
/// `t` and rounded to nearest.
pub fn lerp_as(t: i64, tmin: i64, tmax: i64, min: i64, max: i64) -> (r: i64)
    requires
        in_lim(t),
        in_lim(tmin),
        in_lim(tmax),
        in_lim(min),
        in_lim(max),
        tmin != tmax,
        fits(lerp_as_spec(t as int, tmin as int, tmax as int, min as int, max as int)),
    ensures
        r == lerp_as_spec(t as int, tmin as int, tmax as int, min as int, max as int),
        between(t as int, tmin as int, tmax as int) ==> between(r as int, min as int, max as int),
{
    proof {
        lemma_abs_mul_le((t - tmin) as int, (max - min) as int, 0x200_0000_0000, 0x200_0000_0000);
    }
    let num: i128 = (t as i128 - tmin as i128) * (max as i128 - min as i128);
    let den: i128 = tmax as i128 - tmin as i128;
    let q = round_div_exec(num, den);
    proof {
        if between(t as int, tmin as int, tmax as int) {
            lemma_between_offset((t - tmin) as int, (tmax - tmin) as int, min as int, max as int);
        }
    }
    (min as i128 + q) as i64
}

/// Like `lerp_as`, but with the position squared before the map: an eased
/// curve that starts flat at `tmin`.
pub fn quadratic_interpolate_as(t: i64, tmin: i64, tmax: i64, min: i64, max: i64) -> (r: i64)
    requires
        in_lim(t),
        in_lim(tmin),
        in_lim(tmax),
        in_lim(min),
        in_lim(max),
        tmin != tmax,
        fits(quadratic_spec(t as int, tmin as int, tmax as int, min as int, max as int)),
    ensures
        r == quadratic_spec(t as int, tmin as int, tmax as int, min as int, max as int),
        between(t as int, tmin as int, tmax as int) ==> between(r as int, min as int, max as int),
{
    let x: i128 = t as i128 - tmin as i128;
    let d: i128 = tmax as i128 - tmin as i128;
    proof {
        lemma_abs_mul_le(x as int, x as int, 0x200_0000_0000, 0x200_0000_0000);
        lemma_abs_mul_le(d as int, d as int, 0x200_0000_0000, 0x200_0000_0000);
    }
    let xx: i128 = x * x;
    let dd: i128 = d * d;
    proof {
        lemma_abs_mul_le(xx as int, (max - min) as int, 0x4_0000_0000_0000_0000_0000, 0x200_0000_0000);
        assert(dd > 0) by (nonlinear_arith)
            requires dd == d * d, d != 0;
    }
    let num: i128 = xx * (max as i128 - min as i128);
    let q = round_div_exec(num, dd);
    proof {
        if between(t as int, tmin as int, tmax as int) {
            lemma_quadratic_between(t as int, tmin as int, tmax as int, min as int, max as int);
        }
    }
    (min as i128 + q) as i64
}

/// `quadratic_spec` lands between its two ends when `t` lies between `tmin`
/// and `tmax`.
pub proof fn lemma_quadratic_between(t: int, tmin: int, tmax: int, min: int, max: int)
    requires
        tmin != tmax,
        between(t, tmin, tmax),
    ensures
        between(quadratic_spec(t, tmin, tmax, min, max), min, max),
{
    let x = t - tmin;
    let d = tmax - tmin;
    assert(0 <= x * x <= d * d) by (nonlinear_arith)
        requires (0 <= x <= d) || (d <= x <= 0);
    assert(d * d > 0) by (nonlinear_arith)
        requires d != 0;
    lemma_between_offset(x * x, d * d, min, max);
}

/// `|floor(a / b)| <= |a|` for any nonzero `b`.
proof fn lemma_floor_div_shrinks(a: int, b: int)
    requires
        b != 0,
    ensures
        a >= 0 ==> -a <= floor_div(a, b) <= a,
        a < 0 ==> a <= floor_div(a, b) <= -a,
{
    let (n, e) = if b > 0 { (a, b) } else { (-a, -b) };
    assert(floor_div(a, b) == n / e);
    lemma_floor_div_bounds(n, e);
    let q = n / e;
    assert(-(if n >= 0 { n } else { -n }) <= q <= (if n >= 0 { n } else { -n })) by (nonlinear_arith)
        requires e * q <= n < e * q + e, e >= 1;
}

/// `lerp_as_spec` lands between its two ends when `t` lies between `tmin`
/// and `tmax`.
pub proof fn lemma_lerp_as_between(t: int, tmin: int, tmax: int, min: int, max: int)
    requires
        tmin != tmax,
        between(t, tmin, tmax),
    ensures
        between(lerp_as_spec(t, tmin, tmax, min, max), min, max),
{
    lemma_between_offset(t - tmin, tmax - tmin, min, max);
}

/// `|a * b| <= ka * kb` when `|a| <= ka` and `|b| <= kb`.
proof fn lemma_abs_mul_le(a: int, b: int, ka: int, kb: int)
    requires
        -ka <= a <= ka,
        -kb <= b <= kb,
    ensures
        -(ka * kb) <= a * b <= ka * kb,
{
    assert(-(ka * kb) <= a * b <= ka * kb) by (nonlinear_arith)
        requires -ka <= a <= ka, -kb <= b <= kb;
}

/// `min + x * (max - min) / d`, rounded, lies between `min` and `max` when
/// `x / d` lies in the unit interval.
proof fn lemma_between_offset(x: int, d: int, min: int, max: int)
    requires
        d != 0,
        (0 <= x <= d) || (d <= x <= 0),
    ensures
        between(min + round_div(x * (max - min), d), min, max),
{
    lemma_round_unit(x, d, max - min);
}

} // verus!
