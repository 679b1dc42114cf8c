//! The perceptual color-difference metrics.
//!
//! Both metrics are integer valued so that every comparison is exact.
//!
//! - [`DifferenceFn::Rgb`]: the sum of the absolute per-channel differences,
//!   with range `0 ..= 765`.
//! - [`DifferenceFn::Redmean`]: a perceptually weighted metric. For channel
//!   deltas `dr, dg, db` and `r' = (a.r + b.r) / 2` the classical form is
//!   `sqrt((2 + r'/256)*dr^2 + 4*dg^2 + (2 + (255 - r')/256)*db^2)`.
//!   Multiplying the radicand by 512 clears the fractions, so this metric
//!   returns `isqrt(512 * radicand)`: the classical value scaled by
//!   `sqrt(512)`, which preserves its ordering. Its documented range is
//!   `0 ..= 17309` (765 scaled by `sqrt(512)`, the counterpart of the
//!   classical `~765`); no value exceeds 18239.
//!
//! A tolerance is given in milli-percent (thousandths of a percent) of a
//! metric's documented range: a difference `d` exceeds a tolerance `t` iff
//! `d * 100_000 > t * range`, compared exactly in integers.

use vstd::prelude::*;

use crate::color::Color;

verus! {

/// Which color-difference metric to use.
#[derive(Clone, Copy, PartialEq, Eq, Structural, Debug)]
pub enum DifferenceFn {
    Rgb,
    Redmean,
}

/// The absolute difference of two integers.
pub open spec fn abs_diff(a: int, b: int) -> int {
    if a >= b {
        a - b
    } else {
        b - a
    }
}

/// The linear-sum metric: `|a.r - b.r| + |a.g - b.g| + |a.b - b.b|`.
pub open spec fn rgb_diff(a: Color, b: Color) -> int {
    abs_diff(a.r as int, b.r as int) + abs_diff(a.g as int, b.g as int) + abs_diff(
        a.b as int,
        b.b as int,
    )
}

/// The redmean radicand scaled by 512: with `rsum = a.r + b.r`, this is
/// `(1024 + rsum)*dr^2 + 2048*dg^2 + (1534 - rsum)*db^2`.
pub open spec fn redmean_radicand(a: Color, b: Color) -> int {
    let rsum = a.r + b.r;
    let dr = abs_diff(a.r as int, b.r as int);
    let dg = abs_diff(a.g as int, b.g as int);
    let db = abs_diff(a.b as int, b.b as int);
    (1024 + rsum) * (dr * dr) + 2048 * (dg * dg) + (1534 - rsum) * (db * db)
}

/// The integer square root: the greatest `r` with `r * r <= n`.
pub open spec fn isqrt_spec(n: int) -> int
    decreases n,
{
    if n <= 0 {
        0
    } else {
        let r = isqrt_spec(n - 1);
        if (r + 1) * (r + 1) <= n {
            r + 1
        } else {
            r
        }
    }
}

/// What a metric returns on a pair of colors.
pub open spec fn metric_spec(m: DifferenceFn, a: Color, b: Color) -> int {
    match m {
        DifferenceFn::Rgb => rgb_diff(a, b),
        DifferenceFn::Redmean => isqrt_spec(redmean_radicand(a, b)),
    }
}

/// The documented range of a metric, against which tolerances are scaled.
pub open spec fn metric_range(m: DifferenceFn) -> int {
    match m {
        DifferenceFn::Rgb => 765,
        DifferenceFn::Redmean => 17309,
    }
}

/// No metric value exceeds this, whichever metric is chosen.
pub open spec fn max_metric() -> int {
    18239
}

/// Whether a difference `d` exceeds a tolerance of `tol_milli` milli-percent
/// of the metric's range.
pub open spec fn exceeds_spec(m: DifferenceFn, tol_milli: int, d: int) -> bool {
    d * 100_000 > tol_milli * metric_range(m)
}

proof fn lemma_isqrt_bracket(n: int)
    ensures
        0 <= isqrt_spec(n),
        isqrt_spec(n) * isqrt_spec(n) <= if n >= 0 {
            n
        } else {
            0
        },
        n < (isqrt_spec(n) + 1) * (isqrt_spec(n) + 1),
    decreases n,
{
    if n <= 0 {
        assert(isqrt_spec(n) == 0);
    } else {
        lemma_isqrt_bracket(n - 1);
        let r = isqrt_spec(n - 1);
        assert(r * r <= n - 1);
        assert(n - 1 < (r + 1) * (r + 1));
        if (r + 1) * (r + 1) <= n {
            assert(isqrt_spec(n) == r + 1);
            assert(n < (r + 1 + 1) * (r + 1 + 1)) by (nonlinear_arith)
                requires
                    n <= (r + 1) * (r + 1),
                    r >= 0,
            ;
        } else {
            assert(isqrt_spec(n) == r);
        }
    }
}

proof fn lemma_isqrt_unique(n: int, r: int)
    requires
        0 <= r,
        r * r <= n,
        n < (r + 1) * (r + 1),
    ensures
        r == isqrt_spec(n),
{
    let s = isqrt_spec(n);
    lemma_isqrt_bracket(n);
    if r < s {
        assert((r + 1) * (r + 1) <= s * s) by (nonlinear_arith)
            requires
                0 <= r,
                r + 1 <= s,
        ;
    }
    if s < r {
        assert((s + 1) * (s + 1) <= r * r) by (nonlinear_arith)
            requires
                0 <= s,
                s + 1 <= r,
        ;
    }
}

/// The integer square root of any 64-bit value.
pub fn isqrt(n: u64) -> (r: u64)
    ensures
        r == isqrt_spec(n as int),
        r * r <= n,
{
    let mut lo: u64 = 0;
    let mut hi: u64 = 0x1_0000_0000;
    while lo + 1 < hi
        invariant
            lo < hi <= 0x1_0000_0000,
            (lo as int) * (lo as int) <= n as int,
            (n as int) < (hi as int) * (hi as int),
        decreases hi - lo,
    {
        let mid = lo + (hi - lo) / 2;
        proof {
            assert((mid as int) * (mid as int) < 0x1_0000_0000_0000_0000) by (nonlinear_arith)
                requires
                    0 <= (mid as int) < 0x1_0000_0000,
            ;
        }
        if mid * mid <= n {
            lo = mid;
        } else {
            hi = mid;
        }
    }
    proof {
        lemma_isqrt_unique(n as int, lo as int);
    }
    lo
}

/// The absolute difference of two channel values.
fn channel_diff(x: u8, y: u8) -> (d: u8)
    ensures
        d == abs_diff(x as int, y as int),
{
    if x >= y {
        x - y
    } else {
        y - x
    }
}

/// The linear-sum metric on two colors.
pub fn rgb(a: &Color, b: &Color) -> (d: u32)
    ensures
        d == rgb_diff(*a, *b),
        d <= 765,
{
    channel_diff(a.r, b.r) as u32 + channel_diff(a.g, b.g) as u32 + channel_diff(a.b, b.b) as u32
}

proof fn lemma_radicand_bounds(a: Color, b: Color)
    ensures
        0 <= redmean_radicand(a, b) <= 332_667_900,
{
    let rsum = a.r + b.r;
    let dr = abs_diff(a.r as int, b.r as int);
    let dg = abs_diff(a.g as int, b.g as int);
    let db = abs_diff(a.b as int, b.b as int);
    assert((1024 + rsum) * (dr * dr) <= 1534 * 65025 && (1024 + rsum) * (dr * dr) >= 0)
        by (nonlinear_arith)
        requires
            0 <= dr <= 255,
            0 <= rsum <= 510,
    ;
    assert(2048 * (dg * dg) <= 2048 * 65025 && 2048 * (dg * dg) >= 0) by (nonlinear_arith)
        requires
            0 <= dg <= 255,
    ;
    assert((1534 - rsum) * (db * db) <= 1534 * 65025 && (1534 - rsum) * (db * db) >= 0)
        by (nonlinear_arith)
        requires
            0 <= db <= 255,
            0 <= rsum <= 510,
    ;
}

proof fn lemma_isqrt_le(n: int, bound: int)
    requires
        0 <= bound,
        n < (bound + 1) * (bound + 1),
    ensures
        isqrt_spec(n) <= bound,
{
    lemma_isqrt_bracket(n);
    let r = isqrt_spec(n);
    if r > bound {
        assert((bound + 1) * (bound + 1) <= r * r) by (nonlinear_arith)
            requires
                0 <= bound,
                bound + 1 <= r,
        ;
    }
}

/// The scaled redmean metric on two colors.
pub fn redmean(a: &Color, b: &Color) -> (d: u32)
    ensures
        d == metric_spec(DifferenceFn::Redmean, *a, *b),
        d <= 18239,
{
    let dr = channel_diff(a.r, b.r) as u64;
    let dg = channel_diff(a.g, b.g) as u64;
    let db = channel_diff(a.b, b.b) as u64;
    let rsum = a.r as u64 + b.r as u64;
    proof {
        lemma_radicand_bounds(*a, *b);
        assert((dr * dr <= 65025 && dg * dg <= 65025 && db * db <= 65025) && ((1024 + rsum) * (dr
            * dr) <= 1534 * 65025 && (1024 + rsum) * (dr * dr) >= 0) && (2048 * (dg * dg) <= 2048
            * 65025 && 2048 * (dg * dg) >= 0) && ((1534 - rsum) * (db * db) <= 1534 * 65025 && (
        1534 - rsum) * (db * db) >= 0)) by (nonlinear_arith)
            requires
                0 <= dr <= 255,
                0 <= dg <= 255,
                0 <= db <= 255,
                0 <= rsum <= 510,
        ;
    }
    let s = (1024 + rsum) * (dr * dr) + 2048 * (dg * dg) + (1534 - rsum) * (db * db);
    proof {
        assert(s == redmean_radicand(*a, *b));
        assert(332_667_900 < (18239 + 1) * (18239 + 1)) by (nonlinear_arith);
        lemma_isqrt_le(s as int, 18239);
    }
    let r = isqrt(s);
    r as u32
}

impl DifferenceFn {
    /// The chosen metric's difference of two colors.
    pub fn apply(&self, a: &Color, b: &Color) -> (d: u32)
        ensures
            d == metric_spec(*self, *a, *b),
            d <= max_metric(),
    {
        match self {
            DifferenceFn::Rgb => rgb(a, b),
            DifferenceFn::Redmean => redmean(a, b),
        }
    }
}

/// Whether a difference exceeds a tolerance of `tolerance_milli`
/// milli-percent of the chosen metric's range.
pub fn exceeds_tolerance(m: &DifferenceFn, tolerance_milli: u32, d: u32) -> (r: bool)
    ensures
        r == exceeds_spec(*m, tolerance_milli as int, d as int),
{
    let lhs = (d as u64) * 100_000;
    let rhs = match m {
        DifferenceFn::Rgb => (tolerance_milli as u64) * 765,
        DifferenceFn::Redmean => (tolerance_milli as u64) * 17309,
    };
    lhs > rhs
}

/// Every metric value lies between 0 and [`max_metric`].
pub proof fn lemma_metric_bounds(m: DifferenceFn, a: Color, b: Color)
    ensures
        0 <= metric_spec(m, a, b) <= max_metric(),
{
    match m {
        DifferenceFn::Rgb => {},
        DifferenceFn::Redmean => {
            lemma_radicand_bounds(a, b);
            lemma_isqrt_bracket(redmean_radicand(a, b));
            assert(332_667_900 < (18239 + 1) * (18239 + 1)) by (nonlinear_arith);
            lemma_isqrt_le(redmean_radicand(a, b) as int, 18239);
        },
    }
}

/// Metric laws: a color differs from itself by zero, and both metrics are
/// symmetric in their arguments.
pub proof fn lemma_metric_laws(m: DifferenceFn, a: Color, b: Color)
    ensures
        metric_spec(m, a, a) == 0,
        metric_spec(m, a, b) == metric_spec(m, b, a),
{
    assert(redmean_radicand(a, a) == 0) by {
        let rsum = a.r + a.r;
        assert((1024 + rsum) * 0 == 0);
        assert((1534 - rsum) * 0 == 0);
        assert(2048 * 0 == 0);
    }
    assert(redmean_radicand(a, b) == redmean_radicand(b, a));
    assert(isqrt_spec(0) == 0);
}

/// Distinct colors always have a strictly positive difference.
pub proof fn lemma_metric_positive(m: DifferenceFn, a: Color, b: Color)
    requires
        a != b,
    ensures
        metric_spec(m, a, b) >= 1,
{
    let dr = abs_diff(a.r as int, b.r as int);
    let dg = abs_diff(a.g as int, b.g as int);
    let db = abs_diff(a.b as int, b.b as int);
    if a.r == b.r && a.g == b.g && a.b == b.b {
        assert(a == (Color { r: a.r, g: a.g, b: a.b }));
        assert(b == (Color { r: a.r, g: a.g, b: a.b }));
    }
    assert(dr >= 1 || dg >= 1 || db >= 1);
    match m {
        DifferenceFn::Rgb => {},
        DifferenceFn::Redmean => {
            let rsum = a.r + b.r;
            assert((1024 + rsum) * (dr * dr) >= 0 && 2048 * (dg * dg) >= 0 && (1534 - rsum) * (db
                * db) >= 0 && (dr >= 1 ==> (1024 + rsum) * (dr * dr) >= 1) && (dg >= 1 ==> 2048 * (
            dg * dg) >= 1) && (db >= 1 ==> (1534 - rsum) * (db * db) >= 1)) by (nonlinear_arith)
                requires
                    0 <= dr && 0 <= dg && 0 <= db && 0 <= rsum <= 510,
            ;
            let s = redmean_radicand(a, b);
            assert(s >= 1);
            lemma_isqrt_bracket(s);
            let r = isqrt_spec(s);
            if r == 0 {
                assert(s < (0 + 1) * (0 + 1));
            }
        },
    }
}

} // verus!
