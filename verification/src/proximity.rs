//! The proximity model: distance, visibility threshold and link intensity.
//!
//! All quantities live in fixed point: one coordinate unit is `SCALE`
//! sub-units, so a point of the unit square has coordinates in
//! `[0, SCALE]`. Out-of-range positions are accepted; only the extreme
//! fixed-point range is excluded so that squared distances fit the machine.

use vstd::prelude::*;
use crate::math::{
    sqrt_floor, isqrt, lemma_sqrt_floor_bounds, lemma_sqrt_upper, lemma_sqrt_lower,
};
use vstd::arithmetic::div_mod::{
    lemma_div_is_ordered, lemma_div_is_ordered_by_denominator, lemma_div_multiples_vanish,
    lemma_div_nonincreasing,
};
use vstd::arithmetic::mul::lemma_mul_upper_bound;

verus! {

/// Fixed-point sub-units per coordinate unit.
pub const SCALE: u64 = 1_000_000;

/// Largest node count the threshold formula accepts; keeps the fixed-point
/// exponent chain inside 128-bit arithmetic.
pub const COUNT_MAX: u64 = 1_000_000_000_000_000_000;

/// Largest coordinate magnitude; keeps squared distances inside 128 bits.
pub const COORD_MAX: i64 = 1_000_000_000_000_000;

/// A position in fixed-point coordinates.
#[derive(Clone, Copy, PartialEq, Eq, Structural, Debug)]
pub struct Point {
    pub x: i64,
    pub y: i64,
}

impl Point {
    /// The coordinates are small enough that any squared distance fits
    /// 128-bit arithmetic.
    pub open spec fn wf(self) -> bool {
        -(COORD_MAX as int) <= self.x <= COORD_MAX as int
            && -(COORD_MAX as int) <= self.y <= COORD_MAX as int
    }

    pub fn new(x: i64, y: i64) -> (p: Point)
        requires
            -(COORD_MAX as int) <= x <= COORD_MAX as int,
            -(COORD_MAX as int) <= y <= COORD_MAX as int,
        ensures
            p == (Point { x, y }),
            p.wf(),
    {
        Point { x, y }
    }
}

/// Squared Euclidean distance, in squared fixed-point units.
pub open spec fn dist_sq(p: Point, q: Point) -> int {
    (p.x - q.x) * (p.x - q.x) + (p.y - q.y) * (p.y - q.y)
}

/// The squared distance is non-negative, symmetric, zero on the diagonal,
/// and bounded for well-formed points.
pub proof fn lemma_dist_sq_basics(p: Point, q: Point)
    ensures
        dist_sq(p, q) >= 0,
        dist_sq(p, q) == dist_sq(q, p),
        dist_sq(p, p) == 0,
        p.wf() && q.wf() ==> dist_sq(p, q) <= 0x8000_0000_0000_0000_0000_0000_0000_0000,
{
    assert((p.x - q.x) * (p.x - q.x) >= 0 && (p.y - q.y) * (p.y - q.y) >= 0)
        by (nonlinear_arith);
    assert((p.x - q.x) * (p.x - q.x) == (q.x - p.x) * (q.x - p.x)
        && (p.y - q.y) * (p.y - q.y) == (q.y - p.y) * (q.y - p.y)) by (nonlinear_arith);
    if p.wf() && q.wf() {
        assert((p.x - q.x) * (p.x - q.x) <= 4_000_000_000_000_000_000_000_000_000_000int
            && (p.y - q.y) * (p.y - q.y) <= 4_000_000_000_000_000_000_000_000_000_000int)
            by (nonlinear_arith)
            requires
                -2_000_000_000_000_000 <= p.x - q.x <= 2_000_000_000_000_000,
                -2_000_000_000_000_000 <= p.y - q.y <= 2_000_000_000_000_000;
    }
}

/// Executable squared distance.
pub fn dist_sq_fp(p: &Point, q: &Point) -> (r: u128)
    requires
        p.wf(),
        q.wf(),
    ensures
        r as int == dist_sq(*p, *q),
{
    proof {
        lemma_dist_sq_basics(*p, *q);
    }
    let dx: i128 = p.x as i128 - q.x as i128;
    let dy: i128 = p.y as i128 - q.y as i128;
    assert(dx * dx >= 0 && dy * dy >= 0) by (nonlinear_arith);
    assert(dx * dx <= 4_000_000_000_000_000_000_000_000_000_000int
        && dy * dy <= 4_000_000_000_000_000_000_000_000_000_000int) by (nonlinear_arith)
        requires
            -2_000_000_000_000_000 <= dx <= 2_000_000_000_000_000,
            -2_000_000_000_000_000 <= dy <= 2_000_000_000_000_000;
    let s: i128 = dx * dx + dy * dy;
    s as u128
}

/// Euclidean distance in fixed-point units: the floor square root of the
/// squared distance.
pub open spec fn distance_spec(p: Point, q: Point) -> int {
    sqrt_floor(dist_sq(p, q) as nat) as int
}

/// Executable Euclidean distance.
pub fn distance(p: &Point, q: &Point) -> (r: u64)
    requires
        p.wf(),
        q.wf(),
    ensures
        r as int == distance_spec(*p, *q),
{
    let ds: u128 = dist_sq_fp(p, q);
    let r: u128 = isqrt(ds);
    r as u64
}

/// The distance from a point to itself is zero, and distance is symmetric.
pub proof fn lemma_distance_self_and_symmetric(p: Point, q: Point)
    ensures
        distance_spec(p, p) == 0,
        distance_spec(p, q) == distance_spec(q, p),
{
    lemma_dist_sq_basics(p, q);
    reveal_with_fuel(sqrt_floor, 1);
    assert(sqrt_floor(0) == 0);
}

/// Fixed-point square root: `fp_sqrt(x) / SCALE` approximates
/// `sqrt(x / SCALE)`.
pub open spec fn fp_sqrt(x: int) -> int {
    sqrt_floor((x * SCALE) as nat) as int
}

/// Fixed-point product.
pub open spec fn fp_mul(a: int, b: int) -> int {
    (a * b) / (SCALE as int)
}

/// Iterated fixed-point square roots of `n` (given in whole coordinate
/// units): `root_chain(n, k) / SCALE` approximates `n` to the power
/// `1 / 2^k`.
pub open spec fn root_chain(n: int, k: nat) -> int
    decreases k,
{
    if k == 0 {
        n * (SCALE as int)
    } else {
        fp_sqrt(root_chain(n, (k - 1) as nat))
    }
}

/// Fixed-point `n` to the power `log10(2)`, using the binary expansion
/// `log10(2) ~ 2^-2 + 2^-5 + 2^-6 + 2^-8 + 2^-12` (within 5e-6).
pub open spec fn pow_log10_2(n: int) -> int {
    fp_mul(
        fp_mul(fp_mul(fp_mul(root_chain(n, 2), root_chain(n, 5)), root_chain(n, 6)),
            root_chain(n, 8)),
        root_chain(n, 12),
    )
}

/// The visibility threshold `1 / 2^(log10(n) + 1)` in fixed point,
/// as `SCALE^2 / (2 * n^log10(2) * SCALE)`. A count of zero falls back to
/// one, so the formula always yields a positive value.
pub open spec fn vt_spec(n: int) -> int {
    let m = if n <= 0 { 1int } else { n };
    (SCALE as int * SCALE as int) / (2 * pow_log10_2(m))
}

/// Step bounds for the whole threshold chain: every iterated root of a
/// count in range stays between `SCALE` and an explicit constant, so the
/// executable chain neither overflows nor collapses.
pub proof fn lemma_vt_chain_bounds(n: int)
    requires
        1 <= n <= COUNT_MAX as int,
    ensures
        1_000_000 <= root_chain(n, 0) <= 0xC9F2_C9CD_0467_4EDE_A40E_E156_1900_0000,
        1_000_000 <= root_chain(n, 1) <= 1_000_000_000_000_000,
        1_000_000 <= root_chain(n, 2) <= 32_000_000_000,
        1_000_000 <= root_chain(n, 3) <= 180_000_000,
        1_000_000 <= root_chain(n, 4) <= 13_500_000,
        1_000_000 <= root_chain(n, 5) <= 3_700_000,
        1_000_000 <= root_chain(n, 6) <= 1_930_000,
        1_000_000 <= root_chain(n, 7) <= 1_390_000,
        1_000_000 <= root_chain(n, 8) <= 1_180_000,
        1_000_000 <= root_chain(n, 9) <= 1_090_000,
        1_000_000 <= root_chain(n, 10) <= 1_045_000,
        1_000_000 <= root_chain(n, 11) <= 1_023_000,
        1_000_000 <= root_chain(n, 12) <= 1_012_000,
        1_000_000 <= fp_mul(root_chain(n, 2), root_chain(n, 5)) <= 118_400_000_000,
        1_000_000 <= fp_mul(fp_mul(root_chain(n, 2), root_chain(n, 5)), root_chain(n, 6))
            <= 228_512_000_000,
        1_000_000 <= fp_mul(
            fp_mul(fp_mul(root_chain(n, 2), root_chain(n, 5)), root_chain(n, 6)),
            root_chain(n, 8),
        ) <= 269_644_160_000,
        1_000_000 <= pow_log10_2(n) <= 273_000_000_000,
        1 <= vt_spec(n) <= 500_000,
{
    let s: int = SCALE as int;
    let x0: int = root_chain(n, 0);
    assert(x0 == n * s);
    assert(1_000_000 <= x0 <= 1_000_000_000_000_000_000_000_000int);
    assert(0xC9F2_C9CD_0467_4EDE_A40E_E156_1900_0000 >= 1_000_000_000_000_000_000_000_000int);
    lemma_root_step(x0, 1_000_000_000_000_000_000_000_000, 1_000_000_000_000_000);
    let x1: int = root_chain(n, 1);
    assert(x1 == fp_sqrt(x0));
    lemma_root_step(x1, 1_000_000_000_000_000, 32_000_000_000);
    let x2: int = root_chain(n, 2);
    assert(x2 == fp_sqrt(x1));
    lemma_root_step(x2, 32_000_000_000, 180_000_000);
    let x3: int = root_chain(n, 3);
    assert(x3 == fp_sqrt(x2));
    lemma_root_step(x3, 180_000_000, 13_500_000);
    let x4: int = root_chain(n, 4);
    assert(x4 == fp_sqrt(x3));
    lemma_root_step(x4, 13_500_000, 3_700_000);
    let x5: int = root_chain(n, 5);
    assert(x5 == fp_sqrt(x4));
    lemma_root_step(x5, 3_700_000, 1_930_000);
    let x6: int = root_chain(n, 6);
    assert(x6 == fp_sqrt(x5));
    lemma_root_step(x6, 1_930_000, 1_390_000);
    let x7: int = root_chain(n, 7);
    assert(x7 == fp_sqrt(x6));
    lemma_root_step(x7, 1_390_000, 1_180_000);
    let x8: int = root_chain(n, 8);
    assert(x8 == fp_sqrt(x7));
    lemma_root_step(x8, 1_180_000, 1_090_000);
    let x9: int = root_chain(n, 9);
    assert(x9 == fp_sqrt(x8));
    lemma_root_step(x9, 1_090_000, 1_045_000);
    let x10: int = root_chain(n, 10);
    assert(x10 == fp_sqrt(x9));
    lemma_root_step(x10, 1_045_000, 1_023_000);
    let x11: int = root_chain(n, 11);
    assert(x11 == fp_sqrt(x10));
    lemma_root_step(x11, 1_023_000, 1_012_000);
    let x12: int = root_chain(n, 12);
    assert(x12 == fp_sqrt(x11));

    let m1: int = fp_mul(x2, x5);
    lemma_fp_mul_bounds(x2, x5, 32_000_000_000, 3_700_000);
    assert(m1 <= 118_400_000_000int);
    let m2: int = fp_mul(m1, x6);
    lemma_fp_mul_bounds(m1, x6, 118_400_000_000, 1_930_000);
    assert(m2 <= 228_512_000_000int);
    let m3: int = fp_mul(m2, x8);
    lemma_fp_mul_bounds(m2, x8, 228_512_000_000, 1_180_000);
    assert(m3 <= 269_644_160_000int);
    let m4: int = fp_mul(m3, x12);
    lemma_fp_mul_bounds(m3, x12, 269_644_160_000, 1_012_000);
    assert(m4 <= 272_879_889_920int);
    assert(pow_log10_2(n) == m4);

    let t: int = (s * s) / (2 * m4);
    lemma_div_is_ordered_by_denominator(s * s, 2_000_000, 2 * m4);
    assert(t <= 500_000);
    lemma_div_is_ordered_by_denominator(s * s, 2 * m4, 1_000_000_000_000);
    assert(t >= 1);
    assert(vt_spec(n) == t);
}

/// One step of the chain: a root of a value between `SCALE` and `hi`
/// stays between `SCALE` and `root_hi`, provided `hi * SCALE` is below
/// the next perfect square.
proof fn lemma_root_step(x: int, hi: int, root_hi: int)
    requires
        1_000_000 <= x <= hi,
        1_000_000 <= root_hi,
        hi * (SCALE as int) < (root_hi + 1) * (root_hi + 1),
    ensures
        1_000_000 <= fp_sqrt(x) <= root_hi,
{
    let s: int = SCALE as int;
    assert(x * s >= 1_000_000_000_000 && x * s <= hi * s) by (nonlinear_arith)
        requires
            1_000_000 <= x <= hi,
            s == 1_000_000;
    lemma_sqrt_lower((x * s) as nat, 1_000_000);
    lemma_sqrt_upper((x * s) as nat, root_hi as nat);
}

/// Bounds for one fixed-point product of chain values.
proof fn lemma_fp_mul_bounds(a: int, b: int, ah: int, bh: int)
    requires
        1_000_000 <= a <= ah,
        1_000_000 <= b <= bh,
    ensures
        1_000_000 <= fp_mul(a, b) <= (ah * bh) / (SCALE as int),
{
    let s: int = SCALE as int;
    lemma_mul_upper_bound(a, ah, b, bh);
    lemma_div_is_ordered(a * b, ah * bh, s);
    assert(a * b >= 1_000_000_000_000) by (nonlinear_arith)
        requires
            a >= 1_000_000,
            b >= 1_000_000;
    lemma_div_is_ordered(1_000_000_000_000, a * b, s);
}

/// The visibility threshold lies in `(0, 1/2]` of a coordinate unit for
/// every admissible count.
pub proof fn lemma_vt_range(n: int)
    requires
        0 <= n <= COUNT_MAX as int,
    ensures
        1 <= vt_spec(n) <= 500_000,
{
    if n <= 0 {
        lemma_vt_chain_bounds(1);
        assert(vt_spec(n) == vt_spec(1));
    } else {
        lemma_vt_chain_bounds(n);
    }
}

/// Executable fixed-point square root.
fn fpsqrt(x: u128) -> (r: u128)
    requires
        (x as int) * (SCALE as int) <= u128::MAX as int,
    ensures
        r as int == fp_sqrt(x as int),
{
    let prod: u128 = x * (SCALE as u128);
    let r: u128 = isqrt(prod);
    r
}

/// Executable fixed-point product.
fn fpmul(a: u128, b: u128) -> (r: u128)
    requires
        (a as int) * (b as int) <= u128::MAX as int,
    ensures
        r as int == fp_mul(a as int, b as int),
{
    (a * b) / (SCALE as u128)
}

/// The visibility threshold for a node count, in fixed-point units.
///
/// Renders `1 / 2^(log10(n) + 1)`: the reciprocal of twice
/// `n^log10(2)`, the latter computed by iterated fixed-point square
/// roots. A count of zero is guarded and treated as one.
pub fn visibility_threshold(count: u64) -> (t: u64)
    requires
        count <= COUNT_MAX,
    ensures
        t as int == vt_spec(count as int),
        1 <= t <= 500_000,
{
    let m: u64 = if count == 0 { 1 } else { count };
    proof {
        lemma_vt_chain_bounds(m as int);
    }
    let x0: u128 = (m as u128) * (SCALE as u128);
    assert(x0 as int == root_chain(m as int, 0));
    let x1: u128 = fpsqrt(x0);
    assert(x1 as int == root_chain(m as int, 1));
    let x2: u128 = fpsqrt(x1);
    assert(x2 as int == root_chain(m as int, 2));
    let x3: u128 = fpsqrt(x2);
    assert(x3 as int == root_chain(m as int, 3));
    let x4: u128 = fpsqrt(x3);
    assert(x4 as int == root_chain(m as int, 4));
    let x5: u128 = fpsqrt(x4);
    assert(x5 as int == root_chain(m as int, 5));
    let x6: u128 = fpsqrt(x5);
    assert(x6 as int == root_chain(m as int, 6));
    let x7: u128 = fpsqrt(x6);
    assert(x7 as int == root_chain(m as int, 7));
    let x8: u128 = fpsqrt(x7);
    assert(x8 as int == root_chain(m as int, 8));
    let x9: u128 = fpsqrt(x8);
    assert(x9 as int == root_chain(m as int, 9));
    let x10: u128 = fpsqrt(x9);
    assert(x10 as int == root_chain(m as int, 10));
    let x11: u128 = fpsqrt(x10);
    assert(x11 as int == root_chain(m as int, 11));
    let x12: u128 = fpsqrt(x11);
    assert(x12 as int == root_chain(m as int, 12));

    proof {
        lemma_mul_upper_bound(x2 as int, 32_000_000_000, x5 as int, 3_700_000);
    }
    let m1: u128 = fpmul(x2, x5);
    proof {
        lemma_mul_upper_bound(m1 as int, 118_400_000_000, x6 as int, 1_930_000);
    }
    let m2: u128 = fpmul(m1, x6);
    proof {
        lemma_mul_upper_bound(m2 as int, 228_512_000_000, x8 as int, 1_180_000);
    }
    let m3: u128 = fpmul(m2, x8);
    proof {
        lemma_mul_upper_bound(m3 as int, 269_644_160_000, x12 as int, 1_012_000);
    }
    let m4: u128 = fpmul(m3, x12);
    assert(m4 as int == pow_log10_2(m as int));

    let t: u128 = ((SCALE as u128) * (SCALE as u128)) / (2 * m4);
    assert(t as int == vt_spec(count as int));
    t as u64
}

/// Whether two positions are close enough to be linked: the raw distance
/// comparison `distance < threshold`, taken on squared fixed-point values.
/// This is deliberately not the zero test of `intensity_spec`, whose band
/// extends `sqrt(2)` times farther.
pub open spec fn within_threshold_spec(p: Point, q: Point, t: int) -> bool {
    dist_sq(p, q) < t * t
}

/// Executable relationship candidate test.
pub fn within_threshold(p: &Point, q: &Point, t: u64) -> (r: bool)
    requires
        p.wf(),
        q.wf(),
        t <= 500_000,
    ensures
        r == within_threshold_spec(*p, *q, t as int),
{
    let ds: u128 = dist_sq_fp(p, q);
    assert((t as int) * (t as int) <= 250_000_000_000int) by (nonlinear_arith)
        requires 0 <= t as int <= 500_000;
    ds < (t as u128) * (t as u128)
}

/// Link intensity in `[0, SCALE]`.
///
/// With `relDist = (maxDist - d) / maxDist` over `maxDist = sqrt(2)`, the
/// model's `clamp(relDist - (1 - t), 0, 1) / t` simplifies to
/// `max(t - d / sqrt(2), 0) / t`; `d / sqrt(2)` is the floor square root
/// of half the squared distance.
pub open spec fn intensity_spec(p: Point, q: Point, n: int) -> int {
    let t = vt_spec(n);
    let dd = sqrt_floor((dist_sq(p, q) / 2) as nat) as int;
    if dd >= t {
        0
    } else {
        ((t - dd) * (SCALE as int)) / t
    }
}

/// Executable link intensity.
pub fn intensity(p: &Point, q: &Point, count: u64) -> (r: u64)
    requires
        p.wf(),
        q.wf(),
        count <= COUNT_MAX,
    ensures
        r as int == intensity_spec(*p, *q, count as int),
        r <= SCALE,
{
    let t: u64 = visibility_threshold(count);
    let ds: u128 = dist_sq_fp(p, q);
    let dd128: u128 = isqrt(ds / 2);
    proof {
        lemma_dist_sq_basics(*p, *q);
    }
    if dd128 >= t as u128 {
        0
    } else {
        let dd: u64 = dd128 as u64;
        let num: u64 = t - dd;
        let r: u128 = ((num as u128) * (SCALE as u128)) / (t as u128);
        proof {
            lemma_div_is_ordered(num as int * SCALE as int, t as int * SCALE as int, t as int);
            lemma_div_multiples_vanish(SCALE as int, t as int);
            assert(t as int * SCALE as int == (t as int) * (SCALE as int));
        }
        assert(r <= SCALE);
        r as u64
    }
}

/// The intensity is `0` whenever the distance is at least `sqrt(2)` times
/// the threshold (the far edge of the visibility band).
pub proof fn lemma_intensity_zero_far(p: Point, q: Point, n: int)
    requires
        dist_sq(p, q) >= 2 * vt_spec(n) * vt_spec(n),
    ensures
        intensity_spec(p, q, n) == 0,
{
    let t = vt_spec(n);
    let ds = dist_sq(p, q);
    if t >= 0 {
        assert(2 * t * t == 2 * (t * t)) by (nonlinear_arith);
        lemma_div_is_ordered(2 * (t * t), ds, 2);
        lemma_div_multiples_vanish(t * t, 2);
        assert(ds / 2 >= t * t);
        lemma_sqrt_lower((ds / 2) as nat, t as nat);
    } else {
        lemma_dist_sq_basics(p, q);
        lemma_sqrt_floor_bounds((ds / 2) as nat);
    }
}

/// The intensity of a point with itself is exactly `SCALE` (full
/// brightness), for every admissible count.
pub proof fn lemma_intensity_self_max(p: Point, n: int)
    requires
        0 <= n <= COUNT_MAX as int,
    ensures
        intensity_spec(p, p, n) == SCALE as int,
{
    let t = vt_spec(n);
    lemma_vt_range(n);
    lemma_dist_sq_basics(p, p);
    reveal_with_fuel(sqrt_floor, 1);
    assert(sqrt_floor((dist_sq(p, p) / 2) as nat) == 0);
    lemma_div_multiples_vanish(SCALE as int, t);
    assert((t - 0) * (SCALE as int) == t * (SCALE as int));
}

/// A relationship candidate always has positive intensity: the inclusion
/// test `distance < threshold` lies strictly inside the intensity band.
pub proof fn lemma_candidate_intensity_positive(p: Point, q: Point, n: int)
    requires
        0 <= n <= COUNT_MAX as int,
        within_threshold_spec(p, q, vt_spec(n)),
    ensures
        intensity_spec(p, q, n) >= 2,
{
    let t = vt_spec(n);
    let ds = dist_sq(p, q);
    lemma_vt_range(n);
    lemma_dist_sq_basics(p, q);
    lemma_div_nonincreasing(ds, 2);
    assert(ds / 2 < t * t);
    assert(t * t == ((t - 1) + 1) * ((t - 1) + 1));
    lemma_sqrt_upper((ds / 2) as nat, (t - 1) as nat);
    let dd = sqrt_floor((ds / 2) as nat) as int;
    assert(dd < t);
    let num = t - dd;
    assert(num * (SCALE as int) >= 1 * (SCALE as int)) by (nonlinear_arith)
        requires num >= 1;
    lemma_div_is_ordered(SCALE as int, num * (SCALE as int), t);
    lemma_div_is_ordered_by_denominator(SCALE as int, t, 500_000);
    assert((SCALE as int) / 500_000 == 2);
}

/// The intensity always lies in `[0, SCALE]`.
pub proof fn lemma_intensity_range(p: Point, q: Point, n: int)
    requires
        0 <= n <= COUNT_MAX as int,
    ensures
        0 <= intensity_spec(p, q, n) <= SCALE as int,
{
    let t = vt_spec(n);
    lemma_vt_range(n);
    lemma_dist_sq_basics(p, q);
    let dd = sqrt_floor((dist_sq(p, q) / 2) as nat) as int;
    if dd < t {
        let num = t - dd;
        lemma_div_is_ordered(num * (SCALE as int), t * (SCALE as int), t);
        lemma_div_multiples_vanish(SCALE as int, t);
        assert(num * (SCALE as int) <= t * (SCALE as int)) by (nonlinear_arith)
            requires num <= t, SCALE as int >= 0;
        assert(num * (SCALE as int) >= 0) by (nonlinear_arith)
            requires num >= 0, SCALE as int >= 0;
        lemma_div_is_ordered(0, num * (SCALE as int), t);
    }
}

/// The node diameter `100 / sqrt(n)` in fixed point (the pick radius is
/// half of it). A count of zero is guarded and treated as one.
pub open spec fn node_size_spec(n: int) -> int {
    let m = if n <= 0 { 1int } else { n };
    (100 * (SCALE as int) * (SCALE as int)) / root_chain(m, 1)
}

/// Executable node diameter.
pub fn node_size(count: u64) -> (r: u64)
    requires
        count <= COUNT_MAX,
    ensures
        r as int == node_size_spec(count as int),
        r <= 100_000_000,
{
    let m: u64 = if count == 0 { 1 } else { count };
    proof {
        lemma_vt_chain_bounds(m as int);
    }
    let x0: u128 = (m as u128) * (SCALE as u128);
    assert(x0 as int == root_chain(m as int, 0));
    let x1: u128 = fpsqrt(x0);
    assert(x1 as int == root_chain(m as int, 1));
    let r: u128 = (100 * (SCALE as u128) * (SCALE as u128)) / x1;
    proof {
        lemma_div_is_ordered_by_denominator(
            100 * (SCALE as int) * (SCALE as int),
            1_000_000,
            x1 as int,
        );
    }
    r as u64
}

} // verus!
