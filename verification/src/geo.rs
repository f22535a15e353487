//! The distance metric: a great-circle (haversine) distance in fixed-point
//! arithmetic.
//!
//! Coordinates are integer microdegrees (degrees times 1_000_000); the result
//! is in whole meters with Earth radius 6371 km.  Angles are carried as
//! nanoradians and the trigonometric pieces are low-degree polynomial
//! approximations, evaluated in integer arithmetic, so the whole metric is a
//! deterministic, verified function.  The same function weighs graph edges
//! and drives the nearest-node search.
//!
//! The metric accepts any integer microdegree values: angles are first
//! folded onto the sphere (longitudes modulo one turn, latitudes beyond a
//! pole reflected across it onto the opposite meridian).  Results are whole
//! meters, so two distinct points less than about a meter apart can measure
//! zero: only the zero-on-equal-points direction is claimed, not its
//! converse.

use vstd::prelude::*;
use vstd::arithmetic::div_mod::lemma_mod_multiples_vanish;

verus! {

/// Microdegrees per degree: one unit is 1e-6 of a degree.
pub const MICRO_PER_DEGREE: i64 = 1_000_000;

pub open spec fn valid_lat(lat: int) -> bool {
    -90_000_000 <= lat && lat <= 90_000_000
}

pub open spec fn valid_lon(lon: int) -> bool {
    -180_000_000 <= lon && lon <= 180_000_000
}

pub open spec fn abs_diff(a: int, b: int) -> int {
    if a >= b { a - b } else { b - a }
}

/// Any angle folded into [-180, 180) degrees (given in microdegrees).
pub open spec fn wrap_angle(x: int) -> int {
    let m: int = x % 360_000_000;
    if m >= 180_000_000 { m - 360_000_000 } else { m }
}

/// The folded latitude lies beyond a pole, so the point sits on the
/// opposite meridian.
pub open spec fn pole_crossed(lat: int) -> bool {
    wrap_angle(lat) > 90_000_000 || wrap_angle(lat) < -90_000_000
}

/// Canonical latitude in [-90, 90] degrees: a latitude beyond a pole is
/// reflected back across it.
pub open spec fn canon_lat(lat: int) -> int {
    let m: int = wrap_angle(lat);
    if m > 90_000_000 {
        180_000_000 - m
    } else if m < -90_000_000 {
        -180_000_000 - m
    } else {
        m
    }
}

/// Canonical longitude in [-180, 180) degrees; crossing a pole shifts the
/// meridian by half a turn.
pub open spec fn canon_lon(lat: int, lon: int) -> int {
    if pole_crossed(lat) {
        wrap_angle(lon + 180_000_000)
    } else {
        wrap_angle(lon)
    }
}

/// Angle in microdegrees converted to nanoradians (truncated):
/// pi / 180 * 1e-6 rad/microdegree is about 17.453293e-9.
pub open spec fn sp_rad(x: int) -> int {
    x * 17_453_293 / 1_000_000
}

pub open spec fn sp_rad2(x: int) -> int {
    sp_rad(x) * sp_rad(x) / 1_000_000_000
}

pub open spec fn sp_rad3(x: int) -> int {
    sp_rad2(x) * sp_rad(x) / 1_000_000_000
}

pub open spec fn sp_rad5(x: int) -> int {
    sp_rad3(x) * sp_rad2(x) / 1_000_000_000
}

/// sin of an angle given in microdegrees, scaled by 1e9, for angles in
/// [0, 90] degrees: the Taylor polynomial r - r^3/6 + r^5/120 on the
/// nanoradian value, clamped to the unit range against rounding overshoot.
pub open spec fn sin_scaled(x: int) -> int {
    let raw: int = sp_rad(x) + sp_rad5(x) / 120 - sp_rad3(x) / 6;
    if raw > 1_000_000_000 { 1_000_000_000 } else { raw }
}

/// cos of a latitude in microdegrees, scaled by 1e9, via cos(x) = sin(90 - |x|).
pub open spec fn cos_scaled(lat: int) -> int {
    sin_scaled(90_000_000 - abs_diff(lat, 0))
}

pub open spec fn ap_t2(t: int) -> int {
    t * t / 1_000_000_000
}

pub open spec fn ap_t3(t: int) -> int {
    ap_t2(t) * t / 1_000_000_000
}

pub open spec fn ap_t5(t: int) -> int {
    ap_t3(t) * ap_t2(t) / 1_000_000_000
}

pub open spec fn ap_t7(t: int) -> int {
    ap_t5(t) * ap_t2(t) / 1_000_000_000
}

/// arcsin of t (scaled by 1e9), for t up to sin(45 degrees) scaled: the
/// series t + t^3/6 + 3 t^5/40 + 15 t^7/336.
pub open spec fn asin_scaled(t: int) -> int {
    t + ap_t3(t) / 6 + 3 * ap_t5(t) / 40 + 15 * ap_t7(t) / 336
}

/// Floor of the square root, defined by primitive recursion.
pub open spec fn sqrt_floor(x: int) -> int
    decreases x,
{
    if x <= 0 {
        0
    } else {
        let s: int = sqrt_floor(x - 1);
        if (s + 1) * (s + 1) <= x { s + 1 } else { s }
    }
}

pub open spec fn half_lat(lat1: int, lat2: int) -> int {
    abs_diff(lat1, lat2) / 2
}

/// Half the longitude difference, folded into [0, 90] degrees
/// (sin(x) = sin(180 - x), so the fold keeps sin of the half angle).
pub open spec fn half_lon(lon1: int, lon2: int) -> int {
    let h: int = abs_diff(lon1, lon2) / 2;
    if h > 90_000_000 { 180_000_000 - h } else { h }
}

/// The haversine intermediate a = sin^2(dlat/2) + cos(lat1) cos(lat2) sin^2(dlon/2),
/// scaled by 1e18 and clamped to the unit range.
pub open spec fn hav_a(lat1: int, lon1: int, lat2: int, lon2: int) -> int {
    let s1: int = sin_scaled(half_lat(lat1, lat2));
    let s2: int = sin_scaled(half_lon(lon1, lon2));
    let c1: int = cos_scaled(lat1);
    let c2: int = cos_scaled(lat2);
    let raw: int = s1 * s1 + ((c1 * c2 / 1_000_000_000) * s2 / 1_000_000_000) * s2;
    if raw > 1_000_000_000_000_000_000 { 1_000_000_000_000_000_000 } else { raw }
}

/// Central angle c = 2 asin(sqrt(a)) in nanoradians; for a above one half the
/// complementary form pi - 2 asin(sqrt(1 - a)) keeps the arcsin argument small.
pub open spec fn hav_c(lat1: int, lon1: int, lat2: int, lon2: int) -> int {
    let a: int = hav_a(lat1, lon1, lat2, lon2);
    if a <= 500_000_000_000_000_000 {
        2 * asin_scaled(sqrt_floor(a))
    } else {
        3_141_592_653 - 2 * asin_scaled(sqrt_floor(1_000_000_000_000_000_000 - a))
    }
}

/// Great-circle distance in meters between any two points given in integer
/// microdegrees: the coordinates are folded onto the sphere, then the
/// central angle (nanoradians) is scaled by Earth radius 6371 km, i.e. by
/// 6371 / 1e6.
pub open spec fn hav_dist(lat1: int, lon1: int, lat2: int, lon2: int) -> int {
    hav_c(
        canon_lat(lat1),
        canon_lon(lat1, lon1),
        canon_lat(lat2),
        canon_lon(lat2, lon2),
    ) * 6371 / 1_000_000
}

/// The folded coordinates are always inside the geographic domain.
pub proof fn lemma_canon_in_domain(lat: int, lon: int)
    ensures
        valid_lat(canon_lat(lat)),
        valid_lon(canon_lon(lat, lon)),
{
}

pub proof fn lemma_sqrt_floor_bounds(x: int)
    requires
        x >= 0,
    ensures
        0 <= sqrt_floor(x),
        sqrt_floor(x) * sqrt_floor(x) <= x,
        x < (sqrt_floor(x) + 1) * (sqrt_floor(x) + 1),
    decreases x,
{
    if x == 0 {
    } else {
        lemma_sqrt_floor_bounds(x - 1);
        let s: int = sqrt_floor(x - 1);
        if (s + 1) * (s + 1) <= x {
            assert((s + 2) * (s + 2) == (s + 1) * (s + 1) + 2 * s + 3) by (nonlinear_arith);
        }
    }
}

proof fn lemma_sin_stages(x: int)
    requires
        0 <= x <= 90_000_000,
    ensures
        0 <= sp_rad(x) <= 1_570_796_370,
        0 <= sp_rad2(x) <= 2_470_000_000,
        0 <= sp_rad3(x) <= 3 * sp_rad(x),
        sp_rad3(x) <= 3_880_000_000,
        0 <= sp_rad5(x) <= 9_590_000_000,
        0 <= sin_scaled(x) <= 1_000_000_000,
{
    let r: int = sp_rad(x);
    assert(x * 17_453_293 <= 90_000_000 * 17_453_293);
    assert(0 <= r && r <= 1_570_796_370);
    assert(0 <= r * r && r * r <= 2_470_000_000_000_000_000) by (nonlinear_arith)
        requires
            0 <= r <= 1_570_796_370,
    ;
    let r2: int = sp_rad2(x);
    assert(0 <= r2 && r2 <= 2_470_000_000);
    assert(0 <= r2 * r && r2 * r <= 2_470_000_000 * r) by (nonlinear_arith)
        requires
            0 <= r && 0 <= r2 <= 2_470_000_000,
    ;
    let r3: int = sp_rad3(x);
    assert(r3 <= 2_470_000_000 * r / 1_000_000_000);
    assert(r3 <= 3 * r);
    assert(r3 <= 3_880_000_000);
    assert(0 <= r3 * r2 && r3 * r2 <= 3_880_000_000 * 2_470_000_000) by (nonlinear_arith)
        requires
            0 <= r3 <= 3_880_000_000 && 0 <= r2 <= 2_470_000_000,
    ;
    let r5: int = sp_rad5(x);
    assert(0 <= r5 && r5 <= 9_590_000_000);
    assert(r3 / 6 <= (3 * r) / 6);
    assert(r + r5 / 120 - r3 / 6 >= 0);
}

proof fn lemma_asin_stages(t: int)
    requires
        0 <= t <= 707_106_781,
    ensures
        0 <= ap_t2(t) <= 500_000_000,
        0 <= ap_t3(t) <= 353_600_000,
        0 <= ap_t5(t) <= 176_800_000,
        0 <= ap_t7(t) <= 88_400_000,
        0 <= asin_scaled(t) <= 790_000_000,
{
    assert(0 <= t * t && t * t <= 500_000_000_000_000_000) by (nonlinear_arith)
        requires
            0 <= t <= 707_106_781,
    ;
    let t2: int = ap_t2(t);
    assert(0 <= t2 && t2 <= 500_000_000);
    assert(0 <= t2 * t && t2 * t <= 353_600_000_000_000_000) by (nonlinear_arith)
        requires
            0 <= t <= 707_106_781 && 0 <= t2 <= 500_000_000,
    ;
    let t3: int = ap_t3(t);
    assert(0 <= t3 && t3 <= 353_600_000);
    assert(0 <= t3 * t2 && t3 * t2 <= 176_800_000_000_000_000) by (nonlinear_arith)
        requires
            0 <= t3 <= 353_600_000 && 0 <= t2 <= 500_000_000,
    ;
    let t5: int = ap_t5(t);
    assert(0 <= t5 && t5 <= 176_800_000);
    assert(0 <= t5 * t2 && t5 * t2 <= 88_400_000_000_000_000) by (nonlinear_arith)
        requires
            0 <= t5 <= 176_800_000 && 0 <= t2 <= 500_000_000,
    ;
    let t7: int = ap_t7(t);
    assert(0 <= t7 && t7 <= 88_400_000);
}

/// The arcsin argument stays within the series domain: the square root of a
/// number at most 5e17 is at most 707_106_781.
proof fn lemma_sqrt_small(x: int)
    requires
        0 <= x <= 500_000_000_000_000_000,
    ensures
        0 <= sqrt_floor(x) <= 707_106_781,
{
    lemma_sqrt_floor_bounds(x);
    let s: int = sqrt_floor(x);
    assert(s <= 707_106_781) by (nonlinear_arith)
        requires
            s >= 0 && s * s <= 500_000_000_000_000_000,
    ;
}

proof fn lemma_hav_a_bounds(lat1: int, lon1: int, lat2: int, lon2: int)
    requires
        valid_lat(lat1),
        valid_lon(lon1),
        valid_lat(lat2),
        valid_lon(lon2),
    ensures
        0 <= hav_a(lat1, lon1, lat2, lon2) <= 1_000_000_000_000_000_000,
{
    lemma_sin_stages(half_lat(lat1, lat2));
    lemma_sin_stages(half_lon(lon1, lon2));
    lemma_sin_stages(90_000_000 - abs_diff(lat1, 0));
    lemma_sin_stages(90_000_000 - abs_diff(lat2, 0));
    let s1: int = sin_scaled(half_lat(lat1, lat2));
    let s2: int = sin_scaled(half_lon(lon1, lon2));
    let c1: int = cos_scaled(lat1);
    let c2: int = cos_scaled(lat2);
    assert(0 <= s1 * s1) by (nonlinear_arith)
        requires
            0 <= s1,
    ;
    assert(0 <= c1 * c2 <= 1_000_000_000_000_000_000) by (nonlinear_arith)
        requires
            0 <= c1 <= 1_000_000_000 && 0 <= c2 <= 1_000_000_000,
    ;
    let cc: int = c1 * c2 / 1_000_000_000;
    assert(0 <= cc * s2 <= 1_000_000_000_000_000_000) by (nonlinear_arith)
        requires
            0 <= cc <= 1_000_000_000 && 0 <= s2 <= 1_000_000_000,
    ;
    let ccs: int = cc * s2 / 1_000_000_000;
    assert(0 <= ccs * s2 <= 1_000_000_000_000_000_000) by (nonlinear_arith)
        requires
            0 <= ccs <= 1_000_000_000 && 0 <= s2 <= 1_000_000_000,
    ;
}

proof fn lemma_hav_c_bounds(lat1: int, lon1: int, lat2: int, lon2: int)
    requires
        valid_lat(lat1),
        valid_lon(lon1),
        valid_lat(lat2),
        valid_lon(lon2),
    ensures
        0 <= hav_c(lat1, lon1, lat2, lon2) <= 3_141_592_653,
{
    lemma_hav_a_bounds(lat1, lon1, lat2, lon2);
    let a: int = hav_a(lat1, lon1, lat2, lon2);
    if a <= 500_000_000_000_000_000 {
        lemma_sqrt_small(a);
        lemma_asin_stages(sqrt_floor(a));
    } else {
        lemma_sqrt_small(1_000_000_000_000_000_000 - a);
        lemma_asin_stages(sqrt_floor(1_000_000_000_000_000_000 - a));
    }
}

/// Distances are non-negative and never exceed half the Earth's circumference.
/// Distances are non-negative and never exceed half the Earth's
/// circumference, for any integer microdegree inputs.
pub proof fn lemma_distance_bounds(lat1: int, lon1: int, lat2: int, lon2: int)
    ensures
        0 <= hav_dist(lat1, lon1, lat2, lon2) <= 20_015_086,
{
    lemma_canon_in_domain(lat1, lon1);
    lemma_canon_in_domain(lat2, lon2);
    lemma_hav_c_bounds(
        canon_lat(lat1),
        canon_lon(lat1, lon1),
        canon_lat(lat2),
        canon_lon(lat2, lon2),
    );
}

/// The distance from a point to itself is zero, for any integer
/// microdegree input.
pub proof fn lemma_distance_zero_on_equal(lat: int, lon: int)
    ensures
        hav_dist(lat, lon, lat, lon) == 0,
{
    let cl: int = canon_lat(lat);
    let cn: int = canon_lon(lat, lon);
    assert(sp_rad(0) == 0);
    assert(sp_rad2(0) == 0);
    assert(sp_rad3(0) == 0);
    assert(sp_rad5(0) == 0);
    assert(sin_scaled(0) == 0);
    let c1: int = cos_scaled(cl);
    let c2: int = cos_scaled(cl);
    assert((c1 * c2 / 1_000_000_000) * 0 == 0);
    assert(hav_a(cl, cn, cl, cn) == 0);
    assert(sqrt_floor(0) == 0);
    assert(asin_scaled(0) == 0);
}

/// The distance metric is symmetric in its two points.
pub proof fn lemma_distance_symmetric(lat1: int, lon1: int, lat2: int, lon2: int)
    ensures
        hav_dist(lat1, lon1, lat2, lon2) == hav_dist(lat2, lon2, lat1, lon1),
{
    let cl1: int = canon_lat(lat1);
    let cn1: int = canon_lon(lat1, lon1);
    let cl2: int = canon_lat(lat2);
    let cn2: int = canon_lon(lat2, lon2);
    let c1: int = cos_scaled(cl1);
    let c2: int = cos_scaled(cl2);
    assert(c1 * c2 == c2 * c1) by (nonlinear_arith);
    assert(half_lat(cl1, cl2) == half_lat(cl2, cl1));
    assert(half_lon(cn1, cn2) == half_lon(cn2, cn1));
    assert(hav_a(cl1, cn1, cl2, cn2) == hav_a(cl2, cn2, cl1, cn1));
}

/// Folds any angle into [-180, 180) degrees.
fn wrap_angle_e(x: i64) -> (r: i64)
    ensures
        r as int == wrap_angle(x as int),
        -180_000_000 <= r < 180_000_000,
{
    proof {
        lemma_mod_multiples_vanish(25_620_477_881, x as int, 360_000_000);
        assert(360_000_000 * 25_620_477_881 == 9_223_372_037_160_000_000int);
    }
    let shifted: i128 = (x as i128) + 9_223_372_037_160_000_000;
    let m: u128 = (shifted as u128) % 360_000_000;
    proof {
        assert(m as int == (x as int) % 360_000_000);
    }
    let mi: i64 = m as i64;
    if mi >= 180_000_000 {
        mi - 360_000_000
    } else {
        mi
    }
}

/// Folds a coordinate pair onto the sphere: latitude into [-90, 90]
/// degrees, longitude into [-180, 180), shifting the meridian when the
/// latitude crossed a pole.
fn canon_coords(lat: i64, lon: i64) -> (r: (i64, i64))
    ensures
        r.0 as int == canon_lat(lat as int),
        r.1 as int == canon_lon(lat as int, lon as int),
        valid_lat(r.0 as int),
        valid_lon(r.1 as int),
{
    let m: i64 = wrap_angle_e(lat);
    let clat: i64 = if m > 90_000_000 {
        180_000_000 - m
    } else if m < -90_000_000 {
        -180_000_000 - m
    } else {
        m
    };
    let wl: i64 = wrap_angle_e(lon);
    let clon: i64 = if m > 90_000_000 || m < -90_000_000 {
        let w2: i64 = wrap_angle_e(wl + 180_000_000);
        proof {
            let q: int = (lon as int) / 360_000_000;
            let d: int = if (lon as int) % 360_000_000 >= 180_000_000 { 1int } else { 0int };
            assert(wl as int == 360_000_000 * (q + d) * -1 + lon as int) by {
                assert(lon as int == 360_000_000 * q + (lon as int) % 360_000_000);
            }
            lemma_mod_multiples_vanish(-(q + d), lon as int + 180_000_000, 360_000_000);
            assert((wl as int + 180_000_000) % 360_000_000 == (lon as int + 180_000_000)
                % 360_000_000);
        }
        w2
    } else {
        wl
    };
    (clat, clon)
}

fn isqrt(x: u64) -> (r: u64)
    ensures
        r as int == sqrt_floor(x as int),
        r <= 4_294_967_295,
{
    proof {
        lemma_sqrt_floor_bounds(x as int);
    }
    let mut lo: u64 = 0;
    let mut hi: u64 = 4_294_967_296;
    while lo + 1 < hi
        invariant
            lo < hi,
            hi <= 4_294_967_296,
            (lo as int) * (lo as int) <= x as int,
            (x as int) < (hi as int) * (hi as int),
        decreases hi - lo,
    {
        let mid: u64 = lo + (hi - lo) / 2;
        assert((mid as int) * (mid as int) <= 18_446_744_073_709_551_616) by (nonlinear_arith)
            requires
                mid <= 4_294_967_296,
        ;
        if (mid as u128) * (mid as u128) <= x as u128 {
            lo = mid;
        } else {
            hi = mid;
        }
    }
    proof {
        let s: int = sqrt_floor(x as int);
        assert(s == lo as int) by (nonlinear_arith)
            requires
                s >= 0,
                s * s <= x as int,
                (x as int) < (s + 1) * (s + 1),
                0 <= lo as int,
                (lo as int) * (lo as int) <= x as int,
                (x as int) < (lo as int + 1) * (lo as int + 1),
        ;
    }
    lo
}

/// sin of an angle in [0, 90] degrees, given in microdegrees, scaled by 1e9.
fn sin_q(x: u64) -> (s: u64)
    requires
        x <= 90_000_000,
    ensures
        s as int == sin_scaled(x as int),
        s <= 1_000_000_000,
{
    proof {
        lemma_sin_stages(x as int);
    }
    let r: u128 = (x as u128) * 17_453_293 / 1_000_000;
    assert(r as int == sp_rad(x as int));
    assert((r as int) * (r as int) <= 2_470_000_000_000_000_000) by (nonlinear_arith)
        requires
            0 <= r as int <= 1_570_796_370,
    ;
    let r2: u128 = r * r / 1_000_000_000;
    assert(r2 as int == sp_rad2(x as int));
    assert((r2 as int) * (r as int) <= 2_470_000_000 * 1_570_796_370) by (nonlinear_arith)
        requires
            0 <= r as int <= 1_570_796_370,
            0 <= r2 as int <= 2_470_000_000,
    ;
    let r3: u128 = r2 * r / 1_000_000_000;
    assert(r3 as int == sp_rad3(x as int));
    assert((r3 as int) * (r2 as int) <= 3_880_000_000 * 2_470_000_000) by (nonlinear_arith)
        requires
            0 <= r3 as int <= 3_880_000_000,
            0 <= r2 as int <= 2_470_000_000,
    ;
    let r5: u128 = r3 * r2 / 1_000_000_000;
    assert(r5 as int == sp_rad5(x as int));
    assert(r3 / 6 <= r);
    let raw: u128 = r + r5 / 120 - r3 / 6;
    if raw > 1_000_000_000 {
        1_000_000_000
    } else {
        raw as u64
    }
}

/// arcsin (scaled by 1e9) of a sine value at most sin(45 degrees) scaled.
fn asin_q(t: u64) -> (r: u64)
    requires
        t <= 707_106_781,
    ensures
        r as int == asin_scaled(t as int),
        r <= 790_000_000,
{
    proof {
        lemma_asin_stages(t as int);
    }
    assert((t as int) * (t as int) <= 500_000_000_000_000_000) by (nonlinear_arith)
        requires
            0 <= t as int <= 707_106_781,
    ;
    let t2: u128 = (t as u128) * (t as u128) / 1_000_000_000;
    assert(t2 as int == ap_t2(t as int));
    assert((t2 as int) * (t as int) <= 500_000_000 * 707_106_781) by (nonlinear_arith)
        requires
            0 <= t as int <= 707_106_781,
            0 <= t2 as int <= 500_000_000,
    ;
    let t3: u128 = t2 * (t as u128) / 1_000_000_000;
    assert(t3 as int == ap_t3(t as int));
    assert((t3 as int) * (t2 as int) <= 353_600_000 * 500_000_000) by (nonlinear_arith)
        requires
            0 <= t3 as int <= 353_600_000,
            0 <= t2 as int <= 500_000_000,
    ;
    let t5: u128 = t3 * t2 / 1_000_000_000;
    assert(t5 as int == ap_t5(t as int));
    assert((t5 as int) * (t2 as int) <= 176_800_000 * 500_000_000) by (nonlinear_arith)
        requires
            0 <= t5 as int <= 176_800_000,
            0 <= t2 as int <= 500_000_000,
    ;
    let t7: u128 = t5 * t2 / 1_000_000_000;
    assert(t7 as int == ap_t7(t as int));
    let r: u128 = (t as u128) + t3 / 6 + 3 * t5 / 40 + 15 * t7 / 336;
    r as u64
}

/// Great-circle distance in meters between two coordinates given in
/// integer microdegrees, by the haversine formula with Earth radius
/// 6371 km; the coordinates are first folded onto the sphere.
pub fn haversine(lat1: i64, lon1: i64, lat2: i64, lon2: i64) -> (d: u64)
    ensures
        d as int == hav_dist(lat1 as int, lon1 as int, lat2 as int, lon2 as int),
        d <= 20_015_086,
{
    let (lat1, lon1): (i64, i64) = canon_coords(lat1, lon1);
    let (lat2, lon2): (i64, i64) = canon_coords(lat2, lon2);
    proof {
        lemma_hav_a_bounds(lat1 as int, lon1 as int, lat2 as int, lon2 as int);
        lemma_hav_c_bounds(lat1 as int, lon1 as int, lat2 as int, lon2 as int);
        lemma_sin_stages(half_lat(lat1 as int, lat2 as int));
        lemma_sin_stages(half_lon(lon1 as int, lon2 as int));
        lemma_sin_stages(90_000_000 - abs_diff(lat1 as int, 0));
        lemma_sin_stages(90_000_000 - abs_diff(lat2 as int, 0));
    }
    let dlat: i64 = if lat1 >= lat2 { lat1 - lat2 } else { lat2 - lat1 };
    let hlat: u64 = (dlat / 2) as u64;
    let dlon: i64 = if lon1 >= lon2 { lon1 - lon2 } else { lon2 - lon1 };
    let h0: i64 = dlon / 2;
    let hlon: u64 = if h0 > 90_000_000 { (180_000_000 - h0) as u64 } else { h0 as u64 };
    assert(hlat as int == half_lat(lat1 as int, lat2 as int));
    assert(hlon as int == half_lon(lon1 as int, lon2 as int));
    let s1: u64 = sin_q(hlat);
    let s2: u64 = sin_q(hlon);
    let al1: i64 = if lat1 < 0 { -lat1 } else { lat1 };
    let al2: i64 = if lat2 < 0 { -lat2 } else { lat2 };
    let c1: u64 = sin_q((90_000_000 - al1) as u64);
    let c2: u64 = sin_q((90_000_000 - al2) as u64);
    assert(c1 as int == cos_scaled(lat1 as int));
    assert(c2 as int == cos_scaled(lat2 as int));
    assert((s1 as int) * (s1 as int) <= 1_000_000_000_000_000_000) by (nonlinear_arith)
        requires
            0 <= s1 as int <= 1_000_000_000,
    ;
    let term1: u128 = (s1 as u128) * (s1 as u128);
    assert((c1 as int) * (c2 as int) <= 1_000_000_000_000_000_000) by (nonlinear_arith)
        requires
            0 <= c1 as int <= 1_000_000_000,
            0 <= c2 as int <= 1_000_000_000,
    ;
    let cc: u128 = (c1 as u128) * (c2 as u128) / 1_000_000_000;
    assert((cc as int) * (s2 as int) <= 1_000_000_000_000_000_000) by (nonlinear_arith)
        requires
            0 <= cc as int <= 1_000_000_000,
            0 <= s2 as int <= 1_000_000_000,
    ;
    let ccs: u128 = cc * (s2 as u128) / 1_000_000_000;
    assert((ccs as int) * (s2 as int) <= 1_000_000_000_000_000_000) by (nonlinear_arith)
        requires
            0 <= ccs as int <= 1_000_000_000,
            0 <= s2 as int <= 1_000_000_000,
    ;
    let term2: u128 = ccs * (s2 as u128);
    let raw: u128 = term1 + term2;
    let a: u64 = if raw > 1_000_000_000_000_000_000 {
        1_000_000_000_000_000_000
    } else {
        raw as u64
    };
    assert(a as int == hav_a(lat1 as int, lon1 as int, lat2 as int, lon2 as int));
    let c: u64 = if a <= 500_000_000_000_000_000 {
        let t: u64 = isqrt(a);
        proof {
            lemma_sqrt_small(a as int);
        }
        2 * asin_q(t)
    } else {
        let u: u64 = isqrt(1_000_000_000_000_000_000 - a);
        proof {
            lemma_sqrt_small(1_000_000_000_000_000_000 - a as int);
        }
        3_141_592_653 - 2 * asin_q(u)
    };
    assert(c as int == hav_c(lat1 as int, lon1 as int, lat2 as int, lon2 as int));
    ((c as u128) * 6371 / 1_000_000) as u64
}

} // verus!
