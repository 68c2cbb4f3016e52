//! Circles drawn on integer coordinates at multiples of π/8.
//!
//! For an angle `kπ/8` the cosine is one of `±1`, `±cos(π/8)`, `±√2/2`,
//! `±cos(3π/8)` and `0`. The truncation toward zero of `r·cos(kπ/8)` is then
//! characterised exactly by integer inequalities, since `cos²(π/8) = (2+√2)/4`,
//! `cos²(π/4) = 1/2` and `cos²(3π/8) = (2−√2)/4`. For radii up to `2^63` in
//! magnitude these inequalities involve fourth powers up to `2^254`, which are
//! compared as pairs of `u128` halves.

use vstd::prelude::*;

use crate::utils::{CoordT, Point2D};

verus! {

/// Whether `m ≤ r·|cos(jπ/8)|` for a magnitude `r ≥ 0`, `m ≥ 0` and cosine
/// class `j` (0 to 4), stated without irrational numbers.
pub open spec fn within_cosine(r: int, j: int, m: int) -> bool {
    if j == 0 {
        m <= r
    } else if j == 1 {
        2 * (m * m) <= r * r || 2 * ((2 * (m * m) - r * r) * (2 * (m * m) - r * r)) <= (r * r) * (r
            * r)
    } else if j == 2 {
        2 * (m * m) <= r * r
    } else if j == 3 {
        2 * (m * m) <= r * r && (r * r) * (r * r) <= 2 * ((r * r - 2 * (m * m)) * (r * r - 2 * (m
            * m)))
    } else {
        m <= 0
    }
}

/// Whether `m` is `⌊r·|cos(jπ/8)|⌋`.
pub open spec fn is_floor_cosine(r: int, j: int, m: int) -> bool {
    0 <= m && within_cosine(r, j, m) && !within_cosine(r, j, m + 1)
}

/// `⌊r·|cos(jπ/8)|⌋` for `r ≥ 0`.
pub open spec fn floor_cosine(r: int, j: int) -> int {
    choose|m: int| is_floor_cosine(r, j, m)
}

/// The cosine class of `kπ/8`: `|cos(kπ/8)| = |cos(jπ/8)|` with `j` in 0..=4.
pub open spec fn cosine_class(k: int) -> int {
    let d = k % 8;
    if d <= 4 {
        d
    } else {
        8 - d
    }
}

/// The sign of `cos(kπ/8)` for `k` in 0..16.
pub open spec fn cosine_sign(k: int) -> int {
    if k < 4 || k > 12 {
        1
    } else if k == 4 || k == 12 {
        0
    } else {
        -1
    }
}

/// `r·cos(kπ/8)` truncated toward zero, for `k` in 0..16.
pub open spec fn cosine_offset(r: int, k: int) -> int {
    let mag = if r < 0 {
        -r
    } else {
        r
    };
    let f = floor_cosine(mag, cosine_class(k));
    let t = if cosine_sign(k) == 1 {
        f
    } else if cosine_sign(k) == -1 {
        -f
    } else {
        0
    };
    if r < 0 {
        -t
    } else {
        t
    }
}

/// `r·sin(kπ/8)` truncated toward zero, for `k` in 0..16 (as `sin θ = cos(θ − π/2)`).
pub open spec fn sine_offset(r: int, k: int) -> int {
    cosine_offset(r, (k + 12) % 16)
}

/// The sixteenths of a turn between consecutive points of a circle of
/// `segments` points.
pub open spec fn step_of(segments: int) -> int {
    16int / segments
}

/// Point `i` of the circle of `segments` points around `center`: at angle
/// `2πi/segments`, its offsets truncated toward zero.
pub open spec fn circle_point(center: Point2D, radius: int, segments: int, i: int) -> Point2D {
    let k = i * step_of(segments);
    Point2D {
        x: (center.x + cosine_offset(radius, k)) as CoordT,
        y: (center.y + sine_offset(radius, k)) as CoordT,
    }
}

/// The points of the circle of `segments` points around `center`.
pub open spec fn circle_seq(center: Point2D, radius: int, segments: int) -> Seq<Point2D> {
    Seq::new(segments as nat, |i: int| circle_point(center, radius, segments, i))
}

/// Whether a circle of `segments` points can be drawn: the angles are
/// multiples of π/8 and every point's coordinates fit in an `i64`.
pub open spec fn circle_drawable(center: Point2D, radius: int, segments: int) -> bool {
    &&& segments == 0 || (segments > 0 && 16int % segments == 0)
    &&& forall|i: int|
        0 <= i < segments ==> {
            &&& i64::MIN <= center.x + cosine_offset(radius, #[trigger] (i * step_of(segments)))
                <= i64::MAX
            &&& i64::MIN <= center.y + sine_offset(radius, i * step_of(segments)) <= i64::MAX
        }
}

proof fn lemma_within_cosine_monotone(r: int, j: int, m1: int, m2: int)
    requires
        0 <= r,
        0 <= j <= 4,
        0 <= m1 <= m2,
        within_cosine(r, j, m2),
    ensures
        within_cosine(r, j, m1),
{
    assert(m1 * m1 <= m2 * m2) by (nonlinear_arith)
        requires
            0 <= m1 <= m2,
    ;
    if j == 1 && !(2 * (m1 * m1) <= r * r) {
        let a = 2 * (m1 * m1) - r * r;
        let b = 2 * (m2 * m2) - r * r;
        assert(0 < a <= b);
        assert(a * a <= b * b) by (nonlinear_arith)
            requires
                0 < a <= b,
        ;
    }
    if j == 3 {
        let a = r * r - 2 * (m1 * m1);
        let b = r * r - 2 * (m2 * m2);
        assert(0 <= b <= a);
        assert(b * b <= a * a) by (nonlinear_arith)
            requires
                0 <= b <= a,
        ;
    }
}

/// There is exactly one `⌊r·|cos(jπ/8)|⌋`.
proof fn lemma_floor_cosine_unique(r: int, j: int, m1: int, m2: int)
    requires
        0 <= r,
        0 <= j <= 4,
        is_floor_cosine(r, j, m1),
        is_floor_cosine(r, j, m2),
    ensures
        m1 == m2,
{
    if m1 < m2 {
        lemma_within_cosine_monotone(r, j, m1 + 1, m2);
    } else if m2 < m1 {
        lemma_within_cosine_monotone(r, j, m2 + 1, m1);
    }
}

/// `2^128`, the weight of the high half of a 256-bit value.
pub open spec fn two_pow_128() -> int {
    0x1_0000_0000_0000_0000_0000_0000_0000_0000int
}

/// The value of a 256-bit number held as a high and a low `u128` half.
pub open spec fn wide(h: u128, l: u128) -> int {
    h * two_pow_128() + l
}

/// The full 256-bit product of two `u128` values, as (high, low) halves.
fn mul_wide(a: u128, b: u128) -> (r: (u128, u128))
    ensures
        wide(r.0, r.1) == a * b,
{
    let ah = a / 0x1_0000_0000_0000_0000u128;
    let al = a % 0x1_0000_0000_0000_0000u128;
    let bh = b / 0x1_0000_0000_0000_0000u128;
    let bl = b % 0x1_0000_0000_0000_0000u128;
    proof {
        let m: int = 0xffff_ffff_ffff_ffff;
        assert(ah * bh <= m * m) by (nonlinear_arith)
            requires 0 <= ah <= m, 0 <= bh <= m;
        assert(al * bl <= m * m) by (nonlinear_arith)
            requires 0 <= al <= m, 0 <= bl <= m;
        assert(al * bh <= m * m) by (nonlinear_arith)
            requires 0 <= al <= m, 0 <= bh <= m;
        assert(ah * bl <= m * m) by (nonlinear_arith)
            requires 0 <= ah <= m, 0 <= bl <= m;
    }
    let p0 = al * bl;
    let p1 = al * bh;
    let p2 = ah * bl;
    let p3 = ah * bh;
    let mid = p0 / 0x1_0000_0000_0000_0000u128 + p1 % 0x1_0000_0000_0000_0000u128 + p2
        % 0x1_0000_0000_0000_0000u128;
    let lo = p0 % 0x1_0000_0000_0000_0000u128 + (mid % 0x1_0000_0000_0000_0000u128)
        * 0x1_0000_0000_0000_0000u128;
    let hi = p3 + p1 / 0x1_0000_0000_0000_0000u128 + p2 / 0x1_0000_0000_0000_0000u128 + mid
        / 0x1_0000_0000_0000_0000u128;
    proof {
        assert(a * b == p3 * 0x1_0000_0000_0000_0000_0000_0000_0000_0000int + (p1 + p2)
            * 0x1_0000_0000_0000_0000int + p0) by (nonlinear_arith)
            requires
                a == ah * 0x1_0000_0000_0000_0000int + al,
                b == bh * 0x1_0000_0000_0000_0000int + bl,
                p0 == al * bl,
                p1 == al * bh,
                p2 == ah * bl,
                p3 == ah * bh,
        ;
    }
    (hi, lo)
}

/// Whether one 256-bit value is at most another, from their halves.
fn wide_le(h1: u128, l1: u128, h2: u128, l2: u128) -> (b: bool)
    ensures
        b == (wide(h1, l1) <= wide(h2, l2)),
{
    if h1 < h2 {
        assert(wide(h1, l1) < wide(h2, l2)) by (nonlinear_arith)
            requires h1 < h2, l1 < two_pow_128(), l2 >= 0, two_pow_128() > 0;
        true
    } else if h1 > h2 {
        assert(wide(h1, l1) > wide(h2, l2)) by (nonlinear_arith)
            requires h1 > h2, l2 < two_pow_128(), l1 >= 0, two_pow_128() > 0;
        false
    } else {
        l1 <= l2
    }
}

/// The largest radius magnitude, `2^63`: that of `i64::MIN`.
pub open spec fn max_magnitude() -> int {
    0x8000_0000_0000_0000
}

/// `within_cosine`, computed without overflow for `r ≤ 2^63` and `m ≤ r + 1`.
fn within_cosine_exec(r: u64, j: u8, m: u64) -> (b: bool)
    requires
        r <= max_magnitude(),
        m <= r + 1,
        j <= 4,
    ensures
        b == within_cosine(r as int, j as int, m as int),
{
    proof {
        assert(r * r <= 0x4000_0000_0000_0000_0000_0000_0000_0000) by (nonlinear_arith)
            requires
                r <= 0x8000_0000_0000_0000u64,
        ;
        assert(m * m <= 0x4000_0000_0000_0001_0000_0000_0000_0001) by (nonlinear_arith)
            requires
                m <= 0x8000_0000_0000_0001u64,
        ;
    }
    let r2 = (r as u128) * (r as u128);
    let m2 = (m as u128) * (m as u128);
    if j == 0 {
        m <= r
    } else if j == 2 {
        2 * m2 <= r2
    } else if j == 4 {
        m == 0
    } else if j == 1 {
        if 2 * m2 <= r2 {
            true
        } else {
            let d = 2 * m2 - r2;
            if d > r2 {
                proof {
                    assert(2 * (d * d) > r2 * r2) by (nonlinear_arith)
                        requires d > r2, r2 >= 0;
                }
                false
            } else {
                let (h1, l1) = mul_wide(2 * d, d);
                let (h2, l2) = mul_wide(r2, r2);
                proof {
                    assert((2 * d) * d == 2 * (d * d)) by (nonlinear_arith);
                }
                wide_le(h1, l1, h2, l2)
            }
        }
    } else {
        if 2 * m2 > r2 {
            false
        } else {
            let e = r2 - 2 * m2;
            let (h1, l1) = mul_wide(r2, r2);
            let (h2, l2) = mul_wide(2 * e, e);
            proof {
                assert((2 * e) * e == 2 * (e * e)) by (nonlinear_arith);
            }
            wide_le(h1, l1, h2, l2)
        }
    }
}

/// `⌊r·|cos(jπ/8)|⌋`, found by bisection.
fn floor_cosine_exec(r: u64, j: u8) -> (m: u64)
    requires
        r <= max_magnitude(),
        j <= 4,
    ensures
        m == floor_cosine(r as int, j as int),
        m <= r,
{
    let mut lo: u64 = 0;
    let mut hi: u64 = r + 1;
    proof {
        assert(within_cosine(r as int, j as int, 0)) by (nonlinear_arith)
            requires
                r >= 0,
        ;
        let n = r + 1;
        assert(2 * (n * n) > r * r) by (nonlinear_arith)
            requires
                n == r + 1,
                r >= 0,
        ;
        if j == 1 {
            let a = 2 * (n * n) - r * r;
            assert(a * a > (r * r) * (r * r)) by (nonlinear_arith)
                requires
                    a == 2 * (n * n) - r * r,
                    n == r + 1,
                    r >= 0,
            ;
        }
        assert(!within_cosine(r as int, j as int, hi as int));
    }
    while hi - lo > 1
        invariant
            r <= max_magnitude(),
            j <= 4,
            lo < hi <= r + 1,
            within_cosine(r as int, j as int, lo as int),
            !within_cosine(r as int, j as int, hi as int),
        decreases hi - lo,
    {
        let mid = lo + (hi - lo) / 2;
        if within_cosine_exec(r, j, mid) {
            lo = mid;
        } else {
            hi = mid;
        }
    }
    proof {
        assert(is_floor_cosine(r as int, j as int, lo as int));
        lemma_floor_cosine_unique(r as int, j as int, lo as int, floor_cosine(r as int, j as int));
    }
    lo
}

/// `cosine_offset(radius, k)`, which may lie just outside `i64` for `i64::MIN`.
fn cosine_offset_exec(radius: CoordT, k: u64) -> (a: i128)
    requires
        k < 16,
    ensures
        a == cosine_offset(radius as int, k as int),
{
    let d = k % 8;
    let class: u8 = if d <= 4 {
        d as u8
    } else {
        (8 - d) as u8
    };
    let mag_r: u64 = if radius < 0 {
        (0i128 - radius as i128) as u64
    } else {
        radius as u64
    };
    assert(class == cosine_class(k as int));
    assert(mag_r == (if radius < 0 { -radius } else { radius as int }));
    let m = floor_cosine_exec(mag_r, class) as i128;
    let signed = if k < 4 || k > 12 {
        m
    } else if k == 4 || k == 12 {
        0
    } else {
        -m
    };
    if radius < 0 {
        -signed
    } else {
        signed
    }
}

/// Draw a circle polygon with the given center, radius, and number of segments.
///
/// Point `i` lies at angle `2πi/segments`; its offsets from the center are
/// `radius·cos` and `radius·sin` of that angle, truncated toward zero.
pub fn circle_points(center: &Point2D, radius: CoordT, segments: usize) -> (points: Vec<Point2D>)
    requires
        circle_drawable(*center, radius as int, segments as int),
    ensures
        points@ == circle_seq(*center, radius as int, segments as int),
{
    let mut points: Vec<Point2D> = Vec::new();
    if segments == 0 {
        assert(points@ =~= circle_seq(*center, radius as int, segments as int));
        return points;
    }
    let step = 16 / segments;
    let mut i: usize = 0;
    while i < segments
        invariant
            circle_drawable(*center, radius as int, segments as int),
            segments > 0,
            step == step_of(segments as int),
            0 <= i <= segments,
            points@.len() == i,
            forall|j: int|
                0 <= j < i ==> #[trigger] points@[j] == circle_point(
                    *center,
                    radius as int,
                    segments as int,
                    j,
                ),
        decreases segments - i,
    {
        assert(i * step < 16) by (nonlinear_arith)
            requires
                i < segments,
                step == 16int / (segments as int),
                segments > 0,
        ;
        let k = (i * step) as u64;
        let ks = (k + 12) % 16;
        let a = cosine_offset_exec(radius, k);
        let b = cosine_offset_exec(radius, ks);
        assert(i64::MIN <= center.x + cosine_offset(radius as int, (i * step) as int) <= i64::MAX);
        let p = Point2D::new((center.x as i128 + a) as i64, (center.y as i128 + b) as i64);
        points.push(p);
        i = i + 1;
    }
    assert(points@ =~= circle_seq(*center, radius as int, segments as int));
    points
}

} // verus!
