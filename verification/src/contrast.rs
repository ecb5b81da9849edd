//! Contrast and gamma of comic pages.

use vstd::prelude::*;

use crate::picture::{grays, Picture, Raster};

verus! {

/// How many samples have the value `v`.
pub open spec fn count_of(s: Seq<u8>, v: int) -> int
    decreases s.len(),
{
    if s.len() == 0 {
        0
    } else {
        count_of(s.drop_last(), v) + if s.last() == v {
            1int
        } else {
            0
        }
    }
}

/// How many samples are at most `v`.
pub open spec fn count_upto(s: Seq<u8>, v: int) -> int
    decreases s.len(),
{
    if s.len() == 0 {
        0
    } else {
        count_upto(s.drop_last(), v) + if s.last() <= v {
            1int
        } else {
            0
        }
    }
}

/// How many samples are at least `v`.
pub open spec fn count_from(s: Seq<u8>, v: int) -> int
    decreases s.len(),
{
    if s.len() == 0 {
        0
    } else {
        count_from(s.drop_last(), v) + if s.last() >= v {
            1int
        } else {
            0
        }
    }
}

/// The least value from `v` on such that `clip` samples are at most it.
pub open spec fn dark_point(s: Seq<u8>, clip: int, v: int) -> int
    decreases 255 - v,
{
    if v >= 255 || count_upto(s, v) >= clip {
        v
    } else {
        dark_point(s, clip, v + 1)
    }
}

/// The greatest value from `v` down such that `clip` samples are at least it.
pub open spec fn light_point(s: Seq<u8>, clip: int, v: int) -> int
    decreases v,
{
    if v <= 0 || count_from(s, v) >= clip {
        v
    } else {
        light_point(s, clip, v - 1)
    }
}

/// How many pixels are clipped at either end: half a percent.
pub open spec fn clip_of(img: Raster) -> int {
    (img.width * img.height) / 200
}

/// The value below which half a percent of the pixels lie.
pub open spec fn low_of(img: Raster) -> int {
    dark_point(grays(img), clip_of(img), 0)
}

/// The value above which half a percent of the pixels lie.
pub open spec fn high_of(img: Raster) -> int {
    light_point(grays(img), clip_of(img), 255)
}

/// The fifth power.
pub open spec fn fifth(n: int) -> int {
    n * n * n * n * n
}

/// The fourth power.
pub open spec fn fourth(n: int) -> int {
    n * n * n * n
}

/// Whether `m - 1/2` is at most `255 * (k / range) ^ (5/4)`. Both sides are raised to the fourth power
/// and cleared of fractions.
pub open spec fn reaches(m: int, k: int, range: int) -> bool {
    fourth(2 * m - 1) * fifth(range) <= fourth(510) * fifth(k)
}

/// The greatest value from `m` down that `255 * (k / range) ^ (5/4)` rounds to or above.
pub open spec fn level_from(m: int, k: int, range: int) -> int
    decreases m,
{
    if m <= 0 || reaches(m, k, range) {
        m
    } else {
        level_from(m - 1, k, range)
    }
}

/// `255 * (k / range) ^ (5/4)`, rounded to the nearest integer.
pub open spec fn level(k: int, range: int) -> int {
    level_from(255, k, range)
}

/// What a sample becomes: it is clamped to the range from `low` to `high`, which is stretched to
/// the whole range with a gamma of 0.8, that is, raised to the power 1 / 0.8.
pub open spec fn toned(v: int, low: int, high: int) -> int {
    if v <= low {
        level(0, high - low)
    } else if v >= high {
        level(high - low, high - low)
    } else {
        level(v - low, high - low)
    }
}

/// A picture with its contrast stretched, which has no more to it than its samples; one that is
/// essentially uniform stays as it is.
pub open spec fn enhanced(img: Raster) -> Raster {
    let low = low_of(img);
    let high = high_of(img);
    if high <= low {
        img
    } else {
        Raster {
            width: img.width,
            height: img.height,
            color: img.color,
            exact: true,
            samples: Seq::new(
                img.samples.len(),
                |i: int| toned(img.samples[i] as int, low, high) as u8,
            ),
        }
    }
}

proof fn counts_add_up(s: Seq<u8>, v: int)
    ensures
        count_upto(s, v) == count_upto(s, v - 1) + count_of(s, v),
        count_from(s, v) == count_from(s, v + 1) + count_of(s, v),
        0 <= count_of(s, v) <= s.len(),
        0 <= count_upto(s, v) <= s.len(),
        0 <= count_from(s, v) <= s.len(),
        v < 0 ==> count_upto(s, v) == 0,
        v > 255 ==> count_from(s, v) == 0,
    decreases s.len(),
{
    if s.len() > 0 {
        counts_add_up(s.drop_last(), v);
    }
}

proof fn large_powers()
    ensures
        fourth(509) == 67122964561int,
        fourth(510) == 67652010000int,
        fourth(511) == 68184176641int,
        fifth(255) == 1078203909375int,
{
    assert(509 * 509 == 259081int);
    assert(259081 * 509 == 131872229int);
    assert(131872229 * 509 == 67122964561int);
    assert(255 * 255 * 255 * 255 == 4228250625int);
}

proof fn level_from_reaches(m: int, k: int, range: int)
    requires
        0 <= m,
    ensures
        0 <= level_from(m, k, range) <= m,
        level_from(m, k, range) > 0 ==> reaches(level_from(m, k, range), k, range),
        forall|j: int| level_from(m, k, range) < j <= m ==> !reaches(j, k, range),
    decreases m,
{
    if !(m <= 0 || reaches(m, k, range)) {
        level_from_reaches(m - 1, k, range);
    }
}

/// The level is the integer nearest to `255 * (k / range) ^ (5/4)`: that lies in the half-open
/// interval from half below the level to half above it.
pub proof fn level_is_nearest(k: int, range: int)
    requires
        0 <= k <= range,
        0 < range,
    ensures
        0 <= level(k, range) <= 255,
        level(k, range) > 0 ==> reaches(level(k, range), k, range),
        !reaches(level(k, range) + 1, k, range),
{
    level_from_reaches(255, k, range);
    powers_grow(k, range);
    large_powers();
    powers_grow(1, range);
    assert(68184176641int * fifth(range) > 67652010000int * fifth(k)) by (nonlinear_arith)
        requires
            1 <= fifth(range),
            fifth(k) <= fifth(range),
    ;
    assert(!reaches(256, k, range));
}

/// The darkest value of the range becomes black and the lightest one white.
pub proof fn levels_span_the_range(range: int)
    requires
        0 < range,
    ensures
        level(0, range) == 0,
        level(range, range) == 255,
{
    level_is_nearest(0, range);
    level_is_nearest(range, range);
    powers_grow(1, range);
    let m = level(0, range);
    if m > 0 {
        powers_grow(1, 2 * m - 1);
        assert(fifth(1) == 1 && fourth(1) == 1 && fifth(0) == 0);
        assert(fourth(2 * m - 1) * fifth(range) >= 1) by (nonlinear_arith)
            requires
                fourth(2 * m - 1) >= 1,
                fifth(range) >= 1,
        ;
    }
    large_powers();
    assert(67122964561int * fifth(range) <= 67652010000int * fifth(range));
    assert(reaches(255, range, range));
}

/// A lighter sample never becomes darker than a darker one.
pub proof fn toning_keeps_order(a: int, b: int, low: int, high: int)
    requires
        0 <= low < high <= 255,
        0 <= a <= b <= 255,
    ensures
        0 <= toned(a, low, high) <= toned(b, low, high) <= 255,
{
    let range = high - low;
    let j = if a <= low {
        0
    } else if a >= high {
        range
    } else {
        a - low
    };
    let k = if b <= low {
        0
    } else if b >= high {
        range
    } else {
        b - low
    };
    level_is_nearest(j, range);
    level_is_nearest(k, range);
    powers_grow(j, k);
    let m = level(j, range);
    if m > 0 {
        large_powers();
        assert(fourth(510) * fifth(j) <= fourth(510) * fifth(k)) by (nonlinear_arith)
            requires
                0 <= fifth(j) <= fifth(k),
                0 <= fourth(510),
        ;
        assert(reaches(m, k, range));
        level_from_reaches(255, k, range);
    }
}

proof fn fourth_of_product(a: int, b: int)
    by (nonlinear_arith)
    ensures
        fourth(a * b) == fourth(a) * fourth(b),
{
}

proof fn fourth_keeps_order(a: int, b: int)
    requires
        0 <= b,
        fourth(a) <= fourth(b),
    ensures
        a <= b,
{
    if a > b {
        powers_grow(b + 1, a);
        assert(fourth(b) < fourth(b + 1)) by (nonlinear_arith)
            requires
                0 <= b,
        {
            assert(fourth(b + 1) == fourth(b) + 4 * (b * b * b) + 6 * (b * b) + 4 * b + 1);
            assert(0 <= b * b && 0 <= b * b * b);
        }
    }
}

/// The correction makes nothing lighter: a level is at most the share of the whole range, rounded to
/// the nearest integer.
pub proof fn levels_are_not_lighter(k: int, range: int)
    requires
        0 <= k <= range,
        0 < range,
    ensures
        2 * level(k, range) * range <= 510 * k + range,
        level(k, range) * range <= 255 * k + range,
{
    level_is_nearest(k, range);
    let m = level(k, range);
    let odd = 2 * m - 1;
    if m > 0 {
        powers_grow(1, range);
        powers_grow(0, k);
        powers_grow(1, odd);
        assert(fourth(1) == 1 && fifth(1) == 1);
        assert(fifth(range) == fourth(range) * range);
        assert(fifth(k) == fourth(k) * k);
        large_powers();
        assert(fourth(510) * fifth(k) <= fourth(510) * fourth(k) * range) by (nonlinear_arith)
            requires
                fifth(k) == fourth(k) * k,
                k <= range,
                0 <= fourth(k),
                0 <= fourth(510),
        ;
        assert(fourth(odd) * fourth(range) <= fourth(510) * fourth(k)) by (nonlinear_arith)
            requires
                fourth(odd) * (fourth(range) * range) <= fourth(510) * fourth(k) * range,
                0 < range,
        ;
        fourth_of_product(odd, range);
        fourth_of_product(510, k);
        fourth_keeps_order(odd * range, 510 * k);
        assert(odd * range == 2 * m * range - range) by (nonlinear_arith)
            requires
                odd == 2 * m - 1,
        ;
        assert(2 * m * range == 2 * (m * range)) by (nonlinear_arith);
    } else {
        assert(2 * m * range == 0 && m * range == 0) by (nonlinear_arith)
            requires
                m == 0,
        ;
    }
}

/// Midtones become darker: where the whole range is in use, every value but those next to black and
/// white.
pub proof fn midtones_become_darker(v: int)
    requires
        0 <= v <= 255,
    ensures
        toned(v, 0, 255) <= v,
        3 <= v <= 252 ==> toned(v, 0, 255) < v,
{
    levels_span_the_range(255);
    levels_are_not_lighter(v, 255);
    assert(toned(v, 0, 255) == level(v, 255));
    if 3 <= v <= 252 {
        large_powers();
        level_is_nearest(v, 255);
        assert(fourth(2 * v - 1) * 1078203909375 > 67652010000int * fifth(v)) by (nonlinear_arith)
            requires
                3 <= v <= 252,
        {
            let cube = v * v * v;
            assert(cube > 0);
            assert(fourth(2 * v - 1) == 16 * (cube * v) - 32 * cube + 24 * (v * v) - 8 * v + 1);
            assert(24 * (v * v) >= 8 * v);
            assert(255 * (v - 2) > v * v);
            assert(cube * (255 * (v - 2)) > cube * (v * v));
            assert(fifth(v) == cube * (v * v));
            assert(255 * fourth(2 * v - 1) > 16 * fifth(v));
        }
        assert(!reaches(v, v, 255));
    }
}

/// Counts how often each value occurs.
fn histogram(s: &[u8]) -> (r: Vec<u64>)
    ensures
        r@.len() == 256,
        forall|v: int| 0 <= v < 256 ==> #[trigger] r@[v] == count_of(s@, v),
{
    let mut r: Vec<u64> = Vec::new();
    let mut k: usize = 0;
    while k < 256
        invariant
            k <= 256,
            r@.len() == k,
            forall|v: int| 0 <= v < k ==> #[trigger] r@[v] == 0,
        decreases 256 - k,
    {
        r.push(0);
        k += 1;
    }
    let size: usize = s.len();
    let mut i: usize = 0;
    while i < size
        invariant
            size == s@.len(),
            i <= size,
            r@.len() == 256,
            forall|v: int| 0 <= v < 256 ==> #[trigger] r@[v] == count_of(s@.take(i as int), v),
        decreases size - i,
    {
        let at: usize = s[i] as usize;
        proof {
            counts_add_up(s@.take(i as int), at as int);
            assert(s@.take(i + 1).drop_last() =~= s@.take(i as int));
        }
        let n: u64 = r[at];
        r.set(at, n + 1);
        i += 1;
    }
    assert(s@.take(i as int) =~= s@);
    r
}

fn find_dark_point(counts: &[u64], clip: u64, s: Ghost<Seq<u8>>) -> (r: u8)
    requires
        counts@.len() == 256,
        s@.len() <= u64::MAX,
        forall|v: int| 0 <= v < 256 ==> #[trigger] counts@[v] == count_of(s@, v),
    ensures
        r == dark_point(s@, clip as int, 0),
{
    let mut sum: u64 = 0;
    let mut v: usize = 0;
    proof {
        counts_add_up(s@, -1);
    }
    loop
        invariant
            counts@.len() == 256,
            s@.len() <= u64::MAX,
            forall|v: int| 0 <= v < 256 ==> #[trigger] counts@[v] == count_of(s@, v),
            v < 256,
            sum == count_upto(s@, v - 1),
            dark_point(s@, clip as int, 0) == dark_point(s@, clip as int, v as int),
        decreases 256 - v,
    {
        proof {
            counts_add_up(s@, v as int);
        }
        sum += counts[v];
        if v == 255 || sum >= clip {
            return v as u8;
        }
        v += 1;
    }
}

fn find_light_point(counts: &[u64], clip: u64, s: Ghost<Seq<u8>>) -> (r: u8)
    requires
        counts@.len() == 256,
        s@.len() <= u64::MAX,
        forall|v: int| 0 <= v < 256 ==> #[trigger] counts@[v] == count_of(s@, v),
    ensures
        r == light_point(s@, clip as int, 255),
{
    let mut sum: u64 = 0;
    let mut v: usize = 255;
    proof {
        counts_add_up(s@, 256);
    }
    loop
        invariant
            counts@.len() == 256,
            s@.len() <= u64::MAX,
            forall|v: int| 0 <= v < 256 ==> #[trigger] counts@[v] == count_of(s@, v),
            v < 256,
            sum == count_from(s@, v + 1),
            light_point(s@, clip as int, 255) == light_point(s@, clip as int, v as int),
        decreases v,
    {
        proof {
            counts_add_up(s@, v as int);
        }
        sum += counts[v];
        if v == 0 || sum >= clip {
            return v as u8;
        }
        v -= 1;
    }
}

proof fn powers_grow(a: int, b: int)
    by (nonlinear_arith)
    requires
        0 <= a <= b,
    ensures
        0 <= fourth(a) <= fourth(b),
        0 <= fifth(a) <= fifth(b),
{
    assert(0 <= a * a <= b * b);
    assert(0 <= a * a * a <= b * b * b);
    assert(0 <= a * a * a * a <= b * b * b * b);
    assert(0 <= a * a * a * a * a <= b * b * b * b * b);
}

fn tone(k: u8, range: u8) -> (r: u8)
    ensures
        r == level(k as int, range as int),
{
    let step: u128 = k as u128;
    let whole: u128 = range as u128;
    proof {
        powers_grow(step as int, 255);
        powers_grow(whole as int, 255);
        large_powers();
        power_parts(step as int, 255);
        power_parts(whole as int, 255);
    }
    let full: u128 = 510 * 510 * 510 * 510;
    let fifth_of_k: u128 = step * step * step * step * step;
    assert(full * fifth_of_k <= 67652010000 * 1078203909375) by (nonlinear_arith)
        requires
            full == 67652010000,
            0 <= fifth_of_k <= 1078203909375,
    ;
    let target: u128 = full * fifth_of_k;
    let unit: u128 = whole * whole * whole * whole * whole;
    let mut m: u128 = 255;
    while m > 0
        invariant
            m <= 255,
            target == fourth(510) * fifth(k as int),
            unit == fifth(range as int),
            unit <= 1078203909375,
            level(k as int, range as int) == level_from(m as int, k as int, range as int),
        decreases m,
    {
        let odd: u128 = 2 * m - 1;
        proof {
            powers_grow(odd as int, 509);
            power_parts(odd as int, 509);
            large_powers();
            assert(fourth(odd as int) * unit <= 67122964561int * 1078203909375) by (nonlinear_arith)
                requires
                    0 <= fourth(odd as int) <= 67122964561int,
                    0 <= unit <= 1078203909375,
            ;
        }
        let reached: u128 = odd * odd * odd * odd * unit;
        assert(reached == fourth(2 * m - 1) * fifth(range as int));
        if reached <= target {
            return m as u8;
        }
        m -= 1;
    }
    0
}

proof fn power_parts(a: int, b: int)
    by (nonlinear_arith)
    requires
        0 <= a <= b,
    ensures
        0 <= a * a <= b * b,
        0 <= a * a * a <= b * b * b,
        0 <= a * a * a * a <= b * b * b * b,
{
    assert(0 <= a * a <= b * b);
    assert(0 <= a * a * a <= b * b * b);
}

/// Stretches the contrast of a picture: half a percent of the pixels is clipped at either end of
/// the histogram, what is left is stretched to the whole range, and a gamma of 0.8 darkens the
/// midtones.
pub fn enhance_image(img: &Picture) -> (r: Picture)
    requires
        img.wf(),
    ensures
        r@ == enhanced(img@),
        r.wf(),
{
    let gray = img.to_gray();
    let pixels: u64 = gray.samples.len() as u64;
    proof {
        vstd::arithmetic::mul::lemma_mul_is_commutative(img.width as int, img.height as int);
        assert(img.width * 1 == img.width);
    }
    let clip: u64 = pixels / 200;
    let counts = histogram(&gray.samples);
    let low: u8 = find_dark_point(&counts, clip, Ghost(gray.samples@));
    let high: u8 = find_light_point(&counts, clip, Ghost(gray.samples@));
    if high <= low {
        return img.copy();
    }
    let curve = tone_curve(low, high);
    let mut samples: Vec<u8> = Vec::new();
    let mut i: usize = 0;
    while i < img.samples.len()
        invariant
            i <= img.samples@.len(),
            samples@.len() == i,
            curve@.len() == 256,
            forall|v: int| 0 <= v < 256 ==> #[trigger] curve@[v] == toned(v, low as int, high as int),
            forall|k: int|
                0 <= k < i ==> #[trigger] samples@[k] == toned(
                    img.samples@[k] as int,
                    low as int,
                    high as int,
                ),
        decreases img.samples.len() - i,
    {
        let v: usize = img.samples[i] as usize;
        samples.push(curve[v]);
        i += 1;
    }
    assert(samples@ =~= enhanced(img@).samples);
    Picture { width: img.width, height: img.height, color: img.color, exact: true, samples }
}

/// What each value becomes.
fn tone_curve(low: u8, high: u8) -> (r: Vec<u8>)
    requires
        low < high,
    ensures
        r@.len() == 256,
        forall|v: int| 0 <= v < 256 ==> #[trigger] r@[v] == toned(v, low as int, high as int),
{
    let mut r: Vec<u8> = Vec::new();
    let mut v: usize = 0;
    while v < 256
        invariant
            v <= 256,
            low < high,
            r@.len() == v,
            forall|k: int| 0 <= k < v ==> #[trigger] r@[k] == toned(k, low as int, high as int),
        decreases 256 - v,
    {
        let k: u8 = if v <= low as usize {
            0
        } else if v >= high as usize {
            high - low
        } else {
            v as u8 - low
        };
        r.push(tone(k, high - low));
        v += 1;
    }
    r
}

/// How many samples are within two bounds, both of them counted in.
pub open spec fn count_within(s: Seq<u8>, from: int, to: int) -> int {
    s.filter(|v: u8| from <= v <= to).len() as int
}

proof fn counts_are_within(s: Seq<u8>, v: int)
    ensures
        count_upto(s, v) == count_within(s, 0, v),
        count_from(s, v) == count_within(s, v, 255),
    decreases s.len(),
{
    reveal(Seq::filter);
    if s.len() > 0 {
        counts_are_within(s.drop_last(), v);
    }
}

/// The darkest level that counts is the least up to which half a percent of the pixels lie, and the
/// lightest the greatest from which on half a percent lie; `low` and `high` are these levels.
pub open spec fn are_clip_levels(img: Raster, low: int, high: int) -> bool {
    let s = grays(img);
    let clip = (img.width * img.height) / 200;
    &&& 0 <= low <= 255
    &&& 0 <= high <= 255
    &&& low == 255 || count_within(s, 0, low) >= clip
    &&& forall|v: int| 0 <= v < low ==> #[trigger] count_within(s, 0, v) < clip
    &&& high == 0 || count_within(s, high, 255) >= clip
    &&& forall|v: int| high < v <= 255 ==> #[trigger] count_within(s, v, 255) < clip
}

proof fn dark_point_is_least(s: Seq<u8>, clip: int, v: int)
    requires
        0 <= v <= 255,
    ensures
        v <= dark_point(s, clip, v) <= 255,
        dark_point(s, clip, v) == 255 || count_upto(s, dark_point(s, clip, v)) >= clip,
        forall|u: int| v <= u < dark_point(s, clip, v) ==> #[trigger] count_upto(s, u) < clip,
    decreases 255 - v,
{
    if v < 255 && count_upto(s, v) < clip {
        dark_point_is_least(s, clip, v + 1);
    }
}

proof fn light_point_is_greatest(s: Seq<u8>, clip: int, v: int)
    requires
        0 <= v <= 255,
    ensures
        0 <= light_point(s, clip, v) <= v,
        light_point(s, clip, v) == 0 || count_from(s, light_point(s, clip, v)) >= clip,
        forall|u: int| light_point(s, clip, v) < u <= v ==> #[trigger] count_from(s, u) < clip,
    decreases v,
{
    if v > 0 && count_from(s, v) < clip {
        light_point_is_greatest(s, clip, v - 1);
    }
}

/// Stretching the contrast of a picture, gray or in color, spreads its levels over the whole range:
/// what is at or below its darkest level that counts becomes black, what is at or above the lightest
/// one becomes white, and what lies between keeps its order. A picture whose levels do not differ stays
/// as it is.
pub proof fn contrast_is_stretched(img: Raster) -> (clip: (int, int))
    ensures
        are_clip_levels(img, clip.0, clip.1),
        clip.1 <= clip.0 ==> enhanced(img) == img,
        clip.0 < clip.1 ==> {
            let r = enhanced(img);
            &&& r.width == img.width
            &&& r.height == img.height
            &&& r.color == img.color
            &&& r.exact
            &&& r.samples.len() == img.samples.len()
            &&& forall|i: int|
                0 <= i < img.samples.len() && img.samples[i] <= clip.0 ==> #[trigger] r.samples[i]
                    == 0
            &&& forall|i: int|
                0 <= i < img.samples.len() && img.samples[i] >= clip.1 ==> #[trigger] r.samples[i]
                    == 255
            &&& forall|i: int, j: int|
                0 <= i < img.samples.len() && 0 <= j < img.samples.len() && img.samples[i]
                    <= img.samples[j] ==> #[trigger] r.samples[i] <= #[trigger] r.samples[j]
        },
{
    let s = grays(img);
    let clip = clip_of(img);
    let low = low_of(img);
    let high = high_of(img);
    dark_point_is_least(s, clip, 0);
    light_point_is_greatest(s, clip, 255);
    assert forall|v: int| count_upto(s, v) == #[trigger] count_within(s, 0, v) by {
        counts_are_within(s, v);
    }
    assert forall|v: int| count_from(s, v) == #[trigger] count_within(s, v, 255) by {
        counts_are_within(s, v);
    }
    assert forall|v: int| 0 <= v < low implies #[trigger] count_within(s, 0, v) < clip by {
        assert(count_upto(s, v) < clip);
    }
    assert forall|v: int| high < v <= 255 implies #[trigger] count_within(s, v, 255) < clip by {
        assert(count_from(s, v) < clip);
    }
    assert(count_upto(s, low) == count_within(s, 0, low));
    assert(count_from(s, high) == count_within(s, high, 255));
    if low < high {
        levels_span_the_range(high - low);
        let r = enhanced(img);
        assert forall|i: int, j: int|
            0 <= i < img.samples.len() && 0 <= j < img.samples.len() && img.samples[i]
                <= img.samples[j] implies #[trigger] r.samples[i] <= #[trigger] r.samples[j] by {
            toning_keeps_order(img.samples[i] as int, img.samples[j] as int, low, high);
        }
    }
    (low, high)
}

} // verus!
