//! Pictures as rows of 8-bit samples, and what is measured on them.

use image::{DynamicImage, RgbImage};
use vstd::prelude::*;

verus! {

/// A picture: rows from top to bottom, pixels from left to right, and for each pixel one sample
/// (gray) or three (red, green, blue). Samples have 8 bits.
///
/// An image with deeper samples or with transparency is cut to that when it is read. Such a picture
/// is not exact: there is more to the image than its samples show.
#[derive(Debug)]
pub struct Picture {
    pub width: u32,
    pub height: u32,
    pub color: bool,
    pub exact: bool,
    pub samples: Vec<u8>,
}

/// How many samples a pixel has.
pub open spec fn depth(color: bool) -> int {
    if color {
        3
    } else {
        1
    }
}

/// A picture as numbers.
#[verifier::ext_equal]
pub struct Raster {
    pub width: int,
    pub height: int,
    pub color: bool,
    pub exact: bool,
    pub samples: Seq<u8>,
}

impl View for Picture {
    type V = Raster;

    open spec fn view(&self) -> Raster {
        Raster {
            width: self.width as int,
            height: self.height as int,
            color: self.color,
            exact: self.exact,
            samples: self.samples@,
        }
    }
}

impl Raster {
    /// How many samples stand in one row.
    pub open spec fn stride(self) -> int {
        self.width * depth(self.color)
    }

    /// The samples fill the picture exactly.
    pub open spec fn wf(self) -> bool {
        &&& 0 <= self.width <= u32::MAX
        &&& 0 <= self.height <= u32::MAX
        &&& self.samples.len() == self.height * self.stride()
    }

    /// The samples of row `y`.
    pub open spec fn row(self, y: int) -> Seq<u8> {
        self.samples.subrange(y * self.stride(), (y + 1) * self.stride())
    }

    /// The piece of row `y` from column `left` up to and without column `right`.
    pub open spec fn piece(self, y: int, left: int, right: int) -> Seq<u8> {
        self.row(y).subrange(left * depth(self.color), right * depth(self.color))
    }
}

/// The samples of the part that is `width` wide and `height` high, with its top left corner at
/// `(left, top)`, row for row.
pub open spec fn part_samples(of: Raster, left: int, top: int, width: int, height: int) -> Seq<u8>
    decreases height,
{
    if height <= 0 {
        seq![]
    } else {
        part_samples(of, left, top, width, height - 1) + of.piece(
            top + height - 1,
            left,
            left + width,
        )
    }
}

/// The part that is `width` wide and `height` high, with its top left corner at `(left, top)`.
pub open spec fn part(of: Raster, left: int, top: int, width: int, height: int) -> Raster {
    Raster {
        width,
        height,
        color: of.color,
        exact: of.exact,
        samples: part_samples(of, left, top, width, height),
    }
}

/// The part lies within the picture.
pub open spec fn contains_part(of: Raster, left: int, top: int, width: int, height: int) -> bool {
    &&& 0 <= left
    &&& 0 <= width
    &&& left + width <= of.width
    &&& 0 <= top
    &&& 0 <= height
    &&& top + height <= of.height
}

pub(crate) proof fn row_in_samples(img: Raster, y: int)
    requires
        img.wf(),
        0 <= y < img.height,
    ensures
        0 <= y * img.stride() <= (y + 1) * img.stride() <= img.samples.len(),
        (y + 1) * img.stride() == y * img.stride() + img.stride(),
        img.row(y).len() == img.stride(),
        img.stride() >= img.width,
{
    let n = img.stride();
    assert(0 <= y * n <= (y + 1) * n <= img.height * n && (y + 1) * n == y * n + n) by (nonlinear_arith)
        requires
            0 <= y < img.height,
            0 <= n,
    ;
}

/// A part of a picture is a picture.
pub proof fn part_is_wf(of: Raster, left: int, top: int, width: int, height: int)
    requires
        of.wf(),
        contains_part(of, left, top, width, height),
    ensures
        part(of, left, top, width, height).wf(),
    decreases height,
{
    let n = width * depth(of.color);
    if height > 0 {
        part_is_wf(of, left, top, width, height - 1);
        row_in_samples(of, top + height - 1);
        assert((height - 1) * n + n == height * n) by (nonlinear_arith);
        assert((left + width) * depth(of.color) == left * depth(of.color) + n) by {
            if of.color {
            } else {
            }
        }
    } else {
        assert(0 * n == 0);
    }
}

/// A row of a part is a piece of a row of the whole.
pub proof fn row_of_part(of: Raster, left: int, top: int, width: int, height: int, y: int)
    requires
        of.wf(),
        contains_part(of, left, top, width, height),
        0 <= y < height,
    ensures
        part(of, left, top, width, height).row(y) == of.piece(top + y, left, left + width),
    decreases height,
{
    let n = width * depth(of.color);
    let whole = part_samples(of, left, top, width, height);
    let before = part_samples(of, left, top, width, height - 1);
    part_is_wf(of, left, top, width, height);
    part_is_wf(of, left, top, width, height - 1);
    row_in_samples(of, top + height - 1);
    assert(0 <= y * n <= (y + 1) * n) by (nonlinear_arith)
        requires
            0 <= y,
            0 <= n,
    ;
    if y == height - 1 {
        assert(whole.subrange(y * n, (y + 1) * n) =~= of.piece(top + y, left, left + width));
    } else {
        row_of_part(of, left, top, width, height - 1, y);
        assert((y + 1) * n <= (height - 1) * n) by (nonlinear_arith)
            requires
                y + 1 <= height - 1,
                0 <= n,
        ;
        assert(whole.subrange(y * n, (y + 1) * n) =~= before.subrange(y * n, (y + 1) * n));
    }
}

/// The part that takes in everything is the whole.
pub proof fn whole_is_part(of: Raster)
    requires
        of.wf(),
    ensures
        part(of, 0, 0, of.width, of.height) == of,
{
    first_rows(of, of.height);
    assert(of.samples.take(of.height * of.stride()) =~= of.samples);
}

proof fn first_rows(of: Raster, height: int)
    requires
        of.wf(),
        0 <= height <= of.height,
    ensures
        0 <= height * of.stride() <= of.samples.len(),
        part_samples(of, 0, 0, of.width, height) == of.samples.take(height * of.stride()),
    decreases height,
{
    if height > 0 {
        first_rows(of, height - 1);
        row_in_samples(of, height - 1);
        assert(part_samples(of, 0, 0, of.width, height) =~= of.samples.take(height * of.stride()));
    } else {
        assert(0 * of.stride() == 0);
        assert(of.samples.take(0) =~= seq![]);
    }
}

impl Picture {
    /// The samples fill the picture exactly.
    pub open spec fn wf(self) -> bool {
        self@.wf()
    }

    /// The number of samples of a pixel.
    fn channels(&self) -> (r: usize)
        ensures
            r == depth(self.color),
    {
        if self.color {
            3
        } else {
            1
        }
    }

    /// The samples of row `y`.
    pub fn row_samples(&self, y: u32) -> (r: &[u8])
        requires
            self.wf(),
            y < self.height,
        ensures
            r@ == self@.row(y as int),
            r@.len() == self@.stride(),
    {
        let size: usize = self.samples.len();
        proof {
            row_in_samples(self@, y as int);
        }
        let n: usize = size / self.height as usize;
        proof {
            let n0 = self@.stride();
            assert((self.height * n0) / (self.height as int) == n0) by (nonlinear_arith)
                requires
                    self.height > 0,
            ;
        }
        let from: usize = y as usize * n;
        &self.samples[from..from + n]
    }

    /// An equal picture.
    pub fn copy(&self) -> (r: Picture)
        ensures
            r@ == self@,
    {
        let mut samples: Vec<u8> = Vec::new();
        samples.extend_from_slice(&self.samples);
        assert(samples@ =~= self.samples@);
        Picture {
            width: self.width,
            height: self.height,
            color: self.color,
            exact: self.exact,
            samples,
        }
    }

    /// The part that is `width` wide and `height` high, with its top left corner at
    /// `(left, top)`.
    pub fn crop(&self, left: u32, top: u32, width: u32, height: u32) -> (r: Picture)
        requires
            self.wf(),
            left + width <= self.width,
            top + height <= self.height,
        ensures
            r@ == part(self@, left as int, top as int, width as int, height as int),
            r.wf(),
    {
        let mut samples: Vec<u8> = Vec::new();
        let mut y: u32 = 0;
        let n: usize = self.channels();
        while y < height
            invariant
                self.wf(),
                left + width <= self.width,
                top + height <= self.height,
                y <= height,
                n == depth(self.color),
                samples@ == part_samples(
                    self@,
                    left as int,
                    top as int,
                    width as int,
                    y as int,
                ),
            decreases height - y,
        {
            let row = self.row_samples(top + y);
            let length: usize = row.len();
            proof {
                let (l, w, all, d) = (left as int, width as int, self.width as int, n as int);
                assert(l * d + w * d <= all * d && (l + w) * d == l * d + w * d && 0 <= l * d && 0 <= w * d) by (nonlinear_arith)
                    requires
                        0 <= l,
                        0 <= w,
                        l + w <= all,
                        0 <= d,
                ;
                assert(length == all * d);
            }
            let from: usize = left as usize * n;
            let to: usize = from + width as usize * n;
            samples.extend_from_slice(&row[from..to]);
            y += 1;
            assert(samples@ =~= part_samples(
                self@,
                left as int,
                top as int,
                width as int,
                y as int,
            ));
        }
        proof {
            part_is_wf(self@, left as int, top as int, width as int, height as int);
        }
        Picture { width, height, color: self.color, exact: self.exact, samples }
    }
}

/// The gray level of a color, by the weights of red, green and blue in what the eye sees.
pub open spec fn luma(red: u8, green: u8, blue: u8) -> u8 {
    ((2126 * red + 7152 * green + 722 * blue) / 10000) as u8
}

/// The gray levels of the pixels of a color picture.
pub open spec fn luminance(samples: Seq<u8>) -> Seq<u8> {
    Seq::new(
        samples.len() / 3,
        |i: int| luma(samples[3 * i], samples[3 * i + 1], samples[3 * i + 2]),
    )
}

/// A color whose parts are equal has their level: turning gray into color and back changes
/// nothing.
pub proof fn neutral_colors_keep_their_level(samples: Seq<u8>)
    ensures
        luminance(Seq::new(3 * samples.len(), |i: int| samples[i / 3])) == samples,
{
    let color = Seq::new(3 * samples.len(), |i: int| samples[i / 3]);
    assert(luminance(color).len() == samples.len());
    assert forall|i: int| 0 <= i < samples.len() implies luminance(color)[i] == samples[i] by {
        assert((3 * i) / 3 == i && (3 * i + 1) / 3 == i && (3 * i + 2) / 3 == i);
    }
    assert(luminance(color) =~= samples);
}

/// Turns a color picture gray with `image::DynamicImage::to_luma8`. Claimed: each pixel becomes the
/// whole part of the weighted mean of its red, green and blue.
#[verifier::external_body]
fn luma_samples(width: u32, height: u32, samples: &[u8]) -> (r: Vec<u8>)
    requires
        samples@.len() == height * (width * 3),
    ensures
        r@ == luminance(samples@),
{
    match RgbImage::from_raw(width, height, samples.to_vec()) {
        Some(rgb) => DynamicImage::ImageRgb8(rgb).to_luma8().into_raw(),
        None => Vec::new(),
    }
}

/// The gray samples of a picture, one for each pixel.
pub open spec fn grays(img: Raster) -> Seq<u8> {
    if img.color {
        luminance(img.samples)
    } else {
        img.samples
    }
}

/// The picture in gray, which has no more to it than its samples.
pub open spec fn gray(img: Raster) -> Raster {
    Raster { width: img.width, height: img.height, color: false, exact: true, samples: grays(img) }
}

impl Picture {
    /// The picture in gray.
    pub fn to_gray(&self) -> (r: Picture)
        requires
            self.wf(),
        ensures
            r@ == gray(self@),
            r.wf(),
    {
        if self.color {
            assert(self.height * (self.width * 3) == 3 * (self.height * self.width))
                by (nonlinear_arith);
            Picture {
                width: self.width,
                height: self.height,
                color: false,
                exact: true,
                samples: luma_samples(self.width, self.height, &self.samples),
            }
        } else {
            let mut r = self.copy();
            r.exact = true;
            r
        }
    }
}

/// The samples of row `y`, where a row has `width` gray samples.
pub open spec fn line(samples: Seq<u8>, width: int, y: int) -> Seq<u8> {
    samples.subrange(y * width, (y + 1) * width)
}

/// The gray samples of column `x` in the rows from `top` up to and without `bottom`.
pub open spec fn column(samples: Seq<u8>, width: int, x: int, top: int, bottom: int) -> Seq<u8> {
    Seq::new((bottom - top) as nat, |i: int| samples[(top + i) * width + x])
}

/// The sum of some samples.
pub open spec fn total(s: Seq<u8>) -> int
    decreases s.len(),
{
    if s.len() == 0 {
        0
    } else {
        total(s.drop_last()) + s.last()
    }
}

/// The sum of the squares of some samples.
pub open spec fn squares(s: Seq<u8>) -> int
    decreases s.len(),
{
    if s.len() == 0 {
        0
    } else {
        squares(s.drop_last()) + s.last() * s.last()
    }
}

/// The variance of some samples, times the square of their number: that makes it whole.
pub open spec fn spread(s: Seq<u8>) -> int {
    s.len() * squares(s) - total(s) * total(s)
}

/// The sum of some samples.
pub fn total_of(s: &[u8]) -> (r: u64)
    requires
        s@.len() <= u32::MAX,
    ensures
        r == total(s@),
        r <= 255 * s@.len(),
{
    let mut r: u64 = 0;
    let mut i: usize = 0;
    while i < s.len()
        invariant
            i <= s@.len() <= u32::MAX,
            r == total(s@.take(i as int)),
            r <= 255 * i,
        decreases s.len() - i,
    {
        r += s[i] as u64;
        i += 1;
        assert(s@.take(i as int).drop_last() =~= s@.take(i - 1));
    }
    assert(s@.take(i as int) =~= s@);
    r
}

fn squares_of(s: &[u8]) -> (r: u64)
    requires
        s@.len() <= u32::MAX,
    ensures
        r == squares(s@),
        r <= 65025 * s@.len(),
{
    let mut r: u64 = 0;
    let mut i: usize = 0;
    while i < s.len()
        invariant
            i <= s@.len() <= u32::MAX,
            r == squares(s@.take(i as int)),
            r <= 65025 * i,
        decreases s.len() - i,
    {
        let v: u64 = s[i] as u64;
        assert(v * v <= 65025) by (nonlinear_arith)
            requires
                v <= 255,
        ;
        r += v * v;
        i += 1;
        assert(s@.take(i as int).drop_last() =~= s@.take(i - 1));
    }
    assert(s@.take(i as int) =~= s@);
    r
}

/// The variance of some samples, times the square of their number.
pub fn spread_of(s: &[u8]) -> (r: i128)
    requires
        s@.len() <= u32::MAX,
    ensures
        r == spread(s@),
{
    let n: i128 = s.len() as i128;
    let a: i128 = total_of(s) as i128;
    let b: i128 = squares_of(s) as i128;
    assert(0 <= n * b <= 0x1_0000_0000 * 0x1_0000_0000_0000) by (nonlinear_arith)
        requires
            0 <= n <= 0xffff_ffff,
            0 <= b <= 65025 * n,
    ;
    assert(0 <= a * a <= 0x100_0000_0000 * 0x100_0000_0000) by (nonlinear_arith)
        requires
            0 <= n <= 0xffff_ffff,
            0 <= a <= 255 * n,
    ;
    n * b - a * a
}

impl Picture {
    /// The samples of column `x` of a gray picture in the rows from `top` up to and without
    /// `bottom`.
    pub fn column_samples(&self, x: u32, top: u32, bottom: u32) -> (r: Vec<u8>)
        requires
            self.wf(),
            !self.color,
            x < self.width,
            top <= bottom <= self.height,
        ensures
            r@ == column(self.samples@, self.width as int, x as int, top as int, bottom as int),
    {
        let mut r: Vec<u8> = Vec::new();
        let mut y: u32 = top;
        while y < bottom
            invariant
                self.wf(),
                !self.color,
                x < self.width,
                top <= y <= bottom <= self.height,
                r@ == column(self.samples@, self.width as int, x as int, top as int, y as int),
            decreases bottom - y,
        {
            let row = self.row_samples(y);
            r.push(row[x as usize]);
            proof {
                row_in_samples(self@, y as int);
                assert(self@.row(y as int)[x as int] == self.samples@[y * self.width + x]);
            }
            y += 1;
            assert(r@ =~= column(self.samples@, self.width as int, x as int, top as int, y as int));
        }
        r
    }
}

/// How far samples are from a level: the sum of the squares of the differences.
pub open spec fn distance(s: Seq<u8>, level: u8) -> int
    decreases s.len(),
{
    if s.len() == 0 {
        0
    } else {
        distance(s.drop_last(), level) + (s.last() - level) * (s.last() - level)
    }
}

/// How far samples are from each other: the sum of the squares of the differences, over all pairs.
pub open spec fn pair_distance(s: Seq<u8>) -> int
    decreases s.len(),
{
    if s.len() == 0 {
        0
    } else {
        pair_distance(s.drop_last()) + distance(s.drop_last(), s.last())
    }
}

proof fn distance_is_quadratic(s: Seq<u8>, level: u8)
    ensures
        distance(s, level) == squares(s) - 2 * level * total(s) + s.len() * (level * level),
    decreases s.len(),
{
    if s.len() > 0 {
        let rest = s.drop_last();
        distance_is_quadratic(rest, level);
        let (x, l, t, n) = (s.last() as int, level as int, total(rest), rest.len() as int);
        assert((x - l) * (x - l) == x * x - 2 * l * x + l * l) by (nonlinear_arith);
        assert(2 * l * (t + x) == 2 * l * t + 2 * l * x) by (nonlinear_arith);
        assert((n + 1) * (l * l) == n * (l * l) + l * l) by (nonlinear_arith);
    } else {
        assert(2 * level * 0 == 0);
        assert(0 * (level * level) == 0);
    }
}

/// The spread of samples is how far they are from each other, over all pairs.
pub proof fn spread_is_pair_distance(s: Seq<u8>)
    ensures
        spread(s) == pair_distance(s),
    decreases s.len(),
{
    if s.len() > 0 {
        let rest = s.drop_last();
        spread_is_pair_distance(rest);
        distance_is_quadratic(rest, s.last());
        let (x, t, q, n) = (s.last() as int, total(rest), squares(rest), rest.len() as int);
        assert((n + 1) * (q + x * x) - (t + x) * (t + x) == (n * q - t * t) + (q - 2 * x * t + n * (x
            * x))) by (nonlinear_arith);
    } else {
        assert(0 * squares(s) == 0);
        assert(total(s) * total(s) == 0);
    }
}

/// The sum of samples is that of their parts, and of one sample it is the sample.
pub proof fn totals_add_up(a: Seq<u8>, b: Seq<u8>, v: u8)
    ensures
        total(a + b) == total(a) + total(b),
        total(seq![v]) == v,
    decreases b.len(),
{
    reveal_with_fuel(total, 2);
    assert(seq![v].drop_last() =~= seq![]);
    if b.len() == 0 {
        assert(a + b =~= a);
    } else {
        assert((a + b).drop_last() =~= a + b.drop_last());
        totals_add_up(a, b.drop_last(), v);
    }
}

/// Turned gray, a picture has the size that it had, and one level for each pixel; one that is gray
/// already keeps its levels.
pub proof fn gray_pictures_keep_their_size(img: Raster)
    requires
        img.wf(),
    ensures
        gray(img).width == img.width,
        gray(img).height == img.height,
        !gray(img).color,
        gray(img).samples.len() == img.width * img.height,
        !img.color ==> gray(img).samples == img.samples,
{
    let (w, h) = (img.width, img.height);
    assert(h * (w * 3) == 3 * (h * w)) by (nonlinear_arith);
    assert(h * (w * 1) == h * w) by (nonlinear_arith);
    assert(h * w == w * h) by (nonlinear_arith);
}

} // verus!
