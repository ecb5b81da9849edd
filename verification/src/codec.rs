//! Pictures to and from files, and at other sizes: what the image crate computes.

use std::io::Cursor;

use image::codecs::jpeg::JpegEncoder;
use image::imageops::FilterType;
use image::{DynamicImage, ExtendedColorType, GrayImage, ImageFormat, ImageReader, RgbImage};
use vstd::prelude::*;

use crate::picture::{depth, Picture, Raster};

verus! {

/// A picture `w` wide and `h` high fits a screen at the size `(r_w, r_h)`: that is as wide as the
/// screen and has the height that keeps the proportions, up to one pixel, or the other way round. On
/// a screen without pixels it has one.
pub open spec fn fits(w: int, h: int, screen_w: int, screen_h: int, r_w: int, r_h: int) -> bool {
    if screen_w == 0 || screen_h == 0 {
        r_w == 1 && r_h == 1
    } else {
        &&& 1 <= r_w <= screen_w
        &&& 1 <= r_h <= screen_h
        &&& (r_w == screen_w && -w <= r_h * w - h * r_w <= w) || (r_h == screen_h && -h <= r_w * h
            - w * r_h <= h)
    }
}

/// Whether the memory that it takes to bring a picture of this width to a screen can be counted: the
/// samples of the screen, and the floating-point samples of the picture at the height of the screen.
pub open spec fn resizable(width: int, screen_w: int, screen_h: int) -> bool {
    &&& (screen_h + 1) * ((screen_w + 1) * 3) <= isize::MAX
    &&& (screen_h + 1) * (width * 16) <= isize::MAX
}

/// `image::DynamicImage::resize` with the Lanczos filter may turn a picture into the other one on
/// such a screen. It may give more than one: its samples rest on the sine function of the machine.
pub uninterp spec fn may_resize(img: Raster, screen_w: int, screen_h: int, r: Raster) -> bool;

/// A picture as numbers, from its parts, with nothing to it but its samples.
pub open spec fn raster(width: u32, height: u32, color: bool, samples: Seq<u8>) -> Raster {
    Raster { width: width as int, height: height as int, color, exact: true, samples }
}

/// Fits a gray picture to a screen with `image::DynamicImage::resize` and the Lanczos filter.
/// Claimed: it is one of the pictures that this call may give, the size fits, there is one sample for
/// each pixel, and a picture that has the size already keeps its samples. What the samples else are
/// is left unsaid.
#[verifier::external_body]
fn resize_gray(width: u32, height: u32, samples: Vec<u8>, nwidth: u32, nheight: u32) -> (r: (
    u32,
    u32,
    Vec<u8>,
))
    requires
        0 < width,
        0 < height,
        samples@.len() == height * width,
        resizable(width as int, nwidth as int, nheight as int),
    ensures
        fits(width as int, height as int, nwidth as int, nheight as int, r.0 as int, r.1 as int),
        may_resize(
            raster(width, height, false, samples@),
            nwidth as int,
            nheight as int,
            raster(r.0, r.1, false, r.2@),
        ),
        r.2@.len() == r.1 * r.0,
        (r.0, r.1) == (width, height) ==> r.2@ == samples@,
{
    match GrayImage::from_raw(width, height, samples) {
        Some(g) => {
            let out = DynamicImage::ImageLuma8(g).resize(nwidth, nheight, FilterType::Lanczos3);
            (out.width(), out.height(), out.into_bytes())
        },
        None => (0, 0, Vec::new()),
    }
}

/// Fits a color picture to a screen with `image::DynamicImage::resize` and the Lanczos filter.
/// Claimed: it is one of the pictures that this call may give, the size fits, there are three
/// samples for each pixel, and a picture that has the size already keeps its samples. What the
/// samples else are is left unsaid.
#[verifier::external_body]
fn resize_rgb(width: u32, height: u32, samples: Vec<u8>, nwidth: u32, nheight: u32) -> (r: (
    u32,
    u32,
    Vec<u8>,
))
    requires
        0 < width,
        0 < height,
        samples@.len() == height * (width * 3),
        resizable(width as int, nwidth as int, nheight as int),
    ensures
        fits(width as int, height as int, nwidth as int, nheight as int, r.0 as int, r.1 as int),
        may_resize(
            raster(width, height, true, samples@),
            nwidth as int,
            nheight as int,
            raster(r.0, r.1, true, r.2@),
        ),
        r.2@.len() == r.1 * (r.0 * 3),
        (r.0, r.1) == (width, height) ==> r.2@ == samples@,
{
    match RgbImage::from_raw(width, height, samples) {
        Some(c) => {
            let out = DynamicImage::ImageRgb8(c).resize(nwidth, nheight, FilterType::Lanczos3);
            (out.width(), out.height(), out.into_bytes())
        },
        None => (0, 0, Vec::new()),
    }
}

/// The JPEG file that `image::codecs::jpeg::JpegEncoder` writes for a picture at a quality.
pub uninterp spec fn jpeg_file(
    width: int,
    height: int,
    color: bool,
    samples: Seq<u8>,
    quality: u8,
) -> Seq<u8>;

/// Whether a picture of this size can be a JPEG file, whose size fields have 16 bits.
pub open spec fn jpeg_size(width: int, height: int) -> bool {
    width <= 0xffff && height <= 0xffff
}

/// Writes a picture with `image::codecs::jpeg::JpegEncoder::encode`. Claimed: the file depends on
/// the picture and the quality alone, and it is an error exactly where the size does not fit.
#[verifier::external_body]
fn write_jpeg(width: u32, height: u32, color: bool, samples: &[u8], quality: u8) -> (r: Option<
    Vec<u8>,
>)
    requires
        samples@.len() == height * (width * depth(color)),
    ensures
        (r is Some) == jpeg_size(width as int, height as int),
        r is Some ==> (r->0)@ == jpeg_file(
            width as int,
            height as int,
            color,
            samples@,
            quality,
        ),
{
    let kind = [ExtendedColorType::L8, ExtendedColorType::Rgb8][usize::from(color)];
    let mut file = Vec::new();
    let done = JpegEncoder::new_with_quality(&mut file, quality).encode(samples, width, height, kind);
    done.ok().map(|_| file)
}

/// What is known of a picture that may be missing.
pub open spec fn seen(img: Option<Picture>) -> Option<Raster> {
    match img {
        Some(p) => Some(p@),
        None => None,
    }
}

/// `image::load_from_memory` may read this picture, or none, from a file. It may give more than one:
/// the decoder of JPEG files chooses its arithmetic by the vector unit of the machine.
pub uninterp spec fn may_decode(file: Seq<u8>, r: Option<Raster>) -> bool;

/// Reads an image file with `image::load_from_memory`; what is neither gray nor red, green and blue
/// with 8 bits becomes the latter, and is not exact. Claimed: it is one of the pictures that this call
/// may give, and the samples fill it. What they are is left unsaid.
#[verifier::external_body]
pub(crate) fn decode_image(file: &[u8]) -> (r: Option<Picture>)
    ensures
        may_decode(file@, seen(r)),
        r matches Some(p) ==> p.wf(),
{
    let of = |(width, height), color, exact, samples| Picture { width, height, color, exact, samples };
    match image::load_from_memory(file) {
        Ok(DynamicImage::ImageLuma8(g)) => Some(of(g.dimensions(), false, true, g.into_raw())),
        Ok(DynamicImage::ImageRgb8(c)) => Some(of(c.dimensions(), true, true, c.into_raw())),
        Ok(o) => Some(of((o.width(), o.height()), true, false, o.to_rgb8().into_raw())),
        Err(_) => None,
    }
}

/// `image::load_from_memory_with_format` may read this picture, or none, from a file of the format
/// that the extension of its name tells. It may give more than one, as `may_decode` says.
pub uninterp spec fn may_decode_named(name: Seq<char>, file: Seq<u8>, r: Option<Raster>) -> bool;

/// Reads an image file of the format that the extension of its name tells, with
/// `image::ImageFormat::from_path` and `image::load_from_memory_with_format`; what is neither gray nor
/// red, green and blue with 8 bits becomes the latter, and is not exact. Claimed: it is one of the
/// pictures that these calls may give, and the samples fill it. What they are is left unsaid.
#[verifier::external_body]
pub(crate) fn decode_named(name: &str, file: &[u8]) -> (r: Option<Picture>)
    ensures
        may_decode_named(name@, file@, seen(r)),
        r matches Some(p) ==> p.wf(),
{
    let of = |(width, height), color, exact, samples| Picture { width, height, color, exact, samples };
    match image::load_from_memory_with_format(file, ImageFormat::from_path(name).ok()?) {
        Ok(DynamicImage::ImageLuma8(g)) => Some(of(g.dimensions(), false, true, g.into_raw())),
        Ok(DynamicImage::ImageRgb8(c)) => Some(of(c.dimensions(), true, true, c.into_raw())),
        Ok(o) => Some(of((o.width(), o.height()), true, false, o.to_rgb8().into_raw())),
        Err(_) => None,
    }
}

/// The width and height that the header of an image file gives, in the format that the extension of
/// its name tells.
pub uninterp spec fn header_size(name: Seq<char>, file: Seq<u8>) -> Option<(u32, u32)>;

/// The size of an image file, with `image::ImageFormat::from_path` and
/// `image::ImageReader::into_dimensions`. Claimed: it depends on the name and the file alone.
#[verifier::external_body]
pub(crate) fn read_size(name: &str, file: &[u8]) -> (r: Option<(u32, u32)>)
    ensures
        r == header_size(name@, file@),
{
    let format = ImageFormat::from_path(name).ok()?;
    ImageReader::with_format(Cursor::new(file), format).into_dimensions().ok()
}

/// What the samples of a picture show.
pub open spec fn shown(img: Raster) -> Raster {
    Raster { exact: true, ..img }
}

/// A picture that shows another at the size of a screen.
pub open spec fn is_fitted(r: Raster, img: Raster, screen_w: int, screen_h: int) -> bool {
    &&& r.wf()
    &&& r.color == img.color
    &&& r.exact == img.exact
    &&& may_resize(shown(img), screen_w, screen_h, shown(r))
    &&& fits(img.width, img.height, screen_w, screen_h, r.width, r.height)
    &&& (r.width, r.height) == (img.width, img.height) ==> r.samples == img.samples
}

/// The JPEG file of a picture, where its size allows one and there is no more to it than such a file
/// can hold.
pub open spec fn jpeg_of(img: Raster, quality: u8) -> Option<Seq<u8>> {
    if img.exact && jpeg_size(img.width, img.height) {
        Some(jpeg_file(img.width, img.height, img.color, img.samples, quality))
    } else {
        None
    }
}

impl Picture {
    /// The picture at the size of a screen, with its proportions kept.
    pub fn fit(&self, width: u32, height: u32) -> (r: Picture)
        requires
            self.wf(),
            self.width > 0,
            self.height > 0,
            resizable(self.width as int, width as int, height as int),
        ensures
            is_fitted(r@, self@, width as int, height as int),
    {
        let all = self.copy();
        assert(self.width * 1 == self.width);
        let (w, h, samples) = if self.color {
            resize_rgb(self.width, self.height, all.samples, width, height)
        } else {
            resize_gray(self.width, self.height, all.samples, width, height)
        };
        assert(w * 1 == w);
        Picture { width: w, height: h, color: self.color, exact: self.exact, samples }
    }

    /// The picture as a JPEG file, where it is exact and no side is longer than 65535 pixels: such a
    /// file has no transparency and no samples of more than 8 bits.
    pub fn encode_jpeg(&self, quality: u8) -> (r: Option<Vec<u8>>)
        requires
            self.wf(),
        ensures
            (r is Some) == (jpeg_of(self@, quality) is Some),
            r is Some ==> Some((r->0)@) == jpeg_of(self@, quality),
    {
        if self.exact {
            write_jpeg(self.width, self.height, self.color, &self.samples, quality)
        } else {
            None
        }
    }
}

} // verus!
