//! Webtoons: tall strips that are merged and cut into pages.

use vstd::prelude::*;

use crate::codec::{header_size, read_size};
use crate::comic::ComicError;
use crate::layout::BookFile;
use crate::picture::{
    gray, grays, line, part, row_in_samples, spread, spread_of, total, total_of, whole_is_part,
    Picture, Raster,
};

verus! {

/// Whether a source image of this size is a strip: more than three times as high as wide. The size
/// is missing where the image cannot be read.
pub open spec fn is_strip(size: Option<(u32, u32)>) -> bool {
    match size {
        Some((w, h)) => h > 3 * w,
        None => false,
    }
}

/// Whether source images of these sizes are a webtoon: there are some, and all are strips.
pub open spec fn are_strips(sizes: Seq<Option<(u32, u32)>>) -> bool {
    sizes.len() > 0 && forall|i: int| 0 <= i < sizes.len() ==> is_strip(#[trigger] sizes[i])
}

/// The sizes of image files, by their headers.
pub open spec fn header_sizes(files: Seq<BookFile>) -> Seq<Option<(u32, u32)>> {
    Seq::new(files.len(), |i: int| header_size(files[i].name@, files[i].data@))
}

/// The sizes of image files, by their headers.
pub fn image_sizes(files: &[BookFile]) -> (r: Vec<Option<(u32, u32)>>)
    ensures
        r@ == header_sizes(files@),
{
    let mut r: Vec<Option<(u32, u32)>> = Vec::new();
    let mut i: usize = 0;
    while i < files.len()
        invariant
            i <= files@.len(),
            r@ == header_sizes(files@).take(i as int),
        decreases files.len() - i,
    {
        r.push(read_size(files[i].name.as_str(), &files[i].data));
        assert(header_sizes(files@).take(i + 1) =~= header_sizes(files@).take(i as int).push(
            header_sizes(files@)[i as int],
        ));
        i += 1;
    }
    assert(r@ =~= header_sizes(files@));
    r
}

/// Whether image files are a webtoon, by their headers.
pub fn is_webtoon(files: &[BookFile]) -> (r: bool)
    ensures
        r == are_strips(header_sizes(files@)),
{
    detect_webtoon(&image_sizes(files))
}

/// Whether the source images are a webtoon: there are some, and all are strips.
pub fn detect_webtoon(sizes: &[Option<(u32, u32)>]) -> (r: bool)
    ensures
        r == are_strips(sizes@),
{
    if sizes.len() == 0 {
        return false;
    }
    let mut i: usize = 0;
    while i < sizes.len()
        invariant
            i <= sizes@.len(),
            forall|k: int| 0 <= k < i ==> is_strip(#[trigger] sizes@[k]),
        decreases sizes.len() - i,
    {
        let strip = match sizes[i] {
            Some((w, h)) => h as u64 > 3 * w as u64,
            None => false,
        };
        if !strip {
            assert(!is_strip(sizes@[i as int]));
            return false;
        }
        i += 1;
    }
    true
}

/// The samples of one channel of row `y`; a gray picture has the same in all three.
pub open spec fn channel(img: Raster, y: int, c: int) -> Seq<u8> {
    Seq::new(
        img.width as nat,
        |x: int|
            if img.color {
                img.row(y)[3 * x + c]
            } else {
                img.row(y)[x]
            },
    )
}

/// The average of one channel over the first and the last row, rounded down.
pub open spec fn edge_average(img: Raster, c: int) -> int {
    (total(channel(img, 0, c)) + total(channel(img, img.height - 1, c))) / (2 * img.width)
}

/// The background of a picture, as the value of each of its three channels: black where the first
/// and the last row are dark, else white.
pub open spec fn background(img: Raster) -> u8 {
    if img.width == 0 || img.height == 0 {
        255
    } else if (edge_average(img, 0) + edge_average(img, 1) + edge_average(img, 2)) / 3 < 128 {
        0
    } else {
        255
    }
}

fn channel_of(img: &Picture, y: u32, c: usize) -> (r: Vec<u8>)
    requires
        img.wf(),
        y < img.height,
        c < 3,
    ensures
        r@ == channel(img@, y as int, c as int),
{
    let row = img.row_samples(y);
    let length: usize = row.len();
    let mut r: Vec<u8> = Vec::new();
    let mut x: usize = 0;
    while x < img.width as usize
        invariant
            img.wf(),
            y < img.height,
            c < 3,
            x <= img.width,
            length == row@.len(),
            row@ == img@.row(y as int),
            length == img@.stride(),
            r@.len() == x,
            forall|k: int| 0 <= k < x ==> r@[k] == channel(img@, y as int, c as int)[k],
        decreases img.width - x,
    {
        let v: u8 = if img.color {
            row[3 * x + c]
        } else {
            row[x]
        };
        r.push(v);
        x += 1;
    }
    assert(r@ =~= channel(img@, y as int, c as int));
    r
}

fn average_of_edges(img: &Picture, c: usize) -> (r: u64)
    requires
        img.wf(),
        img.width > 0,
        img.height > 0,
        c < 3,
    ensures
        r == edge_average(img@, c as int),
        r <= 255,
{
    let first = channel_of(img, 0, c);
    let last = channel_of(img, img.height - 1, c);
    let a: u64 = total_of(&first);
    let b: u64 = total_of(&last);
    let count: u64 = 2 * img.width as u64;
    proof {
        assert((a + b) / (count as int) <= 255) by (nonlinear_arith)
            requires
                0 < count,
                a + b <= 255 * count,
        ;
    }
    (a + b) / count
}

/// The background color of a picture, judged by its first and last row.
pub fn detect_background_color(img: &Picture) -> (r: u8)
    requires
        img.wf(),
    ensures
        r == background(img@),
{
    if img.width == 0 || img.height == 0 {
        return 255;
    }
    let light: u64 = (average_of_edges(img, 0) + average_of_edges(img, 1) + average_of_edges(img, 2))
        / 3;
    if light < 128 {
        0
    } else {
        255
    }
}

/// The rasters of some pictures.
pub open spec fn rasters(pictures: Seq<Picture>) -> Seq<Raster> {
    Seq::new(pictures.len(), |i: int| pictures[i]@)
}

/// The greatest width.
pub open spec fn widest(images: Seq<Raster>) -> int
    decreases images.len(),
{
    if images.len() == 0 {
        0
    } else if widest(images.drop_last()) < images.last().width {
        images.last().width
    } else {
        widest(images.drop_last())
    }
}

/// The sum of the heights.
pub open spec fn stacked_height(images: Seq<Raster>) -> int
    decreases images.len(),
{
    if images.len() == 0 {
        0
    } else {
        stacked_height(images.drop_last()) + images.last().height
    }
}

/// The red, green and blue samples of row `y`.
pub open spec fn rgb_row(img: Raster, y: int) -> Seq<u8> {
    if img.color {
        img.row(y)
    } else {
        Seq::new((3 * img.width) as nat, |i: int| img.row(y)[i / 3])
    }
}

/// `n` times the value `v`.
pub open spec fn filled(n: int, v: u8) -> Seq<u8> {
    Seq::new(n as nat, |i: int| v)
}

/// Row `y` of a picture, centered between background on a canvas `width` wide.
pub open spec fn centered(img: Raster, y: int, width: int, back: u8) -> Seq<u8> {
    let left = (width - img.width) / 2;
    filled(3 * left, back) + rgb_row(img, y) + filled(3 * (width - img.width - left), back)
}

/// The first `rows` rows of a picture on the canvas.
pub open spec fn centered_rows(img: Raster, rows: int, width: int, back: u8) -> Seq<u8>
    decreases rows,
{
    if rows <= 0 {
        seq![]
    } else {
        centered_rows(img, rows - 1, width, back) + centered(img, rows - 1, width, back)
    }
}

/// Pictures one below the other on the canvas.
pub open spec fn stacked(images: Seq<Raster>, width: int, back: u8) -> Seq<u8>
    decreases images.len(),
{
    if images.len() == 0 {
        seq![]
    } else {
        stacked(images.drop_last(), width, back) + centered_rows(
            images.last(),
            images.last().height,
            width,
            back,
        )
    }
}

/// Pictures one below the other, narrow ones in the middle, on the background of the first. A
/// single picture stays as it is.
pub open spec fn merged(images: Seq<Raster>) -> Raster {
    if images.len() == 1 {
        images[0]
    } else {
        Raster {
            width: widest(images),
            height: stacked_height(images),
            color: true,
            exact: true,
            samples: stacked(images, widest(images), background(images[0])),
        }
    }
}

proof fn centered_rows_len(img: Raster, rows: int, width: int, back: u8)
    requires
        img.wf(),
        0 <= rows <= img.height,
        img.width <= width,
    ensures
        centered_rows(img, rows, width, back).len() == rows * (width * 3),
    decreases rows,
{
    if rows > 0 {
        centered_rows_len(img, rows - 1, width, back);
        row_in_samples(img, rows - 1);
        assert((rows - 1) * (width * 3) + width * 3 == rows * (width * 3)) by (nonlinear_arith);
    } else {
        assert(0 * (width * 3) == 0);
    }
}

proof fn widths_fit(images: Seq<Raster>, i: int)
    requires
        0 <= i < images.len(),
    ensures
        images[i].width <= widest(images),
    decreases images.len(),
{
    if i < images.len() - 1 {
        widths_fit(images.drop_last(), i);
    }
}

proof fn stacked_len(images: Seq<Raster>, width: int, back: u8)
    requires
        forall|i: int| 0 <= i < images.len() ==> (#[trigger] images[i]).wf() && images[i].width <= width,
    ensures
        stacked(images, width, back).len() == stacked_height(images) * (width * 3),
        stacked_height(images) >= 0,
    decreases images.len(),
{
    if images.len() > 0 {
        let rest = images.drop_last();
        assert forall|i: int| 0 <= i < rest.len() implies (#[trigger] rest[i]).wf() && rest[i].width
            <= width by {
            assert(rest[i] == images[i]);
        }
        stacked_len(rest, width, back);
        let last = images.last();
        assert(last == images[images.len() - 1]);
        centered_rows_len(last, last.height, width, back);
        let (a, b, c) = (stacked_height(rest), last.height, width * 3);
        assert(a * c + b * c == (a + b) * c) by (nonlinear_arith);
    } else {
        assert(0 * (width * 3) == 0);
    }
}

/// A merged picture is a picture.
pub proof fn merged_is_wf(images: Seq<Raster>)
    requires
        images.len() > 0,
        forall|i: int| 0 <= i < images.len() ==> (#[trigger] images[i]).wf(),
        stacked_height(images) <= u32::MAX,
    ensures
        merged(images).wf(),
{
    if images.len() > 1 {
        widest_is_a_width(images);
        assert forall|i: int| 0 <= i < images.len() implies (#[trigger] images[i]).wf()
            && images[i].width <= widest(images) by {
            widths_fit(images, i);
        }
        stacked_len(images, widest(images), background(images[0]));
    } else {
        assert(images[0].wf());
    }
}

proof fn widest_is_a_width(images: Seq<Raster>)
    requires
        forall|i: int| 0 <= i < images.len() ==> (#[trigger] images[i]).wf(),
    ensures
        0 <= widest(images) <= u32::MAX,
        images.len() > 0 ==> exists|k: int|
            0 <= k < images.len() && (#[trigger] images[k]).width == widest(images),
    decreases images.len(),
{
    if images.len() > 0 {
        let rest = images.drop_last();
        assert forall|i: int| 0 <= i < rest.len() implies (#[trigger] rest[i]).wf() by {
            assert(rest[i] == images[i]);
        }
        widest_is_a_width(rest);
        let last = images.len() - 1;
        assert(images[last].wf());
        if rest.len() > 0 && widest(rest) >= images[last].width {
            let k = choose|k: int|
                0 <= k < rest.len() && (#[trigger] rest[k]).width == widest(rest);
            assert(images[k].width == widest(images));
        } else {
            assert(images[last].width == widest(images));
        }
    }
}

fn push_filled(out: &mut Vec<u8>, n: u64, v: u8)
    ensures
        final(out)@ == old(out)@ + filled(n as int, v),
{
    let mut i: u64 = 0;
    assert(out@ =~= old(out)@ + filled(0, v));
    while i < n
        invariant
            i <= n,
            out@ == old(out)@ + filled(i as int, v),
        decreases n - i,
    {
        out.push(v);
        i += 1;
        assert(out@ =~= old(out)@ + filled(i as int, v));
    }
}

fn push_rgb_row(out: &mut Vec<u8>, img: &Picture, y: u32)
    requires
        img.wf(),
        y < img.height,
    ensures
        final(out)@ == old(out)@ + rgb_row(img@, y as int),
{
    let row = img.row_samples(y);
    if img.color {
        out.extend_from_slice(row);
        assert(out@ =~= old(out)@ + rgb_row(img@, y as int));
        return ;
    }
    let mut x: usize = 0;
    let ghost whole = rgb_row(img@, y as int);
    assert(out@ =~= old(out)@ + whole.take(0));
    while x < row.len()
        invariant
            x <= row@.len(),
            row@ == img@.row(y as int),
            row@.len() == img@.stride(),
            !img.color,
            whole == rgb_row(img@, y as int),
            out@ == old(out)@ + whole.take(3 * x),
        decreases row.len() - x,
    {
        out.push(row[x]);
        out.push(row[x]);
        out.push(row[x]);
        proof {
            assert((3 * x) / 3 == x && (3 * x + 1) / 3 == x && (3 * x + 2) / 3 == x);
            assert(whole.take(3 * x + 3) =~= whole.take(3 * x).push(whole[3 * x]).push(
                whole[3 * x + 1],
            ).push(whole[3 * x + 2]));
        }
        x += 1;
        assert(out@ =~= old(out)@ + whole.take(3 * x));
    }
    assert(whole.take(3 * x) =~= whole);
}

fn push_centered(out: &mut Vec<u8>, img: &Picture, width: u32, back: u8)
    requires
        img.wf(),
        img.width <= width,
    ensures
        final(out)@ == old(out)@ + centered_rows(img@, img.height as int, width as int, back),
{
    let left: u64 = (width - img.width) as u64 / 2;
    let right: u64 = (width - img.width) as u64 - left;
    let mut y: u32 = 0;
    assert(out@ =~= old(out)@ + centered_rows(img@, 0, width as int, back));
    while y < img.height
        invariant
            img.wf(),
            img.width <= width,
            left == (width - img.width) / 2,
            right == width - img.width - left,
            y <= img.height,
            out@ == old(out)@ + centered_rows(img@, y as int, width as int, back),
        decreases img.height - y,
    {
        push_filled(out, 3 * left, back);
        push_rgb_row(out, img, y);
        push_filled(out, 3 * right, back);
        y += 1;
        assert(out@ =~= old(out)@ + centered_rows(img@, y as int, width as int, back));
    }
}

/// Stacks pictures into one tall strip. Narrow ones are centered on the background color of the
/// first.
pub fn webtoon_merge(images: &[Picture]) -> (r: Picture)
    requires
        images@.len() > 0,
        forall|i: int| 0 <= i < images@.len() ==> (#[trigger] images@[i]).wf(),
        stacked_height(rasters(images@)) <= u32::MAX,
    ensures
        r@ == merged(rasters(images@)),
        r.wf(),
{
    let ghost all = rasters(images@);
    proof {
        assert forall|i: int| 0 <= i < all.len() implies (#[trigger] all[i]).wf() by {
            assert(images@[i].wf());
        }
        merged_is_wf(all);
    }
    if images.len() == 1 {
        return images[0].copy();
    }
    let mut width: u32 = 0;
    let mut height: u64 = 0;
    let mut i: usize = 0;
    while i < images.len()
        invariant
            all == rasters(images@),
            i <= images@.len(),
            width == widest(all.take(i as int)),
            height == stacked_height(all.take(i as int)),
            height <= u32::MAX,
            stacked_height(all) <= u32::MAX,
        decreases images.len() - i,
    {
        let w: u32 = images[i].width;
        let h: u64 = images[i].height as u64;
        proof {
            assert(all.take(i + 1).drop_last() =~= all.take(i as int));
            assert(all.take(i + 1).last() == images@[i as int]@);
            stacked_is_monotone(all, i + 1);
            stacked_is_monotone(all, i as int);
        }
        if width < w {
            width = w;
        }
        height = height + h;
        i += 1;
    }
    assert(all.take(i as int) =~= all);
    let back: u8 = detect_background_color(&images[0]);
    let mut samples: Vec<u8> = Vec::new();
    let mut k: usize = 0;
    while k < images.len()
        invariant
            all == rasters(images@),
            forall|i: int| 0 <= i < images@.len() ==> (#[trigger] images@[i]).wf(),
            k <= images@.len(),
            width == widest(all),
            samples@ == stacked(all.take(k as int), width as int, back),
        decreases images.len() - k,
    {
        proof {
            widths_fit(all, k as int);
            assert(all.take(k + 1).drop_last() =~= all.take(k as int));
            assert(all.take(k + 1).last() == images@[k as int]@);
        }
        push_centered(&mut samples, &images[k], width, back);
        k += 1;
    }
    assert(all.take(k as int) =~= all);
    Picture { width, height: height as u32, color: true, exact: true, samples }
}

proof fn stacked_is_monotone(images: Seq<Raster>, n: int)
    requires
        0 <= n <= images.len(),
        forall|i: int| 0 <= i < images.len() ==> 0 <= (#[trigger] images[i]).height,
    ensures
        0 <= stacked_height(images.take(n)) <= stacked_height(images),
    decreases images.len(),
{
    if n < images.len() {
        assert(images.drop_last().take(n) =~= images.take(n));
        assert forall|i: int| 0 <= i < images.drop_last().len() implies 0 <= (
        #[trigger] images.drop_last()[i]).height by {
            assert(images[i].height >= 0);
        }
        stacked_is_monotone(images.drop_last(), n);
        assert(images[images.len() - 1].height >= 0);
    } else {
        assert(images.take(n) =~= images);
        if n > 0 {
            assert(images.drop_last().take(n - 1) =~= images.drop_last());
            assert forall|i: int| 0 <= i < images.drop_last().len() implies 0 <= (
            #[trigger] images.drop_last()[i]).height by {
                assert(images[i].height >= 0);
            }
            stacked_is_monotone(images.drop_last(), n - 1);
            assert(images[images.len() - 1].height >= 0);
        }
    }
}

/// How much nearer or farther than the height of a page its end may lie: a fifth.
pub open spec fn margin(target: int) -> int {
    target / 5
}

/// By how much a page reaches into the next where no gutter parts them: a tenth.
pub open spec fn overlap(target: int) -> int {
    target / 10
}

/// The first of the flattest rows from `lo` up to and with `hi`.
pub open spec fn flattest(samples: Seq<u8>, width: int, lo: int, hi: int) -> int
    decreases hi - lo,
{
    if hi <= lo {
        lo
    } else {
        let best = flattest(samples, width, lo, hi - 1);
        if spread(line(samples, width, hi)) < spread(line(samples, width, best)) {
            hi
        } else {
            best
        }
    }
}

/// A row is a gutter where the variance of its samples is at most 100.
pub open spec fn is_gutter(samples: Seq<u8>, width: int, y: int) -> bool {
    spread(line(samples, width, y)) <= 100 * width * width
}

/// The best row to cut a page that starts at `top`: the flattest one within the margin, where that
/// is a gutter.
pub open spec fn gutter(samples: Seq<u8>, width: int, top: int, target: int) -> Option<int> {
    let best = flattest(
        samples,
        width,
        top + target - margin(target),
        top + target + margin(target),
    );
    if is_gutter(samples, width, best) {
        Some(best)
    } else {
        None
    }
}

/// From where to where the pages of a strip reach, from `top` on. A page ends at the best gutter;
/// without one it has the height of a page and the next starts before its end, so that nothing is
/// cut in two. The last page takes what is left.
pub open spec fn page_spans(
    samples: Seq<u8>,
    width: int,
    height: int,
    target: int,
    top: int,
) -> Seq<(int, int)>
    decreases height - top,
{
    if target <= 0 || height - top <= target + margin(target) {
        seq![(top, height)]
    } else {
        match gutter(samples, width, top, target) {
            Some(cut) => if top < cut < height {
                seq![(top, cut)] + page_spans(samples, width, height, target, cut)
            } else {
                seq![(top, height)]
            },
            None => seq![(top, top + target)] + page_spans(
                samples,
                width,
                height,
                target,
                top + target - overlap(target),
            ),
        }
    }
}

/// From where to where the pages of a strip reach. A strip that fits on a page is one page.
pub open spec fn strip_spans(strip: Raster, target: int) -> Seq<(int, int)> {
    if strip.height <= target {
        seq![(0, strip.height)]
    } else {
        page_spans(grays(strip), strip.width, strip.height, target, 0)
    }
}

/// The pages of a strip.
pub open spec fn strip_pages(strip: Raster, target: int) -> Seq<Raster> {
    let spans = strip_spans(strip, target);
    Seq::new(
        spans.len(),
        |i: int| part(strip, 0, spans[i].0, strip.width, spans[i].1 - spans[i].0),
    )
}

/// The flattest row lies within the search range; no row there is flatter, and none before it is as
/// flat.
pub proof fn flattest_is_first_of_least(samples: Seq<u8>, width: int, lo: int, hi: int)
    requires
        lo <= hi,
    ensures
        lo <= flattest(samples, width, lo, hi) <= hi,
        forall|y: int|
            lo <= y <= hi ==> spread(line(samples, width, flattest(samples, width, lo, hi)))
                <= spread(#[trigger] line(samples, width, y)),
        forall|y: int|
            lo <= y < flattest(samples, width, lo, hi) ==> spread(
                line(samples, width, flattest(samples, width, lo, hi)),
            ) < spread(#[trigger] line(samples, width, y)),
    decreases hi - lo,
{
    if lo < hi {
        flattest_is_first_of_least(samples, width, lo, hi - 1);
    }
}

/// The pages of a strip cover it from the first row to the last: each page starts where the one
/// before it ends, or a tenth of a page earlier, and no page is higher than a page and the margin.
pub proof fn pages_cover_strip(
    samples: Seq<u8>,
    width: int,
    height: int,
    target: int,
    top: int,
)
    requires
        target > 0,
        0 <= top < height,
    ensures
        ({
            let spans = page_spans(samples, width, height, target, top);
            &&& spans.len() > 0
            &&& spans[0].0 == top
            &&& spans.last().1 == height
            &&& forall|i: int|
                0 <= i < spans.len() ==> {
                    &&& top <= (#[trigger] spans[i]).0 < spans[i].1 <= height
                    &&& spans[i].1 - spans[i].0 <= target + margin(target)
                }
            &&& forall|i: int|
                0 < i < spans.len() ==> spans[i - 1].0 < (#[trigger] spans[i]).0 && (spans[i].0
                    == spans[i - 1].1 || spans[i].0 == spans[i - 1].1 - overlap(target))
        }),
    decreases height - top,
{
    let spans = page_spans(samples, width, height, target, top);
    if height - top > target + margin(target) {
        flattest_is_first_of_least(
            samples,
            width,
            top + target - margin(target),
            top + target + margin(target),
        );
        let (end, next) = match gutter(samples, width, top, target) {
            Some(cut) => (cut, cut),
            None => (top + target, top + target - overlap(target)),
        };
        pages_cover_strip(samples, width, height, target, next);
        let rest = page_spans(samples, width, height, target, next);
        assert(spans =~= seq![(top, end)] + rest);
        assert forall|i: int| 0 <= i < spans.len() implies ({
            &&& top <= (#[trigger] spans[i]).0 < spans[i].1 <= height
            &&& spans[i].1 - spans[i].0 <= target + margin(target)
        }) by {
            if i > 0 {
                assert(spans[i] == rest[i - 1]);
            }
        }
        assert forall|i: int| 0 < i < spans.len() implies spans[i - 1].0 < (#[trigger] spans[i]).0
            && (spans[i].0 == spans[i - 1].1 || spans[i].0 == spans[i - 1].1 - overlap(target)) by {
            assert(spans[i] == rest[i - 1]);
            if i > 1 {
                assert(spans[i - 1] == rest[i - 2]);
                assert(rest[i - 1 - 1].0 < rest[i - 1].0);
            }
        }
    }
}

fn find_best_gutter(gray: &Picture, top: u32, lo: u64, hi: u64) -> (r: Option<u32>)
    requires
        gray.wf(),
        !gray.color,
        lo <= hi,
        top + hi < gray.height,
    ensures
        ({
            let best = flattest(gray.samples@, gray.width as int, top + lo, top + hi);
            match r {
                Some(y) => y == best && is_gutter(gray.samples@, gray.width as int, best),
                None => !is_gutter(gray.samples@, gray.width as int, best),
            }
        }),
{
    let mut best: u32 = (top as u64 + lo) as u32;
    let last: u32 = (top as u64 + hi) as u32;
    let ghost first = best as int;
    let ghost (s, w) = (gray.samples@, gray.width as int);
    let mut least: i128 = spread_of(gray.row_samples(best));
    let mut y: u32 = best;
    while y < last
        invariant
            gray.wf(),
            !gray.color,
            s == gray.samples@,
            w == gray.width,
            first <= best <= y <= last < gray.height,
            best == flattest(s, w, first, y as int),
            least == spread(line(s, w, best as int)),
        decreases last - y,
    {
        y += 1;
        let v: i128 = spread_of(gray.row_samples(y));
        if v < least {
            least = v;
            best = y;
        }
    }
    let n: i128 = gray.width as i128;
    assert(n * n <= 0x1_0000_0000 * 0x1_0000_0000 && 100 * n * n == 100 * (n * n)) by (nonlinear_arith)
        requires
            0 <= n <= 0xffff_ffff,
    ;
    if least <= 100 * n * n {
        Some(best)
    } else {
        None
    }
}

/// Cuts a tall strip into pages, at the flattest row within a fifth of the height of a page. Where
/// no row is flat enough, the page has the full height and the next one starts a tenth before its
/// end.
pub fn webtoon_split(strip: &Picture, device_height: u32) -> (r: Vec<Picture>)
    requires
        strip.wf(),
        device_height > 0,
    ensures
        rasters(r@) == strip_pages(strip@, device_height as int),
        r@.len() > 0,
        forall|i: int| 0 <= i < r@.len() ==> (#[trigger] r@[i]).wf(),
{
    let w: u32 = strip.width;
    let h: u32 = strip.height;
    let mut pages: Vec<Picture> = Vec::new();
    if h <= device_height {
        pages.push(strip.copy());
        proof {
            whole_is_part(strip@);
            assert(rasters(pages@) =~= strip_pages(strip@, device_height as int));
        }
        return pages;
    }
    let gray = strip.to_gray();
    let target: u64 = device_height as u64;
    let margin: u64 = target / 5;
    let ghost spans = strip_spans(strip@, target as int);
    let ghost s = gray.samples@;
    let mut top: u32 = 0;
    assert(spans =~= spans.take(0) + spans);
    loop
        invariant
            strip.wf(),
            gray.wf(),
            !gray.color,
            gray.width == w,
            gray.height == h,
            w == strip.width,
            h == strip.height,
            s == gray.samples@,
            target == device_height > 0,
            margin == target / 5,
            top < h,
            pages@.len() <= spans.len(),
            spans == strip_spans(strip@, target as int),
            spans.skip(pages@.len() as int) == page_spans(
                s,
                w as int,
                h as int,
                target as int,
                top as int,
            ),
            forall|i: int|
                0 <= i < pages@.len() ==> {
                    &&& (#[trigger] pages@[i]).wf()
                    &&& pages@[i]@ == part(
                        strip@,
                        0,
                        spans[i].0,
                        w as int,
                        spans[i].1 - spans[i].0,
                    )
                },
        decreases h - top,
    {
        let left: u32 = h - top;
        let ghost n = pages@.len() as int;
        let ghost here = page_spans(s, w as int, h as int, target as int, top as int);
        assert(here == spans.skip(n));
        assert(here.len() > 0);
        assert(here[0] == spans[n]);
        if left as u64 <= target + margin {
            pages.push(strip.crop(0, top, w, left));
            assert(rasters(pages@) =~= strip_pages(strip@, device_height as int));
            return pages;
        }
        proof {
            flattest_is_first_of_least(
                s,
                w as int,
                top + target - margin,
                top + target + margin,
            );
        }
        match find_best_gutter(&gray, top, target - margin, target + margin) {
            Some(cut) => {
                pages.push(strip.crop(0, top, w, cut - top));
                top = cut;
            },
            None => {
                pages.push(strip.crop(0, top, w, target as u32));
                top = top + device_height - device_height / 10;
            },
        }
        assert(here.skip(1) =~= page_spans(s, w as int, h as int, target as int, top as int));
        assert(spans.skip(n + 1) =~= here.skip(1));
    }
}

/// The pictures that have pixels.
pub open spec fn usable(images: Seq<Raster>) -> Seq<Raster>
    decreases images.len(),
{
    if images.len() == 0 {
        seq![]
    } else if images.last().width == 0 || images.last().height == 0 {
        usable(images.drop_last())
    } else {
        usable(images.drop_last()).push(images.last())
    }
}

/// Where a chunk ends that has come to the picture `at` with the height `sum`: before the picture
/// that would make it higher than `max`.
pub open spec fn chunk_end(images: Seq<Raster>, max: int, at: int, sum: int) -> int
    decreases images.len() - at,
{
    if at >= images.len() || sum + images[at].height > max {
        at
    } else {
        chunk_end(images, max, at + 1, sum + images[at].height)
    }
}

/// Where the chunks start and end, from the picture `at` on. A chunk has at least one picture.
pub open spec fn chunks(images: Seq<Raster>, max: int, at: int) -> Seq<(int, int)>
    decreases images.len() - at,
    when 0 <= at
    via chunks_shrink
{
    if at >= images.len() {
        seq![]
    } else {
        let end = chunk_end(images, max, at + 1, images[at].height);
        seq![(at, end)] + chunks(images, max, end)
    }
}

#[via_fn]
proof fn chunks_shrink(images: Seq<Raster>, max: int, at: int) {
    if at < images.len() {
        chunk_end_is_sound(images, max, at + 1, images[at].height);
    }
}

proof fn chunk_end_is_sound(images: Seq<Raster>, max: int, at: int, sum: int)
    requires
        0 <= at <= images.len(),
    ensures
        at <= chunk_end(images, max, at, sum) <= images.len(),
    decreases images.len() - at,
{
    if !(at >= images.len() || sum + images[at].height > max) {
        chunk_end_is_sound(images, max, at + 1, sum + images[at].height);
    }
}

/// The pages of the chunks, one after the other.
pub open spec fn chunk_pages(images: Seq<Raster>, bounds: Seq<(int, int)>, target: int) -> Seq<Raster>
    decreases bounds.len(),
{
    if bounds.len() == 0 {
        seq![]
    } else {
        chunk_pages(images, bounds.drop_last(), target) + strip_pages(
            merged(images.subrange(bounds.last().0, bounds.last().1)),
            target,
        )
    }
}

/// The pages of a webtoon: its pictures are merged in chunks of at most the height `max`, and each
/// chunk is cut into pages.
pub open spec fn webtoon_pages(images: Seq<Raster>, target: int, max: int) -> Seq<Raster> {
    chunk_pages(images, chunks(images, max, 0), target)
}

/// A chunk is higher than `max` only where it is one picture that is.
pub proof fn chunks_are_low(images: Seq<Raster>, max: int, at: int)
    requires
        0 <= at < images.len(),
    ensures
        ({
            let end = chunk_end(images, max, at + 1, images[at].height);
            &&& at < end <= images.len()
            &&& end == at + 1 || stacked_height(images.subrange(at, end)) <= max
        }),
{
    chunk_end_is_sound(images, max, at + 1, images[at].height);
    assert(images.subrange(at, at + 1).drop_last() =~= seq![]);
    assert(stacked_height(images.subrange(at, at + 1)) == images[at].height) by {
        reveal_with_fuel(stacked_height, 2);
    }
    chunk_grows(images, max, at, at + 1, images[at].height);
}

proof fn chunk_grows(images: Seq<Raster>, max: int, start: int, at: int, sum: int)
    requires
        0 <= start < at <= images.len(),
        sum == stacked_height(images.subrange(start, at)),
        at == start + 1 || sum <= max,
    ensures
        ({
            let end = chunk_end(images, max, at, sum);
            end == start + 1 || stacked_height(images.subrange(start, end)) <= max
        }),
    decreases images.len() - at,
{
    if !(at >= images.len() || sum + images[at].height > max) {
        assert(images.subrange(start, at + 1).drop_last() =~= images.subrange(start, at));
        chunk_grows(images, max, start, at + 1, sum + images[at].height);
    }
}

/// The chunks hold every picture once, in order: the first starts with the first picture, each
/// starts where the one before it ends, and the last ends with the last picture.
pub proof fn chunks_keep_all_pictures(images: Seq<Raster>, max: int, at: int)
    requires
        0 <= at < images.len(),
    ensures
        ({
            let bounds = chunks(images, max, at);
            &&& bounds.len() > 0
            &&& bounds[0].0 == at
            &&& bounds.last().1 == images.len()
            &&& forall|i: int|
                0 <= i < bounds.len() ==> at <= (#[trigger] bounds[i]).0 < bounds[i].1
                    <= images.len()
            &&& forall|i: int| 0 < i < bounds.len() ==> (#[trigger] bounds[i]).0 == bounds[i - 1].1
        }),
    decreases images.len() - at,
{
    let end = chunk_end(images, max, at + 1, images[at].height);
    chunk_end_is_sound(images, max, at + 1, images[at].height);
    let bounds = chunks(images, max, at);
    let rest = chunks(images, max, end);
    assert(bounds =~= seq![(at, end)] + rest);
    if end < images.len() {
        chunks_keep_all_pictures(images, max, end);
        assert forall|i: int| 0 <= i < bounds.len() implies at <= (#[trigger] bounds[i]).0
            < bounds[i].1 <= images.len() by {
            if i > 0 {
                assert(bounds[i] == rest[i - 1]);
            }
        }
        assert forall|i: int| 0 < i < bounds.len() implies (#[trigger] bounds[i]).0 == bounds[i
            - 1].1 by {
            assert(bounds[i] == rest[i - 1]);
            if i > 1 {
                assert(bounds[i - 1] == rest[i - 2]);
            }
        }
    } else {
        assert(rest =~= seq![]);
    }
}

/// The pictures that have pixels, in order.
fn keep_usable(images: Vec<Picture>) -> (r: Vec<Picture>)
    requires
        forall|i: int| 0 <= i < images@.len() ==> (#[trigger] images@[i]).wf(),
    ensures
        rasters(r@) == usable(rasters(images@)),
        forall|i: int| 0 <= i < r@.len() ==> (#[trigger] r@[i]).wf(),
{
    let mut r: Vec<Picture> = Vec::new();
    let mut i: usize = 0;
    let ghost all = rasters(images@);
    assert(rasters(r@) =~= usable(all.take(0)));
    while i < images.len()
        invariant
            all == rasters(images@),
            i <= images@.len(),
            forall|k: int| 0 <= k < images@.len() ==> (#[trigger] images@[k]).wf(),
            forall|k: int| 0 <= k < r@.len() ==> (#[trigger] r@[k]).wf(),
            rasters(r@) == usable(all.take(i as int)),
        decreases images.len() - i,
    {
        proof {
            assert(all.take(i + 1).drop_last() =~= all.take(i as int));
            assert(all.take(i + 1).last() == images@[i as int]@);
        }
        if images[i].width != 0 && images[i].height != 0 {
            let ghost before = r@;
            r.push(images[i].copy());
            assert(rasters(r@) =~= rasters(before).push(images@[i as int]@));
        }
        i += 1;
    }
    assert(all.take(i as int) =~= all);
    r
}

fn find_chunk_end(images: &[Picture], max_height: u32, start: usize) -> (r: usize)
    requires
        start < images@.len(),
    ensures
        r == chunk_end(
            rasters(images@),
            max_height as int,
            start + 1,
            images@[start as int].height as int,
        ),
        start < r <= images@.len(),
{
    let ghost all = rasters(images@);
    let size: usize = images.len();
    let mut at: usize = start + 1;
    let mut sum: u64 = images[start].height as u64;
    while at < size && sum + images[at].height as u64 <= max_height as u64
        invariant
            all == rasters(images@),
            size == images@.len(),
            start < at <= size,
            sum <= u32::MAX,
            chunk_end(all, max_height as int, start + 1, images@[start as int].height as int)
                == chunk_end(all, max_height as int, at as int, sum as int),
        decreases size - at,
    {
        sum += images[at].height as u64;
        at += 1;
    }
    at
}

/// The pages of a webtoon. Pictures without pixels are skipped; it is an error where none is left.
pub fn webtoon_preprocess(images: Vec<Picture>, device_height: u32, max_height: u32) -> (r: Result<
    Vec<Picture>,
    ComicError,
>)
    requires
        forall|i: int| 0 <= i < images@.len() ==> (#[trigger] images@[i]).wf(),
        device_height > 0,
    ensures
        ({
            let left = usable(rasters(images@));
            match r {
                Ok(pages) => {
                    &&& left.len() > 0
                    &&& rasters(pages@) == webtoon_pages(
                        left,
                        device_height as int,
                        max_height as int,
                    )
                    &&& forall|i: int| 0 <= i < pages@.len() ==> (#[trigger] pages@[i]).wf()
                },
                Err(e) => left.len() == 0 && e is NoValidImages,
            }
        }),
{
    let images = keep_usable(images);
    let ghost all = rasters(images@);
    assert(all.len() == images@.len());
    if images.len() == 0 {
        return Err(ComicError::NoValidImages);
    }
    let mut pages: Vec<Picture> = Vec::new();
    let mut at: usize = 0;
    let ghost mut done: Seq<(int, int)> = seq![];
    let ghost target = device_height as int;
    let ghost max = max_height as int;
    assert(done + chunks(all, max, 0) =~= chunks(all, max, 0));
    assert(rasters(pages@) =~= seq![]);
    while at < images.len()
        invariant
            all == rasters(images@),
            at <= images@.len(),
            target == device_height > 0,
            max == max_height,
            forall|i: int| 0 <= i < images@.len() ==> (#[trigger] images@[i]).wf(),
            forall|i: int| 0 <= i < pages@.len() ==> (#[trigger] pages@[i]).wf(),
            done + chunks(all, max, at as int) == chunks(all, max, 0),
            rasters(pages@) == chunk_pages(all, done, target),
        decreases images.len() - at,
    {
        let end: usize = find_chunk_end(&images, max_height, at);
        let chunk = &images[at..end];
        proof {
            assert(rasters(chunk@) =~= all.subrange(at as int, end as int));
            chunks_are_low(all, max, at as int);
            if end == at + 1 {
                assert(all.subrange(at as int, end as int).drop_last() =~= seq![]);
                reveal_with_fuel(stacked_height, 2);
            }
            assert forall|i: int| 0 <= i < chunk@.len() implies (#[trigger] chunk@[i]).wf() by {
                assert(chunk@[i] == images@[at + i]);
            }
        }
        let strip = webtoon_merge(chunk);
        let mut more = webtoon_split(&strip, device_height);
        let ghost before = rasters(pages@);
        let ghost pages0 = pages@;
        let ghost added = more@;
        pages.append(&mut more);
        proof {
            let piece = (at as int, end as int);
            assert(rasters(pages@) =~= before + rasters(added));
            assert(done.push(piece).drop_last() =~= done);
            assert(chunks(all, max, at as int) == seq![piece] + chunks(all, max, end as int));
            assert(done.push(piece) + chunks(all, max, end as int) =~= done + (seq![piece] + chunks(
                all,
                max,
                end as int,
            )));
            done = done.push(piece);
            assert forall|i: int| 0 <= i < pages@.len() implies (#[trigger] pages@[i]).wf() by {
                if i >= pages0.len() {
                    assert(pages@[i] == added[i - pages0.len()]);
                } else {
                    assert(pages@[i] == pages0[i]);
                }
            }
        }
        at = end;
    }
    assert(done =~= chunks(all, max, 0));
    Ok(pages)
}

proof fn chunk_takes_the_rest(images: Seq<Raster>, max: int, start: int, at: int, sum: int)
    requires
        0 <= start < at <= images.len(),
        sum == stacked_height(images.subrange(start, at)),
        stacked_height(images.skip(start)) <= max,
        forall|i: int| 0 <= i < images.len() ==> 0 <= (#[trigger] images[i]).height,
    ensures
        chunk_end(images, max, at, sum) == images.len(),
    decreases images.len() - at,
{
    if at < images.len() {
        let rest = images.skip(start);
        assert forall|i: int| 0 <= i < rest.len() implies 0 <= (#[trigger] rest[i]).height by {
            assert(images[start + i].height >= 0);
        }
        stacked_is_monotone(rest, at + 1 - start);
        assert(rest.take(at + 1 - start) =~= images.subrange(start, at + 1));
        assert(images.subrange(start, at + 1).drop_last() =~= images.subrange(start, at));
        chunk_takes_the_rest(images, max, start, at + 1, sum + images[at].height);
    }
}

/// A webtoon that is not higher than the limit is merged in one piece.
pub proof fn low_webtoons_are_one_chunk(images: Seq<Raster>, max: int)
    requires
        images.len() > 0,
        forall|i: int| 0 <= i < images.len() ==> (#[trigger] images[i]).wf(),
        stacked_height(images) <= max,
    ensures
        chunks(images, max, 0) == seq![(0int, images.len() as int)],
{
    assert(images.skip(0) =~= images);
    assert(images.subrange(0, 1).drop_last() =~= seq![]);
    assert(stacked_height(images.subrange(0, 1)) == images[0].height) by {
        reveal_with_fuel(stacked_height, 2);
    }
    chunk_takes_the_rest(images, max, 0, 1, images[0].height);
    assert(chunks(images, max, images.len() as int) =~= seq![]);
    assert(chunks(images, max, 0) =~= seq![(0int, images.len() as int)]);
}

/// Source images are a webtoon where there are some and the size of each can be told and is more than
/// three times as high as wide.
pub proof fn webtoons_are_tall(sizes: Seq<Option<(u32, u32)>>)
    ensures
        are_strips(sizes) <==> sizes.len() > 0 && forall|i: int|
            0 <= i < sizes.len() ==> (#[trigger] sizes[i]) is Some && (sizes[i]->0).1 > 3 * (
            sizes[i]->0).0,
{
    if sizes.len() > 0 && forall|i: int|
        0 <= i < sizes.len() ==> (#[trigger] sizes[i]) is Some && (sizes[i]->0).1 > 3 * (
        sizes[i]->0).0 {
        assert forall|i: int| 0 <= i < sizes.len() implies is_strip(#[trigger] sizes[i]) by {
            assert(sizes[i] is Some);
        }
    }
    if are_strips(sizes) {
        assert forall|i: int| 0 <= i < sizes.len() implies (#[trigger] sizes[i]) is Some && (
        sizes[i]->0).1 > 3 * (sizes[i]->0).0 by {
            assert(is_strip(sizes[i]));
        }
    }
}

/// Pictures without pixels are left out, and no others.
pub proof fn pictures_with_pixels_are_kept(images: Seq<Raster>)
    ensures
        usable(images) == images.filter(|r: Raster| r.width != 0 && r.height != 0),
    decreases images.len(),
{
    reveal(Seq::filter);
    if images.len() > 0 {
        pictures_with_pixels_are_kept(images.drop_last());
    }
}

/// The strip is as high as all its pictures together and as wide as the widest; a picture alone is the
/// strip.
pub proof fn strips_have_room_for_all(images: Seq<Raster>, i: int)
    requires
        0 <= i < images.len(),
        forall|k: int| 0 <= k < images.len() ==> (#[trigger] images[k]).wf(),
    ensures
        images.len() > 1 ==> merged(images).width >= images[i].width,
        images.len() > 1 ==> merged(images).height == stacked_height(images.take(i))
            + images[i].height + stacked_height(images.skip(i + 1)),
        images.len() == 1 ==> merged(images) == images[0],
        exists|k: int| 0 <= k < images.len() && (#[trigger] images[k]).width == merged(images).width,
{
    widths_fit(images, i);
    heights_add_up(images, i);
    heights_add_up(images.skip(i), 1);
    assert(images.skip(i).take(1) =~= seq![images[i]]);
    assert(images.skip(i).skip(1) =~= images.skip(i + 1));
    reveal_with_fuel(stacked_height, 2);
    assert(seq![images[i]].drop_last() =~= seq![]);
    if images.len() > 1 {
        widest_is_a_width(images);
    } else {
        assert(images[0].width == merged(images).width);
    }
}

proof fn heights_add_up(images: Seq<Raster>, n: int)
    requires
        0 <= n <= images.len(),
    ensures
        stacked_height(images) == stacked_height(images.take(n)) + stacked_height(images.skip(n)),
    decreases images.len(),
{
    if n == images.len() {
        assert(images.take(n) =~= images);
        assert(images.skip(n) =~= seq![]);
    } else {
        heights_add_up(images.drop_last(), n);
        assert(images.drop_last().take(n) =~= images.take(n));
        assert(images.drop_last().skip(n) =~= images.skip(n).drop_last());
    }
}

/// Every row of every picture stands in the strip, below the pictures before it: in the middle, between
/// two margins of background that are equally wide up to one pixel.
pub proof fn strips_show_every_row(images: Seq<Raster>, i: int, y: int)
    requires
        images.len() > 1,
        forall|k: int| 0 <= k < images.len() ==> (#[trigger] images[k]).wf(),
        0 <= i < images.len(),
        0 <= y < images[i].height,
    ensures
        ({
            let strip = merged(images);
            let img = images[i];
            let at = (stacked_height(images.take(i)) + y) * (strip.width * 3);
            let back = background(images[0]);
            exists|left: int, right: int|
                {
                    &&& 0 <= left <= right <= left + 1
                    &&& left + img.width + right == strip.width
                    &&& 0 <= at
                    &&& at + strip.width * 3 <= strip.samples.len()
                    &&& strip.samples.subrange(at, at + strip.width * 3) == #[trigger] filled(
                        3 * left,
                        back,
                    ) + rgb_row(img, y) + #[trigger] filled(3 * right, back)
                }
        }),
{
    let w = widest(images);
    let back = background(images[0]);
    let img = images[i];
    assert forall|k: int| 0 <= k < images.len() implies (#[trigger] images[k]).wf()
        && images[k].width <= w by {
        widths_fit(images, k);
    }
    let c = w * 3;
    let front = images.take(i);
    let here = images.take(i + 1);
    assert forall|k: int| 0 <= k < front.len() implies (#[trigger] front[k]).wf() && front[k].width
        <= w by {
        assert(front[k] == images[k]);
    }
    assert forall|k: int| 0 <= k < here.len() implies (#[trigger] here[k]).wf() && here[k].width
        <= w by {
        assert(here[k] == images[k]);
    }
    stacked_len(front, w, back);
    stacked_len(here, w, back);
    stacked_len(images, w, back);
    assert(here.drop_last() =~= front);
    assert(here.last() == img);
    stacked_begins_with(images, i + 1, w, back);
    rows_stand_apart(img, img.height, y, w, back);
    centered_rows_len(img, img.height, w, back);
    let all = stacked(images, w, back);
    let a = stacked_height(front);
    let at = (a + y) * c;
    let body = centered_rows(img, img.height, w, back);
    row_in_samples(img, y);
    assert(at == a * c + y * c && 0 <= a * c && 0 <= y * c && y * c + c <= img.height * c && (a
        + img.height) * c == a * c + img.height * c) by (nonlinear_arith)
        requires
            at == (a + y) * c,
            0 <= a,
            0 <= y < img.height,
            0 <= c,
    ;
    let part = stacked(here, w, back);
    assert(part =~= stacked(front, w, back) + body);
    assert(all.subrange(at, at + c) =~= body.subrange(y * c, y * c + c)) by {
        assert(all.take(part.len() as int) =~= part);
        assert(all.subrange(at, at + c) =~= part.subrange(at, at + c)) by {
            assert(all.take(part.len() as int).subrange(at, at + c) =~= all.subrange(at, at + c));
        }
        assert(part.subrange(at, at + c) =~= body.subrange(y * c, y * c + c));
    }
    let left = (w - img.width) / 2;
    let right = w - img.width - left;
    assert(all.subrange(at, at + c) == filled(3 * left, back) + rgb_row(img, y) + filled(
        3 * right,
        back,
    ));
}

proof fn stacked_begins_with(images: Seq<Raster>, n: int, width: int, back: u8)
    requires
        0 <= n <= images.len(),
    ensures
        stacked(images.take(n), width, back).len() <= stacked(images, width, back).len(),
        stacked(images, width, back).take(stacked(images.take(n), width, back).len() as int)
            == stacked(images.take(n), width, back),
    decreases images.len(),
{
    let short = stacked(images.take(n), width, back);
    let all = stacked(images, width, back);
    if n == images.len() {
        assert(images.take(n) =~= images);
        assert(all.take(all.len() as int) =~= all);
    } else {
        let rest = images.drop_last();
        stacked_begins_with(rest, n, width, back);
        assert(rest.take(n) =~= images.take(n));
        assert(all.take(short.len() as int) =~= stacked(rest, width, back).take(short.len() as int));
    }
}

proof fn rows_stand_apart(img: Raster, rows: int, y: int, width: int, back: u8)
    requires
        img.wf(),
        img.width <= width,
        0 <= y < rows <= img.height,
    ensures
        ({
            let c = width * 3;
            &&& 0 <= y * c
            &&& y * c + c <= centered_rows(img, rows, width, back).len()
            &&& centered_rows(img, rows, width, back).subrange(y * c, y * c + c) == centered(
                img,
                y,
                width,
                back,
            )
        }),
    decreases rows,
{
    let c = width * 3;
    let all = centered_rows(img, rows, width, back);
    let before = centered_rows(img, rows - 1, width, back);
    centered_rows_len(img, rows, width, back);
    centered_rows_len(img, rows - 1, width, back);
    row_in_samples(img, rows - 1);
    row_in_samples(img, y);
    assert(0 <= y * c && y * c + c <= rows * c && (rows - 1) * c + c == rows * c) by (nonlinear_arith)
        requires
            0 <= y < rows,
            0 <= c,
    ;
    if y < rows - 1 {
        rows_stand_apart(img, rows - 1, y, width, back);
        assert(all.subrange(y * c, y * c + c) =~= before.subrange(y * c, y * c + c));
    } else {
        assert(all.subrange(y * c, y * c + c) =~= centered(img, y, width, back));
    }
}

/// Where a page of a strip ends and the next begins: at the flattest row within a fifth of the height
/// of a page, where its variance is at most 100; where no row there is so flat, the page has the full
/// height and the next begins a tenth of it before its end. What is left at the end, up to a page and a
/// fifth, is one page.
pub proof fn pages_end_at_gutters(
    samples: Seq<u8>,
    width: int,
    height: int,
    target: int,
    top: int,
)
    requires
        target > 0,
        0 <= top < height,
    ensures
        ({
            let spans = page_spans(samples, width, height, target, top);
            let lo = top + target - target / 5;
            let hi = top + target + target / 5;
            &&& height - top <= target + target / 5 ==> spans == seq![(top, height)]
            &&& height - top > target + target / 5 ==> {
                &&& spans.len() > 1
                &&& spans[0].0 == top
                &&& {
                    ||| {
                        &&& lo <= spans[0].1 <= hi
                        &&& spread(line(samples, width, spans[0].1)) <= 100 * width * width
                        &&& forall|y: int|
                            lo <= y <= hi ==> spread(line(samples, width, spans[0].1)) <= spread(
                                #[trigger] line(samples, width, y),
                            )
                        &&& spans.skip(1) == page_spans(
                            samples,
                            width,
                            height,
                            target,
                            spans[0].1,
                        )
                    }
                    ||| {
                        &&& forall|y: int|
                            lo <= y <= hi ==> spread(#[trigger] line(samples, width, y)) > 100
                                * width * width
                        &&& spans[0].1 == top + target
                        &&& spans.skip(1) == page_spans(
                            samples,
                            width,
                            height,
                            target,
                            top + target - target / 10,
                        )
                    }
                }
            }
        }),
{
    let spans = page_spans(samples, width, height, target, top);
    let lo = top + target - target / 5;
    let hi = top + target + target / 5;
    if height - top > target + target / 5 {
        flattest_is_first_of_least(samples, width, lo, hi);
        let best = flattest(samples, width, lo, hi);
        let (end, next) = match gutter(samples, width, top, target) {
            Some(cut) => (cut, cut),
            None => (top + target, top + target - overlap(target)),
        };
        let rest = page_spans(samples, width, height, target, next);
        pages_cover_strip(samples, width, height, target, next);
        assert(spans =~= seq![(top, end)] + rest);
        assert(spans.skip(1) =~= rest);
    }
}

/// A strip that is no higher than a page is one page; the pages of a higher one are those parts of it,
/// over its whole width, that its pages reach from and to.
pub proof fn strips_are_cut_across(strip: Raster, target: int)
    requires
        strip.wf(),
        target > 0,
    ensures
        strip.height <= target ==> strip_pages(strip, target) == seq![strip],
        strip.height > target ==> {
            let spans = page_spans(grays(strip), strip.width, strip.height, target, 0);
            &&& strip_pages(strip, target).len() == spans.len()
            &&& forall|i: int|
                0 <= i < spans.len() ==> #[trigger] strip_pages(strip, target)[i] == part(
                    strip,
                    0,
                    spans[i].0,
                    strip.width,
                    spans[i].1 - spans[i].0,
                )
        },
{
    whole_is_part(strip);
    if strip.height <= target {
        assert(strip_pages(strip, target) =~= seq![strip]);
    }
}

/// A chunk takes in as many pictures as fit: the picture behind it would make it higher than allowed.
pub proof fn chunks_are_full(images: Seq<Raster>, max: int, at: int)
    requires
        0 <= at < images.len(),
    ensures
        ({
            let end = chunk_end(images, max, at + 1, images[at].height);
            end < images.len() ==> stacked_height(images.subrange(at, end + 1)) > max
        }),
{
    assert(images.subrange(at, at + 1).drop_last() =~= seq![]);
    assert(stacked_height(images.subrange(at, at + 1)) == images[at].height) by {
        reveal_with_fuel(stacked_height, 2);
    }
    chunk_is_full(images, max, at, at + 1, images[at].height);
}

proof fn chunk_is_full(images: Seq<Raster>, max: int, start: int, at: int, sum: int)
    requires
        0 <= start < at <= images.len(),
        sum == stacked_height(images.subrange(start, at)),
    ensures
        ({
            let end = chunk_end(images, max, at, sum);
            &&& at <= end <= images.len()
            &&& end < images.len() ==> stacked_height(images.subrange(start, end + 1)) > max
        }),
    decreases images.len() - at,
{
    if at < images.len() {
        assert(images.subrange(start, at + 1).drop_last() =~= images.subrange(start, at));
        assert(images.subrange(start, at + 1).last() == images[at]);
        if sum + images[at].height <= max {
            chunk_is_full(images, max, start, at + 1, sum + images[at].height);
        }
    }
}

/// The pages of a webtoon are those of its chunks, one chunk behind the other: the pages of the strip
/// into which the pictures of a chunk are merged.
pub proof fn pages_follow_chunks(
    images: Seq<Raster>,
    a: Seq<(int, int)>,
    b: Seq<(int, int)>,
    target: int,
)
    ensures
        chunk_pages(images, a + b, target) == chunk_pages(images, a, target) + chunk_pages(
            images,
            b,
            target,
        ),
        b.len() == 1 ==> chunk_pages(images, b, target) == strip_pages(
            merged(images.subrange(b[0].0, b[0].1)),
            target,
        ),
    decreases b.len(),
{
    if b.len() == 0 {
        assert(a + b =~= a);
        assert(chunk_pages(images, a, target) + chunk_pages(images, b, target) =~= chunk_pages(
            images,
            a,
            target,
        ));
    } else {
        pages_follow_chunks(images, a, b.drop_last(), target);
        assert((a + b).drop_last() =~= a + b.drop_last());
        assert((a + b).last() == b.last());
        assert(chunk_pages(images, a + b, target) =~= chunk_pages(images, a, target) + chunk_pages(
            images,
            b,
            target,
        ));
        if b.len() == 1 {
            assert(b.drop_last() =~= seq![]);
            assert(chunk_pages(images, b, target) =~= strip_pages(
                merged(images.subrange(b[0].0, b[0].1)),
                target,
            ));
        }
    }
}

/// The background is black where the first and the last row are dark throughout, and white where they
/// are light throughout.
pub proof fn backgrounds_are_those_of_the_edges(img: Raster)
    requires
        img.wf(),
        img.width > 0,
        img.height > 0,
    ensures
        (forall|i: int|
            0 <= i < img.stride() ==> (#[trigger] img.row(0)[i]) < 128) && (forall|i: int|
            0 <= i < img.stride() ==> (#[trigger] img.row(img.height - 1)[i]) < 128) ==> background(
            img,
        ) == 0,
        (forall|i: int|
            0 <= i < img.stride() ==> (#[trigger] img.row(0)[i]) >= 128) && (forall|i: int|
            0 <= i < img.stride() ==> (#[trigger] img.row(img.height - 1)[i]) >= 128)
            ==> background(img) == 255,
{
    let n = img.width;
    let bottom = img.height - 1;
    if (forall|i: int| 0 <= i < img.stride() ==> (#[trigger] img.row(0)[i]) < 128) && (forall|i: int|
        0 <= i < img.stride() ==> (#[trigger] img.row(bottom)[i]) < 128) {
        assert forall|c: int| 0 <= c < 3 implies #[trigger] edge_average(img, c) < 128 by {
            channel_is_between(img, 0, c, 0, 127);
            channel_is_between(img, bottom, c, 0, 127);
            let t = total(channel(img, 0, c)) + total(channel(img, bottom, c));
            assert(t / (2 * n) <= 127) by (nonlinear_arith)
                requires
                    0 <= t <= 127 * n + 127 * n,
                    n > 0,
            ;
        }
        assert(edge_average(img, 0) < 128 && edge_average(img, 1) < 128 && edge_average(img, 2)
            < 128);
    }
    if (forall|i: int| 0 <= i < img.stride() ==> (#[trigger] img.row(0)[i]) >= 128) && (forall|
        i: int,
    |
        0 <= i < img.stride() ==> (#[trigger] img.row(bottom)[i]) >= 128) {
        assert forall|c: int| 0 <= c < 3 implies #[trigger] edge_average(img, c) >= 128 by {
            channel_is_between(img, 0, c, 128, 255);
            channel_is_between(img, bottom, c, 128, 255);
            let t = total(channel(img, 0, c)) + total(channel(img, bottom, c));
            assert(t / (2 * n) >= 128) by (nonlinear_arith)
                requires
                    t >= 128 * n + 128 * n,
                    n > 0,
            ;
        }
        assert(edge_average(img, 0) >= 128 && edge_average(img, 1) >= 128 && edge_average(img, 2)
            >= 128);
    }
}

proof fn channel_is_between(img: Raster, y: int, c: int, low: int, high: int)
    requires
        img.wf(),
        0 <= y < img.height,
        0 <= c < 3,
        0 <= low,
        forall|i: int| 0 <= i < img.stride() ==> low <= (#[trigger] img.row(y)[i]) <= high,
    ensures
        low * img.width <= total(channel(img, y, c)) <= high * img.width,
{
    row_in_samples(img, y);
    let s = channel(img, y, c);
    assert forall|x: int| 0 <= x < s.len() implies low <= #[trigger] s[x] <= high by {
        if img.color {
            assert(low <= img.row(y)[3 * x + c] <= high);
        } else {
            assert(low <= img.row(y)[x] <= high);
        }
    }
    total_is_between(s, low, high);
}

proof fn total_is_between(s: Seq<u8>, low: int, high: int)
    requires
        forall|x: int| 0 <= x < s.len() ==> low <= #[trigger] s[x] <= high,
    ensures
        low * s.len() <= total(s) <= high * s.len(),
    decreases s.len(),
{
    if s.len() > 0 {
        let rest = s.drop_last();
        assert forall|x: int| 0 <= x < rest.len() implies low <= #[trigger] rest[x] <= high by {
            assert(rest[x] == s[x]);
        }
        total_is_between(rest, low, high);
        let n = rest.len() as int;
        assert(low * (n + 1) == low * n + low && high * (n + 1) == high * n + high)
            by (nonlinear_arith);
        assert(low <= s[s.len() - 1] <= high);
    } else {
        assert(low * 0 == 0 && high * 0 == 0);
    }
}

} // verus!
