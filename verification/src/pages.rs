//! From source images to the pages of a comic.

use vstd::prelude::*;

use crate::borders::{
    crop_borders, cropped, frame_lies_in_picture, is_double_page_spread, left_half, right_half,
    split_spread,
};
use crate::codec::{
    decode_image, decode_named, is_fitted, jpeg_file, jpeg_of, may_decode, may_decode_named,
    resizable,
};
use crate::comic::{ComicError, ComicMetadata, ComicOptions, DeviceProfile};
use crate::contrast::{are_clip_levels, contrast_is_stretched, enhance_image, enhanced};
use crate::layout::{info_view, BookFile};
use crate::panels::{detect_panels, panels, rects, PanelRect};
use crate::picture::{gray, grays, Picture, Raster};
use crate::records::contents;
use crate::webtoon::rasters;

verus! {

/// Reads a source image, in the format that the extension of its name tells.
pub fn load_picture(file: &BookFile) -> (r: Result<Picture, ComicError>)
    ensures
        match r {
            Ok(img) => img.wf() && may_decode_named(file.name@, file.data@, Some(img@)),
            Err(e) => e is NotDecoded && may_decode_named(file.name@, file.data@, None),
        },
{
    match decode_named(file.name.as_str(), &file.data) {
        Some(img) => Ok(img),
        None => Err(ComicError::NotDecoded),
    }
}

/// The picture that is cut into pages: without its borders, where they are to be cut off.
pub open spec fn trimmed_source(img: Raster, options: ComicOptions) -> Raster {
    if options.crop {
        cropped(img)
    } else {
        img
    }
}

/// The pages of a source image: two for a double-page spread that is to be split, the left one
/// first, else one.
pub open spec fn source_pages(img: Raster, options: ComicOptions) -> Seq<Raster> {
    let whole = trimmed_source(img, options);
    if options.split && whole.width > whole.height {
        seq![left_half(whole), right_half(whole)]
    } else {
        seq![whole]
    }
}

/// Cuts a source image into pages. Borders go first, so that the two halves of a spread are equally
/// wide. An image without pixels is an error.
pub fn cut_pages(img: &Picture, options: &ComicOptions) -> (r: Result<Vec<Picture>, ComicError>)
    requires
        img.wf(),
    ensures
        match r {
            Ok(pages) => {
                &&& img.width > 0 && img.height > 0
                &&& rasters(pages@) == source_pages(img@, *options)
                &&& forall|i: int|
                    0 <= i < pages@.len() ==> (#[trigger] pages@[i]).wf() && pages@[i].height > 0
                        && 0 < pages@[i].width <= img.width
            },
            Err(e) => (img.width == 0 || img.height == 0) && e == ComicError::ZeroDimensions(
                img.width,
                img.height,
            ),
        },
{
    if img.width == 0 || img.height == 0 {
        return Err(ComicError::ZeroDimensions(img.width, img.height));
    }
    proof {
        frame_lies_in_picture(img@);
    }
    let whole = if options.crop {
        crop_borders(img)
    } else {
        img.copy()
    };
    let mut pages: Vec<Picture> = Vec::new();
    if options.split && is_double_page_spread(&whole) {
        let (left, right) = split_spread(&whole);
        pages.push(left);
        pages.push(right);
    } else {
        pages.push(whole);
    }
    assert(rasters(pages@) =~= source_pages(img@, *options));
    Ok(pages)
}

/// Whether a source image needs the filter against color patterns: a gray image on a color screen.
pub fn needs_moire_filter(img: &Picture, profile: &DeviceProfile) -> (r: bool)
    ensures
        r == (!img.color && !profile.grayscale),
{
    !img.color && !profile.grayscale
}

/// What a page is turned into before it is brought to the size of the screen.
pub open spec fn toned_page(page: Raster, profile: DeviceProfile, options: ComicOptions) -> Raster {
    if options.enhance && profile.grayscale {
        enhanced(page)
    } else {
        page
    }
}

/// What a page is turned into after it was brought to the size of the screen.
pub open spec fn screen_page(page: Raster, profile: DeviceProfile) -> Raster {
    if profile.grayscale {
        gray(page)
    } else {
        page
    }
}

/// Writes a page that has the size of the screen as JPEG, in gray for a grayscale device.
pub fn encode_page(page: &Picture, profile: &DeviceProfile, options: &ComicOptions) -> (r: Result<
    Vec<u8>,
    ComicError,
>)
    requires
        page.wf(),
    ensures
        ({
            let file = jpeg_of(screen_page(page@, *profile), options.jpeg_quality);
            match r {
                Ok(data) => file == Some(data@),
                Err(e) => file is None && e is NotEncoded,
            }
        }),
{
    let file = if profile.grayscale {
        page.to_gray().encode_jpeg(options.jpeg_quality)
    } else {
        page.encode_jpeg(options.jpeg_quality)
    };
    match file {
        Some(data) => Ok(data),
        None => Err(ComicError::NotEncoded),
    }
}

/// A JPEG file that shows a page on a device: the page was toned, brought to the size of the screen
/// and turned gray where the device is.
pub open spec fn is_finished(
    data: Seq<u8>,
    page: Raster,
    profile: DeviceProfile,
    options: ComicOptions,
) -> bool {
    exists|fitted: Raster|
        {
            &&& #[trigger] is_fitted(
                fitted,
                toned_page(page, profile, options),
                profile.width as int,
                profile.height as int,
            )
            &&& jpeg_of(screen_page(fitted, profile), options.jpeg_quality) == Some(data)
        }
}

/// A page may have no JPEG file on a device: the screen is larger than such a file can be, or the
/// device has colors and there is more to the page than such a file can hold.
pub open spec fn cannot_encode(page: Raster, profile: DeviceProfile) -> bool {
    ||| profile.width > 0xffff
    ||| profile.height > 0xffff
    ||| !page.exact && !profile.grayscale
}

/// On a color device nothing shows a page that is not exact; on a gray one that makes no difference.
pub proof fn color_devices_show_exact_pages(
    data: Seq<u8>,
    page: Raster,
    profile: DeviceProfile,
    options: ComicOptions,
)
    requires
        is_finished(data, page, profile, options),
    ensures
        page.exact || profile.grayscale,
{
}

/// Turns a page into JPEG data for a device: contrast for grayscale devices, the size of the
/// screen, gray where the device is.
///
/// It is an error only where the screen is larger than a JPEG file can be, or where a color device
/// would show a page that is not exact.
pub fn finish_page(page: &Picture, profile: &DeviceProfile, options: &ComicOptions) -> (r: Result<
    Vec<u8>,
    ComicError,
>)
    requires
        page.wf(),
        page.width > 0,
        page.height > 0,
        resizable(page.width as int, profile.width as int, profile.height as int),
    ensures
        match r {
            Ok(data) => is_finished(data@, page@, *profile, *options),
            Err(e) => e is NotEncoded && cannot_encode(page@, *profile),
        },
{
    let toned = if options.enhance && profile.grayscale {
        enhance_image(page)
    } else {
        page.copy()
    };
    let fitted = toned.fit(profile.width, profile.height);
    let r = encode_page(&fitted, profile, options);
    assert(is_fitted(
        fitted@,
        toned_page(page@, *profile, *options),
        profile.width as int,
        profile.height as int,
    ));
    r
}

proof fn narrower_is_resizable(narrow: int, wide: int, screen_w: int, screen_h: int)
    requires
        narrow <= wide,
        0 <= screen_h,
        resizable(wide, screen_w, screen_h),
    ensures
        resizable(narrow, screen_w, screen_h),
{
    assert((screen_h + 1) * (narrow * 16) <= (screen_h + 1) * (wide * 16)) by (nonlinear_arith)
        requires
            narrow <= wide,
            0 <= screen_h,
    ;
}

/// The JPEG pages of a source image. An image without pixels is an error, and so is one that is not
/// exact on a color device.
pub fn process_source(img: &Picture, profile: &DeviceProfile, options: &ComicOptions) -> (r: Result<
    Vec<Vec<u8>>,
    ComicError,
>)
    requires
        img.wf(),
        resizable(img.width as int, profile.width as int, profile.height as int),
    ensures
        match r {
            Ok(files) => {
                let pages = source_pages(img@, *options);
                &&& img.width > 0 && img.height > 0
                &&& files@.len() == pages.len()
                &&& forall|i: int|
                    0 <= i < pages.len() ==> is_finished(
                        (#[trigger] files@[i])@,
                        pages[i],
                        *profile,
                        *options,
                    )
            },
            Err(e) => {
                ||| (img.width == 0 || img.height == 0) && e == ComicError::ZeroDimensions(
                    img.width,
                    img.height,
                )
                ||| e is NotEncoded && cannot_encode(img@, *profile)
            },
        },
{
    let pages = match cut_pages(img, options) {
        Ok(pages) => pages,
        Err(e) => return Err(e),
    };
    let mut files: Vec<Vec<u8>> = Vec::new();
    let mut i: usize = 0;
    let ghost all = source_pages(img@, *options);
    assert(all.len() == pages@.len());
    while i < pages.len()
        invariant
            i <= pages@.len(),
            all == rasters(pages@),
            forall|k: int| 0 <= k < all.len() ==> (#[trigger] all[k]).exact == img.exact,
            resizable(img.width as int, profile.width as int, profile.height as int),
            forall|i: int|
                0 <= i < pages@.len() ==> (#[trigger] pages@[i]).wf() && pages@[i].height > 0 && 0
                    < pages@[i].width <= img.width,
            files@.len() == i,
            forall|k: int|
                0 <= k < i ==> is_finished((#[trigger] files@[k])@, all[k], *profile, *options),
        decreases pages.len() - i,
    {
        assert(pages@[i as int].wf());
        assert(all[i as int] == pages@[i as int]@);
        proof {
            narrower_is_resizable(
                pages@[i as int].width as int,
                img.width as int,
                profile.width as int,
                profile.height as int,
            );
        }
        match finish_page(&pages[i], profile, options) {
            Ok(file) => files.push(file),
            Err(e) => return Err(e),
        }
        i += 1;
    }
    Ok(files)
}

/// The pages of the source images that could be read, one after the other.
pub open spec fn all_pages(groups: Seq<Option<Vec<Vec<u8>>>>) -> Seq<Seq<u8>>
    decreases groups.len(),
{
    if groups.len() == 0 {
        seq![]
    } else {
        all_pages(groups.drop_last()) + match groups.last() {
            Some(pages) => contents(pages@),
            None => seq![],
        }
    }
}

/// The pages of a comic in reading order: those that are read from right to left are reversed.
pub open spec fn reading_order(groups: Seq<Option<Vec<Vec<u8>>>>, rtl: bool) -> Seq<Seq<u8>> {
    if rtl {
        all_pages(groups).reverse()
    } else {
        all_pages(groups)
    }
}

/// Whether some source image could be read.
pub open spec fn some_readable(groups: Seq<Option<Vec<Vec<u8>>>>) -> bool {
    exists|i: int| 0 <= i < groups.len() && (#[trigger] groups[i]) is Some
}

fn push_pages(out: &mut Vec<Vec<u8>>, pages: &Vec<Vec<u8>>)
    ensures
        contents(final(out)@) == contents(old(out)@) + contents(pages@),
{
    let mut i: usize = 0;
    assert(contents(out@) =~= contents(old(out)@) + contents(pages@).take(0));
    while i < pages.len()
        invariant
            i <= pages@.len(),
            contents(out@) == contents(old(out)@) + contents(pages@).take(i as int),
        decreases pages.len() - i,
    {
        let ghost before = contents(out@);
        let mut data: Vec<u8> = Vec::new();
        data.extend_from_slice(&pages[i]);
        assert(data@ =~= pages@[i as int]@);
        out.push(data);
        i += 1;
        proof {
            assert(contents(out@) =~= before.push(pages@[i - 1]@));
            assert(contents(out@) =~= contents(old(out)@) + contents(pages@).take(i as int));
        }
    }
    assert(contents(pages@).take(i as int) =~= contents(pages@));
}

/// Puts the pages of a comic in reading order. A source image that could not be read has none; it
/// is an error where that holds of all.
pub fn order_pages(groups: &[Option<Vec<Vec<u8>>>], rtl: bool) -> (r: Result<Vec<Vec<u8>>, ComicError>)
    ensures
        match r {
            Ok(pages) => some_readable(groups@) && contents(pages@) == reading_order(groups@, rtl),
            Err(e) => !some_readable(groups@) && e is NoValidImages,
        },
{
    let mut pages: Vec<Vec<u8>> = Vec::new();
    let mut readable = false;
    let mut i: usize = 0;
    assert(contents(pages@) =~= all_pages(groups@.take(0)));
    while i < groups.len()
        invariant
            i <= groups@.len(),
            readable ==> some_readable(groups@),
            !readable ==> forall|k: int| 0 <= k < i ==> (#[trigger] groups@[k]) is None,
            contents(pages@) == all_pages(groups@.take(i as int)),
        decreases groups.len() - i,
    {
        assert(groups@.take(i + 1).drop_last() =~= groups@.take(i as int));
        match &groups[i] {
            Some(more) => {
                assert(groups@[i as int] is Some);
                readable = true;
                push_pages(&mut pages, more);
            },
            None => {
                assert(contents(pages@) =~= contents(pages@) + seq![]);
            },
        }
        i += 1;
    }
    assert(groups@.take(i as int) =~= groups@);
    if !readable {
        return Err(ComicError::NoValidImages);
    }
    if rtl {
        let ghost forward = contents(pages@);
        let mut back: Vec<Vec<u8>> = Vec::new();
        assert(contents(back@) =~= forward.reverse().take(0));
        while pages.len() > 0
            invariant
                pages@.len() + back@.len() == forward.len(),
                contents(pages@) == forward.take(pages@.len() as int),
                contents(back@) == forward.reverse().take(back@.len() as int),
            decreases pages@.len(),
        {
            let ghost n = pages@.len() as int;
            let ghost was = contents(back@);
            assert(pages@[n - 1]@ == contents(pages@)[n - 1]);
            if let Some(page) = pages.pop() {
                back.push(page);
                proof {
                    assert(contents(pages@) =~= forward.take(n - 1));
                    assert(contents(back@) =~= was.push(forward[n - 1]));
                    assert(forward.reverse()[was.len() as int] == forward[n - 1]);
                    assert(contents(back@) =~= forward.reverse().take(back@.len() as int));
                }
            }
        }
        assert(contents(back@) =~= forward.reverse());
        return Ok(back);
    }
    Ok(pages)
}

/// Reading a comic from right to left and back again is reading it from left to right: page `i` of
/// one order is page `i` from the end of the other.
pub proof fn reading_orders_mirror(groups: Seq<Option<Vec<Vec<u8>>>>, i: int)
    requires
        0 <= i < all_pages(groups).len(),
    ensures
        reading_order(groups, true).len() == reading_order(groups, false).len(),
        reading_order(groups, true)[i] == reading_order(groups, false)[all_pages(groups).len() - 1
            - i],
{
}

/// Whether a comic is read from right to left: it was asked for, or the metadata says so.
pub fn is_rtl(options: &ComicOptions, metadata: Option<&ComicMetadata>) -> (r: bool)
    ensures
        r == (options.rtl || (info_view(metadata) is Some && info_view(metadata)->0.manga_rtl)),
{
    options.rtl || match metadata {
        Some(m) => m.manga_rtl,
        None => false,
    }
}

/// The panels of a page, where it could be read and some were found.
pub fn panels_of_picture(img: Option<Picture>) -> (r: Option<Vec<PanelRect>>)
    requires
        img matches Some(p) ==> p.wf(),
    ensures
        match r {
            Some(found) => {
                &&& img is Some
                &&& rects(found@) == panels((img->0)@)
                &&& found@.len() > 0
            },
            None => img is None || panels((img->0)@).len() == 0,
        },
{
    match img {
        Some(p) => {
            let found = detect_panels(&p);
            assert(found@.len() == rects(found@).len());
            if found.len() == 0 {
                None
            } else {
                Some(found)
            }
        },
        None => None,
    }
}

/// The panels of a page that is a JPEG file, with the size of the page. What is found rests on how
/// the file is decoded.
pub fn page_panels(jpeg: &[u8]) -> (r: Option<(u32, u32, Vec<PanelRect>)>)
    ensures
        match r {
            Some((w, h, found)) => exists|img: Raster|
                {
                    &&& #[trigger] may_decode(jpeg@, Some(img))
                    &&& img.wf()
                    &&& img.width == w
                    &&& img.height == h
                    &&& rects(found@) == panels(img)
                    &&& found@.len() > 0
                },
            None => may_decode(jpeg@, None) || exists|img: Raster| #[trigger]
                may_decode(jpeg@, Some(img)) && panels(img).len() == 0,
        },
{
    match decode_image(jpeg) {
        Some(img) => {
            let (w, h) = (img.width, img.height);
            let ghost raster = img@;
            match panels_of_picture(Some(img)) {
                Some(found) => {
                    assert(may_decode(jpeg@, Some(raster)));
                    Some((w, h, found))
                },
                None => {
                    assert(may_decode(jpeg@, Some(raster)));
                    None
                },
            }
        },
        None => None,
    }
}

/// The pages of a source image: its borders go first where they are to be cut off. What is left is one
/// page, or where spreads are to be split and it is wider than high, its left half and then its right.
pub proof fn pages_follow_the_source(img: Raster, options: ComicOptions)
    ensures
        ({
            let whole = if options.crop {
                cropped(img)
            } else {
                img
            };
            let pages = source_pages(img, options);
            &&& pages.len() == 1 || pages.len() == 2
            &&& pages.len() == 2 <==> options.split && whole.width > whole.height
            &&& pages.len() == 1 ==> pages[0] == whole
            &&& pages.len() == 2 ==> pages[0] == left_half(whole) && pages[1] == right_half(whole)
        }),
{
}

/// A finished page shows its page: on a gray device with contrast wanted, the page with its contrast
/// stretched, whatever its color model; on any other device, and where no contrast is wanted, the page
/// as it is. It has the size of the screen, is gray on a gray device, and has the quality that was
/// asked for.
pub proof fn finished_pages_show_their_page(
    data: Seq<u8>,
    page: Raster,
    profile: DeviceProfile,
    options: ComicOptions,
)
    requires
        is_finished(data, page, profile, options),
    ensures
        exists|shown: Raster, r: Raster|
            {
                &&& options.enhance && profile.grayscale ==> shown == enhanced(page)
                &&& !options.enhance || !profile.grayscale ==> shown == page
                &&& #[trigger] is_fitted(r, shown, profile.width as int, profile.height as int)
                &&& profile.grayscale ==> data == jpeg_file(
                    r.width,
                    r.height,
                    false,
                    grays(r),
                    options.jpeg_quality,
                )
                &&& !profile.grayscale ==> data == jpeg_file(
                    r.width,
                    r.height,
                    page.color,
                    r.samples,
                    options.jpeg_quality,
                )
            },
{
    let toned = toned_page(page, profile, options);
    let r = choose|fitted: Raster|
        {
            &&& #[trigger] is_fitted(
                fitted,
                toned,
                profile.width as int,
                profile.height as int,
            )
            &&& jpeg_of(screen_page(fitted, profile), options.jpeg_quality) == Some(data)
        };
    assert(is_fitted(r, toned, profile.width as int, profile.height as int));
}

/// On a gray device with contrast wanted, a page is stretched before it is brought to the size of the
/// screen: what is at or below its darkest level that counts is black, and what is at or above its
/// lightest is white, in a gray page and in a color page alike.
pub proof fn gray_devices_show_stretched_pages(
    data: Seq<u8>,
    page: Raster,
    profile: DeviceProfile,
    options: ComicOptions,
)
    requires
        is_finished(data, page, profile, options),
        options.enhance,
        profile.grayscale,
    ensures
        exists|low: int, high: int, shown: Raster, r: Raster|
            {
                &&& #[trigger] are_clip_levels(page, low, high)
                &&& high <= low ==> shown == page
                &&& shown.samples.len() == page.samples.len()
                &&& low < high ==> forall|i: int|
                    0 <= i < page.samples.len() ==> (page.samples[i] <= low ==> shown.samples[i]
                        == 0) && (page.samples[i] >= high ==> #[trigger] shown.samples[i] == 255)
                &&& #[trigger] is_fitted(r, shown, profile.width as int, profile.height as int)
                &&& data == jpeg_file(r.width, r.height, false, grays(r), options.jpeg_quality)
            },
{
    finished_pages_show_their_page(data, page, profile, options);
    let clip = contrast_is_stretched(page);
    let shown = enhanced(page);
    let (same, r) = choose|same: Raster, r: Raster|
        {
            &&& same == shown
            &&& #[trigger] is_fitted(r, same, profile.width as int, profile.height as int)
            &&& data == jpeg_file(r.width, r.height, false, grays(r), options.jpeg_quality)
        };
    assert(are_clip_levels(page, clip.0, clip.1));
    assert(is_fitted(r, shown, profile.width as int, profile.height as int));
}

/// The pages of a comic are those of its source images, one image behind the other; an image that
/// could not be read has none.
pub proof fn pages_follow_their_images(
    a: Seq<Option<Vec<Vec<u8>>>>,
    b: Seq<Option<Vec<Vec<u8>>>>,
)
    ensures
        reading_order(a + b, false) == reading_order(a, false) + reading_order(b, false),
        reading_order(a + b, true) == reading_order(b, true) + reading_order(a, true),
        b.len() == 1 && b[0] is Some ==> reading_order(b, false) == contents((b[0]->0)@),
        b.len() == 1 && b[0] is None ==> reading_order(b, false).len() == 0,
        b.len() == 1 && b[0] is Some ==> reading_order(b, true) == contents((b[0]->0)@).reverse(),
    decreases b.len(),
{
    if b.len() == 0 {
        assert(a + b =~= a);
        assert(all_pages(a) + all_pages(b) =~= all_pages(a));
    } else {
        pages_follow_their_images(a, b.drop_last());
        assert((a + b).drop_last() =~= a + b.drop_last());
        assert((a + b).last() == b.last());
        assert(all_pages(a + b) =~= all_pages(a) + all_pages(b));
        if b.len() == 1 {
            assert(b.drop_last() =~= seq![]);
            assert(all_pages(seq![]) =~= Seq::<Seq<u8>>::empty());
            if b[0] is Some {
                assert(all_pages(b) =~= contents((b[0]->0)@));
            } else {
                assert(all_pages(b) =~= seq![]);
            }
        }
    }
    assert(reading_order(a + b, true) =~= reading_order(b, true) + reading_order(a, true));
}

} // verus!
