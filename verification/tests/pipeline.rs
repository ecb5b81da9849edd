use std::io::Cursor;

use image::{DynamicImage, GrayImage, ImageFormat, Luma, Rgb, RgbImage};
use kindling::comic::{get_profile, ComicError, ComicMetadata, ComicOptions, DeviceProfile};
use kindling::comic_book::build_comic_mobi;
use kindling::compiler::{build_mobi, BuildOptions};
use kindling::input::find_comic_info;
use kindling::layout::{BookFile, ComicPage, PanelStyle};
use kindling::package::read_package;
use kindling::pages::{
    is_rtl, load_picture, needs_moire_filter, order_pages, page_panels, process_source,
};
use kindling::picture::Picture;
use kindling::webtoon::{is_webtoon, webtoon_merge, webtoon_preprocess};
use kindling::xml::read_xml;

fn be32(data: &[u8], at: usize) -> usize {
    u32::from_be_bytes([data[at], data[at + 1], data[at + 2], data[at + 3]]) as usize
}

fn record_count(data: &[u8]) -> usize {
    u16::from_be_bytes([data[76], data[77]]) as usize
}

fn record(data: &[u8], n: usize) -> &[u8] {
    let end = if n + 1 < record_count(data) { be32(data, 78 + 8 * (n + 1)) } else { data.len() };
    &data[be32(data, 78 + 8 * n)..end]
}

fn exth(data: &[u8], kind: usize) -> Option<String> {
    let rec0 = record(data, 0);
    let start = 16 + be32(rec0, 20);
    assert_eq!(&rec0[start..start + 4], b"EXTH");
    let mut at = start + 12;
    for _ in 0..be32(rec0, start + 8) {
        let length = be32(rec0, at + 4);
        if be32(rec0, at) == kind {
            return Some(String::from_utf8_lossy(&rec0[at + 8..at + length]).to_string());
        }
        at += length;
    }
    None
}

fn save(img: DynamicImage, name: &str) -> BookFile {
    let mut data = Vec::new();
    let format = ImageFormat::from_path(name).unwrap();
    img.write_to(&mut Cursor::new(&mut data), format).unwrap();
    BookFile { name: name.to_string(), data }
}

fn rgb(name: &str, w: u32, h: u32, f: impl Fn(u32, u32) -> [u8; 3]) -> BookFile {
    save(DynamicImage::ImageRgb8(RgbImage::from_fn(w, h, |x, y| Rgb(f(x, y)))), name)
}

fn gray(name: &str, w: u32, h: u32, f: impl Fn(u32, u32) -> u8) -> BookFile {
    save(DynamicImage::ImageLuma8(GrayImage::from_fn(w, h, |x, y| Luma([f(x, y)]))), name)
}

fn options() -> ComicOptions {
    ComicOptions {
        rtl: false,
        split: false,
        crop: false,
        enhance: false,
        webtoon: false,
        panel_view: false,
        jpeg_quality: 85,
        max_height: 65536,
        embed_source: false,
        ..Default::default()
    }
}

fn filtered(img: Picture) -> Picture {
    let buffer = GrayImage::from_raw(img.width, img.height, img.samples).unwrap();
    let out = DynamicImage::ImageLuma8(buffer).blur(1.0).unsharpen(0.5, 1).to_luma8();
    Picture { width: out.width(), height: out.height(), color: false, exact: true, samples: out.into_raw() }
}

fn encoded(img: Picture, profile: &DeviceProfile, options: &ComicOptions) -> Option<Vec<Vec<u8>>> {
    let img = if needs_moire_filter(&img, profile) { filtered(img) } else { img };
    process_source(&img, profile, options).ok()
}

fn build_with(
    images: &[BookFile],
    metadata: Option<&ComicMetadata>,
    profile: &DeviceProfile,
    options: &ComicOptions,
) -> Vec<u8> {
    let loaded = images.iter().map(load_picture);
    let groups: Vec<Option<Vec<Vec<u8>>>> = if options.webtoon || is_webtoon(images) {
        let strips = loaded.filter_map(|p| p.ok()).collect();
        let pages = webtoon_preprocess(strips, profile.height, options.max_height).unwrap();
        pages.into_iter().map(|p| encoded(p, profile, options)).collect()
    } else {
        loaded.map(|p| p.ok().and_then(|p| encoded(p, profile, options))).collect()
    };
    let rtl = is_rtl(options, metadata);
    let pages: Vec<ComicPage> = order_pages(&groups, rtl)
        .unwrap()
        .into_iter()
        .map(|jpeg| {
            let found = if options.panel_view { page_panels(&jpeg) } else { None };
            let percent = |part: u32, whole: u32| format!("{:.1}", part as f64 / whole as f64 * 100.0);
            let panels = found.map_or(Vec::new(), |(w, h, list)| {
                list.iter()
                    .map(|p| PanelStyle {
                        left: percent(p.x, w),
                        top: percent(p.y, h),
                        width: percent(p.w, w),
                        height: percent(p.h, h),
                    })
                    .collect()
            });
            ComicPage { jpeg, panels }
        })
        .collect();
    build_comic_mobi(&pages, profile, rtl, metadata, options, None, 0)
}

fn build(images: &[BookFile], device: &str, options: &ComicOptions) -> Vec<u8> {
    let data = build_with(images, None, &get_profile(device).unwrap(), options);
    assert!(data.len() > 100, "Comic MOBI too small");
    assert_eq!(&data[60..64], b"BOOK");
    assert_eq!(&data[64..68], b"MOBI");
    data
}

#[test]
fn test_comic_pipeline() {
    let images: Vec<BookFile> = (0..3u8)
        .map(|i| {
            rgb(&format!("page_{:03}.jpg", i), 100, 150, |x, y| {
                [(x as u8).wrapping_add(i * 50), (y as u8).wrapping_add(i * 30), 128]
            })
        })
        .collect();
    let data = build(&images, "paperwhite", &ComicOptions::default());
    assert_eq!(exth(&data, 122).as_deref(), Some("true"));
}

#[test]
fn test_rtl_page_ordering() {
    let images: Vec<BookFile> =
        (0..3u8).map(|i| gray(&format!("page_{:03}.jpg", i), 100, 150, |_, _| 50 + i * 80)).collect();
    let data = build(&images, "paperwhite", &ComicOptions { rtl: true, ..options() });
    assert_eq!(exth(&data, 527).as_deref(), Some("rtl"));
    assert_eq!(exth(&data, 525).as_deref(), Some("horizontal-rl"));
    // The brightest page, which comes last from left to right, comes first.
    let first = image::load_from_memory(record(&data, be32(record(&data, 0), 108))).unwrap();
    assert!(first.to_luma8().get_pixel(10, 10)[0] > 200);
}

#[test]
fn test_ltr_comic_exth_writing_mode() {
    let images = [gray("page_001.jpg", 100, 150, |_, _| 128)];
    let data = build(&images, "paperwhite", &ComicOptions::default());
    assert_eq!(exth(&data, 525).as_deref(), Some("horizontal-lr"));
}

#[test]
fn test_spread_split_in_pipeline() {
    let images = [rgb("spread_001.jpg", 300, 150, |x, _| if x < 150 { [50; 3] } else { [200; 3] })];
    build(&images, "paperwhite", &ComicOptions { split: true, ..options() });
}

#[test]
fn test_no_split_flag_prevents_splitting() {
    let images = [rgb("spread_001.jpg", 300, 150, |_, _| [128; 3])];
    let split = build(&images, "paperwhite", &ComicOptions { split: true, ..options() });
    let whole = build(&images, "paperwhite", &options());
    assert!(record_count(&split) > record_count(&whole));
}

#[test]
fn test_enhance_only_on_grayscale_devices() {
    let images = [rgb("page_001.jpg", 100, 150, |_, _| [128; 3])];
    assert!(!get_profile("colorsoft").unwrap().grayscale);
    build(&images, "colorsoft", &ComicOptions { enhance: true, ..options() });
}

#[test]
fn test_comicinfo_in_directory() {
    let images = [gray("page_001.jpg", 100, 150, |_, _| 128)];
    let xml = r#"<?xml version="1.0" encoding="utf-8"?>
<ComicInfo>
  <Title>Test Manga</Title>
  <Writer>Test Author</Writer>
  <Manga>YesAndRightToLeft</Manga>
</ComicInfo>"#;
    let info = BookFile { name: "ComicInfo.xml".to_string(), data: xml.as_bytes().to_vec() };
    let metadata = find_comic_info(&[info]);
    let profile = get_profile("paperwhite").unwrap();
    let data = build_with(&images, metadata.as_ref(), &profile, &options());
    assert_eq!(exth(&data, 527).as_deref(), Some("rtl"));
    assert_eq!(exth(&data, 525).as_deref(), Some("horizontal-rl"));
}

#[test]
fn test_webtoon_detection() {
    let strip = |i: u32| {
        rgb(&format!("strip_{:03}.png", i), 100, 400, |x, y| {
            [((x + i * 30) % 256) as u8, ((y + i * 20) % 256) as u8, 128]
        })
    };
    let normal = || rgb("normal.png", 100, 150, |_, _| [128; 3]);
    assert!(is_webtoon(&[strip(0), strip(1), strip(2)]));
    assert!(!is_webtoon(&[strip(0), normal()]));
    assert!(!is_webtoon(&[normal()]));
    assert!(!is_webtoon(&[]));
}

fn guttered(i: u32) -> BookFile {
    rgb(&format!("strip_{:03}.png", i), 200, 2000, |x, y| {
        if y % 800 < 20 {
            [255; 3]
        } else {
            [((x + i * 50) % 200) as u8 + 20, ((y + i * 30) % 200) as u8 + 20, 128]
        }
    })
}

#[test]
fn test_webtoon_pipeline() {
    let images = [guttered(0), guttered(1)];
    let data = build(&images, "paperwhite", &options());
    assert_eq!(exth(&data, 122).as_deref(), Some("true"));
}

#[test]
fn test_webtoon_forced_flag() {
    let images: Vec<BookFile> = (0..2u32)
        .map(|i| {
            rgb(&format!("page_{:03}.png", i), 200, 2000, |x, y| {
                [((x + i * 50) % 256) as u8, ((y + i * 30) % 256) as u8, 128]
            })
        })
        .collect();
    build(&images, "paperwhite", &ComicOptions { webtoon: true, ..options() });
}

#[test]
fn test_webtoon_with_device_profile() {
    let images = [rgb("strip_001.png", 200, 5000, |x, y| {
        if y % 1200 < 20 {
            [255; 3]
        } else {
            [((x * 3) % 256) as u8, ((y * 7) % 256) as u8, 100]
        }
    })];
    build(&images, "scribe", &ComicOptions { webtoon: true, ..options() });
}

#[test]
fn test_webtoon_max_height() {
    let images = [guttered(0), guttered(1), guttered(2)];
    let chunked = ComicOptions { webtoon: true, max_height: 3000, ..options() };
    build(&images, "paperwhite", &chunked);
    build(&images, "paperwhite", &ComicOptions { webtoon: true, ..options() });
}

#[test]
fn test_panel_view_html() {
    let images = [rgb("page_001.jpg", 400, 400, |x, y| {
        if (190..210).contains(&y) || (190..210).contains(&x) {
            [255; 3]
        } else {
            [((x * 3 + 10) % 200) as u8 + 28, ((y * 7 + 20) % 200) as u8 + 28, 128]
        }
    })];
    build(&images, "paperwhite", &ComicOptions { panel_view: true, ..options() });
}

#[test]
fn test_no_panel_view_flag() {
    let images = [rgb("page_001.jpg", 400, 400, |x, y| {
        if (190..210).contains(&y) || (190..210).contains(&x) {
            [255; 3]
        } else {
            [100; 3]
        }
    })];
    build(&images, "paperwhite", &options());
    build(&images, "paperwhite", &ComicOptions { panel_view: true, ..options() });
}

#[test]
fn test_panel_view_opf_metadata() {
    let images = [rgb("page_001.jpg", 100, 150, |_, _| [128; 3])];
    build(&images, "paperwhite", &ComicOptions { panel_view: true, ..options() });
    build(&images, "paperwhite", &options());
}

#[test]
fn test_jpeg_quality_flag() {
    let images = [rgb("page_001.jpg", 200, 300, |x, y| {
        [
            ((x * 7 + y * 3) % 256) as u8,
            ((x * 3 + y * 11 + 50) % 256) as u8,
            ((x * 5 + y * 7 + 100) % 256) as u8,
        ]
    })];
    let low = build(&images, "colorsoft", &ComicOptions { jpeg_quality: 30, ..options() });
    let high = build(&images, "colorsoft", &ComicOptions { jpeg_quality: 95, ..options() });
    assert!(high.len() > low.len());
}

#[test]
fn test_corrupt_image_skipped() {
    let corrupt = BookFile {
        name: "page_002.jpg".to_string(),
        data: b"this is not a valid jpeg file at all".to_vec(),
    };
    let images = [
        rgb("page_001.jpg", 100, 150, |_, _| [128; 3]),
        corrupt,
        rgb("page_003.jpg", 100, 150, |_, _| [200; 3]),
    ];
    build(&images, "paperwhite", &options());
}

#[test]
fn test_zero_dimension_image_skipped() {
    let empty = BookFile {
        name: "page_002.png".to_string(),
        data: vec![
            0x89, 0x50, 0x4E, 0x47, 0x0D, 0x0A, 0x1A, 0x0A, 0x00, 0x00, 0x00, 0x0D, 0x49, 0x48, 0x44,
            0x52, 0x00, 0x00, 0x00, 0x00, 0x00, 0x00, 0x00, 0x00, 0x08, 0x02, 0x00, 0x00, 0x00, 0x00,
            0x00, 0x00, 0x00,
        ],
    };
    let images = [
        rgb("page_001.png", 100, 150, |_, _| [128; 3]),
        empty,
        rgb("page_003.png", 100, 150, |_, _| [200; 3]),
    ];
    build(&images, "paperwhite", &options());
}

fn screentone() -> BookFile {
    gray("page_001.jpg", 100, 150, |x, y| if (x + y) % 2 == 0 { 200 } else { 50 })
}

#[test]
fn test_moire_applied_for_color_device() {
    let profile = get_profile("colorsoft").unwrap();
    assert!(!profile.grayscale, "colorsoft should be a color device");
    assert!(needs_moire_filter(&load_picture(&screentone()).unwrap(), &profile));
    build(&[screentone()], "colorsoft", &options());
}

#[test]
fn test_moire_not_applied_for_grayscale_device() {
    let profile = get_profile("paperwhite").unwrap();
    assert!(profile.grayscale, "paperwhite should be a grayscale device");
    assert!(!needs_moire_filter(&load_picture(&screentone()).unwrap(), &profile));
    build(&[screentone()], "paperwhite", &options());
}

#[test]
fn test_dict_headword_count_matches_input() {
    let opf = r#"<package><metadata><dc:title>Dict</dc:title><dc:language>en</dc:language></metadata>
<manifest><item id="c" href="content.html" media-type="application/xhtml+xml"/></manifest>
<spine><itemref idref="c"/></spine></package>"#;
    let mut html = "<html><body>".to_string();
    for (word, form) in [("apple", "apples"), ("banana", "bananas"), ("cherry", "cherries")] {
        html += &format!(
            "<idx:entry><idx:orth value=\"{w}\"><b>{w}</b></idx:orth><idx:infl><idx:iform value=\"{f}\"/></idx:infl><p>About {w}.</p></idx:entry><hr/>",
            w = word,
            f = form
        );
    }
    html += "</body></html>";
    let build_options = BuildOptions {
        no_compress: true,
        headwords_only: true,
        include_cmet: false,
        hd_images: true,
        creator_tag: false,
        kf8_only: false,
    };
    let package = read_package(&read_xml(opf));
    let data =
        build_mobi(&package, vec![html], &Vec::new(), Vec::new(), build_options, None, 0).unwrap();
    let index = record(&data, be32(record(&data, 0), 40));
    assert_eq!(&index[..4], b"INDX");
    assert_eq!(be32(index, 36), 3, "Headword count should match input");
}

fn png(img: DynamicImage) -> BookFile {
    let mut data = Cursor::new(Vec::new());
    img.write_to(&mut data, ImageFormat::Png).unwrap();
    BookFile { name: "page.png".to_string(), data: data.into_inner() }
}

#[test]
fn color_devices_show_exact_images_only() {
    let gray = DynamicImage::ImageLuma8(GrayImage::from_pixel(60, 90, Luma([70])));
    let rgb = DynamicImage::ImageRgb8(RgbImage::from_pixel(60, 90, Rgb([70, 80, 90])));
    let cases = [
        (gray.clone(), false, true),
        (rgb.clone(), true, true),
        (DynamicImage::ImageRgba8(rgb.to_rgba8()), true, false),
        (DynamicImage::ImageLumaA8(gray.to_luma_alpha8()), true, false),
        (DynamicImage::ImageLuma16(gray.to_luma16()), true, false),
        (DynamicImage::ImageRgb16(rgb.to_rgb16()), true, false),
    ];
    for (img, color, exact) in cases {
        let picture = load_picture(&png(img)).unwrap();
        assert_eq!((picture.width, picture.height), (60, 90));
        assert_eq!((picture.color, picture.exact), (color, exact));
        for enhance in [false, true] {
            let options = ComicOptions { enhance, ..options() };
            let shown = |name: &str| {
                let screen = DeviceProfile { width: 30, height: 45, ..get_profile(name).unwrap() };
                process_source(&picture, &screen, &options)
            };
            assert_eq!(shown("paperwhite").unwrap().len(), 1);
            match shown("colorsoft") {
                Ok(pages) => assert!(exact && pages.len() == 1),
                Err(e) => assert!(!exact && matches!(e, ComicError::NotEncoded)),
            }
        }
    }
}

#[test]
fn merged_strips_are_exact() {
    let rgba = DynamicImage::ImageRgb8(RgbImage::from_pixel(60, 90, Rgb([70, 80, 90]))).to_rgba8();
    let load = || load_picture(&png(DynamicImage::ImageRgba8(rgba.clone()))).unwrap();
    assert!(!webtoon_merge(&[load()]).exact);
    assert!(webtoon_merge(&[load(), load()]).exact);
    assert!(!load().crop(1, 1, 5, 5).exact);
    assert!(!load().fit(30, 45).exact);
    assert!(load().to_gray().exact);
}
