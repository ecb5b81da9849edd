use kindling::borders::{crop_borders, is_double_page_spread, split_spread};
use kindling::contrast::enhance_image;
use kindling::panels::{
    detect_panels, find_horizontal_gutters, find_vertical_gutters, strips_from_gutters, PanelRect,
};
use kindling::picture::{spread_of, total_of, Picture};
use kindling::webtoon::{
    detect_background_color, detect_webtoon, webtoon_merge, webtoon_preprocess, webtoon_split,
};

fn gray(width: u32, height: u32, f: impl Fn(u32, u32) -> u8) -> Picture {
    let mut samples = Vec::new();
    for y in 0..height {
        for x in 0..width {
            samples.push(f(x, y));
        }
    }
    Picture { width, height, color: false, exact: true, samples }
}

fn rgb(width: u32, height: u32, f: impl Fn(u32, u32) -> [u8; 3]) -> Picture {
    let mut samples = Vec::new();
    for y in 0..height {
        for x in 0..width {
            samples.extend_from_slice(&f(x, y));
        }
    }
    Picture { width, height, color: true, exact: true, samples }
}

fn rgb_at(p: &Picture, x: u32, y: u32) -> [u8; 3] {
    assert!(p.color);
    let i = 3 * (y * p.width + x) as usize;
    [p.samples[i], p.samples[i + 1], p.samples[i + 2]]
}

#[test]
fn test_spread_detection_landscape() {
    let wide = rgb(200, 100, |_, _| [128, 128, 128]);
    assert!(is_double_page_spread(&wide), "200x100 should be detected as spread");
}

#[test]
fn test_spread_detection_portrait() {
    let tall = rgb(100, 200, |_, _| [128, 128, 128]);
    assert!(!is_double_page_spread(&tall), "100x200 should not be detected as spread");
}

#[test]
fn test_spread_detection_square() {
    let square = rgb(100, 100, |_, _| [128, 128, 128]);
    assert!(!is_double_page_spread(&square), "100x100 should not be detected as spread");
}

#[test]
fn test_spread_split_dimensions() {
    let wide = rgb(200, 100, |x, _| if x < 100 { [50, 50, 50] } else { [200, 200, 200] });
    let (left, right) = split_spread(&wide);
    assert_eq!((left.width, left.height), (100, 100), "Left half should be 100x100");
    assert_eq!((right.width, right.height), (100, 100), "Right half should be 100x100");
    assert!(rgb_at(&left, 50, 50)[0] < 100, "Left half should be dark");
    assert!(rgb_at(&right, 50, 50)[0] > 100, "Right half should be bright");
}

#[test]
fn odd_spreads_give_the_middle_column_to_the_right() {
    let img = gray(5, 2, |x, y| (10 * y + x) as u8);
    let (left, right) = split_spread(&img);
    assert_eq!(left.samples, vec![0, 1, 10, 11]);
    assert_eq!(right.samples, vec![2, 3, 4, 12, 13, 14]);
    for y in 0..2 {
        let mut row = left.row_samples(y).to_vec();
        row.extend_from_slice(right.row_samples(y));
        assert_eq!(row, img.row_samples(y));
    }
}

#[test]
fn test_crop_white_borders() {
    let img = gray(100, 100, |x, y| {
        if x >= 10 && x < 90 && y >= 10 && y < 90 {
            50
        } else {
            255
        }
    });
    let cropped = crop_borders(&img);
    let (w, h) = (cropped.width, cropped.height);
    assert!(w < 100, "Cropped width ({}) should be less than 100", w);
    assert!(h < 100, "Cropped height ({}) should be less than 100", h);
    assert!(w >= 70 && w <= 85, "Cropped width should be ~80, got {}", w);
    assert!(h >= 70 && h <= 85, "Cropped height should be ~80, got {}", h);
}

#[test]
fn test_crop_black_borders() {
    let img = gray(100, 100, |x, y| {
        if x >= 10 && x < 90 && y >= 10 && y < 90 {
            200
        } else {
            0
        }
    });
    let cropped = crop_borders(&img);
    assert!(cropped.width < 100, "Cropped width ({}) should be less than 100", cropped.width);
    assert!(cropped.height < 100, "Cropped height ({}) should be less than 100", cropped.height);
    assert_eq!((cropped.width, cropped.height), (80, 80));
    assert!(cropped.samples.iter().all(|&v| v == 200));
}

#[test]
fn test_crop_no_border() {
    let img = gray(100, 100, |x, y| ((x * 3 + y * 7) % 256) as u8);
    let cropped = crop_borders(&img);
    assert_eq!(cropped.width, 100, "No-border image should not be cropped (width)");
    assert_eq!(cropped.height, 100, "No-border image should not be cropped (height)");
    assert_eq!(cropped.samples, img.samples);
}

#[test]
fn test_crop_thin_border_ignored() {
    let img = gray(1000, 1000, |x, y| {
        if x >= 15 && x < 985 && y >= 15 && y < 985 {
            100
        } else {
            255
        }
    });
    let cropped = crop_borders(&img);
    assert_eq!(cropped.width, 1000, "Thin border (<2%) should not be cropped (width)");
    assert_eq!(cropped.height, 1000, "Thin border (<2%) should not be cropped (height)");
}

/// Rows and columns whose averages differ from those next to them.
fn plaid(x: u32, y: u32) -> u8 {
    ((y * 37) % 100 + (x * 41) % 100) as u8
}

#[test]
fn a_border_of_a_fiftieth_counts() {
    let framed = |border: u32| gray(100, 100, move |x, y| if y < border { 255 } else { plaid(x, y) });
    assert_eq!(crop_borders(&framed(2)).height, 98);
    assert_eq!(crop_borders(&framed(1)).height, 100);
}

#[test]
fn the_tolerance_is_twenty() {
    // Rows of 60 next to rows of 80 differ by 20, which is within the tolerance; 81 is not.
    let img = |v: u8| {
        gray(100, 100, move |x, y| {
            if y < 10 {
                60
            } else if y < 20 {
                v
            } else {
                plaid(x, y)
            }
        })
    };
    assert_eq!(crop_borders(&img(80)).height, 80);
    assert_eq!(crop_borders(&img(81)).height, 90);
}

#[test]
fn small_and_uniform_pictures_stay() {
    let small = gray(9, 50, |_, y| if y < 20 { 0 } else { 255 });
    assert_eq!(crop_borders(&small).samples, small.samples);
    let uniform = gray(30, 30, |_, _| 7);
    assert_eq!((crop_borders(&uniform).width, crop_borders(&uniform).height), (30, 30));
}

#[test]
fn test_crop_before_split_symmetric() {
    let img = gray(200, 100, |x, y| {
        if x < 10 || x >= 190 || y < 10 || y >= 90 {
            255
        } else if x < 100 {
            60
        } else {
            190
        }
    });
    let cropped = crop_borders(&img);
    assert!(cropped.width < 200, "Should have cropped width: got {}", cropped.width);
    assert!(cropped.height < 100, "Should have cropped height: got {}", cropped.height);
    assert!(is_double_page_spread(&cropped), "Cropped image should still be landscape");
    let (left, right) = split_spread(&cropped);
    assert_eq!(left.width, right.width, "halves should have equal width");
}

#[test]
fn test_enhance_expands_histogram() {
    let img = gray(100, 100, |x, y| (100 + ((x + y) % 50)) as u8);
    let enhanced = enhance_image(&img);
    let min_val = *enhanced.samples.iter().min().unwrap();
    let max_val = *enhanced.samples.iter().max().unwrap();
    let range = max_val as i32 - min_val as i32;
    assert!(range > 100, "range should be > 100, got {} ({}..{})", range, min_val, max_val);
    assert_eq!((min_val, max_val), (0, 255));
}

#[test]
fn test_enhance_uniform_image_unchanged() {
    let img = gray(50, 50, |_, _| 128);
    let enhanced = enhance_image(&img);
    assert_eq!((enhanced.width, enhanced.height), (50, 50), "dimensions should not change");
    assert_eq!(enhanced.samples, img.samples);
}

#[test]
fn enhancing_follows_the_gamma_curve() {
    // A picture of under 200 pixels clips nothing: the range is 0 to 255.
    let img = gray(16, 1, |x, _| (x * 17) as u8);
    let enhanced = enhance_image(&img);
    for (v, e) in img.samples.iter().zip(&enhanced.samples) {
        let want = ((*v as f64 / 255.0).powf(1.25) * 255.0).round() as u8;
        assert_eq!(*e, want);
    }
    let mut sorted = enhanced.samples.clone();
    sorted.sort();
    assert_eq!(sorted, enhanced.samples, "order is kept");
    // Of 200 pixels one is clipped at either end, so the range goes from the least to the greatest.
    for range in [1u32, 7, 49, 100, 254] {
        let img = gray(20, 10, move |x, y| if (x + y) % 2 == 0 { 1 } else { (1 + (x * 10 + y) % (range + 1)) as u8 });
        let enhanced = enhance_image(&img);
        let high = *img.samples.iter().max().unwrap() as f64;
        for (v, e) in img.samples.iter().zip(&enhanced.samples) {
            let want = (((*v as f64 - 1.0) / (high - 1.0)).powf(1.25) * 255.0).round() as u8;
            assert_eq!(*e, want, "range {} value {}", range, v);
        }
    }
}

#[test]
fn enhancing_darkens_midtones() {
    let img = gray(16, 16, |x, y| (y * 16 + x) as u8);
    let enhanced = enhance_image(&img);
    assert_eq!((enhanced.width, enhanced.height), (16, 16));
    assert_eq!(enhanced.samples[0], 0);
    assert_eq!(enhanced.samples[128], 108);
    assert_eq!(enhanced.samples[255], 255);
    for v in 3..=252usize {
        assert!((enhanced.samples[v] as usize) < v, "{} becomes {}", v, enhanced.samples[v]);
        assert!(enhanced.samples[v] >= enhanced.samples[v - 1]);
    }
}

#[test]
fn enhancing_clips_half_a_percent() {
    // Of 400 pixels 2 are clipped at either end: one outlier does not count.
    let img = gray(20, 20, |x, y| match (x, y) {
        (0, 0) => 0,
        (19, 19) => 255,
        _ => 100 + (x % 2) as u8 * 50,
    });
    let enhanced = enhance_image(&img);
    assert_eq!(enhanced.samples[0], 0);
    assert_eq!(enhanced.samples[20], 0);
    assert_eq!(enhanced.samples[21], 255);
    assert_eq!(enhanced.samples[399], 255);
}

#[test]
fn enhancing_treats_each_channel() {
    let img = rgb(2, 1, |x, _| if x == 0 { [0, 0, 0] } else { [255, 100, 0] });
    let enhanced = enhance_image(&img);
    assert!(enhanced.color);
    let tone = |v: f64| ((v / 255.0).powf(1.25) * 255.0).round() as u8;
    assert_eq!(enhanced.samples, vec![0, 0, 0, 255, tone(100.0), 0]);
}

#[test]
fn gray_of_color_is_its_luminance() {
    let img = rgb(5, 1, |x, _| match x {
        0 => [0, 0, 0],
        1 => [255, 255, 255],
        2 => [90, 90, 90],
        3 => [255, 0, 0],
        _ => [10, 200, 30],
    });
    let g = img.to_gray();
    assert!(!g.color);
    assert_eq!(g.samples, vec![0, 255, 90, 54, 147]);
    let neutral = rgb(256, 1, |x, _| [x as u8, x as u8, x as u8]);
    assert_eq!(neutral.to_gray().samples, (0..=255).collect::<Vec<u8>>());
    let same = gray(3, 1, |x, _| x as u8);
    assert_eq!(same.to_gray().samples, same.samples);
}

#[test]
fn totals_and_spreads() {
    assert_eq!(total_of(&[1, 2, 3]), 6);
    assert_eq!(spread_of(&[]), 0);
    assert_eq!(spread_of(&[5, 5, 5]), 0);
    // The variance of 0 and 10 is 25; times the square of 2 it is 100.
    assert_eq!(spread_of(&[0, 10]), 100);
}

#[test]
fn webtoons_are_all_tall() {
    assert!(detect_webtoon(&[Some((100, 500)), Some((200, 601))]));
    assert!(!detect_webtoon(&[Some((100, 500)), Some((200, 600))]));
    assert!(!detect_webtoon(&[Some((100, 500)), None]));
    assert!(!detect_webtoon(&[]), "Empty input should not be detected as webtoon");
}

#[test]
fn test_webtoon_merge() {
    let img1 = rgb(100, 200, |_, _| [255, 0, 0]);
    let img2 = rgb(80, 150, |_, _| [0, 255, 0]);
    let merged = webtoon_merge(&[img1, img2]);
    assert_eq!(merged.width, 100, "Merged width should be max width (100)");
    assert_eq!(merged.height, 350, "Merged height should be sum (350)");
    assert_eq!(rgb_at(&merged, 50, 50), [255, 0, 0], "Top portion should be red");
    assert_eq!(rgb_at(&merged, 50, 250), [0, 255, 0], "Bottom center should be green");
}

#[test]
fn test_webtoon_merge_single_image() {
    let img = rgb(100, 500, |_, _| [128, 128, 128]);
    let merged = webtoon_merge(&[img]);
    assert_eq!((merged.width, merged.height), (100, 500));
}

#[test]
fn test_webtoon_merge_centering() {
    let img1 = rgb(200, 100, |_, _| [255, 255, 255]);
    let img2 = rgb(100, 100, |_, _| [0, 0, 0]);
    let merged = webtoon_merge(&[img1, img2]);
    assert_eq!(merged.width, 200, "Width should be 200");
    assert_eq!(merged.height, 200, "Height should be 200");
    assert_eq!(rgb_at(&merged, 0, 150), [255, 255, 255], "Left padding should be white background");
    assert_eq!(rgb_at(&merged, 100, 150), [0, 0, 0], "Center of bottom half should be black");
    assert_eq!(rgb_at(&merged, 199, 150), [255, 255, 255], "Right padding should be white background");
}

#[test]
fn merging_turns_gray_into_color() {
    let merged = webtoon_merge(&[gray(3, 1, |x, _| x as u8), gray(1, 1, |_, _| 9)]);
    assert!(merged.color);
    // The first picture is dark, so the canvas is black.
    assert_eq!(merged.samples, vec![0, 0, 0, 1, 1, 1, 2, 2, 2, 0, 0, 0, 9, 9, 9, 0, 0, 0]);
}

#[test]
fn backgrounds_are_black_or_white() {
    assert_eq!(detect_background_color(&gray(4, 4, |_, _| 127)), 0);
    assert_eq!(detect_background_color(&gray(4, 4, |_, _| 128)), 255);
    // Only the first and the last row count.
    assert_eq!(detect_background_color(&gray(4, 4, |_, y| if y == 0 || y == 3 { 250 } else { 0 })), 255);
    assert_eq!(detect_background_color(&rgb(2, 2, |_, _| [255, 255, 0])), 255);
    assert_eq!(detect_background_color(&rgb(2, 2, |_, _| [255, 0, 0])), 0);
    assert_eq!(detect_background_color(&gray(0, 0, |_, _| 0)), 255);
}

#[test]
fn test_webtoon_split() {
    let strip_height = 4000u32;
    let strip_width = 100u32;
    let img = gray(strip_width, strip_height, |_x, y| {
        if (y >= 1390 && y <= 1410) || (y >= 2790 && y <= 2810) {
            255
        } else {
            ((y * 7 + 13) % 200) as u8 + 30
        }
    });
    let pages = webtoon_split(&img, 1448);
    assert!(pages.len() >= 2, "Should produce at least 2 pages, got {}", pages.len());
    assert!(pages.len() <= 4, "Should produce at most 4 pages, got {}", pages.len());
    for (i, page) in pages.iter().enumerate() {
        assert_eq!(page.width, strip_width, "Page {} width", i);
    }
    let total_h: u32 = pages.iter().map(|p| p.height).sum();
    assert_eq!(total_h, strip_height, "Sum of page heights should equal strip height");
}

#[test]
fn test_webtoon_split_hard_cut() {
    let strip_height = 3000u32;
    let device_height = 1448u32;
    let overlap = (device_height as f64 * 0.10) as u32;
    let img = gray(100, strip_height, |x, y| ((x * 37 + y * 13 + 7) % 200) as u8 + 28);
    let pages = webtoon_split(&img, device_height);
    assert!(pages.len() >= 2, "Should produce at least 2 pages even without gutters");
    let total_h: u32 = pages.iter().map(|p| p.height).sum();
    assert!(total_h >= strip_height, "Sum of page heights ({}) should be >= strip height", total_h);
    let num_splits = pages.len() - 1;
    let expected_overlap_total = num_splits as u32 * overlap;
    assert!(
        total_h <= strip_height + expected_overlap_total + device_height / 5,
        "Total height ({}) should not vastly exceed strip height + overlap",
        total_h
    );
}

#[test]
fn test_webtoon_split_overlap_content() {
    let strip_height = 3000u32;
    let device_height = 1448u32;
    let overlap = (device_height as f64 * 0.10) as u32;
    let img = gray(50, strip_height, |x, y| {
        ((x.wrapping_mul(41).wrapping_add(y.wrapping_mul(97))) % 200) as u8 + 28
    });
    let pages = webtoon_split(&img, device_height);
    assert!(pages.len() >= 2, "Need at least 2 pages to test overlap");
    let total_h: u32 = pages.iter().map(|p| p.height).sum();
    assert!(total_h > strip_height, "overlap should make total height ({}) > strip height", total_h);
    let mut actual_y = 0u32;
    for (i, page) in pages.iter().enumerate() {
        let page_end = actual_y + page.height;
        // The page shows the rows of the strip from where it starts.
        assert_eq!(page.row_samples(0), img.row_samples(actual_y));
        if i == pages.len() - 1 {
            assert_eq!(page_end, strip_height, "Last page should reach end of strip");
        }
        if i < pages.len() - 1 {
            actual_y = page_end.saturating_sub(overlap);
        }
    }
}

#[test]
fn test_webtoon_split_short_image() {
    let img = gray(100, 500, |_, _| 128);
    let pages = webtoon_split(&img, 1448);
    assert_eq!(pages.len(), 1, "Image shorter than device height should produce 1 page");
    assert_eq!((pages[0].width, pages[0].height), (100, 500));
}

#[test]
fn test_webtoon_split_dark_background() {
    let strip_height = 4000u32;
    let strip_width = 100u32;
    let img = gray(strip_width, strip_height, |_x, y| {
        if (y >= 1390 && y <= 1420) || (y >= 2790 && y <= 2820) {
            0
        } else {
            ((y * 7 + 13) % 200) as u8 + 30
        }
    });
    let pages = webtoon_split(&img, 1448);
    assert!(pages.len() >= 2, "Dark-gutter strip should produce at least 2 pages");
    assert!(pages.len() <= 4, "Should produce at most 4 pages, got {}", pages.len());
    for page in &pages {
        assert_eq!(page.width, strip_width);
    }
    let total_h: u32 = pages.iter().map(|p| p.height).sum();
    assert_eq!(total_h, strip_height, "clean gutter cuts need no overlap");
}

#[test]
fn strips_are_cut_at_the_flattest_row() {
    // Noise but for row 95 (variance 0) and row 90 (variance 25): a page of 100 ends at 95.
    let img = gray(40, 300, |x, y| match y {
        90 => 100 + (x % 2) as u8 * 10,
        95 => 77,
        _ => ((x * 89 + y * 31) % 251) as u8,
    });
    let pages = webtoon_split(&img, 100);
    let heights: Vec<u32> = pages.iter().map(|p| p.height).collect();
    // The rest has no gutter: pages of 100 rows, the next one 10 rows earlier.
    assert_eq!(heights, vec![95, 100, 115]);
    assert_eq!(pages[1].row_samples(0), img.row_samples(95));
    assert_eq!(pages[2].row_samples(0), img.row_samples(185));
    // Of equally flat rows the first is taken.
    let flat = gray(40, 300, |_, _| 9);
    assert_eq!(webtoon_split(&flat, 100)[0].height, 80);
}

#[test]
fn webtoons_are_merged_in_chunks() {
    let strip = |v: u8| gray(10, 60, move |_, _| v);
    let all = || vec![strip(1), strip(2), strip(3)];
    // In one piece: 180 rows in pages of about 100.
    let one = webtoon_preprocess(all(), 100, 180).unwrap();
    let total: u32 = one.iter().map(|p| p.height).sum();
    assert_eq!(total, 180);
    assert!(one[0].color);
    // In chunks of two and one: 120 rows are one page, and a single picture stays gray.
    let chunked = webtoon_preprocess(all(), 100, 179).unwrap();
    let sizes: Vec<(u32, bool)> = chunked.iter().map(|p| (p.height, p.color)).collect();
    assert_eq!(sizes, vec![(120, true), (60, false)]);
    // A picture higher than the limit is a chunk of its own.
    let tiny = webtoon_preprocess(all(), 100, 1).unwrap();
    assert_eq!(tiny.iter().map(|p| p.samples[0]).collect::<Vec<u8>>(), vec![1, 2, 3]);
}

#[test]
fn webtoons_without_pixels_are_refused() {
    let empty = webtoon_preprocess(vec![gray(0, 5, |_, _| 0), gray(5, 0, |_, _| 0)], 100, 1000);
    assert_eq!(
        empty.unwrap_err().message(),
        "All images failed to load - no valid images to process"
    );
    let some = webtoon_preprocess(vec![gray(0, 5, |_, _| 0), gray(5, 5, |_, _| 3)], 100, 1000);
    assert_eq!(some.unwrap().len(), 1);
}

struct Percent {
    x: f64,
    y: f64,
    w: f64,
    h: f64,
}

fn percent(panels: &[PanelRect], width: u32, height: u32) -> Vec<Percent> {
    panels
        .iter()
        .map(|p| Percent {
            x: (p.x as f64 / width as f64) * 100.0,
            y: (p.y as f64 / height as f64) * 100.0,
            w: (p.w as f64 / width as f64) * 100.0,
            h: (p.h as f64 / height as f64) * 100.0,
        })
        .collect()
}

#[test]
fn test_panel_detection_grid() {
    let img = rgb(400, 400, |x, y| {
        let in_h_gutter = y >= 190 && y < 210;
        let in_v_gutter = x >= 190 && x < 210;
        if in_h_gutter || in_v_gutter {
            [255, 255, 255]
        } else {
            [
                ((x * 7 + 13) % 200) as u8 + 28,
                ((x * 11 + y * 3 + 7) % 200) as u8 + 28,
                ((x * 3 + 29) % 200) as u8 + 28,
            ]
        }
    });
    let panels = percent(&detect_panels(&img), 400, 400);
    assert_eq!(panels.len(), 4, "2x2 grid should produce 4 panels, got {}", panels.len());
    for (i, panel) in panels.iter().enumerate() {
        assert!(panel.w > 40.0 && panel.w < 55.0, "Panel {} width {:.1}%", i, panel.w);
        assert!(panel.h > 40.0 && panel.h < 55.0, "Panel {} height {:.1}%", i, panel.h);
    }
    assert!(panels[0].x < 5.0, "First panel should start near x=0");
    assert!(panels[0].y < 5.0, "First panel should start near y=0");
}

#[test]
fn test_panel_detection_splash() {
    let img = rgb(200, 300, |x, y| {
        [
            ((x * 7 + y * 13 + 3) % 200) as u8 + 28,
            ((x * 11 + y * 3 + 7) % 200) as u8 + 28,
            ((x * 3 + y * 7 + 11) % 200) as u8 + 28,
        ]
    });
    let panels = detect_panels(&img);
    assert!(panels.is_empty(), "Full-page splash should have 0 panels, got {}", panels.len());
}

#[test]
fn test_panel_detection_horizontal_strip() {
    let img = rgb(200, 300, |x, y| {
        let in_gutter = (y >= 90 && y < 110) || (y >= 190 && y < 210);
        if in_gutter {
            [255, 255, 255]
        } else {
            [
                ((x * 3 + y * 7 + 5) % 180) as u8 + 40,
                ((x * 11 + y * 3 + 13) % 180) as u8 + 40,
                128,
            ]
        }
    });
    let panels = percent(&detect_panels(&img), 200, 300);
    assert_eq!(panels.len(), 3, "3 horizontal panels should produce 3 panels");
    for (i, panel) in panels.iter().enumerate() {
        assert!(panel.w > 95.0, "Horizontal panel {} should span ~100% width, got {:.1}%", i, panel.w);
    }
}

#[test]
fn test_panel_rect_percentages() {
    let img = rgb(200, 200, |x, y| {
        let in_h_gutter = y >= 95 && y < 105;
        let in_v_gutter = x >= 95 && x < 105;
        if in_h_gutter || in_v_gutter {
            [255, 255, 255]
        } else {
            [80, 80, 80]
        }
    });
    for (i, panel) in percent(&detect_panels(&img), 200, 200).iter().enumerate() {
        assert!(panel.x >= 0.0 && panel.x <= 100.0, "Panel {} x", i);
        assert!(panel.y >= 0.0 && panel.y <= 100.0, "Panel {} y", i);
        assert!(panel.w > 0.0 && panel.w <= 100.0, "Panel {} w", i);
        assert!(panel.h > 0.0 && panel.h <= 100.0, "Panel {} h", i);
        assert!(panel.x + panel.w <= 100.1, "Panel {} x+w", i);
        assert!(panel.y + panel.h <= 100.1, "Panel {} y+h", i);
    }
}

#[test]
fn panels_of_a_grid_are_exact() {
    // Columns 0..30, 34..60; rows 0..20, 25..40; noise in the panels.
    let img = gray(60, 40, |x, y| {
        if (x >= 30 && x < 34) || (y >= 20 && y < 25) {
            255
        } else {
            ((x * 97 + y * 61) % 251) as u8
        }
    });
    assert_eq!(
        detect_panels(&img),
        vec![
            PanelRect { x: 0, y: 0, w: 30, h: 20 },
            PanelRect { x: 34, y: 0, w: 26, h: 20 },
            PanelRect { x: 0, y: 25, w: 30, h: 15 },
            PanelRect { x: 34, y: 25, w: 26, h: 15 },
        ]
    );
    // Columns alone, without a horizontal gutter.
    let columns = gray(60, 40, |x, y| if x >= 30 && x < 34 { 255 } else { ((x * 97 + y * 61) % 251) as u8 });
    assert_eq!(
        detect_panels(&columns),
        vec![PanelRect { x: 0, y: 0, w: 30, h: 40 }, PanelRect { x: 34, y: 0, w: 26, h: 40 }]
    );
    // Too small for panels.
    assert!(detect_panels(&gray(19, 40, |_, _| 0)).is_empty());
}

#[test]
fn gutters_are_runs_and_strips_lie_between() {
    let img = gray(30, 12, |x, y| match y {
        0 | 1 | 5 | 8 | 9 | 10 | 11 => 200,
        _ => ((x * 89 + y * 31) % 251) as u8,
    });
    assert_eq!(find_horizontal_gutters(&img, 2), vec![(0, 2), (8, 12)]);
    assert_eq!(find_horizontal_gutters(&img, 1), vec![(0, 2), (5, 6), (8, 12)]);
    assert_eq!(find_vertical_gutters(&img, 2, 5, 1), vec![]);
    assert_eq!(find_vertical_gutters(&img, 0, 2, 1), vec![(0, 30)]);
    assert_eq!(find_vertical_gutters(&img, 2, 2, 1), vec![]);
    assert_eq!(strips_from_gutters(&[(0, 2), (5, 6), (8, 12)], 12), vec![(2, 5), (6, 8)]);
    assert_eq!(strips_from_gutters(&[(3, 4)], 10), vec![(0, 3), (4, 10)]);
    assert_eq!(strips_from_gutters(&[], 10), vec![(0, 10)]);
}
