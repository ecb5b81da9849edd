use kindling::archive::{create_epub, find_package, unpack_book, unpack_comic, ArchiveError};
use kindling::comic::{
    find_profile, get_profile, parse_comic_info_xml, valid_device_names, ComicError, ComicMetadata,
    ComicOptions,
};
use kindling::comic_book::{build_comic_mobi, comic_book};
use kindling::input::{
    classify_entry, extension_of, find_comic_info, input_kind, is_comic_info_file, is_image_file, kind_by_extension,
    natural_order, natural_sort_key, EntryKind, InputKind,
};
use kindling::layout::{
    build_comic_css, build_comic_ncx, build_comic_opf_v2, build_fixed_layout, build_page_xhtml,
    escape_xml, title_for, BookFile, ComicPage, PanelStyle,
};
use kindling::pages::{
    cut_pages, encode_page, finish_page, is_rtl, needs_moire_filter, order_pages, page_panels,
    load_picture, panels_of_picture, process_source,
};
use kindling::picture::Picture;
use kindling::webtoon::{image_sizes, is_webtoon};

fn gray(width: u32, height: u32, f: impl Fn(u32, u32) -> u8) -> Picture {
    let mut samples = Vec::new();
    for y in 0..height {
        for x in 0..width {
            samples.push(f(x, y));
        }
    }
    Picture { width, height, color: false, exact: true, samples }
}

fn bare_options() -> ComicOptions {
    ComicOptions {
        rtl: false,
        split: false,
        crop: false,
        enhance: false,
        webtoon: false,
        panel_view: false,
        jpeg_quality: 85,
        max_height: 65536,
        embed_source: false,
        ..Default::default()
    }
}

#[test]
fn test_device_profile_kpw5() {
    let profile = get_profile("kpw5").expect("kpw5 profile should exist");
    assert_eq!(profile.width, 1236, "kpw5 width should be 1236, got {}", profile.width);
    assert_eq!(profile.height, 1648, "kpw5 height should be 1648, got {}", profile.height);
    assert!(profile.grayscale, "kpw5 should be grayscale");
}

#[test]
fn test_device_profile_scribe2025() {
    let profile = get_profile("scribe2025").expect("scribe2025 profile should exist");
    assert_eq!(profile.width, 1986, "scribe2025 width should be 1986, got {}", profile.width);
    assert_eq!(profile.height, 2648, "scribe2025 height should be 2648, got {}", profile.height);
    assert!(profile.grayscale, "scribe2025 should be grayscale");
}

#[test]
fn test_device_profile_kindle2024() {
    let profile = get_profile("kindle2024").expect("kindle2024 profile should exist");
    assert_eq!(profile.width, 1240, "kindle2024 width should be 1240, got {}", profile.width);
    assert_eq!(profile.height, 1860, "kindle2024 height should be 1860, got {}", profile.height);
    assert!(profile.grayscale, "kindle2024 should be grayscale");
}

#[test]
fn test_valid_device_names_includes_new() {
    let names = valid_device_names();
    assert!(names.contains("kpw5"), "should contain 'kpw5', got: {}", names);
    assert!(names.contains("scribe2025"), "should contain 'scribe2025', got: {}", names);
    assert!(names.contains("kindle2024"), "should contain 'kindle2024', got: {}", names);
}

#[test]
fn every_device_is_found_by_its_name() {
    let names = valid_device_names();
    assert!(names.contains("paperwhite"));
    for name in names.split(", ") {
        assert_eq!(get_profile(name).unwrap().name, name);
    }
}

#[test]
fn device_names_ignore_case() {
    let profile = get_profile("PaperWhite").unwrap();
    assert_eq!((profile.width, profile.height, profile.grayscale), (1072, 1448, true));
    assert!(find_profile("PaperWhite").is_none());
    assert!(!get_profile("COLORSOFT").unwrap().grayscale);
    assert!(get_profile("kobo").is_none());
    assert!(valid_device_names().starts_with("paperwhite, oasis, scribe, basic, colorsoft, fire-hd-10"));
}

#[test]
fn default_options_process_everything() {
    let o = ComicOptions::default();
    assert!(!o.rtl && o.split && o.crop && o.enhance && !o.webtoon && o.panel_view && o.embed_source);
    assert_eq!((o.jpeg_quality, o.max_height), (85, 65536));
}

#[test]
fn test_comicinfo_basic_parsing() {
    let xml = r#"<?xml version="1.0" encoding="utf-8"?>
<ComicInfo>
  <Title>The Great Adventure</Title>
  <Series>Adventure Comics</Series>
  <Number>42</Number>
  <Writer>John Writer</Writer>
  <Penciller>Jane Artist</Penciller>
  <Inker>Bob Inker</Inker>
  <Summary>A thrilling adventure story.</Summary>
</ComicInfo>"#;
    let meta = parse_comic_info_xml(xml).expect("Failed to parse ComicInfo.xml");
    assert_eq!(meta.title.as_deref(), Some("The Great Adventure"));
    assert_eq!(meta.series.as_deref(), Some("Adventure Comics"));
    assert_eq!(meta.number.as_deref(), Some("42"));
    assert_eq!(meta.writers, vec!["John Writer"]);
    assert_eq!(meta.pencillers, vec!["Jane Artist"]);
    assert_eq!(meta.inkers, vec!["Bob Inker"]);
    assert_eq!(meta.summary.as_deref(), Some("A thrilling adventure story."));
    assert!(!meta.manga_rtl, "Should not be manga by default");
}

#[test]
fn test_comicinfo_manga_rtl() {
    let xml = r#"<?xml version="1.0"?>
<ComicInfo>
  <Title>One Piece</Title>
  <Manga>YesAndRightToLeft</Manga>
</ComicInfo>"#;
    let meta = parse_comic_info_xml(xml).expect("Failed to parse");
    assert!(meta.manga_rtl, "Manga=YesAndRightToLeft should enable RTL");
}

#[test]
fn test_comicinfo_manga_yes() {
    let xml = r#"<ComicInfo><Manga>Yes</Manga></ComicInfo>"#;
    let meta = parse_comic_info_xml(xml).expect("Failed to parse");
    assert!(meta.manga_rtl, "Manga=Yes should enable RTL");
}

#[test]
fn test_comicinfo_effective_title_series_number_title() {
    let xml = r#"<ComicInfo>
  <Title>The Return</Title>
  <Series>Epic Saga</Series>
  <Number>5</Number>
</ComicInfo>"#;
    let meta = parse_comic_info_xml(xml).unwrap();
    assert_eq!(meta.effective_title(), Some("Epic Saga #5 - The Return".to_string()));
}

#[test]
fn test_comicinfo_effective_title_series_number_only() {
    let xml = r#"<ComicInfo>
  <Series>Monthly Comics</Series>
  <Number>12</Number>
</ComicInfo>"#;
    let meta = parse_comic_info_xml(xml).unwrap();
    assert_eq!(meta.effective_title(), Some("Monthly Comics #12".to_string()));
}

#[test]
fn test_comicinfo_creators_combined() {
    let xml = r#"<ComicInfo>
  <Writer>Alice, Bob</Writer>
  <Penciller>Charlie</Penciller>
</ComicInfo>"#;
    let meta = parse_comic_info_xml(xml).unwrap();
    assert_eq!(meta.creators(), vec!["Alice", "Bob", "Charlie"]);
}

#[test]
fn test_comicinfo_empty_xml() {
    let xml = r#"<ComicInfo></ComicInfo>"#;
    let meta = parse_comic_info_xml(xml).unwrap();
    assert!(meta.title.is_none());
    assert!(meta.series.is_none());
    assert!(!meta.manga_rtl);
}

#[test]
fn comic_info_details() {
    let xml = "<ComicInfo><Genre> Drama </Genre><Writer> A ,, B&amp;C, </Writer><Manga>No</Manga>\
               <Title>one</Title><Title>two</Title><Other>x</Other></ComicInfo>";
    let meta = parse_comic_info_xml(xml).unwrap();
    assert_eq!(meta.genre.as_deref(), Some("Drama"));
    assert_eq!(meta.writers, vec!["A", "B&C"]);
    assert!(!meta.manga_rtl);
    assert_eq!(meta.title.as_deref(), Some("two"));
    // What stands before a fault counts.
    let broken = parse_comic_info_xml("<ComicInfo><Series>S</Series></Wrong><Title>t</Title>").unwrap();
    assert_eq!(broken.series.as_deref(), Some("S"));
    assert!(broken.title.is_none());
    // Text behind an end tag belongs to no element.
    let tail = parse_comic_info_xml("<ComicInfo><Title></Title>stray</ComicInfo>").unwrap();
    assert!(tail.title.is_none());
}

#[test]
fn titles_from_what_is_known() {
    let mut m = ComicMetadata::new();
    assert_eq!(m.effective_title(), None);
    m.number = Some("3".to_string());
    assert_eq!(m.effective_title(), None);
    m.title = Some("T".to_string());
    assert_eq!(m.effective_title().unwrap(), "T");
    m.series = Some("S".to_string());
    assert_eq!(m.effective_title().unwrap(), "S #3 - T");
    m.number = None;
    assert_eq!(m.effective_title().unwrap(), "S - T");
    m.title = None;
    assert_eq!(m.effective_title().unwrap(), "S");
    assert_eq!(title_for(Some(&m), &None), "S");
    assert_eq!(title_for(Some(&m), &Some("Mine".to_string())), "Mine");
    assert_eq!(title_for(None, &None), "Comic");
}

#[test]
fn inputs_are_told_apart() {
    assert_eq!(input_kind(true, Some("pdf")).unwrap(), InputKind::Directory);
    assert_eq!(input_kind(false, Some("CBZ")).unwrap(), InputKind::Archive);
    assert_eq!(input_kind(false, Some("zip")).unwrap(), InputKind::Archive);
    assert_eq!(input_kind(false, Some("ePub")).unwrap(), InputKind::Epub);
    assert!(matches!(input_kind(false, Some("cbr")), Err(ComicError::Rar)));
    assert!(matches!(input_kind(false, Some("RAR")), Err(ComicError::Rar)));
    assert!(matches!(input_kind(false, Some("pdf")), Err(ComicError::Pdf)));
    assert!(matches!(input_kind(false, None), Err(ComicError::UnknownInput)));
    let other = input_kind(false, Some("TXT")).unwrap_err();
    assert_eq!(other.message(), "Unsupported input format: .txt");
    assert!(kind_by_extension("CBZ").is_err());
}

#[test]
fn errors_are_said_in_words() {
    assert_eq!(ComicError::NoImages.message(), "No images found in input");
    assert_eq!(ComicError::ZeroDimensions(0, 12).message(), "zero dimensions (0x12)");
    assert_eq!(ComicError::Pdf.message(), "PDF support coming soon");
    assert!(ComicError::Rar.message().contains("not supported directly"));
    assert!(ComicError::UnknownInput.message().starts_with("Cannot determine input type"));
}

#[test]
fn images_are_known_by_extension() {
    for name in ["a.jpg", "dir/b.JPEG", "c.PNG", "d.gif", "e.webp", "f.bmp", "g.tiff", "h.x.tif"] {
        assert!(is_image_file(name), "{}", name);
    }
    for name in ["a.txt", "jpg", ".jpg", "dir.jpg/readme", "a.jpg.bak", "", "a."] {
        assert!(!is_image_file(name), "{}", name);
    }
    assert_eq!(extension_of("x/y.tar.gz").as_deref(), Some("gz"));
    assert_eq!(extension_of("a.").as_deref(), Some(""));
    assert_eq!(extension_of(".."), None);
}

#[test]
fn archive_entries_are_sorted_out() {
    assert_eq!(classify_entry("pages/01.jpg"), EntryKind::Image);
    assert_eq!(classify_entry("pages/"), EntryKind::Skipped);
    assert_eq!(classify_entry("__MACOSX/01.jpg"), EntryKind::Skipped);
    assert_eq!(classify_entry("pages/.hidden.jpg"), EntryKind::Skipped);
    assert_eq!(classify_entry("ComicInfo.xml"), EntryKind::ComicInfo);
    assert_eq!(classify_entry("book/COMICINFO.XML"), EntryKind::ComicInfo);
    assert_eq!(classify_entry("notes.txt"), EntryKind::Skipped);
    assert!(is_comic_info_file("comicinfo.XML"));
    assert!(!is_comic_info_file("info.xml"));
}

#[test]
fn names_are_in_natural_order() {
    let paths: Vec<String> = ["x/page10.jpg", "y/Page2.jpg", "page1.jpg", "10.jpg", "9.jpg", "page.jpg"]
        .iter()
        .map(|s| s.to_string())
        .collect();
    let sorted: Vec<&str> = natural_order(&paths).into_iter().map(|i| paths[i].as_str()).collect();
    assert_eq!(
        sorted,
        vec!["9.jpg", "10.jpg", "page1.jpg", "y/Page2.jpg", "x/page10.jpg", "page.jpg"]
    );
    // Equal keys keep their order.
    let same: Vec<String> = ["b/1.png", "a/01.png", "c/1.PNG"].iter().map(|s| s.to_string()).collect();
    assert_eq!(natural_order(&same), vec![0, 1, 2]);
    assert_eq!(natural_sort_key("a2"), vec![1, 98, 0, 0, 2]);
    // A number over 64 bits counts as zero.
    assert_eq!(natural_sort_key("99999999999999999999"), vec![0, 0]);
    assert_eq!(natural_sort_key("18446744073709551615"), vec![0, u64::MAX]);
    assert_eq!(natural_sort_key(""), Vec::<u64>::new());
}

#[test]
fn xml_is_escaped() {
    assert_eq!(escape_xml("a<b>&\"c'"), "a&lt;b&gt;&amp;&quot;c&apos;");
    assert_eq!(escape_xml("&amp;"), "&amp;amp;");
}

#[test]
fn package_documents() {
    let profile = get_profile("paperwhite").unwrap();
    let mut meta = ComicMetadata::new();
    meta.title = Some("Q & A".to_string());
    meta.writers.push("W".to_string());
    meta.summary = Some("s".to_string());
    meta.genre = Some("g".to_string());
    meta.series = Some("Saga".to_string());
    let opf = build_comic_opf_v2(1, &profile, true, Some(&meta), &bare_options(), true, 17);
    assert!(opf.starts_with("<?xml version=\"1.0\" encoding=\"UTF-8\"?>\n<package version=\"3.0\""));
    for part in [
        "<dc:title>Saga - Q &amp; A</dc:title>\n",
        "<dc:language>en</dc:language>\n",
        "kindling-comic-17</dc:identifier>\n    <dc:creator>W</dc:creator>\n    <dc:description>s</dc:description>\n    <dc:subject>g</dc:subject>\n",
        "content=\"1072x1448\"",
        "<meta name=\"writing-mode\" content=\"horizontal-rl\"/>",
        "<meta name=\"book-type\" content=\"comic\"/>\n    <meta name=\"region-mag\" content=\"true\"/>",
        "<item id=\"page0000\" href=\"page_0000.xhtml\" media-type=\"application/xhtml+xml\"/>",
        "<item id=\"img0000\" href=\"images/page_0000.jpg\" media-type=\"image/jpeg\"/>",
        "page-progression-direction=\"rtl\">\n    <itemref idref=\"page0000\"/>\n  </spine>\n</package>\n",
    ] {
        assert!(opf.contains(part), "{} in {}", part, opf);
    }
    let mut options = bare_options();
    options.title_override = Some("Mine".to_string());
    options.language = Some("ja".to_string());
    let plain = build_comic_opf_v2(0, &profile, false, None, &options, false, 0);
    assert!(plain.contains("<dc:title>Mine</dc:title>\n    <dc:language>ja</dc:language>"));
    assert!(plain.contains("page-progression-direction=\"ltr\">\n  </spine>"));
    assert!(!plain.contains("cover") && !plain.contains("writing-mode") && !plain.contains("region-mag"));
}

#[test]
fn tables_of_contents() {
    let ncx = build_comic_ncx(2);
    assert!(ncx.contains("totalPageCount\" content=\"2\""));
    assert!(ncx.contains(
        "    <navPoint id=\"page0001\" playOrder=\"2\">\n      <navLabel><text>Page 2</text></navLabel>\n      <content src=\"page_0001.xhtml\"/>\n    </navPoint>\n  </navMap>\n</ncx>\n"
    ));
}

#[test]
fn page_documents_show_image_and_panels() {
    let profile = get_profile("oasis").unwrap();
    let plain = build_page_xhtml(11, &profile, &[]);
    assert!(plain.contains("content=\"width=1264, height=1680\""));
    assert!(plain.contains("<img src=\"images/page_0011.jpg\" alt=\"Page 12\""));
    assert!(plain.ends_with("  </div>\n</body>\n</html>\n"));
    let panel = PanelStyle {
        left: "0.0".to_string(),
        top: "1.5".to_string(),
        width: "47.5".to_string(),
        height: "50.0".to_string(),
    };
    let with = build_page_xhtml(0, &profile, &[panel]);
    assert!(with.contains(
        "  <div id=\"panels\">\n    <div class=\"panel\" style=\"position:absolute;left:0.0%;top:1.5%;width:47.5%;height:50.0%\"></div>\n  </div>\n</body>"
    ));
    assert!(build_comic_css(true).starts_with(&build_comic_css(false)));
    assert!(build_comic_css(true).ends_with(".panel {\n  position: absolute;\n}\n"));
}

#[test]
fn fixed_layout_files() {
    let profile = get_profile("basic").unwrap();
    let page = ComicPage { jpeg: vec![1, 2], panels: vec![] };
    let files = build_fixed_layout(&[page], &profile, false, None, &ComicOptions::default(), 5);
    let names: Vec<&str> = files.iter().map(|f| f.name.as_str()).collect();
    assert_eq!(
        names,
        vec!["images/page_0000.jpg", "page_0000.xhtml", "comic.css", "content.opf", "toc.ncx"]
    );
    assert_eq!(files[0].data, vec![1, 2]);
    assert_eq!(files[4].data, build_comic_ncx(1).into_bytes());
    assert_eq!(files[2].data, build_comic_css(false).into_bytes());
}

#[test]
fn archives_hold_what_was_written() {
    let file = |name: &str, data: &[u8]| BookFile { name: name.to_string(), data: data.to_vec() };
    let epub = create_epub(&[file("a.txt", b"hello hello hello"), file("dir/b", b"")]).unwrap();
    let mut archive = zip::ZipArchive::new(std::io::Cursor::new(epub)).unwrap();
    assert_eq!(archive.len(), 2);
    let mut text = String::new();
    std::io::Read::read_to_string(&mut archive.by_index(0).unwrap(), &mut text).unwrap();
    assert_eq!(text, "hello hello hello");
    assert_eq!(archive.by_index(0).unwrap().name(), "a.txt");
    assert_eq!(archive.by_index(1).unwrap().name(), "dir/b");
    assert!(create_epub(&[file("same", b"1"), file("same", b"2")]).is_none());
}

fn named(name: &str, data: &[u8]) -> BookFile {
    BookFile { name: name.to_string(), data: data.to_vec() }
}

fn names(files: &[BookFile]) -> Vec<&str> {
    files.iter().map(|f| f.name.as_str()).collect()
}

#[test]
fn books_are_unpacked_whole() {
    let packed = create_epub(&[
        named("mimetype", b"application/epub+zip"),
        named("dir/", b""),
        named("OEBPS/a b.xhtml", b"<p>text text text</p>"),
    ])
    .unwrap();
    let files = unpack_book(packed).unwrap();
    assert_eq!(names(&files), vec!["mimetype", "OEBPS/a b.xhtml"]);
    assert_eq!(files[1].data, b"<p>text text text</p>");
    assert!(matches!(unpack_book(b"no archive".to_vec()), Err(ArchiveError::NotZip(_))));
}

#[test]
fn package_documents_are_found() {
    let container = |path: &str| {
        format!("<container><rootfile full-path=\"{}\"/></container>", path).into_bytes()
    };
    let named_by = |path: &str| named("META-INF/container.xml", &container(path));
    let files = [named("a.opf", b""), named("dir/b.opf", b""), named_by("dir/b.opf")];
    assert_eq!(find_package(&files).unwrap(), "dir/b.opf");
    assert_eq!(find_package(&files[..2]).unwrap(), "a.opf");
    let message = |files: &[BookFile]| find_package(files).unwrap_err().message();
    assert_eq!(message(&[named(".opf", b"")]), "No .opf file found in EPUB archive");
    assert_eq!(message(&[named_by("x.opf")]), "OPF file not found at expected path: x.opf");
    let bare = named("META-INF/container.xml", b"<container/>");
    assert_eq!(message(&[bare]), "No rootfile found in container.xml");
    let bad = named("META-INF/container.xml", &[0xff]);
    assert_eq!(message(&[bad]), "stream did not contain valid UTF-8");
}

#[test]
fn comics_are_unpacked_without_the_rest() {
    let packed = create_epub(&[
        named("p2.jpg", b"2"),
        named("__MACOSX/p2.jpg", b"x"),
        named("notes.txt", b"x"),
        named("p1.PNG", b"1"),
        named("ComicInfo.xml", b"<ComicInfo><Title>T</Title></ComicInfo>"),
    ])
    .unwrap();
    let files = unpack_comic(packed).unwrap();
    assert_eq!(names(&files), vec!["p2.jpg", "p1.PNG", "ComicInfo.xml"]);
    assert_eq!(find_comic_info(&files).unwrap().title.as_deref(), Some("T"));
    let bare = create_epub(&[named("ComicInfo.xml", b"<ComicInfo/>")]).unwrap();
    let error = unpack_comic(bare).unwrap_err();
    assert_eq!(error.message(), "No image files found in CBZ archive");
}

#[test]
fn damaged_entries_are_told() {
    let mut packed = create_epub(&[named("notes.txt", b"abcdefgh"), named("a.jpg", b"01")]).unwrap();
    // The first entry's data begins behind its header of 30 bytes and its name of 9.
    packed[39] ^= 0xff;
    assert!(matches!(unpack_book(packed.clone()), Err(ArchiveError::BadEntry(_))));
    // A comic does not need that entry.
    assert_eq!(names(&unpack_comic(packed).unwrap()), vec!["a.jpg"]);
}

#[test]
fn comic_info_is_found_by_its_exact_name_first() {
    let info = |title: &str| format!("<ComicInfo><Title>{}</Title></ComicInfo>", title).into_bytes();
    let files = [named("comicinfo.XML", &info("b")), named("ComicInfo.xml", &info("a"))];
    assert_eq!(find_comic_info(&files).unwrap().title.as_deref(), Some("a"));
    assert_eq!(find_comic_info(&files[..1]).unwrap().title.as_deref(), Some("b"));
    assert!(find_comic_info(&[named("dir/ComicInfo.xml", &info("c"))]).is_none());
    assert!(find_comic_info(&[named("ComicInfo.xml", &[0xff, 0xfe])]).is_none());
}

#[test]
fn images_are_read_by_their_extension() {
    let strip = gray(4, 13, |x, y| (x * 10 + y) as u8);
    let jpeg = strip.encode_jpeg(90).unwrap();
    let img = load_picture(&named("dir/a.JPG", &jpeg)).unwrap();
    assert_eq!((img.width, img.height, img.color), (4, 13, false));
    assert_eq!(img.samples.len(), 52);
    let error = load_picture(&named("a.png", &jpeg)).unwrap_err();
    assert_eq!(error.message(), "the image cannot be read");
    assert!(load_picture(&named("a.txt", &jpeg)).is_err());
    let square = gray(4, 12, |_, _| 0).encode_jpeg(90).unwrap();
    let files = [named("a.jpg", &jpeg), named("b.jpg", &square), named("c.jpg", b"none")];
    assert_eq!(image_sizes(&files), vec![Some((4, 13)), Some((4, 12)), None]);
    assert!(is_webtoon(&files[..1]));
    assert!(!is_webtoon(&files[..2]));
    assert!(!is_webtoon(&files[2..]));
}

#[test]
fn source_images_become_pages() {
    let spread = gray(40, 20, |x, _| if x < 20 { 10 } else { 200 });
    let mut options = bare_options();
    assert_eq!(cut_pages(&spread, &options).unwrap().len(), 1);
    options.split = true;
    let pages = cut_pages(&spread, &options).unwrap();
    assert_eq!(pages.len(), 2);
    assert_eq!(pages[0].samples[0], 10);
    assert_eq!(pages[1].samples[0], 200);
    let error = cut_pages(&gray(0, 7, |_, _| 0), &options).unwrap_err();
    assert_eq!(error.message(), "zero dimensions (0x7)");
}

#[test]
fn each_source_image_gives_its_encoded_pages() {
    let spread = gray(40, 20, |x, _| if x < 20 { 10 } else { 200 });
    let profile = get_profile("paperwhite").unwrap();
    let mut options = bare_options();
    options.split = true;
    let files = process_source(&spread, &profile, &options).unwrap();
    let sizes: Vec<(u32, u32)> = files
        .iter()
        .map(|f| image::load_from_memory(f).unwrap())
        .map(|i| (i.width(), i.height()))
        .collect();
    assert_eq!(sizes, vec![(1072, 1072), (1072, 1072)]);
    let shade = |f: &[u8]| image::load_from_memory(f).unwrap().to_luma8().get_pixel(500, 500)[0];
    assert!(shade(&files[0]) < 30);
    assert!(shade(&files[1]) > 180);
    let error = process_source(&gray(7, 0, |_, _| 0), &profile, &options).unwrap_err();
    assert_eq!(error.message(), "zero dimensions (7x0)");
}

#[test]
fn borders_go_before_spreads_are_split() {
    let img = gray(200, 100, |x, y| {
        if x < 20 || x >= 190 || y < 10 || y >= 90 {
            255
        } else {
            ((x * 31 + y * 17) % 200) as u8
        }
    });
    let mut options = bare_options();
    options.split = true;
    options.crop = true;
    let pages = cut_pages(&img, &options).unwrap();
    assert_eq!(pages.iter().map(|p| (p.width, p.height)).collect::<Vec<_>>(), vec![(85, 80), (85, 80)]);
}

#[test]
fn moire_is_for_gray_images_on_color_screens() {
    let g = gray(2, 2, |_, _| 0);
    let c = Picture { width: 1, height: 1, color: true, exact: true, samples: vec![0, 0, 0] };
    let color = get_profile("colorsoft").unwrap();
    let paper = get_profile("paperwhite").unwrap();
    assert!(needs_moire_filter(&g, &color));
    assert!(!needs_moire_filter(&g, &paper));
    assert!(!needs_moire_filter(&c, &color));
}

#[test]
fn pages_have_the_size_of_the_screen() {
    let profile = get_profile("paperwhite").unwrap();
    let page = gray(100, 200, |x, y| ((x * 7 + y * 3) % 256) as u8);
    let jpeg = finish_page(&page, &profile, &ComicOptions::default()).unwrap();
    assert_eq!(&jpeg[..2], &[0xff, 0xd8]);
    let back = image::load_from_memory(&jpeg).unwrap();
    assert_eq!((back.width(), back.height()), (724, 1448));
    assert_eq!(back.color(), image::ColorType::L8);
    let fitted = page.fit(300, 300);
    assert_eq!((fitted.width, fitted.height, fitted.color), (150, 300, false));
    let same = page.fit(100, 500);
    assert_eq!((same.width, same.height), (100, 200));
    assert_eq!(same.samples, page.samples);
    let none = page.fit(0, 9);
    assert_eq!((none.width, none.height, none.samples.len()), (1, 1, 1));
    let color = Picture { width: 2, height: 1, color: true, exact: true, samples: vec![255, 0, 0, 255, 0, 0] };
    let wide = color.fit(8, 100);
    assert_eq!((wide.width, wide.height, wide.color), (8, 4, true));
    assert_eq!(wide.samples.len(), 96);
    assert_eq!(&wide.samples[..3], &[255, 0, 0]);
}

#[test]
fn pages_are_gray_for_gray_screens() {
    let color = Picture { width: 8, height: 8, color: true, exact: true, samples: [200, 10, 10].repeat(64) };
    let options = bare_options();
    let kind = |name: &str| {
        let jpeg = encode_page(&color, &get_profile(name).unwrap(), &options).unwrap();
        image::load_from_memory(&jpeg).unwrap().color()
    };
    assert_eq!(kind("paperwhite"), image::ColorType::L8);
    assert_eq!(kind("colorsoft"), image::ColorType::Rgb8);
    let long = gray(65536, 1, |_, _| 0);
    assert!(matches!(
        encode_page(&long, &get_profile("paperwhite").unwrap(), &options),
        Err(ComicError::NotEncoded)
    ));
    assert!(long.encode_jpeg(85).is_none());
    assert_ne!(color.encode_jpeg(10), color.encode_jpeg(95));
}

#[test]
fn pages_are_put_in_reading_order() {
    let groups = vec![Some(vec![vec![1], vec![2]]), None, Some(vec![vec![3]])];
    assert_eq!(order_pages(&groups, false).unwrap(), vec![vec![1], vec![2], vec![3]]);
    assert_eq!(order_pages(&groups, true).unwrap(), vec![vec![3], vec![2], vec![1]]);
    assert!(matches!(order_pages(&[None, None], false), Err(ComicError::NoValidImages)));
    let mut meta = ComicMetadata::new();
    assert!(!is_rtl(&bare_options(), Some(&meta)));
    meta.manga_rtl = true;
    assert!(is_rtl(&bare_options(), Some(&meta)));
    assert!(!is_rtl(&bare_options(), None));
    let mut options = bare_options();
    options.rtl = true;
    assert!(is_rtl(&options, None));
}

#[test]
fn panels_are_found_on_encoded_pages() {
    let img = gray(200, 200, |x, y| {
        if y >= 90 && y < 110 {
            255
        } else {
            ((x / 10 + y / 10) % 2 * 200) as u8
        }
    });
    let jpeg = img.encode_jpeg(95).unwrap();
    let (w, h, panels) = page_panels(&jpeg).unwrap();
    assert_eq!((w, h, panels.len()), (200, 200, 2));
    assert!(page_panels(b"no image").is_none());
    assert!(panels_of_picture(None).is_none());
    assert!(panels_of_picture(Some(gray(30, 30, |x, y| ((x * 97 + y * 61) % 251) as u8))).is_none());
    assert_eq!(panels_of_picture(Some(img)).unwrap().len(), 2);
}

fn be32(data: &[u8], at: usize) -> usize {
    u32::from_be_bytes([data[at], data[at + 1], data[at + 2], data[at + 3]]) as usize
}

fn record(data: &[u8], n: usize) -> &[u8] {
    let count = u16::from_be_bytes([data[76], data[77]]) as usize;
    let start = be32(data, 78 + 8 * n);
    let end = if n + 1 < count { be32(data, 78 + 8 * (n + 1)) } else { data.len() };
    &data[start..end]
}

fn exth(rec0: &[u8], kind: usize) -> Option<Vec<u8>> {
    let at = 16 + be32(rec0, 20);
    assert_eq!(&rec0[at..at + 4], b"EXTH");
    let mut pos = at + 12;
    for _ in 0..be32(rec0, at + 8) {
        let size = be32(rec0, pos + 4);
        if be32(rec0, pos) == kind {
            return Some(rec0[pos + 8..pos + size].to_vec());
        }
        pos += size;
    }
    None
}

fn build(images: &[Picture], options: &ComicOptions) -> Vec<u8> {
    let profile = get_profile("paperwhite").unwrap();
    let groups: Vec<Option<Vec<Vec<u8>>>> = images
        .iter()
        .map(|img| {
            let pages = cut_pages(img, options).ok()?;
            pages.iter().map(|p| finish_page(p, &profile, options).ok()).collect()
        })
        .collect();
    let pages: Vec<ComicPage> = order_pages(&groups, options.rtl)
        .unwrap()
        .into_iter()
        .map(|jpeg| ComicPage { jpeg, panels: vec![] })
        .collect();
    build_comic_mobi(&pages, &profile, options.rtl, None, options, None, 0)
}

#[test]
fn test_rtl_spread_split_cover_is_right_half() {
    let img = gray(300, 150, |x, _| if x < 150 { 50 } else { 200 });
    let brightness = |rtl: bool| {
        let mut options = bare_options();
        options.rtl = rtl;
        options.split = true;
        options.jpeg_quality = 95;
        let data = build(&[img.copy()], &options);
        let rec0 = record(&data, 0);
        let cover = record(&data, be32(rec0, 108));
        assert!(cover.len() > 2 && cover[0] == 0xff && cover[1] == 0xd8);
        let gray = image::load_from_memory(cover).unwrap().to_luma8();
        gray.pixels().map(|p| p.0[0] as f64).sum::<f64>() / (gray.width() as f64 * gray.height() as f64)
    };
    assert!(brightness(true) > 150.0, "RTL cover should be the right half");
    assert!(brightness(false) < 100.0, "LTR cover should be the left half");
}

#[test]
fn test_comic_doc_type_ebok() {
    let mut options = bare_options();
    options.doc_type = Some("EBOK".to_string());
    let data = build(&[gray(100, 150, |_, _| 128)], &options);
    assert_eq!(exth(record(&data, 0), 501).expect("EXTH 501 should exist"), b"EBOK");
}

#[test]
fn test_comic_title_override() {
    let mut options = bare_options();
    options.title_override = Some("Custom Title".to_string());
    let data = build(&[gray(100, 150, |_, _| 128)], &options);
    let name = String::from_utf8_lossy(&data[..32]).to_string();
    assert!(name.contains("Custom") || name.contains("custom"), "PalmDB name, got '{}'", name);
    if let Some(title) = exth(record(&data, 0), 503) {
        assert!(String::from_utf8(title).unwrap().contains("Custom Title"));
    }
}

#[test]
fn test_comic_language_override() {
    let mut options = bare_options();
    options.language = Some("ja".to_string());
    let data = build(&[gray(100, 150, |_, _| 128)], &options);
    assert_eq!(exth(record(&data, 0), 524).expect("EXTH 524 should exist"), b"ja");
}

#[test]
fn comics_are_fixed_layout_books() {
    let profile = get_profile("paperwhite").unwrap();
    let mut meta = ComicMetadata::new();
    meta.writers = vec!["A".to_string()];
    meta.inkers = vec!["B".to_string()];
    meta.summary = Some("sum".to_string());
    meta.genre = Some("gen".to_string());
    meta.series = Some("ser".to_string());
    meta.number = Some("7".to_string());
    let page = ComicPage { jpeg: vec![0xff, 0xd8], panels: vec![] };
    let book = comic_book(&[page], &profile, true, Some(&meta), &bare_options());
    assert_eq!(book.meta.author, "A, B");
    assert_eq!(book.meta.title, "ser #7");
    assert_eq!(book.meta.subject.as_deref(), Some("gen"));
    assert_eq!(book.meta.series_index.as_deref(), Some("7"));
    assert_eq!(book.cover_href.as_deref(), Some("images/page_0000.jpg"));
    assert_eq!(book.spine_items, vec![("page0000".to_string(), "page_0000.xhtml".to_string())]);
    assert_eq!(book.layout.original_resolution.as_deref(), Some("1072x1448"));
    assert_eq!(book.layout.page_progression_direction.as_deref(), Some("rtl"));
    let mut options = bare_options();
    options.rtl = true;
    let data = build(&[gray(20, 30, |_, _| 90)], &options);
    assert_eq!(exth(record(&data, 0), 527).unwrap(), b"rtl");
    assert_eq!(exth(record(&data, 0), 525).unwrap(), b"horizontal-rl");
    assert_eq!(exth(record(&data, 0), 307).unwrap(), b"1072x1448");
}
