use std::collections::HashMap;

use kindling::dictionary::{
    build_lookup_terms, detect_dictionary, find_entry_positions, headword_chars, sort_lookup_terms,
    DictionaryEntry,
};
use kindling::exth::FixedLayoutMeta;
use kindling::header::{build_srcs, locale_code, Metadata};
use kindling::images::{
    build_hd_container, get_image_dimensions, get_jpeg_dimensions, patch_jfif_density,
};
use kindling::kf8::{
    build_fdst, build_kf8_html, build_kf8_section, build_minimal_indx, build_ncx_indx,
    encode_kf8_indx_entry,
};
use kindling::mobi::{
    build_book_mobi, build_dictionary_mobi, build_kind, build_plain_text, prepare_dictionary, Book,
    BookOptions, BuildError, BuildKind, Image,
};
use kindling::palmdb::{build_palmdb, palm_timestamp, palmdb_name};
use kindling::records::{
    compress_text, compress_text_kf8, split_text_uncompressed, split_text_uncompressed_kf8,
};

fn read_u16_be(data: &[u8], offset: usize) -> u16 {
    u16::from_be_bytes([data[offset], data[offset + 1]])
}

fn read_u32_be(data: &[u8], offset: usize) -> u32 {
    u32::from_be_bytes([data[offset], data[offset + 1], data[offset + 2], data[offset + 3]])
}

fn parse_palmdb(data: &[u8]) -> (Vec<u8>, u16, Vec<u32>) {
    let record_count = read_u16_be(data, 76);
    let offsets = (0..record_count as usize).map(|i| read_u32_be(data, 78 + i * 8)).collect();
    (data[0..32].to_vec(), record_count, offsets)
}

fn get_record<'a>(data: &'a [u8], offsets: &[u32], index: usize) -> &'a [u8] {
    let start = offsets[index] as usize;
    let end = if index + 1 < offsets.len() { offsets[index + 1] as usize } else { data.len() };
    &data[start..end]
}

fn parse_exth_records(record0: &[u8]) -> HashMap<u32, Vec<Vec<u8>>> {
    let mut results: HashMap<u32, Vec<Vec<u8>>> = HashMap::new();
    if let Some(pos) = record0.windows(4).position(|w| w == b"EXTH") {
        let mut offset = pos + 12;
        for _ in 0..read_u32_be(record0, pos + 8) {
            let rec_len = read_u32_be(record0, offset + 4) as usize;
            let data = record0[offset + 8..offset + rec_len].to_vec();
            results.entry(read_u32_be(record0, offset)).or_default().push(data);
            offset += rec_len;
        }
    }
    results
}

fn meta(title: &str, author: &str) -> Metadata {
    Metadata {
        title: title.to_string(),
        author: author.to_string(),
        date: String::new(),
        language: "en".to_string(),
        dict_in_language: "en".to_string(),
        dict_out_language: "en".to_string(),
        doc_type: None,
        description: None,
        subject: None,
        series: None,
        series_index: None,
    }
}

fn dict_document(entries: &[(&str, &[&str])]) -> String {
    let mut body = String::new();
    for (hw, iforms) in entries {
        body.push_str(&format!("<idx:entry><idx:orth value=\"{hw}\">{hw}</idx:orth>"));
        for iform in *iforms {
            body.push_str(&format!("<idx:infl><idx:iform value=\"{iform}\"/></idx:infl>"));
        }
        body.push_str(&format!("<b>{hw}</b> definition of {hw}<hr/></idx:entry>\n"));
    }
    format!("<html><head><guide></guide></head><body>{}</body></html>", body)
}

fn dict_entries(entries: &[(&str, &[&str])]) -> Vec<DictionaryEntry> {
    entries
        .iter()
        .map(|(hw, iforms)| DictionaryEntry {
            headword: hw.to_string(),
            inflections: iforms.iter().map(|s| s.to_string()).collect(),
        })
        .collect()
}

fn build_dict(title: &str, entries: &[(&str, &[&str])], no_compress: bool, srcs: Option<&[u8]>) -> Vec<u8> {
    let list = dict_entries(entries);
    let prepared = prepare_dictionary(&[dict_document(entries)], &list, false).unwrap();
    build_dictionary_mobi(
        &meta(title, "Tester"),
        &list,
        &prepared.text,
        build_minimal_indx(),
        no_compress,
        srcs,
        false,
        false,
        0,
    )
}

fn dict(entries: &[(&str, &[&str])]) -> Vec<u8> {
    build_dict("Test Dict", entries, true, None)
}

fn make_test_jpeg() -> Vec<u8> {
    let img = image::GrayImage::from_fn(10, 10, |x, y| image::Luma([((x + y) * 12) as u8]));
    let mut buf = Vec::new();
    let mut cursor = std::io::Cursor::new(&mut buf);
    image::DynamicImage::ImageLuma8(img).write_to(&mut cursor, image::ImageFormat::Jpeg).unwrap();
    buf
}

fn book_of(image: Option<&[u8]>) -> Book {
    let img_tag = if image.is_some() { "<img src=\"test.jpg\"/>" } else { "" };
    Book {
        meta: meta("Test Book", "Author"),
        documents: vec![format!(
            "<html><head><title>Test Book</title></head><body><h1>Chapter 1</h1><p>Hello world.{}</p></body></html>",
            img_tag
        )],
        css: String::new(),
        images: image
            .iter()
            .map(|d| Image { href: "test.jpg".to_string(), data: Some(d.to_vec()) })
            .collect(),
        cover_href: image.map(|_| "test.jpg".to_string()),
        spine_items: vec![("content".to_string(), "content.html".to_string())],
        layout: FixedLayoutMeta {
            is_fixed_layout: false,
            original_resolution: None,
            page_progression_direction: None,
        },
    }
}

fn options(kf8_only: bool) -> BookOptions {
    BookOptions { no_compress: true, include_cmet: false, hd_images: true, creator_tag: false, kf8_only }
}

fn book(image: Option<&[u8]>) -> Vec<u8> {
    build_book_mobi(&book_of(image), options(false), None, 0)
}

fn kf8_book(image: Option<&[u8]>) -> Vec<u8> {
    build_book_mobi(&book_of(image), options(true), None, 0)
}

fn record0(data: &[u8]) -> &[u8] {
    let (_, _, offsets) = parse_palmdb(data);
    get_record(data, &offsets, 0)
}

#[test]
fn test_palmdb_type_creator() {
    let data = dict(&[("apple", &["apples"]), ("banana", &["bananas"])]);
    assert_eq!(&data[60..64], b"BOOK");
    assert_eq!(&data[64..68], b"MOBI");
}

#[test]
fn test_palmdb_record_count_positive() {
    let (_, record_count, _) = parse_palmdb(&dict(&[("test", &[])]));
    assert!(record_count > 0, "Record count should be > 0, got {}", record_count);
}

#[test]
fn test_palmdb_offsets_monotonic_and_in_bounds() {
    let data = dict(&[("alpha", &[]), ("beta", &[]), ("gamma", &[])]);
    let (_, _, offsets) = parse_palmdb(&data);
    for pair in offsets.windows(2) {
        assert!(pair[1] > pair[0], "Offsets not increasing: {} vs {}", pair[0], pair[1]);
    }
    for &off in &offsets {
        assert!((off as usize) <= data.len(), "Offset {} exceeds file size {}", off, data.len());
    }
}

#[test]
fn test_palmdb_name_null_terminated_and_short() {
    let (name_bytes, _, _) = parse_palmdb(&dict(&[("test", &[])]));
    assert_eq!(name_bytes[31], 0x00, "PalmDB name must be null-terminated");
    let name_len = name_bytes.iter().position(|&b| b == 0).unwrap_or(32);
    assert!(name_len <= 31, "PalmDB name too long: {} bytes", name_len);
}

#[test]
fn test_mobi_header_magic() {
    assert_eq!(&record0(&dict(&[("word", &[])]))[16..20], b"MOBI");
}

#[test]
fn test_mobi_header_length() {
    assert_eq!(read_u32_be(record0(&dict(&[("word", &[])])), 20), 264);
}

#[test]
fn test_mobi_encoding_utf8() {
    assert_eq!(read_u32_be(record0(&dict(&[("word", &[])])), 28), 65001);
}

#[test]
fn test_mobi_type_is_2() {
    assert_eq!(read_u32_be(record0(&dict(&[("word", &[])])), 24), 2);
}

#[test]
fn test_mobi_version_6_or_7() {
    let version = read_u32_be(record0(&dict(&[("word", &[])])), 36);
    assert!(version == 6 || version == 7, "MOBI version should be 6 or 7, got {}", version);
}

#[test]
fn test_dict_capability_marker_0x50() {
    assert_eq!(read_u32_be(record0(&dict(&[("test", &["tests"])])), 128), 0x50);
}

#[test]
fn test_book_capability_marker_0x4850() {
    assert_eq!(read_u32_be(record0(&book(Some(&make_test_jpeg()))), 128), 0x4850);
}

#[test]
fn test_dict_orth_index_not_ffffffff() {
    let data = dict(&[("apple", &["apples"]), ("banana", &["bananas"]), ("cherry", &["cherries"])]);
    assert_ne!(read_u32_be(record0(&data), 40), 0xFFFFFFFF);
}

#[test]
fn test_dict_indx_records_exist() {
    let data = dict(&[("apple", &["apples"]), ("banana", &["bananas"]), ("cherry", &["cherries"])]);
    let (_, _, offsets) = parse_palmdb(&data);
    let orth_idx = read_u32_be(record0(&data), 40) as usize;
    assert!(orth_idx < offsets.len(), "Orth index record {} out of range", orth_idx);
    assert_eq!(&get_record(&data, &offsets, orth_idx)[0..4], b"INDX");
}

#[test]
fn test_dict_exth_531_532_547() {
    let exth = parse_exth_records(record0(&dict(&[("word", &["words"])])));
    assert!(exth.contains_key(&531), "DictionaryInLanguage");
    assert!(exth.contains_key(&532), "DictionaryOutLanguage");
    assert!(exth.contains_key(&547), "InMemory");
}

#[test]
fn test_book_orth_index_ffffffff() {
    assert_eq!(read_u32_be(record0(&book(Some(&make_test_jpeg()))), 40), 0xFFFFFFFF);
}

#[test]
fn test_book_image_records_jpeg_magic() {
    let data = book(Some(&make_test_jpeg()));
    let (_, _, offsets) = parse_palmdb(&data);
    let first_img = read_u32_be(record0(&data), 108) as usize;
    assert_ne!(first_img, 0xFFFFFFFF_u32 as usize, "Book with image should have first_image set");
    let img_rec = get_record(&data, &offsets, first_img);
    assert!(img_rec.len() >= 2 && img_rec[0] == 0xFF && img_rec[1] == 0xD8);
}

fn boundary(data: &[u8]) -> Option<usize> {
    let (_, _, offsets) = parse_palmdb(data);
    (0..offsets.len()).find(|&i| get_record(data, &offsets, i).starts_with(b"BOUNDARY"))
}

#[test]
fn test_book_boundary_record_exists() {
    assert!(boundary(&book(Some(&make_test_jpeg()))).is_some(), "dual format has a BOUNDARY record");
}

#[test]
fn test_book_kf8_section_after_boundary() {
    let data = book(Some(&make_test_jpeg()));
    let (_, _, offsets) = parse_palmdb(&data);
    let boundary_idx = boundary(&data).expect("No BOUNDARY record found");
    let kf8_rec0 = get_record(&data, &offsets, boundary_idx + 1);
    assert!(kf8_rec0.len() > 20 && &kf8_rec0[16..20] == b"MOBI");
    assert_eq!(read_u32_be(kf8_rec0, 36), 8, "KF8 version should be 8");
}

#[test]
fn test_kf8_only_record0_version_8() {
    let data = kf8_book(Some(&make_test_jpeg()));
    let rec0 = record0(&data);
    assert_eq!(&rec0[16..20], b"MOBI", "Record 0 should contain MOBI magic");
    assert_eq!(read_u32_be(rec0, 36), 8, "KF8-only version should be 8");
    assert_eq!(read_u32_be(rec0, 104), 8, "KF8-only min_version should be 8");
}

#[test]
fn test_kf8_only_no_kf7_kf8_boundary() {
    let data = kf8_book(Some(&make_test_jpeg()));
    let (_, _, offsets) = parse_palmdb(&data);
    for i in 0..offsets.len().saturating_sub(1) {
        let rec = get_record(&data, &offsets, i);
        if rec.len() == 8 && &rec[0..8] == b"BOUNDARY" {
            let next_rec = get_record(&data, &offsets, i + 1);
            assert!(next_rec.len() < 20 || &next_rec[16..20] != b"MOBI");
        }
    }
    assert_eq!(&record0(&data)[16..20], b"MOBI");
    assert_eq!(read_u32_be(record0(&data), 36), 8);
}

#[test]
fn test_kf8_only_no_exth_121() {
    let exth = parse_exth_records(record0(&kf8_book(Some(&make_test_jpeg()))));
    assert!(!exth.contains_key(&121), "KF8-only should not have EXTH 121");
}

#[test]
fn test_kf8_only_images_present() {
    let data = kf8_book(Some(&make_test_jpeg()));
    let (_, _, offsets) = parse_palmdb(&data);
    let first_img = read_u32_be(record0(&data), 108) as usize;
    assert_ne!(first_img, 0xFFFFFFFF_u32 as usize);
    let img_rec = get_record(&data, &offsets, first_img);
    assert!(img_rec.len() >= 2 && img_rec[0] == 0xFF && img_rec[1] == 0xD8);
}

#[test]
fn test_kf8_only_has_fdst() {
    let data = kf8_book(Some(&make_test_jpeg()));
    let (_, _, offsets) = parse_palmdb(&data);
    assert!((0..offsets.len()).any(|i| get_record(&data, &offsets, i).starts_with(b"FDST")));
}

#[test]
fn test_kf8_only_has_eof() {
    let data = kf8_book(None);
    let (_, _, offsets) = parse_palmdb(&data);
    assert_eq!(get_record(&data, &offsets, offsets.len() - 1), &[0xE9, 0x8E, 0x0D, 0x0A]);
}

#[test]
fn test_kf8_only_smaller_than_dual() {
    let jpeg = make_test_jpeg();
    let (dual, kf8) = (book(Some(&jpeg)), kf8_book(Some(&jpeg)));
    assert!(kf8.len() < dual.len(), "KF8-only ({}) should be smaller than dual ({})", kf8.len(), dual.len());
}

#[test]
fn test_kf8_only_exth_has_547() {
    assert!(parse_exth_records(record0(&kf8_book(None))).contains_key(&547));
}

#[test]
fn test_exth_magic_in_record0() {
    assert!(record0(&dict(&[("test", &[])])).windows(4).any(|w| w == b"EXTH"));
}

#[test]
fn test_exth_dict_531_532_547() {
    let exth = parse_exth_records(record0(&dict(&[("test", &["tests"])])));
    assert!(exth.contains_key(&531), "Dict EXTH should contain 531");
    assert!(exth.contains_key(&532), "Dict EXTH should contain 532");
    assert!(exth.contains_key(&547), "Dict EXTH should contain 547");
}

#[test]
fn test_exth_book_547() {
    assert!(parse_exth_records(record0(&book(None))).contains_key(&547));
}

#[test]
fn test_exth_535_default_creator() {
    let exth = parse_exth_records(record0(&dict(&[("test", &[])])));
    let value = String::from_utf8(exth.get(&535).expect("EXTH 535 should exist")[0].clone()).unwrap();
    assert_eq!(value, "0730-890adc2");
}

#[test]
fn test_srcs_record_magic_and_header() {
    let fake_epub = b"PK\x03\x04fake epub content for testing SRCS embedding";
    let data = build_dict("Test Dict", &[("test", &["tests"])], true, Some(fake_epub));
    let (_, _, offsets) = parse_palmdb(&data);
    let srcs_idx = (0..offsets.len())
        .find(|&i| get_record(&data, &offsets, i).starts_with(b"SRCS"))
        .expect("SRCS record should exist");
    let srcs_rec = get_record(&data, &offsets, srcs_idx);
    assert_eq!(&srcs_rec[0..4], b"SRCS", "SRCS magic");
    assert_eq!(read_u32_be(srcs_rec, 4), 0x10, "SRCS header length should be 16");
    assert_eq!(read_u32_be(srcs_rec, 8) as usize, fake_epub.len(), "SRCS data length mismatch");
    assert_eq!(srcs_rec, build_srcs(fake_epub));
}

#[test]
fn test_srcs_mobi_header_offset_208() {
    let fake_epub = b"PK\x03\x04fake epub";
    let data = build_dict("Test Dict", &[("test", &[])], true, Some(fake_epub));
    let (_, _, offsets) = parse_palmdb(&data);
    let srcs_from_header = read_u32_be(record0(&data), 16 + 208);
    assert_ne!(srcs_from_header, 0xFFFFFFFF);
    assert_eq!(&get_record(&data, &offsets, srcs_from_header as usize)[0..4], b"SRCS");
    let without = dict(&[("test", &[])]);
    assert_eq!(read_u32_be(record0(&without), 16 + 208), 0xFFFFFFFF);
}

#[test]
fn kf8_header_names_the_source() {
    let book = book_of(Some(&make_test_jpeg()));
    let data = build_book_mobi(&book, options(true), Some(b"PK\x03\x04fake epub"), 0);
    let (_, _, offsets) = parse_palmdb(&data);
    let at = read_u32_be(record0(&data), 16 + 208);
    assert_eq!(&get_record(&data, &offsets, at as usize)[0..4], b"SRCS");
    assert_eq!(read_u32_be(record0(&data), 16 + 244), at);
    assert_eq!(read_u32_be(record0(&data), 16 + 248), 1);
    let skeletons = read_u32_be(record0(&data), 16 + 212) as usize;
    assert_eq!(&get_record(&data, &offsets, skeletons)[0..4], b"INDX");
    let without = kf8_book(None);
    assert_eq!(read_u32_be(record0(&without), 16 + 208), 0xFFFFFFFF);
    assert_eq!(read_u32_be(record0(&without), 16 + 244), 0xFFFFFFFF);
}

#[test]
fn test_palmdb_name_short_title() {
    let (name_bytes, _, _) = parse_palmdb(&dict(&[("word", &[])]));
    assert_eq!(&name_bytes[..9], b"Test_Dict", "Short title should not be truncated");
}

#[test]
fn test_palmdb_name_long_title_truncation() {
    let long_title = "A Very Long Dictionary Title That Exceeds Twenty Seven Characters For Sure";
    let (name_bytes, _, _) = parse_palmdb(&build_dict(long_title, &[("x", &[])], true, None));
    let name_len = name_bytes.iter().position(|&b| b == 0).unwrap_or(32);
    assert!(name_len <= 31, "Truncated name should be <= 31 bytes, got {}", name_len);
    assert_eq!(name_len, 27, "Truncated name should be 27 bytes (12 + 1 + 14)");
    assert!(name_bytes[..name_len].contains(&b'-'));
    assert_eq!(palmdb_name(long_title), "A_Very_Long_-cters_For_Sure");
}

#[test]
fn test_palmdb_name_special_chars_removed() {
    let (name_bytes, _, _) = parse_palmdb(&build_dict("Dict (Test) [v2]", &[("y", &[])], true, None));
    let name_len = name_bytes.iter().position(|&b| b == 0).unwrap_or(32);
    let name = String::from_utf8(name_bytes[..name_len].to_vec()).unwrap();
    for c in ['(', ')', '[', ']'] {
        assert!(!name.contains(c), "Name should not contain '{}': '{}'", c, name);
    }
}

#[test]
fn test_jfif_density_units_patched() {
    let mut jpeg = make_test_jpeg();
    assert_eq!(&jpeg[6..11], b"JFIF\0");
    jpeg[13] = 0x00;
    let data = book(Some(&jpeg));
    let (_, _, offsets) = parse_palmdb(&data);
    let first_img = read_u32_be(record0(&data), 108) as usize;
    assert_eq!(get_record(&data, &offsets, first_img)[13], 0x01);
}

#[test]
fn test_dict_compressed_and_uncompressed_both_valid() {
    let entries: &[(&str, &[&str])] = &[("alpha", &["alphas"]), ("beta", &["betas"])];
    let data_c = build_dict("Test Dict", entries, false, None);
    let data_u = build_dict("Test Dict", entries, true, None);
    assert_eq!(&data_c[60..64], b"BOOK");
    assert_eq!(&data_u[60..64], b"BOOK");
    assert_eq!(read_u16_be(record0(&data_c), 0), 2, "Compressed MOBI has compression type 2");
    assert_eq!(read_u16_be(record0(&data_u), 0), 1, "Uncompressed MOBI has compression type 1");
}

#[test]
fn test_flis_fcis_eof_records() {
    let data = dict(&[("test", &[])]);
    let (_, _, offsets) = parse_palmdb(&data);
    let records: Vec<&[u8]> = (0..offsets.len()).map(|i| get_record(&data, &offsets, i)).collect();
    assert!(records.iter().any(|r| r.starts_with(b"FLIS")), "MOBI should contain a FLIS record");
    assert!(records.iter().any(|r| r.starts_with(b"FCIS")), "MOBI should contain a FCIS record");
    assert!(records.contains(&&[0xE9, 0x8E, 0x0D, 0x0A][..]), "MOBI should contain an EOF record");
}

#[test]
fn kinds_of_build() {
    assert_eq!(build_kind(true, false).unwrap(), BuildKind::Dictionary);
    assert_eq!(build_kind(false, false).unwrap(), BuildKind::DualBook);
    assert_eq!(build_kind(false, true).unwrap(), BuildKind::Kf8Book);
    let error = build_kind(true, true).unwrap_err();
    assert_eq!(
        error.message(),
        "KF8-only output is not supported for dictionaries (dictionaries use MOBI7 format)"
    );
    let empty = prepare_dictionary(&["<html></html>".to_string()], &[], false);
    assert!(matches!(empty, Err(BuildError::NoEntries)));
}

#[test]
fn dictionaries_are_detected() {
    assert!(detect_dictionary(&["x".to_string(), dict_document(&[("a", &[])])]));
    assert!(!detect_dictionary(&["<p>plain</p>".to_string()]));
}

#[test]
fn lookups_lead_to_entries() {
    let entries: &[(&str, &[&str])] = &[("cat", &["cats", "kitty"]), ("dog", &["dogs", "cats"])];
    let list = dict_entries(entries);
    let prepared = prepare_dictionary(&[dict_document(entries)], &list, false).unwrap();
    let positions = find_entry_positions(&prepared.text, &list);
    assert_eq!(positions, prepared.positions);
    for (entry, &(start, len)) in list.iter().zip(&positions) {
        let block = String::from_utf8(prepared.text[start..start + len].to_vec()).unwrap();
        assert!(block.contains(&format!("<b>{}</b>", entry.headword)), "{}", block);
    }
    let all = build_lookup_terms(&list, &positions, &prepared.text, false);
    let labels: Vec<&str> = (0..all.labels.len()).map(|i| all.labels.get(i)).collect();
    assert_eq!(labels.len(), 5, "{:?}", labels);
    let heads = build_lookup_terms(&list, &positions, &prepared.text, true);
    assert_eq!(heads.labels.len(), 2);
    let encoded: Vec<Vec<u8>> =
        (0..all.labels.len()).map(|i| all.labels.get(i).bytes().rev().collect()).collect();
    let sorted = sort_lookup_terms(&all, &encoded);
    for pair in sorted.windows(2) {
        assert!(pair[0].label_bytes <= pair[1].label_bytes);
    }
    let cats = sorted.iter().find(|t| t.label == "cats").unwrap();
    assert_eq!((cats.start_pos, cats.text_len), positions[0]);
    assert!(headword_chars(&list).contains(&('g' as u32)));
}

#[test]
fn headers_lead_to_records() {
    let jpeg = make_test_jpeg();
    let data = book(Some(&jpeg));
    let (_, count, offsets) = parse_palmdb(&data);
    let rec0 = record0(&data);
    assert_eq!(&get_record(&data, &offsets, read_u32_be(rec0, 208) as usize)[..4], b"FLIS");
    assert_eq!(&get_record(&data, &offsets, read_u32_be(rec0, 200) as usize)[..4], b"FCIS");
    let exth = parse_exth_records(rec0);
    let kf8_start = read_u32_be(&exth[&121][0], 0) as usize;
    assert_eq!(&get_record(&data, &offsets, kf8_start)[16..20], b"MOBI");
    assert!(kf8_start < count as usize);
    // The text of the first part reads back.
    let text_records = read_u16_be(rec0, 8) as usize;
    let length = read_u32_be(rec0, 4) as usize;
    let mut text = Vec::new();
    for i in 1..=text_records {
        let rec = get_record(&data, &offsets, i);
        text.extend_from_slice(&rec[..rec.len() - 2]);
    }
    assert_eq!(text.len(), length);
    assert_eq!(text, build_plain_text(&book_of(Some(&jpeg))));
    assert!(String::from_utf8(text).unwrap().contains("recindex=\"00001\""));
}

#[test]
fn databases_hold_their_records() {
    let records = vec![vec![1, 2, 3], vec![], vec![9]];
    let data = build_palmdb("My Title", &records, 77);
    let (name, count, offsets) = parse_palmdb(&data);
    assert_eq!(&name[..9], b"My_Title\0");
    assert_eq!(count, 3);
    for (i, r) in records.iter().enumerate() {
        assert_eq!(get_record(&data, &offsets, i), &r[..]);
    }
    assert_eq!(read_u32_be(&data, 36), 77);
    assert_eq!(palm_timestamp(0), 2082844800);
    assert_eq!(palmdb_name("a (b) [c]"), "a_b_c");
}

#[test]
fn texts_are_split_into_records() {
    let text: Vec<u8> = (0..10000u32).map(|i| (i % 251) as u8).collect();
    let (plain, length) = split_text_uncompressed(&text);
    assert_eq!(length, 10000);
    let joined: Vec<u8> = plain.iter().flat_map(|r| r[..r.len() - 2].to_vec()).collect();
    assert_eq!(joined, text);
    let (packed, _) = compress_text(&text);
    assert_eq!(packed.len(), plain.len());
    let (kf8, kf8_length) = split_text_uncompressed_kf8(&text);
    assert_eq!(kf8_length, 10000);
    assert_eq!(compress_text_kf8(&text).0.len(), kf8.len());
}

#[test]
fn images_tell_their_size() {
    assert_eq!(get_jpeg_dimensions(&make_test_jpeg()), Some((10, 10)));
    assert_eq!(get_image_dimensions(&make_test_jpeg()), Some((10, 10)));
    let mut png = vec![0x89, b'P', b'N', b'G', 0x0d, 0x0a, 0x1a, 0x0a, 0, 0, 0, 13, b'I', b'H', b'D', b'R'];
    png.extend_from_slice(&[0, 0, 1, 0, 0, 0, 0, 7, 8, 0, 0, 0, 0]);
    assert_eq!(get_image_dimensions(&png), Some((256, 7)));
    assert_eq!(get_image_dimensions(b"none"), None);
    let mut jpeg = make_test_jpeg();
    jpeg[13] = 0;
    patch_jfif_density(&mut jpeg);
    assert_eq!(jpeg[13], 1);
    let once = jpeg.clone();
    patch_jfif_density(&mut jpeg);
    assert_eq!(jpeg, once);
}

#[test]
fn containers_hold_large_images() {
    let small = make_test_jpeg();
    let container = build_hd_container("T", &[small.clone(), small]);
    assert_eq!(container.num_cres_slots, container.cres_records.len());
    let total = container.total_record_count();
    let records = container.into_records();
    assert_eq!(records.len(), total);
    assert_eq!(records[0], b"BOUNDARY");
    assert_eq!(&records[1][..4], b"CONT");
    assert_eq!(records[records.len() - 2], b"CONTBOUNDARY");
    assert_eq!(records[records.len() - 1], vec![0xE9, 0x8E, 0x0D, 0x0A]);
}

#[test]
fn kf8_sections() {
    let parts = vec!["<p>a</p>".to_string(), "<p>b</p>".to_string()];
    let (html, skeletons, fragments) = build_kf8_html(&parts, &[], &[]);
    assert_eq!(String::from_utf8(html.clone()).unwrap(), "<p aid=\"0\">a</p><p aid=\"1\">b</p>");
    assert_eq!(skeletons.len(), 2);
    assert_eq!(skeletons[1].offset, skeletons[0].length);
    assert_eq!(skeletons[0].label, "SKEL0000000000");
    assert_eq!(fragments.len(), 2);
    let section = build_kf8_section(&parts, "p {}", &[], &[], true);
    assert_eq!(section.text_length, html.len() + 4);
    assert_eq!(section.flow_count, 2);
    assert_eq!(&section.fdst[..4], b"FDST");
    assert_eq!(section.fdst, build_fdst(html.len(), html.len() + 4));
    assert_eq!(&section.datp[..4], b"DATP");
    for indx in [&section.skeleton_indx, &section.fragment_indx, &section.ncx_indx, &build_ncx_indx(3)] {
        assert!(indx.iter().take(2).all(|r| r.starts_with(b"INDX")));
    }
    assert_eq!(encode_kf8_indx_entry(b"ab", &[(1, 5)], false)[..3], [2, b'a', b'b']);
}

#[test]
fn languages_have_numbers() {
    assert_eq!(locale_code("en"), 9);
    assert_eq!(locale_code("el"), 8);
    assert_eq!(locale_code("xx"), 0);
}
