use kindling::markup::{
    anchor_tags, body_of, build_text_content, clean_book_html, embed_sources, encode_aid,
    encode_base32, extract_image_refs_regex, insert_guide_reference, is_stylesheet, join_styles,
    merge_document, number_sources, process_kf8_part, references_of, restore_spaces,
    rewrite_image_src, strip_idx_markup,
};
use kindling::paths::{build_image_path_lookup, find_decoded, find_plain, percent_decode};
use kindling::pattern::Found;

fn strings(list: &[&str]) -> Vec<String> {
    list.iter().map(|s| s.to_string()).collect()
}

fn found(groups: &[&str]) -> Found {
    Found { groups: groups.iter().map(|s| Some(s.to_string())).collect() }
}

#[test]
fn numbers_have_anchors_of_their_own() {
    let mut seen: Vec<String> = (0..4000).map(encode_aid).collect();
    seen.sort();
    seen.dedup();
    assert_eq!(seen.len(), 4000);
}

#[test]
fn test_extract_image_refs_regex_img_tag() {
    let content = r#"<html><body><img src="images/page01.png" alt="page"/></body></html>"#;
    let refs = extract_image_refs_regex(content);
    assert_eq!(refs, vec!["images/page01.png"], "Regex should extract img src, got {:?}", refs);
}

#[test]
fn test_extract_image_refs_regex_svg_image() {
    let content = r#"<svg><image xlink:href="page1.jpg" width="100%" height="100%"/></svg>"#;
    let refs = extract_image_refs_regex(content);
    assert_eq!(refs, vec!["page1.jpg"], "Regex should extract image xlink:href, got {:?}", refs);
}

#[test]
fn references_of_all_images() {
    let refs = extract_image_refs_regex("<IMG alt=\"\" SRC = \"a.png\"><p src=\"no\"/><image href=\"b.png\"/>");
    assert_eq!(refs, vec!["a.png", "b.png"]);
    assert_eq!(references_of(&vec![found(&["whole", "x"]), found(&["w", "y"])]), vec!["x", "y"]);
}

#[test]
fn book_html_is_cleaned() {
    let html = "<?xml version=\"1.0\"?>\n<html xmlns=\"http://x\" xmlns:epub=\"http://y\" lang=\"en\"><p>a  b</p></html>\n";
    assert_eq!(clean_book_html(html), "<html lang=\"en\"><p>a  b</p></html>");
}

#[test]
fn index_markup_is_stripped() {
    let html = "<?xml version=\"1.0\"?><html xmlns:idx=\"i\"><head><title>t</title></head><body>\n\
        <idx:entry name=\"default\">\n <idx:short>\n <idx:orth value=\"x\"/><idx:orth value=\"cat\"><b>cat</b>\
        <idx:infl>\n<idx:iform value=\"cats\"/>\n</idx:infl>\n</idx:orth>\n<p>an  animal</p>\n</idx:short>\n</idx:entry>\n<hr/>\n\
        <idx:entry><b>dog</b><idx:infl>keep</idx:infl></idx:entry></body></html>";
    assert_eq!(
        strip_idx_markup(html),
        "<html><head><guide></guide></head><body><b>cat</b> <p>an animal</p> <hr/> <b>dog</b> </body></html>"
    );
    assert_eq!(restore_spaces(" a</b><i>x</i></p><hr/><b>y "), "a</b> <i>x</i></p> <hr/> <b>y");
}

#[test]
fn documents_are_merged() {
    let text = build_text_content(
        &strings(&["<html><body> one </body></html>", "<html><head lang=\"e\"><t/></head><body class=\"c\">two</body></html>", "bare"]),
        false,
    );
    assert_eq!(
        text,
        "<html><head lang=\"e\"><t/></head><body>one<mbp:pagebreak/>two<mbp:pagebreak/>bare  <mbp:pagebreak/></body></html>"
    );
    assert_eq!(
        build_text_content(&[], true),
        "<html><head><guide></guide></head><body>  <mbp:pagebreak/></body></html>"
    );
    assert_eq!(body_of("doc", &vec![]), "doc");
    assert_eq!(body_of("doc", &vec![found(&["<body> x </body>", " x "])]), "x");
    assert_eq!(
        merge_document(&None, &strings(&["a"])),
        "<html><head><guide></guide></head><body>a  <mbp:pagebreak/></body></html>"
    );
}

#[test]
fn images_are_found_by_path() {
    let paths = build_image_path_lookup(
        &strings(&["img/a.png", "img/b%20c.png", "img/a.png"]),
        &[("id".to_string(), "text/ch1.xhtml".to_string())],
    );
    // Of equal paths the last counts.
    assert_eq!(find_plain(&paths, "img/a.png"), Some(2));
    assert_eq!(find_plain(&paths, "a.png"), Some(2));
    assert_eq!(find_plain(&paths, "../img/a.png"), Some(2));
    assert_eq!(find_plain(&paths, "img/b c.png"), None);
    assert_eq!(find_decoded(&paths, "img/b c.png"), Some(1));
    assert_eq!(find_plain(&paths, "none.png"), None);
    let flat = build_image_path_lookup(&strings(&["img/a.png"]), &[]);
    assert_eq!(find_plain(&flat, "../img/a.png"), None);
}

#[test]
fn percents_are_decoded() {
    assert_eq!(percent_decode("a%20b%2Fc"), "a b/c");
    // Each byte becomes the character with its number.
    assert_eq!(percent_decode("%E9"), "\u{e9}");
    assert_eq!(percent_decode("%C3%A9"), "\u{c3}\u{a9}");
    assert_eq!(percent_decode("100%"), "100%");
    // Two characters that are no hexadecimal number are dropped.
    assert_eq!(percent_decode("a%zzb"), "a%b");
}

#[test]
fn sources_become_record_numbers() {
    let paths = build_image_path_lookup(&strings(&["img/a.png", "img/b c.png"]), &[]);
    assert_eq!(
        rewrite_image_src("<img SRC = \"img/a.png\"/><img src=\"x/b%20c.png\"/><img src=\"n.png\"/>", &paths),
        "<img recindex=\"00001\"/><img src=\"x/b%20c.png\"/><img src=\"n.png\"/>"
    );
    assert_eq!(
        rewrite_image_src("<img src=\"img/b%20c.png\"/>", &paths),
        "<img recindex=\"00002\"/>"
    );
    assert_eq!(
        number_sources(&strings(&["<", ">"]), &vec![found(&["src=\"y\"", "a.png"])], &paths),
        "<recindex=\"00001\">"
    );
}

#[test]
fn numbers_in_letters() {
    assert_eq!(encode_aid(0), "0");
    assert_eq!(encode_aid(61), "z");
    assert_eq!(encode_aid(62), "10");
    assert_eq!(encode_base32(1), "0001");
    assert_eq!(encode_base32(31), "000V");
    assert_eq!(encode_base32(32), "0010");
}

#[test]
fn kf8_parts_embed_images_and_number_tags() {
    let paths = build_image_path_lookup(&strings(&["img/a.png"]), &[]);
    let mut aid = 0;
    assert_eq!(
        process_kf8_part("<body><p>x</p><img src=\"img/a.png\"/></body>", &mut aid, &paths),
        "<body aid=\"0\"><p aid=\"1\">x</p><img aid=\"2\" src=\"kindle:embed:0001?mime=image/jpeg\"/></body>"
    );
    assert_eq!(aid, 3);
    let mut last = u32::MAX;
    anchor_tags(&strings(&["", ""]), &vec![found(&["<p>", "p", ">"])], &mut last);
    assert_eq!(last, 0);
    assert_eq!(
        embed_sources(&strings(&["a", "b"]), &vec![found(&["src=\"q\"", "q"])], &paths),
        "asrc=\"q\"b"
    );
}

#[test]
fn the_guide_leads_to_the_first_entry() {
    let text = b"<html><head><guide></guide></head><body><p>intro</p><b>first</b></body></html>";
    let with = insert_guide_reference(text);
    let shown = String::from_utf8(with.clone()).unwrap();
    let at = shown.find("filepos=").expect("a position") + "filepos=".len();
    let digits: String = shown[at..].chars().filter(|c| c.is_ascii_digit()).take(10).collect();
    let pos: usize = digits.parse().unwrap();
    assert_eq!(&with[pos..pos + 3], b"<b>");
    assert_eq!(insert_guide_reference(b"<html>no guide</html>"), b"<html>no guide</html>");
}

#[test]
fn styles() {
    assert!(is_stylesheet("text/css", "x"));
    assert!(is_stylesheet("", "a.css"));
    assert!(!is_stylesheet("text/html", "a.CSS"));
    assert_eq!(join_styles(&strings(&["a", "b"])), "a\nb");
}
