use kindling::compiler::{book_of, build_mobi, metadata_of, BuildOptions};
use kindling::dictionary::LookupTerm;
use kindling::lookup::build_orth_indx;
use kindling::mobi::{build_book_mobi, BookOptions, BuildError};
use kindling::package::{dictionary_entries, read_entries, read_package};
use kindling::xml::read_xml;

const OPF: &str = r#"<package xmlns:dc="http://purl.org/dc/elements/1.1/">
<metadata>
  <dc:title> A Book </dc:title>
  <dc:title>Another</dc:title>
  <dc:creator>Ann</dc:creator>
  <dc:language>en</dc:language>
  <dc:date>2024-01-02</dc:date>
  <dc:description>About it</dc:description>
  <meta name="calibre:series" content="Saga"/>
  <DictionaryInLanguage>fr</DictionaryInLanguage>
  <DictionaryOutLanguage>en</DictionaryOutLanguage>
  <meta name="cover" content="c"/>
  <meta property="rendition:layout">pre-paginated</meta>
</metadata>
<manifest>
  <item id="c" href="cover.jpg" media-type="image/jpeg"/>
  <item id="two" href="b.xhtml" media-type="application/xhtml+xml"/>
  <item id="one" href="a.html" media-type="text/html"/>
  <item id="css" href="s.css" media-type="text/css"/>
  <item id="p" href="p.png" media-type="image/png"/>
</manifest>
<spine page-progression-direction="rtl">
  <itemref idref="one"/><itemref idref="css"/><itemref idref="gone"/><itemref idref="two"/>
</spine>
</package>"#;

#[test]
fn package_documents_are_read() {
    let package = read_package(&read_xml(OPF));
    assert_eq!(package.title, "A Book");
    assert_eq!(package.author, "Ann");
    assert_eq!(package.language, "en");
    assert_eq!(package.date, "2024-01-02");
    assert_eq!(package.dict_in_language, "fr");
    assert_eq!(package.dict_out_language, "en");
    assert_eq!(package.direction.as_deref(), Some("rtl"));
    assert_eq!(package.manifest.len(), 5);
    assert_eq!(package.spine, vec!["one", "css", "gone", "two"]);
    assert_eq!(package.meta("rendition:layout").as_deref(), Some("pre-paginated"));
    assert_eq!(package.meta("none"), None);
}

#[test]
fn spines_give_documents_and_manifests_images() {
    let package = read_package(&read_xml(OPF));
    let pair = |a: &str, b: &str| (a.to_string(), b.to_string());
    assert_eq!(package.documents(), vec![pair("one", "a.html"), pair("two", "b.xhtml")]);
    assert_eq!(package.images(), vec!["cover.jpg", "p.png"]);
    assert_eq!(package.cover().as_deref(), Some("cover.jpg"));
    assert!(package.is_fixed_layout());
}

#[test]
fn bare_packages_have_neither_cover_nor_fixed_pages() {
    let package = read_package(&read_xml("<package><metadata/></package>"));
    assert_eq!(package.title, "");
    assert_eq!(package.cover(), None);
    assert_eq!(package.direction, None);
    assert!(!package.is_fixed_layout());
    let named = r#"<package><meta name="fixed-layout" content="true"/><meta name="cover" content="x"/></package>"#;
    let package = read_package(&read_xml(named));
    assert!(package.is_fixed_layout());
    assert_eq!(package.cover(), None);
}

#[test]
fn entries_hold_their_inflected_forms() {
    let xml = r#"<mbp:frameset><idx:iform value="lost"/>
<idx:entry><idx:orth value="go"><b>go</b><idx:infl><idx:iform value="goes"/><idx:iform value="went"/></idx:infl></idx:orth></idx:entry>
<idx:entry><idx:orth value="be"/></idx:entry><idx:orth>no value</idx:orth></mbp:frameset>"#;
    let entries = dictionary_entries(&read_xml(xml));
    assert_eq!(entries.len(), 2);
    assert_eq!(entries[0].headword, "go");
    assert_eq!(entries[0].inflections, vec!["goes", "went"]);
    assert_eq!(entries[1].headword, "be");
    assert!(entries[1].inflections.is_empty());
}

const OPTIONS: BuildOptions = BuildOptions {
    no_compress: true,
    headwords_only: false,
    include_cmet: false,
    hd_images: true,
    creator_tag: false,
    kf8_only: false,
};

fn record(file: &[u8], i: usize) -> &[u8] {
    let be32 = |at: usize| u32::from_be_bytes([file[at], file[at + 1], file[at + 2], file[at + 3]]);
    let count = u16::from_be_bytes([file[76], file[77]]) as usize;
    let end = if i + 1 < count { be32(78 + 8 * (i + 1)) as usize } else { file.len() };
    &file[be32(78 + 8 * i) as usize..end]
}

fn occurs(hay: &[u8], needle: &[u8]) -> bool {
    hay.windows(needle.len()).any(|w| w == needle)
}

#[test]
fn metadata_comes_from_the_package() {
    let meta = metadata_of(&read_package(&read_xml(OPF)));
    assert_eq!(meta.title, "A Book");
    assert_eq!(meta.description.as_deref(), Some("About it"));
    assert_eq!(meta.subject, None);
    assert_eq!(meta.series.as_deref(), Some("Saga"));
    assert_eq!(meta.series_index, None);
}

#[test]
fn packages_without_entries_are_books() {
    let package = read_package(&read_xml(OPF));
    let documents = || vec!["<p>one</p>".to_string(), "<p>two</p>".to_string()];
    let sheets = vec!["p {}".to_string(), "b {}".to_string()];
    let book = book_of(&package, documents(), &sheets, Vec::new());
    assert_eq!(book.css, "p {}\nb {}");
    assert_eq!(book.cover_href.as_deref(), Some("cover.jpg"));
    assert!(book.layout.is_fixed_layout);
    assert_eq!(book.layout.page_progression_direction.as_deref(), Some("rtl"));
    let file = build_mobi(&package, documents(), &sheets, Vec::new(), OPTIONS, None, 7).unwrap();
    let chosen = BookOptions {
        no_compress: true,
        include_cmet: false,
        hd_images: true,
        creator_tag: false,
        kf8_only: false,
    };
    assert_eq!(file, build_book_mobi(&book, chosen, None, 7));
}

#[test]
fn packages_with_entries_are_dictionaries() {
    let package = read_package(&read_xml(OPF));
    let page = r#"<html><body><idx:entry><idx:orth value="go"><b>go</b></idx:orth>
<idx:infl><idx:iform value="went"/></idx:infl> to move</idx:entry></body></html>"#;
    let documents = || vec![page.to_string()];
    assert_eq!(read_entries(&documents()).len(), 1);
    let build = |documents: Vec<String>, options: BuildOptions| {
        build_mobi(&package, documents, &Vec::new(), Vec::new(), options, None, 7)
    };
    let file = build(documents(), OPTIONS).unwrap();
    assert!(occurs(record(&file, 1), b"<b>go</b>"));
    assert!(!occurs(record(&file, 1), b"idx:"));
    // The index follows the text: a primary record, then the forms in order.
    assert_eq!(&record(&file, 2)[..4], b"INDX");
    assert!(occurs(record(&file, 3), b"\x02go"));
    assert!(occurs(record(&file, 3), b"\x04went"));
    let headwords = build(documents(), BuildOptions { headwords_only: true, ..OPTIONS }).unwrap();
    assert!(!occurs(record(&headwords, 3), b"\x04went"));
    let kf8 = build(documents(), BuildOptions { kf8_only: true, ..OPTIONS });
    assert_eq!(kf8, Err(BuildError::Kf8OnlyDictionary));
    let bare = build(vec!["<idx:entry>no headword</idx:entry>".to_string()], OPTIONS);
    assert_eq!(bare, Err(BuildError::NoEntries));
}

#[test]
fn lookup_indexes_have_records_of_two_hundred_terms() {
    let terms: Vec<LookupTerm> = (0..401usize)
        .map(|i| LookupTerm {
            label: format!("w{:04}", i),
            label_bytes: format!("w{:04}", i).into_bytes(),
            start_pos: 100 * i,
            text_len: 90,
            headword_display_len: 5,
            source_ordinal: i,
        })
        .collect();
    let index = build_orth_indx(&terms);
    assert_eq!(index.len(), 4);
    assert!(occurs(&index[0], b"\x05w0199"));
    assert!(occurs(&index[0], b"\x05w0399"));
    assert!(occurs(&index[0], b"\x05w0400"));
    // Label, the tags 1 and 2, position 200 as two digits of seven bits, length 90.
    assert_eq!(&index[1][192..192 + 9], b"\x05w0000\x01\x80\xda");
    assert!(occurs(&index[1], b"\x05w0002\x01\x01\xc8\xda"));
    assert!(occurs(&index[3], b"\x05w0400"));
    // The header of a data record leads to its offset table, and that to each entry.
    let data = &index[2];
    let table = u32::from_be_bytes([data[20], data[21], data[22], data[23]]) as usize;
    assert_eq!(&data[table..table + 4], b"IDXT");
    let slot = table + 4 + 2 * 57;
    let at = u16::from_be_bytes([data[slot], data[slot + 1]]) as usize;
    assert_eq!(&data[at..at + 6], b"\x05w0257");
    assert_eq!(build_orth_indx(&[]).len(), 1);
}

#[test]
fn labels_have_at_most_31_bytes() {
    let term = |label: &str| LookupTerm {
        label: label.to_string(),
        label_bytes: label.as_bytes().to_vec(),
        start_pos: 1,
        text_len: 2,
        headword_display_len: 1,
        source_ordinal: 0,
    };
    let long = "abcdefghijklmnopqrstuvwxyz0123456789";
    let index = build_orth_indx(&[term("abc"), term(long), term(&long[..30])]);
    let data = &index[1];
    assert_eq!(&data[192..196], b"\x03abc");
    let second = 192 + 1 + 3 + 1 + 2;
    assert_eq!(data[second] as usize, 31);
    assert_eq!(&data[second + 1..second + 32], long[..31].as_bytes());
    let third = second + 1 + 31 + 1 + 2;
    assert_eq!(data[third] as usize, 30);
    assert_eq!(&data[third + 1..third + 31], long[..30].as_bytes());
}
