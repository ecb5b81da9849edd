use kindling::cli::{
    is_epub_input, is_input_name, is_kindlegen_compat_mode, output_extension, parse_kindlegen_args,
    status_line,
};
use kindling::labels::LabelTable;
use kindling::md5::md5_hash;
use kindling::order::stable_order;
use kindling::text::{
    bytes_of, chars_of, contains_slash, file_name, push_decimal, push_padded, replace_text,
    same_text, stands_at, string_of, trim,
};

fn hex(data: &[u8]) -> String {
    data.iter().map(|b| format!("{:02x}", b)).collect()
}

#[test]
fn md5_of_known_texts() {
    assert_eq!(hex(&md5_hash(b"")), "d41d8cd98f00b204e9800998ecf8427e");
    assert_eq!(hex(&md5_hash(b"abc")), "900150983cd24fb0d6963f7d28e17f72");
    assert_eq!(
        hex(&md5_hash(b"ABCDEFGHIJKLMNOPQRSTUVWXYZabcdefghijklmnopqrstuvwxyz0123456789")),
        "d174ab98d277d9f5a5611c2c9f419d9f"
    );
    assert_eq!(
        hex(&md5_hash(b"12345678901234567890123456789012345678901234567890123456789012345678901234567890")),
        "57edf4a22be3c955ac49da2e2107b67a"
    );
}

#[test]
fn numbers_are_written_in_decimal() {
    let mut s = String::new();
    push_decimal(&mut s, 0);
    push_decimal(&mut s, 1234567890123456789012);
    push_padded(&mut s, 7, 3);
    push_padded(&mut s, 12345, 3);
    assert_eq!(s, "0123456789012345678901200712345");
}

#[test]
fn texts_are_handled() {
    assert_eq!(trim(" \t a b\u{a0}\n"), "a b");
    assert_eq!(trim(""), "");
    let spaces: Vec<u32> =
        (0..=0x10ffff).filter_map(char::from_u32).filter(|c| trim(&c.to_string()).is_empty()).map(|c| c as u32).collect();
    let mut want: Vec<u32> = (0x9..=0xd).chain([0x20, 0x85, 0xa0, 0x1680]).collect();
    want.extend((0x2000..=0x200a).chain([0x2028, 0x2029, 0x202f, 0x205f, 0x3000]));
    assert_eq!(spaces, want);
    assert_eq!(file_name("a/b/c.txt"), "c.txt");
    assert_eq!(file_name("c"), "c");
    assert!(contains_slash("a/b"));
    assert!(!contains_slash("ab"));
    assert_eq!(replace_text("aaa-a", "aa", "b"), "ba-a");
    assert!(same_text("\u{e9}", "\u{e9}"));
    assert!(!same_text("e", "\u{e9}"));
    assert_eq!(string_of(&chars_of("x\u{1f600}")), "x\u{1f600}");
    assert_eq!(bytes_of("\u{e9}"), vec![0xc3, 0xa9]);
    assert!(stands_at(&chars_of("hello"), &chars_of("ll"), 2));
    assert!(!stands_at(&chars_of("hello"), &chars_of("ll"), 3));
}

#[test]
fn equal_keys_keep_their_order() {
    let keys = vec![vec![2u8], vec![1, 5], vec![2], vec![], vec![1], vec![2]];
    assert_eq!(stable_order(&keys), vec![3, 4, 1, 0, 2, 5]);
    let many: Vec<Vec<u64>> = (0..1000u64).map(|i| vec![(i * 7919) % 101]).collect();
    let order = stable_order(&many);
    for pair in order.windows(2) {
        assert!((many[pair[0]][0], pair[0]) < (many[pair[1]][0], pair[1]));
    }
}

#[test]
fn labels_are_found_again() {
    let mut table = LabelTable::new();
    assert_eq!(table.find("a"), None);
    table.push("a");
    table.push("b");
    assert_eq!(table.len(), 2);
    assert_eq!(table.find("b"), Some(1));
    assert_eq!(table.get(0), "a");
    assert_eq!(table.find("c"), None);
}

fn args(list: &[&str]) -> Vec<String> {
    list.iter().map(|s| s.to_string()).collect()
}

#[test]
fn kindlegen_calls_are_known() {
    assert!(is_kindlegen_compat_mode(&args(&["kindling", "Book.EPUB"])));
    assert!(is_kindlegen_compat_mode(&args(&["kindling", "a.opf", "-c1"])));
    assert!(!is_kindlegen_compat_mode(&args(&["kindling", "build", "a.opf"])));
    assert!(!is_kindlegen_compat_mode(&args(&["kindling"])));
    assert!(is_input_name(".opf"));
    assert!(!is_input_name("a.OPF"));
}

#[test]
fn kindlegen_arguments() {
    let parse = |list: &[&str]| parse_kindlegen_args(&args(list));
    assert_eq!(parse(&["k", "in.epub"]), ("in.epub".to_string(), None));
    assert_eq!(parse(&["k", "in.epub", "-dont_append_source", "-o", "x.mobi", "-c2"]).1.as_deref(), Some("x.mobi"));
    assert_eq!(parse(&["k", "in.epub", "-o", "a", "-o", "b"]).1.as_deref(), Some("b"));
    assert_eq!(parse(&["k", "in.epub", "-locale", "-o", "x"]).1, None);
    assert_eq!(parse(&["k", "in.epub", "-o"]).1, None);
    assert_eq!(parse(&["k", "in.epub", "-locale"]).1, None);
    assert_eq!(parse(&["k", "in.epub", "-o", "-o"]).1.as_deref(), Some("-o"));
}

#[test]
fn build_results() {
    assert_eq!(status_line(None), "Info(prcgen):I1036: Mobi file built successfully");
    assert_eq!(status_line(Some("the file is too big")), "Error(prcgen):E23026: File too big");
    assert_eq!(status_line(Some("too large!")), "Error(prcgen):E23026: File too big");
    assert_eq!(status_line(Some("other")), "Error(prcgen):E23026: Could not build Mobi file");
    assert_eq!(output_extension(true), "azw3");
    assert_eq!(output_extension(false), "mobi");
    assert!(is_epub_input(Some("ePuB")));
    assert!(!is_epub_input(Some("epubs")));
    assert!(!is_epub_input(None));
}
