//! HTML: cleaning it, merging documents, and rewriting what refers to images.
use vstd::prelude::*;

use crate::bytes::{find_bytes, first_from, first_from_is_first, occurs_at, push_all};
use crate::paths::{
    find_decoded, find_plain, is_last_key, own_paths_refer_to_images, path_forms, percent_decode,
    percent_decoded, references_have_the_form_of_their_image, ImagePaths, PathForms,
};
use crate::pattern::{
    find_all, found_texts, group, group_of, group_texts, regex_found, regex_replaced, regex_split,
    replace_all, source, split_at_matches, texts, weave, wholes, woven, Found, Pattern,
};
use crate::text::{
    absent_texts_are_not_exchanged, begins_with, decimal_is_short, decimal_value, decimals_read_back,
    file_name, first_occurrence_is_exchanged, is_absent, last_segment, padded_decimal, push_padded,
    replace_text, replaced, same_text, ten_to, trim, trimmed, utf8,
};
use crate::xml::{ends_with, text_ends_with};

verus! {

/// `html` without what matches the pattern.
pub open spec fn without(p: Pattern, html: Seq<char>) -> Seq<char> {
    regex_replaced(source(p), html, ""@)
}

/// Book HTML without XML declarations and namespace attributes, trimmed.
pub open spec fn cleaned_book_html(html: Seq<char>) -> Seq<char> {
    trimmed(
        without(
            Pattern::DefaultNamespace,
            without(Pattern::PrefixedNamespace, without(Pattern::XmlDeclaration, html)),
        ),
    )
}

/// Dictionary HTML once its index markup is gone: declarations, prefixed
/// namespaces, inflections and the tags of headwords and entries; the head is the
/// fixed one.
pub open spec fn without_index_markup(html: Seq<char>) -> Seq<char> {
    let a = without(Pattern::PrefixedNamespace, without(Pattern::XmlDeclaration, html));
    let b = regex_replaced(source(Pattern::BareHead), a, "<head><guide></guide></head>"@);
    let c = without(
        Pattern::Inflections,
        without(Pattern::EmptyInflections, without(Pattern::InflectedForm, b)),
    );
    let d = without(
        Pattern::CloseOrth,
        without(Pattern::OpenOrth, without(Pattern::ClosedOrth, c)),
    );
    let e = without(Pattern::CloseShort, without(Pattern::OpenShort, d));
    without(Pattern::CloseEntry, without(Pattern::OpenEntry, e))
}

/// Runs of white space as one space, none between tags.
pub open spec fn collapsed(html: Seq<char>) -> Seq<char> {
    regex_replaced(
        source(Pattern::TagGap),
        regex_replaced(source(Pattern::Space), html, " "@),
        "><"@,
    )
}

/// The spaces that set a headword off put back between tags, and the ends trimmed.
pub open spec fn respaced(html: Seq<char>) -> Seq<char> {
    trimmed(
        replaced(
            replaced(replaced(html, "</b><"@, "</b> <"@), "</p><hr"@, "</p> <hr"@),
            "/><b>"@,
            "/> <b>"@,
        ),
    )
}

/// Dictionary HTML as it is displayed.
pub open spec fn stripped_index_html(html: Seq<char>) -> Seq<char> {
    respaced(collapsed(without_index_markup(html)))
}

/// Clean book HTML: remove XML declarations and namespace attributes, and keep the
/// rest as it is.
pub fn clean_book_html(html: &str) -> (r: String)
    ensures
        r@ == cleaned_book_html(html@),
{
    let a = replace_all(Pattern::XmlDeclaration, html, "");
    let b = replace_all(Pattern::PrefixedNamespace, a.as_str(), "");
    let c = replace_all(Pattern::DefaultNamespace, b.as_str(), "");
    trim(c.as_str())
}

/// Put back the spaces that set a headword off, and trim.
pub fn restore_spaces(html: &str) -> (r: String)
    ensures
        r@ == respaced(html@),
{
    proof {
        reveal_strlit("</b><");
        reveal_strlit("</p><hr");
        reveal_strlit("/><b>");
    }
    let a = replace_text(html, "</b><", "</b> <");
    let b = replace_text(a.as_str(), "</p><hr", "</p> <hr");
    let c = replace_text(b.as_str(), "/><b>", "/> <b>");
    trim(c.as_str())
}

/// Strip the index markup from dictionary HTML, keeping what is displayed.
pub fn strip_idx_markup(html: &str) -> (r: String)
    ensures
        r@ == stripped_index_html(html@),
{
    let t = replace_all(Pattern::XmlDeclaration, html, "");
    let t = replace_all(Pattern::PrefixedNamespace, t.as_str(), "");
    let t = replace_all(Pattern::BareHead, t.as_str(), "<head><guide></guide></head>");
    let t = replace_all(Pattern::InflectedForm, t.as_str(), "");
    let t = replace_all(Pattern::EmptyInflections, t.as_str(), "");
    let t = replace_all(Pattern::Inflections, t.as_str(), "");
    let t = replace_all(Pattern::ClosedOrth, t.as_str(), "");
    let t = replace_all(Pattern::OpenOrth, t.as_str(), "");
    let t = replace_all(Pattern::CloseOrth, t.as_str(), "");
    let t = replace_all(Pattern::OpenShort, t.as_str(), "");
    let t = replace_all(Pattern::CloseShort, t.as_str(), "");
    let t = replace_all(Pattern::OpenEntry, t.as_str(), "");
    let t = replace_all(Pattern::CloseEntry, t.as_str(), "");
    let t = replace_all(Pattern::Space, t.as_str(), " ");
    let t = replace_all(Pattern::TagGap, t.as_str(), "><");
    restore_spaces(t.as_str())
}

/// The texts with `sep` between them.
pub open spec fn joined(list: Seq<Seq<char>>, sep: Seq<char>) -> Seq<char>
    decreases list.len(),
{
    if list.len() == 0 {
        seq![]
    } else if list.len() == 1 {
        list[0]
    } else {
        joined(list.drop_last(), sep) + sep + list.last()
    }
}

/// Join texts with `sep` between them.
pub fn join_texts(list: &Vec<String>, sep: &str) -> (r: String)
    ensures
        r@ == joined(texts(list@), sep@),
{
    let mut r = String::new();
    if list.len() == 0 {
        assert(r@ =~= joined(texts(list@), sep@));
        return r;
    }
    r.append(list[0].as_str());
    let mut i: usize = 1;
    assert(texts(list@).take(1)[0] == list@[0]@);
    assert(r@ =~= joined(texts(list@).take(1), sep@));
    while i < list.len()
        invariant
            1 <= i <= list@.len(),
            r@ == joined(texts(list@).take(i as int), sep@),
        decreases list.len() - i,
    {
        r.append(sep);
        r.append(list[i].as_str());
        i += 1;
        assert(texts(list@).take(i as int).drop_last() =~= texts(list@).take(i - 1));
    }
    assert(texts(list@).take(i as int) =~= texts(list@));
    r
}

/// The content of the body, trimmed, by the bodies that were found in a document;
/// the whole document if it has none.
pub open spec fn body_content(
    document: Seq<char>,
    found: Seq<Seq<Option<Seq<char>>>>,
) -> Seq<char> {
    if found.len() > 0 {
        trimmed(group(found[0], 1))
    } else {
        document
    }
}

/// The content of the body, by what the body pattern found in a document.
pub fn body_of(document: &str, found: &Vec<Found>) -> (r: String)
    ensures
        r@ == body_content(document@, found_texts(found@)),
{
    if found.len() > 0 {
        assert(found_texts(found@)[0] == group_texts(found@[0]));
        let content = group_of(&found[0], 1);
        trim(content.as_str())
    } else {
        document.to_owned()
    }
}

/// The first head element of the documents.
pub open spec fn first_head(documents: Seq<Seq<char>>) -> Option<Seq<char>>
    decreases documents.len(),
{
    if documents.len() == 0 {
        None
    } else {
        match first_head(documents.drop_last()) {
            Some(h) => Some(h),
            None => {
                let found = regex_found(source(Pattern::Head), documents.last());
                if found.len() > 0 {
                    Some(group(found[0], 0))
                } else {
                    None
                }
            },
        }
    }
}

/// One document with the given head, or an empty guide, and the bodies, a page
/// break behind each.
pub open spec fn merged_document(head: Option<Seq<char>>, bodies: Seq<Seq<char>>) -> Seq<char> {
    let h = match head {
        Some(t) => t,
        None => "<head><guide></guide></head>"@,
    };
    "<html>"@ + h + "<body>"@ + joined(bodies, "<mbp:pagebreak/>"@)
        + "  <mbp:pagebreak/></body></html>"@
}

/// Merge bodies into one document.
pub fn merge_document(head: &Option<String>, bodies: &Vec<String>) -> (r: String)
    ensures
        r@ == merged_document(crate::text::opt_string(*head), texts(bodies@)),
{
    let mut r = "<html>".to_owned();
    match head {
        Some(t) => r.append(t.as_str()),
        None => r.append("<head><guide></guide></head>"),
    }
    r.append("<body>");
    let body = join_texts(bodies, "<mbp:pagebreak/>");
    r.append(body.as_str());
    r.append("  <mbp:pagebreak/></body></html>");
    r
}

/// A source document as the text of the book or dictionary shows it.
pub open spec fn shown(content: Seq<char>, strip_idx: bool) -> Seq<char> {
    if strip_idx {
        stripped_index_html(content)
    } else {
        cleaned_book_html(content)
    }
}

/// The source documents as shown.
pub open spec fn all_shown(contents: Seq<Seq<char>>, strip_idx: bool) -> Seq<Seq<char>> {
    Seq::new(contents.len(), |i: int| shown(contents[i], strip_idx))
}

/// The bodies of documents.
pub open spec fn all_bodies(documents: Seq<Seq<char>>) -> Seq<Seq<char>> {
    Seq::new(
        documents.len(),
        |i: int| body_content(documents[i], regex_found(source(Pattern::Body), documents[i])),
    )
}

/// The text of a book or dictionary: its documents, shown and merged.
pub open spec fn text_content(contents: Seq<Seq<char>>, strip_idx: bool) -> Seq<char> {
    let documents = all_shown(contents, strip_idx);
    merged_document(first_head(documents), all_bodies(documents))
}

/// Merge the contents of all spine documents into one text.
///
/// With `strip_idx` index markup is stripped, as for a dictionary; without it the
/// HTML is cleaned as for a book.
pub fn build_text_content(contents: &[String], strip_idx: bool) -> (r: String)
    ensures
        r@ == text_content(texts(contents@), strip_idx),
{
    let mut bodies: Vec<String> = Vec::new();
    let mut head: Option<String> = None;
    let ghost documents = all_shown(texts(contents@), strip_idx);
    let mut i: usize = 0;
    while i < contents.len()
        invariant
            documents == all_shown(texts(contents@), strip_idx),
            i <= contents@.len(),
            bodies@.len() == i,
            forall|k: int|
                0 <= k < i ==> #[trigger] bodies@[k]@ == body_content(
                    documents[k],
                    regex_found(source(Pattern::Body), documents[k]),
                ),
            crate::text::opt_string(head) == first_head(documents.take(i as int)),
        decreases contents.len() - i,
    {
        let document = if strip_idx {
            strip_idx_markup(contents[i].as_str())
        } else {
            clean_book_html(contents[i].as_str())
        };
        assert(document@ == documents[i as int]);
        let found = find_all(Pattern::Body, document.as_str());
        bodies.push(body_of(document.as_str(), &found));
        proof {
            assert(documents.take(i + 1).drop_last() =~= documents.take(i as int));
        }
        if head.is_none() {
            let heads = find_all(Pattern::Head, document.as_str());
            if heads.len() > 0 {
                assert(found_texts(heads@)[0] == group_texts(heads@[0]));
                head = Some(group_of(&heads[0], 0));
            }
        }
        i += 1;
    }
    proof {
        assert(documents.take(i as int) =~= documents);
        assert(texts(bodies@) =~= all_bodies(documents));
    }
    merge_document(&head, &bodies)
}

/// The image that a source path refers to in a book's plain text: as it stands, with
/// its escapes decoded, or by its file name.
pub open spec fn text_image(paths: PathForms, path: Seq<char>) -> Option<nat> {
    match paths.decoded_index(path) {
        Some(i) => Some(i),
        None => match paths.decoded_index(percent_decoded(utf8(path))) {
            Some(i) => Some(i),
            None => paths.decoded_index(last_segment(path)),
        },
    }
}

/// A source attribute with the number of its image, counted from one, in its place;
/// one that refers to no image is kept.
pub open spec fn numbered_source(paths: PathForms, m: Seq<Option<Seq<char>>>) -> Seq<char> {
    match text_image(paths, group(m, 1)) {
        Some(i) => "recindex=\""@ + padded_decimal(i + 1, 5) + "\""@,
        None => group(m, 0),
    }
}

/// All source attributes that were found, numbered.
pub open spec fn numbered_sources(
    paths: PathForms,
    found: Seq<Seq<Option<Seq<char>>>>,
) -> Seq<Seq<char>> {
    Seq::new(found.len(), |k: int| numbered_source(paths, found[k]))
}

fn find_text_image(paths: &ImagePaths, path: &str) -> (r: Option<usize>)
    ensures
        match r {
            Some(i) => text_image(paths@, path@) == Some(i as nat) && i < usize::MAX,
            None => text_image(paths@, path@) is None,
        },
{
    match find_decoded(paths, path) {
        Some(i) => Some(i),
        None => {
            let decoded = percent_decode(path);
            match find_decoded(paths, decoded.as_str()) {
                Some(i) => Some(i),
                None => {
                    let name = file_name(path);
                    find_decoded(paths, name.as_str())
                },
            }
        },
    }
}

/// Number the source attributes of a text that was taken apart into its source
/// attributes and what stands around them.
pub fn number_sources(pieces: &Vec<String>, found: &Vec<Found>, paths: &ImagePaths) -> (r: String)
    requires
        pieces@.len() == found@.len() + 1,
    ensures
        r@ == woven(texts(pieces@), numbered_sources(paths@, found_texts(found@))),
{
    let mut joints: Vec<String> = Vec::new();
    let mut k: usize = 0;
    while k < found.len()
        invariant
            k <= found@.len(),
            joints@.len() == k,
            forall|j: int|
                0 <= j < k ==> #[trigger] joints@[j]@ == numbered_source(
                    paths@,
                    group_texts(found@[j]),
                ),
        decreases found.len() - k,
    {
        let path = group_of(&found[k], 1);
        let joint = match find_text_image(paths, path.as_str()) {
            Some(i) => {
                let mut t = "recindex=\"".to_owned();
                push_padded(&mut t, i as u128 + 1, 5);
                t.append("\"");
                t
            },
            None => group_of(&found[k], 0),
        };
        joints.push(joint);
        k += 1;
    }
    assert(texts(joints@) =~= numbered_sources(paths@, found_texts(found@)));
    weave(pieces, &joints)
}

/// Rewrite image sources to record numbers in the plain text of a book.
pub fn rewrite_image_src(text: &str, paths: &ImagePaths) -> (r: String)
    ensures
        r@ == woven(
            regex_split(source(Pattern::Source), text@),
            numbered_sources(paths@, regex_found(source(Pattern::Source), text@)),
        ),
        (forall|path: Seq<char>| #[trigger] text_image(paths@, path) is None) ==> r@ == text@,
{
    let found = find_all(Pattern::Source, text);
    let pieces = split_at_matches(Pattern::Source, text);
    let r = number_sources(&pieces, &found, paths);
    proof {
        if forall|path: Seq<char>| #[trigger] text_image(paths@, path) is None {
            assert(numbered_sources(paths@, found_texts(found@)) =~= wholes(found_texts(found@)));
        }
    }
    r
}

/// The digit for `d` among 0-9, A-Z and a-z.
pub open spec fn alphanumeric(d: nat) -> char {
    if d < 10 {
        ('0' as nat + d) as char
    } else if d < 36 {
        ('A' as nat + d - 10) as char
    } else {
        ('a' as nat + d - 36) as char
    }
}

/// `v` to base 62.
pub open spec fn base62(v: nat) -> Seq<char>
    decreases v,
{
    if v < 62 {
        seq![alphanumeric(v)]
    } else {
        base62(v / 62).push(alphanumeric(v % 62))
    }
}

/// The last four digits of `v` to base 32.
pub open spec fn base32(v: nat) -> Seq<char> {
    seq![
        alphanumeric(v / 0x8000 % 32),
        alphanumeric(v / 0x400 % 32),
        alphanumeric(v / 0x20 % 32),
        alphanumeric(v % 32),
    ]
}

fn alphanumeric_digit(d: u8) -> (c: char)
    requires
        d < 62,
    ensures
        c == alphanumeric(d as nat),
{
    if d < 10 {
        (48 + d) as char
    } else if d < 36 {
        (65 + (d - 10)) as char
    } else {
        (97 + (d - 36)) as char
    }
}

/// Encode an anchor number as a short string.
pub fn encode_aid(value: u32) -> (r: String)
    ensures
        r@ == base62(value as nat),
{
    let mut low_first: Vec<char> = Vec::new();
    let mut v: u32 = value;
    assert(base62(value as nat) =~= base62(v as nat) + low_first@.reverse());
    while v >= 62
        invariant
            base62(value as nat) == base62(v as nat) + low_first@.reverse(),
        decreases v,
    {
        let ghost before = low_first@;
        let ghost v0 = v;
        low_first.push(alphanumeric_digit((v % 62) as u8));
        v = v / 62;
        proof {
            let d = alphanumeric((v0 % 62) as nat);
            assert(low_first@.reverse() =~= seq![d] + before.reverse());
            assert(base62(v0 as nat) =~= base62(v as nat).push(d));
            assert(base62(v as nat).push(d) + before.reverse() =~= base62(v as nat)
                + low_first@.reverse());
        }
    }
    let mut r = String::new();
    r.push(alphanumeric_digit(v as u8));
    assert(base62(value as nat) =~= r@ + low_first@.reverse());
    let mut i: usize = low_first.len();
    assert(low_first@.take(i as int) =~= low_first@);
    while i > 0
        invariant
            i <= low_first@.len(),
            base62(value as nat) == r@ + low_first@.take(i as int).reverse(),
        decreases i,
    {
        i -= 1;
        let ghost before = r@;
        r.push(low_first[i]);
        assert(before + low_first@.take(i + 1).reverse() =~= r@ + low_first@.take(i as int).reverse());
    }
    assert(r@ =~= base62(value as nat));
    r
}

/// Encode an image number, counted from one, for a `kindle:embed` reference.
pub fn encode_base32(recindex: usize) -> (r: String)
    ensures
        r@ == base32(recindex as nat),
{
    let mut r = String::new();
    r.push(alphanumeric_digit((recindex / 0x8000 % 32) as u8));
    r.push(alphanumeric_digit((recindex / 0x400 % 32) as u8));
    r.push(alphanumeric_digit((recindex / 0x20 % 32) as u8));
    r.push(alphanumeric_digit((recindex % 32) as u8));
    assert(r@ =~= base32(recindex as nat));
    r
}

/// The image that a source path refers to in a KF8 text: as it stands, or by its
/// file name.
pub open spec fn kf8_image(paths: PathForms, path: Seq<char>) -> Option<nat> {
    match paths.plain_index(path) {
        Some(i) => Some(i),
        None => paths.plain_index(last_segment(path)),
    }
}

/// A source attribute that embeds its image; one that refers to no image is kept.
pub open spec fn embedded_source(paths: PathForms, m: Seq<Option<Seq<char>>>) -> Seq<char> {
    match kf8_image(paths, group(m, 1)) {
        Some(i) => "src=\"kindle:embed:"@ + base32(i + 1) + "?mime=image/jpeg\""@,
        None => group(m, 0),
    }
}

/// All source attributes that were found, embedding their images.
pub open spec fn embedded_sources(
    paths: PathForms,
    found: Seq<Seq<Option<Seq<char>>>>,
) -> Seq<Seq<char>> {
    Seq::new(found.len(), |k: int| embedded_source(paths, found[k]))
}

/// The opening of a tag with an anchor number put behind its name.
pub open spec fn anchored_tag(aid: u32, m: Seq<Option<Seq<char>>>) -> Seq<char> {
    "<"@ + group(m, 1) + " aid=\""@ + base62(aid as nat) + "\""@ + group(m, 2)
}

/// The anchor number `k` places after `first`.
pub open spec fn aid_after(first: u32, k: nat) -> u32 {
    ((first + k) % 0x1_0000_0000) as u32
}

/// All tags that were found, numbered from `first` on.
pub open spec fn anchored_tags(first: u32, found: Seq<Seq<Option<Seq<char>>>>) -> Seq<Seq<char>> {
    Seq::new(found.len(), |k: int| anchored_tag(aid_after(first, k as nat), found[k]))
}

/// Embed the images of a text that was taken apart into its source attributes and
/// what stands around them.
pub fn embed_sources(pieces: &Vec<String>, found: &Vec<Found>, paths: &ImagePaths) -> (r: String)
    requires
        pieces@.len() == found@.len() + 1,
    ensures
        r@ == woven(texts(pieces@), embedded_sources(paths@, found_texts(found@))),
{
    let mut joints: Vec<String> = Vec::new();
    let mut k: usize = 0;
    while k < found.len()
        invariant
            k <= found@.len(),
            joints@.len() == k,
            forall|j: int|
                0 <= j < k ==> #[trigger] joints@[j]@ == embedded_source(
                    paths@,
                    group_texts(found@[j]),
                ),
        decreases found.len() - k,
    {
        let path = group_of(&found[k], 1);
        let image = match find_plain(paths, path.as_str()) {
            Some(i) => Some(i),
            None => {
                let name = file_name(path.as_str());
                find_plain(paths, name.as_str())
            },
        };
        let joint = match image {
            Some(i) => {
                let mut t = "src=\"kindle:embed:".to_owned();
                let code = encode_base32(i + 1);
                t.append(code.as_str());
                t.append("?mime=image/jpeg\"");
                t
            },
            None => group_of(&found[k], 0),
        };
        joints.push(joint);
        k += 1;
    }
    assert(texts(joints@) =~= embedded_sources(paths@, found_texts(found@)));
    weave(pieces, &joints)
}

/// Number the tags of a text that was taken apart into tag openings and what stands
/// around them.
pub fn anchor_tags(pieces: &Vec<String>, found: &Vec<Found>, aid_counter: &mut u32) -> (r: String)
    requires
        pieces@.len() == found@.len() + 1,
    ensures
        r@ == woven(texts(pieces@), anchored_tags(*old(aid_counter), found_texts(found@))),
        *final(aid_counter) == aid_after(*old(aid_counter), found@.len()),
{
    let mut joints: Vec<String> = Vec::new();
    let mut k: usize = 0;
    while k < found.len()
        invariant
            k <= found@.len(),
            joints@.len() == k,
            *aid_counter == aid_after(*old(aid_counter), k as nat),
            forall|j: int|
                0 <= j < k ==> #[trigger] joints@[j]@ == anchored_tag(
                    aid_after(*old(aid_counter), j as nat),
                    group_texts(found@[j]),
                ),
        decreases found.len() - k,
    {
        let tag = group_of(&found[k], 1);
        let after = group_of(&found[k], 2);
        let aid = encode_aid(*aid_counter);
        let mut joint = "<".to_owned();
        joint.append(tag.as_str());
        joint.append(" aid=\"");
        joint.append(aid.as_str());
        joint.append("\"");
        joint.append(after.as_str());
        joints.push(joint);
        *aid_counter = aid_counter.wrapping_add(1);
        k += 1;
    }
    assert(texts(joints@) =~= anchored_tags(*old(aid_counter), found_texts(found@)));
    weave(pieces, &joints)
}

/// A document with its images embedded.
pub open spec fn embedded(html: Seq<char>, paths: PathForms) -> Seq<char> {
    woven(
        regex_split(source(Pattern::Source), html),
        embedded_sources(paths, regex_found(source(Pattern::Source), html)),
    )
}

/// A document with its images embedded and its tags numbered from `aid` on.
pub open spec fn kf8_part(html: Seq<char>, aid: u32, paths: PathForms) -> Seq<char> {
    let t = embedded(html, paths);
    woven(
        regex_split(source(Pattern::AnchoredTag), t),
        anchored_tags(aid, regex_found(source(Pattern::AnchoredTag), t)),
    )
}

/// The anchor number behind a document that was numbered from `aid` on.
pub open spec fn aid_behind(html: Seq<char>, aid: u32, paths: PathForms) -> u32 {
    aid_after(aid, regex_found(source(Pattern::AnchoredTag), embedded(html, paths)).len())
}

/// Process one document for KF8: embed its images and number its tags.
pub fn process_kf8_part(html: &str, aid_counter: &mut u32, paths: &ImagePaths) -> (r: String)
    ensures
        r@ == kf8_part(html@, *old(aid_counter), paths@),
        *final(aid_counter) == aid_behind(html@, *old(aid_counter), paths@),
{
    let found = find_all(Pattern::Source, html);
    let pieces = split_at_matches(Pattern::Source, html);
    let t = embed_sources(&pieces, &found, paths);
    let tags = find_all(Pattern::AnchoredTag, t.as_str());
    let around = split_at_matches(Pattern::AnchoredTag, t.as_str());
    let r = anchor_tags(&around, &tags, aid_counter);
    assert(found_texts(tags@).len() == tags@.len());
    r
}

/// The references of images that were found in markup, in order.
pub open spec fn image_references(found: Seq<Seq<Option<Seq<char>>>>) -> Seq<Seq<char>> {
    Seq::new(found.len(), |k: int| group(found[k], 1))
}

/// The references of the images of a text, by what the image pattern found.
pub fn references_of(found: &Vec<Found>) -> (r: Vec<String>)
    ensures
        texts(r@) == image_references(found_texts(found@)),
{
    let mut r: Vec<String> = Vec::new();
    let mut k: usize = 0;
    while k < found.len()
        invariant
            k <= found@.len(),
            r@.len() == k,
            forall|j: int| 0 <= j < k ==> #[trigger] r@[j]@ == group(group_texts(found@[j]), 1),
        decreases found.len() - k,
    {
        r.push(group_of(&found[k], 1));
        k += 1;
    }
    assert(texts(r@) =~= image_references(found_texts(found@)));
    r
}

/// Extract the references of `img` and SVG `image` elements from markup that need
/// not be well-formed.
pub fn extract_image_refs_regex(content: &str) -> (r: Vec<String>)
    ensures
        texts(r@) == image_references(regex_found(source(Pattern::ImageReference), content@)),
{
    let found = find_all(Pattern::ImageReference, content);
    references_of(&found)
}

/// The guide entry that leads to byte `filepos`, always of one length up to ten
/// digits.
pub open spec fn guide_entry(filepos: nat) -> Seq<char> {
    "<guide><reference title=\"IndexName\" type=\"index\"  filepos="@ + padded_decimal(filepos, 10)
        + " /></guide>"@
}

/// `text` with its first empty guide exchanged for one that leads to the first bold
/// element, whose place allows for the longer guide; `text` itself if it lacks
/// either.
pub open spec fn with_guide(text: Seq<u8>) -> Seq<u8> {
    let empty = utf8("<guide></guide>"@);
    match first_from(text, empty, 0) {
        Some(guide) => match first_from(text, utf8("<b>"@), 0) {
            Some(bold) => {
                let entry = utf8(guide_entry((bold + 64) as nat));
                text.take(guide) + entry + text.skip((guide + empty.len()) as int)
            },
            None => text,
        },
        None => text,
    }
}

/// Insert the guide reference with the position of the first entry.
pub fn insert_guide_reference(text_bytes: &[u8]) -> (r: Vec<u8>)
    ensures
        r@ == with_guide(text_bytes@),
{
    let empty_guide = "<guide></guide>".as_bytes();
    let bold = "<b>".as_bytes();
    proof {
        literal_lengths();
    }
    let size: usize = text_bytes.len();
    let mut r: Vec<u8> = Vec::new();
    if let Some(guide_pos) = find_bytes(text_bytes, empty_guide) {
        if let Some(first_b) = find_bytes(text_bytes, bold) {
            let filepos: u128 = first_b as u128 + 64;
            let mut entry =
                "<guide><reference title=\"IndexName\" type=\"index\"  filepos=".to_owned();
            push_padded(&mut entry, filepos, 10);
            entry.append(" /></guide>");
            push_all(&mut r, &text_bytes[0..guide_pos]);
            push_all(&mut r, entry.as_str().as_bytes());
            push_all(&mut r, &text_bytes[guide_pos + empty_guide.len()..size]);
            assert(r@ =~= with_guide(text_bytes@));
            return r;
        }
    }
    push_all(&mut r, text_bytes);
    assert(r@ =~= text_bytes@);
    r
}

proof fn literal_lengths()
    ensures
        utf8("<guide></guide>"@).len() == 15,
        utf8("<b>"@).len() == 3,
{
    reveal_strlit("<guide></guide>");
    reveal_strlit("<b>");
    vstd::utf8::is_ascii_chars_encode_utf8("<guide></guide>"@);
    vstd::utf8::is_ascii_chars_encode_utf8("<b>"@);
}

proof fn guide_entry_length(filepos: nat)
    requires
        filepos < ten_to(10),
    ensures
        utf8(guide_entry(filepos)).len() == 79,
{
    decimal_is_short(filepos, 10);
    let a = "<guide><reference title=\"IndexName\" type=\"index\"  filepos="@;
    let b = " /></guide>"@;
    reveal_strlit("<guide><reference title=\"IndexName\" type=\"index\"  filepos=");
    reveal_strlit(" /></guide>");
    let e = guide_entry(filepos);
    assert(vstd::utf8::is_ascii_chars(e)) by {
        let d = padded_decimal(filepos, 10);
        assert forall|i: int| 0 <= i < e.len() implies '\0' <= #[trigger] e[i] <= '\u{7f}' by {
            if i < a.len() {
                assert(e[i] == a[i]);
            } else if i < a.len() + d.len() {
                assert(e[i] == d[i - a.len()]);
            } else {
                assert(e[i] == b[i - a.len() - d.len()]);
            }
        }
    }
    vstd::utf8::is_ascii_chars_encode_utf8(e);
}

/// The guide leads to the first entry: in the new text the first bold element of the
/// old one stands where the guide says, as long as the guide comes first and the
/// position has at most ten digits.
pub proof fn guide_leads_to_first_entry(text: Seq<u8>, guide: int, bold: int)
    requires
        first_from(text, utf8("<guide></guide>"@), 0) == Some(guide),
        first_from(text, utf8("<b>"@), 0) == Some(bold),
        guide < bold,
        bold + 64 < ten_to(10),
    ensures
        occurs_at(with_guide(text), utf8(guide_entry((bold + 64) as nat)), guide),
        occurs_at(with_guide(text), utf8("<b>"@), bold + 64),
{
    let empty = utf8("<guide></guide>"@);
    let b = utf8("<b>"@);
    literal_lengths();
    first_from_is_first(text, empty, 0);
    first_from_is_first(text, b, 0);
    guide_entry_length((bold + 64) as nat);
    let entry = utf8(guide_entry((bold + 64) as nat));
    let r = with_guide(text);
    assert(bold >= guide + 15) by {
        if bold < guide + 15 {
            let g = "<guide></guide>"@;
            reveal_strlit("<guide></guide>");
            reveal_strlit("<b>");
            vstd::utf8::is_ascii_chars_encode_utf8(g);
            vstd::utf8::is_ascii_chars_encode_utf8("<b>"@);
            assert(text.subrange(bold, bold + 3)[0] == b[0]);
            assert(text.subrange(bold, bold + 3)[1] == b[1]);
            assert(text[bold] == 0x3C);
            assert(text[bold + 1] == 0x62);
            assert(text.subrange(guide, guide + 15)[bold - guide] == empty[bold - guide]);
            if bold - guide < 14 {
                assert(text.subrange(guide, guide + 15)[bold - guide + 1] == empty[bold - guide + 1]);
            }
        }
    }
    assert(r.subrange(guide, guide + 79) =~= entry);
    assert(r.subrange(bold + 64, bold + 67) =~= text.subrange(bold, bold + 3));
}

/// Whether an item of a book is a style sheet, by its media type or its name.
pub fn is_stylesheet(media_type: &str, href: &str) -> (r: bool)
    ensures
        r == (media_type@ == "text/css"@ || ends_with(href@, ".css"@)),
{
    same_text(media_type, "text/css") || text_ends_with(href, ".css")
}

/// The styles of a book: its style sheets, one below the other.
pub fn join_styles(sheets: &Vec<String>) -> (r: String)
    ensures
        r@ == joined(texts(sheets@), "\n"@),
{
    join_texts(sheets, "\n")
}

proof fn alphanumerics_differ(a: nat, b: nat)
    requires
        a < 62,
        b < 62,
        alphanumeric(a) == alphanumeric(b),
    ensures
        a == b,
{
}

/// Different numbers are written differently: tags with different numbers have different anchors.
pub proof fn anchors_differ(a: nat, b: nat)
    requires
        base62(a) == base62(b),
    ensures
        a == b,
    decreases a,
{
    anchor_is_not_empty(a / 62);
    anchor_is_not_empty(b / 62);
    if a < 62 && b < 62 {
        assert(base62(a)[0] == alphanumeric(a));
        assert(base62(b)[0] == alphanumeric(b));
        alphanumerics_differ(a, b);
    } else if a < 62 {
        assert(base62(b).len() >= 2);
    } else if b < 62 {
        assert(base62(a).len() >= 2);
    } else {
        assert(base62(a).last() == alphanumeric(a % 62));
        assert(base62(b).last() == alphanumeric(b % 62));
        alphanumerics_differ(a % 62, b % 62);
        assert(base62(a).drop_last() =~= base62(a / 62));
        assert(base62(b).drop_last() =~= base62(b / 62));
        anchors_differ(a / 62, b / 62);
    }
}

proof fn anchor_is_not_empty(a: nat)
    ensures
        base62(a).len() >= 1,
    decreases a,
{
    if a >= 62 {
        anchor_is_not_empty(a / 62);
    }
}

/// The number that a digit among 0-9 and A-V denotes.
pub open spec fn digit32_value(c: char) -> int {
    if '0' <= c <= '9' {
        c as int - '0' as int
    } else {
        c as int - 'A' as int + 10
    }
}

/// The number that four digits to base 32 denote, the highest first.
pub open spec fn base32_value(s: Seq<char>) -> int {
    ((digit32_value(s[0]) * 32 + digit32_value(s[1])) * 32 + digit32_value(s[2])) * 32
        + digit32_value(s[3])
}

/// The four digits of a number below 32 to the fourth power denote it.
pub proof fn image_numbers_read_back(v: nat)
    requires
        v < 0x10_0000,
    ensures
        base32(v).len() == 4,
        base32_value(base32(v)) == v,
        forall|i: int|
            0 <= i < 4 ==> '0' <= #[trigger] base32(v)[i] <= '9' || 'A' <= base32(v)[i] <= 'V',
{
    let s = base32(v);
    assert(digit32_value(s[0]) == v / 0x8000);
    assert(digit32_value(s[1]) == v / 0x400 % 32);
    assert(digit32_value(s[2]) == v / 0x20 % 32);
    assert(digit32_value(s[3]) == v % 32);
}

/// A source attribute embeds image number `n`, counted from one.
pub open spec fn embeds_image(attribute: Seq<char>, n: int) -> bool {
    exists|digits: Seq<char>|
        digits.len() == 4 && #[trigger] base32_value(digits) == n && attribute == "src=\"kindle:embed:"@ + digits
            + "?mime=image/jpeg\""@
}

/// A source attribute gives image number `n`, counted from one, in at least five digits.
pub open spec fn gives_image(attribute: Seq<char>, n: int) -> bool {
    exists|digits: Seq<char>|
        digits.len() >= 5 && #[trigger] decimal_value(digits) == n && attribute == "recindex=\""@
            + digits + "\""@
}

/// No attribute embeds two images.
pub proof fn embedded_images_differ(attribute: Seq<char>, a: int, b: int)
    requires
        embeds_image(attribute, a),
        embeds_image(attribute, b),
    ensures
        a == b,
{
    let x = choose|d: Seq<char>|
        d.len() == 4 && #[trigger] base32_value(d) == a && attribute == "src=\"kindle:embed:"@ + d
            + "?mime=image/jpeg\""@;
    let y = choose|d: Seq<char>|
        d.len() == 4 && #[trigger] base32_value(d) == b && attribute == "src=\"kindle:embed:"@ + d
            + "?mime=image/jpeg\""@;
    let n = "src=\"kindle:embed:"@.len() as int;
    assert(attribute.subrange(n, n + 4) =~= x);
    assert(attribute.subrange(n, n + 4) =~= y);
}

/// In a KF8 text, a source attribute whose path is that of an image embeds that image, by its number
/// counted from one; so does one whose path is no form of any image but ends in the file name of
/// that image. An attribute whose path refers to none stays as it is.
pub proof fn sources_embed_their_images(
    hrefs: Seq<Seq<char>>,
    nested: bool,
    m: Seq<Option<Seq<char>>>,
    i: int,
)
    requires
        0 <= i < hrefs.len() < 0x10_0000,
    ensures
        ({
            let paths = path_forms(hrefs, nested);
            let path = group(m, 1);
            &&& is_last_key(hrefs, hrefs[i], i) && path == hrefs[i] ==> embeds_image(
                embedded_source(paths, m),
                i + 1,
            )
            &&& is_last_key(hrefs, hrefs[i], i) && paths.plain_index(path) is None && last_segment(
                path,
            ) == hrefs[i] ==> embeds_image(embedded_source(paths, m), i + 1)
            &&& paths.plain_index(path) matches Some(k) ==> embeds_image(
                embedded_source(paths, m),
                k + 1int,
            )
            &&& paths.plain_index(path) is None ==> (paths.plain_index(
                last_segment(path),
            ) matches Some(k) ==> embeds_image(embedded_source(paths, m), k + 1int))
            &&& paths.plain_index(path) is None && paths.plain_index(last_segment(path)) is None
                ==> embedded_source(paths, m) == group(m, 0)
        }),
{
    let paths = path_forms(hrefs, nested);
    let path = group(m, 1);
    if is_last_key(hrefs, hrefs[i], i) {
        own_paths_refer_to_images(hrefs, nested, i);
    }
    let found = kf8_image(paths, path);
    if let Some(k) = found {
        if paths.plain_index(path) is Some {
            references_have_the_form_of_their_image(hrefs, nested, path, k);
        } else {
            references_have_the_form_of_their_image(hrefs, nested, last_segment(path), k);
        }
        image_numbers_read_back(k + 1);
        let digits = base32(k + 1);
        assert(digits.len() == 4 && base32_value(digits) == k + 1);
        assert(embeds_image(embedded_source(paths, m), k + 1int));
    }
}

/// In the plain text of a book, a source attribute whose path is that of an image gives the number of
/// that image, counted from one; any path that refers to an image, as it stands, decoded, or by its
/// file name, gives the number of that one, in this order. An attribute whose path refers to none
/// stays as it is.
pub proof fn sources_give_their_images(
    hrefs: Seq<Seq<char>>,
    nested: bool,
    m: Seq<Option<Seq<char>>>,
    i: int,
)
    requires
        0 <= i < hrefs.len(),
    ensures
        ({
            let paths = path_forms(hrefs, nested);
            let path = group(m, 1);
            let plain = percent_decoded(utf8(path));
            &&& is_last_key(hrefs, hrefs[i], i) && path == hrefs[i] ==> gives_image(
                numbered_source(paths, m),
                i + 1,
            )
            &&& paths.decoded_index(path) matches Some(k) ==> gives_image(
                numbered_source(paths, m),
                k + 1int,
            )
            &&& paths.decoded_index(path) is None ==> (paths.decoded_index(plain) matches Some(k)
                ==> gives_image(numbered_source(paths, m), k + 1int))
            &&& paths.decoded_index(path) is None && paths.decoded_index(plain) is None ==> (
            paths.decoded_index(last_segment(path)) matches Some(k) ==> gives_image(
                numbered_source(paths, m),
                k + 1int,
            ))
            &&& paths.decoded_index(path) is None && paths.decoded_index(plain) is None
                && paths.decoded_index(last_segment(path)) is None ==> numbered_source(paths, m)
                == group(m, 0)
        }),
{
    let paths = path_forms(hrefs, nested);
    let path = group(m, 1);
    if is_last_key(hrefs, hrefs[i], i) {
        own_paths_refer_to_images(hrefs, nested, i);
    }
    if let Some(k) = text_image(paths, path) {
        decimals_read_back(k + 1, 5);
        let digits = padded_decimal(k + 1, 5);
        assert(decimal_value(digits) == k + 1);
        assert(gives_image(numbered_source(paths, m), k + 1int));
    }
}

/// Texts joined with a separator are the first ones joined, the separator, and the others joined; one
/// text alone is itself.
pub proof fn joined_texts_follow_each_other(a: Seq<Seq<char>>, b: Seq<Seq<char>>, sep: Seq<char>)
    requires
        a.len() > 0,
        b.len() > 0,
    ensures
        joined(a + b, sep) == joined(a, sep) + sep + joined(b, sep),
        b.len() == 1 ==> joined(b, sep) == b[0],
    decreases b.len(),
{
    assert((a + b).drop_last() =~= a + b.drop_last());
    assert((a + b).last() == b.last());
    if b.len() == 1 {
        assert(a + b.drop_last() =~= a);
    } else {
        joined_texts_follow_each_other(a, b.drop_last(), sep);
        assert(joined(a + b, sep) =~= joined(a, sep) + sep + joined(b, sep));
    }
}

/// The text of a book or dictionary is the head of the first document that has one, or an empty guide,
/// and the bodies of all documents in their order, a page break behind each. The body of a document is
/// what its first body element holds, trimmed, or all of it where it has none.
pub proof fn text_holds_all_bodies(a: Seq<Seq<char>>, b: Seq<Seq<char>>, strip_idx: bool) -> (all: Seq<
    Seq<char>,
>)
    ensures
        all.len() == a.len() + b.len(),
        forall|i: int|
            0 <= i < all.len() ==> {
                let document = shown((a + b)[i], strip_idx);
                let found = regex_found(source(Pattern::Body), document);
                #[trigger] all[i] == if found.len() > 0 {
                    trimmed(group(found[0], 1))
                } else {
                    document
                }
            },
        exists|head: Seq<char>|
            text_content(a + b, strip_idx) == "<html>"@ + head + #[trigger] ("<body>"@ + joined(
                all,
                "<mbp:pagebreak/>"@,
            ) + "  <mbp:pagebreak/></body></html>"@),
        a.len() > 0 && b.len() > 0 ==> joined(all, "<mbp:pagebreak/>"@) == joined(
            all.take(a.len() as int),
            "<mbp:pagebreak/>"@,
        ) + "<mbp:pagebreak/>"@ + joined(all.skip(a.len() as int), "<mbp:pagebreak/>"@),
{
    let documents = all_shown(a + b, strip_idx);
    let all = all_bodies(documents);
    let head = match first_head(documents) {
        Some(t) => t,
        None => "<head><guide></guide></head>"@,
    };
    let body = "<body>"@ + joined(all, "<mbp:pagebreak/>"@) + "  <mbp:pagebreak/></body></html>"@;
    assert(text_content(a + b, strip_idx) =~= "<html>"@ + head + body);
    if a.len() > 0 && b.len() > 0 {
        let front = all.take(a.len() as int);
        let back = all.skip(a.len() as int);
        assert(front + back =~= all);
        joined_texts_follow_each_other(front, back, "<mbp:pagebreak/>"@);
    }
    all
}

/// The head of the text is that of the first document that has one, whatever documents follow.
pub proof fn first_head_counts(documents: Seq<Seq<char>>, i: int)
    requires
        0 <= i < documents.len(),
        regex_found(source(Pattern::Head), documents[i]).len() > 0,
        forall|k: int|
            0 <= k < i ==> regex_found(source(Pattern::Head), #[trigger] documents[k]).len() == 0,
    ensures
        first_head(documents) == Some(group(regex_found(source(Pattern::Head), documents[i])[0], 0)),
    decreases documents.len(),
{
    let rest = documents.drop_last();
    if i < documents.len() - 1 {
        assert(rest[i] == documents[i]);
        assert forall|k: int| 0 <= k < i implies regex_found(
            source(Pattern::Head),
            #[trigger] rest[k],
        ).len() == 0 by {
            assert(rest[k] == documents[k]);
        }
        first_head_counts(rest, i);
    } else {
        no_head_without_documents(rest);
    }
}

proof fn no_head_without_documents(documents: Seq<Seq<char>>)
    requires
        forall|k: int|
            0 <= k < documents.len() ==> regex_found(
                source(Pattern::Head),
                #[trigger] documents[k],
            ).len() == 0,
    ensures
        first_head(documents) is None,
    decreases documents.len(),
{
    if documents.len() > 0 {
        let rest = documents.drop_last();
        assert forall|k: int| 0 <= k < rest.len() implies regex_found(
            source(Pattern::Head),
            #[trigger] rest[k],
        ).len() == 0 by {
            assert(rest[k] == documents[k]);
        }
        no_head_without_documents(rest);
        let last = documents[documents.len() - 1];
        assert(regex_found(source(Pattern::Head), last).len() == 0);
    }
}

/// The guide takes the place of the first empty one and changes nothing else; a text without one, or
/// without a bold element, stays as it is.
pub proof fn guide_changes_nothing_else(text: Seq<u8>, guide: int)
    requires
        occurs_at(text, utf8("<guide></guide>"@), guide),
        forall|k: int| 0 <= k < guide ==> !#[trigger] occurs_at(text, utf8("<guide></guide>"@), k),
    ensures
        exists|entry: Seq<u8>|
            with_guide(text) == text.take(guide) + #[trigger] (entry + text.skip(guide + 15)),
        (forall|k: int| 0 <= k ==> !#[trigger] occurs_at(text, utf8("<b>"@), k)) ==> with_guide(text)
            == text,
{
    literal_lengths();
    let empty = utf8("<guide></guide>"@);
    first_from_is_first(text, empty, 0);
    first_from_is_first(text, utf8("<b>"@), 0);
    assert(first_from(text, empty, 0) == Some(guide));
    match first_from(text, utf8("<b>"@), 0) {
        Some(bold) => {
            let entry = utf8(guide_entry((bold + 64) as nat));
            assert(with_guide(text) =~= text.take(guide) + (entry + text.skip(guide + 15)));
        },
        None => {
            assert(text =~= text.take(guide) + (empty + text.skip(guide + 15)));
        },
    }
}

/// The tags of a document are numbered one behind the other, and the next document goes on where it
/// stopped; among fewer than 2 to the 32nd tags no number occurs twice.
pub proof fn tags_have_numbers_of_their_own(
    first: u32,
    found: Seq<Seq<Option<Seq<char>>>>,
    j: int,
    k: int,
)
    requires
        0 <= j < k < found.len(),
        k - j < 0x1_0000_0000,
    ensures
        exists|a: nat, b: nat|
            {
                &&& a != b
                &&& a == (first + j) % 0x1_0000_0000
                &&& b == (first + k) % 0x1_0000_0000
                &&& anchored_tags(first, found)[j] == "<"@ + group(found[j], 1) + " aid=\""@
                    + #[trigger] base62(a) + "\""@ + group(found[j], 2)
                &&& anchored_tags(first, found)[k] == "<"@ + group(found[k], 1) + " aid=\""@
                    + #[trigger] base62(b) + "\""@ + group(found[k], 2)
            },
        aid_after(aid_after(first, j as nat), (k - j) as nat) == aid_after(first, k as nat),
{
    let a = aid_after(first, j as nat) as nat;
    let b = aid_after(first, k as nat) as nat;
    assert(base62(a) == base62(a) && base62(b) == base62(b));
}

/// A space sets a headword off: it comes between the end of a bold element and the tag behind it, between
/// the end of a paragraph and a rule, and between a tag that closes itself and a bold element. Stated of
/// a text that has the gap once and no other.
pub proof fn headwords_are_set_off(a: Seq<char>, b: Seq<char>)
    ensures
        is_first_gap(a, "</b><"@, b) && is_absent("</p><hr"@, a + "</b> <"@ + b) && is_absent(
            "/><b>"@,
            a + "</b> <"@ + b,
        ) ==> respaced(a + "</b><"@ + b) == trimmed(a + "</b> <"@ + b),
        is_first_gap(a, "</p><hr"@, b) && is_absent("</b><"@, a + "</p><hr"@ + b) && is_absent(
            "/><b>"@,
            a + "</p> <hr"@ + b,
        ) ==> respaced(a + "</p><hr"@ + b) == trimmed(a + "</p> <hr"@ + b),
        is_first_gap(a, "/><b>"@, b) && is_absent("</b><"@, a + "/><b>"@ + b) && is_absent(
            "</p><hr"@,
            a + "/><b>"@ + b,
        ) ==> respaced(a + "/><b>"@ + b) == trimmed(a + "/> <b>"@ + b),
{
    reveal_strlit("</b><");
    reveal_strlit("</p><hr");
    reveal_strlit("/><b>");
    if is_first_gap(a, "</b><"@, b) {
        first_occurrence_is_exchanged(a, "</b><"@, b, "</b> <"@);
        absent_texts_are_not_exchanged(a + "</b> <"@ + b, "</p><hr"@, "</p> <hr"@);
        absent_texts_are_not_exchanged(a + "</b> <"@ + b, "/><b>"@, "/> <b>"@);
    }
    if is_first_gap(a, "</p><hr"@, b) {
        absent_texts_are_not_exchanged(a + "</p><hr"@ + b, "</b><"@, "</b> <"@);
        first_occurrence_is_exchanged(a, "</p><hr"@, b, "</p> <hr"@);
        absent_texts_are_not_exchanged(a + "</p> <hr"@ + b, "/><b>"@, "/> <b>"@);
    }
    if is_first_gap(a, "/><b>"@, b) {
        absent_texts_are_not_exchanged(a + "/><b>"@ + b, "</b><"@, "</b> <"@);
        absent_texts_are_not_exchanged(a + "/><b>"@ + b, "</p><hr"@, "</p> <hr"@);
        first_occurrence_is_exchanged(a, "/><b>"@, b, "/> <b>"@);
    }
}

/// A gap stands behind `a` for the first time, and nowhere in `b`.
pub open spec fn is_first_gap(a: Seq<char>, gap: Seq<char>, b: Seq<char>) -> bool {
    &&& forall|k: int| 0 <= k < a.len() ==> !begins_with(#[trigger] (a + gap + b).skip(k), gap)
    &&& is_absent(gap, b)
}

/// The regular expression finds nothing to exchange in a text.
pub open spec fn leaves(pattern: Seq<char>, by: Seq<char>, text: Seq<char>) -> bool {
    regex_replaced(pattern, text, by) == text
}

/// The HTML of a book loses its XML declarations, its prefixed namespace attributes and its default
/// namespace attribute, each also where there is nothing of the others, and white space at its ends;
/// where it has none of them, it stays.
pub proof fn books_lose_declarations(html: Seq<char>)
    ensures
        ({
            let xml = "<\\?xml[^?]*\\?>\\s*"@;
            let prefixed = "\\s+xmlns:\\w+=\"[^\"]*\""@;
            let plain = "\\s+xmlns=\"[^\"]*\""@;
            let a = regex_replaced(xml, html, ""@);
            let b = regex_replaced(prefixed, html, ""@);
            let c = regex_replaced(plain, html, ""@);
            &&& leaves(prefixed, ""@, a) && leaves(plain, ""@, a) ==> cleaned_book_html(html)
                == trimmed(a)
            &&& leaves(xml, ""@, html) && leaves(plain, ""@, b) ==> cleaned_book_html(html)
                == trimmed(b)
            &&& leaves(xml, ""@, html) && leaves(prefixed, ""@, html) ==> cleaned_book_html(html)
                == trimmed(c)
        }),
{
}

spec fn passed(list: Seq<(Seq<char>, Seq<char>)>, text: Seq<char>) -> Seq<char>
    decreases list.len(),
{
    if list.len() == 0 {
        text
    } else {
        regex_replaced(list.last().0, passed(list.drop_last(), text), list.last().1)
    }
}

proof fn one_pass_counts(list: Seq<(Seq<char>, Seq<char>)>, text: Seq<char>, i: int)
    requires
        0 <= i < list.len(),
        forall|k: int| 0 <= k < i ==> leaves((#[trigger] list[k]).0, list[k].1, text),
        forall|k: int|
            i < k < list.len() ==> leaves(
                (#[trigger] list[k]).0,
                list[k].1,
                regex_replaced(list[i].0, text, list[i].1),
            ),
    ensures
        passed(list, text) == regex_replaced(list[i].0, text, list[i].1),
    decreases list.len(),
{
    let rest = list.drop_last();
    let last = list[list.len() - 1];
    if i == list.len() - 1 {
        passes_leave(rest, text);
    } else {
        one_pass_counts(rest, text, i);
        assert(leaves(last.0, last.1, regex_replaced(list[i].0, text, list[i].1)));
    }
}

proof fn passes_leave(list: Seq<(Seq<char>, Seq<char>)>, text: Seq<char>)
    requires
        forall|k: int| 0 <= k < list.len() ==> leaves((#[trigger] list[k]).0, list[k].1, text),
    ensures
        passed(list, text) == text,
    decreases list.len(),
{
    if list.len() > 0 {
        passes_leave(list.drop_last(), text);
        let last = list[list.len() - 1];
        assert(leaves(last.0, last.1, text));
    }
}

/// The HTML of a dictionary loses each kind of index markup, also where there is nothing of the others:
/// what one of the regular expressions finds is exchanged, and the spaces around headwords are put back.
pub proof fn dictionaries_lose_index_markup(html: Seq<char>, i: int)
    requires
        0 <= i < 15,
    ensures
        ({
            let list = seq![
                ("<\\?xml[^?]*\\?>\\s*"@, ""@),
                ("\\s+xmlns:\\w+=\"[^\"]*\""@, ""@),
                ("(?s)<head>.*?</head>"@, "<head><guide></guide></head>"@),
                ("<idx:iform[^/]*/>\\s*"@, ""@),
                ("<idx:infl>\\s*</idx:infl>\\s*"@, ""@),
                ("(?s)\\s*<idx:infl>.*?</idx:infl>\\s*"@, ""@),
                ("<idx:orth[^>]*/>"@, ""@),
                ("<idx:orth[^>]*>"@, ""@),
                ("</idx:orth>"@, ""@),
                ("<idx:short>\\s*"@, ""@),
                ("\\s*</idx:short>"@, ""@),
                ("<idx:entry[^>]*>\\s*"@, ""@),
                ("\\s*</idx:entry>"@, ""@),
                ("\\s+"@, " "@),
                (">\\s+<"@, "><"@),
            ];
            let x = regex_replaced(list[i].0, html, list[i].1);
            (forall|k: int| 0 <= k < i ==> leaves((#[trigger] list[k]).0, list[k].1, html)) && (forall|
                k: int,
            |
                i < k < 15 ==> leaves((#[trigger] list[k]).0, list[k].1, x)) ==> stripped_index_html(
                html,
            ) == respaced(x)
        }),
{
    let list = seq![
        ("<\\?xml[^?]*\\?>\\s*"@, ""@),
        ("\\s+xmlns:\\w+=\"[^\"]*\""@, ""@),
        ("(?s)<head>.*?</head>"@, "<head><guide></guide></head>"@),
        ("<idx:iform[^/]*/>\\s*"@, ""@),
        ("<idx:infl>\\s*</idx:infl>\\s*"@, ""@),
        ("(?s)\\s*<idx:infl>.*?</idx:infl>\\s*"@, ""@),
        ("<idx:orth[^>]*/>"@, ""@),
        ("<idx:orth[^>]*>"@, ""@),
        ("</idx:orth>"@, ""@),
        ("<idx:short>\\s*"@, ""@),
        ("\\s*</idx:short>"@, ""@),
        ("<idx:entry[^>]*>\\s*"@, ""@),
        ("\\s*</idx:entry>"@, ""@),
        ("\\s+"@, " "@),
        (">\\s+<"@, "><"@),
    ];
    let x = regex_replaced(list[i].0, html, list[i].1);
    if (forall|k: int| 0 <= k < i ==> leaves((#[trigger] list[k]).0, list[k].1, html)) && (forall|k: int|
        i < k < 15 ==> leaves((#[trigger] list[k]).0, list[k].1, x)) {
        one_pass_counts(list, html, i);
        passes_are_stripping(list, html);
    }
}

proof fn passes_are_stripping(list: Seq<(Seq<char>, Seq<char>)>, html: Seq<char>)
    requires
        list.len() == 15,
        list[0] == (source(Pattern::XmlDeclaration), ""@),
        list[1] == (source(Pattern::PrefixedNamespace), ""@),
        list[2] == (source(Pattern::BareHead), "<head><guide></guide></head>"@),
        list[3] == (source(Pattern::InflectedForm), ""@),
        list[4] == (source(Pattern::EmptyInflections), ""@),
        list[5] == (source(Pattern::Inflections), ""@),
        list[6] == (source(Pattern::ClosedOrth), ""@),
        list[7] == (source(Pattern::OpenOrth), ""@),
        list[8] == (source(Pattern::CloseOrth), ""@),
        list[9] == (source(Pattern::OpenShort), ""@),
        list[10] == (source(Pattern::CloseShort), ""@),
        list[11] == (source(Pattern::OpenEntry), ""@),
        list[12] == (source(Pattern::CloseEntry), ""@),
        list[13] == (source(Pattern::Space), " "@),
        list[14] == (source(Pattern::TagGap), "><"@),
    ensures
        stripped_index_html(html) == respaced(passed(list, html)),
{
    first_passes(list, html, 0);
    first_passes(list, html, 1);
    first_passes(list, html, 2);
    first_passes(list, html, 3);
    first_passes(list, html, 4);
    first_passes(list, html, 5);
    first_passes(list, html, 6);
    first_passes(list, html, 7);
    first_passes(list, html, 8);
    first_passes(list, html, 9);
    first_passes(list, html, 10);
    first_passes(list, html, 11);
    first_passes(list, html, 12);
    first_passes(list, html, 13);
    first_passes(list, html, 14);
    assert(list.take(15) =~= list);
    assert(list.take(0) =~= seq![]);
}

proof fn first_passes(list: Seq<(Seq<char>, Seq<char>)>, html: Seq<char>, n: int)
    requires
        0 <= n < list.len(),
    ensures
        passed(list.take(n + 1), html) == regex_replaced(
            list[n].0,
            passed(list.take(n), html),
            list[n].1,
        ),
{
    assert(list.take(n + 1).drop_last() =~= list.take(n));
}

} // verus!
