//! From the files of a package to the file of a dictionary or book.

use vstd::prelude::*;

use crate::dictionary::{any_entry_markup, detect_dictionary};
use crate::exth::{data_of, exth_block, one_text, or_nothing, records_at, FixedLayoutMeta};
use crate::header::{field, full_name, Metadata};
use crate::lookup::{build_dictionary, is_dictionary, DictionaryOptions};
use crate::markup::{join_styles, joined};
use crate::mobi::{
    book_file, book_metadata, book_tells_its_metadata, build_book_mobi, build_kind, fits, opt_bytes,
    Book, BookOptions, BuildError, BuildKind, Image,
};
use crate::package::{
    all_entries, cover_is_the_named_file, cover_of, documents_of, first_metadata_counts,
    is_first_file, is_first_meta, is_fixed, meta_value, pairs, Package, PackageText,
};
use crate::palmdb::palmdb;
use crate::pattern::texts;
use crate::text::{chars_of, opt_string, utf8};

verus! {

/// How to build the file of a package.
#[derive(Debug, Clone, Copy)]
pub struct BuildOptions {
    pub no_compress: bool,
    /// Only the headwords of a dictionary can be looked up.
    pub headwords_only: bool,
    pub include_cmet: bool,
    pub hd_images: bool,
    pub creator_tag: bool,
    /// Build a book in KF8 alone.
    pub kf8_only: bool,
}

/// The text, where it is not empty.
pub open spec fn some_text(text: Seq<char>) -> Option<Seq<char>> {
    if text.len() == 0 {
        None
    } else {
        Some(text)
    }
}

/// The metadata of a package.
pub open spec fn is_metadata_of(m: Metadata, p: PackageText) -> bool {
    &&& m.title@ == p.title
    &&& m.author@ == p.author
    &&& m.date@ == p.date
    &&& m.language@ == p.language
    &&& m.dict_in_language@ == p.dict_in_language
    &&& m.dict_out_language@ == p.dict_out_language
    &&& m.doc_type is None
    &&& opt_string(m.description) == some_text(p.description)
    &&& opt_string(m.subject) == some_text(p.subject)
    &&& opt_string(m.series) == meta_value(p.metas, "calibre:series"@, 0)
    &&& opt_string(m.series_index) == meta_value(p.metas, "calibre:series_index"@, 0)
}

/// A book with the metadata, the documents in reading order, the cover and the layout of a package.
pub open spec fn is_book_of(
    book: Book,
    p: PackageText,
    documents: Seq<Seq<char>>,
    sheets: Seq<Seq<char>>,
    images: Seq<Image>,
) -> bool {
    &&& is_metadata_of(book.meta, p)
    &&& texts(book.documents@) == documents
    &&& book.css@ == joined(sheets, "\n"@)
    &&& book.images@ == images
    &&& opt_string(book.cover_href) == cover_of(p)
    &&& pairs(book.spine_items@) == documents_of(p.spine, p.manifest)
    &&& book.layout.is_fixed_layout == is_fixed(p)
    &&& opt_string(book.layout.original_resolution) == meta_value(
        p.metas,
        "original-resolution"@,
        0,
    )
    &&& opt_string(book.layout.page_progression_direction) == p.direction
}

fn non_empty(text: &String) -> (r: Option<String>)
    ensures
        opt_string(r) == some_text(text@),
{
    let chars = chars_of(text.as_str());
    if chars.len() == 0 {
        None
    } else {
        Some(text.clone())
    }
}

/// The metadata of a package, as the headers of a file hold it.
pub fn metadata_of(package: &Package) -> (r: Metadata)
    ensures
        is_metadata_of(r, package@),
{
    Metadata {
        title: package.title.clone(),
        author: package.author.clone(),
        date: package.date.clone(),
        language: package.language.clone(),
        dict_in_language: package.dict_in_language.clone(),
        dict_out_language: package.dict_out_language.clone(),
        doc_type: None,
        description: non_empty(&package.description),
        subject: non_empty(&package.subject),
        series: package.meta("calibre:series"),
        series_index: package.meta("calibre:series_index"),
    }
}

/// The book of a package, from the contents of its files.
pub fn book_of(
    package: &Package,
    documents: Vec<String>,
    sheets: &Vec<String>,
    images: Vec<Image>,
) -> (r: Book)
    ensures
        is_book_of(r, package@, texts(documents@), texts(sheets@), images@),
{
    let page_progression_direction = match &package.direction {
        Some(d) => Some(d.clone()),
        None => None,
    };
    Book {
        meta: metadata_of(package),
        documents,
        css: join_styles(sheets),
        images,
        cover_href: package.cover(),
        spine_items: package.documents(),
        layout: FixedLayoutMeta {
            is_fixed_layout: package.is_fixed_layout(),
            original_resolution: package.meta("original-resolution"),
            page_progression_direction,
        },
    }
}

/// The options that count for a book.
pub open spec fn book_options(options: BuildOptions) -> BookOptions {
    BookOptions {
        no_compress: options.no_compress,
        include_cmet: options.include_cmet,
        hd_images: options.hd_images,
        creator_tag: options.creator_tag,
        kf8_only: options.kf8_only,
    }
}

/// The options that count for a dictionary.
pub open spec fn dictionary_options(options: BuildOptions) -> DictionaryOptions {
    DictionaryOptions {
        headwords_only: options.headwords_only,
        no_compress: options.no_compress,
        include_cmet: options.include_cmet,
        creator_tag: options.creator_tag,
    }
}

/// The file of a package with dictionary entries.
pub open spec fn is_dictionary_file(
    file: Seq<u8>,
    p: PackageText,
    documents: Seq<Seq<char>>,
    options: BuildOptions,
    srcs: Option<Seq<u8>>,
    now: u32,
) -> bool {
    exists|meta: Metadata|
        #![trigger is_metadata_of(meta, p)]
        is_metadata_of(meta, p) && is_dictionary(
            file,
            meta,
            documents,
            dictionary_options(options),
            srcs,
            now,
        )
}

/// The file of a package without dictionary entries.
pub open spec fn is_book_file(
    file: Seq<u8>,
    p: PackageText,
    documents: Seq<Seq<char>>,
    sheets: Seq<Seq<char>>,
    images: Seq<Image>,
    options: BuildOptions,
    srcs: Option<Seq<u8>>,
    now: u32,
) -> bool {
    exists|book: Book|
        #![trigger is_book_of(book, p, documents, sheets, images)]
        is_book_of(book, p, documents, sheets, images) && file == palmdb(
            full_name(book.meta.title@, false),
            book_file(book, book_options(options), srcs),
            now,
        )
}

/// Builds the file of a package from the contents of its documents, style sheets and images: a
/// dictionary where a document has dictionary entries, else a book.
///
/// `now` is the time of creation as a Palm OS timestamp.
pub fn build_mobi(
    package: &Package,
    documents: Vec<String>,
    sheets: &Vec<String>,
    images: Vec<Image>,
    options: BuildOptions,
    srcs_data: Option<&[u8]>,
    now: u32,
) -> (r: Result<Vec<u8>, BuildError>)
    ensures
        ({
            let contents = texts(documents@);
            let srcs = opt_bytes(srcs_data);
            if any_entry_markup(documents@) && options.kf8_only {
                r == Err::<Vec<u8>, BuildError>(BuildError::Kf8OnlyDictionary)
            } else if any_entry_markup(documents@) && all_entries(contents).len() == 0 {
                r == Err::<Vec<u8>, BuildError>(BuildError::NoEntries)
            } else if any_entry_markup(documents@) {
                r is Ok && is_dictionary_file(
                    (r->Ok_0)@,
                    package@,
                    contents,
                    options,
                    srcs,
                    now,
                )
            } else {
                r is Ok && is_book_file(
                    (r->Ok_0)@,
                    package@,
                    contents,
                    texts(sheets@),
                    images@,
                    options,
                    srcs,
                    now,
                )
            }
        }),
{
    let kind = match build_kind(detect_dictionary(&documents), options.kf8_only) {
        Ok(kind) => kind,
        Err(e) => return Err(e),
    };
    if kind == BuildKind::Dictionary {
        let meta = metadata_of(package);
        let chosen = DictionaryOptions {
            headwords_only: options.headwords_only,
            no_compress: options.no_compress,
            include_cmet: options.include_cmet,
            creator_tag: options.creator_tag,
        };
        let r = build_dictionary(&meta, &documents, chosen, srcs_data, now);
        assert(is_metadata_of(meta, package@));
        return r;
    }
    let chosen = BookOptions {
        no_compress: options.no_compress,
        include_cmet: options.include_cmet,
        hd_images: options.hd_images,
        creator_tag: options.creator_tag,
        kf8_only: options.kf8_only,
    };
    let book = book_of(package, documents, sheets, images);
    let file = build_book_mobi(&book, chosen, srcs_data, now);
    assert(is_book_of(book, package@, texts(documents@), texts(sheets@), images@));
    Ok(file)
}

/// The file of a book is that of its package: its documents, images and styles are those of the package
/// in their order, its cover is the file that the package names, and its metadata says what the package
/// does.
pub proof fn books_are_those_of_their_package(
    book: Book,
    p: PackageText,
    documents: Seq<Seq<char>>,
    sheets: Seq<Seq<char>>,
    images: Seq<Image>,
)
    requires
        is_book_of(book, p, documents, sheets, images),
    ensures
        book.images@ == images,
        book.documents@.len() == documents.len(),
        forall|i: int|
            0 <= i < documents.len() ==> (#[trigger] book.documents@[i])@ == documents[i],
        sheets.len() == 1 ==> book.css@ == sheets[0],
        forall|i: int, j: int|
            #![trigger is_first_meta(p.metas, "cover"@, i), is_first_file(p.manifest, p.metas[i].1, j)]
            is_first_meta(p.metas, "cover"@, i) && is_first_file(p.manifest, p.metas[i].1, j)
                ==> opt_string(book.cover_href) == Some(p.manifest[j].href),
        book.meta.title@ == p.title,
        book.meta.author@ == p.author,
        book.meta.date@ == p.date,
        book.meta.language@ == p.language,
        or_nothing(opt_string(book.meta.description)) == p.description,
        or_nothing(opt_string(book.meta.subject)) == p.subject,
        forall|i: int| #[trigger]
            is_first_meta(p.metas, "calibre:series"@, i) ==> opt_string(book.meta.series) == Some(
                p.metas[i].1,
            ),
        forall|i: int| #[trigger]
            is_first_meta(p.metas, "calibre:series_index"@, i) ==> opt_string(
                book.meta.series_index,
            ) == Some(p.metas[i].1),
        book.layout.is_fixed_layout == is_fixed(p),
        opt_string(book.layout.page_progression_direction) == p.direction,
        forall|i: int| #[trigger]
            is_first_meta(p.metas, "original-resolution"@, i) ==> opt_string(
                book.layout.original_resolution,
            ) == Some(p.metas[i].1),
{
    cover_is_the_named_file(p);
    first_metadata_counts(p.metas, "calibre:series"@);
    first_metadata_counts(p.metas, "calibre:series_index"@);
    first_metadata_counts(p.metas, "original-resolution"@);
    assert(texts(book.documents@).len() == book.documents@.len());
    assert forall|i: int| 0 <= i < documents.len() implies (#[trigger] book.documents@[i])@
        == documents[i] by {
        assert(texts(book.documents@)[i] == book.documents@[i]@);
    }
    assert(p.description =~= or_nothing(some_text(p.description)));
    assert(p.subject =~= or_nothing(some_text(p.subject)));
}

/// A dictionary says what its package does: its title, author, date and languages.
pub proof fn dictionaries_are_those_of_their_package(m: Metadata, p: PackageText)
    requires
        is_metadata_of(m, p),
    ensures
        m.title@ == p.title,
        m.author@ == p.author,
        m.date@ == p.date,
        m.language@ == p.language,
        m.dict_in_language@ == p.dict_in_language,
        m.dict_out_language@ == p.dict_out_language,
{
}

/// A book tells its package: the records of its metadata hold the author, the date, the language, the
/// description and the subject of the package, each where it is not empty, and its name is the title.
pub proof fn book_files_tell_their_package(
    book: Book,
    p: PackageText,
    documents: Seq<Seq<char>>,
    sheets: Seq<Seq<char>>,
    images: Seq<Image>,
    options: BuildOptions,
    srcs: Option<Seq<u8>>,
)
    requires
        is_book_of(book, p, documents, sheets, images),
        fits(book, book_options(options), srcs),
    ensures
        ({
            let head = book_file(book, book_options(options), srcs)[0];
            let list = book_metadata(book, book_options(options), srcs);
            let block = exth_block(list);
            let at = field(head, 68);
            &&& head.subrange(280, 280int + block.len()) == block
            &&& records_at(block, 12, list.len()) == list
            &&& p.title.len() > 0 ==> head.subrange(at, at + utf8(p.title).len()) == utf8(p.title)
            &&& data_of(list, 100) == one_text(p.author)
            &&& data_of(list, 106) == one_text(p.date)
            &&& data_of(list, 524) == one_text(p.language)
            &&& data_of(list, 103) == one_text(p.description)
            &&& data_of(list, 105) == one_text(p.subject)
            &&& forall|i: int| #[trigger]
                is_first_meta(p.metas, "calibre:series"@, i) ==> data_of(list, 112) == one_text(
                    p.metas[i].1,
                )
            &&& forall|i: int| #[trigger]
                is_first_meta(p.metas, "calibre:series_index"@, i) ==> data_of(list, 113)
                    == one_text(p.metas[i].1)
        }),
{
    book_tells_its_metadata(book, book_options(options), srcs);
    books_are_those_of_their_package(book, p, documents, sheets, images);
}

/// The options that were given are those that a book or dictionary is built with.
pub proof fn options_are_passed_on(options: BuildOptions)
    ensures
        book_options(options).no_compress == options.no_compress,
        book_options(options).include_cmet == options.include_cmet,
        book_options(options).hd_images == options.hd_images,
        book_options(options).creator_tag == options.creator_tag,
        book_options(options).kf8_only == options.kf8_only,
        dictionary_options(options).headwords_only == options.headwords_only,
        dictionary_options(options).no_compress == options.no_compress,
        dictionary_options(options).include_cmet == options.include_cmet,
        dictionary_options(options).creator_tag == options.creator_tag,
{
}

} // verus!
