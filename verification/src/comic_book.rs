//! A comic as a book.

use vstd::prelude::*;

use crate::comic::{ComicInfo, ComicMetadata, ComicOptions, DeviceProfile};
use crate::bytes::be32;
use crate::exth::{data_of, FixedLayoutMeta};
use crate::header::{field, full_name, Metadata};
use crate::images::with_density;
use crate::layout::{
    any_panels, build_comic_css, build_page_xhtml, comic_language, comic_title,
    documents_show_their_image, has_panels, info_view, page_document, page_number,
    page_numbers_differ, style_sheet, title_for, ComicPage,
};
use crate::markup::{join_texts, joined};
use crate::mobi::{
    book_file, book_metadata, build_book_mobi, covers_lead_to_their_image,
    dual_book_headers_lead_to_records, fits, image_record, opt_bytes, stand_at, stands_at, Book,
    BookOptions, Image,
};
use crate::palmdb::palmdb;
use crate::text::{decimal, holds, opt_string, padded_decimal, push_decimal, push_padded};

verus! {

/// What the metadata says of one thing.
pub open spec fn info_text(info: Option<ComicInfo>, text: spec_fn(ComicInfo) -> Option<Seq<char>>) -> Option<
    Seq<char>,
> {
    match info {
        Some(i) => text(i),
        None => None,
    }
}

/// What is known of a comic as a book.
pub open spec fn is_comic_meta(
    meta: Metadata,
    info: Option<ComicInfo>,
    options: ComicOptions,
) -> bool {
    &&& meta.title@ == comic_title(info, opt_string(options.title_override))
    &&& meta.author@ == match info {
        Some(i) => joined(i.writers + i.pencillers + i.inkers, ", "@),
        None => seq![],
    }
    &&& meta.date@.len() == 0
    &&& meta.language@ == comic_language(opt_string(options.language))
    &&& meta.dict_in_language@.len() == 0
    &&& meta.dict_out_language@.len() == 0
    &&& opt_string(meta.doc_type) == opt_string(options.doc_type)
    &&& opt_string(meta.description) == info_text(info, |i: ComicInfo| i.summary)
    &&& opt_string(meta.subject) == info_text(info, |i: ComicInfo| i.genre)
    &&& opt_string(meta.series) == info_text(info, |i: ComicInfo| i.series)
    &&& opt_string(meta.series_index) == info_text(info, |i: ComicInfo| i.number)
}

/// The path of the image of a page.
pub open spec fn image_path(i: nat) -> Seq<char> {
    "images/page_"@ + page_number(i) + ".jpg"@
}

/// The page `i` of a book shows the page `i` of a comic.
pub open spec fn is_page(book: Book, i: int, page: ComicPage, profile: DeviceProfile) -> bool {
    &&& book.documents@[i]@ == page_document(
        i as nat,
        profile.width as nat,
        profile.height as nat,
        page.panels@,
    )
    &&& book.images@[i].href@ == image_path(i as nat)
    &&& book.images@[i].data matches Some(d) && d@ == page.jpeg@
    &&& book.spine_items@[i].0@ == "page"@ + page_number(i as nat)
    &&& book.spine_items@[i].1@ == "page_"@ + page_number(i as nat) + ".xhtml"@
}

/// A comic as a book: a document and an image for each page, the first of which is the cover.
pub open spec fn is_comic_book(
    book: Book,
    pages: Seq<ComicPage>,
    profile: DeviceProfile,
    rtl: bool,
    info: Option<ComicInfo>,
    options: ComicOptions,
) -> bool {
    &&& is_comic_meta(book.meta, info, options)
    &&& book.css@ == style_sheet(options.panel_view && has_panels(pages))
    &&& book.documents@.len() == pages.len()
    &&& book.images@.len() == pages.len()
    &&& book.spine_items@.len() == pages.len()
    &&& forall|i: int| 0 <= i < pages.len() ==> is_page(book, i, #[trigger] pages[i], profile)
    &&& opt_string(book.cover_href) == if pages.len() > 0 {
        Some(image_path(0))
    } else {
        None
    }
    &&& book.layout.is_fixed_layout
    &&& opt_string(book.layout.original_resolution) == Some(
        decimal(profile.width as nat) + "x"@ + decimal(profile.height as nat),
    )
    &&& opt_string(book.layout.page_progression_direction) == Some(
        if rtl {
            "rtl"@
        } else {
            "ltr"@
        },
    )
}

fn copy_text(text: &Option<String>) -> (r: Option<String>)
    ensures
        opt_string(r) == opt_string(*text),
{
    match text {
        Some(t) => Some(t.clone()),
        None => None,
    }
}

fn comic_meta(metadata: Option<&ComicMetadata>, options: &ComicOptions) -> (r: Metadata)
    ensures
        is_comic_meta(r, info_view(metadata), *options),
{
    let language = match &options.language {
        Some(l) => l.clone(),
        None => "en".to_owned(),
    };
    let mut r = Metadata {
        title: title_for(metadata, &options.title_override),
        author: String::new(),
        date: String::new(),
        language,
        dict_in_language: String::new(),
        dict_out_language: String::new(),
        doc_type: copy_text(&options.doc_type),
        description: None,
        subject: None,
        series: None,
        series_index: None,
    };
    if let Some(m) = metadata {
        r.author = join_texts(&m.creators(), ", ");
        r.description = copy_text(&m.summary);
        r.subject = copy_text(&m.genre);
        r.series = copy_text(&m.series);
        r.series_index = copy_text(&m.number);
    }
    assert(r.author@ =~= match info_view(metadata) {
        Some(i) => joined(i.writers + i.pencillers + i.inkers, ", "@),
        None => seq![],
    });
    r
}

fn numbered(before: &str, i: usize, after: &str) -> (r: String)
    ensures
        r@ == before@ + page_number(i as nat) + after@,
{
    let mut r = String::new();
    r.append(before);
    push_padded(&mut r, i as u128, 4);
    r.append(after);
    assert(r@ =~= before@ + page_number(i as nat) + after@);
    r
}

/// Turns the pages of a comic into a book.
pub fn comic_book(
    pages: &[ComicPage],
    profile: &DeviceProfile,
    rtl: bool,
    metadata: Option<&ComicMetadata>,
    options: &ComicOptions,
) -> (r: Book)
    ensures
        is_comic_book(r, pages@, *profile, rtl, info_view(metadata), *options),
{
    let css = build_comic_css(options.panel_view && any_panels(pages));
    let mut resolution = String::new();
    push_decimal(&mut resolution, profile.width as u128);
    resolution.append("x");
    push_decimal(&mut resolution, profile.height as u128);
    assert(resolution@ =~= decimal(profile.width as nat) + "x"@ + decimal(profile.height as nat));
    let direction = if rtl {
        "rtl".to_owned()
    } else {
        "ltr".to_owned()
    };
    let cover = if pages.len() > 0 {
        Some(numbered("images/page_", 0, ".jpg"))
    } else {
        None
    };
    let mut book = Book {
        meta: comic_meta(metadata, options),
        documents: Vec::new(),
        css,
        images: Vec::new(),
        cover_href: cover,
        spine_items: Vec::new(),
        layout: FixedLayoutMeta {
            is_fixed_layout: true,
            original_resolution: Some(resolution),
            page_progression_direction: Some(direction),
        },
    };
    let mut documents: Vec<String> = Vec::new();
    let mut images: Vec<Image> = Vec::new();
    let mut spine: Vec<(String, String)> = Vec::new();
    let mut i: usize = 0;
    while i < pages.len()
        invariant
            i <= pages@.len(),
            documents@.len() == i,
            images@.len() == i,
            spine@.len() == i,
            forall|k: int|
                0 <= k < i ==> (#[trigger] documents@[k])@ == page_document(
                    k as nat,
                    profile.width as nat,
                    profile.height as nat,
                    pages@[k].panels@,
                ),
            forall|k: int|
                0 <= k < i ==> (#[trigger] images@[k]).href@ == image_path(k as nat) && (
                images@[k].data matches Some(d) && d@ == pages@[k].jpeg@),
            forall|k: int|
                0 <= k < i ==> (#[trigger] spine@[k]).0@ == "page"@ + page_number(k as nat)
                    && spine@[k].1@ == "page_"@ + page_number(k as nat) + ".xhtml"@,
        decreases pages.len() - i,
    {
        documents.push(build_page_xhtml(i, profile, &pages[i].panels));
        let mut data: Vec<u8> = Vec::new();
        data.extend_from_slice(&pages[i].jpeg);
        assert(data@ =~= pages@[i as int].jpeg@);
        images.push(Image { href: numbered("images/page_", i, ".jpg"), data: Some(data) });
        let id = numbered("page", i, "");
        proof {
            reveal_strlit("");
            assert("page"@ + page_number(i as nat) + ""@ =~= "page"@ + page_number(i as nat));
        }
        spine.push((id, numbered("page_", i, ".xhtml")));
        i += 1;
    }
    book.documents = documents;
    book.images = images;
    book.spine_items = spine;
    book
}

/// How a comic is built: compressed, with high-resolution images, in both formats.
pub open spec fn comic_build() -> BookOptions {
    BookOptions {
        no_compress: false,
        include_cmet: false,
        hd_images: true,
        creator_tag: false,
        kf8_only: false,
    }
}

/// The file of a comic, with an EPUB as its source where one is given.
pub fn build_comic_mobi(
    pages: &[ComicPage],
    profile: &DeviceProfile,
    rtl: bool,
    metadata: Option<&ComicMetadata>,
    options: &ComicOptions,
    source: Option<&[u8]>,
    now: u32,
) -> (r: Vec<u8>)
    ensures
        exists|book: Book|
            #[trigger] is_comic_book(book, pages@, *profile, rtl, info_view(metadata), *options)
                && r@ == palmdb(
                full_name(book.meta.title@, false),
                book_file(book, comic_build(), opt_bytes(source)),
                now,
            ),
{
    let book = comic_book(pages, profile, rtl, metadata, options);
    let build = BookOptions {
        no_compress: false,
        include_cmet: false,
        hd_images: true,
        creator_tag: false,
        kf8_only: false,
    };
    build_book_mobi(&book, build, source, now)
}

/// A comic as a book shows its pages in their order: page `i` has a document and an image of its own,
/// the image is that of the page, and the document shows the image with that number, whose path no other
/// image has. The first page is the cover, pages are fixed, and they turn as was asked for.
pub proof fn comics_show_their_pages(
    book: Book,
    pages: Seq<ComicPage>,
    profile: DeviceProfile,
    rtl: bool,
    info: Option<ComicInfo>,
    options: ComicOptions,
    i: int,
)
    requires
        is_comic_book(book, pages, profile, rtl, info, options),
        0 <= i < pages.len(),
    ensures
        book.documents@.len() == pages.len(),
        book.images@.len() == pages.len(),
        book.images@[i].data is Some,
        (book.images@[i].data->0)@ == pages[i].jpeg@,
        book.images@[i].href@ == "images/page_"@ + padded_decimal(i as nat, 4) + ".jpg"@,
        holds(
            book.documents@[i]@,
            "</title>\n</head>\n<body>\n  <div id=\"content\">\n    <img src=\"images/page_"@
                + padded_decimal(i as nat, 4) + ".jpg\" alt=\"Page "@,
        ),
        forall|k: int|
            0 <= k < pages.len() && k != i ==> (#[trigger] book.images@[k]).href@
                != book.images@[i].href@,
        opt_string(book.cover_href) == Some(book.images@[0].href@),
        book.layout.is_fixed_layout,
        rtl ==> opt_string(book.layout.page_progression_direction) == Some("rtl"@),
        !rtl ==> opt_string(book.layout.page_progression_direction) == Some("ltr"@),
{
    assert(is_page(book, i, pages[i], profile));
    assert(is_page(book, 0, pages[0], profile));
    documents_show_their_image(
        i as nat,
        profile.width as nat,
        profile.height as nat,
        pages[i].panels@,
    );
    assert forall|k: int| 0 <= k < pages.len() && k != i implies (#[trigger] book.images@[k]).href@
        != book.images@[i].href@ by {
        assert(is_page(book, k, pages[k], profile));
        let a = page_number(k as nat);
        let b = page_number(i as nat);
        if image_path(k as nat) == image_path(i as nat) {
            let n = "images/page_"@.len() as int;
            let e = ".jpg"@.len() as int;
            let x = image_path(k as nat);
            let y = image_path(i as nat);
            assert(x.subrange(n, x.len() - e) =~= a);
            assert(y.subrange(n, y.len() - e) =~= b);
            page_numbers_differ(k as nat, i as nat);
        }
    }
}

/// The file of a comic holds its pages: the record `i` places behind the first image record that its
/// header gives is the image of page `i`, and the cover that its metadata tells is the first of them.
pub proof fn comic_files_hold_their_pages(
    book: Book,
    pages: Seq<ComicPage>,
    profile: DeviceProfile,
    rtl: bool,
    info: Option<ComicInfo>,
    options: ComicOptions,
    srcs: Option<Seq<u8>>,
    i: int,
)
    requires
        is_comic_book(book, pages, profile, rtl, info, options),
        fits(book, comic_build(), srcs),
        0 <= i < pages.len(),
    ensures
        ({
            let file = book_file(book, comic_build(), srcs);
            &&& stands_at(file, field(file[0], 92) + i, with_density(pages[i].jpeg@))
            &&& data_of(book_metadata(book, comic_build(), srcs), 201) == seq![be32(0)]
        }),
{
    let file = book_file(book, comic_build(), srcs);
    let first = field(file[0], 92);
    let list = book.image_list();
    comics_show_their_pages(book, pages, profile, rtl, info, options, i);
    comics_show_their_pages(book, pages, profile, rtl, info, options, 0);
    dual_book_headers_lead_to_records(book, comic_build(), srcs);
    assert(list.len() == book.images@.len());
    assert(stand_at(file, first, list));
    assert(file.subrange(first, first + list.len())[i] == file[first + i]);
    assert(list[i] == image_record(book.images@[i]));
    covers_lead_to_their_image(book, comic_build(), srcs);
    assert(book.images@[0].data is Some);
}

/// What is known of a comic as a book is what was asked for and what its metadata says: the writers,
/// pencillers and inkers in this order are its authors, and it has the summary, genre, series and number
/// of the metadata.
pub proof fn comics_say_what_their_metadata_says(
    meta: Metadata,
    info: Option<ComicInfo>,
    options: ComicOptions,
)
    requires
        is_comic_meta(meta, info, options),
    ensures
        opt_string(options.title_override) is Some ==> Some(meta.title@) == opt_string(
            options.title_override,
        ),
        opt_string(options.language) is Some ==> Some(meta.language@) == opt_string(
            options.language,
        ),
        opt_string(options.language) is None ==> meta.language@ == "en"@,
        opt_string(meta.doc_type) == opt_string(options.doc_type),
        info is Some ==> {
            &&& opt_string(meta.description) == info->0.summary
            &&& opt_string(meta.subject) == info->0.genre
            &&& opt_string(meta.series) == info->0.series
            &&& opt_string(meta.series_index) == info->0.number
            &&& meta.author@ == joined(
                info->0.writers + info->0.pencillers + info->0.inkers,
                ", "@,
            )
        },
        info is None ==> meta.author@.len() == 0 && meta.series is None && meta.description is None,
{
}

} // verus!
