//! Whole MOBI files: dictionaries, books of both formats, and KF8 books.
use std::collections::HashSet;
use vstd::prelude::*;

use crate::bytes::{be32, flat, length32, low32, low32_of_small};
use crate::dictionary::{
    build_lookup_terms, entry_position, find_entry_positions, headword_chars, headword_set,
    lookup_terms, position_of, words, DictionaryEntry, LookupTable,
};
use crate::exth::{
    book_kinds, data_of, exth_block, exth_reads_back, has_kind, has_record, one_text,
    or_nothing, records_are_shorter_than_their_block, records_at, FixedLayoutMeta, Record,
};
use crate::header::{
    boundary_adds_length, build_cmet, build_eof, build_fcis, build_flis, build_kf8_record0,
    build_record0, build_srcs, end_record, fcis, field, flis, full_name, kf8_record0,
    kf8_record0_length, kf8_record0_reads_back, metadata_of_books_is_found, metadata_records,
    mobi_record0_length, record0,
    record0_reads_back, source_record, Kf8Fields, Metadata, MobiFields,
};
use crate::images::{
    build_hd_container, container, geometry, largest, patch_jfif_density, with_density,
};
use crate::kf8::{
    aid_before, build_kf8_section, chunk_index, contents_index, flow_table, fragments_of,
    kf8_source, kf8_text_holds_documents_and_styles, position_record, skeletons_of, Chunk, Kf8Section, Kf8Source,
};
use crate::markup::{
    build_text_content, clean_book_html, cleaned_book_html, embedded_source, embeds_image,
    gives_image, insert_guide_reference, kf8_part, numbered_source, numbered_sources,
    rewrite_image_src, sources_embed_their_images, sources_give_their_images, text_content,
    with_guide,
};
use crate::palmdb::{build_palmdb, palmdb, palmdb_length};
use crate::paths::{any_nested, build_image_path_lookup, is_last_key, path_forms};
use crate::pattern::{
    group, joints_stand_between_pieces, regex_found, regex_split, source, texts, woven, Pattern,
};
use crate::records::{
    compress_text, contents, kf8_records, kf8_text_reads_back, mobi_records, mobi_text_reads_back,
    restored, split_text_uncompressed,
};
use crate::text::{bytes_of, opt_string, same_text, utf8};

verus! {

/// Why a file cannot be built.
#[derive(Debug, Clone, Copy, PartialEq, Eq, Structural)]
pub enum BuildError {
    /// The documents hold no dictionary entries.
    NoEntries,
    /// A dictionary cannot be built as KF8 alone.
    Kf8OnlyDictionary,
}

impl BuildError {
    /// What went wrong, in words.
    pub fn message(self) -> (r: String)
        ensures
            r@ == match self {
                BuildError::NoEntries => "No dictionary entries found in HTML content files"@,
                BuildError::Kf8OnlyDictionary => "KF8-only output is not supported for dictionaries (dictionaries use MOBI7 format)"@,
            },
    {
        match self {
            BuildError::NoEntries => "No dictionary entries found in HTML content files".to_owned(),
            BuildError::Kf8OnlyDictionary => "KF8-only output is not supported for dictionaries (dictionaries use MOBI7 format)".to_owned(),
        }
    }
}

/// What to build.
#[derive(Debug, Clone, Copy, PartialEq, Eq, Structural)]
pub enum BuildKind {
    /// A dictionary.
    Dictionary,
    /// A book in both formats.
    DualBook,
    /// A book in KF8 alone.
    Kf8Book,
}

/// Decide what to build from documents that do or do not hold dictionary entries.
pub fn build_kind(is_dictionary: bool, kf8_only: bool) -> (r: Result<BuildKind, BuildError>)
    ensures
        r == if is_dictionary && kf8_only {
            Err::<BuildKind, BuildError>(BuildError::Kf8OnlyDictionary)
        } else if is_dictionary {
            Ok(BuildKind::Dictionary)
        } else if kf8_only {
            Ok(BuildKind::Kf8Book)
        } else {
            Ok(BuildKind::DualBook)
        },
{
    if is_dictionary {
        if kf8_only {
            return Err(BuildError::Kf8OnlyDictionary);
        }
        Ok(BuildKind::Dictionary)
    } else if kf8_only {
        Ok(BuildKind::Kf8Book)
    } else {
        Ok(BuildKind::DualBook)
    }
}

/// The text of a dictionary, where its entries stand in it, and the forms that lead
/// to them.
pub struct DictionaryText {
    pub text: Vec<u8>,
    pub positions: Vec<(usize, usize)>,
    pub terms: LookupTable,
}

/// The text of a dictionary: its documents without index markup, merged, with the
/// guide that leads to the first entry.
pub open spec fn dictionary_text(documents: Seq<Seq<char>>) -> Seq<u8> {
    with_guide(utf8(text_content(documents, true)))
}

/// Prepare the text of a dictionary and the forms that can be looked up in it.
pub fn prepare_dictionary(
    documents: &[String],
    entries: &[DictionaryEntry],
    headwords_only: bool,
) -> (r: Result<DictionaryText, BuildError>)
    ensures
        match r {
            Err(e) => entries@.len() == 0 && e == BuildError::NoEntries,
            Ok(d) => {
                &&& entries@.len() > 0
                &&& d.text@ == dictionary_text(texts(documents@))
                &&& d.positions@.len() == entries@.len()
                &&& forall|i: int|
                    0 <= i < entries@.len() ==> position_of(#[trigger] d.positions@[i])
                        == entry_position(d.text@, words(entries@), i)
                &&& d.terms.wf()
                &&& d.terms@ == lookup_terms(
                    entries@,
                    d.positions@,
                    d.text@,
                    headwords_only,
                )
            },
        },
{
    if entries.len() == 0 {
        return Err(BuildError::NoEntries);
    }
    let merged = build_text_content(documents, true);
    let text = insert_guide_reference(merged.as_str().as_bytes());
    let positions = find_entry_positions(&text, entries);
    let terms = build_lookup_terms(entries, &positions, &text, headwords_only);
    Ok(DictionaryText { text, positions, terms })
}

fn add_record(all: &mut Vec<Vec<u8>>, record: Vec<u8>)
    ensures
        contents(final(all)@) == contents(old(all)@) + seq![record@],
        final(all)@.len() == old(all)@.len() + 1,
{
    all.push(record);
    assert(contents(all@) =~= contents(old(all)@) + seq![record@]);
}

fn add_records(all: &mut Vec<Vec<u8>>, list: Vec<Vec<u8>>)
    ensures
        contents(final(all)@) == contents(old(all)@) + contents(list@),
        final(all)@.len() == old(all)@.len() + list@.len(),
{
    let mut more = list;
    all.append(&mut more);
    assert(contents(all@) =~= contents(old(all)@) + contents(list@));
}

/// The record of an embedded source, if there is one.
pub open spec fn source_records(srcs: Option<Seq<u8>>) -> Seq<Seq<u8>> {
    match srcs {
        Some(data) => seq![source_record(data)],
        None => seq![],
    }
}

/// The compilation metadata record, if it is wanted.
pub open spec fn cmet_records(include_cmet: bool) -> Seq<Seq<u8>> {
    if include_cmet {
        seq![utf8("kindling 0.2.0"@)]
    } else {
        seq![]
    }
}

/// The bytes of an optional source.
pub open spec fn opt_bytes(data: Option<&[u8]>) -> Option<Seq<u8>> {
    match data {
        Some(d) => Some(d@),
        None => None,
    }
}

fn add_optional(all: &mut Vec<Vec<u8>>, srcs_data: Option<&[u8]>, include_cmet: bool)
    ensures
        contents(final(all)@) == contents(old(all)@) + source_records(opt_bytes(srcs_data))
            + cmet_records(include_cmet),
        final(all)@.len() == old(all)@.len() + source_records(opt_bytes(srcs_data)).len()
            + cmet_records(include_cmet).len(),
{
    if let Some(data) = srcs_data {
        let record = build_srcs(data);
        add_record(all, record);
    }
    if include_cmet {
        let record = build_cmet();
        add_record(all, record);
    }
    assert(contents(all@) =~= contents(old(all)@) + source_records(opt_bytes(srcs_data))
        + cmet_records(include_cmet));
}

fn set_record(all: &mut Vec<Vec<u8>>, at: usize, record: Vec<u8>)
    requires
        at < old(all)@.len(),
    ensures
        contents(final(all)@) == contents(old(all)@).update(at as int, record@),
        final(all)@.len() == old(all)@.len(),
{
    all[at] = record;
    assert(contents(all@) =~= contents(old(all)@).update(at as int, record@));
}

/// The records of a dictionary behind record 0.
pub open spec fn dictionary_tail(
    text: Seq<u8>,
    indx: Seq<Seq<u8>>,
    plain: bool,
    srcs: Option<Seq<u8>>,
    include_cmet: bool,
) -> Seq<Seq<u8>> {
    mobi_records(text, plain) + indx + seq![flis()] + seq![fcis(text.len() as int)]
        + source_records(srcs) + cmet_records(include_cmet) + seq![end_record()]
}

/// The header fields of a dictionary: the index follows the text, then come FLIS, FCIS
/// and the source.
pub open spec fn dictionary_fields(
    text: Seq<u8>,
    indx: Seq<Seq<u8>>,
    plain: bool,
    srcs: Option<Seq<u8>>,
    include_cmet: bool,
) -> MobiFields {
    let t = mobi_records(text, plain).len() as int;
    let i = indx.len() as int;
    MobiFields {
        text_length: text.len() as usize,
        text_record_count: t as usize,
        plain,
        first_non_book_record: (t + 1) as usize,
        orth_index_record: Some((t + 1) as usize),
        last_record: dictionary_tail(text, indx, plain, srcs, include_cmet).len() as usize,
        flis_record: (t + 1 + i) as usize,
        fcis_record: (t + 2 + i) as usize,
        first_image_record: None,
        srcs_record: if srcs is Some {
            Some((t + 3 + i) as usize)
        } else {
            None
        },
        version: 6,
    }
}

/// The records of a dictionary.
pub open spec fn dictionary_file(
    meta: Metadata,
    chars: Set<u32>,
    text: Seq<u8>,
    indx: Seq<Seq<u8>>,
    plain: bool,
    srcs: Option<Seq<u8>>,
    include_cmet: bool,
    creator_tag: bool,
) -> Seq<Seq<u8>> {
    seq![
        record0(
            meta,
            dictionary_fields(text, indx, plain, srcs, include_cmet),
            true,
            exth_block(metadata_records(meta, true, chars, None, None, None, None, creator_tag)),
        ),
    ] + dictionary_tail(text, indx, plain, srcs, include_cmet)
}

fn cut_text(text: &[u8], no_compress: bool) -> (r: Vec<Vec<u8>>)
    ensures
        contents(r@) == mobi_records(text@, no_compress),
{
    if no_compress {
        split_text_uncompressed(text).0
    } else {
        compress_text(text).0
    }
}

/// Build a dictionary.
///
/// `text` is the prepared text and `indx_records` the index over its lookup terms;
/// `now` is the time of creation as a Palm OS timestamp.
pub fn build_dictionary_mobi(
    meta: &Metadata,
    entries: &[DictionaryEntry],
    text: &[u8],
    indx_records: Vec<Vec<u8>>,
    no_compress: bool,
    srcs_data: Option<&[u8]>,
    include_cmet: bool,
    creator_tag: bool,
    now: u32,
) -> (r: Vec<u8>)
    ensures
        r@ == palmdb(
            full_name(meta.title@, true),
            dictionary_file(
                *meta,
                headword_set(entries@),
                text@,
                contents(indx_records@),
                no_compress,
                opt_bytes(srcs_data),
                include_cmet,
                creator_tag,
            ),
            now,
        ),
{
    let ghost indx = contents(indx_records@);
    let ghost srcs = opt_bytes(srcs_data);
    let text_records = cut_text(text, no_compress);
    let text_record_count: usize = text_records.len();
    assert(contents(text_records@).len() == text_record_count);
    let mut all: Vec<Vec<u8>> = Vec::new();
    add_record(&mut all, Vec::new());
    let ghost first = contents(all@);
    add_records(&mut all, text_records);
    let orth_index_record: usize = all.len();
    add_records(&mut all, indx_records);
    let flis_record: usize = all.len();
    let record = build_flis();
    add_record(&mut all, record);
    let fcis_record: usize = all.len();
    let record = build_fcis(text.len());
    add_record(&mut all, record);
    let srcs_record: usize = all.len();
    add_optional(&mut all, srcs_data, include_cmet);
    let record = build_eof();
    add_record(&mut all, record);
    let fields = MobiFields {
        text_length: text.len(),
        text_record_count,
        plain: no_compress,
        first_non_book_record: orth_index_record,
        orth_index_record: Some(orth_index_record),
        last_record: all.len() - 1,
        flis_record,
        fcis_record,
        first_image_record: None,
        srcs_record: if srcs_data.is_some() {
            Some(srcs_record)
        } else {
            None
        },
        version: 6,
    };
    let ghost tail = dictionary_tail(text@, indx, no_compress, srcs, include_cmet);
    proof {
        assert(contents(all@) =~= first + tail);
        assert(all@.len() == 1 + tail.len());
        assert(fields == dictionary_fields(text@, indx, no_compress, srcs, include_cmet));
    }
    let chars = headword_chars(entries);
    let record = build_record0(meta, &fields, true, &chars, None, None, None, None, creator_tag);
    let ghost head = record@;
    set_record(&mut all, 0, record);
    assert(contents(all@) =~= seq![head] + tail);
    let title = meta.title.as_str();
    build_palmdb(if title.is_empty() { "Dictionary" } else { title }, &all, now)
}

/// An image of a package; one that could not be read has no data.
pub struct Image {
    pub href: String,
    pub data: Option<Vec<u8>>,
}

/// A book: what is known of it, its documents in reading order, its styles, its images
/// in the order of their records, the path of its cover, the identifiers and paths of
/// its documents, and its layout.
pub struct Book {
    pub meta: Metadata,
    pub documents: Vec<String>,
    pub css: String,
    pub images: Vec<Image>,
    pub cover_href: Option<String>,
    pub spine_items: Vec<(String, String)>,
    pub layout: FixedLayoutMeta,
}

/// How to build a book.
#[derive(Clone, Copy)]
pub struct BookOptions {
    /// Leave the text uncompressed.
    pub no_compress: bool,
    /// Add the compilation metadata record.
    pub include_cmet: bool,
    /// Add the container of high-resolution images.
    pub hd_images: bool,
    /// Name this software as the creator.
    pub creator_tag: bool,
    /// Build KF8 alone.
    pub kf8_only: bool,
}

/// The record of an image: its data with the density patched, or nothing.
pub open spec fn image_record(image: Image) -> Seq<u8> {
    match image.data {
        Some(d) => with_density(d@),
        None => seq![],
    }
}

/// The records of images.
pub open spec fn image_records(images: Seq<Image>) -> Seq<Seq<u8>> {
    Seq::new(images.len(), |i: int| image_record(images[i]))
}

/// The paths of images.
pub open spec fn image_hrefs(images: Seq<Image>) -> Seq<Seq<char>> {
    Seq::new(images.len(), |i: int| images[i].href@)
}

/// The number of the cover among the images, counted from zero: the last one with its
/// path that could be read.
pub open spec fn cover_number(images: Seq<Image>, cover: Option<Seq<char>>) -> Option<u32>
    decreases images.len(),
{
    if images.len() == 0 || cover is None {
        None
    } else if images.last().href@ == cover->0 && images.last().data is Some {
        Some(low32(images.len() - 1))
    } else {
        cover_number(images.drop_last(), cover)
    }
}

/// The documents of a book, cleaned.
pub open spec fn cleaned_documents(documents: Seq<Seq<char>>) -> Seq<Seq<char>> {
    Seq::new(documents.len(), |i: int| cleaned_book_html(documents[i]))
}

impl Book {
    /// Its image records.
    pub open spec fn image_list(self) -> Seq<Seq<u8>> {
        image_records(self.images@)
    }

    /// The number of its cover.
    #[verifier::opaque]
    pub open spec fn cover(self) -> Option<u32> {
        cover_number(self.images@, opt_string(self.cover_href))
    }

    /// Its layout, if that is fixed.
    pub open spec fn fixed_layout(&self) -> Option<&FixedLayoutMeta> {
        if self.layout.is_fixed_layout {
            Some(&self.layout)
        } else {
            None
        }
    }

    /// What its KF8 part is made of.
    #[verifier::opaque]
    pub open spec fn kf8(self, plain: bool) -> Kf8Source {
        kf8_source(
            cleaned_documents(texts(self.documents@)),
            self.css@,
            image_hrefs(self.images@),
            any_nested(self.spine_items@),
            plain,
        )
    }

    /// Its text in the older format: the documents merged, with image sources as record
    /// numbers.
    #[verifier::opaque]
    pub open spec fn plain_text(self) -> Seq<u8> {
        let text = text_content(texts(self.documents@), false);
        let paths = path_forms(image_hrefs(self.images@), any_nested(self.spine_items@));
        utf8(
            if self.images@.len() == 0 {
                text
            } else {
                woven(
                    regex_split(source(Pattern::Source), text),
                    numbered_sources(paths, regex_found(source(Pattern::Source), text)),
                )
            },
        )
    }

    /// Its container of high-resolution images, where it is wanted and there are images.
    #[verifier::opaque]
    pub open spec fn hd_records(self, hd_images: bool) -> Seq<Seq<u8>> {
        if hd_images && self.images@.len() > 0 {
            container(full_name(self.meta.title@, false), self.image_list())
        } else {
            seq![]
        }
    }

    /// The geometry of that container.
    #[verifier::opaque]
    pub open spec fn hd_geometry(self, hd_images: bool) -> Option<Seq<char>> {
        if hd_images && self.images@.len() > 0 {
            let size = largest(self.image_list());
            Some(geometry(size.0, size.1, self.images@.len()))
        } else {
            None
        }
    }
}

/// The records of a KF8 part behind its record 0, up to FCIS: text, a separator,
/// images, indexes, flow table and positions.
#[verifier::opaque]
pub open spec fn kf8_tail(source: Kf8Source, images: Seq<Seq<u8>>) -> Seq<Seq<u8>> {
    kf8_records(source.text(), source.plain) + seq![seq![0u8]] + images + chunk_index(
        fragments_of(source.parts.len()),
        2,
    ) + chunk_index(skeletons_of(source.parts), 1) + contents_index(source.parts.len()) + seq![
        flow_table(source.html().len() as int, source.text().len() as int),
    ] + seq![position_record()] + seq![flis()] + seq![fcis(source.text().len() as int)]
}

/// The header fields of a KF8 part: where its records stand, counted from its record 0.
#[verifier::opaque]
pub open spec fn kf8_fields(
    source: Kf8Source,
    images: nat,
    with_source: bool,
    last_record: Option<usize>,
) -> Kf8Fields {
    let k = kf8_records(source.text(), source.plain).len() as int;
    let fragment = k + 2 + images;
    let skeleton = fragment + chunk_index(fragments_of(source.parts.len()), 2).len();
    let ncx = skeleton + chunk_index(skeletons_of(source.parts), 1).len();
    let fdst = ncx + contents_index(source.parts.len()).len();
    Kf8Fields {
        text_length: source.text().len() as usize,
        text_record_count: k as usize,
        plain: source.plain,
        first_non_book_record: (k + 1) as usize,
        fdst_record: fdst as usize,
        fdst_flow_count: source.flows() as usize,
        skeleton_indx_record: skeleton as usize,
        fragment_indx_record: fragment as usize,
        ncx_record: ncx as usize,
        datp_record: (fdst + 1) as usize,
        flis_record: (fdst + 2) as usize,
        fcis_record: (fdst + 3) as usize,
        first_image_record: if images > 0 {
            Some((k + 2) as usize)
        } else {
            None
        },
        srcs_record: if with_source {
            Some((fdst + 4) as usize)
        } else {
            None
        },
        last_record,
    }
}

/// The records of a KF8 book behind record 0.
pub open spec fn kf8_book_tail(
    book: Book,
    options: BookOptions,
    srcs: Option<Seq<u8>>,
) -> Seq<Seq<u8>> {
    kf8_tail(book.kf8(options.no_compress), book.image_list()) + source_records(srcs) + cmet_records(
        options.include_cmet,
    ) + seq![end_record()] + book.hd_records(options.hd_images)
}

/// The records of a KF8 book.
pub open spec fn kf8_book_file(
    book: Book,
    options: BookOptions,
    srcs: Option<Seq<u8>>,
) -> Seq<Seq<u8>> {
    let tail = kf8_book_tail(book, options, srcs);
    seq![
        kf8_record0(
            book.meta,
            kf8_fields(
                book.kf8(options.no_compress),
                book.images@.len(),
                srcs is Some,
                Some(tail.len() as usize),
            ),
            exth_block(
                metadata_records(
                    book.meta,
                    false,
                    Set::empty(),
                    book.cover(),
                    book.fixed_layout(),
                    None,
                    book.hd_geometry(options.hd_images),
                    options.creator_tag,
                ),
            ),
        ),
    ] + tail
}

/// The records of the older part of a book behind its record 0.
#[verifier::opaque]
pub open spec fn mobi_tail(
    book: Book,
    options: BookOptions,
    srcs: Option<Seq<u8>>,
) -> Seq<Seq<u8>> {
    mobi_records(book.plain_text(), options.no_compress) + book.image_list() + seq![flis()] + seq![
        fcis(book.plain_text().len() as int),
    ] + source_records(srcs) + cmet_records(options.include_cmet)
}

/// The records of the KF8 part of a book of both formats.
#[verifier::opaque]
pub open spec fn dual_kf8(book: Book, options: BookOptions) -> Seq<Seq<u8>> {
    let source = book.kf8(options.no_compress);
    seq![
        kf8_record0(
            book.meta,
            kf8_fields(source, 0, false, None),
            exth_block(
                metadata_records(
                    book.meta,
                    false,
                    Set::empty(),
                    book.cover(),
                    book.fixed_layout(),
                    None,
                    None,
                    options.creator_tag,
                ),
            ),
        ),
    ] + kf8_tail(source, seq![]) + seq![end_record()]
}

/// Where the record 0 of the KF8 part stands in a book of both formats.
pub open spec fn kf8_start(book: Book, options: BookOptions, srcs: Option<Seq<u8>>) -> int {
    mobi_tail(book, options, srcs).len() + 2int
}

/// The records of a book of both formats behind its first record 0.
pub open spec fn dual_tail(
    book: Book,
    options: BookOptions,
    srcs: Option<Seq<u8>>,
) -> Seq<Seq<u8>> {
    mobi_tail(book, options, srcs) + seq![utf8("BOUNDARY"@)] + dual_kf8(book, options)
        + book.hd_records(options.hd_images)
}

/// The header fields of the older part of a book of both formats.
pub open spec fn dual_fields(
    book: Book,
    options: BookOptions,
    srcs: Option<Seq<u8>>,
) -> MobiFields {
    let t = mobi_records(book.plain_text(), options.no_compress).len() as int;
    let n = book.images@.len() as int;
    MobiFields {
        text_length: book.plain_text().len() as usize,
        text_record_count: t as usize,
        plain: options.no_compress,
        first_non_book_record: (t + 1) as usize,
        orth_index_record: None,
        last_record: dual_tail(book, options, srcs).len() as usize,
        flis_record: (t + 1 + n) as usize,
        fcis_record: (t + 2 + n) as usize,
        first_image_record: if n > 0 {
            Some((t + 1) as usize)
        } else {
            None
        },
        srcs_record: if srcs is Some {
            Some((t + 3 + n) as usize)
        } else {
            None
        },
        version: 6,
    }
}

/// The records of a book of both formats.
pub open spec fn dual_file(
    book: Book,
    options: BookOptions,
    srcs: Option<Seq<u8>>,
) -> Seq<Seq<u8>> {
    seq![
        record0(
            book.meta,
            dual_fields(book, options, srcs),
            false,
            exth_block(
                metadata_records(
                    book.meta,
                    false,
                    Set::empty(),
                    book.cover(),
                    book.fixed_layout(),
                    Some(low32(kf8_start(book, options, srcs))),
                    book.hd_geometry(options.hd_images),
                    options.creator_tag,
                ),
            ),
        ),
    ] + dual_tail(book, options, srcs)
}

/// The records of a book.
pub open spec fn book_file(
    book: Book,
    options: BookOptions,
    srcs: Option<Seq<u8>>,
) -> Seq<Seq<u8>> {
    if options.kf8_only {
        kf8_book_file(book, options, srcs)
    } else {
        dual_file(book, options, srcs)
    }
}

fn patched_images(images: &[Image]) -> (r: Vec<Vec<u8>>)
    ensures
        contents(r@) == image_records(images@),
{
    let mut r: Vec<Vec<u8>> = Vec::new();
    let mut i: usize = 0;
    while i < images.len()
        invariant
            i <= images@.len(),
            r@.len() == i,
            forall|k: int| 0 <= k < i ==> #[trigger] r@[k]@ == image_record(images@[k]),
        decreases images.len() - i,
    {
        let mut data: Vec<u8> = Vec::new();
        if let Some(d) = &images[i].data {
            data.extend_from_slice(d);
            assert(data@ =~= d@);
            patch_jfif_density(&mut data);
        }
        assert(data@ =~= image_record(images@[i as int]));
        r.push(data);
        i += 1;
    }
    assert(contents(r@) =~= image_records(images@));
    r
}

fn hrefs_of(images: &[Image]) -> (r: Vec<String>)
    ensures
        texts(r@) == image_hrefs(images@),
{
    let mut r: Vec<String> = Vec::new();
    let mut i: usize = 0;
    while i < images.len()
        invariant
            i <= images@.len(),
            r@.len() == i,
            forall|k: int| 0 <= k < i ==> #[trigger] r@[k]@ == images@[k].href@,
        decreases images.len() - i,
    {
        r.push(images[i].href.clone());
        i += 1;
    }
    assert(texts(r@) =~= image_hrefs(images@));
    r
}

fn find_cover(images: &[Image], cover: &Option<String>) -> (r: Option<u32>)
    ensures
        r == cover_number(images@, opt_string(*cover)),
{
    match cover {
        None => None,
        Some(href) => {
            let mut n: usize = images.len();
            assert(images@.take(n as int) =~= images@);
            while n > 0
                invariant
                    opt_string(*cover) == Some(href@),
                    n <= images@.len(),
                    cover_number(images@, Some(href@)) == cover_number(
                        images@.take(n as int),
                        Some(href@),
                    ),
                decreases n,
            {
                assert(images@.take(n as int).drop_last() =~= images@.take(n - 1));
                assert(images@.take(n as int).last() == images@[n - 1]);
                if same_text(images[n - 1].href.as_str(), href.as_str()) && images[n
                    - 1].data.is_some() {
                    assert(images@.take(n as int).len() == n);
                    return Some(length32(n - 1));
                }
                n -= 1;
            }
            None
        },
    }
}

fn clean_documents(documents: &[String]) -> (r: Vec<String>)
    ensures
        texts(r@) == cleaned_documents(texts(documents@)),
{
    let mut r: Vec<String> = Vec::new();
    let mut i: usize = 0;
    while i < documents.len()
        invariant
            i <= documents@.len(),
            r@.len() == i,
            forall|k: int| 0 <= k < i ==> #[trigger] r@[k]@ == cleaned_book_html(documents@[k]@),
        decreases documents.len() - i,
    {
        r.push(clean_book_html(documents[i].as_str()));
        i += 1;
    }
    assert(texts(r@) =~= cleaned_documents(texts(documents@)));
    r
}

/// The text of a book in the older format.
pub fn build_plain_text(book: &Book) -> (r: Vec<u8>)
    ensures
        r@ == book.plain_text(),
{
    proof {
        reveal(Book::plain_text);
    }
    let text = build_text_content(&book.documents, false);
    if book.images.len() == 0 {
        return bytes_of(text.as_str());
    }
    let hrefs = hrefs_of(&book.images);
    let paths = build_image_path_lookup(&hrefs, &book.spine_items);
    let rewritten = rewrite_image_src(text.as_str(), &paths);
    bytes_of(rewritten.as_str())
}

fn build_section(book: &Book, no_compress: bool) -> (r: Kf8Section)
    ensures
        r.of(book.kf8(no_compress)),
{
    proof {
        reveal(Book::kf8);
    }
    let parts = clean_documents(&book.documents);
    let hrefs = hrefs_of(&book.images);
    build_kf8_section(&parts, book.css.as_str(), &hrefs, &book.spine_items, no_compress)
}

/// The container of high-resolution images of a book, with its geometry.
fn build_container(book: &Book, records: &[Vec<u8>], hd_images: bool) -> (r: (
    Vec<Vec<u8>>,
    Option<String>,
))
    requires
        contents(records@) == book.image_list(),
    ensures
        contents(r.0@) == book.hd_records(hd_images),
        opt_string(r.1) == book.hd_geometry(hd_images),
{
    proof {
        reveal(Book::hd_records);
        reveal(Book::hd_geometry);
    }
    if hd_images && records.len() > 0 {
        assert(book.images@.len() == contents(records@).len());
        let hd = build_hd_container(book.meta.title.as_str(), records);
        let text = hd.geometry_string();
        let list = hd.into_records();
        assert(contents(list@) =~= container(
            full_name(book.meta.title@, false),
            book.image_list(),
        ));
        (list, Some(text))
    } else {
        assert(book.images@.len() == contents(records@).len());
        let none: Vec<Vec<u8>> = Vec::new();
        assert(contents(none@) =~= seq![]);
        (none, None)
    }
}

/// Where the records of a KF8 part stand among those of a file.
struct Kf8Places {
    fragment: usize,
    skeleton: usize,
    ncx: usize,
    fdst: usize,
    datp: usize,
    flis: usize,
    fcis: usize,
}

impl Kf8Places {
    /// The places are those of a KF8 part whose first text record stands at `first`.
    spec fn of(self, source: Kf8Source, first: int, images: int) -> bool {
        &&& self.fragment == first + kf8_records(source.text(), source.plain).len() + 1 + images
        &&& self.skeleton == self.fragment + chunk_index(fragments_of(source.parts.len()), 2).len()
        &&& self.ncx == self.skeleton + chunk_index(skeletons_of(source.parts), 1).len()
        &&& self.fdst == self.ncx + contents_index(source.parts.len()).len()
        &&& self.datp == self.fdst + 1
        &&& self.flis == self.fdst + 2
        &&& self.fcis == self.fdst + 3
    }
}

/// The header fields of a KF8 part whose record 0 stands at `start`; `text` is its text
/// length, its number of text records and its number of flows.
fn fields_of_kf8(
    text: (usize, usize, usize),
    start: usize,
    image_count: usize,
    p: &Kf8Places,
    with_source: bool,
    last_record: Option<usize>,
    Ghost(source): Ghost<Kf8Source>,
    plain: bool,
) -> (r: Kf8Fields)
    requires
        plain == source.plain,
        text.0 == source.text().len(),
        text.1 == kf8_records(source.text(), source.plain).len(),
        text.2 == source.flows(),
        p.of(source, start + 1, image_count as int),
        p.fcis < usize::MAX,
    ensures
        r == kf8_fields(source, image_count as nat, with_source, last_record),
{
    proof {
        reveal(kf8_fields);
    }
    Kf8Fields {
        text_length: text.0,
        text_record_count: text.1,
        plain,
        first_non_book_record: p.fragment - start - image_count - 1,
        fdst_record: p.fdst - start,
        fdst_flow_count: text.2,
        skeleton_indx_record: p.skeleton - start,
        fragment_indx_record: p.fragment - start,
        ncx_record: p.ncx - start,
        datp_record: p.datp - start,
        flis_record: p.flis - start,
        fcis_record: p.fcis - start,
        first_image_record: if image_count > 0 {
            Some(p.fragment - start - image_count)
        } else {
            None
        },
        srcs_record: if with_source {
            Some(p.fcis - start + 1)
        } else {
            None
        },
        last_record,
    }
}

/// What the header tells of a KF8 text: its length, its number of records, and its
/// number of flows.
fn text_facts_of(section: &Kf8Section, Ghost(source): Ghost<Kf8Source>) -> (r: (usize, usize, usize))
    requires
        section.of(source),
    ensures
        r.0 == source.text().len(),
        r.1 == kf8_records(source.text(), source.plain).len(),
        r.2 == source.flows(),
{
    assert(contents(section.text_records@).len() == section.text_records@.len());
    (section.text_length, section.text_records.len(), section.flow_count)
}

/// Put the records of a KF8 part behind its record 0, which is the last one so far.
fn add_kf8(
    all: &mut Vec<Vec<u8>>,
    section: Kf8Section,
    images: Vec<Vec<u8>>,
    Ghost(source): Ghost<Kf8Source>,
) -> (p: Kf8Places)
    requires
        section.of(source),
    ensures
        contents(final(all)@) == contents(old(all)@) + kf8_tail(source, contents(images@)),
        final(all)@.len() == old(all)@.len() + kf8_tail(source, contents(images@)).len(),
        ({
            &&& p.of(source, old(all)@.len() as int, images@.len() as int)
            &&& p.fcis == final(all)@.len() - 1
        }),
{
    proof {
        reveal(kf8_tail);
    }
    let text_length: usize = section.text_length;
    add_records(all, section.text_records);
    let mut separator: Vec<u8> = Vec::new();
    separator.push(0);
    assert(separator@ =~= seq![0u8]);
    add_record(all, separator);
    add_records(all, images);
    let fragment: usize = all.len();
    add_records(all, section.fragment_indx);
    let skeleton: usize = all.len();
    add_records(all, section.skeleton_indx);
    let ncx: usize = all.len();
    add_records(all, section.ncx_indx);
    let fdst: usize = all.len();
    add_record(all, section.fdst);
    let datp: usize = all.len();
    add_record(all, section.datp);
    let flis_at: usize = all.len();
    let record = build_flis();
    add_record(all, record);
    let fcis_at: usize = all.len();
    let record = build_fcis(text_length);
    add_record(all, record);
    proof {
        assert(contents(all@) =~= contents(old(all)@) + kf8_tail(source, contents(images@)));
        assert(all@.len() == contents(all@).len());
        assert(contents(section.text_records@).len() == section.text_records@.len());
        assert(contents(section.fragment_indx@).len() == section.fragment_indx@.len());
        assert(contents(section.skeleton_indx@).len() == section.skeleton_indx@.len());
        assert(contents(section.ncx_indx@).len() == section.ncx_indx@.len());
    }
    Kf8Places { fragment, skeleton, ncx, fdst, datp, flis: flis_at, fcis: fcis_at }
}

fn build_kf8_book(book: &Book, options: BookOptions, srcs_data: Option<&[u8]>) -> (all: Vec<Vec<u8>>)
    ensures
        contents(all@) == kf8_book_file(*book, options, opt_bytes(srcs_data)),
{
    let ghost srcs = opt_bytes(srcs_data);
    let ghost source = book.kf8(options.no_compress);
    let images = patched_images(&book.images);
    let image_count: usize = images.len();
    assert(contents(images@).len() == image_count);
    let (hd, hd_geometry) = build_container(book, &images, options.hd_images);
    let section = build_section(book, options.no_compress);
    let text_facts = text_facts_of(&section, Ghost(source));
    assert(source.plain == options.no_compress) by {
        reveal(Book::kf8);
    }
    let mut all: Vec<Vec<u8>> = Vec::new();
    add_record(&mut all, Vec::new());
    let ghost first = contents(all@);
    let p = add_kf8(&mut all, section, images, Ghost(source));
    add_optional(&mut all, srcs_data, options.include_cmet);
    let record = build_eof();
    add_record(&mut all, record);
    add_records(&mut all, hd);
    let ghost tail = kf8_book_tail(*book, options, srcs);
    proof {
        assert(contents(hd@).len() == hd@.len());
        assert(contents(all@) =~= first + tail);
        assert(all@.len() == 1 + tail.len());
    }
    let fields = fields_of_kf8(
        text_facts,
        0,
        image_count,
        &p,
        srcs_data.is_some(),
        Some(all.len() - 1),
        Ghost(source),
        options.no_compress,
    );
    assert(fields == kf8_fields(source, book.images@.len(), srcs is Some, Some(tail.len() as usize)));
    let cover = find_cover(&book.images, &book.cover_href);
    assert(cover == book.cover()) by {
        reveal(Book::cover);
    }
    let layout = if book.layout.is_fixed_layout {
        Some(&book.layout)
    } else {
        None
    };
    let geometry_text: Option<&str> = match &hd_geometry {
        Some(t) => Some(t.as_str()),
        None => None,
    };
    let record = build_kf8_record0(
        &book.meta,
        &fields,
        cover,
        layout,
        geometry_text,
        options.creator_tag,
    );
    let ghost head = record@;
    set_record(&mut all, 0, record);
    assert(contents(all@) =~= seq![head] + tail);
    all
}

/// Where the records of the older part of a book stand, and the length of its text.
struct MobiPlaces {
    text_length: usize,
    text_records: usize,
    first_image: usize,
    flis: usize,
    fcis: usize,
    srcs: usize,
}

/// Put the records of the older part of a book behind its record 0, which is the only
/// one so far.
fn add_mobi(
    all: &mut Vec<Vec<u8>>,
    book: &Book,
    options: BookOptions,
    images: Vec<Vec<u8>>,
    srcs_data: Option<&[u8]>,
) -> (p: MobiPlaces)
    requires
        old(all)@.len() == 1,
        contents(images@) == book.image_list(),
    ensures
        contents(final(all)@) == contents(old(all)@) + mobi_tail(
            *book,
            options,
            opt_bytes(srcs_data),
        ),
        final(all)@.len() == mobi_tail(*book, options, opt_bytes(srcs_data)).len() + 1,
        ({
            let t = mobi_records(book.plain_text(), options.no_compress).len();
            let n = book.images@.len();
            &&& p.text_length == book.plain_text().len()
            &&& p.text_records == t
            &&& p.first_image == t + 1
            &&& p.flis == t + 1 + n
            &&& p.fcis == t + 2 + n
            &&& p.srcs == t + 3 + n
        }),
{
    let text = build_plain_text(book);
    let list = cut_text(&text, options.no_compress);
    let text_records: usize = list.len();
    proof {
        reveal(mobi_tail);
        assert(contents(list@).len() == text_records);
        assert(contents(images@).len() == images@.len());
    }
    add_records(all, list);
    let first_image: usize = all.len();
    add_records(all, images);
    let flis_at: usize = all.len();
    let record = build_flis();
    add_record(all, record);
    let fcis_at: usize = all.len();
    let record = build_fcis(text.len());
    add_record(all, record);
    let srcs: usize = all.len();
    add_optional(all, srcs_data, options.include_cmet);
    proof {
        assert(contents(all@) =~= contents(old(all)@) + mobi_tail(
            *book,
            options,
            opt_bytes(srcs_data),
        ));
        assert(all@.len() == contents(all@).len());
    }
    MobiPlaces {
        text_length: text.len(),
        text_records,
        first_image,
        flis: flis_at,
        fcis: fcis_at,
        srcs,
    }
}

/// Put the KF8 part of a book of both formats behind the records so far.
fn add_dual_kf8(
    all: &mut Vec<Vec<u8>>,
    book: &Book,
    options: BookOptions,
    cover: Option<u32>,
    layout: Option<&FixedLayoutMeta>,
)
    requires
        cover == book.cover(),
        layout == book.fixed_layout(),
    ensures
        contents(final(all)@) == contents(old(all)@) + dual_kf8(*book, options),
{
    let ghost source = book.kf8(options.no_compress);
    let ghost before = contents(all@);
    let start: usize = all.len();
    let section = build_section(book, options.no_compress);
    let text_facts = text_facts_of(&section, Ghost(source));
    assert(source.plain == options.no_compress) by {
        reveal(Book::kf8);
    }
    add_record(all, Vec::new());
    let none: Vec<Vec<u8>> = Vec::new();
    assert(contents(none@) =~= seq![]);
    let p = add_kf8(all, section, none, Ghost(source));
    let size: usize = all.len();
    let kf8 = fields_of_kf8(
        text_facts,
        start,
        0,
        &p,
        false,
        None,
        Ghost(source),
        options.no_compress,
    );
    let record = build_dual_kf8_record0(book, options, cover, layout, &kf8);
    let ghost head = record@;
    set_record(all, start, record);
    assert(contents(all@) =~= before + seq![head] + kf8_tail(source, seq![]));
    let record = build_eof();
    add_record(all, record);
    assert(contents(all@) =~= before + dual_kf8(*book, options));
}

fn build_dual_book(book: &Book, options: BookOptions, srcs_data: Option<&[u8]>) -> (all: Vec<Vec<u8>>)
    ensures
        contents(all@) == dual_file(*book, options, opt_bytes(srcs_data)),
{
    let ghost srcs = opt_bytes(srcs_data);
    let images = patched_images(&book.images);
    let image_count: usize = images.len();
    assert(contents(images@).len() == image_count);
    let (hd, hd_geometry) = build_container(book, &images, options.hd_images);
    let cover = find_cover(&book.images, &book.cover_href);
    assert(cover == book.cover()) by {
        reveal(Book::cover);
    }
    let layout = if book.layout.is_fixed_layout {
        Some(&book.layout)
    } else {
        None
    };
    let mut all: Vec<Vec<u8>> = Vec::new();
    add_record(&mut all, Vec::new());
    let ghost first = contents(all@);
    let p = add_mobi(&mut all, book, options, images, srcs_data);
    add_record(&mut all, bytes_of("BOUNDARY"));
    let start: usize = all.len();
    assert(start == kf8_start(*book, options, srcs));
    add_dual_kf8(&mut all, book, options, cover, layout);
    add_records(&mut all, hd);
    let ghost tail = dual_tail(*book, options, srcs);
    proof {
        assert(contents(all@) =~= first + tail);
        assert(all@.len() == contents(all@).len());
        assert(all@.len() == 1 + tail.len());
    }
    let fields = MobiFields {
        text_length: p.text_length,
        text_record_count: p.text_records,
        plain: options.no_compress,
        first_non_book_record: p.first_image,
        orth_index_record: None,
        last_record: all.len() - 1,
        flis_record: p.flis,
        fcis_record: p.fcis,
        first_image_record: if image_count > 0 {
            Some(p.first_image)
        } else {
            None
        },
        srcs_record: if srcs_data.is_some() {
            Some(p.srcs)
        } else {
            None
        },
        version: 6,
    };
    assert(fields == dual_fields(*book, options, srcs));
    let chars: HashSet<u32> = HashSet::new();
    assert(chars@ =~= Set::empty());
    let geometry_text: Option<&str> = match &hd_geometry {
        Some(t) => Some(t.as_str()),
        None => None,
    };
    let record = build_record0(
        &book.meta,
        &fields,
        false,
        &chars,
        cover,
        layout,
        Some(length32(start)),
        geometry_text,
        options.creator_tag,
    );
    let ghost head = record@;
    set_record(&mut all, 0, record);
    assert(contents(all@) =~= seq![head] + tail);
    all
}

fn build_dual_kf8_record0(
    book: &Book,
    options: BookOptions,
    cover: Option<u32>,
    layout: Option<&FixedLayoutMeta>,
    fields: &Kf8Fields,
) -> (r: Vec<u8>)
    requires
        cover == book.cover(),
        layout == book.fixed_layout(),
        *fields == kf8_fields(book.kf8(options.no_compress), 0, false, None),
    ensures
        dual_kf8(*book, options) == seq![r@] + kf8_tail(book.kf8(options.no_compress), seq![])
            + seq![end_record()],
{
    proof {
        reveal(dual_kf8);
    }
    build_kf8_record0(&book.meta, fields, cover, layout, None, options.creator_tag)
}

/// Build a book, in both formats or in KF8 alone.
///
/// `now` is the time of creation as a Palm OS timestamp.
pub fn build_book_mobi(
    book: &Book,
    options: BookOptions,
    srcs_data: Option<&[u8]>,
    now: u32,
) -> (r: Vec<u8>)
    ensures
        r@ == palmdb(
            full_name(book.meta.title@, false),
            book_file(*book, options, opt_bytes(srcs_data)),
            now,
        ),
{
    let records = if options.kf8_only {
        build_kf8_book(book, options, srcs_data)
    } else {
        build_dual_book(book, options, srcs_data)
    };
    assert(contents(records@).len() == records@.len());
    let title = book.meta.title.as_str();
    build_palmdb(if title.is_empty() { "Book" } else { title }, &records, now)
}

/// `list` stands in `file` from record `n` on.
pub open spec fn stand_at(file: Seq<Seq<u8>>, n: int, list: Seq<Seq<u8>>) -> bool {
    &&& 0 <= n
    &&& n + list.len() <= file.len()
    &&& file.subrange(n, n + list.len()) == list
}

/// `record` is record `n` of `file`.
pub open spec fn stands_at(file: Seq<Seq<u8>>, n: int, record: Seq<u8>) -> bool {
    0 <= n < file.len() && file[n] == record
}

/// The header fields of a dictionary name the records they stand for. FLIS, FCIS and
/// the source are where the header says, so is the index if it has records, and the
/// text records, which follow record 0, hold the text; as long as the numbers fit their
/// fields.
pub proof fn dictionary_header_leads_to_records(
    meta: Metadata,
    chars: Set<u32>,
    text: Seq<u8>,
    indx: Seq<Seq<u8>>,
    plain: bool,
    srcs: Option<Seq<u8>>,
    include_cmet: bool,
    creator_tag: bool,
)
    requires
        text.len() <= usize::MAX,
        ({
            let file = dictionary_file(
                meta,
                chars,
                text,
                indx,
                plain,
                srcs,
                include_cmet,
                creator_tag,
            );
            &&& file.len() <= u32::MAX
            &&& 280 + exth_block(
                metadata_records(meta, true, chars, None, None, None, None, creator_tag),
            ).len() <= u32::MAX
            &&& utf8(full_name(meta.title@, true)).len() <= u32::MAX
        }),
    ensures
        ({
            let file = dictionary_file(
                meta,
                chars,
                text,
                indx,
                plain,
                srcs,
                include_cmet,
                creator_tag,
            );
            let t = mobi_records(text, plain).len() as int;
            &&& 1 + t <= file.len()
            &&& restored(file.subrange(1, 1 + t), plain) == text
            &&& stands_at(file, field(file[0], 192), flis())
            &&& stands_at(file, field(file[0], 184), fcis(text.len() as int))
            &&& indx.len() > 0 ==> stand_at(file, field(file[0], 24), indx)
            &&& srcs is Some ==> stands_at(file, field(file[0], 208), source_record(srcs->0))
            &&& srcs is None ==> field(file[0], 208) == 0xFFFF_FFFF
            &&& file.last() == end_record()
        }),
{
    let file = dictionary_file(meta, chars, text, indx, plain, srcs, include_cmet, creator_tag);
    let f = dictionary_fields(text, indx, plain, srcs, include_cmet);
    let exth = exth_block(
        metadata_records(meta, true, chars, None, None, None, None, creator_tag),
    );
    let list = mobi_records(text, plain);
    let t = list.len() as int;
    let i = indx.len() as int;
    record0_reads_back(meta, f, true, exth);
    mobi_text_reads_back(text, plain);
    assert(file[0] == record0(meta, f, true, exth));
    assert(file.subrange(1, 1 + t) =~= list);
    low32_of_small(t + 1);
    low32_of_small(t + 1 + i);
    low32_of_small(t + 2 + i);
    assert(file[t + 1 + i] == flis());
    assert(file[t + 2 + i] == fcis(text.len() as int));
    if srcs is Some {
        low32_of_small(t + 3 + i);
        assert(file[t + 3 + i] == source_record(srcs->0));
    }
    if i > 0 {
        assert(file.subrange(t + 1, t + 1 + i) =~= indx);
    }
}

proof fn indexes_have_two_records(chunks: Seq<Chunk>, tag: u8, n: nat)
    ensures
        chunk_index(chunks, tag).len() == 2,
        contents_index(n).len() == 2,
{
    reveal(chunk_index);
    reveal(contents_index);
}

proof fn tail_places(
    text: Seq<Seq<u8>>,
    images: Seq<Seq<u8>>,
    fragments: Seq<Seq<u8>>,
    skeletons: Seq<Seq<u8>>,
    ncx: Seq<Seq<u8>>,
    separator: Seq<u8>,
    ends: Seq<Seq<u8>>,
)
    requires
        ends.len() == 4,
    ensures
        ({
            let tail = text + seq![separator] + images + fragments + skeletons + ncx + seq![ends[0]]
                + seq![ends[1]] + seq![ends[2]] + seq![ends[3]];
            let a = text.len() + 1 + images.len() as int;
            let b = a + fragments.len();
            let c = b + skeletons.len();
            let d = c + ncx.len();
            &&& tail.len() == d + 4
            &&& tail.subrange(0, text.len() as int) == text
            &&& tail.subrange(text.len() as int + 1, a) == images
            &&& tail.subrange(a, b) == fragments
            &&& tail.subrange(b, c) == skeletons
            &&& tail.subrange(c, d) == ncx
            &&& tail[d] == ends[0]
            &&& tail[d + 1] == ends[1]
            &&& tail[d + 2] == ends[2]
            &&& tail[d + 3] == ends[3]
        }),
{
    let tail = text + seq![separator] + images + fragments + skeletons + ncx + seq![ends[0]]
        + seq![ends[1]] + seq![ends[2]] + seq![ends[3]];
    let a = text.len() + 1 + images.len() as int;
    let b = a + fragments.len();
    let c = b + skeletons.len();
    let d = c + ncx.len();
    assert(tail.subrange(0, text.len() as int) =~= text);
    assert(tail.subrange(text.len() as int + 1, a) =~= images);
    assert(tail.subrange(a, b) =~= fragments);
    assert(tail.subrange(b, c) =~= skeletons);
    assert(tail.subrange(c, d) =~= ncx);
}

/// Where the records of a KF8 part stand behind its record 0.
proof fn kf8_tail_places(source: Kf8Source, images: Seq<Seq<u8>>)
    ensures
        ({
            let tail = kf8_tail(source, images);
            let k = kf8_records(source.text(), source.plain).len() as int;
            let fragment = k + 2 + images.len();
            let skeleton = fragment + 2;
            let ncx = skeleton + 2;
            let fdst = ncx + 2;
            &&& chunk_index(fragments_of(source.parts.len()), 2).len() == 2
            &&& chunk_index(skeletons_of(source.parts), 1).len() == 2
            &&& contents_index(source.parts.len()).len() == 2
            &&& tail.len() == fdst + 3
            &&& tail.subrange(0, k) == kf8_records(source.text(), source.plain)
            &&& tail.subrange(k + 1, k + 1 + images.len()) == images
            &&& tail.subrange(fragment - 1, skeleton - 1) == chunk_index(
                fragments_of(source.parts.len()),
                2,
            )
            &&& tail.subrange(skeleton - 1, ncx - 1) == chunk_index(skeletons_of(source.parts), 1)
            &&& tail.subrange(ncx - 1, fdst - 1) == contents_index(source.parts.len())
            &&& tail[fdst - 1] == flow_table(
                source.html().len() as int,
                source.text().len() as int,
            )
            &&& tail[fdst] == position_record()
            &&& tail[fdst + 1] == flis()
            &&& tail[fdst + 2] == fcis(source.text().len() as int)
        }),
{
    reveal(kf8_tail);
    let n = source.parts.len();
    indexes_have_two_records(fragments_of(n), 2, n);
    indexes_have_two_records(skeletons_of(source.parts), 1, n);
    tail_places(
        kf8_records(source.text(), source.plain),
        images,
        chunk_index(fragments_of(n), 2),
        chunk_index(skeletons_of(source.parts), 1),
        contents_index(n),
        seq![0u8],
        seq![
            flow_table(source.html().len() as int, source.text().len() as int),
            position_record(),
            flis(),
            fcis(source.text().len() as int),
        ],
    );
}

/// The header of a KF8 part that stands at `start` of a file leads to its records.
pub open spec fn kf8_header_is_true(
    file: Seq<Seq<u8>>,
    start: int,
    source: Kf8Source,
    images: Seq<Seq<u8>>,
) -> bool {
    let head = file[start];
    let k = kf8_records(source.text(), source.plain).len() as int;
    &&& 0 <= start
    &&& start + 1 + k <= file.len()
    &&& field(head, 20) == 8
    &&& restored(file.subrange(start + 1, start + 1 + k), source.plain) == source.text()
    &&& stand_at(
        file,
        start + field(head, 220),
        chunk_index(fragments_of(source.parts.len()), 2),
    )
    &&& stand_at(file, start + field(head, 212), chunk_index(skeletons_of(source.parts), 1))
    &&& stand_at(file, start + field(head, 228), contents_index(source.parts.len()))
    &&& stands_at(
        file,
        start + field(head, 160),
        flow_table(source.html().len() as int, source.text().len() as int),
    )
    &&& stands_at(file, start + field(head, 216), position_record())
    &&& stands_at(file, start + field(head, 192), flis())
    &&& stands_at(file, start + field(head, 184), fcis(source.text().len() as int))
    &&& images.len() > 0 ==> stand_at(file, start + field(head, 92), images)
    &&& images.len() == 0 ==> field(head, 92) == 0xFFFF_FFFF
}

proof fn kf8_part_leads_to_records(
    file: Seq<Seq<u8>>,
    start: int,
    meta: Metadata,
    source: Kf8Source,
    images: Seq<Seq<u8>>,
    with_source: bool,
    last_record: Option<usize>,
    exth: Seq<u8>,
)
    requires
        0 <= start,
        file.len() <= u32::MAX,
        source.text().len() <= usize::MAX,
        start + 1 + kf8_tail(source, images).len() <= file.len(),
        with_source ==> start + 1 + kf8_tail(source, images).len() < file.len(),
        file[start] == kf8_record0(
            meta,
            kf8_fields(source, images.len(), with_source, last_record),
            exth,
        ),
        file.subrange(start + 1, start + 1 + kf8_tail(source, images).len()) == kf8_tail(
            source,
            images,
        ),
        280 + exth.len() <= u32::MAX,
        utf8(full_name(meta.title@, false)).len() <= u32::MAX,
    ensures
        kf8_header_is_true(file, start, source, images),
        with_source ==> field(file[start], 208) == 1 + kf8_tail(source, images).len(),
        !with_source ==> field(file[start], 208) == 0xFFFF_FFFF,
        field(file[start], 244) == field(file[start], 208),
{
    let f = kf8_fields(source, images.len(), with_source, last_record);
    let tail = kf8_tail(source, images);
    let k = kf8_records(source.text(), source.plain).len() as int;
    let fragment = k + 2 + images.len();
    let fdst = fragment + 6;
    kf8_tail_places(source, images);
    kf8_record0_reads_back(meta, f, exth);
    kf8_text_reads_back(source.text(), source.plain);
    reveal(kf8_fields);
    low32_of_small(k + 1);
    low32_of_small(k + 2);
    low32_of_small(fragment);
    low32_of_small(fragment + 2);
    low32_of_small(fragment + 4);
    low32_of_small(fdst);
    low32_of_small(fdst + 1);
    low32_of_small(fdst + 2);
    low32_of_small(fdst + 3);
    if with_source {
        low32_of_small(fdst + 4);
    }
    let part = file.subrange(start + 1, start + 1 + tail.len());
    assert forall|a: int, b: int| 0 <= a <= b <= tail.len() implies #[trigger] file.subrange(
        start + 1 + a,
        start + 1 + b,
    ) == tail.subrange(a, b) by {
        assert(file.subrange(start + 1 + a, start + 1 + b) =~= part.subrange(a, b));
    }
    assert forall|a: int| 0 <= a < tail.len() implies #[trigger] tail[a] == file[start + 1 + a] by {
        assert(part[a] == file[start + 1 + a]);
    }
    assert(file.subrange(start + 1 + 0, start + 1 + k) == tail.subrange(0, k));
    assert(file.subrange(start + 1 + (k + 1), start + 1 + (k + 1 + images.len())) == tail.subrange(
        k + 1,
        k + 1 + images.len(),
    ));
    assert(file.subrange(start + 1 + (fragment - 1), start + 1 + (fragment + 1)) == tail.subrange(
        fragment - 1,
        fragment + 1,
    ));
    assert(file.subrange(start + 1 + (fragment + 1), start + 1 + (fragment + 3)) == tail.subrange(
        fragment + 1,
        fragment + 3,
    ));
    assert(file.subrange(start + 1 + (fragment + 3), start + 1 + (fragment + 5)) == tail.subrange(
        fragment + 3,
        fragment + 5,
    ));
    assert(tail[fdst - 1] == file[start + 1 + (fdst - 1)]);
    assert(tail[fdst] == file[start + 1 + fdst]);
    assert(tail[fdst + 1] == file[start + 1 + (fdst + 1)]);
    assert(tail[fdst + 2] == file[start + 1 + (fdst + 2)]);
}

/// The EXTH records of the first record 0 of a book.
pub open spec fn book_metadata(
    book: Book,
    options: BookOptions,
    srcs: Option<Seq<u8>>,
) -> Seq<Record> {
    metadata_records(
        book.meta,
        false,
        Set::empty(),
        book.cover(),
        book.fixed_layout(),
        if options.kf8_only {
            None
        } else {
            Some(low32(kf8_start(book, options, srcs)))
        },
        book.hd_geometry(options.hd_images),
        options.creator_tag,
    )
}

/// The numbers of a book fit the fields that hold them.
pub open spec fn fits(book: Book, options: BookOptions, srcs: Option<Seq<u8>>) -> bool {
    &&& book.plain_text().len() <= usize::MAX
    &&& book.kf8(options.no_compress).text().len() <= usize::MAX
    &&& book_file(book, options, srcs).len() <= u32::MAX
    &&& 280 + exth_block(book_metadata(book, options, srcs)).len() <= u32::MAX
    &&& 280 + exth_block(
        metadata_records(
            book.meta,
            false,
            Set::empty(),
            book.cover(),
            book.fixed_layout(),
            None,
            None,
            options.creator_tag,
        ),
    ).len() <= u32::MAX
    &&& utf8(full_name(book.meta.title@, false)).len() <= u32::MAX
}

/// A KF8 book: the header of record 0 leads to the records of the book, and to its
/// source where there is one, as long as the numbers fit their fields; the EXTH block
/// names no KF8 part.
pub proof fn kf8_book_header_leads_to_records(
    book: Book,
    options: BookOptions,
    srcs: Option<Seq<u8>>,
)
    requires
        options.kf8_only,
        fits(book, options, srcs),
    ensures
        ({
            let file = book_file(book, options, srcs);
            &&& kf8_header_is_true(file, 0, book.kf8(options.no_compress), book.image_list())
            &&& srcs is Some ==> stands_at(file, field(file[0], 208), source_record(srcs->0))
            &&& srcs is None ==> field(file[0], 208) == 0xFFFF_FFFF
            &&& field(file[0], 244) == field(file[0], 208)
            &&& !has_kind(book_metadata(book, options, srcs), 121)
        }),
{
    let file = book_file(book, options, srcs);
    let source = book.kf8(options.no_compress);
    let images = book.image_list();
    let body = kf8_tail(source, images);
    let tail = kf8_book_tail(book, options, srcs);
    let exth = exth_block(book_metadata(book, options, srcs));
    assert(file == seq![file[0]] + tail);
    assert(file.subrange(1, (1 + body.len()) as int) =~= body);
    if srcs is Some {
        assert(file[(1 + body.len()) as int] == source_record(srcs->0));
    }
    assert(images.len() == book.images@.len());
    kf8_part_leads_to_records(
        file,
        0,
        book.meta,
        source,
        images,
        srcs is Some,
        Some(tail.len() as usize),
        exth,
    );
    metadata_names_kf8(book, None, book.hd_geometry(options.hd_images), options.creator_tag);
}

proof fn metadata_names_kf8(
    book: Book,
    boundary: Option<u32>,
    hd_geometry: Option<Seq<char>>,
    creator_tag: bool,
)
    ensures
        ({
            let list = metadata_records(
                book.meta,
                false,
                Set::empty(),
                book.cover(),
                book.fixed_layout(),
                boundary,
                hd_geometry,
                creator_tag,
            );
            &&& has_kind(list, 121) <==> boundary is Some
            &&& boundary matches Some(b) ==> has_record(list, Record { kind: 121, data: be32(b) })
        }),
{
    reveal(metadata_records);
    let m = book.meta;
    book_kinds(
        full_name(m.title@, false),
        m.author@,
        m.date@,
        m.language@,
        book.cover(),
        book.fixed_layout(),
        boundary,
        hd_geometry,
        creator_tag,
        opt_string(m.doc_type),
        opt_string(m.description),
        opt_string(m.subject),
        opt_string(m.series),
        opt_string(m.series_index),
    );
}

/// A book of both formats: the first header leads to the records of the older part, and
/// its text records hold the text; the EXTH block names the record 0 of the KF8 part,
/// which stands behind a boundary and whose own header leads to the records of that
/// part; as long as the numbers fit their fields.
pub proof fn dual_book_headers_lead_to_records(
    book: Book,
    options: BookOptions,
    srcs: Option<Seq<u8>>,
)
    requires
        !options.kf8_only,
        fits(book, options, srcs),
    ensures
        ({
            let file = book_file(book, options, srcs);
            let head = file[0];
            let text = book.plain_text();
            let t = mobi_records(text, options.no_compress).len() as int;
            let n = book.image_list().len();
            let start = kf8_start(book, options, srcs);
            &&& field(head, 20) == 6
            &&& field(head, 24) == 0xFFFF_FFFF
            &&& 1 + t <= file.len()
            &&& restored(file.subrange(1, 1 + t), options.no_compress) == text
            &&& n > 0 ==> stand_at(file, field(head, 92), book.image_list())
            &&& n == 0 ==> field(head, 92) == 0xFFFF_FFFF
            &&& stands_at(file, field(head, 192), flis())
            &&& stands_at(file, field(head, 184), fcis(text.len() as int))
            &&& srcs is Some ==> stands_at(file, field(head, 208), source_record(srcs->0))
            &&& srcs is None ==> field(head, 208) == 0xFFFF_FFFF
            &&& has_record(
                book_metadata(book, options, srcs),
                Record { kind: 121, data: be32(start as u32) },
            )
            &&& stands_at(file, start - 1, utf8("BOUNDARY"@))
            &&& kf8_header_is_true(file, start, book.kf8(options.no_compress), seq![])
        }),
{
    let file = book_file(book, options, srcs);
    let f = dual_fields(book, options, srcs);
    let exth = exth_block(book_metadata(book, options, srcs));
    let text = book.plain_text();
    let list = mobi_records(text, options.no_compress);
    let t = list.len() as int;
    let n = book.image_list().len() as int;
    let front = mobi_tail(book, options, srcs);
    let start = kf8_start(book, options, srcs);
    let source = book.kf8(options.no_compress);
    let body = kf8_tail(source, seq![]);
    let second = dual_kf8(book, options);
    record0_reads_back(book.meta, f, false, exth);
    mobi_text_reads_back(text, options.no_compress);
    assert(file[0] == record0(book.meta, f, false, exth));
    assert(front.len() >= t + n + 2 && front.subrange(0, t) =~= list && front.subrange(t, t + n)
        =~= book.image_list() && front[t + n] == flis() && front[t + n + 1] == fcis(
        text.len() as int,
    ) && (srcs is Some ==> front.len() >= t + n + 3 && front[t + n + 2] == source_record(srcs->0)))
        by {
        reveal(mobi_tail);
    }
    assert(file == seq![file[0]] + front + seq![utf8("BOUNDARY"@)] + second + book.hd_records(
        options.hd_images,
    )) by {
        assert(seq![file[0]] + (front + seq![utf8("BOUNDARY"@)] + second + book.hd_records(
            options.hd_images,
        )) =~= seq![file[0]] + front + seq![utf8("BOUNDARY"@)] + second + book.hd_records(
            options.hd_images,
        ));
    }
    assert(file.subrange(1, 1 + t) =~= front.subrange(0, t));
    assert(file.subrange(1 + t, 1 + t + n) =~= front.subrange(t, t + n));
    assert(file[1 + t + n] == front[t + n]);
    assert(file[2 + t + n] == front[t + n + 1]);
    if srcs is Some {
        assert(file[3 + t + n] == front[t + n + 2]);
        low32_of_small(t + 3 + n);
    }
    low32_of_small(t + 1);
    low32_of_small(t + 1 + n);
    low32_of_small(t + 2 + n);
    low32_of_small(start);
    metadata_names_kf8(
        book,
        Some(low32(start)),
        book.hd_geometry(options.hd_images),
        options.creator_tag,
    );
    let kf8_exth = exth_block(
        metadata_records(
            book.meta,
            false,
            Set::empty(),
            book.cover(),
            book.fixed_layout(),
            None,
            None,
            options.creator_tag,
        ),
    );
    assert(second.len() == body.len() + 2 && second[0] == kf8_record0(
        book.meta,
        kf8_fields(source, 0, false, None),
        kf8_exth,
    ) && second.subrange(1, (1 + body.len()) as int) =~= body) by {
        reveal(dual_kf8);
    }
    assert(file[start] == second[0]);
    assert(file.subrange(start + 1, start + 1 + body.len()) =~= second.subrange(
        1,
        (1 + body.len()) as int,
    ));
    kf8_part_leads_to_records(file, start, book.meta, source, seq![], false, None, kf8_exth);
}

proof fn flat_adds(a: Seq<Seq<u8>>, b: Seq<Seq<u8>>)
    ensures
        flat(a + b).len() == flat(a).len() + flat(b).len(),
    decreases b.len(),
{
    if b.len() == 0 {
        assert(a + b =~= a);
    } else {
        flat_adds(a, b.drop_last());
        assert((a + b).drop_last() =~= a + b.drop_last());
        assert((a + b).last() == b.last());
    }
}

proof fn flat_of_one(r: Seq<u8>)
    ensures
        flat(seq![r]).len() == r.len(),
{
    reveal_with_fuel(flat, 2);
    assert(seq![r].drop_last() =~= seq![]);
}

/// Images add their own length to a KF8 part.
proof fn images_in_kf8_tail(source: Kf8Source, images: Seq<Seq<u8>>)
    ensures
        flat(kf8_tail(source, images)).len() == flat(kf8_tail(source, seq![])).len() + flat(
            images,
        ).len(),
        kf8_tail(source, images).len() == kf8_tail(source, seq![]).len() + images.len(),
{
    reveal(kf8_tail);
    let before = kf8_records(source.text(), source.plain) + seq![seq![0u8]];
    let after = chunk_index(fragments_of(source.parts.len()), 2) + chunk_index(
        skeletons_of(source.parts),
        1,
    ) + contents_index(source.parts.len()) + seq![
        flow_table(source.html().len() as int, source.text().len() as int),
    ] + seq![position_record()] + seq![flis()] + seq![fcis(source.text().len() as int)];
    assert(kf8_tail(source, images) =~= before + images + after);
    assert(kf8_tail(source, seq![]) =~= before + after);
    flat_adds(before + images, after);
    flat_adds(before, images);
    flat_adds(before, after);
}

/// A KF8 book is smaller than the same book in both formats.
pub proof fn kf8_alone_is_smaller(book: Book, options: BookOptions, srcs: Option<Seq<u8>>, now: u32)
    ensures
        ({
            let name = full_name(book.meta.title@, false);
            palmdb(name, kf8_book_file(book, options, srcs), now).len() < palmdb(
                name,
                dual_file(book, options, srcs),
                now,
            ).len()
        }),
{
    let name = full_name(book.meta.title@, false);
    let source = book.kf8(options.no_compress);
    let images = book.image_list();
    let srcs_list = source_records(srcs);
    let cmet = cmet_records(options.include_cmet);
    let hd = book.hd_records(options.hd_images);
    let start = low32(kf8_start(book, options, srcs));
    let geometry = book.hd_geometry(options.hd_images);
    let alone = kf8_book_file(book, options, srcs);
    let dual = dual_file(book, options, srcs);
    let tail = kf8_tail(source, images);
    let bare = kf8_tail(source, seq![]);
    palmdb_length(name, alone, now);
    palmdb_length(name, dual, now);
    images_in_kf8_tail(source, images);

    let exth_alone = exth_block(
        metadata_records(
            book.meta,
            false,
            Set::empty(),
            book.cover(),
            book.fixed_layout(),
            None,
            geometry,
            options.creator_tag,
        ),
    );
    let exth_dual = exth_block(
        metadata_records(
            book.meta,
            false,
            Set::empty(),
            book.cover(),
            book.fixed_layout(),
            Some(start),
            geometry,
            options.creator_tag,
        ),
    );
    boundary_adds_length(
        book.meta,
        book.cover(),
        book.fixed_layout(),
        start,
        geometry,
        options.creator_tag,
    );
    let fields = dual_fields(book, options, srcs);
    let kf8 = kf8_fields(
        source,
        book.images@.len(),
        srcs is Some,
        Some(kf8_book_tail(book, options, srcs).len() as usize),
    );
    kf8_record0_length(book.meta, kf8, exth_alone);
    mobi_record0_length(book.meta, fields, exth_dual);

    let first = kf8_record0(book.meta, kf8, exth_alone);
    assert(alone =~= seq![first] + (tail + srcs_list + cmet + seq![end_record()] + hd));
    flat_of_one(first);
    flat_adds(seq![first], tail + srcs_list + cmet + seq![end_record()] + hd);
    flat_adds(tail + srcs_list + cmet + seq![end_record()], hd);
    flat_adds(tail + srcs_list + cmet, seq![end_record()]);
    flat_adds(tail + srcs_list, cmet);
    flat_adds(tail, srcs_list);

    reveal(mobi_tail);
    reveal(dual_kf8);
    let older = record0(book.meta, fields, false, exth_dual);
    let text = mobi_records(book.plain_text(), options.no_compress);
    let ends = seq![flis()] + seq![fcis(book.plain_text().len() as int)];
    let part = dual_kf8(book, options);
    let boundary = seq![utf8("BOUNDARY"@)];
    assert(dual =~= seq![older] + (text + images + ends + srcs_list + cmet + boundary + part + hd));
    flat_of_one(older);
    flat_adds(seq![older], text + images + ends + srcs_list + cmet + boundary + part + hd);
    flat_adds(text + images + ends + srcs_list + cmet + boundary + part, hd);
    flat_adds(text + images + ends + srcs_list + cmet + boundary, part);
    flat_adds(text + images + ends + srcs_list + cmet, boundary);
    flat_adds(text + images + ends + srcs_list, cmet);
    flat_adds(text + images + ends, srcs_list);
    flat_adds(text + images, ends);
    flat_adds(text, images);
    let inner = part[0];
    assert(part =~= seq![inner] + (bare + seq![end_record()]));
    flat_adds(seq![inner], bare + seq![end_record()]);
    flat_adds(bare, seq![end_record()]);
}

/// The number of a cover is that of an image: where there is one it is less than the number of images,
/// the image has the path of the cover and could be read, and no later one does; there is none only
/// where no image with the path could be read.
pub proof fn cover_number_is_that_of_the_cover(images: Seq<Image>, cover: Option<Seq<char>>)
    requires
        images.len() <= u32::MAX,
    ensures
        match cover_number(images, cover) {
            Some(n) => {
                &&& n < images.len()
                &&& Some(images[n as int].href@) == cover
                &&& images[n as int].data is Some
                &&& forall|i: int|
                    n < i < images.len() && (#[trigger] images[i]).data is Some ==> Some(
                        images[i].href@,
                    ) != cover
            },
            None => forall|i: int|
                0 <= i < images.len() && (#[trigger] images[i]).data is Some ==> Some(
                    images[i].href@,
                ) != cover,
        },
    decreases images.len(),
{
    if images.len() > 0 && cover is Some {
        let rest = images.drop_last();
        let last = images.len() - 1;
        cover_number_is_that_of_the_cover(rest, cover);
        low32_of_small(last);
        assert(images[last] == images.last());
        assert forall|i: int| 0 <= i < last implies rest[i] == #[trigger] images[i] by {}
    }
}

/// The cover that the metadata of a book tells is its cover: the record so many places behind the first
/// image record that the header gives is the image with the path of the cover, in a KF8 book and in a
/// book of both formats alike. A book without a readable cover tells none.
pub proof fn covers_lead_to_their_image(book: Book, options: BookOptions, srcs: Option<Seq<u8>>)
    requires
        fits(book, options, srcs),
    ensures
        ({
            let file = book_file(book, options, srcs);
            let list = book_metadata(book, options, srcs);
            let images = book.images@;
            &&& data_of(list, 202) == data_of(list, 201)
            &&& {
                ||| {
                    &&& data_of(list, 201).len() == 0
                    &&& forall|i: int|
                        0 <= i < images.len() && (#[trigger] images[i]).data is Some ==> Some(
                            images[i].href@,
                        ) != opt_string(book.cover_href)
                }
                ||| exists|n: int|
                    {
                        &&& 0 <= n < images.len()
                        &&& Some((#[trigger] images[n]).href@) == opt_string(book.cover_href)
                        &&& images[n].data is Some
                        &&& data_of(list, 201) == seq![be32(n as u32)]
                        &&& stands_at(
                            file,
                            field(file[0], 92) + n,
                            with_density((images[n].data->0)@),
                        )
                    }
            }
        }),
{
    let file = book_file(book, options, srcs);
    let list = book_metadata(book, options, srcs);
    let images = book.images@;
    reveal(Book::cover);
    if options.kf8_only {
        kf8_book_header_leads_to_records(book, options, srcs);
    } else {
        dual_book_headers_lead_to_records(book, options, srcs);
    }
    assert(book.image_list().len() == images.len());
    if images.len() > 0 {
        let first = field(file[0], 92);
        assert(stand_at(file, first, book.image_list()));
        assert(images.len() <= u32::MAX);
        assert forall|i: int| 0 <= i < images.len() implies #[trigger] book.image_list()[i]
            == file[first + i] by {
            assert(file.subrange(first, first + images.len())[i] == file[first + i]);
        }
    }
    cover_number_is_that_of_the_cover(images, opt_string(book.cover_href));
    metadata_of_books_is_found(
        book.meta,
        Set::empty(),
        book.cover(),
        book.fixed_layout(),
        if options.kf8_only {
            None
        } else {
            Some(low32(kf8_start(book, options, srcs)))
        },
        book.hd_geometry(options.hd_images),
        options.creator_tag,
    );
    if let Some(n) = book.cover() {
        assert(book.image_list()[n as int] == image_record(images[n as int]));
        assert(images[n as int].data is Some);
    }
}

/// An image that a KF8 text embeds is the image record with its number: a source attribute with the
/// path of image `i` becomes a reference whose digits denote a number `n`, and the record `n - 1` places
/// behind the first image record that the header gives is that image.
pub proof fn embedded_images_lead_to_records(
    book: Book,
    options: BookOptions,
    srcs: Option<Seq<u8>>,
    m: Seq<Option<Seq<char>>>,
    i: int,
)
    requires
        fits(book, options, srcs),
        book.images@.len() < 0x10_0000,
        0 <= i < book.images@.len(),
        group(m, 1) == book.images@[i].href@,
        forall|k: int|
            i < k < book.images@.len() ==> (#[trigger] book.images@[k]).href@
                != book.images@[i].href@,
    ensures
        ({
            let file = book_file(book, options, srcs);
            let paths = path_forms(image_hrefs(book.images@), any_nested(book.spine_items@));
            let first = field(file[0], 92);
            &&& exists|n: int| #[trigger]
                embeds_image(embedded_source(paths, m), n) && stands_at(
                    file,
                    first + n - 1,
                    image_record(book.images@[i]),
                )
            &&& exists|n: int| #[trigger]
                gives_image(numbered_source(paths, m), n) && stands_at(
                    file,
                    first + n - 1,
                    image_record(book.images@[i]),
                )
        }),
{
    let file = book_file(book, options, srcs);
    let hrefs = image_hrefs(book.images@);
    let nested = any_nested(book.spine_items@);
    if options.kf8_only {
        kf8_book_header_leads_to_records(book, options, srcs);
    } else {
        dual_book_headers_lead_to_records(book, options, srcs);
    }
    let first = field(file[0], 92);
    let list = book.image_list();
    assert(list.len() == book.images@.len());
    assert(stand_at(file, first, list));
    assert(file.subrange(first, first + list.len())[i] == file[first + i]);
    assert(list[i] == image_record(book.images@[i]));
    assert(is_last_key(hrefs, hrefs[i], i)) by {
        assert forall|k: int| i < k < hrefs.len() implies #[trigger] hrefs[k] != hrefs[i] by {
            assert(book.images@[k].href@ != book.images@[i].href@);
        }
    }
    sources_embed_their_images(hrefs, nested, m, i);
    sources_give_their_images(hrefs, nested, m, i);
    let paths = path_forms(hrefs, nested);
    assert(embeds_image(embedded_source(paths, m), i + 1));
    assert(gives_image(numbered_source(paths, m), i + 1));
    assert(stands_at(file, first + (i + 1) - 1, image_record(book.images@[i])));
}

/// The text of a book in the older format is that of its documents, in which each source attribute is
/// exchanged for the number of its image where there are images, and which else stays as it is.
pub proof fn plain_text_numbers_its_images(book: Book, k: int)
    ensures
        ({
            let text = text_content(texts(book.documents@), false);
            let found = regex_found(source(Pattern::Source), text);
            let pieces = regex_split(source(Pattern::Source), text);
            let paths = path_forms(image_hrefs(book.images@), any_nested(book.spine_items@));
            &&& book.images@.len() == 0 ==> book.plain_text() == utf8(text)
            &&& book.images@.len() > 0 && pieces.len() == found.len() + 1 && 0 <= k < found.len()
                ==> exists|before: Seq<char>, behind: Seq<char>|
                book.plain_text() == utf8(
                    #[trigger] (before + numbered_source(paths, found[k]) + behind),
                )
        }),
{
    reveal(Book::plain_text);
    let text = text_content(texts(book.documents@), false);
    let found = regex_found(source(Pattern::Source), text);
    let pieces = regex_split(source(Pattern::Source), text);
    let paths = path_forms(image_hrefs(book.images@), any_nested(book.spine_items@));
    let joints = numbered_sources(paths, found);
    if book.images@.len() > 0 && pieces.len() == found.len() + 1 && 0 <= k < found.len() {
        joints_stand_between_pieces(pieces, joints, k);
        let before = woven(pieces.take(k + 1), joints.take(k));
        let behind = woven(pieces.skip(k + 1), joints.skip(k + 1));
        assert(book.plain_text() == utf8(before + numbered_source(paths, found[k]) + behind));
    }
}

/// The KF8 text of a book holds each of its documents, cleaned, with its images embedded and its tags
/// numbered, where the skeleton of its number says, and its styles behind them.
pub proof fn kf8_text_is_that_of_the_book(book: Book, plain: bool, i: int)
    requires
        0 <= i < book.documents@.len(),
    ensures
        ({
            let source = book.kf8(plain);
            let paths = path_forms(image_hrefs(book.images@), any_nested(book.spine_items@));
            let s = skeletons_of(source.parts)[i];
            &&& source.parts.len() == book.documents@.len()
            &&& source.plain == plain
            &&& source.text().skip(source.html().len() as int) == utf8(book.css@)
            &&& exists|aid: u32|
                source.text().subrange(s.position, s.position + s.first) == utf8(
                    #[trigger] kf8_part(cleaned_book_html(book.documents@[i]@), aid, paths),
                )
        }),
{
    reveal(Book::kf8);
    let parts = cleaned_documents(texts(book.documents@));
    let hrefs = image_hrefs(book.images@);
    let nested = any_nested(book.spine_items@);
    kf8_text_holds_documents_and_styles(parts, book.css@, hrefs, nested, plain);
    let aid = aid_before(parts, path_forms(hrefs, nested), i as nat);
    let s = skeletons_of(book.kf8(plain).parts)[i];
    assert(parts[i] == cleaned_book_html(book.documents@[i]@));
    assert(book.kf8(plain).text().subrange(s.position, s.position + s.first) == utf8(
        kf8_part(cleaned_book_html(book.documents@[i]@), aid, path_forms(hrefs, nested)),
    ));
}

/// The record 0 of a book holds the EXTH block of its metadata and its name, where the title counts.
pub proof fn book_tells_its_metadata(book: Book, options: BookOptions, srcs: Option<Seq<u8>>)
    requires
        fits(book, options, srcs),
    ensures
        ({
            let head = book_file(book, options, srcs)[0];
            let list = book_metadata(book, options, srcs);
            let block = exth_block(list);
            let at = field(head, 68);
            let name = utf8(full_name(book.meta.title@, false));
            &&& 280 + block.len() <= head.len()
            &&& head.subrange(280, 280int + block.len()) == block
            &&& records_at(block, 12, list.len()) == list
            &&& at + name.len() <= head.len()
            &&& head.subrange(at, at + name.len()) == name
            &&& data_of(list, 100) == one_text(book.meta.author@)
            &&& data_of(list, 106) == one_text(book.meta.date@)
            &&& data_of(list, 524) == one_text(book.meta.language@)
            &&& data_of(list, 103) == one_text(or_nothing(opt_string(book.meta.description)))
            &&& data_of(list, 105) == one_text(or_nothing(opt_string(book.meta.subject)))
            &&& data_of(list, 112) == one_text(or_nothing(opt_string(book.meta.series)))
            &&& data_of(list, 113) == one_text(or_nothing(opt_string(book.meta.series_index)))
        }),
{
    let list = book_metadata(book, options, srcs);
    let block = exth_block(list);
    assert forall|i: int| 0 <= i < list.len() implies 8 + (#[trigger] list[i]).data.len()
        <= u32::MAX by {
        records_are_shorter_than_their_block(list, i);
    }
    exth_reads_back(list);
    if options.kf8_only {
        let tail = kf8_book_tail(book, options, srcs);
        kf8_record0_reads_back(
            book.meta,
            kf8_fields(
                book.kf8(options.no_compress),
                book.images@.len(),
                srcs is Some,
                Some(tail.len() as usize),
            ),
            block,
        );
        kf8_record0_length(
            book.meta,
            kf8_fields(
                book.kf8(options.no_compress),
                book.images@.len(),
                srcs is Some,
                Some(tail.len() as usize),
            ),
            block,
        );
    } else {
        record0_reads_back(book.meta, dual_fields(book, options, srcs), false, block);
        mobi_record0_length(book.meta, dual_fields(book, options, srcs), block);
    }
    metadata_of_books_is_found(
        book.meta,
        Set::empty(),
        book.cover(),
        book.fixed_layout(),
        if options.kf8_only {
            None
        } else {
            Some(low32(kf8_start(book, options, srcs)))
        },
        book.hd_geometry(options.hd_images),
        options.creator_tag,
    );
}

/// The compilation metadata, where it is asked for, stands in a dictionary right before the record that
/// ends the file, and changes nothing else behind record 0. So does a source, before the metadata.
pub proof fn dictionaries_hold_what_is_asked_for(
    text: Seq<u8>,
    indx: Seq<Seq<u8>>,
    plain: bool,
    srcs: Option<Seq<u8>>,
    data: Seq<u8>,
)
    ensures
        ({
            let bare = dictionary_tail(text, indx, plain, None, false);
            let with = dictionary_tail(text, indx, plain, srcs, false);
            &&& bare.last() == seq![0xE9u8, 0x8E, 0x0D, 0x0A]
            &&& dictionary_tail(text, indx, plain, Some(data), false) == bare.drop_last().push(
                source_record(data),
            ).push(bare.last())
            &&& dictionary_tail(text, indx, plain, srcs, true) == with.drop_last().push(
                utf8("kindling 0.2.0"@),
            ).push(with.last())
        }),
{
    let bare = dictionary_tail(text, indx, plain, None, false);
    let with = dictionary_tail(text, indx, plain, srcs, false);
    assert(dictionary_tail(text, indx, plain, Some(data), false) =~= bare.drop_last().push(
        source_record(data),
    ).push(bare.last()));
    assert(dictionary_tail(text, indx, plain, srcs, true) =~= with.drop_last().push(
        utf8("kindling 0.2.0"@),
    ).push(with.last()));
}

/// Asked for, the compilation metadata stands in a KF8 book right before the record that ends it. Behind
/// that record stands the container of the images, if it is asked for and there are images.
pub proof fn kf8_books_hold_what_is_asked_for(
    book: Book,
    options: BookOptions,
    srcs: Option<Seq<u8>>,
)
    requires
        !options.include_cmet,
        !options.hd_images,
    ensures
        ({
            let bare = kf8_book_tail(book, options, srcs);
            let told = BookOptions { include_cmet: true, ..options };
            let large = BookOptions { hd_images: true, ..options };
            &&& bare.last() == seq![0xE9u8, 0x8E, 0x0D, 0x0A]
            &&& kf8_book_tail(book, told, srcs) == bare.drop_last().push(utf8("kindling 0.2.0"@)).push(
                bare.last(),
            )
            &&& kf8_book_tail(book, large, srcs) == bare + if book.images@.len() > 0 {
                container(full_name(book.meta.title@, false), book.image_list())
            } else {
                seq![]
            }
        }),
{
    let bare = kf8_book_tail(book, options, srcs);
    let told = BookOptions { include_cmet: true, ..options };
    let large = BookOptions { hd_images: true, ..options };
    reveal(Book::hd_records);
    assert(kf8_book_tail(book, told, srcs) =~= bare.drop_last().push(utf8("kindling 0.2.0"@)).push(
        bare.last(),
    ));
    assert(kf8_book_tail(book, large, srcs) =~= bare + book.hd_records(true));
}

/// In a book of both formats the older part ends with the compilation metadata, if it is asked for, and
/// the KF8 part with the record that ends it. Behind that stands the container of the images, if it is
/// asked for and there are images.
pub proof fn dual_books_hold_what_is_asked_for(
    book: Book,
    options: BookOptions,
    srcs: Option<Seq<u8>>,
)
    requires
        !options.include_cmet,
        !options.hd_images,
    ensures
        ({
            let bare = dual_tail(book, options, srcs);
            let front = mobi_tail(book, options, srcs);
            let told = BookOptions { include_cmet: true, ..options };
            let large = BookOptions { hd_images: true, ..options };
            &&& bare.last() == seq![0xE9u8, 0x8E, 0x0D, 0x0A]
            &&& mobi_tail(book, told, srcs) == front.push(utf8("kindling 0.2.0"@))
            &&& dual_tail(book, told, srcs) == front.push(utf8("kindling 0.2.0"@)) + bare.skip(
                front.len() as int,
            )
            &&& dual_tail(book, large, srcs) == bare + if book.images@.len() > 0 {
                container(full_name(book.meta.title@, false), book.image_list())
            } else {
                seq![]
            }
        }),
{
    let bare = dual_tail(book, options, srcs);
    let front = mobi_tail(book, options, srcs);
    let told = BookOptions { include_cmet: true, ..options };
    let large = BookOptions { hd_images: true, ..options };
    reveal(Book::hd_records);
    assert(mobi_tail(book, told, srcs) =~= front.push(utf8("kindling 0.2.0"@)) && mobi_tail(
        book,
        large,
        srcs,
    ) == front) by {
        reveal(mobi_tail);
    }
    assert(dual_kf8(book, told) == dual_kf8(book, options) && dual_kf8(book, large) == dual_kf8(
        book,
        options,
    ) && dual_kf8(book, options).len() > 0 && dual_kf8(book, options).last() == end_record()) by {
        reveal(dual_kf8);
    }
    assert(bare =~= front + seq![utf8("BOUNDARY"@)] + dual_kf8(book, options));
    assert(dual_tail(book, told, srcs) =~= front.push(utf8("kindling 0.2.0"@)) + bare.skip(
        front.len() as int,
    ));
    assert(dual_tail(book, large, srcs) =~= bare + book.hd_records(true));
}

/// A book has a record for each of its images, in their order: it is as long as the image and the same
/// but for the density, and has nothing where the image could not be read.
pub proof fn images_have_records(book: Book, i: int)
    requires
        0 <= i < book.images@.len(),
    ensures
        book.image_list().len() == book.images@.len(),
        book.images@[i].data is None ==> book.image_list()[i] == Seq::<u8>::empty(),
        book.images@[i].data matches Some(d) ==> book.image_list()[i] == with_density(d@),
{
}

} // verus!
