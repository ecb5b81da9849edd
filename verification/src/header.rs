//! Record 0: the PalmDOC header, the MOBI header, the EXTH block and the full name;
//! and the small fixed records.
use std::collections::HashSet;
use vstd::prelude::*;

use crate::bytes::{
    be16, be16_reads_back, be32, be32_reads_back, length32, length32_plus, low16, low16_of_small,
    low32, low32_of_small, number16, push_all, push_be16, push_be32, push_zeros, read_be16,
    read_be32, zeros,
};
use crate::exth::{
    book_metadata_is_found, book_records, build_book_exth, build_exth, data_of,
    dictionary_metadata_is_found, dictionary_records, exth_block, one_number, one_text, or_nothing,
    FixedLayoutMeta,
};
use crate::md5::{md5, md5_hash};
use crate::records::RECORD_SIZE;
use crate::text::{bytes_of, opt_string, opt_text, same_text, utf8};

verus! {

/// The length of the MOBI header.
pub const MOBI_HEADER_LENGTH: usize = 264;

/// What is known of a book or dictionary.
pub struct Metadata {
    pub title: String,
    pub author: String,
    pub date: String,
    pub language: String,
    /// The language of the headwords of a dictionary.
    pub dict_in_language: String,
    /// The language of the definitions of a dictionary.
    pub dict_out_language: String,
    /// The shelf: "EBOK" for books, anything else for documents.
    pub doc_type: Option<String>,
    pub description: Option<String>,
    pub subject: Option<String>,
    pub series: Option<String>,
    pub series_index: Option<String>,
}

/// The MOBI number of a language, zero for one that has none here.
pub open spec fn locale(lang: Seq<char>) -> u32 {
    if lang == "en"@ {
        9
    } else if lang == "el"@ {
        8
    } else if lang == "de"@ {
        7
    } else if lang == "fr"@ {
        12
    } else if lang == "es"@ {
        10
    } else if lang == "it"@ {
        16
    } else if lang == "pt"@ {
        22
    } else if lang == "nl"@ {
        19
    } else if lang == "ru"@ {
        25
    } else if lang == "ja"@ {
        17
    } else if lang == "zh"@ {
        4
    } else if lang == "ko"@ {
        18
    } else if lang == "ar"@ {
        1
    } else if lang == "he"@ {
        13
    } else if lang == "tr"@ {
        31
    } else {
        0
    }
}

/// Convert a language code to a MOBI locale code.
pub fn locale_code(lang: &str) -> (r: u32)
    ensures
        r == locale(lang@),
{
    if same_text(lang, "en") {
        9
    } else if same_text(lang, "el") {
        8
    } else if same_text(lang, "de") {
        7
    } else if same_text(lang, "fr") {
        12
    } else if same_text(lang, "es") {
        10
    } else if same_text(lang, "it") {
        16
    } else if same_text(lang, "pt") {
        22
    } else if same_text(lang, "nl") {
        19
    } else if same_text(lang, "ru") {
        25
    } else if same_text(lang, "ja") {
        17
    } else if same_text(lang, "zh") {
        4
    } else if same_text(lang, "ko") {
        18
    } else if same_text(lang, "ar") {
        1
    } else if same_text(lang, "he") {
        13
    } else if same_text(lang, "tr") {
        31
    } else {
        0
    }
}

/// The number of a record, or the mark for none.
pub open spec fn record_number(index: Option<usize>) -> u32 {
    match index {
        Some(i) => low32(i as int),
        None => 0xFFFF_FFFF,
    }
}

fn number_of_record(index: Option<usize>) -> (r: u32)
    ensures
        r == record_number(index),
{
    match index {
        Some(i) => length32(i),
        None => 0xFFFF_FFFF,
    }
}

/// The PalmDOC header: compression, text length, number and size of text records.
pub open spec fn palmdoc_header(text_length: int, text_records: int, plain: bool) -> Seq<u8> {
    let count = if text_records > 65535 {
        65535
    } else {
        text_records
    };
    let size = if text_records > 65000 && text_length / 65000 + 1 > RECORD_SIZE {
        text_length / 65000 + 1
    } else {
        RECORD_SIZE as int
    };
    be16(if plain { 1 } else { 2 }) + be16(0) + be32(low32(text_length)) + be16(low16(count)) + be16(
        low16(size),
    ) + be16(0) + be16(0)
}

fn push_palmdoc_header(out: &mut Vec<u8>, text_length: usize, text_records: usize, plain: bool)
    ensures
        final(out)@ == old(out)@ + palmdoc_header(text_length as int, text_records as int, plain),
{
    let count: usize = if text_records > 65535 {
        65535
    } else {
        text_records
    };
    let size: usize = if text_records > 65000 && text_length / 65000 + 1 > RECORD_SIZE {
        text_length / 65000 + 1
    } else {
        RECORD_SIZE
    };
    push_be16(out, if plain { 1 } else { 2 });
    push_be16(out, 0);
    push_be32(out, length32(text_length));
    push_be16(out, number16(count));
    push_be16(out, number16(size));
    push_be16(out, 0);
    push_be16(out, 0);
    assert(out@ =~= old(out)@ + palmdoc_header(text_length as int, text_records as int, plain));
}

/// The fields of a MOBI header that tell of other records.
pub struct MobiFields {
    /// The length of the text before compression.
    pub text_length: usize,
    /// The number of text records.
    pub text_record_count: usize,
    /// The text is not compressed.
    pub plain: bool,
    /// The first record that holds no text.
    pub first_non_book_record: usize,
    /// The first record of the dictionary index.
    pub orth_index_record: Option<usize>,
    /// The last record of the file.
    pub last_record: usize,
    pub flis_record: usize,
    pub fcis_record: usize,
    pub first_image_record: Option<usize>,
    /// The record of the embedded source.
    pub srcs_record: Option<usize>,
    /// The version of the file, and the least one that a reader needs.
    pub version: u32,
}

/// The first part of a MOBI header, up to the full name.
pub open spec fn header_start(name: Seq<u8>, version: u32, orth: u32, first_non_book: u32) -> Seq<u8> {
    utf8("MOBI"@) + be32(264) + be32(2) + be32(65001) + md5(name).take(4) + be32(version) + be32(orth)
        + be32(0xFFFF_FFFF) + be32(0xFFFF_FFFF) + be32(0xFFFF_FFFF) + be32(0xFFFF_FFFF) + be32(
        0xFFFF_FFFF,
    ) + be32(0xFFFF_FFFF) + be32(0xFFFF_FFFF) + be32(0xFFFF_FFFF) + be32(0xFFFF_FFFF) + be32(
        first_non_book,
    )
}

/// The part of a MOBI header that tells of the full name and the languages, up to
/// the capability marker and the fields of rights management.
pub open spec fn header_middle(
    name: Seq<u8>,
    exth_length: int,
    locales: (u32, u32, u32),
    version: u32,
    first_image: u32,
    marker: u32,
) -> Seq<u8> {
    be32(low32(280 + exth_length)) + be32(low32(name.len() as int)) + be32(locales.0) + be32(
        locales.1,
    ) + be32(locales.2) + be32(version) + be32(first_image) + be32(0) + be32(0) + zeros(8) + be32(
        marker,
    ) + zeros(32) + be32(0xFFFF_FFFF) + be32(0xFFFF_FFFF) + zeros(4)
}

/// The last part of a MOBI header of the older format.
pub open spec fn header_end(f: MobiFields) -> Seq<u8> {
    let srcs = record_number(f.srcs_record);
    let with_source = f.srcs_record is Some;
    zeros(16) + be32(0x1_0000u32 | low32(f.last_record as int)) + be32(1) + be32(
        low32(f.fcis_record as int),
    ) + be32(1) + be32(low32(f.flis_record as int)) + be32(1) + zeros(8) + be32(srcs) + be32(
        if with_source {
            1
        } else {
            0
        },
    ) + be32(0xFFFF_FFFF) + be32(0xFFFF_FFFF) + be32(3) + be32(0xFFFF_FFFF) + be32(0xFFFF_FFFF)
        + be32(0xFFFF_FFFF) + be32(0xFFFF_FFFF) + be32(srcs) + be32(
        if with_source {
            1
        } else {
            0xFFFF_FFFF
        },
    ) + be32(0) + be32(0xFFFF_FFFF) + be32(0)
}

/// A MOBI header of the older format.
pub open spec fn mobi_header(
    f: MobiFields,
    name: Seq<u8>,
    exth_length: int,
    locales: (u32, u32, u32),
    marker: u32,
) -> Seq<u8> {
    header_start(
        name,
        f.version,
        record_number(f.orth_index_record),
        low32(f.first_non_book_record as int),
    ) + header_middle(
        name,
        exth_length,
        locales,
        f.version,
        record_number(f.first_image_record),
        marker,
    ) + header_end(f)
}

/// A record with zeros behind it up to a multiple of four bytes.
pub open spec fn aligned(record: Seq<u8>) -> Seq<u8> {
    record + zeros(((4 - record.len() % 4) % 4) as nat)
}

/// The name of a book or dictionary, by its title or, where that is empty, by what
/// it is.
pub open spec fn full_name(title: Seq<char>, is_dictionary: bool) -> Seq<char> {
    if title.len() > 0 {
        title
    } else if is_dictionary {
        "Dictionary"@
    } else {
        "Book"@
    }
}

/// The EXTH records of record 0.
#[verifier::opaque]
pub open spec fn metadata_records(
    meta: Metadata,
    is_dictionary: bool,
    headword_chars: Set<u32>,
    cover_offset: Option<u32>,
    fixed_layout: Option<&FixedLayoutMeta>,
    kf8_boundary_record: Option<u32>,
    hd_geometry: Option<Seq<char>>,
    creator_tag: bool,
) -> Seq<crate::exth::Record> {
    let name = full_name(meta.title@, is_dictionary);
    if is_dictionary {
        dictionary_records(
            name,
            meta.author@,
            meta.date@,
            meta.language@,
            meta.dict_in_language@,
            meta.dict_out_language@,
            headword_chars,
            creator_tag,
        )
    } else {
        book_records(
            name,
            meta.author@,
            meta.date@,
            meta.language@,
            cover_offset,
            fixed_layout,
            kf8_boundary_record,
            hd_geometry,
            creator_tag,
            opt_string(meta.doc_type),
            opt_string(meta.description),
            opt_string(meta.subject),
            opt_string(meta.series),
            opt_string(meta.series_index),
        )
    }
}

/// Record 0 of the older format.
#[verifier::opaque]
pub open spec fn record0(
    meta: Metadata,
    f: MobiFields,
    is_dictionary: bool,
    exth: Seq<u8>,
) -> Seq<u8> {
    let name = utf8(full_name(meta.title@, is_dictionary));
    aligned(
        palmdoc_header(f.text_length as int, f.text_record_count as int, f.plain) + mobi_header(
            f,
            name,
            exth.len() as int,
            (
                locale(meta.language@),
                locale(meta.dict_in_language@),
                locale(meta.dict_out_language@),
            ),
            if is_dictionary {
                0x50
            } else {
                0x4850
            },
        ) + exth + name,
    )
}

fn push_header_start(out: &mut Vec<u8>, name: &[u8], version: u32, orth: u32, first_non_book: u32)
    ensures
        final(out)@ == old(out)@ + header_start(name@, version, orth, first_non_book),
{
    let mut r: Vec<u8> = Vec::new();
    push_all(&mut r, "MOBI".as_bytes());
    assert(r@ =~= utf8("MOBI"@));
    push_be32(&mut r, 264);
    push_be32(&mut r, 2);
    push_be32(&mut r, 65001);
    let hash = md5_hash(name);
    let id: [u8; 4] = [hash[0], hash[1], hash[2], hash[3]];
    assert(id@ =~= hash@.take(4));
    push_all(&mut r, &id);
    push_be32(&mut r, version);
    push_be32(&mut r, orth);
    push_be32(&mut r, 0xFFFF_FFFF);
    push_be32(&mut r, 0xFFFF_FFFF);
    push_be32(&mut r, 0xFFFF_FFFF);
    push_be32(&mut r, 0xFFFF_FFFF);
    push_be32(&mut r, 0xFFFF_FFFF);
    push_be32(&mut r, 0xFFFF_FFFF);
    push_be32(&mut r, 0xFFFF_FFFF);
    push_be32(&mut r, 0xFFFF_FFFF);
    push_be32(&mut r, 0xFFFF_FFFF);
    push_be32(&mut r, first_non_book);
    push_all(out, &r);
}

fn push_header_middle(
    out: &mut Vec<u8>,
    name: &[u8],
    exth_length: usize,
    locales: (u32, u32, u32),
    version: u32,
    first_image: u32,
    marker: u32,
)
    ensures
        final(out)@ == old(out)@ + header_middle(
            name@,
            exth_length as int,
            locales,
            version,
            first_image,
            marker,
        ),
{
    let mut r: Vec<u8> = Vec::new();
    push_be32(&mut r, length32_plus(exth_length, 280));
    assert(r@ =~= be32(low32(280 + exth_length)));
    push_be32(&mut r, length32(name.len()));
    push_be32(&mut r, locales.0);
    push_be32(&mut r, locales.1);
    push_be32(&mut r, locales.2);
    push_be32(&mut r, version);
    push_be32(&mut r, first_image);
    push_be32(&mut r, 0);
    push_be32(&mut r, 0);
    push_zeros(&mut r, 8);
    push_be32(&mut r, marker);
    push_zeros(&mut r, 32);
    push_be32(&mut r, 0xFFFF_FFFF);
    push_be32(&mut r, 0xFFFF_FFFF);
    push_zeros(&mut r, 4);
    push_all(out, &r);
}

fn push_header_end(out: &mut Vec<u8>, f: &MobiFields)
    ensures
        final(out)@ == old(out)@ + header_end(*f),
{
    let srcs: u32 = number_of_record(f.srcs_record);
    let with_source = f.srcs_record.is_some();
    let mut r: Vec<u8> = Vec::new();
    push_zeros(&mut r, 16);
    assert(r@ =~= zeros(16));
    push_be32(&mut r, 0x1_0000u32 | length32(f.last_record));
    push_be32(&mut r, 1);
    push_be32(&mut r, length32(f.fcis_record));
    push_be32(&mut r, 1);
    push_be32(&mut r, length32(f.flis_record));
    push_be32(&mut r, 1);
    push_zeros(&mut r, 8);
    push_be32(&mut r, srcs);
    push_be32(&mut r, if with_source { 1 } else { 0 });
    push_be32(&mut r, 0xFFFF_FFFF);
    push_be32(&mut r, 0xFFFF_FFFF);
    push_be32(&mut r, 3);
    push_be32(&mut r, 0xFFFF_FFFF);
    push_be32(&mut r, 0xFFFF_FFFF);
    push_be32(&mut r, 0xFFFF_FFFF);
    push_be32(&mut r, 0xFFFF_FFFF);
    push_be32(&mut r, srcs);
    push_be32(&mut r, if with_source { 1 } else { 0xFFFF_FFFF });
    push_be32(&mut r, 0);
    push_be32(&mut r, 0xFFFF_FFFF);
    push_be32(&mut r, 0);
    push_all(out, &r);
}

fn align(record: &mut Vec<u8>)
    ensures
        final(record)@ == aligned(old(record)@),
{
    let fill: usize = (4 - record.len() % 4) % 4;
    push_zeros(record, fill);
}

fn name_of(title: &str, is_dictionary: bool) -> (r: Vec<u8>)
    ensures
        r@ == utf8(full_name(title@, is_dictionary)),
{
    if !title.is_empty() {
        bytes_of(title)
    } else if is_dictionary {
        bytes_of("Dictionary")
    } else {
        bytes_of("Book")
    }
}

fn text_of(s: &Option<String>) -> (r: Option<&str>)
    ensures
        opt_text(r) == opt_string(*s),
{
    match s {
        Some(t) => Some(t.as_str()),
        None => None,
    }
}

fn build_metadata(
    meta: &Metadata,
    is_dictionary: bool,
    headword_chars: &HashSet<u32>,
    cover_offset: Option<u32>,
    fixed_layout: Option<&FixedLayoutMeta>,
    kf8_boundary_record: Option<u32>,
    hd_geometry: Option<&str>,
    creator_tag: bool,
) -> (r: Vec<u8>)
    ensures
        r@ == exth_block(
            metadata_records(
                *meta,
                is_dictionary,
                headword_chars@,
                cover_offset,
                fixed_layout,
                kf8_boundary_record,
                opt_text(hd_geometry),
                creator_tag,
            ),
        ),
{
    proof {
        reveal(metadata_records);
    }
    let title = meta.title.as_str();
    if is_dictionary {
        build_exth(
            if title.is_empty() {
                "Dictionary"
            } else {
                title
            },
            meta.author.as_str(),
            meta.date.as_str(),
            meta.language.as_str(),
            meta.dict_in_language.as_str(),
            meta.dict_out_language.as_str(),
            headword_chars,
            creator_tag,
        )
    } else {
        build_book_exth(
            if title.is_empty() {
                "Book"
            } else {
                title
            },
            meta.author.as_str(),
            meta.date.as_str(),
            meta.language.as_str(),
            cover_offset,
            fixed_layout,
            kf8_boundary_record,
            hd_geometry,
            creator_tag,
            text_of(&meta.doc_type),
            text_of(&meta.description),
            text_of(&meta.subject),
            text_of(&meta.series),
            text_of(&meta.series_index),
        )
    }
}

/// Build record 0 of the older format.
///
/// `kf8_boundary_record` is the record 0 of the KF8 part of the same file;
/// `hd_geometry` describes the container of high-resolution images.
pub fn build_record0(
    meta: &Metadata,
    fields: &MobiFields,
    is_dictionary: bool,
    headword_chars: &HashSet<u32>,
    cover_offset: Option<u32>,
    fixed_layout: Option<&FixedLayoutMeta>,
    kf8_boundary_record: Option<u32>,
    hd_geometry: Option<&str>,
    creator_tag: bool,
) -> (r: Vec<u8>)
    ensures
        r@ == record0(
            *meta,
            *fields,
            is_dictionary,
            exth_block(
                metadata_records(
                    *meta,
                    is_dictionary,
                    headword_chars@,
                    cover_offset,
                    fixed_layout,
                    kf8_boundary_record,
                    opt_text(hd_geometry),
                    creator_tag,
                ),
            ),
        ),
{
    let exth = build_metadata(
        meta,
        is_dictionary,
        headword_chars,
        cover_offset,
        fixed_layout,
        kf8_boundary_record,
        hd_geometry,
        creator_tag,
    );
    let name = name_of(meta.title.as_str(), is_dictionary);
    let mut r: Vec<u8> = Vec::new();
    push_palmdoc_header(&mut r, fields.text_length, fields.text_record_count, fields.plain);
    let ghost start = r@;
    assert(start =~= palmdoc_header(
        fields.text_length as int,
        fields.text_record_count as int,
        fields.plain,
    ));
    push_header_start(
        &mut r,
        &name,
        fields.version,
        number_of_record(fields.orth_index_record),
        length32(fields.first_non_book_record),
    );
    push_header_middle(
        &mut r,
        &name,
        exth.len(),
        (
            locale_code(meta.language.as_str()),
            locale_code(meta.dict_in_language.as_str()),
            locale_code(meta.dict_out_language.as_str()),
        ),
        fields.version,
        number_of_record(fields.first_image_record),
        if is_dictionary {
            0x50
        } else {
            0x4850
        },
    );
    push_header_end(&mut r, fields);
    assert(r@ =~= start + mobi_header(
        *fields,
        name@,
        exth@.len() as int,
        (
            locale(meta.language@),
            locale(meta.dict_in_language@),
            locale(meta.dict_out_language@),
        ),
        if is_dictionary {
            0x50
        } else {
            0x4850
        },
    ));
    push_all(&mut r, &exth);
    push_all(&mut r, &name);
    align(&mut r);
    proof {
        reveal(record0);
    }
    r
}

/// The fields of a KF8 header that tell of other records, all counted from this
/// record 0.
pub struct Kf8Fields {
    /// The length of the text before compression.
    pub text_length: usize,
    /// The number of text records.
    pub text_record_count: usize,
    /// The text is not compressed.
    pub plain: bool,
    /// The first record that holds no text.
    pub first_non_book_record: usize,
    pub fdst_record: usize,
    pub fdst_flow_count: usize,
    pub skeleton_indx_record: usize,
    pub fragment_indx_record: usize,
    pub ncx_record: usize,
    pub datp_record: usize,
    pub flis_record: usize,
    pub fcis_record: usize,
    pub first_image_record: Option<usize>,
    /// The record of the embedded source.
    pub srcs_record: Option<usize>,
    /// The last record of the file, where it is a KF8 file alone.
    pub last_record: Option<usize>,
}

/// The last part of a KF8 header.
///
/// It names the source twice, as the header of the older format does; the count that
/// follows the first of the two there gives way to the index of the skeletons.
pub open spec fn kf8_header_end(f: Kf8Fields) -> Seq<u8> {
    let flows = low32(f.fdst_flow_count as int);
    be32(low32(f.fdst_record as int)) + be32(flows) + zeros(8) + be32(
        match f.last_record {
            Some(n) => 0x1_0000u32 | low32(n as int),
            None => 0,
        },
    ) + be32(
        match f.last_record {
            Some(n) => 1,
            None => flows,
        },
    ) + be32(low32(f.fcis_record as int)) + be32(1) + be32(low32(f.flis_record as int)) + be32(1)
        + zeros(8) + be32(record_number(f.srcs_record)) + be32(
        low32(f.skeleton_indx_record as int),
    ) + be32(
        low32(f.datp_record as int),
    ) + be32(low32(f.fragment_indx_record as int)) + be32(3) + be32(low32(f.ncx_record as int)) + be32(
        0xFFFF_FFFF,
    ) + be32(0xFFFF_FFFF) + be32(0xFFFF_FFFF) + be32(record_number(f.srcs_record)) + be32(
        if f.srcs_record is Some {
            1
        } else {
            0xFFFF_FFFF
        },
    ) + be32(0) + be32(0xFFFF_FFFF) + be32(0)
}

/// A KF8 header.
pub open spec fn kf8_header(f: Kf8Fields, name: Seq<u8>, exth_length: int, language: u32) -> Seq<u8> {
    header_start(name, 8, 0xFFFF_FFFF, low32(f.first_non_book_record as int)) + header_middle(
        name,
        exth_length,
        (language, 0, 0),
        8,
        record_number(f.first_image_record),
        0x4850,
    ) + kf8_header_end(f)
}

/// Record 0 of a KF8 part.
#[verifier::opaque]
pub open spec fn kf8_record0(meta: Metadata, f: Kf8Fields, exth: Seq<u8>) -> Seq<u8> {
    let name = utf8(full_name(meta.title@, false));
    aligned(
        palmdoc_header(f.text_length as int, f.text_record_count as int, f.plain) + kf8_header(
            f,
            name,
            exth.len() as int,
            locale(meta.language@),
        ) + exth + name,
    )
}

fn push_kf8_header_end(out: &mut Vec<u8>, f: &Kf8Fields)
    ensures
        final(out)@ == old(out)@ + kf8_header_end(*f),
{
    let flows: u32 = length32(f.fdst_flow_count);
    let mut r: Vec<u8> = Vec::new();
    push_be32(&mut r, length32(f.fdst_record));
    assert(r@ =~= be32(low32(f.fdst_record as int)));
    push_be32(&mut r, flows);
    push_zeros(&mut r, 8);
    match f.last_record {
        Some(n) => {
            push_be32(&mut r, 0x1_0000u32 | length32(n));
            push_be32(&mut r, 1);
        },
        None => {
            push_be32(&mut r, 0);
            push_be32(&mut r, flows);
        },
    }
    push_be32(&mut r, length32(f.fcis_record));
    push_be32(&mut r, 1);
    push_be32(&mut r, length32(f.flis_record));
    push_be32(&mut r, 1);
    push_zeros(&mut r, 8);
    push_be32(&mut r, number_of_record(f.srcs_record));
    push_be32(&mut r, length32(f.skeleton_indx_record));
    push_be32(&mut r, length32(f.datp_record));
    push_be32(&mut r, length32(f.fragment_indx_record));
    push_be32(&mut r, 3);
    push_be32(&mut r, length32(f.ncx_record));
    push_be32(&mut r, 0xFFFF_FFFF);
    push_be32(&mut r, 0xFFFF_FFFF);
    push_be32(&mut r, 0xFFFF_FFFF);
    push_be32(&mut r, number_of_record(f.srcs_record));
    push_be32(&mut r, if f.srcs_record.is_some() { 1 } else { 0xFFFF_FFFF });
    push_be32(&mut r, 0);
    push_be32(&mut r, 0xFFFF_FFFF);
    push_be32(&mut r, 0);
    push_all(out, &r);
}

/// Build record 0 of a KF8 part.
///
/// In a file of both formats the part has no source, no container and no last record
/// of its own.
pub fn build_kf8_record0(
    meta: &Metadata,
    fields: &Kf8Fields,
    cover_offset: Option<u32>,
    fixed_layout: Option<&FixedLayoutMeta>,
    hd_geometry: Option<&str>,
    creator_tag: bool,
) -> (r: Vec<u8>)
    ensures
        r@ == kf8_record0(
            *meta,
            *fields,
            exth_block(
                metadata_records(
                    *meta,
                    false,
                    Set::empty(),
                    cover_offset,
                    fixed_layout,
                    None,
                    opt_text(hd_geometry),
                    creator_tag,
                ),
            ),
        ),
{
    let none: HashSet<u32> = HashSet::new();
    assert(none@ =~= Set::empty());
    let exth = build_metadata(
        meta,
        false,
        &none,
        cover_offset,
        fixed_layout,
        None,
        hd_geometry,
        creator_tag,
    );
    let name = name_of(meta.title.as_str(), false);
    let mut r: Vec<u8> = Vec::new();
    push_palmdoc_header(&mut r, fields.text_length, fields.text_record_count, fields.plain);
    let ghost start = r@;
    assert(start =~= palmdoc_header(
        fields.text_length as int,
        fields.text_record_count as int,
        fields.plain,
    ));
    push_header_start(&mut r, &name, 8, 0xFFFF_FFFF, length32(fields.first_non_book_record));
    push_header_middle(
        &mut r,
        &name,
        exth.len(),
        (locale_code(meta.language.as_str()), 0, 0),
        8,
        number_of_record(fields.first_image_record),
        0x4850,
    );
    push_kf8_header_end(&mut r, fields);
    assert(r@ =~= start + kf8_header(*fields, name@, exth@.len() as int, locale(meta.language@)));
    push_all(&mut r, &exth);
    push_all(&mut r, &name);
    align(&mut r);
    proof {
        reveal(kf8_record0);
    }
    r
}

/// The FLIS record, always the same.
#[verifier::opaque]
pub open spec fn flis() -> Seq<u8> {
    utf8("FLIS"@) + be32(8) + be16(65) + be16(0) + be32(0) + be32(0xFFFF_FFFF) + be16(1) + be16(3)
        + be32(3) + be32(1) + be32(0xFFFF_FFFF)
}

/// Build the FLIS record.
pub fn build_flis() -> (r: Vec<u8>)
    ensures
        r@ == flis(),
{
    proof {
        reveal(flis);
    }
    let mut r: Vec<u8> = bytes_of("FLIS");
    push_be32(&mut r, 8);
    push_be16(&mut r, 65);
    push_be16(&mut r, 0);
    push_be32(&mut r, 0);
    push_be32(&mut r, 0xFFFF_FFFF);
    push_be16(&mut r, 1);
    push_be16(&mut r, 3);
    push_be32(&mut r, 3);
    push_be32(&mut r, 1);
    push_be32(&mut r, 0xFFFF_FFFF);
    r
}

/// The FCIS record, which holds the length of the text.
#[verifier::opaque]
pub open spec fn fcis(text_length: int) -> Seq<u8> {
    utf8("FCIS"@) + be32(20) + be32(16) + be32(1) + be32(0) + be32(low32(text_length)) + be32(0)
        + be32(32) + be32(8) + be16(1) + be16(1) + be32(0)
}

/// Build the FCIS record.
pub fn build_fcis(text_length: usize) -> (r: Vec<u8>)
    ensures
        r@ == fcis(text_length as int),
{
    proof {
        reveal(fcis);
    }
    let mut r: Vec<u8> = bytes_of("FCIS");
    push_be32(&mut r, 20);
    push_be32(&mut r, 16);
    push_be32(&mut r, 1);
    push_be32(&mut r, 0);
    push_be32(&mut r, length32(text_length));
    push_be32(&mut r, 0);
    push_be32(&mut r, 32);
    push_be32(&mut r, 8);
    push_be16(&mut r, 1);
    push_be16(&mut r, 1);
    push_be32(&mut r, 0);
    r
}

/// Build the compilation metadata record: the tool that built the file.
pub fn build_cmet() -> (r: Vec<u8>)
    ensures
        r@ == utf8("kindling 0.2.0"@),
{
    bytes_of("kindling 0.2.0")
}

/// The record that ends a file.
pub open spec fn end_record() -> Seq<u8> {
    seq![0xE9, 0x8E, 0x0D, 0x0A]
}

/// Build the record that ends a file.
pub fn build_eof() -> (r: Vec<u8>)
    ensures
        r@ == end_record(),
{
    let r: Vec<u8> = vec![0xE9, 0x8E, 0x0D, 0x0A];
    assert(r@ =~= end_record());
    r
}

/// The record of an embedded source: a header of sixteen bytes, then the source.
#[verifier::opaque]
pub open spec fn source_record(data: Seq<u8>) -> Seq<u8> {
    utf8("SRCS"@) + be32(0x10) + be32(low32(data.len() as int)) + be32(1) + data
}

/// Build the record of an embedded source.
pub fn build_srcs(data: &[u8]) -> (r: Vec<u8>)
    ensures
        r@ == source_record(data@),
{
    proof {
        reveal(source_record);
    }
    let mut r: Vec<u8> = bytes_of("SRCS");
    push_be32(&mut r, 0x10);
    push_be32(&mut r, length32(data.len()));
    push_be32(&mut r, 1);
    push_all(&mut r, data);
    r
}

proof fn name_lengths(name: Seq<u8>)
    ensures
        utf8("MOBI"@).len() == 4,
        md5(name).take(4).len() == 4,
{
    broadcast use crate::bytes::group_lengths;

    reveal_strlit("MOBI");
    vstd::utf8::is_ascii_chars_encode_utf8("MOBI"@);
}

proof fn header_start_layout(name: Seq<u8>, version: u32, orth: u32, first_non_book: u32)
    ensures
        ({
            let h = header_start(name, version, orth, first_non_book);
            &&& h.len() == 68
            &&& h.subrange(0, 4) == utf8("MOBI"@)
            &&& read_be32(h, 4) == MOBI_HEADER_LENGTH
            &&& read_be32(h, 20) == version
            &&& read_be32(h, 24) == orth
            &&& read_be32(h, 28) == 0xFFFF_FFFF
            &&& read_be32(h, 64) == first_non_book
        }),
{
    broadcast use crate::bytes::group_lengths;

    name_lengths(name);
    let h = header_start(name, version, orth, first_non_book);
    assert(h.len() == 68);
    assert(h.subrange(0, 4) =~= utf8("MOBI"@));
    assert(h.subrange(4, 8) =~= be32(264));
    assert(h.subrange(20, 24) =~= be32(version));
    assert(h.subrange(24, 28) =~= be32(orth));
    assert(h.subrange(28, 32) =~= be32(0xFFFF_FFFF));
    assert(h.subrange(64, 68) =~= be32(first_non_book));
    be32_reads_back(264, h, 4);
    be32_reads_back(version, h, 20);
    be32_reads_back(orth, h, 24);
    be32_reads_back(0xFFFF_FFFF, h, 28);
    be32_reads_back(first_non_book, h, 64);
}

proof fn header_middle_layout(
    name: Seq<u8>,
    exth_length: int,
    locales: (u32, u32, u32),
    version: u32,
    first_image: u32,
    marker: u32,
)
    ensures
        ({
            let h = header_middle(name, exth_length, locales, version, first_image, marker);
            &&& h.len() == 92
            &&& read_be32(h, 0) == low32(280 + exth_length)
            &&& read_be32(h, 4) == low32(name.len() as int)
            &&& read_be32(h, 8) == locales.0
            &&& read_be32(h, 12) == locales.1
            &&& read_be32(h, 16) == locales.2
            &&& read_be32(h, 20) == version
            &&& read_be32(h, 24) == first_image
            &&& read_be32(h, 44) == marker
        }),
{
    broadcast use crate::bytes::group_lengths;

    let h = header_middle(name, exth_length, locales, version, first_image, marker);
    assert(h.len() == 92);
    assert(h.subrange(0, 4) =~= be32(low32(280 + exth_length)));
    assert(h.subrange(4, 8) =~= be32(low32(name.len() as int)));
    assert(h.subrange(8, 12) =~= be32(locales.0));
    assert(h.subrange(12, 16) =~= be32(locales.1));
    assert(h.subrange(16, 20) =~= be32(locales.2));
    assert(h.subrange(20, 24) =~= be32(version));
    assert(h.subrange(24, 28) =~= be32(first_image));
    assert(h.subrange(44, 48) =~= be32(marker));
    be32_reads_back(low32(280 + exth_length), h, 0);
    be32_reads_back(low32(name.len() as int), h, 4);
    be32_reads_back(locales.0, h, 8);
    be32_reads_back(locales.1, h, 12);
    be32_reads_back(locales.2, h, 16);
    be32_reads_back(version, h, 20);
    be32_reads_back(first_image, h, 24);
    be32_reads_back(marker, h, 44);
}

proof fn header_end_layout(f: MobiFields)
    ensures
        ({
            let h = header_end(f);
            &&& h.len() == 104
            &&& read_be32(h, 24) == low32(f.fcis_record as int)
            &&& read_be32(h, 32) == low32(f.flis_record as int)
            &&& read_be32(h, 48) == record_number(f.srcs_record)
            &&& read_be32(h, 84) == record_number(f.srcs_record)
        }),
{
    broadcast use crate::bytes::group_lengths;

    let h = header_end(f);
    assert(h.len() == 104);
    assert(h.subrange(24, 28) =~= be32(low32(f.fcis_record as int)));
    assert(h.subrange(32, 36) =~= be32(low32(f.flis_record as int)));
    assert(h.subrange(48, 52) =~= be32(record_number(f.srcs_record)));
    assert(h.subrange(84, 88) =~= be32(record_number(f.srcs_record)));
    be32_reads_back(low32(f.fcis_record as int), h, 24);
    be32_reads_back(low32(f.flis_record as int), h, 32);
    be32_reads_back(record_number(f.srcs_record), h, 48);
    be32_reads_back(record_number(f.srcs_record), h, 84);
}

proof fn kf8_header_end_layout(f: Kf8Fields)
    ensures
        ({
            let h = kf8_header_end(f);
            &&& h.len() == 104
            &&& read_be32(h, 0) == low32(f.fdst_record as int)
            &&& read_be32(h, 4) == low32(f.fdst_flow_count as int)
            &&& read_be32(h, 24) == low32(f.fcis_record as int)
            &&& read_be32(h, 32) == low32(f.flis_record as int)
            &&& read_be32(h, 48) == record_number(f.srcs_record)
            &&& read_be32(h, 52) == low32(f.skeleton_indx_record as int)
            &&& read_be32(h, 56) == low32(f.datp_record as int)
            &&& read_be32(h, 60) == low32(f.fragment_indx_record as int)
            &&& read_be32(h, 68) == low32(f.ncx_record as int)
            &&& read_be32(h, 84) == record_number(f.srcs_record)
        }),
{
    broadcast use crate::bytes::group_lengths;

    let h = kf8_header_end(f);
    assert(h.len() == 104);
    assert(h.subrange(0, 4) =~= be32(low32(f.fdst_record as int)));
    assert(h.subrange(4, 8) =~= be32(low32(f.fdst_flow_count as int)));
    assert(h.subrange(24, 28) =~= be32(low32(f.fcis_record as int)));
    assert(h.subrange(32, 36) =~= be32(low32(f.flis_record as int)));
    assert(h.subrange(48, 52) =~= be32(record_number(f.srcs_record)));
    assert(h.subrange(52, 56) =~= be32(low32(f.skeleton_indx_record as int)));
    assert(h.subrange(56, 60) =~= be32(low32(f.datp_record as int)));
    assert(h.subrange(60, 64) =~= be32(low32(f.fragment_indx_record as int)));
    assert(h.subrange(68, 72) =~= be32(low32(f.ncx_record as int)));
    assert(h.subrange(84, 88) =~= be32(record_number(f.srcs_record)));
    be32_reads_back(low32(f.fdst_record as int), h, 0);
    be32_reads_back(low32(f.fdst_flow_count as int), h, 4);
    be32_reads_back(low32(f.fcis_record as int), h, 24);
    be32_reads_back(low32(f.flis_record as int), h, 32);
    be32_reads_back(record_number(f.srcs_record), h, 48);
    be32_reads_back(low32(f.skeleton_indx_record as int), h, 52);
    be32_reads_back(low32(f.datp_record as int), h, 56);
    be32_reads_back(low32(f.fragment_indx_record as int), h, 60);
    be32_reads_back(low32(f.ncx_record as int), h, 68);
    be32_reads_back(record_number(f.srcs_record), h, 84);
}

proof fn palmdoc_header_length(text_length: int, text_records: int, plain: bool)
    ensures
        palmdoc_header(text_length, text_records, plain).len() == 16,
{
    broadcast use crate::bytes::group_lengths;

}

proof fn read_within(s: Seq<u8>, whole: Seq<u8>, at: int, k: int)
    requires
        0 <= k,
        k + 4 <= s.len(),
        0 <= at,
        at + s.len() <= whole.len(),
        whole.subrange(at, at + s.len()) == s,
    ensures
        read_be32(whole, at + k) == read_be32(s, k),
{
    let part = whole.subrange(at, at + s.len());
    assert(part[k] == whole[at + k]);
    assert(part[k + 1] == whole[at + k + 1]);
    assert(part[k + 2] == whole[at + k + 2]);
    assert(part[k + 3] == whole[at + k + 3]);
}

/// The 32-bit field at offset `k` of the MOBI header in a record 0.
pub open spec fn field(record: Seq<u8>, k: int) -> int {
    read_be32(record, 16 + k)
}

/// What a reader finds in record 0 of the older format: the version, the indexes of
/// the other records where the format puts them, the marker by which a device tells
/// dictionaries from books, the EXTH block behind the header, and the full name where
/// the header says it is, as long as that place fits 32 bits.
pub proof fn record0_reads_back(
    meta: Metadata,
    f: MobiFields,
    is_dictionary: bool,
    exth: Seq<u8>,
)
    requires
        280 + exth.len() <= u32::MAX,
        utf8(full_name(meta.title@, is_dictionary)).len() <= u32::MAX,
    ensures
        ({
            let r = record0(meta, f, is_dictionary, exth);
            let name = utf8(full_name(meta.title@, is_dictionary));
            let at = field(r, 68);
            &&& r.len() % 4 == 0
            &&& r.subrange(16, 20) == utf8("MOBI"@)
            &&& field(r, 4) == MOBI_HEADER_LENGTH
            &&& field(r, 20) == f.version
            &&& field(r, 24) == record_number(f.orth_index_record)
            &&& field(r, 28) == 0xFFFF_FFFF
            &&& field(r, 64) == low32(f.first_non_book_record as int)
            &&& field(r, 76) == locale(meta.language@)
            &&& field(r, 80) == locale(meta.dict_in_language@)
            &&& field(r, 84) == locale(meta.dict_out_language@)
            &&& field(r, 92) == record_number(f.first_image_record)
            &&& field(r, 112) == if is_dictionary {
                0x50int
            } else {
                0x4850
            }
            &&& field(r, 184) == low32(f.fcis_record as int)
            &&& field(r, 192) == low32(f.flis_record as int)
            &&& field(r, 208) == record_number(f.srcs_record)
            &&& field(r, 244) == record_number(f.srcs_record)
            &&& r.subrange(280, (280 + exth.len()) as int) == exth
            &&& at + name.len() <= r.len()
            &&& field(r, 72) == name.len()
            &&& r.subrange(at, at + name.len()) == name
        }),
{
    reveal(record0);
    let r = record0(meta, f, is_dictionary, exth);
    let name = utf8(full_name(meta.title@, is_dictionary));
    let locales = (
        locale(meta.language@),
        locale(meta.dict_in_language@),
        locale(meta.dict_out_language@),
    );
    let marker = if is_dictionary {
        0x50u32
    } else {
        0x4850u32
    };
    let palm = palmdoc_header(f.text_length as int, f.text_record_count as int, f.plain);
    let a = header_start(
        name,
        f.version,
        record_number(f.orth_index_record),
        low32(f.first_non_book_record as int),
    );
    let b = header_middle(
        name,
        exth.len() as int,
        locales,
        f.version,
        record_number(f.first_image_record),
        marker,
    );
    let c = header_end(f);
    palmdoc_header_length(f.text_length as int, f.text_record_count as int, f.plain);
    header_start_layout(
        name,
        f.version,
        record_number(f.orth_index_record),
        low32(f.first_non_book_record as int),
    );
    header_middle_layout(
        name,
        exth.len() as int,
        locales,
        f.version,
        record_number(f.first_image_record),
        marker,
    );
    header_end_layout(f);
    laid_out(palm, a, b, c, exth, name, r);
    low32_of_small(280int + exth.len());
    low32_of_small(name.len() as int);
    read_within(a, r, 16, 4);
    read_within(a, r, 16, 20);
    read_within(a, r, 16, 24);
    read_within(a, r, 16, 28);
    read_within(a, r, 16, 64);
    read_within(b, r, 84, 0);
    read_within(b, r, 84, 4);
    read_within(b, r, 84, 8);
    read_within(b, r, 84, 12);
    read_within(b, r, 84, 16);
    read_within(b, r, 84, 24);
    read_within(b, r, 84, 44);
    read_within(c, r, 176, 24);
    read_within(c, r, 176, 32);
    read_within(c, r, 176, 48);
    read_within(c, r, 176, 84);
    assert(r.subrange(16, 20) =~= a.subrange(0, 4)) by {
        assert(r.subrange(16, 84).subrange(0, 4) =~= r.subrange(16, 20));
    }
}

/// The parts of a record 0 stand where they belong.
proof fn laid_out(
    palm: Seq<u8>,
    a: Seq<u8>,
    b: Seq<u8>,
    c: Seq<u8>,
    exth: Seq<u8>,
    name: Seq<u8>,
    r: Seq<u8>,
)
    requires
        palm.len() == 16,
        a.len() == 68,
        b.len() == 92,
        c.len() == 104,
        r == aligned(palm + (a + b + c) + exth + name),
    ensures
        r.len() % 4 == 0,
        r.len() >= 280 + exth.len() + name.len(),
        r.subrange(16, 84) == a,
        r.subrange(84, 176) == b,
        r.subrange(176, 280) == c,
        r.subrange(280, (280 + exth.len()) as int) == exth,
        r.subrange((280 + exth.len()) as int, (280 + exth.len() + name.len()) as int) == name,
{
    let plain = palm + (a + b + c) + exth + name;
    assert(r.len() % 4 == 0);
    assert(r.subrange(16, 84) =~= a);
    assert(r.subrange(84, 176) =~= b);
    assert(r.subrange(176, 280) =~= c);
    assert(r.subrange(280, (280 + exth.len()) as int) =~= exth);
    assert(r.subrange((280 + exth.len()) as int, (280 + exth.len() + name.len()) as int) =~= name);
}

/// What a reader finds in record 0 of a KF8 part: version 8, no dictionary index, the
/// indexes of the other records where the format puts them, the EXTH block behind the
/// header, and the full name where the header says it is, as long as that place fits
/// 32 bits.
pub proof fn kf8_record0_reads_back(meta: Metadata, f: Kf8Fields, exth: Seq<u8>)
    requires
        280 + exth.len() <= u32::MAX,
        utf8(full_name(meta.title@, false)).len() <= u32::MAX,
    ensures
        ({
            let r = kf8_record0(meta, f, exth);
            let name = utf8(full_name(meta.title@, false));
            let at = field(r, 68);
            &&& r.len() % 4 == 0
            &&& r.subrange(16, 20) == utf8("MOBI"@)
            &&& field(r, 20) == 8
            &&& field(r, 24) == 0xFFFF_FFFF
            &&& field(r, 64) == low32(f.first_non_book_record as int)
            &&& field(r, 92) == record_number(f.first_image_record)
            &&& field(r, 112) == 0x4850
            &&& field(r, 160) == low32(f.fdst_record as int)
            &&& field(r, 164) == low32(f.fdst_flow_count as int)
            &&& field(r, 184) == low32(f.fcis_record as int)
            &&& field(r, 192) == low32(f.flis_record as int)
            &&& field(r, 208) == record_number(f.srcs_record)
            &&& field(r, 212) == low32(f.skeleton_indx_record as int)
            &&& field(r, 216) == low32(f.datp_record as int)
            &&& field(r, 220) == low32(f.fragment_indx_record as int)
            &&& field(r, 228) == low32(f.ncx_record as int)
            &&& field(r, 244) == record_number(f.srcs_record)
            &&& r.subrange(280, (280 + exth.len()) as int) == exth
            &&& at + name.len() <= r.len()
            &&& field(r, 72) == name.len()
            &&& r.subrange(at, at + name.len()) == name
        }),
{
    reveal(kf8_record0);
    let r = kf8_record0(meta, f, exth);
    let name = utf8(full_name(meta.title@, false));
    let locales = (locale(meta.language@), 0u32, 0u32);
    let palm = palmdoc_header(f.text_length as int, f.text_record_count as int, f.plain);
    let first = low32(f.first_non_book_record as int);
    let image = record_number(f.first_image_record);
    let a = header_start(name, 8, 0xFFFF_FFFF, first);
    let b = header_middle(name, exth.len() as int, locales, 8, image, 0x4850);
    let c = kf8_header_end(f);
    palmdoc_header_length(f.text_length as int, f.text_record_count as int, f.plain);
    header_start_layout(name, 8, 0xFFFF_FFFF, first);
    header_middle_layout(name, exth.len() as int, locales, 8, image, 0x4850);
    kf8_header_end_layout(f);
    laid_out(palm, a, b, c, exth, name, r);
    low32_of_small(280int + exth.len());
    low32_of_small(name.len() as int);
    read_within(a, r, 16, 20);
    read_within(a, r, 16, 24);
    read_within(a, r, 16, 64);
    read_within(b, r, 84, 0);
    read_within(b, r, 84, 4);
    read_within(b, r, 84, 24);
    read_within(b, r, 84, 44);
    read_within(c, r, 176, 0);
    read_within(c, r, 176, 4);
    read_within(c, r, 176, 24);
    read_within(c, r, 176, 32);
    read_within(c, r, 176, 48);
    read_within(c, r, 176, 52);
    read_within(c, r, 176, 56);
    read_within(c, r, 176, 60);
    read_within(c, r, 176, 68);
    read_within(c, r, 176, 84);
    assert(r.subrange(16, 20) =~= a.subrange(0, 4)) by {
        assert(r.subrange(16, 84).subrange(0, 4) =~= r.subrange(16, 20));
    }
}

/// The EXTH block of a book that names its KF8 part is no shorter than that of one that does not.
pub proof fn boundary_adds_length(
    meta: Metadata,
    cover_offset: Option<u32>,
    fixed_layout: Option<&FixedLayoutMeta>,
    boundary: u32,
    hd_geometry: Option<Seq<char>>,
    creator_tag: bool,
)
    ensures
        exth_block(
            metadata_records(
                meta,
                false,
                Set::empty(),
                cover_offset,
                fixed_layout,
                None,
                hd_geometry,
                creator_tag,
            ),
        ).len() <= exth_block(
            metadata_records(
                meta,
                false,
                Set::empty(),
                cover_offset,
                fixed_layout,
                Some(boundary),
                hd_geometry,
                creator_tag,
            ),
        ).len(),
{
    reveal(metadata_records);
    let name = full_name(meta.title@, false);
    let without = book_records(
        name,
        meta.author@,
        meta.date@,
        meta.language@,
        cover_offset,
        fixed_layout,
        None,
        None,
        creator_tag,
        opt_string(meta.doc_type),
        opt_string(meta.description),
        opt_string(meta.subject),
        opt_string(meta.series),
        opt_string(meta.series_index),
    );
    let more = crate::exth::number_record(121, Some(boundary));
    let after = crate::exth::raw_text_record(536, hd_geometry);
    crate::exth::more_records_are_longer(without, more, after);
    assert(metadata_records(
        meta,
        false,
        Set::empty(),
        cover_offset,
        fixed_layout,
        None,
        hd_geometry,
        creator_tag,
    ) =~= without + after);
    assert(metadata_records(
        meta,
        false,
        Set::empty(),
        cover_offset,
        fixed_layout,
        Some(boundary),
        hd_geometry,
        creator_tag,
    ) =~= without + more + after);
}

/// The length of a record 0: it depends on the EXTH block and on the name alone, and is the same in
/// both formats.
pub open spec fn record0_length(exth: int, name: int) -> int {
    (280 + exth + name + 3) / 4 * 4
}

proof fn laid_out_length(
    palm: Seq<u8>,
    a: Seq<u8>,
    b: Seq<u8>,
    c: Seq<u8>,
    exth: Seq<u8>,
    name: Seq<u8>,
)
    requires
        palm.len() == 16,
        a.len() == 68,
        b.len() == 92,
        c.len() == 104,
    ensures
        aligned(palm + (a + b + c) + exth + name).len() == record0_length(
            exth.len() as int,
            name.len() as int,
        ),
{
}

/// How long a record 0 of the older format is.
pub proof fn mobi_record0_length(meta: Metadata, f: MobiFields, exth: Seq<u8>)
    ensures
        record0(meta, f, false, exth).len() == record0_length(
            exth.len() as int,
            utf8(full_name(meta.title@, false)).len() as int,
        ),
{
    reveal(record0);
    let name = utf8(full_name(meta.title@, false));
    let locales = (
        locale(meta.language@),
        locale(meta.dict_in_language@),
        locale(meta.dict_out_language@),
    );
    let first = low32(f.first_non_book_record as int);
    let orth = record_number(f.orth_index_record);
    let image = record_number(f.first_image_record);
    palmdoc_header_length(f.text_length as int, f.text_record_count as int, f.plain);
    header_start_layout(name, f.version, orth, first);
    header_middle_layout(name, exth.len() as int, locales, f.version, image, 0x4850);
    header_end_layout(f);
    laid_out_length(
        palmdoc_header(f.text_length as int, f.text_record_count as int, f.plain),
        header_start(name, f.version, orth, first),
        header_middle(name, exth.len() as int, locales, f.version, image, 0x4850),
        header_end(f),
        exth,
        name,
    );
}

/// How long a record 0 of a KF8 part is.
pub proof fn kf8_record0_length(meta: Metadata, f: Kf8Fields, exth: Seq<u8>)
    ensures
        kf8_record0(meta, f, exth).len() == record0_length(
            exth.len() as int,
            utf8(full_name(meta.title@, false)).len() as int,
        ),
{
    reveal(kf8_record0);
    let name = utf8(full_name(meta.title@, false));
    let locales = (locale(meta.language@), 0u32, 0u32);
    let first = low32(f.first_non_book_record as int);
    let image = record_number(f.first_image_record);
    palmdoc_header_length(f.text_length as int, f.text_record_count as int, f.plain);
    header_start_layout(name, 8, 0xFFFF_FFFF, first);
    header_middle_layout(name, exth.len() as int, locales, 8, image, 0x4850);
    kf8_header_end_layout(f);
    laid_out_length(
        palmdoc_header(f.text_length as int, f.text_record_count as int, f.plain),
        header_start(name, 8, 0xFFFF_FFFF, first),
        header_middle(name, exth.len() as int, locales, 8, image, 0x4850),
        kf8_header_end(f),
        exth,
        name,
    );
}

/// What a reader finds in the first sixteen bytes of a record 0: whether the text is compressed, its
/// length, and the number and size of its records, as long as they fit their fields.
pub proof fn palmdoc_headers_read_back(
    meta: Metadata,
    f: MobiFields,
    k: Kf8Fields,
    is_dictionary: bool,
    exth: Seq<u8>,
)
    ensures
        ({
            let r = record0(meta, f, is_dictionary, exth);
            &&& read_be16(r, 0) == if f.plain {
                1int
            } else {
                2
            }
            &&& f.text_length <= u32::MAX ==> read_be32(r, 4) == f.text_length
            &&& f.text_record_count <= 65535 ==> read_be16(r, 8) == f.text_record_count
            &&& f.text_record_count <= 65000 ==> read_be16(r, 10) == 4096
        }),
        ({
            let r = kf8_record0(meta, k, exth);
            &&& read_be16(r, 0) == if k.plain {
                1int
            } else {
                2
            }
            &&& k.text_length <= u32::MAX ==> read_be32(r, 4) == k.text_length
            &&& k.text_record_count <= 65535 ==> read_be16(r, 8) == k.text_record_count
            &&& k.text_record_count <= 65000 ==> read_be16(r, 10) == 4096
        }),
{
    assert(record0(meta, f, is_dictionary, exth).len() >= 16 && record0(
        meta,
        f,
        is_dictionary,
        exth,
    ).take(16) == palmdoc_header(f.text_length as int, f.text_record_count as int, f.plain)) by {
        reveal(record0);
        let name = utf8(full_name(meta.title@, is_dictionary));
        let locales = (
            locale(meta.language@),
            locale(meta.dict_in_language@),
            locale(meta.dict_out_language@),
        );
        palmdoc_header_length(f.text_length as int, f.text_record_count as int, f.plain);
        header_comes_first(
            palmdoc_header(f.text_length as int, f.text_record_count as int, f.plain),
            mobi_header(
                f,
                name,
                exth.len() as int,
                locales,
                if is_dictionary {
                    0x50
                } else {
                    0x4850
                },
            ),
            exth,
            name,
        );
    }
    assert(kf8_record0(meta, k, exth).len() >= 16 && kf8_record0(meta, k, exth).take(16)
        == palmdoc_header(k.text_length as int, k.text_record_count as int, k.plain)) by {
        reveal(kf8_record0);
        let name = utf8(full_name(meta.title@, false));
        palmdoc_header_length(k.text_length as int, k.text_record_count as int, k.plain);
        header_comes_first(
            palmdoc_header(k.text_length as int, k.text_record_count as int, k.plain),
            kf8_header(k, name, exth.len() as int, locale(meta.language@)),
            exth,
            name,
        );
    }
    palmdoc_reads_back(
        f.text_length as int,
        f.text_record_count as int,
        f.plain,
        record0(meta, f, is_dictionary, exth),
    );
    palmdoc_reads_back(
        k.text_length as int,
        k.text_record_count as int,
        k.plain,
        kf8_record0(meta, k, exth),
    );
}

proof fn header_comes_first(palm: Seq<u8>, header: Seq<u8>, exth: Seq<u8>, name: Seq<u8>)
    requires
        palm.len() == 16,
    ensures
        aligned(palm + header + exth + name).len() >= 16,
        aligned(palm + header + exth + name).take(16) == palm,
{
    assert(aligned(palm + header + exth + name).take(16) =~= palm);
}

proof fn palmdoc_reads_back(text_length: int, text_records: int, plain: bool, r: Seq<u8>)
    requires
        0 <= text_length,
        0 <= text_records,
        r.len() >= 16,
        r.take(16) == palmdoc_header(text_length, text_records, plain),
    ensures
        read_be16(r, 0) == if plain {
            1int
        } else {
            2
        },
        text_length <= u32::MAX ==> read_be32(r, 4) == text_length,
        text_records <= 65535 ==> read_be16(r, 8) == text_records,
        text_records <= 65000 ==> read_be16(r, 10) == 4096,
{
    broadcast use crate::bytes::group_lengths;

    let h = palmdoc_header(text_length, text_records, plain);
    let count = if text_records > 65535 {
        65535
    } else {
        text_records
    };
    let size = if text_records > 65000 && text_length / 65000 + 1 > RECORD_SIZE {
        text_length / 65000 + 1
    } else {
        RECORD_SIZE as int
    };
    let kind: u16 = if plain {
        1
    } else {
        2
    };
    assert(h.len() == 16);
    assert(r.subrange(0, 2) =~= h.subrange(0, 2) && h.subrange(0, 2) =~= be16(kind));
    assert(r.subrange(4, 8) =~= h.subrange(4, 8) && h.subrange(4, 8) =~= be32(low32(text_length)));
    assert(r.subrange(8, 10) =~= h.subrange(8, 10) && h.subrange(8, 10) =~= be16(low16(count)));
    assert(r.subrange(10, 12) =~= h.subrange(10, 12) && h.subrange(10, 12) =~= be16(low16(size)));
    be16_reads_back(kind, r, 0);
    be32_reads_back(low32(text_length), r, 4);
    be16_reads_back(low16(count), r, 8);
    be16_reads_back(low16(size), r, 10);
    if text_length <= u32::MAX {
        low32_of_small(text_length);
    }
    if text_records <= 65535 {
        low16_of_small(count);
    }
    if text_records <= 65000 {
        low16_of_small(size);
    }
}

/// What is known of a book is what its EXTH records tell: each text under its own type where it is not
/// empty.
pub proof fn metadata_of_books_is_found(
    meta: Metadata,
    chars: Set<u32>,
    cover_offset: Option<u32>,
    fixed_layout: Option<&FixedLayoutMeta>,
    kf8_boundary_record: Option<u32>,
    hd_geometry: Option<Seq<char>>,
    creator_tag: bool,
)
    ensures
        ({
            let list = metadata_records(
                meta,
                false,
                chars,
                cover_offset,
                fixed_layout,
                kf8_boundary_record,
                hd_geometry,
                creator_tag,
            );
            &&& data_of(list, 100) == one_text(meta.author@)
            &&& data_of(list, 106) == one_text(meta.date@)
            &&& data_of(list, 524) == one_text(meta.language@)
            &&& data_of(list, 103) == one_text(or_nothing(opt_string(meta.description)))
            &&& data_of(list, 105) == one_text(or_nothing(opt_string(meta.subject)))
            &&& data_of(list, 112) == one_text(or_nothing(opt_string(meta.series)))
            &&& data_of(list, 113) == one_text(or_nothing(opt_string(meta.series_index)))
            &&& data_of(list, 201) == one_number(cover_offset)
            &&& data_of(list, 202) == one_number(cover_offset)
            &&& data_of(list, 121) == one_number(kf8_boundary_record)
            &&& data_of(list, 501) == seq![
                utf8(
                    if opt_string(meta.doc_type) == Some("EBOK"@) {
                        "EBOK"@
                    } else {
                        "PDOC"@
                    },
                ),
            ]
        }),
{
    reveal(metadata_records);
    book_metadata_is_found(
        full_name(meta.title@, false),
        meta.author@,
        meta.date@,
        meta.language@,
        cover_offset,
        fixed_layout,
        kf8_boundary_record,
        hd_geometry,
        creator_tag,
        opt_string(meta.doc_type),
        opt_string(meta.description),
        opt_string(meta.subject),
        opt_string(meta.series),
        opt_string(meta.series_index),
    );
}

/// What is known of a dictionary is what its EXTH records tell, the languages of its headwords and of
/// its definitions among it.
pub proof fn metadata_of_dictionaries_is_found(meta: Metadata, chars: Set<u32>, creator_tag: bool)
    ensures
        ({
            let list = metadata_records(meta, true, chars, None, None, None, None, creator_tag);
            &&& data_of(list, 100) == one_text(meta.author@)
            &&& data_of(list, 106) == one_text(meta.date@)
            &&& data_of(list, 524) == one_text(meta.language@)
            &&& data_of(list, 531) == one_text(meta.dict_in_language@)
            &&& data_of(list, 532) == one_text(meta.dict_out_language@)
        }),
{
    reveal(metadata_records);
    dictionary_metadata_is_found(
        full_name(meta.title@, true),
        meta.author@,
        meta.date@,
        meta.language@,
        meta.dict_in_language@,
        meta.dict_out_language@,
        chars,
        creator_tag,
    );
}

/// The name of a book or dictionary is its title, where it has one.
pub proof fn titles_are_names(title: Seq<char>, is_dictionary: bool)
    ensures
        title.len() > 0 ==> full_name(title, is_dictionary) == title,
        full_name(title, is_dictionary).len() > 0,
{
    reveal_strlit("Dictionary");
    reveal_strlit("Book");
}

/// An embedded source can be taken out of its record again: it stands behind a header of sixteen bytes
/// that tells its length.
pub proof fn sources_read_back(data: Seq<u8>)
    ensures
        source_record(data).skip(16) == data,
        source_record(data).take(4) == utf8("SRCS"@),
        read_be32(source_record(data), 4) == 16,
        data.len() <= u32::MAX ==> read_be32(source_record(data), 8) == data.len(),
{
    broadcast use crate::bytes::group_lengths;

    reveal(source_record);
    reveal_strlit("SRCS");
    vstd::utf8::is_ascii_chars_encode_utf8("SRCS"@);
    let r = source_record(data);
    assert(r.skip(16) =~= data);
    assert(r.take(4) =~= utf8("SRCS"@));
    assert(r.subrange(4, 8) =~= be32(16));
    assert(r.subrange(8, 12) =~= be32(low32(data.len() as int)));
    be32_reads_back(16, r, 4);
    be32_reads_back(low32(data.len() as int), r, 8);
    if data.len() <= u32::MAX {
        low32_of_small(data.len() as int);
    }
}

/// The FCIS record tells the length of the text, modulo two to the power of 32.
pub proof fn fcis_tells_the_length(text_length: int)
    requires
        0 <= text_length <= u32::MAX,
    ensures
        fcis(text_length).len() == 44,
        fcis(text_length).subrange(0, 4) == utf8("FCIS"@),
        read_be32(fcis(text_length), 20) == text_length,
{
    broadcast use crate::bytes::group_lengths;

    reveal(fcis);
    reveal_strlit("FCIS");
    vstd::utf8::is_ascii_chars_encode_utf8("FCIS"@);
    let record = fcis(text_length);
    assert(record.subrange(0, 4) =~= utf8("FCIS"@));
    low32_of_small(text_length);
    assert(record.subrange(20, 24) =~= be32(low32(text_length)));
    be32_reads_back(low32(text_length), record, 20);
}

/// No two languages have the same number but those that have none.
pub proof fn languages_have_numbers_of_their_own(a: Seq<char>, b: Seq<char>)
    requires
        locale(a) == locale(b),
        locale(a) != 0,
    ensures
        a == b,
{
}

} // verus!
