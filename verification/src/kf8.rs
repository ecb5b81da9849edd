//! The KF8 part of a book: its text, flow table, and indexes.
use vstd::prelude::*;

use crate::bytes::{
    be16, be16_reads_back, be32, be32_reads_back, flat, length32, length32_plus, low16, low16_of_small, low32, low32_of_small, number16, push_all, push_be16,
    push_be32, push_zeros, read_be16, read_be32, zeros,
};
use crate::markup::{aid_behind, embedded, kf8_part, process_kf8_part};
use crate::paths::{any_nested, build_image_path_lookup, path_forms, PathForms};
use crate::pattern::{regex_found, source, texts, Pattern};
use crate::records::{
    compress_text_kf8, contents, kf8_records, split_text_uncompressed_kf8,
};
use crate::text::{
    bytes_of, decimal_value, decimals_read_back, padded_decimal, push_padded, utf8,
};
use crate::vwi::{encode_vwi_inv, inverted, inverted_ends_at_set_bit, inverted_reads_back, value};

verus! {

/// The length of the header of an index record.
pub const INDX_HEADER_LENGTH: usize = 192;

/// A tag that the entries of an index may have.
#[derive(Clone, Copy)]
pub struct TagDef {
    pub tag_id: u8,
    pub num_values: u8,
    pub mask: u8,
}

/// Tags as bytes, four each.
pub open spec fn tag_bytes(defs: Seq<TagDef>) -> Seq<u8>
    decreases defs.len(),
{
    if defs.len() == 0 {
        seq![]
    } else {
        let t = defs.last();
        tag_bytes(defs.drop_last()) + seq![t.tag_id, t.num_values, t.mask, 0u8]
    }
}

/// The tag table of an index.
pub open spec fn tagx(defs: Seq<TagDef>) -> Seq<u8> {
    utf8("TAGX"@) + be32(low32((defs.len() * 4 + 16) as int)) + be32(1) + tag_bytes(defs) + seq![
        0u8,
        0u8,
        0u8,
        1u8,
    ]
}

/// Build the tag table of an index.
pub fn build_tagx(tag_defs: &[TagDef]) -> (r: Vec<u8>)
    ensures
        r@ == tagx(tag_defs@),
{
    let mut tags: Vec<u8> = Vec::new();
    let mut i: usize = 0;
    assert(tag_bytes(tag_defs@.take(0)) =~= tags@);
    while i < tag_defs.len()
        invariant
            i <= tag_defs@.len(),
            tags@ == tag_bytes(tag_defs@.take(i as int)),
            tags@.len() == i * 4,
        decreases tag_defs.len() - i,
    {
        tags.push(tag_defs[i].tag_id);
        tags.push(tag_defs[i].num_values);
        tags.push(tag_defs[i].mask);
        tags.push(0);
        i += 1;
        assert(tag_defs@.take(i as int).drop_last() =~= tag_defs@.take(i - 1));
        assert(tags@ =~= tag_bytes(tag_defs@.take(i as int)));
    }
    assert(tag_defs@.take(i as int) =~= tag_defs@);
    let mut r: Vec<u8> = Vec::new();
    push_all(&mut r, "TAGX".as_bytes());
    push_be32(&mut r, length32_plus(tags.len(), 16));
    push_be32(&mut r, 1);
    push_all(&mut r, &tags);
    let end: [u8; 4] = [0, 0, 0, 1];
    push_all(&mut r, &end);
    assert(end@ =~= seq![0u8, 0u8, 0u8, 1u8]);
    r
}

/// As much of a label as its length bits can tell.
pub open spec fn short_label(label: Seq<u8>) -> Seq<u8> {
    if label.len() > 31 {
        label.take(31)
    } else {
        label
    }
}

/// Which groups of tags an entry has.
pub open spec fn control_byte(values: Seq<(u8, u32)>, has_pair: bool) -> u8 {
    let position = exists|i: int| 0 <= i < values.len() && ((#[trigger] values[i]).0 == 1 || values[i].0 == 2);
    let pair = has_pair && exists|i: int| 0 <= i < values.len() && (#[trigger] values[i]).0 == 6;
    if position && pair {
        3
    } else if pair {
        2
    } else if position {
        1
    } else {
        0
    }
}

/// The values of an entry.
pub open spec fn value_bytes(values: Seq<(u8, u32)>) -> Seq<u8>
    decreases values.len(),
{
    if values.len() == 0 {
        seq![]
    } else {
        value_bytes(values.drop_last()) + inverted(values.last().1 as nat)
    }
}

/// An index entry: its label, which tags it has, and their values.
pub open spec fn index_entry(label: Seq<u8>, values: Seq<(u8, u32)>, has_pair: bool) -> Seq<u8> {
    let l = short_label(label);
    seq![l.len() as u8] + l + seq![control_byte(values, has_pair)] + value_bytes(values)
}

fn has_tag(values: &[(u8, u32)], a: u8, b: u8) -> (r: bool)
    ensures
        r == exists|i: int| 0 <= i < values@.len() && ((#[trigger] values@[i]).0 == a || values@[i].0 == b),
{
    let mut i: usize = 0;
    while i < values.len()
        invariant
            i <= values@.len(),
            forall|k: int| 0 <= k < i ==> (#[trigger] values@[k]).0 != a && values@[k].0 != b,
        decreases values.len() - i,
    {
        if values[i].0 == a || values[i].0 == b {
            return true;
        }
        i += 1;
    }
    false
}

fn push_label(out: &mut Vec<u8>, label: &[u8])
    ensures
        final(out)@ == old(out)@ + seq![short_label(label@).len() as u8] + short_label(label@),
{
    let n: usize = if label.len() > 31 {
        31
    } else {
        label.len()
    };
    out.push(n as u8);
    push_all(out, &label[0..n]);
    assert(label@.subrange(0, n as int) =~= short_label(label@));
    assert(out@ =~= old(out)@ + seq![short_label(label@).len() as u8] + short_label(label@));
}

/// Encode an index entry with its label and tag values.
///
/// `has_pair` says that tag 6 takes two values; the second one carries the number
/// 60.
pub fn encode_kf8_indx_entry(label_bytes: &[u8], tag_values: &[(u8, u32)], has_pair: bool) -> (r: Vec<
    u8,
>)
    ensures
        r@ == index_entry(label_bytes@, tag_values@, has_pair),
{
    let mut r: Vec<u8> = Vec::new();
    push_label(&mut r, label_bytes);
    let position = has_tag(tag_values, 1, 2);
    let pair = has_pair && has_tag(tag_values, 6, 6);
    let control: u8 = if position && pair {
        3
    } else if pair {
        2
    } else if position {
        1
    } else {
        0
    };
    r.push(control);
    let ghost head = r@;
    let mut i: usize = 0;
    assert(r@ =~= head + value_bytes(tag_values@.take(0)));
    while i < tag_values.len()
        invariant
            i <= tag_values@.len(),
            r@ == head + value_bytes(tag_values@.take(i as int)),
        decreases tag_values.len() - i,
    {
        let code = encode_vwi_inv(tag_values[i].1);
        push_all(&mut r, &code);
        i += 1;
        assert(tag_values@.take(i as int).drop_last() =~= tag_values@.take(i - 1));
        assert(r@ =~= head + value_bytes(tag_values@.take(i as int)));
    }
    assert(tag_values@.take(i as int) =~= tag_values@);
    assert(control == control_byte(tag_values@, has_pair));
    assert(r@ =~= index_entry(label_bytes@, tag_values@, has_pair));
    r
}

/// Where each entry begins, two bytes each, when the first begins at `start`.
pub open spec fn offset_bytes(entries: Seq<Seq<u8>>, start: int) -> Seq<u8>
    decreases entries.len(),
{
    if entries.len() == 0 {
        seq![]
    } else {
        offset_bytes(entries.drop_last(), start) + be16(
            low16(start + flat(entries.drop_last()).len()),
        )
    }
}

/// A data record of an index: header, entries, and where each entry begins; of even
/// length.
pub open spec fn data_record(entries: Seq<Seq<u8>>) -> Seq<u8> {
    let body = flat(entries);
    let record = utf8("INDX"@) + be32(192) + be32(0) + be32(1) + be32(0) + be32(
        low32(192int + body.len()),
    ) + be32(low32(entries.len() as int)) + be32(0xFFFF_FFFF) + be32(0xFFFF_FFFF) + zeros(156)
        + body + utf8("IDXT"@) + offset_bytes(entries, 192);
    record + zeros(record.len() % 2)
}

fn push_entries(out: &mut Vec<u8>, entries: &[Vec<u8>])
    ensures
        final(out)@ == old(out)@ + flat(contents(entries@)),
{
    let ghost list = contents(entries@);
    let mut i: usize = 0;
    assert(out@ =~= old(out)@ + flat(list.take(0)));
    while i < entries.len()
        invariant
            list == contents(entries@),
            i <= entries@.len(),
            out@ == old(out)@ + flat(list.take(i as int)),
        decreases entries.len() - i,
    {
        push_all(out, &entries[i]);
        i += 1;
        assert(list.take(i as int).drop_last() =~= list.take(i - 1));
        assert(out@ =~= old(out)@ + flat(list.take(i as int)));
    }
    assert(list.take(i as int) =~= list);
}

fn push_offsets(out: &mut Vec<u8>, entries: &[Vec<u8>], first: u16, Ghost(start): Ghost<int>)
    requires
        0 <= start,
        first == low16(start),
    ensures
        final(out)@ == old(out)@ + offset_bytes(contents(entries@), start),
{
    let ghost list = contents(entries@);
    let mut at: u16 = first;
    let mut i: usize = 0;
    assert(out@ =~= old(out)@ + offset_bytes(list.take(0), start));
    assert(flat(list.take(0)) =~= seq![]);
    while i < entries.len()
        invariant
            list == contents(entries@),
            0 <= start,
            i <= entries@.len(),
            at == low16(start + flat(list.take(i as int)).len()),
            out@ == old(out)@ + offset_bytes(list.take(i as int), start),
        decreases entries.len() - i,
    {
        push_be16(out, at);
        let next: u32 = at as u32 + number16(entries[i].len()) as u32;
        proof {
            crate::bytes::low16_of_sum(
                start + flat(list.take(i as int)).len(),
                entries@[i as int]@.len() as int,
            );
        }
        at = (next % 0x1_0000) as u16;
        i += 1;
        assert(list.take(i as int).drop_last() =~= list.take(i - 1));
        assert(out@ =~= old(out)@ + offset_bytes(list.take(i as int), start));
    }
    assert(list.take(i as int) =~= list);
}

/// Build a data record of an index.
pub fn build_kf8_indx_data_record(entry_list: &[Vec<u8>]) -> (record: Vec<u8>)
    ensures
        record@ == data_record(contents(entry_list@)),
{
    let mut body: Vec<u8> = Vec::new();
    push_entries(&mut body, entry_list);
    assert(body@ =~= flat(contents(entry_list@)));
    let mut record: Vec<u8> = Vec::new();
    push_all(&mut record, "INDX".as_bytes());
    push_be32(&mut record, 192);
    push_be32(&mut record, 0);
    push_be32(&mut record, 1);
    push_be32(&mut record, 0);
    push_be32(&mut record, length32_plus(body.len(), 192));
    push_be32(&mut record, length32(entry_list.len()));
    push_be32(&mut record, 0xFFFF_FFFF);
    push_be32(&mut record, 0xFFFF_FFFF);
    push_zeros(&mut record, 156);
    push_all(&mut record, &body);
    push_all(&mut record, "IDXT".as_bytes());
    push_offsets(&mut record, entry_list, number16(192), Ghost(192));
    let odd: usize = record.len() % 2;
    push_zeros(&mut record, odd);
    record
}

/// The entry of the primary record that leads to the data record with this last
/// label.
pub open spec fn routing_entry(label: Seq<u8>) -> Seq<u8> {
    seq![short_label(label).len() as u8] + short_label(label) + seq![0u8]
}

/// The routing entries for all last labels.
pub open spec fn routing_entries(labels: Seq<Seq<u8>>) -> Seq<Seq<u8>> {
    Seq::new(labels.len(), |i: int| routing_entry(labels[i]))
}

/// The primary record of an index: header, tag table, and one entry for each data
/// record; its length is a multiple of four.
pub open spec fn primary_record(
    table: Seq<u8>,
    data_records: int,
    total: int,
    labels: Seq<Seq<u8>>,
) -> Seq<u8> {
    let entries = routing_entries(labels);
    let body = table + flat(entries);
    let record = utf8("INDX"@) + be32(192) + be32(0) + be32(0) + be32(2) + be32(
        low32(192int + body.len()),
    ) + be32(low32(data_records)) + be32(0xFDEA) + be32(8) + be32(low32(total)) + zeros(140)
        + be32(192) + zeros(8) + body + utf8("IDXT"@) + offset_bytes(entries, 192int + table.len());
    record + zeros(((4 - record.len() % 4) % 4) as nat)
}

fn list_routing_entries(labels: &[Vec<u8>]) -> (r: Vec<Vec<u8>>)
    ensures
        contents(r@) == routing_entries(contents(labels@)),
{
    let mut r: Vec<Vec<u8>> = Vec::new();
    let mut i: usize = 0;
    while i < labels.len()
        invariant
            i <= labels@.len(),
            r@.len() == i,
            forall|k: int| 0 <= k < i ==> #[trigger] r@[k]@ == routing_entry(labels@[k]@),
        decreases labels.len() - i,
    {
        let mut entry: Vec<u8> = Vec::new();
        push_label(&mut entry, &labels[i]);
        entry.push(0);
        assert(entry@ =~= routing_entry(labels@[i as int]@));
        r.push(entry);
        i += 1;
    }
    assert(contents(r@) =~= routing_entries(contents(labels@)));
    r
}

/// Build the primary record of an index.
pub fn build_kf8_indx_primary(
    tagx: &[u8],
    num_data_records: usize,
    total_entries: usize,
    last_labels: &[Vec<u8>],
) -> (record: Vec<u8>)
    ensures
        record@ == primary_record(
            tagx@,
            num_data_records as int,
            total_entries as int,
            contents(last_labels@),
        ),
{
    let entries = list_routing_entries(last_labels);
    let mut body: Vec<u8> = Vec::new();
    push_all(&mut body, tagx);
    push_entries(&mut body, &entries);
    assert(body@ =~= tagx@ + flat(contents(entries@)));
    let first: u32 = number16(tagx.len()) as u32 + 192;
    proof {
        crate::bytes::low16_of_sum(tagx@.len() as int, 192);
        crate::bytes::low16_of_small(192);
    }
    let mut record: Vec<u8> = Vec::new();
    push_all(&mut record, "INDX".as_bytes());
    push_be32(&mut record, 192);
    push_be32(&mut record, 0);
    push_be32(&mut record, 0);
    push_be32(&mut record, 2);
    push_be32(&mut record, length32_plus(body.len(), 192));
    push_be32(&mut record, length32(num_data_records));
    push_be32(&mut record, 0xFDEA);
    push_be32(&mut record, 8);
    push_be32(&mut record, length32(total_entries));
    push_zeros(&mut record, 140);
    push_be32(&mut record, 192);
    push_zeros(&mut record, 8);
    push_all(&mut record, &body);
    push_all(&mut record, "IDXT".as_bytes());
    push_offsets(&mut record, &entries, (first % 0x1_0000) as u16, Ghost(192int + tagx@.len()));
    let fill: usize = (4 - record.len() % 4) % 4;
    push_zeros(&mut record, fill);
    record
}

/// A skeleton: the chunk of the text that one source document makes.
pub struct SkeletonEntry {
    /// Its label, such as "SKEL0000000000".
    pub label: String,
    /// Where it begins in the text.
    pub offset: usize,
    /// How long it is.
    pub length: usize,
    /// How many fragments it has.
    pub frag_count: usize,
}

/// A place within a skeleton that can be gone to.
pub struct FragmentEntry {
    /// Its label, such as "FRAG0000000000".
    pub label: String,
    /// Where it begins in its skeleton.
    pub insert_position: usize,
    /// Which skeleton it belongs to.
    pub file_number: usize,
    /// Its number within the skeleton.
    pub seq: usize,
}

/// What the indexes tell of a skeleton or fragment: a label, a position and a pair
/// of numbers.
pub struct Chunk {
    pub label: Seq<char>,
    pub position: int,
    pub first: int,
    pub second: int,
}

impl View for SkeletonEntry {
    type V = Chunk;

    open spec fn view(&self) -> Chunk {
        Chunk {
            label: self.label@,
            position: self.offset as int,
            first: self.length as int,
            second: self.frag_count as int,
        }
    }
}

impl View for FragmentEntry {
    type V = Chunk;

    open spec fn view(&self) -> Chunk {
        Chunk {
            label: self.label@,
            position: self.insert_position as int,
            first: self.file_number as int,
            second: self.seq as int,
        }
    }
}

/// Skeletons as the indexes tell of them.
pub open spec fn skeleton_chunks(list: Seq<SkeletonEntry>) -> Seq<Chunk> {
    Seq::new(list.len(), |i: int| list[i]@)
}

/// Fragments as the indexes tell of them.
pub open spec fn fragment_chunks(list: Seq<FragmentEntry>) -> Seq<Chunk> {
    Seq::new(list.len(), |i: int| list[i]@)
}

/// The entry of a chunk, its position under `tag`.
pub open spec fn chunk_entry(c: Chunk, tag: u8) -> Seq<u8> {
    index_entry(
        utf8(c.label),
        seq![(tag, low32(c.position)), (6u8, low32(c.first)), (60u8, low32(c.second))],
        true,
    )
}

/// The entries of chunks.
pub open spec fn chunk_entries(list: Seq<Chunk>, tag: u8) -> Seq<Seq<u8>> {
    Seq::new(list.len(), |i: int| chunk_entry(list[i], tag))
}

/// The tags of an index over chunks: a position, and a pair of numbers.
pub open spec fn chunk_tags(tag: u8) -> Seq<TagDef> {
    seq![
        TagDef { tag_id: tag, num_values: 1, mask: 0x01 },
        TagDef { tag_id: 6, num_values: 2, mask: 0x02 },
    ]
}

/// An index without entries.
pub open spec fn minimal_index() -> Seq<Seq<u8>> {
    seq![
        primary_record(tagx(seq![TagDef { tag_id: 1, num_values: 1, mask: 0x01 }]), 1, 0, seq![]),
        data_record(seq![]),
    ]
}

/// An index over chunks: a primary record and a data record.
#[verifier::opaque]
pub open spec fn chunk_index(list: Seq<Chunk>, tag: u8) -> Seq<Seq<u8>> {
    if list.len() == 0 {
        minimal_index()
    } else {
        seq![
            primary_record(
                tagx(chunk_tags(tag)),
                1,
                list.len() as int,
                seq![utf8(list.last().label)],
            ),
            data_record(chunk_entries(list, tag)),
        ]
    }
}

fn tag_table(tag: u8) -> (r: Vec<u8>)
    ensures
        r@ == tagx(chunk_tags(tag)),
{
    let tags: [TagDef; 2] = [
        TagDef { tag_id: tag, num_values: 1, mask: 0x01 },
        TagDef { tag_id: 6, num_values: 2, mask: 0x02 },
    ];
    assert(tags@ =~= chunk_tags(tag));
    build_tagx(&tags)
}

fn encode_chunk(label: &str, tag: u8, position: usize, first: usize, second: usize) -> (r: Vec<u8>)
    ensures
        r@ == chunk_entry(
            Chunk {
                label: label@,
                position: position as int,
                first: first as int,
                second: second as int,
            },
            tag,
        ),
{
    let values: [(u8, u32); 3] = [
        (tag, length32(position)),
        (6, length32(first)),
        (60, length32(second)),
    ];
    assert(values@ =~= seq![
        (tag, low32(position as int)),
        (6u8, low32(first as int)),
        (60u8, low32(second as int)),
    ]);
    encode_kf8_indx_entry(label.as_bytes(), &values, true)
}

/// Build an index without entries.
pub fn build_minimal_indx() -> (r: Vec<Vec<u8>>)
    ensures
        contents(r@) == minimal_index(),
{
    let tags: [TagDef; 1] = [TagDef { tag_id: 1, num_values: 1, mask: 0x01 }];
    assert(tags@ =~= seq![TagDef { tag_id: 1, num_values: 1, mask: 0x01 }]);
    let table = build_tagx(&tags);
    let none: Vec<Vec<u8>> = Vec::new();
    assert(contents(none@) =~= seq![]);
    let data = build_kf8_indx_data_record(&none);
    let primary = build_kf8_indx_primary(&table, 1, 0, &none);
    let mut r: Vec<Vec<u8>> = Vec::new();
    r.push(primary);
    r.push(data);
    assert(contents(r@) =~= minimal_index());
    r
}

fn finish_index(
    table: &[u8],
    entries: &[Vec<u8>],
    last_label: &str,
    Ghost(count): Ghost<int>,
) -> (r: Vec<Vec<u8>>)
    requires
        count == entries@.len(),
    ensures
        contents(r@) == seq![
            primary_record(table@, 1, count, seq![utf8(last_label@)]),
            data_record(contents(entries@)),
        ],
{
    let mut labels: Vec<Vec<u8>> = Vec::new();
    labels.push(bytes_of(last_label));
    assert(contents(labels@) =~= seq![utf8(last_label@)]);
    let primary = build_kf8_indx_primary(table, 1, entries.len(), &labels);
    let data = build_kf8_indx_data_record(entries);
    let mut r: Vec<Vec<u8>> = Vec::new();
    r.push(primary);
    r.push(data);
    assert(contents(r@) =~= seq![
        primary_record(table@, 1, count, seq![utf8(last_label@)]),
        data_record(contents(entries@)),
    ]);
    r
}

/// Build the skeleton index: one entry for each source document.
pub fn build_skeleton_indx(skeletons: &[SkeletonEntry]) -> (r: Vec<Vec<u8>>)
    ensures
        contents(r@) == chunk_index(skeleton_chunks(skeletons@), 1),
{
    proof {
        reveal(chunk_index);
    }
    if skeletons.len() == 0 {
        return build_minimal_indx();
    }
    let ghost chunks = skeleton_chunks(skeletons@);
    let mut entries: Vec<Vec<u8>> = Vec::new();
    let mut i: usize = 0;
    while i < skeletons.len()
        invariant
            chunks == skeleton_chunks(skeletons@),
            i <= skeletons@.len(),
            entries@.len() == i,
            forall|k: int| 0 <= k < i ==> #[trigger] entries@[k]@ == chunk_entry(chunks[k], 1),
        decreases skeletons.len() - i,
    {
        let s = &skeletons[i];
        entries.push(encode_chunk(s.label.as_str(), 1, s.offset, s.length, s.frag_count));
        i += 1;
    }
    assert(contents(entries@) =~= chunk_entries(chunks, 1));
    let table = tag_table(1);
    let last = &skeletons[skeletons.len() - 1];
    finish_index(&table, &entries, last.label.as_str(), Ghost(chunks.len() as int))
}

/// Build the fragment index: one entry for each fragment.
pub fn build_fragment_indx(fragments: &[FragmentEntry]) -> (r: Vec<Vec<u8>>)
    ensures
        contents(r@) == chunk_index(fragment_chunks(fragments@), 2),
{
    proof {
        reveal(chunk_index);
    }
    if fragments.len() == 0 {
        return build_minimal_indx();
    }
    let ghost chunks = fragment_chunks(fragments@);
    let mut entries: Vec<Vec<u8>> = Vec::new();
    let mut i: usize = 0;
    while i < fragments.len()
        invariant
            chunks == fragment_chunks(fragments@),
            i <= fragments@.len(),
            entries@.len() == i,
            forall|k: int| 0 <= k < i ==> #[trigger] entries@[k]@ == chunk_entry(chunks[k], 2),
        decreases fragments.len() - i,
    {
        let f = &fragments[i];
        entries.push(encode_chunk(f.label.as_str(), 2, f.insert_position, f.file_number, f.seq));
        i += 1;
    }
    assert(contents(entries@) =~= chunk_entries(chunks, 2));
    let table = tag_table(2);
    let last = &fragments[fragments.len() - 1];
    finish_index(&table, &entries, last.label.as_str(), Ghost(chunks.len() as int))
}

/// The entries of the table of contents: one for each source document, at its
/// beginning.
pub open spec fn contents_chunks(n: nat) -> Seq<Chunk> {
    Seq::new(
        n,
        |i: int| Chunk { label: padded_decimal(i as nat, 10), position: 0, first: i, second: i },
    )
}

/// The index of the table of contents.
#[verifier::opaque]
pub open spec fn contents_index(n: nat) -> Seq<Seq<u8>> {
    let last = if n == 0 {
        0
    } else {
        (n - 1) as nat
    };
    seq![
        primary_record(tagx(chunk_tags(1)), 1, n as int, seq![utf8(padded_decimal(last, 10))]),
        data_record(chunk_entries(contents_chunks(n), 1)),
    ]
}

fn numbered(prefix: &str, n: usize) -> (r: String)
    ensures
        r@ == prefix@ + padded_decimal(n as nat, 10),
{
    let mut r = prefix.to_owned();
    push_padded(&mut r, n as u128, 10);
    r
}

/// Build the index of the table of contents, one entry for each source document.
pub fn build_ncx_indx(num_files: usize) -> (r: Vec<Vec<u8>>)
    ensures
        contents(r@) == contents_index(num_files as nat),
{
    proof {
        reveal(contents_index);
    }
    proof {
        reveal_strlit("");
    }
    let ghost chunks = contents_chunks(num_files as nat);
    let mut entries: Vec<Vec<u8>> = Vec::new();
    let mut i: usize = 0;
    while i < num_files
        invariant
            chunks == contents_chunks(num_files as nat),
            ""@ == Seq::<char>::empty(),
            i <= num_files,
            entries@.len() == i,
            forall|k: int| 0 <= k < i ==> #[trigger] entries@[k]@ == chunk_entry(chunks[k], 1),
        decreases num_files - i,
    {
        let label = numbered("", i);
        assert(label@ =~= padded_decimal(i as nat, 10));
        entries.push(encode_chunk(label.as_str(), 1, 0, i, i));
        i += 1;
    }
    assert(contents(entries@) =~= chunk_entries(chunks, 1));
    let table = tag_table(1);
    let last = numbered("", if num_files == 0 { 0 } else { num_files - 1 });
    assert(last@ =~= padded_decimal(
        if num_files == 0 {
            0
        } else {
            (num_files - 1) as nat
        },
        10,
    ));
    finish_index(&table, &entries, last.as_str(), Ghost(num_files as int))
}

/// The flow table: where the HTML ends and, where there are styles, where they end.
#[verifier::opaque]
pub open spec fn flow_table(html_length: int, total_length: int) -> Seq<u8> {
    if total_length > html_length {
        utf8("FDST"@) + be32(12) + be32(2) + be32(0) + be32(low32(html_length)) + be32(
            low32(html_length),
        ) + be32(low32(total_length))
    } else {
        utf8("FDST"@) + be32(12) + be32(1) + be32(0) + be32(low32(html_length))
    }
}

/// Build the flow table: one flow for the HTML, and one for the styles if there are
/// any.
pub fn build_fdst(html_length: usize, total_length: usize) -> (r: Vec<u8>)
    ensures
        r@ == flow_table(html_length as int, total_length as int),
{
    proof {
        reveal(flow_table);
    }
    let mut r: Vec<u8> = Vec::new();
    push_all(&mut r, "FDST".as_bytes());
    push_be32(&mut r, 12);
    if total_length > html_length {
        push_be32(&mut r, 2);
        push_be32(&mut r, 0);
        push_be32(&mut r, length32(html_length));
        push_be32(&mut r, length32(html_length));
        push_be32(&mut r, length32(total_length));
    } else {
        push_be32(&mut r, 1);
        push_be32(&mut r, 0);
        push_be32(&mut r, length32(html_length));
    }
    assert(r@ =~= flow_table(html_length as int, total_length as int));
    r
}

/// The data position record, with nothing in it.
#[verifier::opaque]
pub open spec fn position_record() -> Seq<u8> {
    utf8("DATP"@) + be32(0x0D) + zeros(144)
}

/// Build the data position record.
pub fn build_datp() -> (r: Vec<u8>)
    ensures
        r@ == position_record(),
{
    proof {
        reveal(position_record);
    }
    let mut r: Vec<u8> = Vec::new();
    push_all(&mut r, "DATP".as_bytes());
    push_be32(&mut r, 0x0D);
    push_zeros(&mut r, 144);
    assert(r@ =~= position_record());
    r
}

/// The anchor number that document `n` starts with.
pub open spec fn aid_before(parts: Seq<Seq<char>>, paths: PathForms, n: nat) -> u32
    decreases n,
{
    if n == 0 {
        0
    } else {
        aid_behind(parts[n - 1], aid_before(parts, paths, (n - 1) as nat), paths)
    }
}

/// The documents as they stand in the KF8 text: images embedded, tags numbered
/// throughout.
pub open spec fn kf8_parts(parts: Seq<Seq<char>>, paths: PathForms) -> Seq<Seq<u8>> {
    Seq::new(
        parts.len(),
        |i: int| utf8(kf8_part(parts[i], aid_before(parts, paths, i as nat), paths)),
    )
}

/// The skeletons of a text that is made of `parts`: one for each, end to end.
pub open spec fn skeletons_of(parts: Seq<Seq<u8>>) -> Seq<Chunk> {
    Seq::new(
        parts.len(),
        |i: int|
            Chunk {
                label: "SKEL"@ + padded_decimal(i as nat, 10),
                position: flat(parts.take(i)).len() as int,
                first: parts[i].len() as int,
                second: 1,
            },
    )
}

/// The fragments of a text of `n` documents: one for each, at its beginning.
pub open spec fn fragments_of(n: nat) -> Seq<Chunk> {
    Seq::new(
        n,
        |i: int|
            Chunk { label: "FRAG"@ + padded_decimal(i as nat, 10), position: 0, first: i, second: 0 },
    )
}

/// Build the KF8 HTML from the documents, with one skeleton and one fragment for
/// each.
pub fn build_kf8_html(
    html_parts: &[String],
    image_hrefs: &[String],
    spine_items: &[(String, String)],
) -> (r: (Vec<u8>, Vec<SkeletonEntry>, Vec<FragmentEntry>))
    ensures
        ({
            let paths = path_forms(texts(image_hrefs@), any_nested(spine_items@));
            let parts = kf8_parts(texts(html_parts@), paths);
            &&& r.0@ == flat(parts)
            &&& skeleton_chunks(r.1@) == skeletons_of(parts)
            &&& fragment_chunks(r.2@) == fragments_of(html_parts@.len())
        }),
{
    let paths = build_image_path_lookup(image_hrefs, spine_items);
    let ghost sources = texts(html_parts@);
    let ghost parts = kf8_parts(sources, paths@);
    let mut html: Vec<u8> = Vec::new();
    let mut skeletons: Vec<SkeletonEntry> = Vec::new();
    let mut fragments: Vec<FragmentEntry> = Vec::new();
    let mut aid_counter: u32 = 0;
    let mut i: usize = 0;
    assert(flat(parts.take(0)) =~= html@);
    while i < html_parts.len()
        invariant
            sources == texts(html_parts@),
            parts == kf8_parts(sources, paths@),
            i <= html_parts@.len(),
            aid_counter == aid_before(sources, paths@, i as nat),
            html@ == flat(parts.take(i as int)),
            skeletons@.len() == i,
            fragments@.len() == i,
            forall|k: int| 0 <= k < i ==> (#[trigger] skeletons@[k])@ == skeletons_of(parts)[k],
            forall|k: int|
                0 <= k < i ==> (#[trigger] fragments@[k])@ == fragments_of(html_parts@.len())[k],
        decreases html_parts.len() - i,
    {
        let start: usize = html.len();
        let part = process_kf8_part(html_parts[i].as_str(), &mut aid_counter, &paths);
        push_all(&mut html, part.as_str().as_bytes());
        proof {
            assert(utf8(part@) == parts[i as int]);
            assert(parts.take(i + 1).drop_last() =~= parts.take(i as int));
        }
        let length: usize = html.len() - start;
        fragments.push(
            FragmentEntry {
                label: numbered("FRAG", i),
                insert_position: 0,
                file_number: i,
                seq: 0,
            },
        );
        skeletons.push(
            SkeletonEntry { label: numbered("SKEL", i), offset: start, length, frag_count: 1 },
        );
        i += 1;
    }
    proof {
        assert(parts.take(i as int) =~= parts);
        assert(skeleton_chunks(skeletons@) =~= skeletons_of(parts));
        assert(fragment_chunks(fragments@) =~= fragments_of(html_parts@.len()));
    }
    (html, skeletons, fragments)
}

/// Everything that follows the record 0 of the KF8 part.
pub struct Kf8Section {
    /// The text records, each with trailing bytes.
    pub text_records: Vec<Vec<u8>>,
    /// The length of the text, HTML and styles together.
    pub text_length: usize,
    /// The flow table.
    pub fdst: Vec<u8>,
    /// The fragment index: primary and data record.
    pub fragment_indx: Vec<Vec<u8>>,
    /// The skeleton index: primary and data record.
    pub skeleton_indx: Vec<Vec<u8>>,
    /// The index of the table of contents: primary and data record.
    pub ncx_indx: Vec<Vec<u8>>,
    /// The data position record.
    pub datp: Vec<u8>,
    /// The number of flows: HTML, and styles if there are any.
    pub flow_count: usize,
    /// The styles, which stand behind the HTML as a flow of their own.
    pub css_content: Vec<u8>,
}

/// What a KF8 section is made of: the documents as they stand in its text, the
/// styles behind them, and whether the text is left uncompressed.
pub struct Kf8Source {
    pub parts: Seq<Seq<u8>>,
    pub css: Seq<u8>,
    pub plain: bool,
}

/// The source of a KF8 section.
pub open spec fn kf8_source(
    html_parts: Seq<Seq<char>>,
    css: Seq<char>,
    hrefs: Seq<Seq<char>>,
    nested: bool,
    plain: bool,
) -> Kf8Source {
    Kf8Source { parts: kf8_parts(html_parts, path_forms(hrefs, nested)), css: utf8(css), plain }
}

impl Kf8Source {
    /// The HTML.
    pub open spec fn html(self) -> Seq<u8> {
        flat(self.parts)
    }

    /// The whole text.
    pub open spec fn text(self) -> Seq<u8> {
        self.html() + self.css
    }

    /// The number of flows.
    pub open spec fn flows(self) -> int {
        if self.css.len() == 0 {
            1
        } else {
            2
        }
    }
}

impl Kf8Section {
    /// The section is the one for this source.
    pub open spec fn of(self, source: Kf8Source) -> bool {
        &&& contents(self.text_records@) == kf8_records(source.text(), source.plain)
        &&& self.text_length == source.text().len()
        &&& self.fdst@ == flow_table(source.html().len() as int, source.text().len() as int)
        &&& contents(self.fragment_indx@) == chunk_index(fragments_of(source.parts.len()), 2)
        &&& contents(self.skeleton_indx@) == chunk_index(skeletons_of(source.parts), 1)
        &&& contents(self.ncx_indx@) == contents_index(source.parts.len())
        &&& self.datp@ == position_record()
        &&& self.flow_count == source.flows()
        &&& self.css_content@ == source.css
    }
}

/// Build the KF8 section of a book.
///
/// `html_parts` are the cleaned documents in reading order, `image_hrefs` the paths
/// of the images in the order of their records, and `spine_items` the identifiers and
/// paths of the documents.
pub fn build_kf8_section(
    html_parts: &[String],
    css_content: &str,
    image_hrefs: &[String],
    spine_items: &[(String, String)],
    no_compress: bool,
) -> (r: Kf8Section)
    ensures
        r.of(
            kf8_source(
                texts(html_parts@),
                css_content@,
                texts(image_hrefs@),
                any_nested(spine_items@),
                no_compress,
            ),
        ),
{
    let (html, skeletons, fragments) = build_kf8_html(html_parts, image_hrefs, spine_items);
    let css = bytes_of(css_content);
    let html_length: usize = html.len();
    let mut text = html;
    push_all(&mut text, &css);
    let total: usize = text.len();
    let (text_records, text_length) = if no_compress {
        split_text_uncompressed_kf8(&text)
    } else {
        compress_text_kf8(&text)
    };
    let fdst = build_fdst(html_length, total);
    let skeleton_indx = build_skeleton_indx(&skeletons);
    let fragment_indx = build_fragment_indx(&fragments);
    let ncx_indx = build_ncx_indx(html_parts.len());
    let datp = build_datp();
    let flow_count: usize = if css.len() == 0 {
        1
    } else {
        2
    };
    Kf8Section {
        text_records,
        text_length,
        fdst,
        fragment_indx,
        skeleton_indx,
        ncx_indx,
        datp,
        flow_count,
        css_content: css,
    }
}

/// The skeletons of a text lie end to end: each begins where the one before it
/// ends, the first at the beginning, and the last ends where the HTML does.
pub proof fn skeletons_tile_text(parts: Seq<Seq<u8>>)
    ensures
        skeletons_of(parts).len() == parts.len(),
        parts.len() > 0 ==> skeletons_of(parts)[0].position == 0,
        forall|i: int|
            0 <= i < parts.len() - 1 ==> (#[trigger] skeletons_of(parts)[i]).position
                + skeletons_of(parts)[i].first == skeletons_of(parts)[i + 1].position,
        parts.len() > 0 ==> skeletons_of(parts).last().position + skeletons_of(parts).last().first
            == flat(parts).len(),
{
    assert forall|i: int| 0 <= i < parts.len() implies flat(parts.take(i)).len() + parts[i].len()
        == #[trigger] flat(parts.take(i + 1)).len() by {
        assert(parts.take(i + 1).drop_last() =~= parts.take(i));
    }
    assert(parts.take(parts.len() as int) =~= parts);
    if parts.len() > 0 {
        assert(parts.take(0) =~= seq![]);
        assert(flat(parts.take(parts.len() - 1 + 1)).len() == flat(parts).len());
    }
    assert forall|i: int| 0 <= i < parts.len() - 1 implies (#[trigger] skeletons_of(
        parts,
    )[i]).position + skeletons_of(parts)[i].first == skeletons_of(parts)[i + 1].position by {
        assert(flat(parts.take(i + 1)).len() == flat(parts.take(i)).len() + parts[i].len());
    }
}

proof fn flat_splits(list: Seq<Seq<u8>>, n: int)
    requires
        0 <= n <= list.len(),
    ensures
        flat(list) == flat(list.take(n)) + flat(list.skip(n)),
    decreases list.len(),
{
    if n == list.len() {
        assert(list.take(n) =~= list);
        assert(list.skip(n) =~= seq![]);
        assert(flat(list) + flat(seq![]) =~= flat(list));
    } else {
        let front = list.drop_last();
        flat_splits(front, n);
        assert(front.take(n) =~= list.take(n));
        assert(list.skip(n).drop_last() =~= front.skip(n));
        assert(flat(list.take(n)) + (flat(front.skip(n)) + list.last()) =~= flat(list));
    }
}

/// A skeleton names the very bytes that its document makes: the text from its
/// position on, over its length, is that document.
pub proof fn skeleton_names_its_part(source: Kf8Source, i: int)
    requires
        0 <= i < source.parts.len(),
    ensures
        ({
            let s = skeletons_of(source.parts)[i];
            &&& s.position + s.first <= source.html().len()
            &&& source.text().subrange(s.position, s.position + s.first) == source.parts[i]
        }),
{
    let parts = source.parts;
    let at = flat(parts.take(i)).len() as int;
    flat_splits(parts, i);
    flat_splits(parts.skip(i), 1);
    assert(parts.skip(i).take(1) =~= seq![parts[i]]);
    reveal_with_fuel(flat, 2);
    assert(seq![parts[i]].drop_last() =~= seq![]);
    assert(flat(seq![parts[i]]) =~= parts[i]);
    assert(source.text().subrange(at, at + parts[i].len()) =~= parts[i]);
}

proof fn offsets_length(entries: Seq<Seq<u8>>, start: int)
    ensures
        offset_bytes(entries, start).len() == entries.len() * 2,
    decreases entries.len(),
{
    broadcast use crate::bytes::group_lengths;

    if entries.len() > 0 {
        offsets_length(entries.drop_last(), start);
    }
}

proof fn offset_at(entries: Seq<Seq<u8>>, start: int, i: int)
    requires
        0 <= i < entries.len(),
    ensures
        offset_bytes(entries, start).len() == entries.len() * 2,
        offset_bytes(entries, start).subrange(i * 2, i * 2 + 2) == be16(
            low16(start + flat(entries.take(i)).len()),
        ),
    decreases entries.len(),
{
    broadcast use crate::bytes::group_lengths;

    let front = entries.drop_last();
    offsets_length(front, start);
    offsets_length(entries, start);
    let all = offset_bytes(entries, start);
    if i == entries.len() - 1 {
        assert(entries.take(i) =~= front);
        assert(all.subrange(i * 2, i * 2 + 2) =~= be16(low16(start + flat(front).len())));
    } else {
        offset_at(front, start, i);
        assert(front.take(i) =~= entries.take(i));
        assert(all.subrange(i * 2, i * 2 + 2) =~= offset_bytes(front, start).subrange(
            i * 2,
            i * 2 + 2,
        ));
    }
}

/// A reader of a data record finds every entry: the header leads to the offset
/// table, and entry `i` of that table to entry `i`, as long as the offsets fit 16
/// bits.
pub proof fn index_offsets_lead_to_entries(entries: Seq<Seq<u8>>, i: int)
    requires
        192 + flat(entries).len() <= u16::MAX,
        0 <= i < entries.len(),
    ensures
        ({
            let record = data_record(entries);
            let table = read_be32(record, 20);
            let at = read_be16(record, table + 4 + i * 2);
            &&& record.subrange(table, table + 4) == utf8("IDXT"@)
            &&& 192 <= at
            &&& at + entries[i].len() <= table
            &&& record.subrange(at, at + entries[i].len()) == entries[i]
        }),
{
    broadcast use crate::bytes::group_lengths;

    reveal_strlit("INDX");
    reveal_strlit("IDXT");
    vstd::utf8::is_ascii_chars_encode_utf8("INDX"@);
    vstd::utf8::is_ascii_chars_encode_utf8("IDXT"@);
    let record = data_record(entries);
    let body = flat(entries);
    let before = flat(entries.take(i));
    let table = 192 + body.len() as int;
    offset_at(entries, 192, i);
    flat_splits(entries, i);
    flat_splits(entries.skip(i), 1);
    assert(entries.skip(i).take(1) =~= seq![entries[i]]);
    reveal_with_fuel(flat, 2);
    assert(seq![entries[i]].drop_last() =~= seq![]);
    assert(flat(seq![entries[i]]) =~= entries[i]);
    low32_of_small(table);
    low16_of_small(192int + before.len());
    let head = utf8("INDX"@) + be32(192) + be32(0) + be32(1) + be32(0) + be32(low32(table)) + be32(
        low32(entries.len() as int),
    ) + be32(0xFFFF_FFFF) + be32(0xFFFF_FFFF) + zeros(156);
    let offsets = offset_bytes(entries, 192);
    assert(head.len() == 192);
    assert(head.subrange(20, 24) =~= be32(low32(table)));
    let unpadded = head + body + utf8("IDXT"@) + offsets;
    assert(record == unpadded + zeros(unpadded.len() % 2));
    assert(record.subrange(20, 24) =~= head.subrange(20, 24));
    be32_reads_back(low32(table), record, 20);
    assert(record.subrange(table, table + 4) =~= utf8("IDXT"@));
    assert(record.subrange(table + 4 + i * 2, table + 4 + i * 2 + 2) =~= offsets.subrange(
        i * 2,
        i * 2 + 2,
    ));
    be16_reads_back(low16(192int + before.len()), record, table + 4 + i * 2);
    let at = 192 + before.len() as int;
    assert(record.subrange(at, at + entries[i].len()) =~= body.subrange(
        before.len() as int,
        (before.len() + entries[i].len()) as int,
    ));
    assert(body.subrange(before.len() as int, (before.len() + entries[i].len()) as int)
        =~= entries[i]);
}

/// A run of bytes is a number that a reader of an index can tell from what follows: the high bit is set
/// on its last byte alone.
pub open spec fn is_index_number(s: Seq<u8>, v: int) -> bool {
    &&& s.len() >= 1
    &&& forall|i: int| 0 <= i < s.len() ==> (#[trigger] s[i] >= 0x80 <==> i == s.len() - 1)
    &&& value(s) == v
}

proof fn inverted_is_index_number(v: nat)
    ensures
        is_index_number(inverted(v), v as int),
{
    inverted_reads_back(v);
    inverted_ends_at_set_bit(v);
}

/// An index entry as a reader takes it apart: the length of its label, the label, its control byte, and
/// two numbers.
pub open spec fn reads_as_pair(entry: Seq<u8>, label: Seq<u8>, control: u8, a: int, b: int) -> bool {
    exists|x: Seq<u8>, y: Seq<u8>|
        {
            &&& #[trigger] is_index_number(x, a)
            &&& #[trigger] is_index_number(y, b)
            &&& entry == seq![label.len() as u8] + label + seq![control] + x + y
        }
}

/// An index entry with two numbers gives them back, behind as much of its label as fits.
pub proof fn pair_entries_read_back(label: Seq<u8>, a: u32, b: u32)
    ensures
        reads_as_pair(
            index_entry(label, seq![(1u8, a), (2u8, b)], false),
            if label.len() > 31 {
                label.take(31)
            } else {
                label
            },
            1,
            a as int,
            b as int,
        ),
{
    let values = seq![(1u8, a), (2u8, b)];
    let x = inverted(a as nat);
    let y = inverted(b as nat);
    inverted_is_index_number(a as nat);
    inverted_is_index_number(b as nat);
    reveal_with_fuel(value_bytes, 3);
    assert(values.drop_last() =~= seq![(1u8, a)]);
    assert(seq![(1u8, a)].drop_last() =~= seq![]);
    assert(value_bytes(values) =~= x + y);
    assert(values[0].0 == 1);
    assert(control_byte(values, false) == 1);
    let l = short_label(label);
    assert(index_entry(label, values, false) =~= seq![l.len() as u8] + l + seq![1u8] + x + y);
}

/// The index entry of a skeleton, fragment or source document gives back its position and its two
/// numbers, behind as much of its label as fits.
pub proof fn chunk_entries_read_back(c: Chunk, tag: u8)
    requires
        tag == 1 || tag == 2,
        0 <= c.position <= u32::MAX,
        0 <= c.first <= u32::MAX,
        0 <= c.second <= u32::MAX,
    ensures
        ({
            let label = if utf8(c.label).len() > 31 {
                utf8(c.label).take(31)
            } else {
                utf8(c.label)
            };
            exists|x: Seq<u8>, y: Seq<u8>, z: Seq<u8>|
                {
                    &&& #[trigger] is_index_number(x, c.position)
                    &&& #[trigger] is_index_number(y, c.first)
                    &&& #[trigger] is_index_number(z, c.second)
                    &&& chunk_entry(c, tag) == seq![label.len() as u8] + label + seq![3u8] + x + y + z
                }
        }),
{
    low32_of_small(c.position);
    low32_of_small(c.first);
    low32_of_small(c.second);
    let a = low32(c.position);
    let b = low32(c.first);
    let d = low32(c.second);
    let values = seq![(tag, a), (6u8, b), (60u8, d)];
    let x = inverted(a as nat);
    let y = inverted(b as nat);
    let z = inverted(d as nat);
    inverted_is_index_number(a as nat);
    inverted_is_index_number(b as nat);
    inverted_is_index_number(d as nat);
    reveal_with_fuel(value_bytes, 4);
    let two = seq![(tag, a), (6u8, b)];
    let one = seq![(tag, a)];
    assert(values.drop_last() =~= two);
    assert(two.drop_last() =~= one);
    assert(one.drop_last() =~= seq![]);
    assert(value_bytes(values) =~= x + y + z);
    assert(values[0].0 == tag && values[1].0 == 6);
    assert(control_byte(values, true) == 3);
    let l = short_label(utf8(c.label));
    assert(chunk_entry(c, tag) =~= seq![l.len() as u8] + l + seq![3u8] + x + y + z);
}

/// Each source document has its skeleton, its fragment and its place in the table of contents, each
/// under its own number.
pub proof fn documents_are_numbered(parts: Seq<Seq<u8>>, i: int)
    requires
        0 <= i < parts.len(),
    ensures
        fragments_of(parts.len()).len() == parts.len(),
        contents_chunks(parts.len()).len() == parts.len(),
        fragments_of(parts.len())[i].first == i,
        fragments_of(parts.len())[i].position == 0,
        contents_chunks(parts.len())[i].first == i,
        decimal_value(fragments_of(parts.len())[i].label.skip(4)) == i,
        decimal_value(skeletons_of(parts)[i].label.skip(4)) == i,
        skeletons_of(parts)[i].second == 1,
{
    reveal_strlit("FRAG");
    reveal_strlit("SKEL");
    decimals_read_back(i as nat, 10);
    let d = padded_decimal(i as nat, 10);
    assert(fragments_of(parts.len())[i].label.skip(4) =~= d);
    assert(skeletons_of(parts)[i].label.skip(4) =~= d);
}

/// The KF8 text is the documents one behind the other and then the styles: each document with its
/// images embedded and its tags numbered stands where its skeleton says, and what follows the last one
/// is the style sheet.
pub proof fn kf8_text_holds_documents_and_styles(
    html_parts: Seq<Seq<char>>,
    css: Seq<char>,
    hrefs: Seq<Seq<char>>,
    nested: bool,
    plain: bool,
)
    ensures
        ({
            let source = kf8_source(html_parts, css, hrefs, nested, plain);
            let skeletons = skeletons_of(source.parts);
            &&& skeletons.len() == html_parts.len()
            &&& source.plain == plain
            &&& source.text().skip(source.html().len() as int) == utf8(css)
            &&& source.text().take(source.html().len() as int) == source.html()
            &&& utf8(css).len() == 0 ==> source.flows() == 1
            &&& utf8(css).len() > 0 ==> source.flows() == 2
            &&& forall|i: int|
                0 <= i < html_parts.len() ==> {
                    let s = #[trigger] skeletons[i];
                    let aid = aid_before(html_parts, path_forms(hrefs, nested), i as nat);
                    &&& 0 <= s.position
                    &&& 0 <= s.first
                    &&& s.position + s.first <= source.html().len()
                    &&& source.text().subrange(s.position, s.position + s.first) == utf8(
                        kf8_part(html_parts[i], aid, path_forms(hrefs, nested)),
                    )
                }
        }),
{
    let source = kf8_source(html_parts, css, hrefs, nested, plain);
    assert(source.text().skip(source.html().len() as int) =~= utf8(css));
    assert(source.text().take(source.html().len() as int) =~= source.html());
    assert forall|i: int| 0 <= i < html_parts.len() implies ({
        let s = #[trigger] skeletons_of(source.parts)[i];
        &&& s.position + s.first <= source.html().len()
        &&& source.text().subrange(s.position, s.position + s.first) == source.parts[i]
    }) by {
        skeleton_names_its_part(source, i);
    }
}

/// The documents of a KF8 text are numbered throughout: the tags of one begin where those of the one
/// before it end, from zero on.
pub proof fn anchors_go_on_from_document_to_document(parts: Seq<Seq<char>>, paths: PathForms, n: nat)
    requires
        n < parts.len(),
    ensures
        aid_before(parts, paths, 0) == 0,
        aid_before(parts, paths, n + 1) == (aid_before(parts, paths, n) + regex_found(
            source(Pattern::AnchoredTag),
            embedded(parts[n as int], paths),
        ).len()) % 0x1_0000_0000,
{
}

/// The flow table of a text gives back its flows: the HTML from the beginning, and the styles from its
/// end to the end of the text, where there are any.
pub proof fn flows_read_back(html_length: int, total_length: int)
    requires
        0 <= html_length <= total_length <= u32::MAX,
    ensures
        ({
            let r = flow_table(html_length, total_length);
            &&& r.subrange(0, 4) == utf8("FDST"@)
            &&& read_be32(r, 12) == 0
            &&& read_be32(r, 16) == html_length
            &&& total_length == html_length ==> read_be32(r, 8) == 1 && r.len() == 20
            &&& total_length > html_length ==> {
                &&& read_be32(r, 8) == 2
                &&& read_be32(r, 20) == html_length
                &&& read_be32(r, 24) == total_length
                &&& r.len() == 28
            }
        }),
{
    broadcast use crate::bytes::group_lengths;

    reveal(flow_table);
    reveal_strlit("FDST");
    vstd::utf8::is_ascii_chars_encode_utf8("FDST"@);
    low32_of_small(html_length);
    low32_of_small(total_length);
    let r = flow_table(html_length, total_length);
    let h = low32(html_length);
    let t = low32(total_length);
    assert(r.subrange(0, 4) =~= utf8("FDST"@));
    assert(r.subrange(12, 16) =~= be32(0));
    assert(r.subrange(16, 20) =~= be32(h));
    be32_reads_back(0, r, 12);
    be32_reads_back(h, r, 16);
    if total_length > html_length {
        assert(r.subrange(8, 12) =~= be32(2));
        assert(r.subrange(20, 24) =~= be32(h));
        assert(r.subrange(24, 28) =~= be32(t));
        be32_reads_back(2, r, 8);
        be32_reads_back(h, r, 20);
        be32_reads_back(t, r, 24);
    } else {
        assert(r.subrange(8, 12) =~= be32(1));
        be32_reads_back(1, r, 8);
    }
}

proof fn tags_stand_in_table(defs: Seq<TagDef>, i: int)
    requires
        0 <= i < defs.len(),
    ensures
        tag_bytes(defs).len() == 4 * defs.len(),
        tag_bytes(defs)[4 * i] == defs[i].tag_id,
        tag_bytes(defs)[4 * i + 1] == defs[i].num_values,
        tag_bytes(defs)[4 * i + 2] == defs[i].mask,
        tag_bytes(defs)[4 * i + 3] == 0,
    decreases defs.len(),
{
    let rest = defs.drop_last();
    tag_bytes_length(rest);
    if i < rest.len() {
        tags_stand_in_table(rest, i);
    }
}

proof fn tag_bytes_length(defs: Seq<TagDef>)
    ensures
        tag_bytes(defs).len() == 4 * defs.len(),
    decreases defs.len(),
{
    if defs.len() > 0 {
        tag_bytes_length(defs.drop_last());
    }
}

/// A reader of a tag table finds its length, that entries have one control byte, every tag with the
/// number of its values and its bits in the control byte, and the end of the table.
pub proof fn tag_tables_read_back(defs: Seq<TagDef>, i: int)
    requires
        0 <= i < defs.len() <= 0xffff,
    ensures
        ({
            let table = tagx(defs);
            &&& table.subrange(0, 4) == utf8("TAGX"@)
            &&& read_be32(table, 4) == table.len()
            &&& read_be32(table, 8) == 1
            &&& table.len() == 16 + 4 * defs.len()
            &&& table[12 + 4 * i] == defs[i].tag_id
            &&& table[12 + 4 * i + 1] == defs[i].num_values
            &&& table[12 + 4 * i + 2] == defs[i].mask
            &&& table[12 + 4 * i + 3] == 0
            &&& table.skip(table.len() - 4) == seq![0u8, 0u8, 0u8, 1u8]
        }),
{
    broadcast use crate::bytes::group_lengths;

    reveal_strlit("TAGX");
    vstd::utf8::is_ascii_chars_encode_utf8("TAGX"@);
    let table = tagx(defs);
    let n = (defs.len() * 4 + 16) as int;
    tags_stand_in_table(defs, i);
    low32_of_small(n);
    let b = tag_bytes(defs);
    assert(table.len() == n);
    assert(table.subrange(0, 4) =~= utf8("TAGX"@));
    assert(table.subrange(4, 8) =~= be32(low32(n)));
    be32_reads_back(low32(n), table, 4);
    assert(table.subrange(8, 12) =~= be32(1));
    be32_reads_back(1, table, 8);
    assert(table[12 + 4 * i] == b[4 * i]);
    assert(table[12 + 4 * i + 1] == b[4 * i + 1]);
    assert(table[12 + 4 * i + 2] == b[4 * i + 2]);
    assert(table[12 + 4 * i + 3] == b[4 * i + 3]);
    assert(table.skip(table.len() - 4) =~= seq![0u8, 0u8, 0u8, 1u8]);
}

/// A label stands at a place of a record, its length before it, as much of it as five bits can tell.
pub open spec fn label_at(record: Seq<u8>, at: int, label: Seq<u8>) -> bool {
    let n: int = if label.len() > 31 {
        31
    } else {
        label.len() as int
    };
    &&& 0 <= at
    &&& at + 1 + n <= record.len()
    &&& record[at] == n
    &&& record.subrange(at + 1, at + 1 + n) == label.take(n)
}

/// A reader of a primary record finds how many data records there are, how many entries they have in
/// all, the tag table, and for each data record the last label in it.
pub proof fn primary_records_read_back(
    table: Seq<u8>,
    data_records: int,
    total: int,
    labels: Seq<Seq<u8>>,
)
    requires
        0 <= data_records <= u32::MAX,
        0 <= total <= u32::MAX,
        192 + table.len() + flat(routing_entries(labels)).len() <= u16::MAX,
    ensures
        ({
            let record = primary_record(table, data_records, total, labels);
            let places = read_be32(record, 20);
            &&& record.subrange(0, 4) == utf8("INDX"@)
            &&& record.len() % 4 == 0
            &&& read_be32(record, 4) == 192
            &&& read_be32(record, 24) == data_records
            &&& read_be32(record, 28) == 65002
            &&& read_be32(record, 36) == total
            &&& read_be32(record, 180) == 192
            &&& 192 + table.len() <= places <= record.len() - 4
            &&& record.subrange(192, 192int + table.len()) == table
            &&& record.subrange(places, places + 4) == utf8("IDXT"@)
            &&& forall|i: int|
                0 <= i < labels.len() ==> label_at(
                    record,
                    read_be16(record, places + 4 + i * 2),
                    #[trigger] labels[i],
                )
        }),
{
    let record = primary_record(table, data_records, total, labels);
    let places = 192 + table.len() + flat(routing_entries(labels)).len() as int;
    let (head, behind) = primary_parts(table, data_records, total, labels);
    heads_are_read(head, table + flat(routing_entries(labels)) + behind);
    assert(head + (table + flat(routing_entries(labels)) + behind) =~= record);
    assert(record.subrange(0, 4) =~= head.subrange(0, 4));
    assert(record.subrange(192, 192int + table.len()) =~= table);
    assert(record.subrange(places, places + 4) =~= behind.subrange(0, 4));
    assert forall|i: int| 0 <= i < labels.len() implies label_at(
        record,
        read_be16(record, places + 4 + i * 2),
        #[trigger] labels[i],
    ) by {
        offset_at(routing_entries(labels), 192int + table.len(), i);
        routing_entries_are_read(head + table, labels, behind, i);
    }
}

#[verifier::opaque]
spec fn primary_head(places: int, data_records: int, total: int) -> Seq<u8> {
    utf8("INDX"@) + be32(192) + be32(0) + be32(0) + be32(2) + be32(low32(places)) + be32(
        low32(data_records),
    ) + be32(0xFDEA) + be32(8) + be32(low32(total)) + zeros(140) + be32(192) + zeros(8)
}

proof fn primary_head_layout(places: int, data_records: int, total: int)
    requires
        0 <= places <= u32::MAX,
        0 <= data_records <= u32::MAX,
        0 <= total <= u32::MAX,
    ensures
        ({
            let head = primary_head(places, data_records, total);
            &&& head.len() == 192
            &&& head.subrange(0, 4) == utf8("INDX"@)
            &&& read_be32(head, 4) == 192
            &&& read_be32(head, 20) == places
            &&& read_be32(head, 24) == data_records
            &&& read_be32(head, 28) == 65002
            &&& read_be32(head, 36) == total
            &&& read_be32(head, 180) == 192
        }),
{
    broadcast use crate::bytes::group_lengths;

    reveal(primary_head);
    reveal_strlit("INDX");
    vstd::utf8::is_ascii_chars_encode_utf8("INDX"@);
    low32_of_small(places);
    low32_of_small(data_records);
    low32_of_small(total);
    let head = primary_head(places, data_records, total);
    assert(head.subrange(0, 4) =~= utf8("INDX"@));
    assert(head.subrange(4, 8) =~= be32(192));
    be32_reads_back(192, head, 4);
    assert(head.subrange(20, 24) =~= be32(low32(places)));
    be32_reads_back(low32(places), head, 20);
    assert(head.subrange(24, 28) =~= be32(low32(data_records)));
    be32_reads_back(low32(data_records), head, 24);
    assert(head.subrange(28, 32) =~= be32(0xFDEA));
    be32_reads_back(0xFDEA, head, 28);
    assert(head.subrange(36, 40) =~= be32(low32(total)));
    be32_reads_back(low32(total), head, 36);
    assert(head.subrange(180, 184) =~= be32(192));
    be32_reads_back(192, head, 180);
}

proof fn primary_parts(table: Seq<u8>, data_records: int, total: int, labels: Seq<Seq<u8>>) -> (parts: (
    Seq<u8>,
    Seq<u8>,
))
    requires
        0 <= data_records <= u32::MAX,
        0 <= total <= u32::MAX,
        192 + table.len() + flat(routing_entries(labels)).len() <= u16::MAX,
    ensures
        ({
            let record = primary_record(table, data_records, total, labels);
            let offsets = offset_bytes(routing_entries(labels), 192int + table.len());
            let (head, behind) = parts;
            &&& record == head + table + flat(routing_entries(labels)) + behind
            &&& record.len() % 4 == 0
            &&& head.len() == 192
            &&& head.subrange(0, 4) == utf8("INDX"@)
            &&& read_be32(head, 4) == 192
            &&& read_be32(head, 20) == 192 + table.len() + flat(routing_entries(labels)).len()
            &&& read_be32(head, 24) == data_records
            &&& read_be32(head, 28) == 65002
            &&& read_be32(head, 36) == total
            &&& read_be32(head, 180) == 192
            &&& behind.len() >= 4 + offsets.len()
            &&& behind.subrange(0, 4) == utf8("IDXT"@)
            &&& behind.subrange(4, 4 + offsets.len() as int) == offsets
        }),
{
    let body = table + flat(routing_entries(labels));
    let places = 192 + body.len() as int;
    let head = primary_head(places, data_records, total);
    primary_head_layout(places, data_records, total);
    let offsets = offset_bytes(routing_entries(labels), 192int + table.len());
    let mark = utf8("IDXT"@);
    reveal_strlit("IDXT");
    vstd::utf8::is_ascii_chars_encode_utf8("IDXT"@);
    let unpadded = head + body + mark + offsets;
    let fill = zeros(((4 - unpadded.len() % 4) % 4) as nat);
    let record = primary_record(table, data_records, total, labels);
    assert(record == unpadded + fill) by {
        reveal(primary_head);
    }
    let behind = mark + offsets + fill;
    assert(unpadded + fill =~= head + table + flat(routing_entries(labels)) + behind);
    assert(behind.subrange(0, 4) =~= mark);
    assert(behind.subrange(4, 4 + offsets.len() as int) =~= offsets);
    (head, behind)
}

proof fn heads_are_read(head: Seq<u8>, rest: Seq<u8>)
    requires
        head.len() == 192,
    ensures
        forall|k: int| 0 <= k <= 188 ==> #[trigger] read_be32(head + rest, k) == read_be32(head, k),
{
}

proof fn routing_entries_are_read(front: Seq<u8>, labels: Seq<Seq<u8>>, behind: Seq<u8>, i: int)
    requires
        0 <= i < labels.len(),
        front.len() + flat(routing_entries(labels)).len() <= u16::MAX,
        behind.len() >= 4 + 2 * labels.len(),
        behind.subrange(4, 4 + offset_bytes(routing_entries(labels), front.len() as int).len() as int)
            == offset_bytes(routing_entries(labels), front.len() as int),
    ensures
        ({
            let all = flat(routing_entries(labels));
            let record = front + all + behind;
            label_at(record, read_be16(record, front.len() + all.len() + 4 + i * 2), labels[i])
        }),
{
    let entries = routing_entries(labels);
    let all = flat(entries);
    let record = front + all + behind;
    let offsets = offset_bytes(entries, front.len() as int);
    let before = flat(entries.take(i));
    let start = front.len() + before.len() as int;
    let places = front.len() + all.len() as int;
    offset_at(entries, front.len() as int, i);
    flat_splits(entries, i);
    flat_splits(entries.skip(i), 1);
    assert(entries.skip(i).take(1) =~= seq![entries[i]]);
    reveal_with_fuel(flat, 2);
    assert(seq![entries[i]].drop_last() =~= seq![]);
    assert(flat(seq![entries[i]]) =~= entries[i]);
    low16_of_small(start);
    assert(record.subrange(places + 4 + i * 2, places + 4 + i * 2 + 2) =~= offsets.subrange(
        i * 2,
        i * 2 + 2,
    )) by {
        let o = behind.subrange(4, 4 + offsets.len() as int);
        assert(o[i * 2] == behind[4 + i * 2]);
        assert(o[i * 2 + 1] == behind[4 + i * 2 + 1]);
    }
    be16_reads_back(low16(start), record, places + 4 + i * 2);
    let entry = routing_entry(labels[i]);
    let l = short_label(labels[i]);
    assert(l =~= labels[i].take(l.len() as int));
    assert(all.subrange(before.len() as int, (before.len() + entry.len()) as int) =~= entry);
    assert forall|k: int| 0 <= k < entry.len() implies record[start + k] == #[trigger] entry[k] by {
        assert(all.subrange(before.len() as int, (before.len() + entry.len()) as int)[k]
            == all[before.len() + k]);
    }
    assert(record[start + 0] == entry[0]);
    assert(record.subrange(start + 1, start + 1 + l.len()) =~= l) by {
        assert forall|k: int| 0 <= k < l.len() implies record[start + 1 + k] == #[trigger] l[k] by {
            assert(record[start + (1 + k)] == entry[1 + k]);
            assert(entry[1 + k] == l[k]);
        }
    }
}

/// A data record says how many entries it has, and has an even length.
pub proof fn data_records_count_their_entries(entries: Seq<Seq<u8>>)
    requires
        entries.len() <= u32::MAX,
    ensures
        data_record(entries).len() % 2 == 0,
        data_record(entries).subrange(0, 4) == utf8("INDX"@),
        read_be32(data_record(entries), 4) == 192,
        read_be32(data_record(entries), 24) == entries.len(),
{
    broadcast use crate::bytes::group_lengths;

    reveal_strlit("INDX");
    vstd::utf8::is_ascii_chars_encode_utf8("INDX"@);
    let record = data_record(entries);
    low32_of_small(entries.len() as int);
    assert(record.subrange(0, 4) =~= utf8("INDX"@));
    assert(record.subrange(4, 8) =~= be32(192));
    be32_reads_back(192, record, 4);
    assert(record.subrange(24, 28) =~= be32(low32(entries.len() as int)));
    be32_reads_back(low32(entries.len() as int), record, 24);
}

/// The control byte of an entry has its first bit set where the entry has a position or a length, and
/// its second where it has a pair of numbers that is asked for.
pub proof fn control_bytes_tell_tags(values: Seq<(u8, u32)>, has_pair: bool)
    ensures
        control_byte(values, has_pair) < 4,
        control_byte(values, has_pair) % 2 == 1 <==> exists|i: int|
            0 <= i < values.len() && ((#[trigger] values[i]).0 == 1 || values[i].0 == 2),
        control_byte(values, has_pair) >= 2 <==> has_pair && exists|i: int|
            0 <= i < values.len() && (#[trigger] values[i]).0 == 6,
{
}

/// A primary record says that there is one data record, how many entries that has, which tags they have,
/// and its last label.
#[verifier::opaque]
pub open spec fn tells_chunks(record: Seq<u8>, tag: u8, total: int, label: Seq<u8>) -> bool {
    &&& read_be32(record, 24) == 1
    &&& read_be32(record, 36) == total
    &&& record.subrange(204, 212) == seq![tag, 1u8, 1u8, 0u8, 6u8, 2u8, 2u8, 0u8]
    &&& label_at(record, read_be16(record, read_be32(record, 20) + 4), label)
}

/// A data record says how many entries it has, and its offset table leads to this one as number `i`.
#[verifier::opaque]
pub open spec fn leads_to_entry(record: Seq<u8>, total: int, i: int, entry: Seq<u8>) -> bool {
    let at = read_be16(record, read_be32(record, 20) + 4 + i * 2);
    read_be32(record, 24) == total && record.subrange(at, at + entry.len()) == entry
}

#[verifier::opaque]
spec fn reads_as_table(table: Seq<u8>, tag: u8) -> bool {
    table.len() == 24 && table.subrange(12, 20) == seq![tag, 1u8, 1u8, 0u8, 6u8, 2u8, 2u8, 0u8]
}

proof fn chunk_tables_read_back(tag: u8)
    ensures
        reads_as_table(tagx(chunk_tags(tag)), tag),
        tagx(chunk_tags(tag)).len() == 24,
{
    reveal(reads_as_table);
    let defs = chunk_tags(tag);
    tag_tables_read_back(defs, 0);
    tag_tables_read_back(defs, 1);
    let table = tagx(defs);
    let found = table.subrange(12, 20);
    assert(found[0] == table[12] && found[1] == table[13] && found[2] == table[14]);
    assert(found[3] == table[15] && found[4] == table[16] && found[5] == table[17]);
    assert(found[6] == table[18] && found[7] == table[19]);
    assert(found =~= seq![tag, 1u8, 1u8, 0u8, 6u8, 2u8, 2u8, 0u8]);
}

proof fn primary_record_tells(table: Seq<u8>, tag: u8, total: int, label: Seq<u8>)
    requires
        0 <= total <= u32::MAX,
        reads_as_table(table, tag),
        table.len() == 24,
    ensures
        tells_chunks(primary_record(table, 1, total, seq![label]), tag, total, label),
{
    let labels = seq![label];
    let entries = routing_entries(labels);
    assert(entries.drop_last() =~= seq![]);
    assert(flat(entries.drop_last()) =~= seq![]);
    assert(flat(entries).len() <= 33);
    primary_records_read_back(table, 1, total, labels);
    record_tells(primary_record(table, 1, total, labels), table, tag, total, labels);
}

proof fn record_tells(record: Seq<u8>, table: Seq<u8>, tag: u8, total: int, labels: Seq<Seq<u8>>)
    requires
        reads_as_table(table, tag),
        record.len() >= 216,
        labels.len() == 1,
        read_be32(record, 24) == 1,
        read_be32(record, 36) == total,
        record.subrange(192, 192int + table.len()) == table,
        forall|i: int|
            0 <= i < labels.len() ==> label_at(
                record,
                read_be16(record, read_be32(record, 20) + 4 + i * 2),
                #[trigger] labels[i],
            ),
    ensures
        tells_chunks(record, tag, total, labels[0]),
{
    reveal(reads_as_table);
    reveal(tells_chunks);
    assert(label_at(record, read_be16(record, read_be32(record, 20) + 4 + 0 * 2), labels[0]));
    assert(record.subrange(204, 212) =~= record.subrange(192, 216).subrange(12, 20));
}

proof fn data_record_leads(entries: Seq<Seq<u8>>, i: int)
    requires
        0 <= i < entries.len() <= u32::MAX,
        192 + flat(entries).len() <= u16::MAX,
    ensures
        leads_to_entry(data_record(entries), entries.len() as int, i, entries[i]),
{
    reveal(leads_to_entry);
    data_records_count_their_entries(entries);
    index_offsets_lead_to_entries(entries, i);
}

/// The index over skeletons or fragments is a primary record and a data record: the first says how many
/// there are and tells their last label, and the second leads to the entry of each by its number, as
/// long as the offsets fit 16 bits.
pub proof fn chunk_indexes_tell_their_chunks(list: Seq<Chunk>, tag: u8, i: int)
    requires
        0 <= i < list.len() <= u32::MAX,
    ensures
        chunk_index(list, tag).len() == 2,
        tells_chunks(
            chunk_index(list, tag)[0],
            tag,
            list.len() as int,
            utf8(list[list.len() - 1].label),
        ),
        192 + flat(chunk_entries(list, tag)).len() <= u16::MAX ==> leads_to_entry(
            chunk_index(list, tag)[1],
            list.len() as int,
            i,
            chunk_entry(list[i], tag),
        ),
{
    reveal(chunk_index);
    chunk_tables_read_back(tag);
    primary_record_tells(tagx(chunk_tags(tag)), tag, list.len() as int, utf8(list.last().label));
    if 192 + flat(chunk_entries(list, tag)).len() <= u16::MAX {
        data_record_leads(chunk_entries(list, tag), i);
    }
}

/// The index of the table of contents has an entry for each source document, in their order, under the
/// number of the document.
pub proof fn contents_indexes_tell_documents(n: nat, i: int)
    requires
        0 <= i < n <= u32::MAX,
    ensures
        contents_index(n).len() == 2,
        tells_chunks(contents_index(n)[0], 1, n as int, utf8(padded_decimal((n - 1) as nat, 10))),
        192 + flat(chunk_entries(contents_chunks(n), 1)).len() <= u16::MAX ==> leads_to_entry(
            contents_index(n)[1],
            n as int,
            i,
            chunk_entry(
                Chunk { label: padded_decimal(i as nat, 10), position: 0, first: i, second: i },
                1,
            ),
        ),
{
    reveal(contents_index);
    chunk_tables_read_back(1);
    primary_record_tells(
        tagx(chunk_tags(1)),
        1,
        n as int,
        utf8(padded_decimal((n - 1) as nat, 10)),
    );
    if 192 + flat(chunk_entries(contents_chunks(n), 1)).len() <= u16::MAX {
        data_record_leads(chunk_entries(contents_chunks(n), 1), i);
    }
}

} // verus!
