//! The lookup index of a dictionary, and dictionaries built from their documents.
//!
//! The labels of the index are in UTF-8 and in the order of their bytes. The length of a label has
//! five bits in an index entry, so no label is longer than 31 bytes: forms whose first 31 bytes are
//! the same share theirs. There is no character mapping and there are no sort tables, so a reader
//! compares bytes.

use vstd::prelude::*;

use crate::bytes::{flat, length32, low32, low32_of_small, push_all, read_be16, read_be32};
use crate::dictionary::{
    entry_blocks_lie_in_text, entry_position, forms_lead_to_one_entry,
    forms_without_brackets_are_found, headword_set, in_label_order, is_form_of, is_found,
    is_headword, is_inflected, labels, leads_home, lookup_finds_entries, lookup_terms, position_of,
    sort_lookup_terms, words, DictionaryEntry, LookupTable, LookupTerm, Term,
};
use crate::header::{full_name, Metadata};
use crate::kf8::{
    build_kf8_indx_data_record, build_kf8_indx_primary, build_tagx, data_record,
    encode_kf8_indx_entry, index_entry, index_offsets_lead_to_entries, label_at, primary_record,
    pair_entries_read_back, primary_records_read_back, reads_as_pair, routing_entries, short_label,
    tag_tables_read_back, tagx, value_bytes, TagDef,
};
use crate::mobi::{
    build_dictionary_mobi, dictionary_file, dictionary_text, opt_bytes, prepare_dictionary,
    BuildError,
};
use crate::order::{
    all_ranks, keys_are_ordered_by_their_first_difference, parts_at, precedes, ranks,
};
use crate::package::{all_entries, entry_texts, read_entries};
use crate::palmdb::palmdb;
use crate::pattern::texts;
use crate::records::contents;
use crate::text::{utf8, utf8_is_injective};
use crate::vwi::{digits, inverted};

verus! {

/// How many terms go into one data record.
pub const TERMS_PER_RECORD: usize = 200;

/// The tags of a lookup index: where an entry begins, and how long it is.
pub open spec fn lookup_tags() -> Seq<TagDef> {
    seq![
        TagDef { tag_id: 1, num_values: 1, mask: 1 },
        TagDef { tag_id: 2, num_values: 1, mask: 1 },
    ]
}

/// The index entry of a term.
pub open spec fn term_entry(t: LookupTerm) -> Seq<u8> {
    index_entry(
        t.label_bytes@,
        seq![(1u8, low32(t.start_pos as int)), (2u8, low32(t.text_len as int))],
        false,
    )
}

/// The index entry of a form with its label in UTF-8.
pub open spec fn form_entry(t: Term) -> Seq<u8> {
    index_entry(utf8(t.label), seq![(1u8, low32(t.start)), (2u8, low32(t.length))], false)
}

/// The index entries of terms.
pub open spec fn term_entries(terms: Seq<LookupTerm>) -> Seq<Seq<u8>> {
    Seq::new(terms.len(), |i: int| term_entry(terms[i]))
}

/// The end of the group of terms that starts at `start`.
pub open spec fn group_end(terms: Seq<LookupTerm>, start: int) -> int {
    if start + TERMS_PER_RECORD < terms.len() {
        start + TERMS_PER_RECORD
    } else {
        terms.len() as int
    }
}

/// The groups of terms from `start` on, one for each data record.
pub open spec fn groups_from(terms: Seq<LookupTerm>, start: int) -> Seq<Seq<LookupTerm>>
    decreases terms.len() - start,
{
    if start < 0 || start >= terms.len() {
        seq![]
    } else {
        seq![terms.subrange(start, group_end(terms, start))] + groups_from(
            terms,
            group_end(terms, start),
        )
    }
}

/// The lookup index: a primary record that knows the last label of each data record, and the data
/// records with the terms.
pub open spec fn lookup_index(terms: Seq<LookupTerm>) -> Seq<Seq<u8>> {
    let groups = groups_from(terms, 0);
    let labels = Seq::new(groups.len(), |g: int| groups[g].last().label_bytes@);
    seq![
        primary_record(tagx(lookup_tags()), groups.len() as int, terms.len() as int, labels),
    ] + Seq::new(groups.len(), |g: int| data_record(term_entries(groups[g])))
}

fn build_group(terms: &[LookupTerm], start: usize, end: usize) -> (r: Vec<u8>)
    requires
        start <= end <= terms@.len(),
    ensures
        r@ == data_record(term_entries(terms@.subrange(start as int, end as int))),
{
    let ghost group = terms@.subrange(start as int, end as int);
    let mut entries: Vec<Vec<u8>> = Vec::new();
    let mut i: usize = start;
    while i < end
        invariant
            start <= i <= end <= terms@.len(),
            group == terms@.subrange(start as int, end as int),
            entries@.len() == i - start,
            forall|k: int| 0 <= k < i - start ==> (#[trigger] entries@[k])@ == term_entry(group[k]),
        decreases end - i,
    {
        let t = &terms[i];
        let values: [(u8, u32); 2] = [(1, length32(t.start_pos)), (2, length32(t.text_len))];
        assert(values@ =~= seq![(1u8, low32(t.start_pos as int)), (2u8, low32(t.text_len as int))]);
        assert(group[i - start] == *t);
        entries.push(encode_kf8_indx_entry(&t.label_bytes, &values, false));
        i += 1;
    }
    assert(contents(entries@) =~= term_entries(group));
    build_kf8_indx_data_record(&entries)
}

/// Builds the lookup index over terms that are in order.
pub fn build_orth_indx(terms: &[LookupTerm]) -> (r: Vec<Vec<u8>>)
    ensures
        contents(r@) == lookup_index(terms@),
{
    let size: usize = terms.len();
    let mut data: Vec<Vec<u8>> = Vec::new();
    let mut labels: Vec<Vec<u8>> = Vec::new();
    let ghost groups = groups_from(terms@, 0);
    let ghost last_labels = Seq::new(groups.len(), |g: int| groups[g].last().label_bytes@);
    let mut start: usize = 0;
    assert(groups.skip(0) =~= groups);
    while start < size
        invariant
            start <= size,
            size == terms@.len(),
            groups == groups_from(terms@, 0),
            data@.len() == labels@.len(),
            data@.len() <= groups.len(),
            groups.skip(data@.len() as int) == groups_from(terms@, start as int),
            forall|g: int|
                0 <= g < data@.len() ==> (#[trigger] data@[g])@ == data_record(
                    term_entries(groups[g]),
                ),
            forall|g: int|
                0 <= g < labels@.len() ==> (#[trigger] labels@[g])@ == groups[g].last().label_bytes@,
        decreases size - start,
    {
        let end: usize = if size - start > TERMS_PER_RECORD {
            start + TERMS_PER_RECORD
        } else {
            size
        };
        let ghost n = data@.len() as int;
        proof {
            assert(end == group_end(terms@, start as int));
            let rest = groups_from(terms@, start as int);
            assert(rest[0] == terms@.subrange(start as int, end as int));
            assert(groups.skip(n).len() == groups.len() - n);
            assert(groups.skip(n)[0] == groups[n]);
            assert(groups.skip(n + 1) =~= rest.skip(1));
            assert(rest.skip(1) =~= groups_from(terms@, end as int));
        }
        data.push(build_group(terms, start, end));
        let mut label: Vec<u8> = Vec::new();
        push_all(&mut label, &terms[end - 1].label_bytes);
        assert(label@ =~= groups[n].last().label_bytes@);
        labels.push(label);
        start = end;
    }
    assert(groups.skip(data@.len() as int).len() == 0);
    let tags: [TagDef; 2] = [
        TagDef { tag_id: 1, num_values: 1, mask: 1 },
        TagDef { tag_id: 2, num_values: 1, mask: 1 },
    ];
    assert(tags@ =~= lookup_tags());
    let table = build_tagx(&tags);
    assert(contents(labels@) =~= last_labels);
    let primary = build_kf8_indx_primary(&table, data.len(), size, &labels);
    let mut r: Vec<Vec<u8>> = Vec::new();
    r.push(primary);
    r.append(&mut data);
    assert(contents(r@) =~= lookup_index(terms@));
    r
}

proof fn short_digits(v: nat)
    requires
        v <= u32::MAX,
    ensures
        digits(v).len() <= 5,
{
    reveal_with_fuel(digits, 6);
}

proof fn term_entry_is_short(t: LookupTerm)
    ensures
        term_entry(t).len() <= 43,
{
    let values = seq![(1u8, low32(t.start_pos as int)), (2u8, low32(t.text_len as int))];
    short_digits(values[0].1 as nat);
    short_digits(values[1].1 as nat);
    reveal_with_fuel(value_bytes, 3);
    assert(values.drop_last().last() == values[0]);
    assert(inverted(values[0].1 as nat).len() <= 5);
    assert(inverted(values[1].1 as nat).len() <= 5);
    assert(value_bytes(values.drop_last().drop_last()).len() == 0);
}

proof fn entries_are_short(terms: Seq<LookupTerm>)
    ensures
        flat(term_entries(terms)).len() <= 43 * terms.len(),
    decreases terms.len(),
{
    if terms.len() > 0 {
        entries_are_short(terms.drop_last());
        term_entry_is_short(terms.last());
        assert(term_entries(terms).drop_last() =~= term_entries(terms.drop_last()));
    }
}

/// The offsets within each data record of a lookup index have 16 bits, however many terms there are.
pub proof fn lookup_offsets_are_short(terms: Seq<LookupTerm>, start: int, g: int)
    requires
        0 <= start,
        0 <= g < groups_from(terms, start).len(),
    ensures
        192 + flat(term_entries(groups_from(terms, start)[g])).len() <= u16::MAX,
    decreases terms.len() - start,
{
    let end = group_end(terms, start);
    if g == 0 {
        entries_are_short(terms.subrange(start, end));
    } else {
        lookup_offsets_are_short(terms, end, g - 1);
    }
}

proof fn groups_flatten(terms: Seq<LookupTerm>, start: int, i: int)
    requires
        0 <= start <= i < terms.len(),
    ensures
        ({
            let groups = groups_from(terms, start);
            let g = (i - start) / TERMS_PER_RECORD as int;
            let k = (i - start) % TERMS_PER_RECORD as int;
            &&& 0 <= g < groups.len()
            &&& 0 <= k < groups[g].len()
            &&& groups[g][k] == terms[i]
        }),
    decreases terms.len() - start,
{
    let end = group_end(terms, start);
    if i >= end {
        groups_flatten(terms, end, i);
    }
}

/// Every term stands in the index once: the one at `i` in the data record that its number tells.
pub proof fn lookup_index_holds_all_terms(terms: Seq<LookupTerm>, i: int)
    requires
        0 <= i < terms.len(),
    ensures
        ({
            let groups = groups_from(terms, 0);
            let g = i / TERMS_PER_RECORD as int;
            let k = i % TERMS_PER_RECORD as int;
            &&& 0 <= g < groups.len()
            &&& 0 <= k < groups[g].len()
            &&& groups[g][k] == terms[i]
            &&& lookup_index(terms)[1 + g] == data_record(term_entries(groups[g]))
            &&& term_entries(groups[g])[k] == term_entry(terms[i])
        }),
{
    groups_flatten(terms, 0, i);
}

fn encoded_labels(table: &LookupTable) -> (r: Vec<Vec<u8>>)
    requires
        table.wf(),
    ensures
        r@.len() == table@.len(),
        forall|i: int| 0 <= i < r@.len() ==> (#[trigger] r@[i])@ == utf8(table@[i].label),
{
    let mut r: Vec<Vec<u8>> = Vec::new();
    let mut i: usize = 0;
    while i < table.targets.len()
        invariant
            table.wf(),
            i <= table.targets@.len(),
            r@.len() == i,
            forall|k: int| 0 <= k < i ==> (#[trigger] r@[k])@ == utf8(table@[k].label),
        decreases table.targets.len() - i,
    {
        let mut label: Vec<u8> = Vec::new();
        push_all(&mut label, table.labels.get(i).as_bytes());
        assert(label@ =~= utf8(table@[i as int].label));
        r.push(label);
        i += 1;
    }
    r
}

/// How to build a dictionary.
#[derive(Debug, Clone, Copy)]
pub struct DictionaryOptions {
    /// Only headwords can be looked up, no inflected forms.
    pub headwords_only: bool,
    pub no_compress: bool,
    pub include_cmet: bool,
    pub creator_tag: bool,
}

/// The lookup terms of a dictionary in the order of their labels in UTF-8.
pub open spec fn are_lookup_terms(
    terms: Seq<LookupTerm>,
    entries: Seq<DictionaryEntry>,
    positions: Seq<(usize, usize)>,
    text: Seq<u8>,
    headwords_only: bool,
) -> bool {
    let all = lookup_terms(entries, positions, text, headwords_only);
    exists|encoded: Seq<Vec<u8>>, order: Seq<usize>|
        {
            &&& encoded.len() == all.len()
            &&& forall|i: int| 0 <= i < all.len() ==> (#[trigger] encoded[i])@ == utf8(all[i].label)
            &&& #[trigger] in_label_order(terms, all, encoded, order)
        }
}

/// A reader of a data record finds this entry under the number `k`: the header leads to the offset
/// table, and that to the entry.
pub open spec fn reader_finds(record: Seq<u8>, k: int, entry: Seq<u8>) -> bool {
    let table = read_be32(record, 20);
    let at = read_be16(record, table + 4 + k * 2);
    &&& record.subrange(table, table + 4) == utf8("IDXT"@)
    &&& at + entry.len() <= table
    &&& record.subrange(at, at + entry.len()) == entry
}

/// Looking up any form finds it in the index: each form that an entry has been given stands in one
/// of the data records, with the place and the length of the entry's text.
pub proof fn every_form_is_in_the_index(
    terms: Seq<LookupTerm>,
    entries: Seq<DictionaryEntry>,
    positions: Seq<(usize, usize)>,
    text: Seq<u8>,
    headwords_only: bool,
    i: int,
)
    requires
        are_lookup_terms(terms, entries, positions, text, headwords_only),
        terms.len() <= usize::MAX,
        0 <= i < lookup_terms(entries, positions, text, headwords_only).len(),
    ensures
        ({
            let t = lookup_terms(entries, positions, text, headwords_only)[i];
            exists|g: int, k: int|
                1 <= g < lookup_index(terms).len() && k >= 0 && #[trigger] reader_finds(
                    lookup_index(terms)[g],
                    k,
                    form_entry(t),
                )
        }),
{
    let all = lookup_terms(entries, positions, text, headwords_only);
    let (encoded, order) = choose|encoded: Seq<Vec<u8>>, order: Seq<usize>|
        {
            &&& encoded.len() == all.len()
            &&& forall|i: int| 0 <= i < all.len() ==> (#[trigger] encoded[i])@ == utf8(all[i].label)
            &&& #[trigger] in_label_order(terms, all, encoded, order)
        };
    assert(order.contains(i as usize));
    let j = choose|j: int| 0 <= j < order.len() && order[j] == i as usize;
    assert(terms[j]@ == all[i]);
    assert(terms[j].label_bytes@ == encoded[i]@);
    lookup_index_holds_all_terms(terms, j);
    let groups = groups_from(terms, 0);
    let g = j / TERMS_PER_RECORD as int;
    let k = j % TERMS_PER_RECORD as int;
    lookup_offsets_are_short(terms, 0, g);
    index_offsets_lead_to_entries(term_entries(groups[g]), k);
    assert(term_entry(terms[j]) == form_entry(all[i]));
    assert(reader_finds(lookup_index(terms)[1 + g], k, form_entry(all[i])));
}

/// The label of an index entry, as its first byte counts it.
pub open spec fn label_of(entry: Seq<u8>) -> Seq<u8> {
    entry.subrange(1, 1 + entry[0])
}

/// Looking up a form of fewer than 31 bytes finds one index entry alone: no other form has its label.
/// So does one of 31 bytes but for longer forms that begin with it.
pub proof fn short_forms_have_labels_of_their_own(
    entries: Seq<DictionaryEntry>,
    positions: Seq<(usize, usize)>,
    text: Seq<u8>,
    headwords_only: bool,
    i: int,
    j: int,
)
    requires
        ({
            let all = lookup_terms(entries, positions, text, headwords_only);
            let a = utf8(all[i].label);
            let b = utf8(all[j].label);
            &&& 0 <= i < all.len()
            &&& 0 <= j < all.len()
            &&& i != j
            &&& a.len() < 31 || (a.len() == 31 && b.len() <= 31)
        }),
    ensures
        ({
            let all = lookup_terms(entries, positions, text, headwords_only);
            label_of(form_entry(all[i])) == utf8(all[i].label) && label_of(form_entry(all[j]))
                != utf8(all[i].label)
        }),
{
    let all = lookup_terms(entries, positions, text, headwords_only);
    let a = utf8(all[i].label);
    let b = utf8(all[j].label);
    lookup_finds_entries(entries, positions, text, headwords_only);
    assert(labels(all)[i] != labels(all)[j]);
    if a == b {
        utf8_is_injective(all[i].label, all[j].label);
    }
    assert(label_of(form_entry(all[i])) =~= short_label(a));
    assert(label_of(form_entry(all[j])) =~= short_label(b));
}

/// A dictionary built from its documents: its text is theirs, its entries are those that they mark,
/// and its index leads from the forms of each entry to where that stands.
pub open spec fn is_dictionary(
    file: Seq<u8>,
    meta: Metadata,
    documents: Seq<Seq<char>>,
    options: DictionaryOptions,
    srcs: Option<Seq<u8>>,
    now: u32,
) -> bool {
    let text = dictionary_text(documents);
    exists|
        entries: Seq<DictionaryEntry>,
        positions: Seq<(usize, usize)>,
        terms: Seq<LookupTerm>,
    |
        {
            &&& entry_texts(entries) == all_entries(documents)
            &&& positions.len() == entries.len()
            &&& forall|i: int|
                0 <= i < entries.len() ==> position_of(#[trigger] positions[i]) == entry_position(
                    text,
                    words(entries),
                    i,
                )
            &&& #[trigger] are_lookup_terms(terms, entries, positions, text, options.headwords_only)
            &&& file == palmdb(
                full_name(meta.title@, true),
                dictionary_file(
                    meta,
                    headword_set(entries),
                    text,
                    lookup_index(terms),
                    options.no_compress,
                    srcs,
                    options.include_cmet,
                    options.creator_tag,
                ),
                now,
            )
        }
}

/// Builds a dictionary from its documents. Documents that mark no entry are an error.
pub fn build_dictionary(
    meta: &Metadata,
    documents: &[String],
    options: DictionaryOptions,
    srcs_data: Option<&[u8]>,
    now: u32,
) -> (r: Result<Vec<u8>, BuildError>)
    ensures
        match r {
            Ok(file) => all_entries(texts(documents@)).len() > 0 && is_dictionary(
                file@,
                *meta,
                texts(documents@),
                options,
                opt_bytes(srcs_data),
                now,
            ),
            Err(e) => all_entries(texts(documents@)).len() == 0 && e == BuildError::NoEntries,
        },
{
    let entries = read_entries(documents);
    assert(entry_texts(entries@).len() == entries@.len());
    let prepared = match prepare_dictionary(documents, &entries, options.headwords_only) {
        Ok(prepared) => prepared,
        Err(e) => return Err(e),
    };
    let encoded = encoded_labels(&prepared.terms);
    let terms = sort_lookup_terms(&prepared.terms, &encoded);
    let index = build_orth_indx(&terms);
    proof {
        let order = choose|order: Seq<usize>|
            in_label_order(terms@, prepared.terms@, encoded@, order);
        assert(in_label_order(terms@, prepared.terms@, encoded@, order));
        assert(are_lookup_terms(
            terms@,
            entries@,
            prepared.positions@,
            prepared.text@,
            options.headwords_only,
        ));
    }
    Ok(
        build_dictionary_mobi(
            meta,
            &entries,
            &prepared.text,
            index,
            options.no_compress,
            srcs_data,
            options.include_cmet,
            options.creator_tag,
            now,
        ),
    )
}

/// The place and the length of an entry of `p` as a reader of the index finds them under a label.
pub open spec fn index_says(index: Seq<Seq<u8>>, label: Seq<u8>, p: (int, int)) -> bool {
    exists|g: int, k: int, entry: Seq<u8>|
        {
            &&& 1 <= g < index.len()
            &&& 0 <= k
            &&& #[trigger] reader_finds(index[g], k, entry)
            &&& reads_as_pair(entry, label, 1, p.0, p.1)
        }
}

/// Looking up a headword or an inflected form without brackets opens its entry: the index has the form,
/// and under it the place and the length of the block of an entry that has it as headword or, where it
/// is no headword, of the first entry that has it as inflected form. That holds of forms of up to 31
/// bytes; of a longer one the first 31 are the label.
pub proof fn looking_up_a_form_opens_its_entry(
    terms: Seq<LookupTerm>,
    entries: Seq<DictionaryEntry>,
    positions: Seq<(usize, usize)>,
    text: Seq<u8>,
    n: int,
    form: Seq<char>,
) -> (e: int)
    requires
        are_lookup_terms(terms, entries, positions, text, false),
        terms.len() <= usize::MAX,
        text.len() <= u32::MAX,
        positions.len() == entries.len(),
        forall|i: int|
            0 <= i < entries.len() ==> position_of(#[trigger] positions[i]) == entry_position(
                text,
                words(entries),
                i,
            ),
        0 <= n < entries.len(),
        is_form_of(entries[n], form),
        forall|c: int| 0 <= c < form.len() ==> !"()[]{}"@.contains(#[trigger] form[c]),
    ensures
        0 <= e < entries.len(),
        is_form_of(entries[e], form),
        is_headword(entries, entries.len() as int, form) ==> entries[e].headword@ == form,
        !is_headword(entries, entries.len() as int, form) ==> e <= n,
        index_says(
            lookup_index(terms),
            if utf8(form).len() > 31 {
                utf8(form).take(31)
            } else {
                utf8(form)
            },
            entry_position(text, words(entries), e),
        ),
{
    forms_without_brackets_are_found(entries, positions, text, n, form);
    let all = lookup_terms(entries, positions, text, false);
    let i = choose|i: int| 0 <= i < all.len() && #[trigger] all[i].label == form;
    let t = all[i];
    forms_lead_to_one_entry(entries, positions, text, false, i);
    lookup_finds_entries(entries, positions, text, false);
    every_form_is_in_the_index(terms, entries, positions, text, false, i);
    let e = t.ordinal;
    assert(leads_home(t, entries, positions));
    assert(position_of(positions[e]) == entry_position(text, words(entries), e));
    entry_blocks_lie_in_text(text, words(entries), e);
    low32_of_small(t.start);
    low32_of_small(t.length);
    pair_entries_read_back(utf8(form), low32(t.start), low32(t.length));
    let (g, k) = choose|g: int, k: int|
        1 <= g < lookup_index(terms).len() && k >= 0 && #[trigger] reader_finds(
            lookup_index(terms)[g],
            k,
            form_entry(t),
        );
    assert(reader_finds(lookup_index(terms)[g], k, form_entry(t)));
    if !is_headword(entries, entries.len() as int, form) && e > n {
        let w = choose|w: int|
            0 <= w < entries[n].inflections@.len() && (#[trigger] entries[n].inflections@[w])@
                == form;
        if entries[n].headword@ == form {
            assert(is_headword(entries, entries.len() as int, form));
        }
        assert(is_inflected(entries[n], entries[n].inflections@.len() as int, form));
    }
    e
}

/// Every headword can be looked up, also one with brackets and also where headwords alone can: the
/// index has it, with the place and the length of the block of the last entry with this headword.
pub proof fn looking_up_a_headword_opens_its_entry(
    terms: Seq<LookupTerm>,
    entries: Seq<DictionaryEntry>,
    positions: Seq<(usize, usize)>,
    text: Seq<u8>,
    headwords_only: bool,
    n: int,
)
    requires
        are_lookup_terms(terms, entries, positions, text, headwords_only),
        terms.len() <= usize::MAX,
        text.len() <= u32::MAX,
        positions.len() == entries.len(),
        forall|i: int|
            0 <= i < entries.len() ==> position_of(#[trigger] positions[i]) == entry_position(
                text,
                words(entries),
                i,
            ),
        0 <= n < entries.len(),
        forall|i: int|
            n < i < entries.len() ==> (#[trigger] entries[i]).headword@ != entries[n].headword@,
    ensures
        ({
            let label = utf8(entries[n].headword@);
            index_says(
                lookup_index(terms),
                if label.len() > 31 {
                    label.take(31)
                } else {
                    label
                },
                entry_position(text, words(entries), n),
            )
        }),
{
    let form = entries[n].headword@;
    let all = lookup_terms(entries, positions, text, headwords_only);
    lookup_finds_entries(entries, positions, text, headwords_only);
    assert(is_found(all, entries[n].headword@));
    let i = choose|i: int| 0 <= i < all.len() && #[trigger] all[i].label == form;
    let t = all[i];
    forms_lead_to_one_entry(entries, positions, text, headwords_only, i);
    every_form_is_in_the_index(terms, entries, positions, text, headwords_only, i);
    assert(is_headword(entries, entries.len() as int, form));
    let e = t.ordinal;
    assert(e == n) by {
        if n < e {
            assert(entries[e].headword@ != form);
        }
        if e < n {
            assert(entries[n].headword@ != t.label);
        }
    }
    assert(leads_home(t, entries, positions));
    assert(position_of(positions[e]) == entry_position(text, words(entries), e));
    entry_blocks_lie_in_text(text, words(entries), e);
    low32_of_small(t.start);
    low32_of_small(t.length);
    pair_entries_read_back(utf8(form), low32(t.start), low32(t.length));
    let (g, k) = choose|g: int, k: int|
        1 <= g < lookup_index(terms).len() && k >= 0 && #[trigger] reader_finds(
            lookup_index(terms)[g],
            k,
            form_entry(t),
        );
    assert(reader_finds(lookup_index(terms)[g], k, form_entry(t)));
}

/// The labels of a lookup index ascend by their bytes, so that a reader can search among them.
pub proof fn labels_ascend(
    terms: Seq<LookupTerm>,
    entries: Seq<DictionaryEntry>,
    positions: Seq<(usize, usize)>,
    text: Seq<u8>,
    headwords_only: bool,
    i: int,
    j: int,
)
    requires
        are_lookup_terms(terms, entries, positions, text, headwords_only),
        0 <= i < j < terms.len(),
    ensures
        ({
            let a = terms[i].label_bytes@;
            let b = terms[j].label_bytes@;
            &&& a == utf8(terms[i]@.label)
            &&& exists|k: int|
                {
                    &&& 0 <= k <= a.len()
                    &&& k <= b.len()
                    &&& #[trigger] a.take(k) == b.take(k)
                    &&& k == a.len() || (k < b.len() && a[k] < b[k])
                }
        }),
{
    let all = lookup_terms(entries, positions, text, headwords_only);
    let (encoded, order) = choose|encoded: Seq<Vec<u8>>, order: Seq<usize>|
        {
            &&& encoded.len() == all.len()
            &&& forall|i: int| 0 <= i < all.len() ==> (#[trigger] encoded[i])@ == utf8(all[i].label)
            &&& #[trigger] in_label_order(terms, all, encoded, order)
        };
    let a = terms[i].label_bytes@;
    let b = terms[j].label_bytes@;
    let keys = all_ranks(encoded);
    let x = order[i] as int;
    let y = order[j] as int;
    assert(precedes(keys, x, y));
    assert(keys[x] == ranks(a) && keys[y] == ranks(b));
    if ranks(a) == ranks(b) {
        assert(a.len() == ranks(a).len() && b.len() == ranks(b).len());
        assert forall|m: int| 0 <= m < a.len() implies a[m] == b[m] by {
            assert(ranks(a)[m] == ranks(b)[m]);
        }
        assert(a =~= b);
        assert(a.take(a.len() as int) == b.take(a.len() as int));
    } else {
        keys_are_ordered_by_their_first_difference(ranks(a), ranks(b));
        let k = choose|k: int| parts_at(ranks(a), ranks(b), k);
        assert forall|m: int| 0 <= m < k implies a[m] == b[m] by {
            assert(ranks(a)[m] == ranks(b)[m]);
        }
        assert(a.take(k) =~= b.take(k));
    }
}

/// The data records of a lookup index hold all terms in their order, at most two hundred each.
pub proof fn groups_hold_all_terms_in_order(terms: Seq<LookupTerm>, start: int)
    requires
        0 <= start,
    ensures
        groups_from(terms, start).flatten() == if start < terms.len() {
            terms.skip(start)
        } else {
            seq![]
        },
        forall|g: int|
            0 <= g < groups_from(terms, start).len() ==> 0 < (#[trigger] groups_from(
                terms,
                start,
            )[g]).len() <= 200,
    decreases terms.len() - start,
{
    if start < terms.len() {
        let end = group_end(terms, start);
        groups_hold_all_terms_in_order(terms, end);
        let groups = groups_from(terms, start);
        let rest = groups_from(terms, end);
        assert(groups.drop_first() =~= rest);
        assert(groups.first() == terms.subrange(start, end));
        assert(groups.flatten() =~= terms.skip(start));
        assert forall|g: int| 0 <= g < groups.len() implies 0 < (#[trigger] groups[g]).len()
            <= 200 by {
            if g > 0 {
                assert(groups[g] == rest[g - 1]);
            }
        }
    } else {
        assert(groups_from(terms, start) =~= seq![]);
    }
}

/// The primary record of a lookup index says how many data records there are, how many forms they have in
/// all, and the last label of each; a position and a length are what an entry has.
pub proof fn lookup_indexes_route_to_their_records(terms: Seq<LookupTerm>, g: int)
    requires
        0 <= g < groups_from(terms, 0).len(),
        terms.len() <= u32::MAX,
        ({
            let groups = groups_from(terms, 0);
            let labels = Seq::new(groups.len(), |k: int| groups[k].last().label_bytes@);
            216 + flat(routing_entries(labels)).len() <= u16::MAX
        }),
    ensures
        ({
            let record = lookup_index(terms)[0];
            let groups = groups_from(terms, 0);
            &&& lookup_index(terms).len() == 1 + groups.len()
            &&& read_be32(record, 24) == groups.len()
            &&& read_be32(record, 36) == terms.len()
            &&& label_at(
                record,
                read_be16(record, read_be32(record, 20) + 4 + g * 2),
                groups[g].last().label_bytes@,
            )
        }),
{
    let groups = groups_from(terms, 0);
    let labels = Seq::new(groups.len(), |k: int| groups[k].last().label_bytes@);
    let table = tagx(lookup_tags());
    groups_are_few(terms, 0);
    tag_tables_read_back(lookup_tags(), 0);
    primary_records_read_back(table, groups.len() as int, terms.len() as int, labels);
    assert(labels[g] == groups[g].last().label_bytes@);
}

proof fn groups_are_few(terms: Seq<LookupTerm>, start: int)
    requires
        0 <= start <= terms.len(),
    ensures
        groups_from(terms, start).len() <= terms.len() - start,
    decreases terms.len() - start,
{
    if start < terms.len() {
        groups_are_few(terms, group_end(terms, start));
    }
}

} // verus!
