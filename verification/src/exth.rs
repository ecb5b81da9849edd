//! EXTH metadata blocks.
//!
//! An EXTH block is a header followed by records, each a type, a length and
//! data. Records hold the author, the languages, the document type and, for
//! dictionaries, the font signature that lists which characters headwords use.
use std::collections::HashSet;
use vstd::prelude::*;

use crate::bytes::{
    be16, be32, be32_reads_back, le32, length32_plus, low32, low32_of_small, low32_of_sum, push_all, push_be16, push_be32, push_le32,
    push_zeros, read_be32, zeros,
};
use crate::md5::{md5, md5_hash};
use crate::text::{decimal, opt_string, opt_text, push_decimal, same_text, utf8};

verus! {

/// One EXTH record.
pub struct Record {
    pub kind: u32,
    pub data: Seq<u8>,
}

/// A record as bytes: its type, its whole length, its data.
pub open spec fn record_bytes(r: Record) -> Seq<u8> {
    be32(r.kind) + be32(low32(8int + r.data.len())) + r.data
}

/// Records one after the other.
pub open spec fn records_bytes(list: Seq<Record>) -> Seq<u8>
    decreases list.len(),
{
    if list.len() == 0 {
        seq![]
    } else {
        records_bytes(list.drop_last()) + record_bytes(list.last())
    }
}

/// How many zero bytes align a length to four.
pub open spec fn padding(n: int) -> int {
    (4 - n % 4) % 4
}

/// The EXTH block that holds `list`.
#[verifier::opaque]
pub open spec fn exth_block(list: Seq<Record>) -> Seq<u8> {
    let body = records_bytes(list);
    let fill = padding(12int + body.len());
    utf8("EXTH"@) + be32(low32(12 + body.len() + fill)) + be32(low32(list.len() as int)) + body
        + zeros(fill as nat)
}

/// The `n` records that stand in `s` from `at` on.
pub open spec fn records_at(s: Seq<u8>, at: int, n: nat) -> Seq<Record>
    decreases n,
{
    if n == 0 {
        seq![]
    } else {
        let size = read_be32(s, at + 4);
        seq![Record { kind: read_be32(s, at) as u32, data: s.subrange(at + 8, at + size) }]
            + records_at(s, at + size, (n - 1) as nat)
    }
}

/// Build a single EXTH record: type, length and data.
pub fn exth_record(rec_type: u32, data: &[u8]) -> (rec: Vec<u8>)
    ensures
        rec@ == record_bytes(Record { kind: rec_type, data: data@ }),
{
    let mut rec: Vec<u8> = Vec::new();
    push_be32(&mut rec, rec_type);
    push_be32(&mut rec, length32_plus(data.len(), 8));
    push_all(&mut rec, data);
    rec
}

/// The records of a block as they are gathered.
struct Block {
    body: Vec<u8>,
    count: u32,
    list: Ghost<Seq<Record>>,
}

impl Block {
    spec fn wf(self) -> bool {
        &&& self.body@ == records_bytes(self.list@)
        &&& self.count == low32(self.list@.len() as int)
    }

    fn new() -> (r: Self)
        ensures
            r.wf(),
            r.list@ == Seq::<Record>::empty(),
    {
        proof {
            low32_of_small(0);
        }
        Block { body: Vec::new(), count: 0, list: Ghost(Seq::empty()) }
    }

    fn add(&mut self, kind: u32, data: &[u8])
        requires
            old(self).wf(),
        ensures
            final(self).wf(),
            final(self).list@ == old(self).list@ + record(kind, data@),
    {
        let rec = exth_record(kind, data);
        push_all(&mut self.body, &rec);
        self.count = self.count.wrapping_add(1);
        proof {
            low32_of_sum(self.list@.len() as int, 1);
            let r = Record { kind, data: data@ };
            self.list@ = self.list@.push(r);
            assert(self.list@.drop_last() =~= old(self).list@);
            assert(self.list@ =~= old(self).list@ + record(kind, data@));
        }
    }

    fn add_number(&mut self, kind: u32, value: u32)
        requires
            old(self).wf(),
        ensures
            final(self).wf(),
            final(self).list@ == old(self).list@ + record(kind, be32(value)),
    {
        let mut data: Vec<u8> = Vec::new();
        push_be32(&mut data, value);
        assert(data@ =~= be32(value));
        self.add(kind, &data);
    }

    fn add_text(&mut self, kind: u32, text: &str)
        requires
            old(self).wf(),
        ensures
            final(self).wf(),
            final(self).list@ == old(self).list@ + text_record(kind, text@),
    {
        if !text.is_empty() {
            self.add(kind, text.as_bytes());
        } else {
            assert(self.list@ =~= self.list@ + text_record(kind, text@));
        }
    }

    fn add_optional(&mut self, kind: u32, text: Option<&str>)
        requires
            old(self).wf(),
        ensures
            final(self).wf(),
            final(self).list@ == old(self).list@ + optional_record(kind, opt_text(text)),
    {
        match text {
            Some(t) => self.add_text(kind, t),
            None => {
                assert(self.list@ =~= self.list@ + optional_record(kind, opt_text(text)));
            },
        }
    }

    fn add_creator(&mut self, creator_tag: bool)
        requires
            old(self).wf(),
        ensures
            final(self).wf(),
            final(self).list@ == old(self).list@ + creator_records(creator_tag),
    {
        if creator_tag {
            self.add_number(204, 300);
            self.add_number(205, 0);
            self.add_number(206, 2);
            self.add(535, "kindling-0.2.0".as_bytes());
        } else {
            self.add_number(204, 201);
            self.add_number(205, 2);
            self.add_number(206, 9);
            self.add(535, "0730-890adc2".as_bytes());
        }
        assert(self.list@ =~= old(self).list@ + creator_records(creator_tag));
    }

    /// The finished block.
    fn finish(self) -> (exth: Vec<u8>)
        requires
            self.wf(),
        ensures
            exth@ == exth_block(self.list@),
    {
        proof {
            reveal(exth_block);
        }
        let fill: usize = (4 - self.body.len() % 4) % 4;
        let length: u32 = length32_plus(self.body.len(), 12 + fill as u32);
        assert(fill == padding(12int + self.body@.len()));
        let mut exth: Vec<u8> = Vec::new();
        push_all(&mut exth, "EXTH".as_bytes());
        push_be32(&mut exth, length);
        push_be32(&mut exth, self.count);
        push_all(&mut exth, &self.body);
        push_zeros(&mut exth, fill);
        exth
    }
}

/// One record, as a list.
pub open spec fn record(kind: u32, data: Seq<u8>) -> Seq<Record> {
    seq![Record { kind, data }]
}

/// The record of a text; an empty text has none.
pub open spec fn text_record(kind: u32, text: Seq<char>) -> Seq<Record> {
    if text.len() > 0 {
        record(kind, utf8(text))
    } else {
        seq![]
    }
}

/// The record of a text that may be missing.
pub open spec fn optional_record(kind: u32, text: Option<Seq<char>>) -> Seq<Record> {
    match text {
        Some(t) => text_record(kind, t),
        None => seq![],
    }
}

/// The records that tell which software made the file: this one if `tagged`, else
/// the platform and version numbers of kindlegen.
pub open spec fn creator_records(tagged: bool) -> Seq<Record> {
    if tagged {
        record(204, be32(300)) + record(205, be32(0)) + record(206, be32(2)) + record(
            535,
            utf8("kindling-0.2.0"@),
        )
    } else {
        record(204, be32(201)) + record(205, be32(2)) + record(206, be32(9)) + record(
            535,
            utf8("0730-890adc2"@),
        )
    }
}

/// A range of characters and the bit that stands for it in the Unicode subset
/// bitfield of a font: which of the four words, and which bit of it.
#[derive(Clone, Copy)]
pub struct UsbRange {
    pub first: u32,
    pub last: u32,
    pub word: usize,
    pub bit: u32,
}

/// The ranges of the OS/2 table that a font signature tells of.
pub open spec fn usb_ranges() -> Seq<UsbRange> {
    seq![
        UsbRange { first: 0x0020, last: 0x007F, word: 0, bit: 0 },  // Basic Latin
        UsbRange { first: 0x0080, last: 0x00FF, word: 0, bit: 1 },  // Latin-1 Supplement
        UsbRange { first: 0x0100, last: 0x024F, word: 0, bit: 2 },  // Latin Extended-A
        UsbRange { first: 0x0250, last: 0x02AF, word: 0, bit: 3 },  // Latin Extended-B
        UsbRange { first: 0x02B0, last: 0x02FF, word: 0, bit: 5 },  // Spacing Modifier Letters
        UsbRange { first: 0x0300, last: 0x036F, word: 0, bit: 6 },  // Combining Diacritical Marks
        UsbRange { first: 0x0370, last: 0x03FF, word: 0, bit: 7 },  // Greek and Coptic
        UsbRange { first: 0x0400, last: 0x04FF, word: 0, bit: 9 },  // Cyrillic
        UsbRange { first: 0x0530, last: 0x058F, word: 0, bit: 10 },  // Armenian
        UsbRange { first: 0x0590, last: 0x05FF, word: 0, bit: 11 },  // Hebrew
        UsbRange { first: 0x0600, last: 0x06FF, word: 0, bit: 13 },  // Arabic
        UsbRange { first: 0x0E00, last: 0x0E7F, word: 0, bit: 24 },  // Thai
        UsbRange { first: 0x10A0, last: 0x10FF, word: 0, bit: 26 },  // Georgian
        UsbRange { first: 0x1100, last: 0x11FF, word: 0, bit: 28 },  // Hangul Jamo
        UsbRange { first: 0x1E00, last: 0x1EFF, word: 0, bit: 29 },  // Latin Extended Additional
        UsbRange { first: 0x1F00, last: 0x1FFF, word: 0, bit: 30 },  // Greek Extended
        UsbRange { first: 0x2000, last: 0x206F, word: 0, bit: 31 },  // General Punctuation
        UsbRange { first: 0x2070, last: 0x209F, word: 1, bit: 0 },  // Superscripts and Subscripts
        UsbRange { first: 0x20A0, last: 0x20CF, word: 1, bit: 1 },  // Currency Symbols
        UsbRange { first: 0x2100, last: 0x214F, word: 1, bit: 3 },  // Letterlike Symbols
        UsbRange { first: 0x2150, last: 0x218F, word: 1, bit: 4 },  // Number Forms
        UsbRange { first: 0x2190, last: 0x21FF, word: 1, bit: 5 },  // Arrows
        UsbRange { first: 0x2200, last: 0x22FF, word: 1, bit: 6 },  // Mathematical Operators
        UsbRange { first: 0x3000, last: 0x303F, word: 1, bit: 20 },  // CJK Symbols and Punctuation
        UsbRange { first: 0x3040, last: 0x309F, word: 1, bit: 21 },  // Hiragana
        UsbRange { first: 0x30A0, last: 0x30FF, word: 1, bit: 22 },  // Katakana
        UsbRange { first: 0x3100, last: 0x312F, word: 1, bit: 23 },  // Bopomofo
        UsbRange { first: 0x3130, last: 0x318F, word: 1, bit: 24 },  // Hangul Compatibility Jamo
        UsbRange { first: 0x4E00, last: 0x9FFF, word: 1, bit: 27 },  // CJK Unified Ideographs
        UsbRange { first: 0xAC00, last: 0xD7AF, word: 1, bit: 28 },  // Hangul Syllables
        UsbRange { first: 0xFB00, last: 0xFB06, word: 1, bit: 30 },  // Alphabetic Presentation Forms (Latin)
        UsbRange { first: 0xFB50, last: 0xFDFF, word: 1, bit: 31 },  // Arabic Presentation Forms-A
        UsbRange { first: 0xFE70, last: 0xFEFF, word: 2, bit: 0 },  // Arabic Presentation Forms-B
    ]
}

fn usb_range_table() -> (r: [UsbRange; 33])
    ensures
        r@ == usb_ranges(),
        forall|i: int| 0 <= i < 33 ==> #[trigger] r@[i].word < 4 && r@[i].bit < 32,
{
    let r: [UsbRange; 33] = [
        UsbRange { first: 0x0020, last: 0x007F, word: 0, bit: 0 },
        UsbRange { first: 0x0080, last: 0x00FF, word: 0, bit: 1 },
        UsbRange { first: 0x0100, last: 0x024F, word: 0, bit: 2 },
        UsbRange { first: 0x0250, last: 0x02AF, word: 0, bit: 3 },
        UsbRange { first: 0x02B0, last: 0x02FF, word: 0, bit: 5 },
        UsbRange { first: 0x0300, last: 0x036F, word: 0, bit: 6 },
        UsbRange { first: 0x0370, last: 0x03FF, word: 0, bit: 7 },
        UsbRange { first: 0x0400, last: 0x04FF, word: 0, bit: 9 },
        UsbRange { first: 0x0530, last: 0x058F, word: 0, bit: 10 },
        UsbRange { first: 0x0590, last: 0x05FF, word: 0, bit: 11 },
        UsbRange { first: 0x0600, last: 0x06FF, word: 0, bit: 13 },
        UsbRange { first: 0x0E00, last: 0x0E7F, word: 0, bit: 24 },
        UsbRange { first: 0x10A0, last: 0x10FF, word: 0, bit: 26 },
        UsbRange { first: 0x1100, last: 0x11FF, word: 0, bit: 28 },
        UsbRange { first: 0x1E00, last: 0x1EFF, word: 0, bit: 29 },
        UsbRange { first: 0x1F00, last: 0x1FFF, word: 0, bit: 30 },
        UsbRange { first: 0x2000, last: 0x206F, word: 0, bit: 31 },
        UsbRange { first: 0x2070, last: 0x209F, word: 1, bit: 0 },
        UsbRange { first: 0x20A0, last: 0x20CF, word: 1, bit: 1 },
        UsbRange { first: 0x2100, last: 0x214F, word: 1, bit: 3 },
        UsbRange { first: 0x2150, last: 0x218F, word: 1, bit: 4 },
        UsbRange { first: 0x2190, last: 0x21FF, word: 1, bit: 5 },
        UsbRange { first: 0x2200, last: 0x22FF, word: 1, bit: 6 },
        UsbRange { first: 0x3000, last: 0x303F, word: 1, bit: 20 },
        UsbRange { first: 0x3040, last: 0x309F, word: 1, bit: 21 },
        UsbRange { first: 0x30A0, last: 0x30FF, word: 1, bit: 22 },
        UsbRange { first: 0x3100, last: 0x312F, word: 1, bit: 23 },
        UsbRange { first: 0x3130, last: 0x318F, word: 1, bit: 24 },
        UsbRange { first: 0x4E00, last: 0x9FFF, word: 1, bit: 27 },
        UsbRange { first: 0xAC00, last: 0xD7AF, word: 1, bit: 28 },
        UsbRange { first: 0xFB00, last: 0xFB06, word: 1, bit: 30 },
        UsbRange { first: 0xFB50, last: 0xFDFF, word: 1, bit: 31 },
        UsbRange { first: 0xFE70, last: 0xFEFF, word: 2, bit: 0 },
    ];
    assert(r@ =~= usb_ranges());
    r
}

/// Some character of `chars` lies in the range.
pub open spec fn hits(chars: Set<u32>, range: UsbRange) -> bool {
    exists|cp: u32| #[trigger] chars.contains(cp) && range.first <= cp <= range.last
}

/// Word `word` of the bitfield, by the first `n` ranges.
pub open spec fn usb_word(chars: Set<u32>, word: int, n: nat) -> u32
    decreases n,
{
    if n == 0 {
        0
    } else {
        let rest = usb_word(chars, word, (n - 1) as nat);
        let range = usb_ranges()[n - 1];
        if range.word == word && hits(chars, range) {
            rest | (1u32 << range.bit)
        } else {
            rest
        }
    }
}

/// The members of `chars` that are below `n`, ascending.
pub open spec fn members_below(chars: Set<u32>, n: nat) -> Seq<u32>
    decreases n,
{
    if n == 0 {
        seq![]
    } else {
        let rest = members_below(chars, (n - 1) as nat);
        if chars.contains((n - 1) as u32) {
            rest.push((n - 1) as u32)
        } else {
            rest
        }
    }
}

/// The members of `chars`, ascending.
pub open spec fn members(chars: Set<u32>) -> Seq<u32> {
    members_below(chars, 0x1_0000_0000)
}

/// `list` with `v` put behind the last entry that is not larger.
pub open spec fn inserted(list: Seq<u16>, v: u16) -> Seq<u16>
    decreases list.len(),
{
    if list.len() == 0 || list.last() <= v {
        list.push(v)
    } else {
        inserted(list.drop_last(), v).push(list.last())
    }
}

/// The characters beyond ASCII, each shifted up by 0x400 and cut to 16 bits, in
/// ascending order.
pub open spec fn shifted_codes(list: Seq<u32>) -> Seq<u16>
    decreases list.len(),
{
    if list.len() == 0 {
        seq![]
    } else {
        let rest = shifted_codes(list.drop_last());
        if list.last() > 0x7F {
            inserted(rest, ((list.last() + 0x400) % 0x1_0000) as u16)
        } else {
            rest
        }
    }
}

/// Codes as bytes, two each.
pub open spec fn code_bytes(list: Seq<u16>) -> Seq<u8>
    decreases list.len(),
{
    if list.len() == 0 {
        seq![]
    } else {
        code_bytes(list.drop_last()) + be16(list.last())
    }
}

/// A prefix byte together with the digest byte that ranks it.
pub open spec fn ranked(hash: Seq<u8>, b: u8) -> u16 {
    (hash[b as int % 16] * 0x100 + b) as u16
}

/// The four bytes in front of the codes, ordered by the digest byte that each
/// selects.
pub open spec fn prefix_bytes(hash: Seq<u8>) -> Seq<u8> {
    let order = inserted(
        inserted(
            inserted(inserted(seq![], ranked(hash, 0xBE)), ranked(hash, 0xEC)),
            ranked(hash, 0xED),
        ),
        ranked(hash, 0xF4),
    );
    Seq::new(order.len(), |i: int| (order[i] % 0x100) as u8)
}

/// The font signature for a set of headword characters: the Unicode subset
/// bitfield, the code page bitfield, padding, and the codes beyond ASCII.
pub open spec fn fontsignature(chars: Set<u32>) -> Seq<u8> {
    let usb0 = usb_word(chars, 0, 33);
    let codes = shifted_codes(members(chars));
    le32(usb0) + le32(usb_word(chars, 1, 33)) + le32(usb_word(chars, 2, 33)) + le32(
        usb_word(chars, 3, 33) | (1u32 << 31u32),
    ) + le32(
        if usb0 & (1u32 << 7u32) != 0 {
            0x2000
        } else {
            0
        },
    ) + le32(0) + zeros(8) + prefix_bytes(md5(code_bytes(codes))) + code_bytes(codes)
}

proof fn below_is_prefix(chars: Set<u32>, list: Seq<u32>, n: nat) -> (k: int)
    requires
        list.to_set() == chars,
        forall|i: int, j: int| 0 <= i < j < list.len() ==> list[i] < list[j],
        n <= 0x1_0000_0000,
    ensures
        0 <= k <= list.len(),
        members_below(chars, n) == list.take(k),
        forall|i: int| 0 <= i < k ==> list[i] < n,
        forall|i: int| k <= i < list.len() ==> list[i] >= n,
    decreases n,
{
    if n == 0 {
        assert(list.take(0) =~= seq![]);
        0
    } else {
        let k = below_is_prefix(chars, list, (n - 1) as nat);
        let v = (n - 1) as u32;
        if chars.contains(v) {
            assert(list.to_set().contains(v));
            let at = choose|i: int| 0 <= i < list.len() && list[i] == v;
            assert(list.contains(v));
            assert(at == k) by {
                if at > k {
                    assert(list[k] < list[at]);
                }
            }
            assert(list.take(k).push(v) =~= list.take(k + 1));
            k + 1
        } else {
            if k < list.len() {
                assert(list.contains(list[k]));
                assert(list.to_set().contains(list[k]));
            }
            k
        }
    }
}

spec fn ascending(list: Seq<u32>) -> bool {
    forall|i: int, j: int| 0 <= i < j < list.len() ==> list[i] < list[j]
}

/// Put `v` in its place.
fn insert_ascending(list: &mut Vec<u32>, v: u32)
    requires
        ascending(old(list)@),
        !old(list)@.contains(v),
    ensures
        ascending(final(list)@),
        final(list)@.to_set() == old(list)@.to_set().insert(v),
{
    let mut at: usize = list.len();
    while at > 0 && list[at - 1] > v
        invariant
            list@ == old(list)@,
            ascending(list@),
            at <= list@.len(),
            forall|i: int| at <= i < list@.len() ==> list@[i] > v,
        decreases at,
    {
        at -= 1;
    }
    let ghost before = list@;
    proof {
        assert forall|i: int| 0 <= i < at implies before[i] < v by {
            assert(before.contains(before[at - 1]));
            if i < at - 1 {
                assert(before[i] < before[at - 1]);
            }
        }
    }
    list.insert(at, v);
    proof {
        let after = list@;
        assert(after == before.insert(at as int, v));
        assert forall|i: int, j: int| 0 <= i < j < after.len() implies after[i] < after[j] by {
            let i0 = if i < at { i } else { i - 1 };
            let j0 = if j < at { j } else { j - 1 };
            if i != at && j != at {
                assert(before[i0] < before[j0]);
            }
        }
        assert forall|x: u32| after.to_set().contains(x) <==> before.to_set().insert(v).contains(x) by {
            if before.contains(x) {
                let i = choose|i: int| 0 <= i < before.len() && before[i] == x;
                let k = if i < at { i } else { i + 1 };
                assert(after[k] == x);
            }
            if after.contains(x) {
                let i = choose|i: int| 0 <= i < after.len() && after[i] == x;
                if i != at {
                    let k = if i < at { i } else { i - 1 };
                    assert(before[k] == x);
                }
            }
            assert(after[at as int] == v);
        }
        assert(after.to_set() =~= before.to_set().insert(v));
    }
}

/// The members of the set, in whatever order it yields them.
fn listed_members(chars: &HashSet<u32>) -> (r: Vec<u32>)
    ensures
        r@.no_duplicates(),
        r@.to_set() == chars@,
{
    broadcast use vstd::std_specs::hash::group_hash_axioms;

    let mut r: Vec<u32> = Vec::new();
    for cp in iter: chars.iter()
        invariant
            iter.seq().unref().to_set() == chars@,
            iter.seq().no_duplicates(),
            r@ == iter.seq().unref().take(iter.index()),
            iter.index() == iter.seq().len() ==> r@.no_duplicates() && r@.to_set() == chars@,
    {
        r.push(*cp);
        assert(r@ =~= iter.seq().unref().take(iter.index() + 1));
        assert(iter.index() + 1 == iter.seq().len() ==> r@ =~= iter.seq().unref());
        assert(iter.index() + 1 == iter.seq().len() ==> forall|i: int, j: int|
            0 <= i < j < r@.len() ==> iter.seq()[i] != iter.seq()[j] && r@[i] == iter.seq()[i]
                && r@[j] == iter.seq()[j]);
    }
    r
}

/// The members of the set, ascending.
fn sorted_members(chars: &HashSet<u32>) -> (r: Vec<u32>)
    ensures
        r@ == members(chars@),
        r@.to_set() == chars@,
{
    let listed = listed_members(chars);
    let mut r: Vec<u32> = Vec::new();
    let mut n: usize = 0;
    assert(r@.to_set() =~= listed@.take(0).to_set());
    while n < listed.len()
        invariant
            n <= listed@.len(),
            listed@.no_duplicates(),
            ascending(r@),
            r@.to_set() == listed@.take(n as int).to_set(),
        decreases listed.len() - n,
    {
        let ghost done = listed@.take(n as int);
        let ghost v = listed@[n as int];
        proof {
            if r@.contains(v) {
                assert(r@.to_set().contains(v));
                assert(done.to_set().contains(v));
                let i = choose|i: int| 0 <= i < done.len() && done[i] == v;
                assert(listed@[i] == listed@[n as int]);
            }
        }
        insert_ascending(&mut r, listed[n]);
        n += 1;
        proof {
            let next = listed@.take(n as int);
            assert(next =~= done.push(v));
            assert forall|x: u32| next.to_set().contains(x) <==> done.to_set().insert(v).contains(
                x,
            ) by {
                if done.contains(x) {
                    let i = choose|i: int| 0 <= i < done.len() && done[i] == x;
                    assert(next[i] == x);
                }
                assert(next[n - 1] == v);
            }
            assert(next.to_set() =~= done.to_set().insert(v));
        }
    }
    proof {
        assert(listed@.take(n as int) =~= listed@);
        let k = below_is_prefix(chars@, r@, 0x1_0000_0000);
        if k < r@.len() {
            assert(r@[k] >= 0x1_0000_0000);
        }
        assert(r@.take(k) =~= r@);
    }
    r
}

proof fn inserted_splits(list: Seq<u16>, v: u16, at: int)
    requires
        0 <= at <= list.len(),
        forall|i: int| at <= i < list.len() ==> list[i] > v,
        at == 0 || list[at - 1] <= v,
    ensures
        inserted(list, v) == list.insert(at, v),
    decreases list.len(),
{
    if at == list.len() {
        assert(list.insert(at, v) =~= list.push(v));
    } else {
        assert(list[list.len() - 1] > v);
        inserted_splits(list.drop_last(), v, at);
        assert(list.drop_last().insert(at, v).push(list.last()) =~= list.insert(at, v));
    }
}

fn insert_sorted(list: &mut Vec<u16>, v: u16)
    ensures
        final(list)@ == inserted(old(list)@, v),
{
    let mut at: usize = list.len();
    while at > 0 && list[at - 1] > v
        invariant
            list@ == old(list)@,
            at <= list@.len(),
            forall|i: int| at <= i < list@.len() ==> list@[i] > v,
        decreases at,
    {
        at -= 1;
    }
    proof {
        inserted_splits(list@, v, at as int);
    }
    list.insert(at, v);
}

fn shifted_code_list(list: &Vec<u32>) -> (r: Vec<u16>)
    ensures
        r@ == shifted_codes(list@),
{
    let mut r: Vec<u16> = Vec::new();
    let mut n: usize = 0;
    while n < list.len()
        invariant
            n <= list@.len(),
            r@ == shifted_codes(list@.take(n as int)),
        decreases list.len() - n,
    {
        let cp: u32 = list[n];
        if cp > 0x7F {
            insert_sorted(&mut r, ((cp as u64 + 0x400) % 0x1_0000) as u16);
        }
        n += 1;
        assert(list@.take(n as int).drop_last() =~= list@.take(n - 1));
    }
    assert(list@.take(n as int) =~= list@);
    r
}

fn push_codes(out: &mut Vec<u8>, list: &Vec<u16>)
    ensures
        final(out)@ == old(out)@ + code_bytes(list@),
{
    let mut n: usize = 0;
    assert(out@ =~= old(out)@ + code_bytes(list@.take(0)));
    while n < list.len()
        invariant
            n <= list@.len(),
            out@ == old(out)@ + code_bytes(list@.take(n as int)),
        decreases list.len() - n,
    {
        let ghost before = out@;
        push_be16(out, list[n]);
        n += 1;
        assert(list@.take(n as int).drop_last() =~= list@.take(n - 1));
        assert(out@ =~= old(out)@ + code_bytes(list@.take(n as int)));
    }
    assert(list@.take(n as int) =~= list@);
}

fn push_prefix(out: &mut Vec<u8>, hash: &[u8; 16])
    ensures
        final(out)@ == old(out)@ + prefix_bytes(hash@),
{
    let mut order: Vec<u16> = Vec::new();
    insert_sorted(&mut order, hash[0xBE % 16] as u16 * 0x100 + 0xBE);
    insert_sorted(&mut order, hash[0xEC % 16] as u16 * 0x100 + 0xEC);
    insert_sorted(&mut order, hash[0xED % 16] as u16 * 0x100 + 0xED);
    insert_sorted(&mut order, hash[0xF4 % 16] as u16 * 0x100 + 0xF4);
    assert(prefix_bytes(hash@).len() == order@.len());
    let mut n: usize = 0;
    assert(out@ =~= old(out)@ + prefix_bytes(hash@).take(0));
    while n < order.len()
        invariant
            n <= order@.len(),
            prefix_bytes(hash@).len() == order@.len(),
            forall|i: int| 0 <= i < order@.len() ==> prefix_bytes(hash@)[i] == order@[i] % 0x100,
            out@ == old(out)@ + prefix_bytes(hash@).take(n as int),
        decreases order.len() - n,
    {
        out.push((order[n] % 0x100) as u8);
        n += 1;
        assert(out@ =~= old(out)@ + prefix_bytes(hash@).take(n as int));
    }
    assert(prefix_bytes(hash@).take(n as int) =~= prefix_bytes(hash@));
}

fn range_hit(list: &Vec<u32>, range: UsbRange, Ghost(chars): Ghost<Set<u32>>) -> (r: bool)
    requires
        list@.to_set() == chars,
    ensures
        r == hits(chars, range),
{
    let mut n: usize = 0;
    while n < list.len()
        invariant
            n <= list@.len(),
            list@.to_set() == chars,
            forall|i: int| 0 <= i < n ==> #[trigger] list@[i] < range.first || list@[i] > range.last,
        decreases list.len() - n,
    {
        if range.first <= list[n] && list[n] <= range.last {
            assert(list@.contains(list@[n as int]));
            assert(chars.contains(list@[n as int]));
            return true;
        }
        n += 1;
    }
    proof {
        assert forall|cp: u32| #[trigger] chars.contains(cp) implies !(range.first <= cp
            <= range.last) by {
            assert(list@.to_set().contains(cp));
            let i = choose|i: int| 0 <= i < list@.len() && list@[i] == cp;
            assert(list@[i] < range.first || list@[i] > range.last);
        }
    }
    false
}

/// Build the font signature (EXTH 300) from the set of characters in headwords.
///
/// Four words of Unicode subset bits, two of code page bits, all little-endian, and
/// eight bytes of padding; then a four-byte prefix and the sorted characters beyond
/// ASCII, each shifted by 0x400 and big-endian.
pub fn build_fontsignature(headword_chars: &HashSet<u32>) -> (r: Vec<u8>)
    ensures
        r@ == fontsignature(headword_chars@),
{
    let ghost chars = headword_chars@;
    let list = sorted_members(headword_chars);
    let ranges = usb_range_table();
    let mut usb: [u32; 4] = [0u32; 4];
    let mut n: usize = 0;
    while n < 33
        invariant
            n <= 33,
            list@.to_set() == chars,
            ranges@ == usb_ranges(),
            forall|i: int| 0 <= i < 33 ==> #[trigger] ranges@[i].word < 4 && ranges@[i].bit < 32,
            forall|w: int| 0 <= w < 4 ==> #[trigger] usb@[w] == usb_word(chars, w, n as nat),
        decreases 33 - n,
    {
        let range: UsbRange = ranges[n];
        assert(ranges@[n as int].word < 4);
        if range_hit(&list, range, Ghost(chars)) {
            usb[range.word] = usb[range.word] | (1u32 << range.bit);
        }
        n += 1;
    }
    assert(usb@[0] == usb_word(chars, 0, 33));
    assert(usb@[1] == usb_word(chars, 1, 33));
    assert(usb@[2] == usb_word(chars, 2, 33));
    assert(usb@[3] == usb_word(chars, 3, 33));
    let codes = shifted_code_list(&list);
    let mut bytes: Vec<u8> = Vec::new();
    push_codes(&mut bytes, &codes);
    assert(bytes@ =~= code_bytes(codes@));
    let hash = md5_hash(&bytes);
    let mut out: Vec<u8> = Vec::new();
    push_le32(&mut out, usb[0]);
    push_le32(&mut out, usb[1]);
    push_le32(&mut out, usb[2]);
    push_le32(&mut out, usb[3] | (1u32 << 31u32));
    push_le32(&mut out, if usb[0] & (1u32 << 7u32) != 0 { 0x2000 } else { 0 });
    push_le32(&mut out, 0);
    push_zeros(&mut out, 8);
    push_prefix(&mut out, &hash);
    push_all(&mut out, &bytes);
    assert(out@ =~= fontsignature(chars));
    out
}

/// Layout metadata of a package.
pub struct FixedLayoutMeta {
    pub is_fixed_layout: bool,
    pub original_resolution: Option<String>,
    pub page_progression_direction: Option<String>,
}

/// The text, or `default` where there is none.
pub open spec fn text_or(text: Option<Seq<char>>, default: Seq<char>) -> Seq<char> {
    match text {
        Some(t) => t,
        None => default,
    }
}

/// The records of fixed-layout content.
pub open spec fn layout_records(layout: Option<&FixedLayoutMeta>) -> Seq<Record> {
    match layout {
        Some(fl) => if fl.is_fixed_layout {
            record(122, utf8("true"@)) + record(
                307,
                utf8(text_or(opt_string(fl.original_resolution), "1072x1448"@)),
            ) + record(527, utf8(text_or(opt_string(fl.page_progression_direction), "ltr"@)))
        } else {
            seq![]
        },
        None => seq![],
    }
}

/// Pages turn from right to left.
pub open spec fn is_rtl(layout: Option<&FixedLayoutMeta>) -> bool {
    match layout {
        Some(fl) => opt_string(fl.page_progression_direction) == Some("rtl"@),
        None => false,
    }
}

/// A record that holds a number, if there is one.
pub open spec fn number_record(kind: u32, value: Option<u32>) -> Seq<Record> {
    match value {
        Some(v) => record(kind, be32(v)),
        None => seq![],
    }
}

/// A record that holds a text, empty or not, if there is one.
pub open spec fn raw_text_record(kind: u32, text: Option<Seq<char>>) -> Seq<Record> {
    match text {
        Some(t) => record(kind, utf8(t)),
        None => seq![],
    }
}

/// The shelf that a document type names: "EBOK" for books, "PDOC" for documents,
/// which is also where anything else goes.
pub open spec fn shelf(doc_type: Option<Seq<char>>) -> Seq<char> {
    if doc_type == Some("EBOK"@) {
        "EBOK"@
    } else {
        "PDOC"@
    }
}

/// The four bytes that stand for a title.
pub open spec fn title_hash(title: Seq<char>, untitled: Seq<char>) -> Seq<u8> {
    md5(
        utf8(
            if title.len() == 0 {
                untitled
            } else {
                title
            },
        ),
    ).take(4)
}

/// The records of a book, in order.
pub open spec fn book_records(
    title: Seq<char>,
    author: Seq<char>,
    date: Seq<char>,
    language: Seq<char>,
    cover_offset: Option<u32>,
    fixed_layout: Option<&FixedLayoutMeta>,
    kf8_boundary_record: Option<u32>,
    hd_geometry: Option<Seq<char>>,
    creator_tag: bool,
    doc_type: Option<Seq<char>>,
    description: Option<Seq<char>>,
    subject: Option<Seq<char>>,
    series: Option<Seq<char>>,
    series_index: Option<Seq<char>>,
) -> Seq<Record> {
    text_record(106, date)
        + text_record(100, author)
        + optional_record(103, description)
        + optional_record(105, subject)
        + record(542, title_hash(title, "Book"@))
        + text_record(524, language)
        + record(525, utf8(if is_rtl(fixed_layout) { "horizontal-rl"@ } else { "horizontal-lr"@ }))
        + record(131, be32(0))
        + creator_records(creator_tag)
        + record(207, be32(0))
        + number_record(201, cover_offset)
        + number_record(202, cover_offset)
        + layout_records(fixed_layout)
        + optional_record(112, series)
        + optional_record(113, series_index)
        + record(501, utf8(shelf(doc_type)))
        + record(547, utf8("InMemory"@))
        + record(125, be32(21))
        + number_record(121, kf8_boundary_record)
        + raw_text_record(536, hd_geometry)
}

/// The records of a dictionary, in order.
pub open spec fn dictionary_records(
    title: Seq<char>,
    author: Seq<char>,
    date: Seq<char>,
    language: Seq<char>,
    dict_in_language: Seq<char>,
    dict_out_language: Seq<char>,
    headword_chars: Set<u32>,
    creator_tag: bool,
) -> Seq<Record> {
    text_record(106, date)
        + text_record(100, author)
        + record(542, title_hash(title, "Dictionary"@))
        + text_record(531, dict_in_language)
        + text_record(532, dict_out_language)
        + text_record(524, language)
        + record(525, utf8("horizontal-lr"@))
        + record(131, be32(0))
        + record(300, fontsignature(headword_chars))
        + creator_records(creator_tag)
        + record(207, be32(0))
        + record(547, utf8("InMemory"@))
        + record(125, be32(1))
}

impl Block {
    fn add_title_hash(&mut self, title: &str, untitled: &str)
        requires
            old(self).wf(),
        ensures
            final(self).wf(),
            final(self).list@ == old(self).list@ + record(542, title_hash(title@, untitled@)),
    {
        let hash = md5_hash(if title.is_empty() { untitled.as_bytes() } else { title.as_bytes() });
        let short: [u8; 4] = [hash[0], hash[1], hash[2], hash[3]];
        assert(short@ =~= hash@.take(4));
        self.add(542, &short);
    }

    fn add_optional_number(&mut self, kind: u32, value: Option<u32>)
        requires
            old(self).wf(),
        ensures
            final(self).wf(),
            final(self).list@ == old(self).list@ + number_record(kind, value),
    {
        match value {
            Some(v) => self.add_number(kind, v),
            None => {
                assert(self.list@ =~= self.list@ + number_record(kind, value));
            },
        }
    }

    fn add_layout(&mut self, layout: Option<&FixedLayoutMeta>)
        requires
            old(self).wf(),
        ensures
            final(self).wf(),
            final(self).list@ == old(self).list@ + layout_records(layout),
    {
        if let Some(fl) = layout {
            if fl.is_fixed_layout {
                self.add(122, "true".as_bytes());
                match &fl.original_resolution {
                    Some(t) => self.add(307, t.as_str().as_bytes()),
                    None => self.add(307, "1072x1448".as_bytes()),
                }
                match &fl.page_progression_direction {
                    Some(t) => self.add(527, t.as_str().as_bytes()),
                    None => self.add(527, "ltr".as_bytes()),
                }
            }
        }
        assert(self.list@ =~= old(self).list@ + layout_records(layout));
    }
}

fn reads_rtl(layout: Option<&FixedLayoutMeta>) -> (r: bool)
    ensures
        r == is_rtl(layout),
{
    match layout {
        Some(fl) => match &fl.page_progression_direction {
            Some(t) => same_text(t.as_str(), "rtl"),
            None => false,
        },
        None => false,
    }
}

/// Build the EXTH block of a book.
///
/// `cover_offset` is the index of the cover among the image records; `doc_type`
/// says on which shelf the book appears; `description`, `subject`, `series` and
/// `series_index` are left out where they are missing or empty; `hd_geometry`
/// describes the high-resolution images as "WxH:start-end|".
pub fn build_book_exth(
    title: &str,
    author: &str,
    date: &str,
    language: &str,
    cover_offset: Option<u32>,
    fixed_layout: Option<&FixedLayoutMeta>,
    kf8_boundary_record: Option<u32>,
    hd_geometry: Option<&str>,
    creator_tag: bool,
    doc_type: Option<&str>,
    description: Option<&str>,
    subject: Option<&str>,
    series: Option<&str>,
    series_index: Option<&str>,
) -> (exth: Vec<u8>)
    ensures
        exth@ == exth_block(
            book_records(
                title@,
                author@,
                date@,
                language@,
                cover_offset,
                fixed_layout,
                kf8_boundary_record,
                opt_text(hd_geometry),
                creator_tag,
                opt_text(doc_type),
                opt_text(description),
                opt_text(subject),
                opt_text(series),
                opt_text(series_index),
            ),
        ),
{
    let mut block = Block::new();
    block.add_text(106, date);
    assert(block.list@ =~= text_record(106, date@));
    block.add_text(100, author);
    block.add_optional(103, description);
    block.add_optional(105, subject);
    block.add_title_hash(title, "Book");
    block.add_text(524, language);
    if reads_rtl(fixed_layout) {
        block.add(525, "horizontal-rl".as_bytes());
    } else {
        block.add(525, "horizontal-lr".as_bytes());
    }
    block.add_number(131, 0);
    block.add_creator(creator_tag);
    block.add_number(207, 0);
    block.add_optional_number(201, cover_offset);
    block.add_optional_number(202, cover_offset);
    block.add_layout(fixed_layout);
    block.add_optional(112, series);
    block.add_optional(113, series_index);
    let ebook = match doc_type {
        Some(t) => same_text(t, "EBOK"),
        None => false,
    };
    if ebook {
        block.add(501, "EBOK".as_bytes());
    } else {
        block.add(501, "PDOC".as_bytes());
    }
    block.add(547, "InMemory".as_bytes());
    block.add_number(125, 21);
    block.add_optional_number(121, kf8_boundary_record);
    match hd_geometry {
        Some(t) => block.add(536, t.as_bytes()),
        None => {
            assert(block.list@ =~= block.list@ + raw_text_record(536, None));
        },
    }
    block.finish()
}

/// Build the EXTH block of a dictionary.
pub fn build_exth(
    title: &str,
    author: &str,
    date: &str,
    language: &str,
    dict_in_language: &str,
    dict_out_language: &str,
    headword_chars: &HashSet<u32>,
    creator_tag: bool,
) -> (exth: Vec<u8>)
    ensures
        exth@ == exth_block(
            dictionary_records(
                title@,
                author@,
                date@,
                language@,
                dict_in_language@,
                dict_out_language@,
                headword_chars@,
                creator_tag,
            ),
        ),
{
    let mut block = Block::new();
    block.add_text(106, date);
    assert(block.list@ =~= text_record(106, date@));
    block.add_text(100, author);
    block.add_title_hash(title, "Dictionary");
    block.add_text(531, dict_in_language);
    block.add_text(532, dict_out_language);
    block.add_text(524, language);
    block.add(525, "horizontal-lr".as_bytes());
    block.add_number(131, 0);
    let signature = build_fontsignature(headword_chars);
    block.add(300, &signature);
    block.add_creator(creator_tag);
    block.add_number(207, 0);
    block.add(547, "InMemory".as_bytes());
    block.add_number(125, 1);
    block.finish()
}

/// The size of an image as a text.
pub open spec fn size_text(width: u32, height: u32) -> Seq<char> {
    decimal(width as nat) + "x"@ + decimal(height as nat)
}

/// The records of a container of high-resolution images, in order.
pub open spec fn container_records(title: Seq<char>, max_width: u32, max_height: u32) -> Seq<Record> {
    record(125, be32(4))
        + record(204, be32(202))
        + record(205, be32(0))
        + record(206, be32(1))
        + record(535, utf8("kindling-0.2.0"@))
        + record(207, be32(0))
        + record(539, utf8("application/image"@))
        + record(538, utf8(size_text(max_width, max_height)))
        + record(542, title_hash(title, "Book"@))
        + record(543, utf8("HD_CONTAINER"@))
}

/// Build the EXTH block of a container of high-resolution images.
pub fn build_container_exth(title: &str, max_width: u32, max_height: u32) -> (exth: Vec<u8>)
    ensures
        exth@ == exth_block(container_records(title@, max_width, max_height)),
{
    let mut size = String::new();
    push_decimal(&mut size, max_width as u128);
    size.append("x");
    push_decimal(&mut size, max_height as u128);
    assert(size@ =~= size_text(max_width, max_height));
    let mut block = Block::new();
    block.add_number(125, 4);
    assert(block.list@ =~= record(125, be32(4)));
    block.add_number(204, 202);
    block.add_number(205, 0);
    block.add_number(206, 1);
    block.add(535, "kindling-0.2.0".as_bytes());
    block.add_number(207, 0);
    block.add(539, "application/image".as_bytes());
    block.add(538, size.as_str().as_bytes());
    block.add_title_hash(title, "Book");
    block.add(543, "HD_CONTAINER".as_bytes());
    block.finish()
}

proof fn records_bytes_splits(list: Seq<Record>, n: int)
    requires
        0 <= n <= list.len(),
    ensures
        records_bytes(list) == records_bytes(list.take(n)) + records_bytes(list.skip(n)),
    decreases list.len(),
{
    if n == list.len() {
        assert(list.take(n) =~= list);
        assert(list.skip(n) =~= seq![]);
        assert(records_bytes(list) + records_bytes(list.skip(n)) =~= records_bytes(list));
    } else {
        let front = list.drop_last();
        records_bytes_splits(front, n);
        assert(front.take(n) =~= list.take(n));
        assert(list.skip(n).drop_last() =~= front.skip(n));
        assert(list.skip(n).last() == list.last());
        assert(records_bytes(list.take(n)) + (records_bytes(front.skip(n)) + record_bytes(
            list.last(),
        )) =~= records_bytes(list));
    }
}

proof fn one_record(r: Record)
    ensures
        records_bytes(seq![r]) == record_bytes(r),
{
    reveal_with_fuel(records_bytes, 2);
    assert(seq![r].drop_last() =~= seq![]);
    assert(records_bytes(seq![r]) =~= record_bytes(r));
}

proof fn records_read_back_at(s: Seq<u8>, at: int, list: Seq<Record>)
    requires
        0 <= at,
        at + records_bytes(list).len() <= s.len(),
        s.subrange(at, at + records_bytes(list).len()) == records_bytes(list),
        forall|i: int| 0 <= i < list.len() ==> 8 + (#[trigger] list[i]).data.len() <= u32::MAX,
    ensures
        records_at(s, at, list.len()) == list,
    decreases list.len(),
{
    if list.len() == 0 {
        assert(records_at(s, at, 0) =~= list);
    } else {
        broadcast use crate::bytes::group_lengths;

        let r = list[0];
        let rest = list.skip(1);
        let size = 8 + r.data.len();
        records_bytes_splits(list, 1);
        assert(list.take(1) =~= seq![r]);
        one_record(r);
        low32_of_small(8int + r.data.len());
        let all = records_bytes(list);
        assert(all == record_bytes(r) + records_bytes(rest));
        let here = s.subrange(at, at + all.len());
        assert(s.subrange(at, at + 4) =~= be32(r.kind)) by {
            assert(here.subrange(0, 4) =~= be32(r.kind));
            assert(here.subrange(0, 4) =~= s.subrange(at, at + 4));
        }
        assert(s.subrange(at + 4, at + 8) =~= be32(low32(8int + r.data.len()))) by {
            assert(here.subrange(4, 8) =~= be32(low32(8int + r.data.len())));
            assert(here.subrange(4, 8) =~= s.subrange(at + 4, at + 8));
        }
        be32_reads_back(r.kind, s, at);
        be32_reads_back(low32(8int + r.data.len()), s, at + 4);
        assert(s.subrange(at + 8, at + size) =~= r.data) by {
            assert(here.subrange(8, size as int) =~= r.data);
            assert(here.subrange(8, size as int) =~= s.subrange(at + 8, at + size));
        }
        let tail = records_bytes(rest);
        assert(s.subrange(at + size, at + size + tail.len()) =~= tail) by {
            assert(here.subrange(size as int, (size + tail.len()) as int) =~= tail);
            assert(here.subrange(size as int, (size + tail.len()) as int) =~= s.subrange(
                at + size,
                at + size + tail.len(),
            ));
        }
        records_read_back_at(s, at + size, rest);
        assert(seq![r] + rest =~= list);
    }
}

/// A reader of an EXTH block finds the records that were put into it, in order, as
/// long as each fits its 32-bit length field.
pub proof fn exth_reads_back(list: Seq<Record>)
    requires
        forall|i: int| 0 <= i < list.len() ==> 8 + (#[trigger] list[i]).data.len() <= u32::MAX,
    ensures
        records_at(exth_block(list), 12, list.len()) == list,
{
    broadcast use crate::bytes::group_lengths;

    reveal(exth_block);
    magic_length();
    let s = exth_block(list);
    let body = records_bytes(list);
    assert(s.subrange(12, (12 + body.len()) as int) =~= body);
    records_read_back_at(s, 12, list);
}

proof fn magic_length()
    ensures
        utf8("EXTH"@).len() == 4,
{
    reveal_strlit("EXTH");
    vstd::utf8::is_ascii_chars_encode_utf8("EXTH"@);
}

/// An EXTH block begins with its magic, its length is a multiple of four, and its
/// header holds that length and the number of records, as long as they fit.
pub proof fn exth_header_is_true(list: Seq<Record>)
    requires
        exth_block(list).len() <= u32::MAX,
        list.len() <= u32::MAX,
    ensures
        exth_block(list).take(4) == utf8("EXTH"@),
        exth_block(list).len() % 4 == 0,
        read_be32(exth_block(list), 4) == exth_block(list).len(),
        read_be32(exth_block(list), 8) == list.len(),
{
    broadcast use crate::bytes::group_lengths;

    reveal(exth_block);
    magic_length();
    let s = exth_block(list);
    let body = records_bytes(list);
    let fill = padding(12int + body.len());
    assert(s.len() == 12 + body.len() + fill);
    assert(s.take(4) =~= utf8("EXTH"@));
    low32_of_small(s.len() as int);
    low32_of_small(list.len() as int);
    assert(s.subrange(4, 8) =~= be32(low32(s.len() as int)));
    assert(s.subrange(8, 12) =~= be32(low32(list.len() as int)));
    be32_reads_back(low32(s.len() as int), s, 4);
    be32_reads_back(low32(list.len() as int), s, 8);
}

/// Some record of the list has this type.
#[verifier::opaque]
pub open spec fn has_kind(list: Seq<Record>, kind: u32) -> bool {
    exists|i: int| 0 <= i < list.len() && (#[trigger] list[i]).kind == kind
}

broadcast proof fn kind_of_record(kind: u32, data: Seq<u8>, k: u32)
    ensures
        #[trigger] has_kind(record(kind, data), k) <==> kind == k,
{
    reveal(has_kind);
    assert(record(kind, data)[0].kind == kind);
}

broadcast proof fn kind_of_nothing(k: u32)
    ensures
        !#[trigger] has_kind(seq![], k),
{
    reveal(has_kind);
}

broadcast proof fn kind_of_sum(a: Seq<Record>, b: Seq<Record>, k: u32)
    ensures
        #[trigger] has_kind(a + b, k) <==> has_kind(a, k) || has_kind(b, k),
{
    reveal(has_kind);
    let s = a + b;
    if has_kind(a, k) {
        let i = choose|i: int| 0 <= i < a.len() && (#[trigger] a[i]).kind == k;
        assert(s[i].kind == k);
    }
    if has_kind(b, k) {
        let i = choose|i: int| 0 <= i < b.len() && (#[trigger] b[i]).kind == k;
        assert(s[a.len() + i].kind == k);
    }
    if has_kind(s, k) {
        let i = choose|i: int| 0 <= i < s.len() && (#[trigger] s[i]).kind == k;
        if i < a.len() {
            assert(a[i].kind == k);
        } else {
            assert(b[i - a.len()].kind == k);
        }
    }
}

/// A dictionary tells its two languages apart from its own where they are given,
/// has the in-memory flag and the font signature, and has no document type and no
/// series, whatever its metadata.
pub proof fn dictionary_kinds(
    title: Seq<char>,
    author: Seq<char>,
    date: Seq<char>,
    language: Seq<char>,
    dict_in_language: Seq<char>,
    dict_out_language: Seq<char>,
    headword_chars: Set<u32>,
    creator_tag: bool,
)
    ensures
        ({
            let list = dictionary_records(
                title,
                author,
                date,
                language,
                dict_in_language,
                dict_out_language,
                headword_chars,
                creator_tag,
            );
            &&& has_kind(list, 531) <==> dict_in_language.len() > 0
            &&& has_kind(list, 532) <==> dict_out_language.len() > 0
            &&& has_kind(list, 547)
            &&& has_kind(list, 300)
            &&& !has_kind(list, 501)
            &&& !has_kind(list, 112)
            &&& !has_kind(list, 113)
            &&& !has_kind(list, 121)
        }),
{
    let list = dictionary_records(
        title,
        author,
        date,
        language,
        dict_in_language,
        dict_out_language,
        headword_chars,
        creator_tag,
    );
    broadcast use {kind_of_nothing, kind_of_record, kind_of_sum};
}

/// Not empty.
pub open spec fn given(text: Option<Seq<char>>) -> bool {
    match text {
        Some(t) => t.len() > 0,
        None => false,
    }
}

/// How many records of the list have this type.
#[verifier::opaque]
pub open spec fn count_kind(list: Seq<Record>, kind: u32) -> nat
    decreases list.len(),
{
    if list.len() == 0 {
        0
    } else {
        count_kind(list.drop_last(), kind) + if list.last().kind == kind {
            1nat
        } else {
            0nat
        }
    }
}

broadcast proof fn count_of_nothing(k: u32)
    ensures
        #[trigger] count_kind(seq![], k) == 0,
{
    reveal(count_kind);
}

broadcast proof fn count_of_record(kind: u32, data: Seq<u8>, k: u32)
    ensures
        #[trigger] count_kind(record(kind, data), k) == if kind == k {
            1nat
        } else {
            0nat
        },
{
    reveal_with_fuel(count_kind, 2);
    assert(record(kind, data).drop_last() =~= seq![]);
}

broadcast proof fn count_of_sum(a: Seq<Record>, b: Seq<Record>, k: u32)
    ensures
        #[trigger] count_kind(a + b, k) == count_kind(a, k) + count_kind(b, k),
    decreases b.len(),
{
    reveal(count_kind);
    if b.len() == 0 {
        assert(a + b =~= a);
    } else {
        assert((a + b).drop_last() =~= a + b.drop_last());
        count_of_sum(a, b.drop_last(), k);
    }
}

/// This record is in the list.
#[verifier::opaque]
pub open spec fn has_record(list: Seq<Record>, r: Record) -> bool {
    list.contains(r)
}

broadcast proof fn member_of_record(kind: u32, data: Seq<u8>)
    ensures
        has_record(#[trigger] record(kind, data), Record { kind, data }),
{
    reveal(has_record);
    assert(record(kind, data)[0] == Record { kind, data });
}

broadcast proof fn member_of_sum(a: Seq<Record>, b: Seq<Record>, r: Record)
    ensures
        #[trigger] has_record(a + b, r) <==> has_record(a, r) || has_record(b, r),
{
    reveal(has_record);
    if a.contains(r) {
        let i = choose|i: int| 0 <= i < a.len() && a[i] == r;
        assert((a + b)[i] == r);
    }
    if b.contains(r) {
        let i = choose|i: int| 0 <= i < b.len() && b[i] == r;
        assert((a + b)[a.len() + i] == r);
    }
}

/// A book has the in-memory flag and one document type, tells a series, a summary
/// and a genre exactly where they are given and not empty, names the KF8 part of its
/// file where there is one, and has none of the records that make a dictionary,
/// whatever its metadata.
pub proof fn book_kinds(
    title: Seq<char>,
    author: Seq<char>,
    date: Seq<char>,
    language: Seq<char>,
    cover_offset: Option<u32>,
    fixed_layout: Option<&FixedLayoutMeta>,
    kf8_boundary_record: Option<u32>,
    hd_geometry: Option<Seq<char>>,
    creator_tag: bool,
    doc_type: Option<Seq<char>>,
    description: Option<Seq<char>>,
    subject: Option<Seq<char>>,
    series: Option<Seq<char>>,
    series_index: Option<Seq<char>>,
)
    ensures
        ({
            let list = book_records(
                title,
                author,
                date,
                language,
                cover_offset,
                fixed_layout,
                kf8_boundary_record,
                hd_geometry,
                creator_tag,
                doc_type,
                description,
                subject,
                series,
                series_index,
            );
            &&& has_kind(list, 103) <==> given(description)
            &&& has_kind(list, 105) <==> given(subject)
            &&& has_kind(list, 112) <==> given(series)
            &&& has_kind(list, 113) <==> given(series_index)
            &&& has_kind(list, 121) <==> kf8_boundary_record is Some
            &&& kf8_boundary_record matches Some(b) ==> has_record(
                list,
                Record { kind: 121, data: be32(b) },
            )
            &&& has_kind(list, 547)
            &&& count_kind(list, 501) == 1
            &&& has_record(list, Record { kind: 501, data: utf8(shelf(doc_type)) })
            &&& !has_kind(list, 531)
            &&& !has_kind(list, 532)
            &&& !has_kind(list, 300)
        }),
{
    broadcast use {
        kind_of_nothing,
        kind_of_record,
        kind_of_sum,
        count_of_nothing,
        count_of_record,
        count_of_sum,
        member_of_record,
        member_of_sum,
    };

    let list = book_records(
        title,
        author,
        date,
        language,
        cover_offset,
        fixed_layout,
        kf8_boundary_record,
        hd_geometry,
        creator_tag,
        doc_type,
        description,
        subject,
        series,
        series_index,
    );
    assert(has_record(
        record(501, utf8(shelf(doc_type))),
        Record { kind: 501, data: utf8(shelf(doc_type)) },
    ));
    if let Some(b) = kf8_boundary_record {
        assert(has_record(record(121, be32(b)), Record { kind: 121, data: be32(b) }));
    }
}

/// An EXTH block is as long as its records and its header, up to a multiple of four bytes.
pub proof fn exth_length(list: Seq<Record>)
    ensures
        exth_block(list).len() == 12 + records_bytes(list).len() + padding(
            12int + records_bytes(list).len(),
        ),
{
    broadcast use crate::bytes::group_lengths;

    reveal(exth_block);
    magic_length();
}

/// A record that is put between others makes an EXTH block no shorter.
pub proof fn more_records_are_longer(before: Seq<Record>, more: Seq<Record>, after: Seq<Record>)
    ensures
        exth_block(before + after).len() <= exth_block(before + more + after).len(),
{
    let short = before + after;
    let long = before + more + after;
    records_bytes_splits(short, before.len() as int);
    records_bytes_splits(long, before.len() as int);
    records_bytes_splits(more + after, more.len() as int);
    assert(short.take(before.len() as int) =~= before);
    assert(short.skip(before.len() as int) =~= after);
    assert(long.take(before.len() as int) =~= before);
    assert(long.skip(before.len() as int) =~= more + after);
    assert((more + after).take(more.len() as int) =~= more);
    assert((more + after).skip(more.len() as int) =~= after);
    exth_length(short);
    exth_length(long);
}

/// What the records of one type hold, in their order.
#[verifier::opaque]
pub open spec fn data_of(list: Seq<Record>, kind: u32) -> Seq<Seq<u8>> {
    list.filter_map(
        |r: Record|
            if r.kind == kind {
                Some(r.data)
            } else {
                None
            },
    )
}

broadcast proof fn data_of_nothing(k: u32)
    ensures
        #[trigger] data_of(seq![], k) == Seq::<Seq<u8>>::empty(),
{
    reveal(data_of);
}

broadcast proof fn data_of_record(kind: u32, data: Seq<u8>, k: u32)
    ensures
        #[trigger] data_of(record(kind, data), k) == if kind == k {
            seq![data]
        } else {
            Seq::<Seq<u8>>::empty()
        },
{
    reveal(data_of);
    let f = |r: Record|
        if r.kind == k {
            Some(r.data)
        } else {
            None
        };
    let s = record(kind, data);
    assert(s.drop_last() =~= seq![]);
    reveal_with_fuel(Seq::filter_map, 2);
    assert(s.filter_map(f) =~= if kind == k {
        seq![data]
    } else {
        seq![]
    });
}

broadcast proof fn data_of_sum(a: Seq<Record>, b: Seq<Record>, k: u32)
    ensures
        #[trigger] data_of(a + b, k) == data_of(a, k) + data_of(b, k),
    decreases b.len(),
{
    reveal(data_of);
    if b.len() == 0 {
        assert(a + b =~= a);
        assert(data_of(a, k) + data_of(b, k) =~= data_of(a, k));
    } else {
        data_of_sum(a, b.drop_last(), k);
        assert((a + b).drop_last() =~= a + b.drop_last());
        assert(data_of(a + b, k) =~= data_of(a, k) + data_of(b, k));
    }
}

/// A text that is not empty, in UTF-8, as the data of one record; an empty one has none.
pub open spec fn one_text(text: Seq<char>) -> Seq<Seq<u8>> {
    if text.len() > 0 {
        seq![utf8(text)]
    } else {
        seq![]
    }
}

/// A number as the data of one record; none has none.
pub open spec fn one_number(value: Option<u32>) -> Seq<Seq<u8>> {
    match value {
        Some(v) => seq![be32(v)],
        None => seq![],
    }
}

/// A text that may be missing, empty as well where it is.
pub open spec fn or_nothing(text: Option<Seq<char>>) -> Seq<char> {
    match text {
        Some(t) => t,
        None => seq![],
    }
}

/// The metadata of a book as a reader finds it: each text under its own record type, once, where it is
/// not empty; the cover and its thumbnail, the record of the KF8 part and the geometry where they are
/// given; and fixed pages with their resolution and direction.
pub proof fn book_metadata_is_found(
    title: Seq<char>,
    author: Seq<char>,
    date: Seq<char>,
    language: Seq<char>,
    cover_offset: Option<u32>,
    fixed_layout: Option<&FixedLayoutMeta>,
    kf8_boundary_record: Option<u32>,
    hd_geometry: Option<Seq<char>>,
    creator_tag: bool,
    doc_type: Option<Seq<char>>,
    description: Option<Seq<char>>,
    subject: Option<Seq<char>>,
    series: Option<Seq<char>>,
    series_index: Option<Seq<char>>,
)
    ensures
        ({
            let list = book_records(
                title,
                author,
                date,
                language,
                cover_offset,
                fixed_layout,
                kf8_boundary_record,
                hd_geometry,
                creator_tag,
                doc_type,
                description,
                subject,
                series,
                series_index,
            );
            let rtl = fixed_layout is Some && opt_string(
                fixed_layout->0.page_progression_direction,
            ) == Some("rtl"@);
            &&& data_of(list, 100) == one_text(author)
            &&& data_of(list, 103) == one_text(or_nothing(description))
            &&& data_of(list, 105) == one_text(or_nothing(subject))
            &&& data_of(list, 106) == one_text(date)
            &&& data_of(list, 112) == one_text(or_nothing(series))
            &&& data_of(list, 113) == one_text(or_nothing(series_index))
            &&& data_of(list, 121) == one_number(kf8_boundary_record)
            &&& data_of(list, 125) == seq![be32(21)]
            &&& data_of(list, 131) == seq![be32(0)]
            &&& data_of(list, 201) == one_number(cover_offset)
            &&& data_of(list, 202) == one_number(cover_offset)
            &&& data_of(list, 524) == one_text(language)
            &&& data_of(list, 525) == seq![
                utf8(
                    if rtl {
                        "horizontal-rl"@
                    } else {
                        "horizontal-lr"@
                    },
                ),
            ]
            &&& data_of(list, 547) == seq![utf8("InMemory"@)]
            &&& data_of(list, 501) == seq![
                utf8(
                    if doc_type == Some("EBOK"@) {
                        "EBOK"@
                    } else {
                        "PDOC"@
                    },
                ),
            ]
        }),
{
    let list = book_records(
        title,
        author,
        date,
        language,
        cover_offset,
        fixed_layout,
        kf8_boundary_record,
        hd_geometry,
        creator_tag,
        doc_type,
        description,
        subject,
        series,
        series_index,
    );
    assert(data_of(list, 100) =~= one_text(author)) by {
        broadcast use {data_of_nothing, data_of_record, data_of_sum};

    }
    assert(data_of(list, 103) =~= one_text(or_nothing(description))) by {
        broadcast use {data_of_nothing, data_of_record, data_of_sum};

    }
    assert(data_of(list, 105) =~= one_text(or_nothing(subject))) by {
        broadcast use {data_of_nothing, data_of_record, data_of_sum};

    }
    assert(data_of(list, 106) =~= one_text(date)) by {
        broadcast use {data_of_nothing, data_of_record, data_of_sum};

    }
    assert(data_of(list, 112) =~= one_text(or_nothing(series))) by {
        broadcast use {data_of_nothing, data_of_record, data_of_sum};

    }
    assert(data_of(list, 113) =~= one_text(or_nothing(series_index))) by {
        broadcast use {data_of_nothing, data_of_record, data_of_sum};

    }
    assert(data_of(list, 121) =~= one_number(kf8_boundary_record)) by {
        broadcast use {data_of_nothing, data_of_record, data_of_sum};

    }
    assert(data_of(list, 125) =~= seq![be32(21)]) by {
        broadcast use {data_of_nothing, data_of_record, data_of_sum};

    }
    assert(data_of(list, 131) =~= seq![be32(0)]) by {
        broadcast use {data_of_nothing, data_of_record, data_of_sum};

    }
    assert(data_of(list, 201) =~= one_number(cover_offset)) by {
        broadcast use {data_of_nothing, data_of_record, data_of_sum};

    }
    assert(data_of(list, 202) =~= one_number(cover_offset)) by {
        broadcast use {data_of_nothing, data_of_record, data_of_sum};

    }
    assert(data_of(list, 524) =~= one_text(language)) by {
        broadcast use {data_of_nothing, data_of_record, data_of_sum};

    }
    assert(data_of(list, 547) =~= seq![utf8("InMemory"@)]) by {
        broadcast use {data_of_nothing, data_of_record, data_of_sum};

    }
    assert(data_of(list, 501) =~= seq![utf8(shelf(doc_type))]) by {
        broadcast use {data_of_nothing, data_of_record, data_of_sum};

    }
    assert(data_of(list, 525) =~= seq![utf8(if is_rtl(fixed_layout) { "horizontal-rl"@ } else { "horizontal-lr"@ })]) by {
        broadcast use {data_of_nothing, data_of_record, data_of_sum};

    }
}

/// Fixed pages are told with their resolution and the direction in which they turn, and pages that
/// are not fixed are not; the geometry of high-resolution images is told where there is one.
pub proof fn book_layout_is_found(
    title: Seq<char>,
    author: Seq<char>,
    date: Seq<char>,
    language: Seq<char>,
    cover_offset: Option<u32>,
    layout: FixedLayoutMeta,
    kf8_boundary_record: Option<u32>,
    hd_geometry: Option<Seq<char>>,
    creator_tag: bool,
    doc_type: Option<Seq<char>>,
    description: Option<Seq<char>>,
    subject: Option<Seq<char>>,
    series: Option<Seq<char>>,
    series_index: Option<Seq<char>>,
)
    ensures
        ({
            let list = |fixed_layout: Option<&FixedLayoutMeta>|
                book_records(
                    title,
                    author,
                    date,
                    language,
                    cover_offset,
                    fixed_layout,
                    kf8_boundary_record,
                    hd_geometry,
                    creator_tag,
                    doc_type,
                    description,
                    subject,
                    series,
                    series_index,
                );
            let fixed = list(Some(&layout));
            let none = list(None);
            let on = layout.is_fixed_layout;
            let resolution = opt_string(layout.original_resolution);
            let direction = opt_string(layout.page_progression_direction);
            &&& data_of(fixed, 122) == if on {
                seq![utf8("true"@)]
            } else {
                seq![]
            }
            &&& on && resolution is Some ==> data_of(fixed, 307) == seq![utf8(resolution->0)]
            &&& on && resolution is None ==> data_of(fixed, 307) == seq![utf8("1072x1448"@)]
            &&& on && direction is Some ==> data_of(fixed, 527) == seq![utf8(direction->0)]
            &&& on && direction is None ==> data_of(fixed, 527) == seq![utf8("ltr"@)]
            &&& data_of(none, 122).len() == 0
            &&& data_of(none, 307).len() == 0
            &&& data_of(none, 527).len() == 0
            &&& data_of(none, 536) == match hd_geometry {
                Some(t) => seq![utf8(t)],
                None => seq![],
            }
            &&& data_of(none, 204) == seq![
                be32(
                    if creator_tag {
                        300
                    } else {
                        201
                    },
                ),
            ]
            &&& data_of(none, 535) == seq![
                utf8(
                    if creator_tag {
                        "kindling-0.2.0"@
                    } else {
                        "0730-890adc2"@
                    },
                ),
            ]
        }),
{
    broadcast use {data_of_nothing, data_of_record, data_of_sum};

}

/// The metadata of a dictionary as a reader finds it: author, date, language and the languages of
/// headwords and definitions, each under its own record type, once, where it is not empty.
pub proof fn dictionary_metadata_is_found(
    title: Seq<char>,
    author: Seq<char>,
    date: Seq<char>,
    language: Seq<char>,
    dict_in_language: Seq<char>,
    dict_out_language: Seq<char>,
    headword_chars: Set<u32>,
    creator_tag: bool,
)
    ensures
        ({
            let list = dictionary_records(
                title,
                author,
                date,
                language,
                dict_in_language,
                dict_out_language,
                headword_chars,
                creator_tag,
            );
            &&& data_of(list, 100) == one_text(author)
            &&& data_of(list, 106) == one_text(date)
            &&& data_of(list, 524) == one_text(language)
            &&& data_of(list, 525) == seq![utf8("horizontal-lr"@)]
            &&& data_of(list, 531) == one_text(dict_in_language)
            &&& data_of(list, 532) == one_text(dict_out_language)
            &&& data_of(list, 125) == seq![be32(1)]
            &&& data_of(list, 131) == seq![be32(0)]
            &&& data_of(list, 547) == seq![utf8("InMemory"@)]
            &&& data_of(list, 201).len() == 0
            &&& data_of(list, 204) == seq![
                be32(
                    if creator_tag {
                        300
                    } else {
                        201
                    },
                ),
            ]
        }),
{
    broadcast use {data_of_nothing, data_of_record, data_of_sum};

}

/// Two titles with the same beginning of their digest are told by the same four bytes; an untitled
/// book is told as one called so.
pub proof fn titles_are_told_by_digest(title: Seq<char>, untitled: Seq<char>)
    ensures
        title.len() > 0 ==> title_hash(title, untitled) == md5(utf8(title)).take(4),
        title_hash(seq![], untitled) == md5(utf8(untitled)).take(4),
{
}

/// The members of a set below a bound are listed in ascending order, each once and no others.
proof fn members_are_listed(chars: Set<u32>, n: nat)
    requires
        n <= 0x1_0000_0000,
    ensures
        forall|i: int, j: int|
            0 <= i < j < members_below(chars, n).len() ==> members_below(chars, n)[i]
                < members_below(chars, n)[j],
        forall|c: u32|
            #![trigger members_below(chars, n).contains(c)]
            members_below(chars, n).contains(c) <==> chars.contains(c) && c < n,
    decreases n,
{
    if n > 0 {
        members_are_listed(chars, (n - 1) as nat);
        let rest = members_below(chars, (n - 1) as nat);
        let all = members_below(chars, n);
        let v = (n - 1) as u32;
        assert forall|i: int| 0 <= i < rest.len() implies rest[i] < n - 1 by {
            assert(rest.contains(rest[i]));
        }
        assert forall|c: u32|
            #![trigger all.contains(c)]
            all.contains(c) <==> chars.contains(c) && c < n by {
            if rest.contains(c) {
                let k = choose|k: int| 0 <= k < rest.len() && rest[k] == c;
                assert(all[k] == c);
            }
            if chars.contains(v) {
                assert(all[all.len() - 1] == v);
            }
            if all.contains(c) {
                let k = choose|k: int| 0 <= k < all.len() && all[k] == c;
                if k < rest.len() {
                    assert(rest[k] == c);
                }
            }
        }
    }
}

/// Putting a code in its place keeps the others and their order.
proof fn insertion_keeps_order(list: Seq<u16>, v: u16)
    requires
        forall|i: int, j: int| 0 <= i < j < list.len() ==> list[i] <= list[j],
    ensures
        forall|i: int, j: int|
            0 <= i < j < inserted(list, v).len() ==> inserted(list, v)[i] <= inserted(list, v)[j],
        inserted(list, v).to_multiset() =~= list.to_multiset().insert(v),
        inserted(list, v).len() == list.len() + 1,
        forall|i: int|
            0 <= i < inserted(list, v).len() ==> #[trigger] inserted(list, v)[i] == v || exists|k: int|
                0 <= k < list.len() && list[k] == inserted(list, v)[i],
    decreases list.len(),
{
    broadcast use vstd::seq_lib::group_to_multiset_ensures;

    if list.len() == 0 || list.last() <= v {
        assert forall|i: int| 0 <= i < inserted(list, v).len() implies #[trigger] inserted(list, v)[i]
            == v || exists|k: int| 0 <= k < list.len() && list[k] == inserted(list, v)[i] by {
            if i < list.len() {
                assert(list[i] == inserted(list, v)[i]);
            }
        }
    } else {
        let rest = list.drop_last();
        insertion_keeps_order(rest, v);
        let r = inserted(rest, v);
        assert(list =~= rest.push(list.last()));
        assert forall|i: int| 0 <= i < r.len() implies r[i] <= list.last() by {
            if r[i] != v {
                let k = choose|k: int| 0 <= k < rest.len() && rest[k] == r[i];
                assert(list[k] <= list[list.len() - 1]);
            }
        }
        assert forall|i: int| 0 <= i < inserted(list, v).len() implies #[trigger] inserted(list, v)[i]
            == v || exists|k: int| 0 <= k < list.len() && list[k] == inserted(list, v)[i] by {
            if i < r.len() {
                assert(r[i] == inserted(list, v)[i]);
                if r[i] != v {
                    let k = choose|k: int| 0 <= k < rest.len() && rest[k] == r[i];
                    assert(list[k] == r[i]);
                }
            } else {
                assert(list[list.len() - 1] == inserted(list, v)[i]);
            }
        }
    }
}

/// The codes of a font signature are those of the characters beyond ASCII, shifted and cut to 16 bits,
/// in ascending order: one for each such character.
pub proof fn codes_are_those_of_characters(list: Seq<u32>)
    ensures
        forall|i: int, j: int|
            0 <= i < j < shifted_codes(list).len() ==> shifted_codes(list)[i]
                <= shifted_codes(list)[j],
        shifted_codes(list).to_multiset() == list.filter_map(
            |c: u32|
                if c > 0x7F {
                    Some(((c + 0x400) % 0x1_0000) as u16)
                } else {
                    None
                },
        ).to_multiset(),
    decreases list.len(),
{
    broadcast use vstd::seq_lib::group_to_multiset_ensures;

    let code = |c: u32|
        if c > 0x7F {
            Some(((c + 0x400) % 0x1_0000) as u16)
        } else {
            None
        };
    if list.len() > 0 {
        let rest = list.drop_last();
        codes_are_those_of_characters(rest);
        if list.last() > 0x7F {
            let v = ((list.last() + 0x400) % 0x1_0000) as u16;
            insertion_keeps_order(shifted_codes(rest), v);
            assert(list.filter_map(code) =~= rest.filter_map(code).push(v));
        }
    } else {
        assert(shifted_codes(list) =~= list.filter_map(code));
    }
}

/// The characters whose codes a font signature lists are those of the set, each once.
pub proof fn signature_lists_all_characters(chars: Set<u32>, c: u32)
    ensures
        members(chars).contains(c) <==> chars.contains(c),
        members(chars).no_duplicates(),
{
    members_are_listed(chars, 0x1_0000_0000);
}

/// An EXTH block is longer than each of its records.
pub proof fn records_are_shorter_than_their_block(list: Seq<Record>, i: int)
    requires
        0 <= i < list.len(),
    ensures
        8 + list[i].data.len() <= exth_block(list).len(),
{
    exth_length(list);
    record_is_short(list, i);
}

proof fn record_is_short(list: Seq<Record>, i: int)
    requires
        0 <= i < list.len(),
    ensures
        8 + list[i].data.len() <= records_bytes(list).len(),
    decreases list.len(),
{
    broadcast use crate::bytes::group_lengths;

    if i < list.len() - 1 {
        record_is_short(list.drop_last(), i);
    }
}

} // verus!
