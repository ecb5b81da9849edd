//! Text records: the text of a book in pieces of fixed size, compressed or not,
//! each with two trailing bytes.
use vstd::prelude::*;

use crate::palmdoc::{compress, compressed, compression_is_lossless, decompressed};

verus! {

/// The size of a text record before compression.
pub const RECORD_SIZE: usize = 4096;

/// How many records the text is cut into at most before they are made larger.
pub const RECORD_LIMIT: usize = 65000;

/// The least power of two, from `p` on, that is not below `n`.
pub open spec fn power_from(n: int, p: int) -> int
    decreases
            if p < n {
                n - p
            } else {
                0
            },
{
    if p < 1 || p >= n {
        p
    } else {
        power_from(n, p * 2)
    }
}

/// The size of the pieces that a text of `total` bytes is cut into.
pub open spec fn piece_size(total: int) -> int {
    if total / RECORD_SIZE as int > RECORD_LIMIT {
        power_from(total / RECORD_LIMIT as int + 1, 1)
    } else {
        RECORD_SIZE as int
    }
}

/// The pieces of a text, each of `size` bytes but for the last.
pub open spec fn pieces(text: Seq<u8>, size: int) -> Seq<Seq<u8>>
    decreases text.len(),
{
    if text.len() == 0 || size <= 0 {
        seq![]
    } else if text.len() <= size {
        seq![text]
    } else {
        seq![text.take(size)] + pieces(text.skip(size), size)
    }
}

/// A piece as a record.
pub open spec fn text_record(piece: Seq<u8>, plain: bool, trailer: Seq<u8>) -> Seq<u8> {
    if plain {
        piece + trailer
    } else {
        compressed(piece) + trailer
    }
}

/// Pieces as records.
pub open spec fn text_records(list: Seq<Seq<u8>>, plain: bool, trailer: Seq<u8>) -> Seq<Seq<u8>> {
    Seq::new(list.len(), |i: int| text_record(list[i], plain, trailer))
}

/// The two bytes behind a text record of the older format: no multibyte overlap,
/// then an empty index entry whose high bit ends it for a reader from behind.
pub open spec fn mobi_trailer() -> Seq<u8> {
    seq![0x00, 0x81]
}

/// The two bytes behind a KF8 text record.
pub open spec fn kf8_trailer() -> Seq<u8> {
    seq![0x81, 0x00]
}

/// The bytes of records.
pub open spec fn contents(list: Seq<Vec<u8>>) -> Seq<Seq<u8>> {
    Seq::new(list.len(), |i: int| list[i]@)
}

/// The text records of a text in the older format.
pub open spec fn mobi_records(text: Seq<u8>, plain: bool) -> Seq<Seq<u8>> {
    text_records(pieces(text, piece_size(text.len() as int)), plain, mobi_trailer())
}

/// The text records of a KF8 text.
pub open spec fn kf8_records(text: Seq<u8>, plain: bool) -> Seq<Seq<u8>> {
    text_records(pieces(text, RECORD_SIZE as int), plain, kf8_trailer())
}

/// What a record holds of the text.
pub open spec fn restored_record(record: Seq<u8>, plain: bool) -> Seq<u8> {
    let body = record.take(record.len() - 2);
    if plain {
        body
    } else {
        decompressed(body)
    }
}

/// What records hold of the text.
pub open spec fn restored(records: Seq<Seq<u8>>, plain: bool) -> Seq<u8>
    decreases records.len(),
{
    if records.len() == 0 {
        seq![]
    } else {
        restored_record(records[0], plain) + restored(records.skip(1), plain)
    }
}

proof fn pieces_restore(text: Seq<u8>, size: int, plain: bool, trailer: Seq<u8>)
    requires
        size > 0,
        trailer.len() == 2,
    ensures
        restored(text_records(pieces(text, size), plain, trailer), plain) == text,
    decreases text.len(),
{
    let list = pieces(text, size);
    let records = text_records(list, plain, trailer);
    if text.len() == 0 {
        assert(records =~= seq![]);
    } else {
        let first = if text.len() <= size {
            text
        } else {
            text.take(size)
        };
        let rest = if text.len() <= size {
            seq![]
        } else {
            text.skip(size)
        };
        assert(pieces(seq![], size) =~= seq![]);
        assert(list =~= seq![first] + pieces(rest, size));
        pieces_restore(rest, size, plain, trailer);
        assert(records[0] == text_record(first, plain, trailer));
        assert(records.skip(1) =~= text_records(pieces(rest, size), plain, trailer));
        let body = if plain {
            first
        } else {
            compressed(first)
        };
        assert(records[0].take(records[0].len() - 2) =~= body);
        if !plain {
            compression_is_lossless(first);
        }
        assert(first + rest =~= text);
    }
}

/// A reader gets the text back from its records in the older format.
pub proof fn mobi_text_reads_back(text: Seq<u8>, plain: bool)
    ensures
        restored(mobi_records(text, plain), plain) == text,
{
    piece_size_is_positive(text.len() as int);
    pieces_restore(text, piece_size(text.len() as int), plain, mobi_trailer());
}

/// A reader gets the text back from its KF8 records.
pub proof fn kf8_text_reads_back(text: Seq<u8>, plain: bool)
    ensures
        restored(kf8_records(text, plain), plain) == text,
{
    pieces_restore(text, RECORD_SIZE as int, plain, kf8_trailer());
}

proof fn power_is_enough(n: int, p: int)
    requires
        1 <= p,
    ensures
        power_from(n, p) >= p,
        power_from(n, p) >= n,
    decreases
            if p < n {
                n - p
            } else {
                0
            },
{
    if p < n {
        power_is_enough(n, p * 2);
    }
}

proof fn piece_size_is_positive(total: int)
    requires
        total >= 0,
    ensures
        piece_size(total) > 0,
{
    power_is_enough(total / RECORD_LIMIT as int + 1, 1);
}

proof fn piece_count(text: Seq<u8>, size: int, limit: int)
    requires
        size > 0,
        limit >= 0,
        text.len() <= limit * size,
    ensures
        pieces(text, size).len() <= limit,
    decreases text.len(),
{
    if text.len() > size {
        assert(limit >= 1) by (nonlinear_arith)
            requires
                text.len() > 0,
                text.len() <= limit * size,
                limit >= 0,
        ;
        assert((limit - 1) * size == limit * size - size) by (nonlinear_arith);
        piece_count(text.skip(size), size, limit - 1);
    } else if text.len() > 0 {
        assert(limit >= 1) by (nonlinear_arith)
            requires
                text.len() > 0,
                text.len() <= limit * size,
                limit >= 0,
        ;
    }
}

/// However long the text, a 16-bit field can count its records in the older format.
pub proof fn mobi_records_are_countable(text: Seq<u8>, plain: bool)
    ensures
        mobi_records(text, plain).len() <= 65001,
{
    let total = text.len() as int;
    let size = piece_size(total);
    piece_size_is_positive(total);
    if total / RECORD_SIZE as int > RECORD_LIMIT {
        power_is_enough(total / RECORD_LIMIT as int + 1, 1);
        assert(total <= 65001 * size);
    } else {
        assert(total <= 65001 * size);
    }
    piece_count(text, size, 65001);
}

fn next_power(n: usize) -> (p: usize)
    requires
        n <= usize::MAX / 2,
    ensures
        p == power_from(n as int, 1),
{
    let mut p: usize = 1;
    while p < n
        invariant
            n <= usize::MAX / 2,
            1 <= p,
            power_from(n as int, 1) == power_from(n as int, p as int),
        decreases
                if p < n {
                    n - p
                } else {
                    0
                },
    {
        p *= 2;
    }
    p
}

fn size_of_pieces(total: usize) -> (size: usize)
    ensures
        size == piece_size(total as int),
        size > 0,
{
    proof {
        piece_size_is_positive(total as int);
    }
    if total / RECORD_SIZE > RECORD_LIMIT {
        next_power(total / RECORD_LIMIT + 1)
    } else {
        RECORD_SIZE
    }
}

fn cut(text: &[u8], size: usize, plain: bool, first: u8, second: u8) -> (r: Vec<Vec<u8>>)
    requires
        size > 0,
    ensures
        contents(r@) == text_records(pieces(text@, size as int), plain, seq![first, second]),
{
    let total: usize = text.len();
    let ghost trailer = seq![first, second];
    let ghost goal = text_records(pieces(text@, size as int), plain, trailer);
    let mut r: Vec<Vec<u8>> = Vec::new();
    let mut at: usize = 0;
    assert(text@.skip(0) =~= text@);
    assert(goal =~= contents(r@) + text_records(pieces(text@.skip(0), size as int), plain, trailer));
    while at < total
        invariant
            total == text@.len(),
            size > 0,
            at <= total,
            trailer == seq![first, second],
            goal == contents(r@) + text_records(
                pieces(text@.skip(at as int), size as int),
                plain,
                trailer,
            ),
        decreases total - at,
    {
        let end: usize = if total - at <= size {
            total
        } else {
            at + size
        };
        let piece = &text[at..end];
        let mut record: Vec<u8> = if plain {
            let mut v: Vec<u8> = Vec::new();
            v.extend_from_slice(piece);
            assert(v@ =~= piece@);
            v
        } else {
            compress(piece)
        };
        record.push(first);
        record.push(second);
        let ghost before = contents(r@);
        let ghost rest = text@.skip(at as int);
        assert(record@ =~= text_record(piece@, plain, trailer));
        let ghost bytes = record@;
        r.push(record);
        proof {
            let left = text@.skip(end as int);
            assert(left =~= rest.skip((end - at) as int));
            assert(piece@ =~= rest.take((end - at) as int));
            assert(pieces(seq![], size as int) =~= seq![]);
            if rest.len() <= size {
                assert(left =~= seq![]);
                assert(rest.take((end - at) as int) =~= rest);
            }
            assert(pieces(rest, size as int) =~= seq![piece@] + pieces(left, size as int));
            assert(contents(r@) =~= before.push(bytes));
            let tail = text_records(pieces(left, size as int), plain, trailer);
            assert(text_records(pieces(rest, size as int), plain, trailer) =~= seq![bytes] + tail);
            assert(before + (seq![bytes] + tail) =~= contents(r@) + tail);
        }
        at = end;
    }
    proof {
        assert(text@.skip(at as int) =~= seq![]);
        assert(contents(r@) =~= goal);
    }
    r
}

/// Compress text into PalmDOC records with trailing bytes, and tell its length.
pub fn compress_text(text_bytes: &[u8]) -> (r: (Vec<Vec<u8>>, usize))
    ensures
        contents(r.0@) == mobi_records(text_bytes@, false),
        r.1 == text_bytes@.len(),
{
    let size: usize = size_of_pieces(text_bytes.len());
    (cut(text_bytes, size, false, 0x00, 0x81), text_bytes.len())
}

/// Split text into uncompressed records with trailing bytes, and tell its length.
pub fn split_text_uncompressed(text_bytes: &[u8]) -> (r: (Vec<Vec<u8>>, usize))
    ensures
        contents(r.0@) == mobi_records(text_bytes@, true),
        r.1 == text_bytes@.len(),
{
    let size: usize = size_of_pieces(text_bytes.len());
    (cut(text_bytes, size, true, 0x00, 0x81), text_bytes.len())
}

/// Compress KF8 text into PalmDOC records with KF8 trailing bytes, and tell its
/// length.
pub fn compress_text_kf8(text_bytes: &[u8]) -> (r: (Vec<Vec<u8>>, usize))
    ensures
        contents(r.0@) == kf8_records(text_bytes@, false),
        r.1 == text_bytes@.len(),
{
    (cut(text_bytes, RECORD_SIZE, false, 0x81, 0x00), text_bytes.len())
}

/// Split KF8 text into uncompressed records with KF8 trailing bytes, and tell its
/// length.
pub fn split_text_uncompressed_kf8(text_bytes: &[u8]) -> (r: (Vec<Vec<u8>>, usize))
    ensures
        contents(r.0@) == kf8_records(text_bytes@, true),
        r.1 == text_bytes@.len(),
{
    (cut(text_bytes, RECORD_SIZE, true, 0x81, 0x00), text_bytes.len())
}

proof fn pieces_are_cut(text: Seq<u8>, size: int, i: int)
    requires
        size > 0,
        0 <= i < pieces(text, size).len(),
    ensures
        0 <= i * size < text.len(),
        pieces(text, size)[i] == text.subrange(
            i * size,
            if (i + 1) * size < text.len() {
                (i + 1) * size
            } else {
                text.len() as int
            },
        ),
    decreases text.len(),
{
    assert((i + 1) * size == i * size + size && i * size >= 0) by (nonlinear_arith)
        requires
            i >= 0,
            size > 0,
    ;
    if i == 0 {
        assert(0 * size == 0);
        assert(pieces(text, size)[0] =~= text.subrange(
            0,
            if size < text.len() {
                size
            } else {
                text.len() as int
            },
        ));
    } else {
        assert(text.len() > size);
        let rest = text.skip(size);
        pieces_are_cut(rest, size, i - 1);
        assert((i - 1) * size == i * size - size) by (nonlinear_arith);
        assert(pieces(text, size)[i] == pieces(rest, size)[i - 1]);
        assert(pieces(rest, size)[i - 1] =~= text.subrange(
            i * size,
            if (i + 1) * size < text.len() {
                (i + 1) * size
            } else {
                text.len() as int
            },
        ));
    }
}

proof fn pieces_are_enough(text: Seq<u8>, size: int)
    requires
        size > 0,
    ensures
        pieces(text, size).len() * size < text.len() + size,
        pieces(text, size).len() * size >= text.len(),
    decreases text.len(),
{
    let n = pieces(text, size).len() as int;
    if text.len() > size {
        let rest = text.skip(size);
        pieces_are_enough(rest, size);
        assert(n == pieces(rest, size).len() + 1);
        assert(n * size == (n - 1) * size + size) by (nonlinear_arith);
    } else if text.len() > 0 {
        assert(n == 1);
        assert(1 * size == size);
    } else {
        assert(0 * size == 0);
    }
}

proof fn record_restores(piece: Seq<u8>, plain: bool, trailer: Seq<u8>)
    requires
        trailer.len() == 2,
    ensures
        restored_record(text_record(piece, plain, trailer), plain) == piece,
        text_record(piece, plain, trailer).len() >= 2,
        text_record(piece, plain, trailer).skip(text_record(piece, plain, trailer).len() - 2)
            == trailer,
{
    let record = text_record(piece, plain, trailer);
    if plain {
        assert(record.take(record.len() - 2) =~= piece);
    } else {
        assert(record.take(record.len() - 2) =~= compressed(piece));
        compression_is_lossless(piece);
    }
    assert(record.skip(record.len() - 2) =~= trailer);
}

/// Every KF8 text record but the last holds 4096 bytes of the text, and two bytes stand behind them: an
/// index entry of no bytes, then no overlap.
pub proof fn kf8_records_hold_their_part(text: Seq<u8>, plain: bool, i: int)
    requires
        0 <= i < kf8_records(text, plain).len(),
    ensures
        ({
            let list = kf8_records(text, plain);
            let record = list[i];
            &&& list.len() == (text.len() + 4095) / 4096
            &&& i + 1 < list.len() ==> restored_record(record, plain) == text.subrange(
                i * 4096,
                i * 4096 + 4096,
            )
            &&& i + 1 == list.len() ==> restored_record(record, plain) == text.skip(i * 4096)
            &&& record[record.len() - 2] == 0x81
            &&& record[record.len() - 1] == 0
        }),
{
    let all = pieces(text, 4096);
    pieces_are_cut(text, 4096, i);
    pieces_are_enough(text, 4096);
    record_restores(all[i], plain, kf8_trailer());
    let record = kf8_records(text, plain)[i];
    assert(record == text_record(all[i], plain, kf8_trailer()));
    let t = record.skip(record.len() - 2);
    assert(t[0] == record[record.len() - 2] && t[1] == record[record.len() - 1]);
    if i + 1 == all.len() {
        assert(all[i] =~= text.skip(i * 4096));
    } else {
        pieces_are_cut(text, 4096, i + 1);
    }
}

/// A power of two.
pub open spec fn is_power_of_two(n: int) -> bool {
    exists|k: nat| n == #[trigger] vstd::arithmetic::power2::pow2(k)
}

proof fn power_is_least(n: int, p: int)
    requires
        1 <= p,
        is_power_of_two(p),
    ensures
        is_power_of_two(power_from(n, p)),
        power_from(n, p) == p || power_from(n, p) < 2 * n,
    decreases
            if p < n {
                n - p
            } else {
                0
            },
{
    if p < n {
        let k = choose|k: nat| p == #[trigger] vstd::arithmetic::power2::pow2(k);
        vstd::arithmetic::power2::lemma_pow2_unfold((k + 1) as nat);
        assert(p * 2 == vstd::arithmetic::power2::pow2((k + 1) as nat));
        power_is_least(n, p * 2);
    }
}

/// Every text record of the older format but the last holds equally much of the text: 4096 bytes where
/// the text has no more than 65000 times as many (and less than one record more), else the least power
/// of two of which 65000 are more than the text. Behind them stand two bytes: no overlap, then an index
/// entry of no bytes.
pub proof fn mobi_records_hold_their_part(text: Seq<u8>, plain: bool, i: int) -> (size: int)
    requires
        0 <= i < mobi_records(text, plain).len(),
    ensures
        ({
            let list = mobi_records(text, plain);
            let record = list[i];
            &&& size > 0
            &&& text.len() < 65001 * 4096 ==> size == 4096
            &&& text.len() >= 65001 * 4096 ==> is_power_of_two(size) && text.len() < 65000 * size
                && text.len() >= 65000 * (size / 2 - 1)
            &&& list.len() * size >= text.len()
            &&& list.len() * size < text.len() + size
            &&& i + 1 < list.len() ==> restored_record(record, plain) == text.subrange(
                i * size,
                (i + 1) * size,
            )
            &&& i + 1 == list.len() ==> restored_record(record, plain) == text.skip(i * size)
            &&& record[record.len() - 2] == 0
            &&& record[record.len() - 1] == 0x81
        }),
{
    let total = text.len() as int;
    let size = piece_size(total);
    piece_size_is_positive(total);
    if total / 4096 > 65000 {
        let n = total / 65000 + 1;
        vstd::arithmetic::power2::lemma2_to64();
        assert(1 == vstd::arithmetic::power2::pow2(0));
        power_is_enough(n, 1);
        power_is_least(n, 1);
    }
    let all = pieces(text, size);
    pieces_are_cut(text, size, i);
    pieces_are_enough(text, size);
    record_restores(all[i], plain, mobi_trailer());
    let record = mobi_records(text, plain)[i];
    assert(record == text_record(all[i], plain, mobi_trailer()));
    let t = record.skip(record.len() - 2);
    assert(t[0] == record[record.len() - 2] && t[1] == record[record.len() - 1]);
    if i + 1 == all.len() {
        assert((i + 1) * size >= text.len());
        assert(all[i] =~= text.skip(i * size));
    } else {
        pieces_are_cut(text, size, i + 1);
    }
    size
}

} // verus!
