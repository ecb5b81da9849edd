//! The PalmDB container: a header, a list of record offsets, and the records.
use vstd::prelude::*;

use crate::bytes::{
    be16, be16_reads_back, be32, be32_reads_back, flat, length32, low16,
    low16_of_small, low32, low32_of_small, low32_of_sum, number16, push_all, push_be16, push_be32,
    push_zeros, read_be16, read_be32, zeros,
};
use crate::records::contents;
use crate::text::{chars_of, push_chars, string_of, utf8};

verus! {

/// A title without brackets, its spaces as underscores.
pub open spec fn plain_name(title: Seq<char>) -> Seq<char>
    decreases title.len(),
{
    if title.len() == 0 {
        seq![]
    } else {
        let rest = plain_name(title.drop_last());
        let c = title.last();
        if c == '(' || c == ')' || c == '[' || c == ']' {
            rest
        } else if c == ' ' {
            rest.push('_')
        } else {
            rest.push(c)
        }
    }
}

/// A name of more than 27 bytes as its first twelve and last fourteen characters.
pub open spec fn short_name(name: Seq<char>) -> Seq<char> {
    if utf8(name).len() > 27 {
        let head = if name.len() < 12 {
            name
        } else {
            name.take(12)
        };
        let tail = if name.len() < 14 {
            name
        } else {
            name.skip(name.len() - 14)
        };
        head + "-"@ + tail
    } else {
        name
    }
}

/// The name field: at most 31 bytes of the name, zeros behind them.
pub open spec fn name_field(title: Seq<char>) -> Seq<u8> {
    let bytes = utf8(short_name(plain_name(title)));
    let n = if bytes.len() > 31 {
        31
    } else {
        bytes.len() as int
    };
    bytes.take(n) + zeros((32 - n) as nat)
}

fn plain_name_of(title: &str) -> (r: Vec<char>)
    ensures
        r@ == plain_name(title@),
{
    let chars = chars_of(title);
    let mut r: Vec<char> = Vec::new();
    let mut i: usize = 0;
    assert(chars@.take(0) =~= seq![]);
    while i < chars.len()
        invariant
            i <= chars@.len(),
            r@ == plain_name(chars@.take(i as int)),
        decreases chars.len() - i,
    {
        let c: char = chars[i];
        if c == '(' || c == ')' || c == '[' || c == ']' {
        } else if c == ' ' {
            r.push('_');
        } else {
            r.push(c);
        }
        i += 1;
        assert(chars@.take(i as int).drop_last() =~= chars@.take(i - 1));
    }
    assert(chars@.take(i as int) =~= chars@);
    r
}

/// Derive the database name from a title.
pub fn palmdb_name(title: &str) -> (r: String)
    ensures
        r@ == short_name(plain_name(title@)),
{
    let name = plain_name_of(title);
    let whole = string_of(&name);
    if whole.as_str().as_bytes().len() <= 27 {
        return whole;
    }
    let size: usize = name.len();
    let mut r = String::new();
    push_chars(&mut r, &name[0..if size < 12 { size } else { 12 }]);
    assert(r@ =~= if size < 12 {
        name@
    } else {
        name@.take(12)
    });
    r.append("-");
    push_chars(&mut r, &name[if size < 14 { 0 } else { size - 14 }..size]);
    assert(r@ =~= short_name(name@));
    r
}

fn push_name(out: &mut Vec<u8>, title: &str)
    ensures
        final(out)@ == old(out)@ + name_field(title@),
{
    let name = palmdb_name(title);
    let bytes = name.as_str().as_bytes();
    let n: usize = if bytes.len() > 31 {
        31
    } else {
        bytes.len()
    };
    push_all(out, &bytes[0..n]);
    push_zeros(out, 32 - n);
    assert(out@ =~= old(out)@ + name_field(title@));
}

/// Seconds since 1904-01-01 for a time in seconds since 1970-01-01.
pub open spec fn palm_time(unix_secs: int) -> u32 {
    low32(unix_secs + 2082844800)
}

/// Convert a Unix time to a Palm OS timestamp.
pub fn palm_timestamp(unix_secs: u64) -> (r: u32)
    ensures
        r == palm_time(unix_secs as int),
{
    proof {
        low32_of_sum(unix_secs as int, 2082844800);
        reveal(low32);
    }
    ((unix_secs % 0x1_0000_0000 + 2082844800) % 0x1_0000_0000) as u32
}

/// Where record `i` begins in a file of these records.
pub open spec fn record_offset(records: Seq<Seq<u8>>, i: int) -> int {
    80int + records.len() * 8 + flat(records.take(i)).len()
}

/// The entries of the record list, for the first `n` records.
pub open spec fn record_list(records: Seq<Seq<u8>>, n: nat) -> Seq<u8>
    decreases n,
{
    if n == 0 {
        seq![]
    } else {
        record_list(records, (n - 1) as nat) + be32(low32(record_offset(records, n - 1))) + be32(
            (((n - 1) * 2) % 0x100_0000) as u32,
        )
    }
}

/// The header of a database of `n` records.
pub open spec fn palmdb_header(title: Seq<char>, n: int, now: u32) -> Seq<u8> {
    name_field(title) + be16(0) + be16(0) + be32(now) + be32(now) + be32(0) + be32(0) + be32(0)
        + be32(0) + utf8("BOOK"@) + utf8("MOBI"@) + be32(low32(n * 2 - 1)) + be32(0) + be16(low16(n))
}

/// A database of these records.
pub open spec fn palmdb(title: Seq<char>, records: Seq<Seq<u8>>, now: u32) -> Seq<u8> {
    palmdb_header(title, records.len() as int, now) + record_list(records, records.len()) + zeros(2)
        + flat(records)
}

fn push_header(out: &mut Vec<u8>, title: &str, count: usize, now: u32)
    requires
        count > 0,
    ensures
        final(out)@ == old(out)@ + palmdb_header(title@, count as int, now),
{
    let before: u64 = length32(count - 1) as u64;
    proof {
        reveal(low32);
    }
    let seed: u32 = ((before * 2 + 1) % 0x1_0000_0000) as u32;
    assert(seed == low32(count * 2 - 1));
    let mut r: Vec<u8> = Vec::new();
    push_name(&mut r, title);
    assert(r@ =~= name_field(title@));
    push_be16(&mut r, 0);
    push_be16(&mut r, 0);
    push_be32(&mut r, now);
    push_be32(&mut r, now);
    push_be32(&mut r, 0);
    push_be32(&mut r, 0);
    push_be32(&mut r, 0);
    push_be32(&mut r, 0);
    push_all(&mut r, "BOOK".as_bytes());
    push_all(&mut r, "MOBI".as_bytes());
    push_be32(&mut r, seed);
    push_be32(&mut r, 0);
    push_be16(&mut r, number16(count));
    push_all(out, &r);
}

proof fn first_offset(n: int)
    requires
        0 <= n,
    ensures
        low32(80 + n * 8) == (low32(n) * 8 + 80) % 0x1_0000_0000,
{
    reveal(low32);
}

fn push_record_list(out: &mut Vec<u8>, records: &[Vec<u8>])
    ensures
        final(out)@ == old(out)@ + record_list(contents(records@), records@.len()),
{
    let ghost list = contents(records@);
    let low: u64 = length32(records.len()) as u64;
    let mut at: u32 = ((low * 8 + 80) % 0x1_0000_0000) as u32;
    proof {
        first_offset(list.len() as int);
        assert(list.take(0) =~= seq![]);
    }
    let mut i: usize = 0;
    assert(out@ =~= old(out)@ + record_list(list, 0));
    while i < records.len()
        invariant
            list == contents(records@),
            i <= records@.len(),
            at == low32(record_offset(list, i as int)),
            out@ == old(out)@ + record_list(list, i as nat),
        decreases records.len() - i,
    {
        push_be32(out, at);
        push_be32(out, ((i % 0x80_0000) * 2) as u32);
        proof {
            assert((i * 2) % 0x100_0000 == (i % 0x80_0000) * 2);
            let here = record_offset(list, i as int);
            let size = records@[i as int]@.len() as int;
            assert(list.take(i + 1).drop_last() =~= list.take(i as int));
            assert(record_offset(list, i + 1) == here + size);
            sum_of_low(here, size);
        }
        at = at.wrapping_add(length32(records[i].len()));
        i += 1;
        assert(out@ =~= old(out)@ + record_list(list, i as nat));
    }
}

proof fn sum_of_low(a: int, b: int)
    requires
        0 <= a,
        0 <= b,
    ensures
        low32(a + b) == (low32(a) + low32(b)) % 0x1_0000_0000,
{
    reveal(low32);
}

/// Build the complete database from a list of records; `now` is its time of creation,
/// as a Palm OS timestamp.
pub fn build_palmdb(title: &str, records: &[Vec<u8>], now: u32) -> (output: Vec<u8>)
    requires
        records@.len() > 0,
    ensures
        output@ == palmdb(title@, contents(records@), now),
{
    let ghost list = contents(records@);
    let mut output: Vec<u8> = Vec::new();
    push_header(&mut output, title, records.len(), now);
    assert(output@ =~= palmdb_header(title@, list.len() as int, now));
    push_record_list(&mut output, records);
    push_zeros(&mut output, 2);
    let ghost front = output@;
    let mut i: usize = 0;
    assert(output@ =~= front + flat(list.take(0)));
    while i < records.len()
        invariant
            list == contents(records@),
            i <= records@.len(),
            output@ == front + flat(list.take(i as int)),
        decreases records.len() - i,
    {
        push_all(&mut output, &records[i]);
        i += 1;
        assert(list.take(i as int).drop_last() =~= list.take(i - 1));
        assert(output@ =~= front + flat(list.take(i as int)));
    }
    assert(list.take(i as int) =~= list);
    output
}

proof fn record_list_length(records: Seq<Seq<u8>>, n: nat)
    ensures
        record_list(records, n).len() == n * 8,
    decreases n,
{
    broadcast use crate::bytes::group_lengths;

    if n > 0 {
        record_list_length(records, (n - 1) as nat);
    }
}

proof fn record_list_entry(records: Seq<Seq<u8>>, n: nat, i: int)
    requires
        0 <= i < n,
    ensures
        record_list(records, n).len() == n * 8,
        record_list(records, n).subrange(i * 8, i * 8 + 4) == be32(
            low32(record_offset(records, i)),
        ),
    decreases n,
{
    broadcast use crate::bytes::group_lengths;

    let m = (n - 1) as nat;
    record_list_length(records, m);
    record_list_length(records, n);
    let all = record_list(records, n);
    if i == m {
        assert(all.subrange(i * 8, i * 8 + 4) =~= be32(low32(record_offset(records, i))));
    } else {
        record_list_entry(records, m, i);
        assert(all.subrange(i * 8, i * 8 + 4) =~= record_list(records, m).subrange(
            i * 8,
            i * 8 + 4,
        ));
    }
}

proof fn header_layout(title: Seq<char>, n: int, now: u32)
    ensures
        ({
            let h = palmdb_header(title, n, now);
            &&& h.len() == 78
            &&& h[31] == 0
            &&& h.subrange(60, 64) == utf8("BOOK"@)
            &&& h.subrange(64, 68) == utf8("MOBI"@)
            &&& h.subrange(76, 78) == be16(low16(n))
        }),
{
    broadcast use crate::bytes::group_lengths;

    reveal_strlit("BOOK");
    reveal_strlit("MOBI");
    vstd::utf8::is_ascii_chars_encode_utf8("BOOK"@);
    vstd::utf8::is_ascii_chars_encode_utf8("MOBI"@);
    let h = palmdb_header(title, n, now);
    assert(name_field(title).len() == 32);
    assert(h[31] == name_field(title)[31]);
    assert(h.subrange(60, 64) =~= utf8("BOOK"@));
    assert(h.subrange(64, 68) =~= utf8("MOBI"@));
    assert(h.subrange(76, 78) =~= be16(low16(n)));
}

/// A reader of the database finds what was put into it: the type and creator, a name
/// that a zero ends, the number of records, and every record at the offset that the
/// list gives, up to the next one or the end of the file; as long as the counts fit
/// their fields.
pub proof fn palmdb_reads_back(title: Seq<char>, records: Seq<Seq<u8>>, now: u32, i: int)
    requires
        0 <= i < records.len() <= u16::MAX,
        palmdb(title, records, now).len() <= u32::MAX,
    ensures
        ({
            let file = palmdb(title, records, now);
            let at = read_be32(file, 78 + i * 8);
            let next = if i + 1 < records.len() {
                read_be32(file, 78 + (i + 1) * 8)
            } else {
                file.len() as int
            };
            &&& file[31] == 0
            &&& file.subrange(60, 64) == utf8("BOOK"@)
            &&& file.subrange(64, 68) == utf8("MOBI"@)
            &&& read_be16(file, 76) == records.len()
            &&& 0 <= at <= next <= file.len()
            &&& file.subrange(at, next) == records[i]
        }),
{
    let file = palmdb(title, records, now);
    let n = records.len();
    let h = palmdb_header(title, n as int, now);
    let list = record_list(records, n);
    header_layout(title, n as int, now);
    record_list_length(records, n);
    assert(file == h + list + zeros(2) + flat(records));
    assert(file.subrange(60, 64) =~= h.subrange(60, 64));
    assert(file.subrange(64, 68) =~= h.subrange(64, 68));
    assert(file.subrange(76, 78) =~= h.subrange(76, 78));
    low16_of_small(n as int);
    be16_reads_back(low16(n as int), file, 76);
    offset_reads_back(title, records, now, i);
    flat_parts(records, i);
    if i + 1 < n {
        offset_reads_back(title, records, now, i + 1);
    } else {
        assert(records.take(i + 1) =~= records);
    }
    let at = record_offset(records, i);
    let next = record_offset(records, i + 1);
    assert(file.subrange(at, next) =~= flat(records).subrange(
        flat(records.take(i)).len() as int,
        flat(records.take(i + 1)).len() as int,
    ));
}

proof fn flat_parts(list: Seq<Seq<u8>>, i: int)
    requires
        0 <= i < list.len(),
    ensures
        flat(list.take(i + 1)).len() == flat(list.take(i)).len() + list[i].len(),
        flat(list.take(i + 1)).len() <= flat(list).len(),
        flat(list).subrange(flat(list.take(i)).len() as int, flat(list.take(i + 1)).len() as int)
            == list[i],
    decreases list.len(),
{
    assert(list.take(i + 1).drop_last() =~= list.take(i));
    if i == list.len() - 1 {
        assert(list.take(i + 1) =~= list);
        assert(flat(list).subrange(
            flat(list.take(i)).len() as int,
            flat(list.take(i + 1)).len() as int,
        ) =~= list[i]);
    } else {
        let front = list.drop_last();
        flat_parts(front, i);
        assert(front.take(i) =~= list.take(i));
        assert(front.take(i + 1) =~= list.take(i + 1));
        assert(flat(list).subrange(
            flat(list.take(i)).len() as int,
            flat(list.take(i + 1)).len() as int,
        ) =~= flat(front).subrange(
            flat(list.take(i)).len() as int,
            flat(list.take(i + 1)).len() as int,
        ));
    }
}

proof fn offset_reads_back(title: Seq<char>, records: Seq<Seq<u8>>, now: u32, i: int)
    requires
        0 <= i < records.len(),
        palmdb(title, records, now).len() <= u32::MAX,
    ensures
        read_be32(palmdb(title, records, now), 78 + i * 8) == record_offset(records, i),
{
    let file = palmdb(title, records, now);
    let n = records.len();
    let list = record_list(records, n);
    header_layout(title, n as int, now);
    record_list_entry(records, n, i);
    flat_parts(records, i);
    assert(file.subrange(78 + i * 8, 78 + i * 8 + 4) =~= list.subrange(i * 8, i * 8 + 4));
    low32_of_small(record_offset(records, i));
    be32_reads_back(low32(record_offset(records, i)), file, 78 + i * 8);
}

/// A database is as long as its header, eight bytes for each record, two zero bytes and the
/// records.
pub proof fn palmdb_length(title: Seq<char>, records: Seq<Seq<u8>>, now: u32)
    ensures
        palmdb(title, records, now).len() == 80 + 8 * records.len() + flat(records).len(),
{
    record_list_length(records, records.len());
    header_layout(title, records.len() as int, now);
}

/// The database says when it was made, in its fields for creation and for change; it numbers its records
/// by even numbers from 0 on, and tells a number that is beyond them all.
pub proof fn databases_tell_time_and_numbers(
    title: Seq<char>,
    records: Seq<Seq<u8>>,
    now: u32,
    i: int,
)
    requires
        0 <= i < records.len() < 0x80_0000,
    ensures
        ({
            let file = palmdb(title, records, now);
            &&& read_be32(file, 36) == now
            &&& read_be32(file, 40) == now
            &&& read_be32(file, 78 + i * 8 + 4) == 2 * i
            &&& read_be32(file, 68) == 2 * records.len() - 1
        }),
{
    broadcast use crate::bytes::group_lengths;

    let file = palmdb(title, records, now);
    let n = records.len();
    let h = palmdb_header(title, n as int, now);
    let list = record_list(records, n);
    header_layout(title, n as int, now);
    record_list_length(records, n);
    number_in_list(records, n, i);
    assert(file == h + list + zeros(2) + flat(records));
    reveal_strlit("BOOK");
    reveal_strlit("MOBI");
    vstd::utf8::is_ascii_chars_encode_utf8("BOOK"@);
    vstd::utf8::is_ascii_chars_encode_utf8("MOBI"@);
    assert(name_field(title).len() == 32);
    assert(file.subrange(36, 40) =~= be32(now));
    be32_reads_back(now, file, 36);
    assert(file.subrange(40, 44) =~= be32(now));
    be32_reads_back(now, file, 40);
    assert(file.subrange(68, 72) =~= be32(low32(n * 2 - 1)));
    low32_of_small(n * 2 - 1);
    be32_reads_back(low32(n * 2 - 1), file, 68);
    assert(file.subrange(78 + i * 8 + 4, 78 + i * 8 + 8) =~= list.subrange(i * 8 + 4, i * 8 + 8));
    be32_reads_back((2 * i) as u32, file, 78 + i * 8 + 4);
}

proof fn number_in_list(records: Seq<Seq<u8>>, n: nat, i: int)
    requires
        0 <= i < n < 0x80_0000,
    ensures
        record_list(records, n).subrange(i * 8 + 4, i * 8 + 8) == be32((2 * i) as u32),
    decreases n,
{
    broadcast use crate::bytes::group_lengths;

    let m = (n - 1) as nat;
    record_list_length(records, m);
    record_list_length(records, n);
    let all = record_list(records, n);
    if i == m {
        assert((i * 2) % 0x100_0000 == 2 * i);
        assert(all.subrange(i * 8 + 4, i * 8 + 8) =~= be32((2 * i) as u32));
    } else {
        number_in_list(records, m, i);
        assert(all.subrange(i * 8 + 4, i * 8 + 8) =~= record_list(records, m).subrange(
            i * 8 + 4,
            i * 8 + 8,
        ));
    }
}

/// From the first of January 1904 to that of 1970 there are 66 years, 17 of them with a leap day; a Palm
/// OS timestamp counts the seconds of those days as well, modulo two to the power of 32.
pub proof fn palm_time_begins_in_1904(unix_secs: int)
    ensures
        palm_time(unix_secs) as int == (unix_secs + (66 * 365 + 17) * 24 * 60 * 60)
            % 0x1_0000_0000,
{
    reveal(low32);
}

/// The name of a database is made character by character: brackets are left out, a space becomes an
/// underscore, and all else stays.
pub proof fn names_follow_titles(a: Seq<char>, b: Seq<char>, c: char)
    ensures
        plain_name(a + b) == plain_name(a) + plain_name(b),
        "()[]"@.contains(c) ==> plain_name(seq![c]) == Seq::<char>::empty(),
        c == ' ' ==> plain_name(seq![c]) == seq!['_'],
        c != ' ' && !"()[]"@.contains(c) ==> plain_name(seq![c]) == seq![c],
    decreases b.len(),
{
    reveal_strlit("()[]");
    let brackets = "()[]"@;
    assert(brackets[0] == '(' && brackets[1] == ')' && brackets[2] == '[' && brackets[3] == ']');
    assert(seq![c].drop_last() =~= seq![]);
    assert(plain_name(seq![]) =~= seq![]);
    if b.len() == 0 {
        assert(a + b =~= a);
        assert(plain_name(b) =~= seq![]);
        assert(plain_name(a) + plain_name(b) =~= plain_name(a));
    } else {
        assert((a + b).drop_last() =~= a + b.drop_last());
        names_follow_titles(a, b.drop_last(), c);
        assert(plain_name(a + b) =~= plain_name(a) + plain_name(b));
    }
}

/// The name field begins with the name of the title where that has up to 27 bytes, and a zero ends it.
/// Of a longer name of plain characters it has the first 12 and the last 14, with a hyphen between them.
pub proof fn name_fields_hold_the_name(title: Seq<char>)
    ensures
        ({
            let name = plain_name(title);
            let field = name_field(title);
            &&& field.len() == 32
            &&& utf8(name).len() <= 27 ==> field.take(utf8(name).len() as int) == utf8(name)
                && field[utf8(name).len() as int] == 0
            &&& vstd::utf8::is_ascii_chars(name) && name.len() > 27 ==> field.take(12) == utf8(name).take(
                12,
            ) && field[12] == '-' as u8 && field.subrange(13, 27) == utf8(name).skip(
                name.len() - 14,
            ) && field[27] == 0
        }),
{
    let name = plain_name(title);
    let field = name_field(title);
    let bytes = utf8(short_name(name));
    if utf8(name).len() <= 27 {
        assert(field.take(utf8(name).len() as int) =~= utf8(name));
    }
    if vstd::utf8::is_ascii_chars(name) && name.len() > 27 {
        vstd::utf8::is_ascii_chars_encode_utf8(name);
        let short = short_name(name);
        reveal_strlit("-");
        assert(short =~= name.take(12) + seq!['-'] + name.skip(name.len() - 14));
        assert(vstd::utf8::is_ascii_chars(short)) by {
            assert forall|k: int| 0 <= k < short.len() implies '\0' <= #[trigger] short[k] <= '\u{7f}' by {
                if k < 12 {
                    assert(short[k] == name[k]);
                } else if k > 12 {
                    assert(short[k] == name[k - 13 + name.len() - 14]);
                }
            }
        }
        vstd::utf8::is_ascii_chars_encode_utf8(short);
        assert(bytes.len() == 27);
        assert(field.take(12) =~= utf8(name).take(12));
        assert(field[12] == bytes[12]);
        assert(field.subrange(13, 27) =~= utf8(name).skip(name.len() - 14));
    }
}

} // verus!
