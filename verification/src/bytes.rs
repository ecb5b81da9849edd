//! Fixed-width integers as bytes, and searching in byte strings.
use vstd::prelude::*;

verus! {

/// The two bytes of `v`, most significant first.
#[verifier::opaque]
pub open spec fn be16(v: u16) -> Seq<u8> {
    seq![(v / 0x100) as u8, (v % 0x100) as u8]
}

/// The four bytes of `v`, most significant first.
#[verifier::opaque]
pub open spec fn be32(v: u32) -> Seq<u8> {
    seq![
        (v / 0x100_0000) as u8,
        (v / 0x1_0000 % 0x100) as u8,
        (v / 0x100 % 0x100) as u8,
        (v % 0x100) as u8,
    ]
}

/// The four bytes of `v`, least significant first.
#[verifier::opaque]
pub open spec fn le32(v: u32) -> Seq<u8> {
    be32(v).reverse()
}

/// The number that the two bytes at `at` spell, most significant first.
pub open spec fn read_be16(s: Seq<u8>, at: int) -> int {
    s[at] * 0x100 + s[at + 1]
}

/// The number that the four bytes at `at` spell, most significant first.
pub open spec fn read_be32(s: Seq<u8>, at: int) -> int {
    s[at] * 0x100_0000 + s[at + 1] * 0x1_0000 + s[at + 2] * 0x100 + s[at + 3]
}

/// `n` zero bytes.
pub open spec fn zeros(n: nat) -> Seq<u8> {
    Seq::new(n, |i: int| 0u8)
}

/// What is left of a length when a 32-bit field keeps its low bits only.
#[verifier::opaque]
pub open spec fn low32(n: int) -> u32 {
    (n % 0x1_0000_0000) as u32
}

/// Fixed-width integers have fixed lengths.
pub broadcast proof fn be16_len(v: u16)
    ensures
        #[trigger] be16(v).len() == 2,
{
    reveal(be16);
}

/// Fixed-width integers have fixed lengths.
pub broadcast proof fn be32_len(v: u32)
    ensures
        #[trigger] be32(v).len() == 4,
{
    reveal(be32);
}

/// Fixed-width integers have fixed lengths.
pub broadcast proof fn le32_len(v: u32)
    ensures
        #[trigger] le32(v).len() == 4,
{
    reveal(le32);
    reveal(be32);
}

pub broadcast group group_lengths {
    be16_len,
    be32_len,
    le32_len,
}

/// A length under four gigabytes keeps its value.
pub proof fn low32_of_small(n: int)
    requires
        0 <= n <= u32::MAX,
    ensures
        low32(n) == n,
{
    reveal(low32);
}

/// Reading back a 32-bit field gives the number that was written.
pub proof fn be32_reads_back(v: u32, s: Seq<u8>, at: int)
    requires
        0 <= at,
        at + 4 <= s.len(),
        s.subrange(at, at + 4) == be32(v),
    ensures
        read_be32(s, at) == v,
{
    reveal(be32);
    assert forall|k: int| 0 <= k < 4 implies s[at + k] == be32(v)[k] by {
        assert(s.subrange(at, at + 4)[k] == s[at + k]);
    }
    assert(s[at + 0] == be32(v)[0]);
    assert(s[at + 1] == be32(v)[1]);
    assert(s[at + 2] == be32(v)[2]);
    assert(s[at + 3] == be32(v)[3]);
}

/// Reading back a 16-bit field gives the number that was written.
pub proof fn be16_reads_back(v: u16, s: Seq<u8>, at: int)
    requires
        0 <= at,
        at + 2 <= s.len(),
        s.subrange(at, at + 2) == be16(v),
    ensures
        read_be16(s, at) == v,
{
    reveal(be16);
    assert(s.subrange(at, at + 2)[0] == s[at]);
    assert(s.subrange(at, at + 2)[1] == s[at + 1]);
}

/// The low 32 bits of a length.
pub fn length32(n: usize) -> (r: u32)
    ensures
        r == low32(n as int),
{
    proof {
        reveal(low32);
    }
    let wide: u64 = n as u64;
    (wide % 0x1_0000_0000) as u32
}

/// The low 32 bits of a sum follow from those of its terms.
pub proof fn low32_of_sum(n: int, k: int)
    requires
        0 <= n,
        0 <= k,
    ensures
        low32(n + k) == (low32(n) + k) % 0x1_0000_0000,
{
    reveal(low32);
}

/// The low 32 bits of a length with `k` added.
pub fn length32_plus(n: usize, k: u32) -> (r: u32)
    ensures
        r == low32(n + k),
{
    let low: u64 = length32(n) as u64;
    proof {
        low32_of_sum(n as int, k as int);
    }
    ((low + k as u64) % 0x1_0000_0000) as u32
}

/// Append `v` as two bytes, most significant first.
pub fn push_be16(out: &mut Vec<u8>, v: u16)
    ensures
        final(out)@ == old(out)@ + be16(v),
{
    proof {
        reveal(be16);
    }
    out.push((v / 0x100) as u8);
    out.push((v % 0x100) as u8);
}

/// Append `v` as four bytes, most significant first.
pub fn push_be32(out: &mut Vec<u8>, v: u32)
    ensures
        final(out)@ == old(out)@ + be32(v),
{
    proof {
        reveal(be32);
    }
    out.push((v / 0x100_0000) as u8);
    out.push((v / 0x1_0000 % 0x100) as u8);
    out.push((v / 0x100 % 0x100) as u8);
    out.push((v % 0x100) as u8);
}

/// Append `v` as four bytes, least significant first.
pub fn push_le32(out: &mut Vec<u8>, v: u32)
    ensures
        final(out)@ == old(out)@ + le32(v),
{
    proof {
        reveal(le32);
        reveal(be32);
    }
    out.push((v % 0x100) as u8);
    out.push((v / 0x100 % 0x100) as u8);
    out.push((v / 0x1_0000 % 0x100) as u8);
    out.push((v / 0x100_0000) as u8);
}

/// Append `n` zero bytes.
pub fn push_zeros(out: &mut Vec<u8>, n: usize)
    ensures
        final(out)@ == old(out)@ + zeros(n as nat),
{
    let mut done: usize = 0;
    assert(out@ == old(out)@ + zeros(0));
    while done < n
        invariant
            done <= n,
            out@ == old(out)@ + zeros(done as nat),
        decreases n - done,
    {
        out.push(0u8);
        done += 1;
        assert(zeros(done as nat) == zeros((done - 1) as nat).push(0u8));
    }
}

/// Append all of `data`.
pub fn push_all(out: &mut Vec<u8>, data: &[u8])
    ensures
        final(out)@ == old(out)@ + data@,
{
    out.extend_from_slice(data);
    assert(out@ == old(out)@ + data@);
}

/// What is left of a number when a 16-bit field keeps its low bits only.
#[verifier::opaque]
pub open spec fn low16(n: int) -> u16 {
    (n % 0x1_0000) as u16
}

/// The low 16 bits of a number.
pub fn number16(n: usize) -> (r: u16)
    ensures
        r == low16(n as int),
{
    proof {
        reveal(low16);
    }
    (n % 0x1_0000) as u16
}

/// A number below 65536 keeps its value.
pub proof fn low16_of_small(n: int)
    requires
        0 <= n <= u16::MAX,
    ensures
        low16(n) == n,
{
    reveal(low16);
}

/// The low 16 bits of a sum follow from those of its terms.
pub proof fn low16_of_sum(n: int, k: int)
    requires
        0 <= n,
        0 <= k,
    ensures
        low16(n + k) == (low16(n) + low16(k)) % 0x1_0000,
{
    reveal(low16);
}

/// Byte strings one after the other.
pub open spec fn flat(list: Seq<Seq<u8>>) -> Seq<u8>
    decreases list.len(),
{
    if list.len() == 0 {
        seq![]
    } else {
        flat(list.drop_last()) + list.last()
    }
}

/// `needle` stands in `hay` at `at`.
pub open spec fn occurs_at(hay: Seq<u8>, needle: Seq<u8>, at: int) -> bool {
    0 <= at && at + needle.len() <= hay.len() && hay.subrange(at, at + needle.len()) == needle
}

fn matches_at(hay: &[u8], needle: &[u8], at: usize) -> (r: bool)
    requires
        at + needle@.len() <= hay@.len(),
    ensures
        r == occurs_at(hay@, needle@, at as int),
{
    let size: usize = hay.len();
    let mut k: usize = 0;
    while k < needle.len()
        invariant
            k <= needle@.len(),
            size == hay@.len(),
            at + needle@.len() <= hay@.len(),
            hay@.subrange(at as int, at + k) == needle@.subrange(0, k as int),
        decreases needle.len() - k,
    {
        if hay[at + k] != needle[k] {
            proof {
                assert(hay@.subrange(at as int, at + needle@.len())[k as int] == hay@[at + k]);
            }
            return false;
        }
        k += 1;
        proof {
            assert(hay@.subrange(at as int, at + k) == hay@.subrange(at as int, at + k - 1).push(
                hay@[at + k - 1],
            ));
            assert(needle@.subrange(0, k as int) == needle@.subrange(0, k - 1).push(
                needle@[k - 1],
            ));
        }
    }
    assert(needle@.subrange(0, needle@.len() as int) == needle@);
    true
}

/// The first place at or after `start` where `needle` stands in `hay`.
pub open spec fn first_from(hay: Seq<u8>, needle: Seq<u8>, start: int) -> Option<int>
    decreases hay.len() + 1 - start,
{
    if start < 0 || start + needle.len() > hay.len() {
        None
    } else if occurs_at(hay, needle, start) {
        Some(start)
    } else {
        first_from(hay, needle, start + 1)
    }
}

/// The last place before `end` where `needle` begins in `hay`.
pub open spec fn last_before(hay: Seq<u8>, needle: Seq<u8>, end: int) -> Option<int>
    decreases end,
{
    if end <= 0 {
        None
    } else if occurs_at(hay, needle, end - 1) {
        Some(end - 1)
    } else {
        last_before(hay, needle, end - 1)
    }
}

/// The last place where `needle` stands in `hay`.
pub open spec fn last_in(hay: Seq<u8>, needle: Seq<u8>) -> Option<int> {
    last_before(hay, needle, hay.len() - needle.len() + 1)
}

/// A position as a mathematical one.
pub open spec fn place(at: Option<usize>) -> Option<int> {
    match at {
        Some(p) => Some(p as int),
        None => None,
    }
}

/// What `first_from` finds is the first occurrence, and it finds one if there is one.
pub proof fn first_from_is_first(hay: Seq<u8>, needle: Seq<u8>, start: int)
    requires
        0 <= start,
    ensures
        match first_from(hay, needle, start) {
            Some(at) => {
                &&& start <= at
                &&& occurs_at(hay, needle, at)
                &&& forall|k: int| start <= k < at ==> !occurs_at(hay, needle, k)
            },
            None => forall|k: int| start <= k ==> !occurs_at(hay, needle, k),
        },
    decreases hay.len() + 1 - start,
{
    if start + needle.len() <= hay.len() && !occurs_at(hay, needle, start) {
        first_from_is_first(hay, needle, start + 1);
    }
}

/// What `last_before` finds is the last occurrence, and it finds one if there is one.
pub proof fn last_before_is_last(hay: Seq<u8>, needle: Seq<u8>, end: int)
    ensures
        match last_before(hay, needle, end) {
            Some(at) => {
                &&& at < end
                &&& occurs_at(hay, needle, at)
                &&& forall|k: int| at < k < end ==> !occurs_at(hay, needle, k)
            },
            None => forall|k: int| k < end ==> !occurs_at(hay, needle, k),
        },
    decreases end,
{
    if end > 0 && !occurs_at(hay, needle, end - 1) {
        last_before_is_last(hay, needle, end - 1);
    }
}

/// Find a byte sequence at or after a position. An empty one is found nowhere.
pub fn find_bytes_from(haystack: &[u8], needle: &[u8], start: usize) -> (r: Option<usize>)
    ensures
        place(r) == if needle@.len() == 0 {
            None
        } else {
            first_from(haystack@, needle@, start as int)
        },
        r is Some ==> start <= r->0 && r->0 + needle@.len() <= haystack@.len(),
{
    if needle.len() == 0 || needle.len() > haystack.len() {
        return None;
    }
    let last: usize = haystack.len() - needle.len();
    let mut at: usize = start;
    while at <= last
        invariant
            last < usize::MAX,
            start <= at,
            0 < needle@.len() <= haystack@.len(),
            last == haystack@.len() - needle@.len(),
            first_from(haystack@, needle@, start as int) == first_from(
                haystack@,
                needle@,
                at as int,
            ),
        decreases last + 1 - at,
    {
        if matches_at(haystack, needle, at) {
            return Some(at);
        }
        at += 1;
    }
    None
}

/// Find the first occurrence of a byte sequence.
pub fn find_bytes(haystack: &[u8], needle: &[u8]) -> (r: Option<usize>)
    requires
        needle@.len() > 0,
    ensures
        place(r) == first_from(haystack@, needle@, 0),
        r is Some ==> r->0 + needle@.len() <= haystack@.len(),
{
    find_bytes_from(haystack, needle, 0)
}

/// Find the last occurrence of a byte sequence.
pub fn rfind_bytes(haystack: &[u8], needle: &[u8]) -> (r: Option<usize>)
    requires
        needle@.len() > 0,
    ensures
        place(r) == last_in(haystack@, needle@),
        r is Some ==> r->0 + needle@.len() <= haystack@.len(),
{
    if needle.len() > haystack.len() {
        return None;
    }
    let mut after: usize = haystack.len() - needle.len() + 1;
    while after > 0
        invariant
            after + needle@.len() <= haystack@.len() + 1,
            last_in(haystack@, needle@) == last_before(haystack@, needle@, after as int),
        decreases after,
    {
        after -= 1;
        if matches_at(haystack, needle, after) {
            return Some(after);
        }
    }
    None
}

} // verus!
