//! PalmDOC compression, the LZ77 variant of MOBI text records.
//!
//! A compressed stream is a run of tokens:
//! - `0x00` and `0x09..=0x7F` stand for themselves,
//! - `0x01..=0x08` announces that many bytes to be copied as they are,
//! - `0x80..=0xBF` starts a two-byte reference to earlier output, at most 2047
//!   bytes back and 3 to 10 bytes long,
//! - `0xC0..=0xFF` is a space followed by the character with the high bit cleared.
use vstd::prelude::*;

verus! {

pub const HASH_SIZE: usize = 0x8000;

pub const HASH_MASK: usize = 0x7FFF;

pub const MAX_CHAIN: usize = 64;

pub const MAX_DIST: usize = 2047;

pub const MAX_MATCH: usize = 10;

pub const MIN_MATCH: usize = 3;

/// The bucket of a three-byte string.
pub open spec fn bucket(a: u8, b: u8, c: u8) -> usize {
    (((a as usize) << 10usize) ^ ((b as usize) << 5usize) ^ (c as usize)) & HASH_MASK
}

/// The bucket of the three bytes at `p`.
pub open spec fn bucket_at(data: Seq<u8>, p: int) -> usize {
    bucket(data[p], data[p + 1], data[p + 2])
}

/// How many bytes from `i` on, of at most `MAX_MATCH`, repeat those from `p` on,
/// given that the first `n` do.
pub open spec fn match_length_from(data: Seq<u8>, p: int, i: int, n: int) -> int
    decreases MAX_MATCH - n,
{
    if n < MAX_MATCH && i + n < data.len() && data[i + n] == data[p + n] {
        match_length_from(data, p, i, n + 1)
    } else {
        n
    }
}

/// How many bytes from `i` on, of at most `MAX_MATCH`, repeat those from `p` on.
pub open spec fn match_length(data: Seq<u8>, p: int, i: int) -> int {
    match_length_from(data, p, i, 0)
}

/// A reference to earlier output: how far back, and how many bytes.
pub struct Match {
    pub dist: int,
    pub len: int,
}

/// The longer of the best match so far and the one at `p`; the earlier found wins
/// a tie, and matches under `MIN_MATCH` do not count.
pub open spec fn better(data: Seq<u8>, i: int, best: Match, p: int) -> Match {
    let n = match_length(data, p, i);
    if n >= MIN_MATCH && n > best.len {
        Match { dist: i - p, len: n }
    } else {
        best
    }
}

/// The best match for position `i` among the recorded positions `seen`.
///
/// The search goes from the newest recorded position to the oldest, looks at
/// those in the bucket of `i` alone and at no more than `budget` of them, and
/// ends at the first that is out of the window or does not fit a signed 32-bit
/// chain entry.
pub open spec fn search(data: Seq<u8>, seen: Seq<int>, i: int, budget: nat, best: Match) -> Match
    decreases seen.len(),
{
    if seen.len() == 0 || budget == 0 {
        best
    } else {
        let p = seen.last();
        if bucket_at(data, p) != bucket_at(data, i) {
            search(data, seen.drop_last(), i, budget, best)
        } else if p > i32::MAX || i - p > MAX_DIST {
            best
        } else {
            search(data, seen.drop_last(), i, (budget - 1) as nat, better(data, i, best, p))
        }
    }
}

/// The match that the compressor takes at `i`; its length is zero if there is none.
pub open spec fn match_at(data: Seq<u8>, seen: Seq<int>, i: int) -> Match {
    if i >= 1 && i + 2 < data.len() {
        search(data, seen, i, MAX_CHAIN as nat, Match { dist: 0, len: 0 })
    } else {
        Match { dist: 0, len: 0 }
    }
}

/// The recorded positions once those from `from` up to `to` have been added.
pub open spec fn record(seen: Seq<int>, from: int, to: int) -> Seq<int>
    decreases to - from,
{
    if from < to {
        record(seen.push(from), from + 1, to)
    } else {
        seen
    }
}

/// Bytes that a stream cannot hold as themselves.
pub open spec fn needs_escape(b: u8) -> bool {
    b <= 0x08 || b >= 0x80
}

/// How many bytes from `i + n` on need escaping, counting up to eight in all.
pub open spec fn escape_run_from(data: Seq<u8>, i: int, n: int) -> int
    decreases 8 - n,
{
    if n < 8 && i + n < data.len() && needs_escape(data[i + n]) {
        escape_run_from(data, i, n + 1)
    } else {
        n
    }
}

/// The two bytes of a reference.
pub open spec fn reference(m: Match) -> Seq<u8> {
    let word = m.dist * 8 + (m.len - MIN_MATCH);
    seq![(0x80 + word / 0x100) as u8, (word % 0x100) as u8]
}

/// The stream for `data` from position `i` on.
pub open spec fn compressed_from(data: Seq<u8>, i: int, seen: Seq<int>) -> Seq<u8>
    decreases
            if i < data.len() {
                data.len() - i
            } else {
                0
            },
{
    if i < 0 || i >= data.len() {
        seq![]
    } else {
        let m = match_at(data, seen, i);
        let seen1 = if i + 2 < data.len() {
            seen.push(i)
        } else {
            seen
        };
        if m.len >= MIN_MATCH {
            let end = i + m.len;
            let limit = if end < data.len() - 2 {
                end
            } else {
                data.len() - 2
            };
            reference(m) + compressed_from(data, end, record(seen1, i + 1, limit))
        } else if data[i] == 0 {
            seq![0u8] + compressed_from(data, i + 1, seen1)
        } else if data[i] == 0x20 && i + 1 < data.len() && 0x40 <= data[i + 1] <= 0x7F {
            seq![(data[i + 1] + 0x80) as u8] + compressed_from(data, i + 2, seen1)
        } else if needs_escape(data[i]) {
            let n = escape_run_from(data, i, 1);
            if n >= 1 {
                seq![n as u8] + data.subrange(i, i + n) + compressed_from(data, i + n, seen1)
            } else {
                seq![]
            }
        } else {
            seq![data[i]] + compressed_from(data, i + 1, seen1)
        }
    }
}

/// The PalmDOC stream for `data`.
pub open spec fn compressed(data: Seq<u8>) -> Seq<u8> {
    compressed_from(data, 0, seq![])
}

/// `out` followed by `n` bytes, each a copy of the one `dist` before it.
pub open spec fn copied_back(out: Seq<u8>, dist: int, n: int) -> Seq<u8>
    decreases n,
{
    if n <= 0 {
        out
    } else {
        copied_back(out.push(out[out.len() - dist]), dist, n - 1)
    }
}

/// `out` followed by what the stream `s` stands for.
pub open spec fn unpacked(s: Seq<u8>, out: Seq<u8>) -> Seq<u8>
    decreases s.len(),
{
    if s.len() == 0 {
        out
    } else if 1 <= s[0] <= 8 {
        let n = s[0] as int;
        if n < s.len() {
            unpacked(s.skip(1 + n), out + s.subrange(1, 1 + n))
        } else {
            out + s.skip(1)
        }
    } else if s[0] < 0x80 {
        unpacked(s.skip(1), out.push(s[0]))
    } else if s[0] >= 0xC0 {
        unpacked(s.skip(1), out.push(0x20).push((s[0] - 0x80) as u8))
    } else if s.len() < 2 {
        out
    } else {
        let word = (s[0] - 0x80) * 0x100 + s[1];
        unpacked(s.skip(2), copied_back(out, word / 8, word % 8 + MIN_MATCH))
    }
}

/// What the stream `s` stands for.
pub open spec fn decompressed(s: Seq<u8>) -> Seq<u8> {
    unpacked(s, seq![])
}

/// The positions recorded before `i` is reached: ascending, and each with three
/// bytes to go by.
pub open spec fn recorded_before(data: Seq<u8>, seen: Seq<int>, i: int) -> bool {
    &&& forall|k: int| 0 <= k < seen.len() ==> 0 <= #[trigger] seen[k] < i && seen[k] + 2 < data.len()
    &&& forall|k: int, l: int| 0 <= k < l < seen.len() ==> seen[k] < seen[l]
}

/// `m` repeats, at `i`, what stands `m.dist` bytes before.
pub open spec fn valid_match(data: Seq<u8>, i: int, m: Match) -> bool {
    &&& 1 <= m.dist <= MAX_DIST
    &&& m.dist <= i
    &&& MIN_MATCH <= m.len <= MAX_MATCH
    &&& i + m.len <= data.len()
    &&& forall|k: int| 0 <= k < m.len ==> #[trigger] data[i + k] == data[i - m.dist + k]
}

proof fn match_length_repeats(data: Seq<u8>, p: int, i: int, n: int)
    requires
        0 <= p < i,
        0 <= n <= MAX_MATCH,
        i + n <= data.len(),
        forall|k: int| 0 <= k < n ==> #[trigger] data[i + k] == data[p + k],
    ensures
        n <= match_length_from(data, p, i, n) <= MAX_MATCH,
        i + match_length_from(data, p, i, n) <= data.len(),
        forall|k: int|
            0 <= k < match_length_from(data, p, i, n) ==> #[trigger] data[i + k] == data[p + k],
    decreases MAX_MATCH - n,
{
    if n < MAX_MATCH && i + n < data.len() && data[i + n] == data[p + n] {
        match_length_repeats(data, p, i, n + 1);
    }
}

/// What the search finds is a match indeed, within the limits of a reference.
proof fn search_finds_match(data: Seq<u8>, seen: Seq<int>, i: int, budget: nat, best: Match)
    requires
        0 <= i <= data.len(),
        recorded_before(data, seen, i),
        best.len == 0 || valid_match(data, i, best),
    ensures
        search(data, seen, i, budget, best).len == 0 || valid_match(
            data,
            i,
            search(data, seen, i, budget, best),
        ),
    decreases seen.len(),
{
    if seen.len() > 0 && budget > 0 {
        let p = seen.last();
        assert(0 <= seen[seen.len() - 1] < i);
        let rest = seen.drop_last();
        assert(recorded_before(data, rest, i)) by {
            assert forall|k: int| 0 <= k < rest.len() implies 0 <= #[trigger] rest[k] < i && rest[k]
                + 2 < data.len() by {
                assert(rest[k] == seen[k]);
            }
        }
        if bucket_at(data, p) != bucket_at(data, i) {
            search_finds_match(data, rest, i, budget, best);
        } else if p > i32::MAX || i - p > MAX_DIST {
        } else {
            match_length_repeats(data, p, i, 0);
            let b = better(data, i, best, p);
            assert(b.len == 0 || valid_match(data, i, b));
            search_finds_match(data, rest, i, (budget - 1) as nat, b);
        }
    }
}

proof fn copied_back_repeats(data: Seq<u8>, i: int, dist: int, n: int)
    requires
        1 <= dist <= i,
        0 <= n,
        i + n <= data.len(),
        forall|k: int| 0 <= k < n ==> #[trigger] data[i + k] == data[i - dist + k],
    ensures
        copied_back(data.take(i), dist, n) == data.take(i + n),
    decreases n,
{
    if n > 0 {
        assert(data[i + 0] == data[i - dist + 0]);
        assert(data.take(i).push(data.take(i)[i - dist]) =~= data.take(i + 1));
        assert forall|k: int| 0 <= k < n - 1 implies #[trigger] data[i + 1 + k] == data[i + 1 - dist
            + k] by {
            assert(data[i + (k + 1)] == data[i - dist + (k + 1)]);
        }
        copied_back_repeats(data, i + 1, dist, n - 1);
    }
}

proof fn escape_run_bounds(data: Seq<u8>, i: int, n: int)
    requires
        0 <= n <= 8,
        i + n <= data.len(),
    ensures
        n <= escape_run_from(data, i, n) <= 8,
        i + escape_run_from(data, i, n) <= data.len(),
    decreases 8 - n,
{
    if n < 8 && i + n < data.len() && needs_escape(data[i + n]) {
        escape_run_bounds(data, i, n + 1);
    }
}

proof fn recording_keeps_order(data: Seq<u8>, seen: Seq<int>, p: int)
    requires
        0 <= p,
        p + 2 < data.len(),
        recorded_before(data, seen, p),
    ensures
        recorded_before(data, seen.push(p), p + 1),
{
    let next = seen.push(p);
    assert forall|k: int| 0 <= k < next.len() implies 0 <= #[trigger] next[k] < p + 1 && next[k] + 2
        < data.len() by {
        if k < seen.len() {
            assert(next[k] == seen[k]);
        }
    }
}

proof fn record_keeps_order(data: Seq<u8>, seen: Seq<int>, from: int, to: int)
    requires
        0 <= from,
        recorded_before(data, seen, from),
        to <= data.len() - 2,
    ensures
        recorded_before(
            data,
            record(seen, from, to),
            if from < to {
                to
            } else {
                from
            },
        ),
    decreases to - from,
{
    if from < to {
        recording_keeps_order(data, seen, from);
        record_keeps_order(data, seen.push(from), from + 1, to);
    }
}

proof fn unpacks_from(data: Seq<u8>, i: int, seen: Seq<int>)
    requires
        0 <= i <= data.len(),
        recorded_before(data, seen, i),
    ensures
        unpacked(compressed_from(data, i, seen), data.take(i)) == data,
    decreases data.len() - i,
{
    let s = compressed_from(data, i, seen);
    let out = data.take(i);
    if i == data.len() {
        assert(out =~= data);
    } else {
        let m = match_at(data, seen, i);
        search_finds_match(data, seen, i, MAX_CHAIN as nat, Match { dist: 0, len: 0 });
        let seen1 = if i + 2 < data.len() {
            seen.push(i)
        } else {
            seen
        };
        if i + 2 < data.len() {
            recording_keeps_order(data, seen, i);
        }
        assert(recorded_before(data, seen1, i + 1));
        if m.len >= MIN_MATCH {
            let end = i + m.len;
            let limit = if end < data.len() - 2 {
                end
            } else {
                data.len() - 2
            };
            let seen2 = record(seen1, i + 1, limit);
            let rest = compressed_from(data, end, seen2);
            record_keeps_order(data, seen1, i + 1, limit);
            assert(recorded_before(data, seen2, end));
            unpacks_from(data, end, seen2);
            let word = m.dist * 8 + (m.len - MIN_MATCH);
            assert(s == reference(m) + rest);
            assert(s.skip(2) =~= rest);
            assert(0 <= word < 0x4000);
            assert(s[0] == 0x80 + word / 0x100);
            assert((s[0] - 0x80) * 0x100 + s[1] == word);
            assert(word / 8 == m.dist);
            assert(word % 8 + MIN_MATCH == m.len);
            copied_back_repeats(data, i, m.dist, m.len);
        } else if data[i] == 0 {
            unpacks_from(data, i + 1, seen1);
            assert(s.skip(1) =~= compressed_from(data, i + 1, seen1));
            assert(out.push(0u8) =~= data.take(i + 1));
        } else if data[i] == 0x20 && i + 1 < data.len() && 0x40 <= data[i + 1] <= 0x7F {
            assert(recorded_before(data, seen1, i + 2));
            unpacks_from(data, i + 2, seen1);
            assert(s.skip(1) =~= compressed_from(data, i + 2, seen1));
            assert(out.push(0x20).push(data[i + 1]) =~= data.take(i + 2));
        } else if needs_escape(data[i]) {
            escape_run_bounds(data, i, 1);
            let n = escape_run_from(data, i, 1);
            assert(recorded_before(data, seen1, i + n));
            unpacks_from(data, i + n, seen1);
            let rest = compressed_from(data, i + n, seen1);
            assert(s == seq![n as u8] + data.subrange(i, i + n) + rest);
            assert(s.skip(1 + n) =~= rest);
            assert(s.subrange(1, 1 + n) =~= data.subrange(i, i + n));
            assert(out + data.subrange(i, i + n) =~= data.take(i + n));
        } else {
            unpacks_from(data, i + 1, seen1);
            assert(s.skip(1) =~= compressed_from(data, i + 1, seen1));
            assert(out.push(data[i]) =~= data.take(i + 1));
        }
    }
}

/// The newest recorded position in bucket `h`, or -1.
pub open spec fn newest(data: Seq<u8>, seen: Seq<int>, h: usize) -> int
    decreases seen.len(),
{
    if seen.len() == 0 {
        -1
    } else if bucket_at(data, seen.last()) == h {
        seen.last()
    } else {
        newest(data, seen.drop_last(), h)
    }
}

/// A position as the hash chains hold it.
pub open spec fn entry(p: int) -> i32 {
    if p < 0 {
        -1i32
    } else {
        #[verifier::truncate]
        ((p as usize) as i32)
    }
}

/// The hash chains: `head` leads to the newest position of each bucket, and `prev`,
/// a ring over the window, from a position to the one before it in its bucket.
pub open spec fn chained(data: Seq<u8>, seen: Seq<int>, head: Seq<i32>, prev: Seq<i32>) -> bool {
    &&& head.len() == HASH_SIZE
    &&& prev.len() == MAX_DIST + 1
    &&& forall|h: usize| h < HASH_SIZE ==> #[trigger] head[h as int] == entry(newest(data, seen, h))
    &&& forall|k: int|
        0 <= k < seen.len() && seen[k] + MAX_DIST + 1 > seen.last() ==> prev[#[trigger] seen[k] % (
        MAX_DIST + 1)] == entry(newest(data, seen.take(k), bucket_at(data, seen[k])))
}

proof fn bucket_is_small(a: u8, b: u8, c: u8)
    ensures
        bucket(a, b, c) < HASH_SIZE,
{
    let x = ((a as usize) << 10usize) ^ ((b as usize) << 5usize) ^ (c as usize);
    assert(x & 0x7FFF < 0x8000) by (bit_vector);
}

proof fn entry_tells_far_positions(p: usize)
    ensures
        p <= i32::MAX ==> entry(p as int) == p,
        p > i32::MAX && entry(p as int) >= 0 ==> p - entry(p as int) > MAX_DIST,
{
    assert(p <= 0x7FFF_FFFF ==> (p as i32) == p) by (bit_vector);
    assert(p > 0x7FFF_FFFF && (p as i32) >= 0 ==> p - (p as i32) > 2047) by (bit_vector);
}

/// Where `newest` stands among the recorded positions.
proof fn newest_is_recorded(data: Seq<u8>, seen: Seq<int>, i: int, h: usize) -> (k: int)
    requires
        recorded_before(data, seen, i),
    ensures
        -1 <= k < seen.len(),
        k == -1 ==> newest(data, seen, h) == -1,
        k >= 0 ==> newest(data, seen, h) == seen[k] && bucket_at(data, seen[k]) == h,
        forall|j: int| k < j < seen.len() ==> bucket_at(data, #[trigger] seen[j]) != h,
    decreases seen.len(),
{
    if seen.len() == 0 {
        -1
    } else if bucket_at(data, seen.last()) == h {
        seen.len() - 1
    } else {
        let rest = seen.drop_last();
        assert(recorded_before(data, rest, i)) by {
            assert forall|k: int| 0 <= k < rest.len() implies 0 <= #[trigger] rest[k] < i && rest[k]
                + 2 < data.len() by {
                assert(rest[k] == seen[k]);
            }
        }
        let k = newest_is_recorded(data, rest, i, h);
        assert forall|j: int| k < j < seen.len() implies bucket_at(data, #[trigger] seen[j]) != h by {
            if j < seen.len() - 1 {
                assert(rest[j] == seen[j]);
            }
        }
        k
    }
}

/// The search passes over recorded positions of other buckets.
proof fn search_skips(data: Seq<u8>, seen: Seq<int>, i: int, budget: nat, best: Match, k: int)
    requires
        -1 <= k < seen.len(),
        forall|j: int|
            k < j < seen.len() ==> bucket_at(data, #[trigger] seen[j]) != bucket_at(data, i),
    ensures
        search(data, seen, i, budget, best) == search(data, seen.take(k + 1), i, budget, best),
    decreases seen.len(),
{
    if k == seen.len() - 1 {
        assert(seen.take(k + 1) =~= seen);
    } else {
        let rest = seen.drop_last();
        assert(bucket_at(data, seen[seen.len() - 1]) != bucket_at(data, i));
        assert forall|j: int| k < j < rest.len() implies bucket_at(data, #[trigger] rest[j])
            != bucket_at(data, i) by {
            assert(rest[j] == seen[j]);
        }
        search_skips(data, rest, i, budget, best, k);
        assert(rest.take(k + 1) =~= seen.take(k + 1));
        if budget == 0 {
            assert(search(data, seen.take(k + 1), i, budget, best) == best);
        }
    }
}

/// The search ends where the bucket has no further position that a chain entry
/// within the window can name.
proof fn search_ends(data: Seq<u8>, seen: Seq<int>, i: int, budget: nat, best: Match)
    requires
        0 <= i < data.len() <= usize::MAX,
        recorded_before(data, seen, i),
        ({
            let e = entry(newest(data, seen, bucket_at(data, i)));
            budget == 0 || e < 0 || i - e > MAX_DIST
        }),
    ensures
        search(data, seen, i, budget, best) == best,
{
    let k = newest_is_recorded(data, seen, i, bucket_at(data, i));
    search_skips(data, seen, i, budget, best, k);
    if k >= 0 {
        assert(0 <= seen[k] < i);
        entry_tells_far_positions(seen[k] as usize);
        assert(seen.take(k + 1).last() == seen[k]);
    }
}

/// The search goes on behind the newest position of the bucket.
proof fn search_steps(data: Seq<u8>, seen: Seq<int>, i: int, budget: nat, best: Match, k: int)
    requires
        0 <= k < seen.len(),
        budget > 0,
        bucket_at(data, seen[k]) == bucket_at(data, i),
        forall|j: int|
            k < j < seen.len() ==> bucket_at(data, #[trigger] seen[j]) != bucket_at(data, i),
        seen[k] <= i32::MAX,
        i - seen[k] <= MAX_DIST,
    ensures
        search(data, seen, i, budget, best) == search(
            data,
            seen.take(k),
            i,
            (budget - 1) as nat,
            better(data, i, best, seen[k]),
        ),
{
    search_skips(data, seen, i, budget, best, k);
    assert(seen.take(k + 1).last() == seen[k]);
    assert(seen.take(k + 1).drop_last() =~= seen.take(k));
}

/// No match is longer than the longest there can be.
proof fn search_keeps_longest(data: Seq<u8>, seen: Seq<int>, i: int, budget: nat, best: Match)
    requires
        0 <= i < data.len(),
        recorded_before(data, seen, i),
        best.len == MAX_MATCH,
    ensures
        search(data, seen, i, budget, best) == best,
    decreases seen.len(),
{
    if seen.len() > 0 && budget > 0 {
        let p = seen[seen.len() - 1];
        let rest = seen.drop_last();
        assert(recorded_before(data, rest, i)) by {
            assert forall|k: int| 0 <= k < rest.len() implies 0 <= #[trigger] rest[k] < i && rest[k]
                + 2 < data.len() by {
                assert(rest[k] == seen[k]);
            }
        }
        match_length_repeats(data, p, i, 0);
        search_keeps_longest(data, rest, i, budget, best);
        search_keeps_longest(data, rest, i, (budget - 1) as nat, best);
    }
}

/// A run that repeats what stands `i - p` before it is periodic.
proof fn repeat_is_periodic(data: Seq<u8>, p: int, i: int, n: int)
    requires
        0 <= p < i,
        0 <= n,
        i + n < data.len(),
        forall|k: int| 0 <= k < n ==> #[trigger] data[i + k] == data[p + k],
    ensures
        data[p + n] == data[p + n % (i - p)],
        0 <= n % (i - p) <= n,
    decreases n,
{
    let d = i - p;
    if n < d {
        vstd::arithmetic::div_mod::lemma_small_mod(n as nat, d as nat);
    } else {
        assert(data[i + (n - d)] == data[p + (n - d)]);
        repeat_is_periodic(data, p, i, n - d);
        vstd::arithmetic::div_mod::lemma_mod_sub_multiples_vanish(n, d);
    }
}

/// How many bytes from `i` on, of at most `MAX_MATCH`, repeat those from `cand` on.
fn repeat_length(data: &[u8], cand: usize, i: usize) -> (n: usize)
    requires
        cand < i < data@.len(),
    ensures
        n == match_length(data@, cand as int, i as int),
{
    let length: usize = data.len();
    let dist: usize = i - cand;
    let mut n: usize = 0;
    while n < MAX_MATCH && n < length - i && data[i + n] == data[cand + n % dist]
        invariant
            length == data@.len(),
            cand < i < length,
            dist == i - cand,
            n <= MAX_MATCH,
            i + n <= length,
            forall|k: int| 0 <= k < n ==> #[trigger] data@[i + k] == data@[cand + k],
            match_length(data@, cand as int, i as int) == match_length_from(
                data@,
                cand as int,
                i as int,
                n as int,
            ),
        decreases MAX_MATCH - n,
    {
        proof {
            repeat_is_periodic(data@, cand as int, i as int, n as int);
        }
        n += 1;
    }
    proof {
        if n < MAX_MATCH && i + n < length {
            repeat_is_periodic(data@, cand as int, i as int, n as int);
        }
    }
    n
}

fn hash3(a: u8, b: u8, c: u8) -> (h: usize)
    ensures
        h == bucket(a, b, c),
        h < HASH_SIZE,
{
    proof {
        bucket_is_small(a, b, c);
    }
    (((a as usize) << 10usize) ^ ((b as usize) << 5usize) ^ (c as usize)) & HASH_MASK
}

/// The hash chains over the recorded positions.
struct Chains {
    head: Vec<i32>,
    prev: Vec<i32>,
}

impl Chains {
    #[verifier::opaque]
    spec fn wf(self, data: Seq<u8>, seen: Seq<int>) -> bool {
        chained(data, seen, self.head@, self.prev@)
    }

    fn new(data: &[u8]) -> (r: Self)
        ensures
            r.wf(data@, seq![]),
    {
        let head: Vec<i32> = vec![-1i32; HASH_SIZE];
        let prev: Vec<i32> = vec![0i32; MAX_DIST + 1];
        proof {
            reveal(Chains::wf);
        }
        Chains { head, prev }
    }

    /// Record position `p`.
    fn insert(&mut self, data: &[u8], p: usize, Ghost(seen): Ghost<Seq<int>>)
        requires
            old(self).wf(data@, seen),
            p + 2 < data@.len(),
            recorded_before(data@, seen, p as int),
        ensures
            final(self).wf(data@, seen.push(p as int)),
    {
        proof {
            reveal(Chains::wf);
        }
        let length: usize = data.len();
        let h: usize = hash3(data[p], data[p + 1], data[p + 2]);
        let ghost head0 = self.head@;
        let ghost prev0 = self.prev@;
        let ghost next = seen.push(p as int);
        let before: i32 = self.head[h];
        self.prev[p % (MAX_DIST + 1)] = before;
        self.head[h] = p as i32;
        proof {
            let data = data@;
            assert(next.drop_last() =~= seen);
            assert forall|g: usize| g < HASH_SIZE implies #[trigger] self.head@[g as int] == entry(
                newest(data, next, g),
            ) by {
                assert(head0[g as int] == entry(newest(data, seen, g)));
            }
            assert forall|k: int|
                0 <= k < next.len() && next[k] + MAX_DIST + 1 > next.last() implies self.prev@[
            #[trigger] next[k] % (MAX_DIST + 1)] == entry(
                newest(data, next.take(k), bucket_at(data, next[k])),
            ) by {
                if k == seen.len() {
                    assert(next.take(k) =~= seen);
                    assert(head0[h as int] == entry(newest(data, seen, h)));
                } else {
                    assert(next.take(k) =~= seen.take(k));
                    assert(next[k] == seen[k]);
                    assert(0 <= seen[k] < p);
                    assert(seen[seen.len() - 1] < p);
                    assert(prev0[seen[k] % (MAX_DIST + 1)] == entry(
                        newest(data, seen.take(k), bucket_at(data, seen[k])),
                    ));
                    assert(seen[k] % 2048 != p % 2048);
                }
            }
        }
    }

    /// The best match for position `i`: how far back, and how long.
    fn best_match(&self, data: &[u8], i: usize, Ghost(seen): Ghost<Seq<int>>) -> (r: (usize, usize))
        requires
            self.wf(data@, seen),
            1 <= i,
            i + 2 < data@.len(),
            recorded_before(data@, seen, i as int),
        ensures
            (Match { dist: r.0 as int, len: r.1 as int }) == search(
                data@,
                seen,
                i as int,
                MAX_CHAIN as nat,
                Match { dist: 0, len: 0 },
            ),
    {
        proof {
            reveal(Chains::wf);
        }
        let length: usize = data.len();
        let h: usize = hash3(data[i], data[i + 1], data[i + 2]);
        let mut best_dist: usize = 0;
        let mut best_len: usize = 0;
        let mut candidate: i32 = self.head[h];
        let mut chain_count: usize = 0;
        let ghost goal = search(
            data@,
            seen,
            i as int,
            MAX_CHAIN as nat,
            Match { dist: 0, len: 0 },
        );
        let ghost mut left = seen;
        assert(seen.take(seen.len() as int) =~= seen);
        loop
            invariant_except_break
                left == seen.take(left.len() as int),
                candidate == entry(newest(data@, left, h)),
                goal == search(
                    data@,
                    left,
                    i as int,
                    (MAX_CHAIN - chain_count) as nat,
                    Match { dist: best_dist as int, len: best_len as int },
                ),
            invariant
                chained(data@, seen, self.head@, self.prev@),
                length == data@.len(),
                1 <= i,
                i + 2 < length,
                h == bucket_at(data@, i as int),
                recorded_before(data@, seen, i as int),
                left.len() <= seen.len(),
                chain_count <= MAX_CHAIN,
            ensures
                goal == (Match { dist: best_dist as int, len: best_len as int }),
            decreases left.len(),
        {
            let ghost best = Match { dist: best_dist as int, len: best_len as int };
            let ghost budget = (MAX_CHAIN - chain_count) as nat;
            proof {
                prefix_recorded(data@, seen, i as int, left.len() as int);
            }
            if candidate < 0 || chain_count >= MAX_CHAIN {
                proof {
                    search_ends(data@, left, i as int, budget, best);
                }
                break ;
            }
            let cand: usize = candidate as usize;
            let ghost k = newest_is_recorded(data@, left, i as int, h);
            proof {
                assert(left[k] == seen[k]);
                assert(0 <= seen[k] < i);
                entry_tells_far_positions(seen[k] as usize);
            }
            let dist: usize = i - cand;
            if dist > MAX_DIST {
                proof {
                    search_ends(data@, left, i as int, budget, best);
                }
                break ;
            }
            assert(cand == seen[k]);
            proof {
                search_steps(data@, left, i as int, budget, best, k);
                assert(left.take(k) =~= seen.take(k));
                left = left.take(k);
                prefix_recorded(data@, seen, i as int, k);
            }
            if data[cand] == data[i] {
                let match_len: usize = repeat_length(data, cand, i);
                if match_len >= MIN_MATCH && match_len > best_len {
                    best_dist = dist;
                    best_len = match_len;
                    if best_len == MAX_MATCH {
                        proof {
                            search_keeps_longest(
                                data@,
                                left,
                                i as int,
                                (budget - 1) as nat,
                                Match { dist: best_dist as int, len: best_len as int },
                            );
                        }
                        break ;
                    }
                }
            }
            let next: i32 = self.prev[cand % (MAX_DIST + 1)];
            proof {
                assert(seen[seen.len() - 1] < i);
                assert(seen[k] + MAX_DIST + 1 > seen.last());
                assert(next == entry(newest(data@, left, h)));
            }
            let oldest: usize = if i > MAX_DIST {
                i - MAX_DIST
            } else {
                0
            };
            if next >= 0 && next as usize >= oldest {
                candidate = next;
                chain_count += 1;
            } else {
                proof {
                    search_ends(
                        data@,
                        left,
                        i as int,
                        (budget - 1) as nat,
                        Match { dist: best_dist as int, len: best_len as int },
                    );
                }
                break ;
            }
        }
        (best_dist, best_len)
    }
}

proof fn prefix_recorded(data: Seq<u8>, seen: Seq<int>, i: int, n: int)
    requires
        0 <= n <= seen.len(),
        recorded_before(data, seen, i),
    ensures
        recorded_before(data, seen.take(n), i),
{
    let t = seen.take(n);
    assert forall|k: int| 0 <= k < t.len() implies 0 <= #[trigger] t[k] < i && t[k] + 2
        < data.len() by {
        assert(t[k] == seen[k]);
    }
}

/// Decompressing what was compressed gives back every byte.
pub proof fn compression_is_lossless(data: Seq<u8>)
    ensures
        decompressed(compressed(data)) == data,
{
    unpacks_from(data, 0, seq![]);
    assert(data.take(0) =~= seq![]);
}

/// How many bytes from `i` on, of at most eight, need escaping; the one at `i` does.
fn escape_run(data: &[u8], i: usize) -> (n: usize)
    requires
        i < data@.len(),
    ensures
        n == escape_run_from(data@, i as int, 1),
        1 <= n <= 8,
        i + n <= data@.len(),
{
    let length: usize = data.len();
    let mut n: usize = 1;
    while n < 8 && n < length - i && (data[i + n] <= 0x08 || data[i + n] >= 0x80)
        invariant
            length == data@.len(),
            i < length,
            1 <= n <= 8,
            i + n <= length,
            escape_run_from(data@, i as int, 1) == escape_run_from(data@, i as int, n as int),
        decreases 8 - n,
    {
        n += 1;
    }
    n
}

/// Compress data using PalmDOC LZ77 compression.
#[verifier::rlimit(30)]
pub fn compress(data: &[u8]) -> (output: Vec<u8>)
    ensures
        output@ == compressed(data@),
        decompressed(output@) == data@,
{
    let length: usize = data.len();
    let mut output: Vec<u8> = Vec::new();
    let mut chains = Chains::new(data);
    let mut i: usize = 0;
    let ghost mut seen: Seq<int> = seq![];
    while i < length
        invariant
            length == data@.len(),
            i <= length,
            recorded_before(data@, seen, i as int),
            chains.wf(data@, seen),
            compressed(data@) == output@ + compressed_from(data@, i as int, seen),
        decreases length - i,
    {
        let ghost before = output@;
        let ghost seen0 = seen;
        let mut best_dist: usize = 0;
        let mut best_len: usize = 0;
        if length - i > 2 {
            if i >= 1 {
                proof {
                    search_finds_match(
                        data@,
                        seen,
                        i as int,
                        MAX_CHAIN as nat,
                        Match { dist: 0, len: 0 },
                    );
                }
                let (dist, len) = chains.best_match(data, i, Ghost(seen));
                best_dist = dist;
                best_len = len;
            }
            chains.insert(data, i, Ghost(seen));
            proof {
                recording_keeps_order(data@, seen, i as int);
                seen = seen.push(i as int);
            }
        }
        let ghost m = Match { dist: best_dist as int, len: best_len as int };
        assert(m == match_at(data@, seen0, i as int));
        if best_len >= MIN_MATCH {
            let word: usize = best_dist * 8 + (best_len - MIN_MATCH);
            output.push((0x80 + word / 0x100) as u8);
            output.push((word % 0x100) as u8);
            let end: usize = i + best_len;
            let limit: usize = if end < length - 2 {
                end
            } else {
                length - 2
            };
            let mut j: usize = i + 1;
            let ghost seen1 = seen;
            while j < limit
                invariant
                    length == data@.len(),
                    length >= 2,
                    limit <= length - 2,
                    limit <= end,
                    i < end,
                    end <= length,
                    i < j,
                    j <= limit || j == i + 1,
                    recorded_before(data@, seen, j as int),
                    chains.wf(data@, seen),
                    record(seen1, i + 1, limit as int) == record(seen, j as int, limit as int),
                decreases limit - j,
            {
                chains.insert(data, j, Ghost(seen));
                proof {
                    recording_keeps_order(data@, seen, j as int);
                    seen = seen.push(j as int);
                }
                j += 1;
            }
            i = end;
            proof {
                assert(output@ =~= before + reference(m));
                assert(before + (reference(m) + compressed_from(data@, i as int, seen)) =~= output@
                    + compressed_from(data@, i as int, seen));
            }
        } else if data[i] == 0x00 {
            output.push(0x00);
            i += 1;
            assert(before + (seq![0u8] + compressed_from(data@, i as int, seen)) =~= output@
                + compressed_from(data@, i as int, seen));
        } else if data[i] == 0x20 && length - i > 1 && 0x40 <= data[i + 1] && data[i + 1] <= 0x7F {
            output.push(data[i + 1] + 0x80);
            i += 2;
            assert(before + (seq![(data@[i - 1] + 0x80) as u8] + compressed_from(
                data@,
                i as int,
                seen,
            )) =~= output@ + compressed_from(data@, i as int, seen));
        } else if data[i] <= 0x08 || data[i] >= 0x80 {
            let n: usize = escape_run(data, i);
            output.push(n as u8);
            output.extend_from_slice(&data[i..i + n]);
            proof {
                assert(output@ =~= before + (seq![n as u8] + data@.subrange(i as int, i + n)));
                assert(before + (seq![n as u8] + data@.subrange(i as int, i + n) + compressed_from(
                    data@,
                    i + n,
                    seen,
                )) =~= output@ + compressed_from(data@, i + n, seen));
            }
            i += n;
        } else {
            output.push(data[i]);
            i += 1;
            assert(before + (seq![data@[i - 1]] + compressed_from(data@, i as int, seen))
                =~= output@ + compressed_from(data@, i as int, seen));
        }
    }
    proof {
        assert(compressed(data@) =~= output@);
        compression_is_lossless(data@);
    }
    output
}

proof fn search_only_improves(data: Seq<u8>, seen: Seq<int>, i: int, budget: nat, best: Match)
    ensures
        search(data, seen, i, budget, best).len >= best.len,
    decreases seen.len(),
{
    if seen.len() > 0 && budget > 0 {
        let p = seen.last();
        search_only_improves(data, seen.drop_last(), i, budget, best);
        search_only_improves(
            data,
            seen.drop_last(),
            i,
            (budget - 1) as nat,
            better(data, i, best, p),
        );
    }
}

proof fn match_is_long(data: Seq<u8>, p: int, i: int, k: int, n: int)
    requires
        0 <= n <= k <= 10,
        i + k <= data.len(),
        forall|j: int| 0 <= j < k ==> #[trigger] data[i + j] == data[p + j],
    ensures
        match_length_from(data, p, i, n) >= k,
    decreases k - n,
{
    if n < k {
        assert(data[i + n] == data[p + n]);
        match_is_long(data, p, i, k, n + 1);
    } else {
        match_grows(data, p, i, n);
    }
}

proof fn match_grows(data: Seq<u8>, p: int, i: int, n: int)
    ensures
        match_length_from(data, p, i, n) >= n,
    decreases MAX_MATCH - n,
{
    if n < MAX_MATCH && i + n < data.len() && data[i + n] == data[p + n] {
        match_grows(data, p, i, n + 1);
    }
}

proof fn search_reaches(
    data: Seq<u8>,
    seen: Seq<int>,
    at: int,
    i: int,
    k: int,
    budget: nat,
    best: Match,
)
    requires
        recorded_before(data, seen, i),
        0 <= at < seen.len() <= at + budget,
        i - seen[at] <= 2047,
        i <= i32::MAX,
        3 <= k <= 10,
        i + k <= data.len(),
        forall|j: int| 0 <= j < k ==> #[trigger] data[i + j] == data[seen[at] + j],
    ensures
        search(data, seen, i, budget, best).len >= k,
    decreases seen.len(),
{
    let rest = seen.drop_last();
    let p = seen[at];
    let q = seen[seen.len() - 1];
    assert(seen.last() == q);
    if at == seen.len() - 1 {
        assert(data[i + 0] == data[p + 0] && data[i + 1] == data[p + 1] && data[i + 2] == data[p + 2]);
        match_is_long(data, p, i, k, 0);
        search_only_improves(data, rest, i, (budget - 1) as nat, better(data, i, best, p));
    } else {
        prefix_recorded(data, seen, i, seen.len() - 1);
        assert(seen.take(seen.len() - 1) =~= rest);
        assert(rest[at] == p);
        assert(p < q);
        if bucket_at(data, q) != bucket_at(data, i) {
            search_reaches(data, rest, at, i, k, budget, best);
        } else {
            search_reaches(data, rest, at, i, k, (budget - 1) as nat, better(data, i, best, q));
        }
    }
}

/// Where the next `k` bytes, from three to ten, repeat those at one of the newest 64 positions that are
/// recorded, at most 2047 bytes before, the stream goes on with a reference of two bytes that stands for
/// at least as many.
pub proof fn repeats_are_referred_to(data: Seq<u8>, seen: Seq<int>, at: int, i: int, k: int)
    requires
        recorded_before(data, seen, i),
        0 <= at < seen.len() <= at + 64,
        i - seen[at] <= 2047,
        i <= i32::MAX,
        3 <= k <= 10,
        i + k <= data.len(),
        forall|j: int| 0 <= j < k ==> #[trigger] data[i + j] == data[seen[at] + j],
    ensures
        ({
            let stream = compressed_from(data, i, seen);
            &&& stream.len() >= 2
            &&& 0x80 <= stream[0] < 0xC0
            &&& stream[1] % 8 + 3 >= k
        }),
{
    let none = Match { dist: 0, len: 0 };
    search_reaches(data, seen, at, i, k, MAX_CHAIN as nat, none);
    search_finds_match(data, seen, i, MAX_CHAIN as nat, none);
    let m = match_at(data, seen, i);
    assert(valid_match(data, i, m));
    let word = m.dist * 8 + (m.len - 3);
    assert(0 <= word < 0x4000);
    assert(word % 8 == m.len - 3);
    assert((word % 0x100) % 8 == word % 8);
    let s = reference(m);
    let stream = compressed_from(data, i, seen);
    assert(stream[0] == s[0] && stream[1] == s[1]);
}

spec fn all_before(data: Seq<u8>, i: int) -> Seq<int> {
    Seq::new(
        if i + 2 < data.len() {
            i as nat
        } else if data.len() >= 2 {
            (data.len() - 2) as nat
        } else {
            0
        },
        |j: int| j,
    )
}

proof fn record_adds_all(n: int, to: int)
    requires
        0 <= n,
    ensures
        record(Seq::new(n as nat, |j: int| j), n, to) == Seq::new(
            if to > n {
                to as nat
            } else {
                n as nat
            },
            |j: int| j,
        ),
    decreases to - n,
{
    let seen = Seq::new(n as nat, |j: int| j);
    if n < to {
        assert(seen.push(n) =~= Seq::new((n + 1) as nat, |j: int| j));
        record_adds_all(n + 1, to);
    }
}

proof fn plain_step(data: Seq<u8>, i: int) -> (n: int)
    requires
        0 <= i < data.len(),
        0x09 <= data[i] <= 0x7F,
        data[i] != 0x20,
    ensures
        1 <= n <= data.len() - i,
        compressed_from(data, i, all_before(data, i)).len() == (if n == 1 {
            1int
        } else {
            2int
        }) + compressed_from(data, i + n, all_before(data, i + n)).len(),
        n == match_at(data, all_before(data, i), i).len || (n == 1 && match_at(
            data,
            all_before(data, i),
            i,
        ).len == 0),
{
    let seen = all_before(data, i);
    assert(recorded_before(data, seen, i));
    search_finds_match(data, seen, i, MAX_CHAIN as nat, Match { dist: 0, len: 0 });
    let m = match_at(data, seen, i);
    let seen1 = if i + 2 < data.len() {
        seen.push(i)
    } else {
        seen
    };
    if i + 2 < data.len() {
        assert(seen1 =~= Seq::new((i + 1) as nat, |j: int| j));
    }
    if m.len >= 3 {
        let end = i + m.len;
        let limit = if end < data.len() - 2 {
            end
        } else {
            data.len() - 2
        };
        record_adds_all(i + 1, limit);
        assert(record(seen1, i + 1, limit) =~= all_before(data, end));
        assert(reference(m).len() == 2);
        m.len
    } else {
        assert(seen1 =~= all_before(data, i + 1));
        1
    }
}

proof fn plain_bytes_stay_or_shrink(data: Seq<u8>, i: int)
    requires
        0 <= i <= data.len(),
        forall|j: int| 0 <= j < data.len() ==> 0x09 <= #[trigger] data[j] <= 0x7F && data[j] != 0x20,
    ensures
        compressed_from(data, i, all_before(data, i)).len() <= data.len() - i,
    decreases data.len() - i,
{
    if i < data.len() {
        let n = plain_step(data, i);
        plain_bytes_stay_or_shrink(data, i + n);
    }
}

proof fn repeated_bytes_shrink(data: Seq<u8>, d: int, i: int)
    requires
        1 <= d <= 64,
        d <= i <= data.len() <= i32::MAX,
        forall|j: int| 0 <= j < data.len() ==> 0x09 <= #[trigger] data[j] <= 0x7F && data[j] != 0x20,
        forall|j: int| 0 <= j < data.len() - d ==> #[trigger] data[j] == data[j + d],
    ensures
        compressed_from(data, i, all_before(data, i)).len() <= 2 * ((data.len() - i) / 10) + 9,
    decreases data.len() - i,
{
    if data.len() - i < 10 {
        plain_bytes_stay_or_shrink(data, i);
    } else {
        let n = plain_step(data, i);
        let seen = all_before(data, i);
        assert(seen[i - d] == i - d);
        assert(recorded_before(data, seen, i));
        assert forall|j: int| 0 <= j < 10 implies #[trigger] data[i + j] == data[seen[i - d] + j] by {
            assert(data[i - d + j] == data[i - d + j + d]);
        }
        search_reaches(data, seen, i - d, i, 10, MAX_CHAIN as nat, Match { dist: 0, len: 0 });
        search_finds_match(data, seen, i, MAX_CHAIN as nat, Match { dist: 0, len: 0 });
        assert(n == 10);
        repeated_bytes_shrink(data, d, i + 10);
    }
}

proof fn first_bytes_stay_or_shrink(data: Seq<u8>, d: int, i: int)
    requires
        1 <= d <= 64,
        0 <= i <= d,
        i <= data.len() <= i32::MAX,
        forall|j: int| 0 <= j < data.len() ==> 0x09 <= #[trigger] data[j] <= 0x7F && data[j] != 0x20,
        forall|j: int| 0 <= j < data.len() - d ==> #[trigger] data[j] == data[j + d],
    ensures
        compressed_from(data, i, all_before(data, i)).len() <= (d - i) + 2 * (data.len() as int / 10)
            + 10,
    decreases d - i,
{
    if data.len() < d {
        plain_bytes_stay_or_shrink(data, i);
    } else if i == d {
        repeated_bytes_shrink(data, d, i);
    } else {
        let n = plain_step(data, i);
        if i + n <= d {
            first_bytes_stay_or_shrink(data, d, i + n);
        } else {
            repeated_bytes_shrink(data, d, i + n);
        }
    }
}

/// Text of plain characters without spaces never grows, and where it repeats itself every `d` bytes, up
/// to 64, two bytes stand for ten of it, but for the first `d` bytes and a rest.
pub proof fn repeating_text_shrinks(data: Seq<u8>, d: int)
    requires
        1 <= d <= 64,
        data.len() <= i32::MAX,
        forall|j: int| 0 <= j < data.len() ==> 0x09 <= #[trigger] data[j] <= 0x7F && data[j] != 0x20,
        forall|j: int| 0 <= j < data.len() - d ==> #[trigger] data[j] == data[j + d],
    ensures
        compressed(data).len() <= data.len(),
        compressed(data).len() <= d + 2 * (data.len() as int / 10) + 10,
{
    assert(all_before(data, 0) =~= seq![]);
    plain_bytes_stay_or_shrink(data, 0);
    first_bytes_stay_or_shrink(data, d, 0);
}

/// A space and the letter behind it take one byte, where no reference stands for them.
pub proof fn spaces_join_letters(data: Seq<u8>, seen: Seq<int>, i: int)
    requires
        0 <= i < data.len() - 1,
        data[i] == 0x20,
        0x40 <= data[i + 1] <= 0x7F,
        match_at(data, seen, i).len < 3,
    ensures
        compressed_from(data, i, seen).len() > 0,
        compressed_from(data, i, seen)[0] as int == data[i + 1] + 128,
{
}

/// What cannot stand for itself in the stream takes one byte more than it has, up to eight bytes at a
/// time, where no reference stands for it.
pub proof fn escapes_take_one_byte(data: Seq<u8>, seen: Seq<int>, i: int, n: int)
    requires
        0 <= i < i + n <= data.len(),
        1 <= n <= 8,
        forall|j: int| i <= j < i + n ==> 1 <= #[trigger] data[j] <= 8 || data[j] >= 0x80,
        n == 8 || i + n == data.len() || 8 < data[i + n] < 0x80,
        match_at(data, seen, i).len < 3,
    ensures
        compressed_from(data, i, seen).len() > n,
        compressed_from(data, i, seen)[0] == n,
        compressed_from(data, i, seen).subrange(1, 1 + n) == data.subrange(i, i + n),
{
    assert(1 <= data[i] <= 8 || data[i] >= 0x80);
    escape_run_is(data, i, n, 1);
    let s = compressed_from(data, i, seen);
    assert(s.subrange(1, 1 + n) =~= data.subrange(i, i + n));
}

proof fn escape_run_is(data: Seq<u8>, i: int, n: int, from: int)
    requires
        0 <= i < i + n <= data.len(),
        1 <= from <= n <= 8,
        forall|j: int| i <= j < i + n ==> 1 <= #[trigger] data[j] <= 8 || data[j] >= 0x80,
        n == 8 || i + n == data.len() || 8 < data[i + n] < 0x80,
    ensures
        escape_run_from(data, i, from) == n,
    decreases n - from,
{
    if from < n {
        assert(1 <= data[i + from] <= 8 || data[i + from] >= 0x80);
        escape_run_is(data, i, n, from + 1);
    }
}

} // verus!
