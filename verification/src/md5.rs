//! The MD5 message digest (RFC 1321).
use vstd::prelude::*;

use crate::bytes::{le32, push_le32, push_zeros, zeros};

verus! {

/// The chaining state: the four words A, B, C, D.
#[derive(Clone, Copy)]
pub struct State {
    pub a: u32,
    pub b: u32,
    pub c: u32,
    pub d: u32,
}

/// The state that every digest starts from.
pub open spec fn initial() -> State {
    State { a: 0x67452301, b: 0xEFCDAB89, c: 0x98BADCFE, d: 0x10325476 }
}

/// The integer part of 2^32 times the sine of each step's number, in radians.
pub open spec fn sines() -> Seq<u32> {
    seq![
        0xd76aa478, 0xe8c7b756, 0x242070db, 0xc1bdceee, 0xf57c0faf, 0x4787c62a, 0xa8304613,
        0xfd469501, 0x698098d8, 0x8b44f7af, 0xffff5bb1, 0x895cd7be, 0x6b901122, 0xfd987193,
        0xa679438e, 0x49b40821, 0xf61e2562, 0xc040b340, 0x265e5a51, 0xe9b6c7aa, 0xd62f105d,
        0x02441453, 0xd8a1e681, 0xe7d3fbc8, 0x21e1cde6, 0xc33707d6, 0xf4d50d87, 0x455a14ed,
        0xa9e3e905, 0xfcefa3f8, 0x676f02d9, 0x8d2a4c8a, 0xfffa3942, 0x8771f681, 0x6d9d6122,
        0xfde5380c, 0xa4beea44, 0x4bdecfa9, 0xf6bb4b60, 0xbebfbc70, 0x289b7ec6, 0xeaa127fa,
        0xd4ef3085, 0x04881d05, 0xd9d4d039, 0xe6db99e5, 0x1fa27cf8, 0xc4ac5665, 0xf4292244,
        0x432aff97, 0xab9423a7, 0xfc93a039, 0x655b59c3, 0x8f0ccc92, 0xffeff47d, 0x85845dd1,
        0x6fa87e4f, 0xfe2ce6e0, 0xa3014314, 0x4e0811a1, 0xf7537e82, 0xbd3af235, 0x2ad7d2bb,
        0xeb86d391,
    ]
}

fn sine_table() -> (r: [u32; 64])
    ensures
        r@ == sines(),
{
    let r: [u32; 64] = [
        0xd76aa478, 0xe8c7b756, 0x242070db, 0xc1bdceee, 0xf57c0faf, 0x4787c62a, 0xa8304613,
        0xfd469501, 0x698098d8, 0x8b44f7af, 0xffff5bb1, 0x895cd7be, 0x6b901122, 0xfd987193,
        0xa679438e, 0x49b40821, 0xf61e2562, 0xc040b340, 0x265e5a51, 0xe9b6c7aa, 0xd62f105d,
        0x02441453, 0xd8a1e681, 0xe7d3fbc8, 0x21e1cde6, 0xc33707d6, 0xf4d50d87, 0x455a14ed,
        0xa9e3e905, 0xfcefa3f8, 0x676f02d9, 0x8d2a4c8a, 0xfffa3942, 0x8771f681, 0x6d9d6122,
        0xfde5380c, 0xa4beea44, 0x4bdecfa9, 0xf6bb4b60, 0xbebfbc70, 0x289b7ec6, 0xeaa127fa,
        0xd4ef3085, 0x04881d05, 0xd9d4d039, 0xe6db99e5, 0x1fa27cf8, 0xc4ac5665, 0xf4292244,
        0x432aff97, 0xab9423a7, 0xfc93a039, 0x655b59c3, 0x8f0ccc92, 0xffeff47d, 0x85845dd1,
        0x6fa87e4f, 0xfe2ce6e0, 0xa3014314, 0x4e0811a1, 0xf7537e82, 0xbd3af235, 0x2ad7d2bb,
        0xeb86d391,
    ];
    assert(r@ =~= sines());
    r
}

/// How far step `i` rotates.
pub open spec fn rotation(i: int) -> u32 {
    let turns: Seq<u32> = if i < 16 {
        seq![7, 12, 17, 22]
    } else if i < 32 {
        seq![5, 9, 14, 20]
    } else if i < 48 {
        seq![4, 11, 16, 23]
    } else {
        seq![6, 10, 15, 21]
    };
    turns[i % 4]
}

/// Which word of the block step `i` reads.
pub open spec fn word_index(i: int) -> int {
    if i < 16 {
        i
    } else if i < 32 {
        (5 * i + 1) % 16
    } else if i < 48 {
        (3 * i + 5) % 16
    } else {
        (7 * i) % 16
    }
}

/// How step `i` mixes three words.
pub open spec fn mix(i: int, b: u32, c: u32, d: u32) -> u32 {
    if i < 16 {
        (b & c) | (!b & d)
    } else if i < 32 {
        (d & b) | (!d & c)
    } else if i < 48 {
        b ^ c ^ d
    } else {
        c ^ (b | !d)
    }
}

/// `x` with its bits turned `n` places to the left.
pub open spec fn rotated(x: u32, n: u32) -> u32 {
    (x << n) | (x >> ((32 - n) as u32))
}

/// One step over a block of sixteen words.
pub open spec fn step(i: int, s: State, words: Seq<u32>) -> State {
    let sum = s.a.wrapping_add(mix(i, s.b, s.c, s.d)).wrapping_add(sines()[i]).wrapping_add(
        words[word_index(i)],
    );
    State { a: s.d, b: s.b.wrapping_add(rotated(sum, rotation(i))), c: s.b, d: s.c }
}

/// The first `n` steps over a block.
pub open spec fn steps(n: nat, s: State, words: Seq<u32>) -> State
    decreases n,
{
    if n == 0 {
        s
    } else {
        step(n - 1, steps((n - 1) as nat, s, words), words)
    }
}

/// The word that four bytes spell, least significant first.
pub open spec fn word_at(msg: Seq<u8>, at: int) -> u32 {
    (msg[at] + msg[at + 1] * 0x100 + msg[at + 2] * 0x1_0000 + msg[at + 3] * 0x100_0000) as u32
}

/// The sixteen words of block `n`.
pub open spec fn block(msg: Seq<u8>, n: int) -> Seq<u32> {
    Seq::new(16, |k: int| word_at(msg, n * 64 + k * 4))
}

/// The state with a block mixed in.
pub open spec fn absorb(s: State, words: Seq<u32>) -> State {
    let t = steps(64, s, words);
    State {
        a: s.a.wrapping_add(t.a),
        b: s.b.wrapping_add(t.b),
        c: s.c.wrapping_add(t.c),
        d: s.d.wrapping_add(t.d),
    }
}

/// The state after the first `n` blocks.
pub open spec fn absorbed(msg: Seq<u8>, n: nat) -> State
    decreases n,
{
    if n == 0 {
        initial()
    } else {
        absorb(absorbed(msg, (n - 1) as nat), block(msg, n - 1))
    }
}

/// The message with a one bit, the zeros that fill the last block up, and the
/// length in bits behind it.
pub open spec fn padded(data: Seq<u8>) -> Seq<u8> {
    let bits = data.len() * 8;
    data.push(0x80) + zeros(((119 - data.len() % 64) % 64) as nat) + le32(
        (bits % 0x1_0000_0000) as u32,
    ) + le32((bits / 0x1_0000_0000 % 0x1_0000_0000) as u32)
}

/// The MD5 digest of `data`.
pub open spec fn md5(data: Seq<u8>) -> Seq<u8> {
    let msg = padded(data);
    let s = absorbed(msg, msg.len() / 64);
    le32(s.a) + le32(s.b) + le32(s.c) + le32(s.d)
}

fn rotate(x: u32, n: u32) -> (r: u32)
    requires
        0 < n < 32,
    ensures
        r == rotated(x, n),
{
    (x << n) | (x >> (32 - n))
}

fn rotation_of(i: usize) -> (r: u32)
    requires
        i < 64,
    ensures
        r == rotation(i as int),
        0 < r < 32,
{
    let turns: [u32; 4] = if i < 16 {
        [7, 12, 17, 22]
    } else if i < 32 {
        [5, 9, 14, 20]
    } else if i < 48 {
        [4, 11, 16, 23]
    } else {
        [6, 10, 15, 21]
    };
    turns[i % 4]
}

fn absorb_block(s: State, msg: &Vec<u8>, at: usize, Ghost(n): Ghost<int>) -> (r: State)
    requires
        at == n * 64,
        at + 64 <= msg@.len(),
    ensures
        r == absorb(s, block(msg@, n)),
{
    let table = sine_table();
    let size: usize = msg.len();
    let mut m: [u32; 16] = [0u32; 16];
    let mut k: usize = 0;
    while k < 16
        invariant
            at == n * 64,
            at + 64 <= msg@.len(),
            size == msg@.len(),
            k <= 16,
            forall|j: int| 0 <= j < k ==> m@[j] == block(msg@, n)[j],
        decreases 16 - k,
    {
        let p: usize = at + k * 4;
        m[k] = msg[p] as u32 + msg[p + 1] as u32 * 0x100 + msg[p + 2] as u32 * 0x1_0000
            + msg[p + 3] as u32 * 0x100_0000;
        k += 1;
    }
    let ghost words = block(msg@, n);
    assert(m@ =~= words);
    let mut t: State = s;
    let mut i: usize = 0;
    while i < 64
        invariant
            i <= 64,
            m@ == words,
            words.len() == 16,
            table@ == sines(),
            t == steps(i as nat, s, words),
        decreases 64 - i,
    {
        let f: u32;
        let g: usize;
        if i < 16 {
            f = (t.b & t.c) | (!t.b & t.d);
            g = i;
        } else if i < 32 {
            f = (t.d & t.b) | (!t.d & t.c);
            g = (5 * i + 1) % 16;
        } else if i < 48 {
            f = t.b ^ t.c ^ t.d;
            g = (3 * i + 5) % 16;
        } else {
            f = t.c ^ (t.b | !t.d);
            g = (7 * i) % 16;
        }
        let sum: u32 = t.a.wrapping_add(f).wrapping_add(table[i]).wrapping_add(m[g]);
        let turned: u32 = rotate(sum, rotation_of(i));
        t = State { a: t.d, b: t.b.wrapping_add(turned), c: t.b, d: t.c };
        i += 1;
    }
    State {
        a: s.a.wrapping_add(t.a),
        b: s.b.wrapping_add(t.b),
        c: s.c.wrapping_add(t.c),
        d: s.d.wrapping_add(t.d),
    }
}

proof fn bits_split(n: int)
    requires
        0 <= n,
    ensures
        n * 8 % 0x1_0000_0000 == n % 0x2000_0000 * 8,
        n * 8 / 0x1_0000_0000 == n / 0x2000_0000,
{
}

proof fn padding_fills(n: int)
    requires
        0 <= n,
    ensures
        (n + 1 + (119 - n % 64) % 64 + 8) % 64 == 0,
{
}

fn pad(data: &[u8]) -> (msg: Vec<u8>)
    ensures
        msg@ == padded(data@),
        msg@.len() % 64 == 0,
{
    let length: u64 = data.len() as u64;
    let mut msg: Vec<u8> = Vec::new();
    msg.extend_from_slice(data);
    assert(msg@ =~= data@);
    msg.push(0x80);
    push_zeros(&mut msg, (119 - (length % 64) as usize) % 64);
    let low: u32 = ((length % 0x2000_0000) * 8) as u32;
    let high: u32 = (length / 0x2000_0000 % 0x1_0000_0000) as u32;
    proof {
        bits_split(length as int);
        padding_fills(length as int);
        crate::bytes::le32_len(low);
        crate::bytes::le32_len(high);
    }
    push_le32(&mut msg, low);
    push_le32(&mut msg, high);
    msg
}

fn digest(s: State) -> (r: [u8; 16])
    ensures
        r@ == le32(s.a) + le32(s.b) + le32(s.c) + le32(s.d),
{
    let mut d: Vec<u8> = Vec::new();
    push_le32(&mut d, s.a);
    push_le32(&mut d, s.b);
    push_le32(&mut d, s.c);
    push_le32(&mut d, s.d);
    proof {
        crate::bytes::le32_len(s.a);
        crate::bytes::le32_len(s.b);
        crate::bytes::le32_len(s.c);
        crate::bytes::le32_len(s.d);
    }
    let r: [u8; 16] = [
        d[0], d[1], d[2], d[3], d[4], d[5], d[6], d[7], d[8], d[9], d[10], d[11], d[12], d[13],
        d[14], d[15],
    ];
    assert(r@ =~= d@);
    r
}

/// The MD5 digest of `data`.
pub fn md5_hash(data: &[u8]) -> (r: [u8; 16])
    ensures
        r@ == md5(data@),
{
    let msg = pad(data);
    let mut s: State = State { a: 0x67452301, b: 0xEFCDAB89, c: 0x98BADCFE, d: 0x10325476 };
    let mut at: usize = 0;
    let ghost mut n: int = 0;
    let size: usize = msg.len();
    while at < size
        invariant
            size == msg@.len(),
            size % 64 == 0,
            0 <= n,
            at == n * 64,
            at <= size,
            s == absorbed(msg@, n as nat),
        decreases size - at,
    {
        s = absorb_block(s, &msg, at, Ghost(n));
        proof {
            n = n + 1;
        }
        at += 64;
    }
    digest(s)
}

} // verus!
