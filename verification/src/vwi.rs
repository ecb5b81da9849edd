//! Variable-width integers: seven bits to a byte, most significant first.
//!
//! There are two conventions. In the forward one a set high bit says that more
//! bytes follow; in the inverted one it marks the last byte.
use vstd::prelude::*;

verus! {

/// The digits of `v` to base 128, most significant first; a zero is one digit.
pub open spec fn digits(v: nat) -> Seq<u8>
    decreases v,
{
    if v < 0x80 {
        seq![v as u8]
    } else {
        digits(v / 0x80).push((v % 0x80) as u8)
    }
}

/// The forward encoding: the high bit is set on all digits but the last.
pub open spec fn forward(v: nat) -> Seq<u8> {
    let d = digits(v);
    Seq::new(d.len(), |i: int| if i < d.len() - 1 { (d[i] + 0x80) as u8 } else { d[i] })
}

/// The inverted encoding: the high bit is set on the last digit alone.
pub open spec fn inverted(v: nat) -> Seq<u8> {
    let d = digits(v);
    Seq::new(d.len(), |i: int| if i < d.len() - 1 { d[i] } else { (d[i] + 0x80) as u8 })
}

/// The number that a run of bytes spells, seven bits each, high bits ignored.
pub open spec fn value(s: Seq<u8>) -> nat
    decreases s.len(),
{
    if s.len() == 0 {
        0
    } else {
        value(s.drop_last()) * 0x80 + (s.last() % 0x80) as nat
    }
}

proof fn digits_are_small(v: nat)
    ensures
        digits(v).len() >= 1,
        forall|i: int| 0 <= i < digits(v).len() ==> #[trigger] digits(v)[i] < 0x80,
    decreases v,
{
    if v >= 0x80 {
        digits_are_small(v / 0x80);
    }
}

proof fn value_of_digits(v: nat, s: Seq<u8>)
    requires
        s.len() == digits(v).len(),
        forall|i: int| 0 <= i < s.len() ==> #[trigger] s[i] % 0x80 == digits(v)[i],
    ensures
        value(s) == v,
    decreases v,
{
    digits_are_small(v);
    if v < 0x80 {
        assert(s[0] % 0x80 == digits(v)[0]);
        assert(s.drop_last() =~= Seq::empty());
        assert(value(s.drop_last()) == 0);
    } else {
        let t = s.drop_last();
        assert forall|i: int| 0 <= i < t.len() implies #[trigger] t[i] % 0x80 == digits(
            v / 0x80,
        )[i] by {
            assert(t[i] == s[i]);
            assert(digits(v)[i] == digits(v / 0x80)[i]);
        }
        value_of_digits(v / 0x80, t);
        assert(s[s.len() - 1] % 0x80 == digits(v)[s.len() - 1]);
    }
}

/// Reading a forward encoding gives back the number.
pub proof fn forward_reads_back(v: nat)
    ensures
        value(forward(v)) == v,
{
    digits_are_small(v);
    assert forall|i: int| 0 <= i < forward(v).len() implies #[trigger] forward(v)[i] % 0x80
        == digits(v)[i] by {
        assert(digits(v)[i] < 0x80);
    }
    value_of_digits(v, forward(v));
}

/// Reading an inverted encoding gives back the number.
pub proof fn inverted_reads_back(v: nat)
    ensures
        value(inverted(v)) == v,
{
    digits_are_small(v);
    assert forall|i: int| 0 <= i < inverted(v).len() implies #[trigger] inverted(v)[i] % 0x80
        == digits(v)[i] by {
        assert(digits(v)[i] < 0x80);
    }
    value_of_digits(v, inverted(v));
}

/// A reader of a forward encoding knows where it ends: the high bit is clear on
/// the last byte and on no other.
pub proof fn forward_ends_at_clear_bit(v: nat)
    ensures
        forward(v).len() >= 1,
        forall|i: int|
            0 <= i < forward(v).len() ==> (#[trigger] forward(v)[i] < 0x80 <==> i
                == forward(v).len() - 1),
{
    digits_are_small(v);
    assert forall|i: int| 0 <= i < forward(v).len() implies (#[trigger] forward(v)[i] < 0x80 <==> i
        == forward(v).len() - 1) by {
        assert(digits(v)[i] < 0x80);
    }
}

/// A reader of an inverted encoding knows where it ends: the high bit is set on
/// the last byte and on no other.
pub proof fn inverted_ends_at_set_bit(v: nat)
    ensures
        inverted(v).len() >= 1,
        forall|i: int|
            0 <= i < inverted(v).len() ==> (#[trigger] inverted(v)[i] >= 0x80 <==> i
                == inverted(v).len() - 1),
{
    digits_are_small(v);
    assert forall|i: int| 0 <= i < inverted(v).len() implies (#[trigger] inverted(v)[i] >= 0x80
        <==> i == inverted(v).len() - 1) by {
        assert(digits(v)[i] < 0x80);
    }
}

fn digit_bytes(value: u32) -> (r: Vec<u8>)
    ensures
        r@ == digits(value as nat),
{
    let mut low_first: Vec<u8> = Vec::new();
    let mut v: u32 = value;
    assert(digits(value as nat) =~= digits(v as nat) + low_first@.reverse());
    while v >= 0x80
        invariant
            digits(value as nat) == digits(v as nat) + low_first@.reverse(),
        decreases v,
    {
        let ghost before = low_first@;
        let ghost v0 = v;
        low_first.push((v % 0x80) as u8);
        v = v / 0x80;
        proof {
            assert(low_first@.reverse() =~= seq![(v0 % 0x80) as u8] + before.reverse());
            assert(digits(v0 as nat) =~= digits(v as nat).push((v0 % 0x80) as u8));
            assert(digits(v as nat).push((v0 % 0x80) as u8) + before.reverse() =~= digits(v as nat)
                + low_first@.reverse());
        }
    }
    low_first.push(v as u8);
    proof {
        assert(digits(value as nat) =~= low_first@.reverse());
    }
    let mut r: Vec<u8> = Vec::new();
    let mut i: usize = low_first.len();
    while i > 0
        invariant
            i <= low_first@.len(),
            r@ == low_first@.reverse().take(low_first@.len() - i),
        decreases i,
    {
        i -= 1;
        r.push(low_first[i]);
        assert(r@ =~= low_first@.reverse().take(low_first@.len() - i));
    }
    assert(r@ =~= low_first@.reverse());
    r
}

/// Encode an integer as a forward variable-width integer.
///
/// Each byte uses seven data bits. A set high bit says that more bytes follow.
pub fn encode_vwi(value: u32) -> (r: Vec<u8>)
    ensures
        r@ == forward(value as nat),
{
    let d = digit_bytes(value);
    let mut r: Vec<u8> = Vec::new();
    proof {
        digits_are_small(value as nat);
    }
    let mut i: usize = 0;
    while i < d.len()
        invariant
            d@ == digits(value as nat),
            forall|k: int| 0 <= k < d@.len() ==> #[trigger] d@[k] < 0x80,
            i <= d@.len(),
            r@ == forward(value as nat).take(i as int),
        decreases d.len() - i,
    {
        if i + 1 < d.len() {
            r.push(d[i] + 0x80);
        } else {
            r.push(d[i]);
        }
        i += 1;
        assert(r@ =~= forward(value as nat).take(i as int));
    }
    assert(r@ =~= forward(value as nat));
    r
}

/// Encode an integer as an inverted variable-width integer.
///
/// Each byte uses seven data bits. A set high bit marks the last byte. Tag values
/// in index entries are written this way.
pub fn encode_vwi_inv(value: u32) -> (r: Vec<u8>)
    ensures
        r@ == inverted(value as nat),
{
    let d = digit_bytes(value);
    let mut r: Vec<u8> = Vec::new();
    proof {
        digits_are_small(value as nat);
    }
    let mut i: usize = 0;
    while i < d.len()
        invariant
            d@ == digits(value as nat),
            forall|k: int| 0 <= k < d@.len() ==> #[trigger] d@[k] < 0x80,
            i <= d@.len(),
            r@ == inverted(value as nat).take(i as int),
        decreases d.len() - i,
    {
        if i + 1 < d.len() {
            r.push(d[i]);
        } else {
            r.push(d[i] + 0x80);
        }
        i += 1;
        assert(r@ =~= inverted(value as nat).take(i as int));
    }
    assert(r@ =~= inverted(value as nat));
    r
}

} // verus!
