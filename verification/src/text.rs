//! Text as characters and as UTF-8 bytes.
use vstd::prelude::*;

verus! {

/// The UTF-8 encoding of a text.
pub open spec fn utf8(s: Seq<char>) -> Seq<u8> {
    vstd::utf8::encode_utf8(s)
}

/// The text behind an optional string.
pub open spec fn opt_text(s: Option<&str>) -> Option<Seq<char>> {
    match s {
        Some(t) => Some(t@),
        None => None,
    }
}

/// The text behind an optional owned string.
pub open spec fn opt_string(s: Option<String>) -> Option<Seq<char>> {
    match s {
        Some(t) => Some(t@),
        None => None,
    }
}

/// Two texts with the same encoding are the same.
pub proof fn utf8_is_injective(a: Seq<char>, b: Seq<char>)
    requires
        utf8(a) == utf8(b),
    ensures
        a == b,
{
    broadcast use vstd::utf8::encode_utf8_decode_utf8;

    assert(vstd::utf8::decode_utf8(utf8(a)) == a);
    assert(vstd::utf8::decode_utf8(utf8(b)) == b);
}

/// Whether two byte strings are the same.
pub fn same_bytes(a: &[u8], b: &[u8]) -> (r: bool)
    ensures
        r == (a@ == b@),
{
    if a.len() != b.len() {
        return false;
    }
    let mut i: usize = 0;
    while i < a.len()
        invariant
            a@.len() == b@.len(),
            i <= a@.len(),
            forall|k: int| 0 <= k < i ==> a@[k] == b@[k],
        decreases a.len() - i,
    {
        if a[i] != b[i] {
            return false;
        }
        i += 1;
    }
    assert(a@ =~= b@);
    true
}

/// Whether two texts are the same.
pub fn same_text(a: &str, b: &str) -> (r: bool)
    ensures
        r == (a@ == b@),
{
    let r = same_bytes(a.as_bytes(), b.as_bytes());
    proof {
        if r {
            utf8_is_injective(a@, b@);
        }
    }
    r
}

/// `String::push`: the text with the character behind it.
pub assume_specification[ String::push ](s: &mut String, c: char)
    ensures
        final(s)@ == old(s)@.push(c),
;

/// The characters of a text.
pub fn chars_of(s: &str) -> (r: Vec<char>)
    ensures
        r@ == s@,
{
    let mut r: Vec<char> = Vec::new();
    for c in iter: s.chars()
        invariant
            iter.seq() == s@,
            r@ == s@.take(iter.index()),
    {
        r.push(c);
        assert(r@ =~= s@.take(iter.index() + 1));
    }
    assert(r@ =~= s@);
    r
}

/// The text of a run of characters.
pub fn string_of(chars: &[char]) -> (r: String)
    ensures
        r@ == chars@,
{
    let mut r = String::new();
    push_chars(&mut r, chars);
    assert(r@ =~= chars@);
    r
}

/// Append a run of characters.
pub fn push_chars(out: &mut String, chars: &[char])
    ensures
        final(out)@ == old(out)@ + chars@,
{
    let mut i: usize = 0;
    assert(out@ =~= old(out)@ + chars@.take(0));
    while i < chars.len()
        invariant
            i <= chars@.len(),
            out@ == old(out)@ + chars@.take(i as int),
        decreases chars.len() - i,
    {
        out.push(chars[i]);
        i += 1;
        assert(out@ =~= old(out)@ + chars@.take(i as int));
    }
    assert(chars@.take(i as int) =~= chars@);
}

/// The UTF-8 bytes of a text.
pub fn bytes_of(s: &str) -> (r: Vec<u8>)
    ensures
        r@ == utf8(s@),
{
    let mut r: Vec<u8> = Vec::new();
    r.extend_from_slice(s.as_bytes());
    assert(r@ =~= utf8(s@));
    r
}

/// The decimal digit for `d`.
pub open spec fn digit(d: nat) -> char {
    ('0' as nat + d) as char
}

/// `n` in decimal, without leading zeros.
pub open spec fn decimal(n: nat) -> Seq<char>
    decreases n,
{
    if n < 10 {
        seq![digit(n)]
    } else {
        decimal(n / 10).push(digit(n % 10))
    }
}

/// `n` in decimal, with leading zeros up to `width` digits.
pub open spec fn padded_decimal(n: nat, width: nat) -> Seq<char> {
    let d = decimal(n);
    let fill = if d.len() < width {
        (width - d.len()) as nat
    } else {
        0
    };
    Seq::new(fill, |i: int| '0') + d
}

/// Ten to the power of `n`.
pub open spec fn ten_to(n: nat) -> nat
    decreases n,
{
    if n == 0 {
        1
    } else {
        10 * ten_to((n - 1) as nat)
    }
}

/// A number below ten to the power of `width` has at most `width` digits.
pub proof fn decimal_is_short(n: nat, width: nat)
    requires
        width >= 1,
        n < ten_to(width),
    ensures
        1 <= decimal(n).len() <= width,
        padded_decimal(n, width).len() == width,
        vstd::utf8::is_ascii_chars(padded_decimal(n, width)),
    decreases n,
{
    digits_are_ascii(n);
    if n >= 10 {
        assert(width > 1) by {
            reveal_with_fuel(ten_to, 2);
        }
        assert(n / 10 < ten_to((width - 1) as nat));
        decimal_is_short(n / 10, (width - 1) as nat);
    }
}

proof fn digits_are_ascii(n: nat)
    ensures
        decimal(n).len() >= 1,
        vstd::utf8::is_ascii_chars(decimal(n)),
    decreases n,
{
    if n >= 10 {
        digits_are_ascii(n / 10);
    }
}

fn decimal_digits(n: u128) -> (r: Vec<char>)
    ensures
        r@ == decimal(n as nat),
{
    let mut low_first: Vec<char> = Vec::new();
    let mut v: u128 = n;
    assert(decimal(n as nat) =~= decimal(v as nat) + low_first@.reverse());
    while v >= 10
        invariant
            decimal(n as nat) == decimal(v as nat) + low_first@.reverse(),
        decreases v,
    {
        let ghost before = low_first@;
        let ghost v0 = v;
        low_first.push((48 + (v % 10) as u8) as char);
        v = v / 10;
        proof {
            let d = digit((v0 % 10) as nat);
            assert(low_first@.reverse() =~= seq![d] + before.reverse());
            assert(decimal(v0 as nat) =~= decimal(v as nat).push(d));
            assert(decimal(v as nat).push(d) + before.reverse() =~= decimal(v as nat)
                + low_first@.reverse());
        }
    }
    low_first.push((48 + v as u8) as char);
    assert(decimal(n as nat) =~= low_first@.reverse());
    let mut r: Vec<char> = Vec::new();
    let mut i: usize = low_first.len();
    while i > 0
        invariant
            i <= low_first@.len(),
            r@ == low_first@.reverse().take(low_first@.len() - i),
        decreases i,
    {
        i -= 1;
        r.push(low_first[i]);
        assert(r@ =~= low_first@.reverse().take(low_first@.len() - i));
    }
    assert(r@ =~= low_first@.reverse());
    r
}

/// Append `n` in decimal.
pub fn push_decimal(out: &mut String, n: u128)
    ensures
        final(out)@ == old(out)@ + decimal(n as nat),
{
    let d = decimal_digits(n);
    push_chars(out, &d);
}

/// Append `n` in decimal, with leading zeros up to `width` digits.
pub fn push_padded(out: &mut String, n: u128, width: usize)
    ensures
        final(out)@ == old(out)@ + padded_decimal(n as nat, width as nat),
{
    let d = decimal_digits(n);
    let fill: usize = if d.len() < width {
        width - d.len()
    } else {
        0
    };
    let mut i: usize = 0;
    assert(out@ =~= old(out)@ + Seq::new(0, |i: int| '0'));
    while i < fill
        invariant
            i <= fill,
            out@ == old(out)@ + Seq::new(i as nat, |i: int| '0'),
        decreases fill - i,
    {
        out.push('0');
        i += 1;
        assert(out@ =~= old(out)@ + Seq::new(i as nat, |i: int| '0'));
    }
    push_chars(out, &d);
    assert(out@ =~= old(out)@ + padded_decimal(n as nat, width as nat));
}

/// What a path holds behind its last slash; the whole of it if it has none.
pub open spec fn last_segment(path: Seq<char>) -> Seq<char>
    decreases path.len(),
{
    if path.len() == 0 || path.last() == '/' {
        seq![]
    } else {
        last_segment(path.drop_last()).push(path.last())
    }
}

/// A path holds a slash.
pub open spec fn has_slash(path: Seq<char>) -> bool {
    path.contains('/')
}

proof fn last_segment_is_tail(path: Seq<char>, at: int)
    requires
        0 <= at <= path.len(),
        at == 0 || path[at - 1] == '/',
        forall|i: int| at <= i < path.len() ==> path[i] != '/',
    ensures
        last_segment(path) == path.skip(at),
    decreases path.len(),
{
    if at == path.len() {
        if path.len() > 0 {
            assert(path.last() == '/');
        }
        assert(path.skip(at) =~= seq![]);
    } else {
        assert(path[path.len() - 1] != '/');
        last_segment_is_tail(path.drop_last(), at);
        assert(path.drop_last().skip(at).push(path.last()) =~= path.skip(at));
    }
}

/// What a path holds behind its last slash; the whole of it if it has none.
pub fn file_name(path: &str) -> (r: String)
    ensures
        r@ == last_segment(path@),
{
    let chars = chars_of(path);
    let mut at: usize = chars.len();
    while at > 0 && chars[at - 1] != '/'
        invariant
            at <= chars@.len(),
            forall|i: int| at <= i < chars@.len() ==> chars@[i] != '/',
        decreases at,
    {
        at -= 1;
    }
    proof {
        last_segment_is_tail(chars@, at as int);
    }
    let r = string_of(&chars[at..chars.len()]);
    assert(r@ =~= chars@.skip(at as int));
    r
}

/// Whether a path holds a slash.
pub fn contains_slash(path: &str) -> (r: bool)
    ensures
        r == has_slash(path@),
{
    let chars = chars_of(path);
    let mut i: usize = 0;
    while i < chars.len()
        invariant
            chars@ == path@,
            i <= chars@.len(),
            forall|k: int| 0 <= k < i ==> chars@[k] != '/',
        decreases chars.len() - i,
    {
        if chars[i] == '/' {
            assert(chars@.contains('/'));
            return true;
        }
        i += 1;
    }
    false
}

/// The character has the Unicode property White_Space.
pub open spec fn white_space(c: char) -> bool {
    ||| '\u{9}' <= c <= '\u{d}'
    ||| c == ' '
    ||| c == '\u{85}'
    ||| c == '\u{a0}'
    ||| c == '\u{1680}'
    ||| '\u{2000}' <= c <= '\u{200a}'
    ||| c == '\u{2028}'
    ||| c == '\u{2029}'
    ||| c == '\u{202f}'
    ||| c == '\u{205f}'
    ||| c == '\u{3000}'
}

/// `char::is_whitespace`. Claimed: it tells whether a character has the Unicode property
/// White_Space.
#[verifier::external_body]
pub(crate) fn is_white_space(c: char) -> (r: bool)
    ensures
        r == white_space(c),
{
    c.is_whitespace()
}

/// A text without the white space at its beginning.
pub open spec fn trimmed_start(s: Seq<char>) -> Seq<char>
    decreases s.len(),
{
    if s.len() > 0 && white_space(s[0]) {
        trimmed_start(s.drop_first())
    } else {
        s
    }
}

/// A text without the white space at its end.
pub open spec fn trimmed_end(s: Seq<char>) -> Seq<char>
    decreases s.len(),
{
    if s.len() > 0 && white_space(s.last()) {
        trimmed_end(s.drop_last())
    } else {
        s
    }
}

/// A text without the white space at its beginning and at its end.
pub open spec fn trimmed(s: Seq<char>) -> Seq<char> {
    trimmed_end(trimmed_start(s))
}

/// A text without the white space at its beginning and at its end.
pub fn trim(s: &str) -> (r: String)
    ensures
        r@ == trimmed(s@),
{
    let chars = chars_of(s);
    let size: usize = chars.len();
    let mut from: usize = 0;
    assert(chars@.skip(0) =~= chars@);
    while from < size && is_white_space(chars[from])
        invariant
            size == chars@.len(),
            from <= size,
            trimmed_start(chars@) == trimmed_start(chars@.skip(from as int)),
        decreases size - from,
    {
        assert(chars@.skip(from as int).drop_first() =~= chars@.skip(from + 1));
        from += 1;
    }
    assert(trimmed_start(chars@) == chars@.skip(from as int));
    let mut to: usize = size;
    assert(chars@.subrange(from as int, size as int) =~= chars@.skip(from as int));
    while to > from && is_white_space(chars[to - 1])
        invariant
            size == chars@.len(),
            from <= to <= size,
            trimmed_end(chars@.skip(from as int)) == trimmed_end(
                chars@.subrange(from as int, to as int),
            ),
        decreases to,
    {
        assert(chars@.subrange(from as int, to as int).drop_last() =~= chars@.subrange(
            from as int,
            to - 1,
        ));
        to -= 1;
    }
    assert(trimmed_end(chars@.skip(from as int)) == chars@.subrange(from as int, to as int));
    string_of(&chars[from..to])
}

/// `s` begins with `prefix`.
pub open spec fn begins_with(s: Seq<char>, prefix: Seq<char>) -> bool {
    prefix.len() <= s.len() && s.take(prefix.len() as int) == prefix
}

/// `s` with each occurrence of `from`, found from left to right and apart from each
/// other, exchanged for `to`.
pub open spec fn replaced(s: Seq<char>, from: Seq<char>, to: Seq<char>) -> Seq<char>
    decreases s.len(),
{
    if s.len() == 0 || from.len() == 0 {
        s
    } else if begins_with(s, from) {
        to + replaced(s.skip(from.len() as int), from, to)
    } else {
        seq![s[0]] + replaced(s.drop_first(), from, to)
    }
}

/// Whether the characters at `at` begin with `prefix`.
pub fn stands_at(chars: &[char], prefix: &[char], at: usize) -> (r: bool)
    requires
        at <= chars@.len(),
    ensures
        r == begins_with(chars@.skip(at as int), prefix@),
{
    let size: usize = chars.len();
    if prefix.len() > size - at {
        return false;
    }
    let mut k: usize = 0;
    while k < prefix.len()
        invariant
            size == chars@.len(),
            k <= prefix@.len(),
            at + prefix@.len() <= size,
            forall|i: int| 0 <= i < k ==> chars@[at + i] == prefix@[i],
        decreases prefix.len() - k,
    {
        if chars[at + k] != prefix[k] {
            proof {
                assert(chars@.skip(at as int).take(prefix@.len() as int)[k as int] == chars@[at + k]);
            }
            return false;
        }
        k += 1;
    }
    assert(chars@.skip(at as int).take(prefix@.len() as int) =~= prefix@);
    true
}

/// `s` with each occurrence of `from` exchanged for `to`.
pub fn replace_text(s: &str, from: &str, to: &str) -> (r: String)
    requires
        from@.len() > 0,
    ensures
        r@ == replaced(s@, from@, to@),
{
    let chars = chars_of(s);
    let needle = chars_of(from);
    let mut r = String::new();
    let mut i: usize = 0;
    assert(chars@.skip(0) =~= chars@);
    assert(r@ + replaced(s@, from@, to@) =~= replaced(s@, from@, to@));
    while i < chars.len()
        invariant
            chars@ == s@,
            needle@ == from@,
            needle@.len() > 0,
            i <= chars@.len(),
            replaced(s@, from@, to@) == r@ + replaced(s@.skip(i as int), from@, to@),
        decreases chars.len() - i,
    {
        let ghost before = r@;
        let ghost rest = s@.skip(i as int);
        if stands_at(&chars, &needle, i) {
            r.append(to);
            i += needle.len();
            proof {
                assert(rest.skip(from@.len() as int) =~= s@.skip(i as int));
                assert(before + (to@ + replaced(s@.skip(i as int), from@, to@)) =~= r@ + replaced(
                    s@.skip(i as int),
                    from@,
                    to@,
                ));
            }
        } else {
            r.push(chars[i]);
            i += 1;
            proof {
                assert(rest.drop_first() =~= s@.skip(i as int));
                assert(rest[0] == s@[i - 1]);
                assert(before + (seq![s@[i - 1]] + replaced(s@.skip(i as int), from@, to@)) =~= r@
                    + replaced(s@.skip(i as int), from@, to@));
            }
        }
    }
    assert(s@.skip(i as int) =~= seq![]);
    assert(r@ =~= replaced(s@, from@, to@));
    r
}

/// A text in lower case, as `str::to_lowercase` gives it.
pub uninterp spec fn lowercased(s: Seq<char>) -> Seq<char>;

/// Calls `str::to_lowercase`. Claimed: the result depends on the text alone.
#[verifier::external_body]
pub(crate) fn to_lower(s: &str) -> (r: String)
    ensures
        r@ == lowercased(s@),
{
    s.to_lowercase()
}

/// Calls `String::from_utf8`. Claimed: it gives the text whose UTF-8 these bytes are, and an error
/// where they are that of none.
#[verifier::external_body]
pub(crate) fn text_of(bytes: Vec<u8>) -> (r: Option<String>)
    ensures
        match r {
            Some(t) => utf8(t@) == bytes@,
            None => forall|t: Seq<char>| #[trigger] utf8(t) != bytes@,
        },
{
    String::from_utf8(bytes).ok()
}

/// A text is what trimming leaves of it with white space before and behind; what is left begins and
/// ends with something else.
pub proof fn trimming_takes_white_space_away(s: Seq<char>) -> (at: (int, int))
    ensures
        0 <= at.0 <= at.1 <= s.len(),
        trimmed(s) == s.subrange(at.0, at.1),
        forall|i: int| 0 <= i < at.0 ==> white_space(#[trigger] s[i]),
        forall|i: int| at.1 <= i < s.len() ==> white_space(#[trigger] s[i]),
        at.0 < at.1 ==> !white_space(s[at.0]) && !white_space(s[at.1 - 1]),
{
    let a = start_is_tail(s);
    let t = trimmed_start(s);
    let b = end_is_head(t);
    assert(trimmed(s) =~= s.subrange(a, a + b));
    assert forall|i: int| a + b <= i < s.len() implies white_space(#[trigger] s[i]) by {
        assert(t[i - a] == s[i]);
    }
    if b > 0 {
        assert(t[0] == s[a]);
        assert(t[b - 1] == s[a + b - 1]);
    }
    (a, a + b)
}

proof fn start_is_tail(s: Seq<char>) -> (a: int)
    ensures
        0 <= a <= s.len(),
        trimmed_start(s) == s.skip(a),
        forall|i: int| 0 <= i < a ==> white_space(#[trigger] s[i]),
        a < s.len() ==> !white_space(s[a]),
    decreases s.len(),
{
    if s.len() > 0 && white_space(s[0]) {
        let b = start_is_tail(s.drop_first());
        assert(s.drop_first().skip(b) =~= s.skip(b + 1));
        assert forall|i: int| 0 <= i < b + 1 implies white_space(#[trigger] s[i]) by {
            if i > 0 {
                assert(s.drop_first()[i - 1] == s[i]);
            }
        }
        b + 1
    } else {
        assert(s.skip(0) =~= s);
        0
    }
}

proof fn end_is_head(s: Seq<char>) -> (b: int)
    ensures
        0 <= b <= s.len(),
        trimmed_end(s) == s.take(b),
        forall|i: int| b <= i < s.len() ==> white_space(#[trigger] s[i]),
        b > 0 ==> !white_space(s[b - 1]),
    decreases s.len(),
{
    if s.len() > 0 && white_space(s.last()) {
        let b = end_is_head(s.drop_last());
        assert(s.drop_last().take(b) =~= s.take(b));
        assert forall|i: int| b <= i < s.len() implies white_space(#[trigger] s[i]) by {
            if i < s.len() - 1 {
                assert(s.drop_last()[i] == s[i]);
            }
        }
        b
    } else {
        assert(s.take(s.len() as int) =~= s);
        s.len() as int
    }
}

/// The file name of a path is what stands behind its last slash, or all of it where there is none.
pub proof fn file_names_stand_behind_the_last_slash(path: Seq<char>, at: int)
    requires
        0 <= at <= path.len(),
        at == 0 || path[at - 1] == '/',
        forall|i: int| at <= i < path.len() ==> path[i] != '/',
    ensures
        last_segment(path) == path.skip(at),
{
    last_segment_is_tail(path, at);
}

/// The number that decimal digits denote, the highest first.
pub open spec fn decimal_value(s: Seq<char>) -> int
    decreases s.len(),
{
    if s.len() == 0 {
        0
    } else {
        decimal_value(s.drop_last()) * 10 + (s.last() as int - '0' as int)
    }
}

/// The digits of a number denote it, with or without zeros before them, and there are at least as
/// many as are wanted.
pub proof fn decimals_read_back(n: nat, width: nat)
    ensures
        decimal_value(decimal(n)) == n,
        decimal_value(padded_decimal(n, width)) == n,
        padded_decimal(n, width).len() >= width,
        padded_decimal(n, width).len() == width || padded_decimal(n, width) == decimal(n),
        forall|i: int|
            0 <= i < padded_decimal(n, width).len() ==> '0' <= #[trigger] padded_decimal(
                n,
                width,
            )[i] <= '9',
    decreases n,
{
    digits_read_back(n);
    let d = decimal(n);
    let zeros = Seq::new((padded_decimal(n, width).len() - d.len()) as nat, |i: int| '0');
    assert(padded_decimal(n, width) =~= zeros + d);
    zeros_add_nothing(zeros, d);
    if zeros.len() == 0 {
        assert(padded_decimal(n, width) =~= d);
    }
}

proof fn digits_read_back(n: nat)
    ensures
        decimal_value(decimal(n)) == n,
        forall|i: int| 0 <= i < decimal(n).len() ==> '0' <= #[trigger] decimal(n)[i] <= '9',
    decreases n,
{
    if n < 10 {
        reveal_with_fuel(decimal_value, 2);
        assert(decimal(n).drop_last() =~= seq![]);
        assert(decimal(n).last() == digit(n));
    } else {
        digits_read_back(n / 10);
        assert(decimal(n).drop_last() =~= decimal(n / 10));
    }
}

proof fn zeros_add_nothing(zeros: Seq<char>, d: Seq<char>)
    requires
        forall|i: int| 0 <= i < zeros.len() ==> zeros[i] == '0',
    ensures
        decimal_value(zeros + d) == decimal_value(d),
    decreases zeros.len() + d.len(),
{
    if d.len() > 0 {
        zeros_add_nothing(zeros, d.drop_last());
        assert((zeros + d).drop_last() =~= zeros + d.drop_last());
    } else if zeros.len() > 0 {
        zeros_add_nothing(zeros.drop_last(), d);
        assert((zeros + d).drop_last() =~= zeros.drop_last() + d);
        assert((zeros + d).last() == '0');
    } else {
        assert(zeros + d =~= d);
    }
}

/// Different numbers are written differently, up to one width.
pub proof fn decimals_differ(a: nat, b: nat, width: nat)
    requires
        padded_decimal(a, width) == padded_decimal(b, width),
    ensures
        a == b,
{
    decimals_read_back(a, width);
    decimals_read_back(b, width);
}

/// A text stands in another, with something before and behind it.
#[verifier::opaque]
pub open spec fn holds(s: Seq<char>, part: Seq<char>) -> bool {
    exists|before: Seq<char>, behind: Seq<char>| s == #[trigger] (before + part + behind)
}

/// A text stands at the end of another.
#[verifier::opaque]
pub open spec fn closes(s: Seq<char>, part: Seq<char>) -> bool {
    exists|before: Seq<char>| s == #[trigger] (before + part)
}

/// A text that is put behind another stands at the end.
pub broadcast proof fn last_text_closes(s: Seq<char>, part: Seq<char>)
    ensures
        #[trigger] closes(s + part, part),
{
    reveal(closes);
}

/// What closes a text does so with more behind both.
pub broadcast proof fn more_closes(s: Seq<char>, part: Seq<char>, more: Seq<char>)
    requires
        closes(s, part),
    ensures
        #[trigger] closes(s + more, part + more),
{
    reveal(closes);
    let before = choose|before: Seq<char>| s == #[trigger] (before + part);
    assert(s + more =~= before + (part + more));
}

/// What closes a text stands in it.
pub broadcast proof fn end_is_held(s: Seq<char>, part: Seq<char>)
    requires
        closes(s, part),
    ensures
        #[trigger] holds(s, part),
{
    reveal(closes);
    reveal(holds);
    let before = choose|before: Seq<char>| s == #[trigger] (before + part);
    let none: Seq<char> = seq![];
    assert(s =~= before + part + none);
}

/// What stands in a text stands in one with more behind it.
pub broadcast proof fn longer_text_holds(s: Seq<char>, more: Seq<char>, part: Seq<char>)
    requires
        holds(s, part),
    ensures
        #[trigger] holds(s + more, part),
{
    reveal(holds);
    let (before, behind) = choose|before: Seq<char>, behind: Seq<char>|
        s == #[trigger] (before + part + behind);
    assert(s + more =~= before + part + (behind + more));
}

/// What stands in a text stands in one with more before it.
pub proof fn later_text_holds(more: Seq<char>, s: Seq<char>, part: Seq<char>)
    requires
        holds(s, part),
    ensures
        holds(more + s, part),
{
    reveal(holds);
    let (before, behind) = choose|before: Seq<char>, behind: Seq<char>|
        s == #[trigger] (before + part + behind);
    assert(more + s =~= (more + before) + part + behind);
}

pub broadcast group group_holds {
    last_text_closes,
    more_closes,
    end_is_held,
    longer_text_holds,
}

/// A text stands nowhere in another.
pub open spec fn is_absent(part: Seq<char>, s: Seq<char>) -> bool {
    forall|k: int| 0 <= k <= s.len() ==> !begins_with(#[trigger] s.skip(k), part)
}

/// A text is exchanged where it stands first, and then again in what follows; a text that does not hold
/// it stays.
pub proof fn first_occurrence_is_exchanged(
    a: Seq<char>,
    from: Seq<char>,
    b: Seq<char>,
    to: Seq<char>,
)
    requires
        from.len() > 0,
        forall|k: int| 0 <= k < a.len() ==> !begins_with(#[trigger] (a + from + b).skip(k), from),
    ensures
        replaced(a + from + b, from, to) == a + to + replaced(b, from, to),
        is_absent(from, b) ==> replaced(b, from, to) == b,
    decreases a.len(),
{
    let s = a + from + b;
    absent_texts_are_not_exchanged(b, from, to);
    if a.len() == 0 {
        assert(s =~= from + b);
        assert(s.take(from.len() as int) =~= from);
        assert(s.skip(from.len() as int) =~= b);
        assert(replaced(s, from, to) =~= a + to + replaced(b, from, to));
    } else {
        let rest = a.drop_first();
        assert(s.skip(0) =~= s);
        assert(s.drop_first() =~= rest + from + b);
        assert forall|k: int| 0 <= k < rest.len() implies !begins_with(
            #[trigger] (rest + from + b).skip(k),
            from,
        ) by {
            assert((rest + from + b).skip(k) =~= s.skip(k + 1));
        }
        first_occurrence_is_exchanged(rest, from, b, to);
        assert(seq![s[0]] + (rest + to + replaced(b, from, to)) =~= a + to + replaced(b, from, to));
    }
}

pub(crate) proof fn absent_texts_are_not_exchanged(s: Seq<char>, from: Seq<char>, to: Seq<char>)
    ensures
        is_absent(from, s) ==> replaced(s, from, to) == s,
    decreases s.len(),
{
    if is_absent(from, s) && s.len() > 0 && from.len() > 0 {
        let rest = s.drop_first();
        assert(s.skip(0) =~= s);
        assert forall|k: int| 0 <= k <= rest.len() implies !begins_with(#[trigger] rest.skip(k), from) by {
            assert(rest.skip(k) =~= s.skip(k + 1));
        }
        absent_texts_are_not_exchanged(rest, from, to);
        assert(seq![s[0]] + rest =~= s);
    }
}

} // verus!
