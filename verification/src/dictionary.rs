//! Dictionaries: where entries stand in the text, and which forms lead to them.
use std::collections::HashSet;
use vstd::prelude::*;

use crate::bytes::{
    find_bytes, find_bytes_from, first_from, first_from_is_first, last_before_is_last, last_in,
    occurs_at, push_all, rfind_bytes,
};
use crate::labels::LabelTable;
use crate::paths::last_index;
use crate::order::{all_ranks, is_order, stable_order};
use crate::records::contents;
use crate::text::{bytes_of, chars_of, same_bytes, utf8};

verus! {

/// An entry of a dictionary: its headword and the inflected forms that lead to it.
pub struct DictionaryEntry {
    pub headword: String,
    pub inflections: Vec<String>,
}

/// The text holds dictionary markup.
pub open spec fn has_entry_markup(content: Seq<char>) -> bool {
    first_from(utf8(content), utf8("<idx:entry"@), 0) is Some
}

/// Some text holds dictionary markup.
pub open spec fn any_entry_markup(contents: Seq<String>) -> bool {
    exists|i: int| 0 <= i < contents.len() && has_entry_markup((#[trigger] contents[i])@)
}

/// Whether documents are those of a dictionary: some of them holds an entry tag.
pub fn detect_dictionary(contents: &[String]) -> (r: bool)
    ensures
        r == any_entry_markup(contents@),
{
    let tag = "<idx:entry".as_bytes();
    proof {
        reveal_strlit("<idx:entry");
        vstd::utf8::is_ascii_chars_encode_utf8("<idx:entry"@);
    }
    let mut i: usize = 0;
    while i < contents.len()
        invariant
            tag@ == utf8("<idx:entry"@),
            tag@.len() > 0,
            i <= contents@.len(),
            forall|k: int| 0 <= k < i ==> !has_entry_markup((#[trigger] contents@[k])@),
        decreases contents.len() - i,
    {
        if find_bytes(contents[i].as_str().as_bytes(), tag).is_some() {
            return true;
        }
        i += 1;
    }
    false
}

/// The code points of a text.
pub open spec fn code_points(s: Seq<char>) -> Set<u32>
    decreases s.len(),
{
    if s.len() == 0 {
        Set::empty()
    } else {
        code_points(s.drop_last()).insert(s.last() as u32)
    }
}

/// The code points of the headwords.
pub open spec fn headword_set(entries: Seq<DictionaryEntry>) -> Set<u32>
    decreases entries.len(),
{
    if entries.len() == 0 {
        Set::empty()
    } else {
        headword_set(entries.drop_last()).union(code_points(entries.last().headword@))
    }
}

/// Collect the code points of the headwords.
pub fn headword_chars(entries: &[DictionaryEntry]) -> (r: HashSet<u32>)
    ensures
        r@ == headword_set(entries@),
{
    broadcast use vstd::std_specs::hash::group_hash_axioms;

    let mut r: HashSet<u32> = HashSet::new();
    let mut i: usize = 0;
    assert(r@ =~= headword_set(entries@.take(0)));
    while i < entries.len()
        invariant
            i <= entries@.len(),
            r@ == headword_set(entries@.take(i as int)),
        decreases entries.len() - i,
    {
        let chars = chars_of(entries[i].headword.as_str());
        let ghost before = r@;
        let mut k: usize = 0;
        assert(chars@.take(0) =~= seq![]);
        assert(r@ =~= before.union(code_points(chars@.take(0))));
        while k < chars.len()
            invariant
                k <= chars@.len(),
                r@ == before.union(code_points(chars@.take(k as int))),
            decreases chars.len() - k,
        {
            r.insert(chars[k] as u32);
            k += 1;
            assert(chars@.take(k as int).drop_last() =~= chars@.take(k - 1));
            assert(r@ =~= before.union(code_points(chars@.take(k as int))));
        }
        assert(chars@.take(k as int) =~= chars@);
        i += 1;
        assert(entries@.take(i as int).drop_last() =~= entries@.take(i - 1));
    }
    assert(entries@.take(i as int) =~= entries@);
    r
}

/// The headwords as bytes.
pub open spec fn words(entries: Seq<DictionaryEntry>) -> Seq<Seq<u8>> {
    Seq::new(entries.len(), |i: int| utf8(entries[i].headword@))
}

/// Where a word is found at or after `start`; an empty word is found nowhere.
pub open spec fn word_at(text: Seq<u8>, word: Seq<u8>, start: int) -> Option<int> {
    if word.len() == 0 {
        None
    } else {
        first_from(text, word, start)
    }
}

/// Where the search for word `n` starts: behind the last word that was found.
pub open spec fn search_start(text: Seq<u8>, list: Seq<Seq<u8>>, n: nat) -> int
    decreases n,
{
    if n == 0 {
        0
    } else {
        let start = search_start(text, list, (n - 1) as nat);
        match word_at(text, list[n - 1], start) {
            Some(at) => at + list[n - 1].len(),
            None => start,
        }
    }
}

/// Where the block of an entry begins whose headword stands at `at`: at a bold tag up
/// to ten bytes before it, else at the headword.
pub open spec fn block_start(text: Seq<u8>, at: int) -> int {
    let from = if at >= 10 {
        at - 10
    } else {
        0
    };
    match last_in(text.subrange(from, at), utf8("<b>"@)) {
        Some(k) => from + k,
        None => at,
    }
}

/// Where the block of an entry ends whose headword stands at `at`: at the next rule,
/// else at the next page break, else with the text.
pub open spec fn block_end(text: Seq<u8>, at: int) -> int {
    match first_from(text, utf8("<hr/>"@), at) {
        Some(k) => k,
        None => match first_from(text, utf8("<mbp:pagebreak/>"@), at) {
            Some(k) => k,
            None => text.len() as int,
        },
    }
}

/// The beginning and the length of the block of entry `n`; both are zero if its
/// headword is not found.
pub open spec fn entry_position(text: Seq<u8>, list: Seq<Seq<u8>>, n: int) -> (int, int) {
    match word_at(text, list[n], search_start(text, list, n as nat)) {
        Some(at) => (block_start(text, at), block_end(text, at) - block_start(text, at)),
        None => (0, 0),
    }
}

/// Positions as mathematical ones.
pub open spec fn position_of(p: (usize, usize)) -> (int, int) {
    (p.0 as int, p.1 as int)
}

proof fn marker_lengths()
    ensures
        utf8("<b>"@).len() == 3,
        utf8("<hr/>"@).len() == 5,
        utf8("<mbp:pagebreak/>"@).len() == 16,
        utf8("</b> "@).len() == 5,
{
    reveal_strlit("<b>");
    reveal_strlit("<hr/>");
    reveal_strlit("<mbp:pagebreak/>");
    reveal_strlit("</b> ");
    vstd::utf8::is_ascii_chars_encode_utf8("<b>"@);
    vstd::utf8::is_ascii_chars_encode_utf8("<hr/>"@);
    vstd::utf8::is_ascii_chars_encode_utf8("<mbp:pagebreak/>"@);
    vstd::utf8::is_ascii_chars_encode_utf8("</b> "@);
}

fn block_at(text: &[u8], at: usize) -> (r: (usize, usize))
    requires
        at <= text@.len(),
    ensures
        r.0 == block_start(text@, at as int),
        r.1 == block_end(text@, at as int) - block_start(text@, at as int),
{
    proof {
        marker_lengths();
    }
    let from: usize = if at >= 10 {
        at - 10
    } else {
        0
    };
    let start: usize = match rfind_bytes(&text[from..at], "<b>".as_bytes()) {
        Some(k) => from + k,
        None => at,
    };
    let end: usize = match find_bytes_from(text, "<hr/>".as_bytes(), at) {
        Some(k) => k,
        None => match find_bytes_from(text, "<mbp:pagebreak/>".as_bytes(), at) {
            Some(k) => k,
            None => text.len(),
        },
    };
    (start, end - start)
}

/// Find the block of each entry in the text of a dictionary.
pub fn find_entry_positions(text_bytes: &[u8], entries: &[DictionaryEntry]) -> (r: Vec<
    (usize, usize),
>)
    ensures
        r@.len() == entries@.len(),
        forall|i: int|
            0 <= i < r@.len() ==> position_of(#[trigger] r@[i]) == entry_position(
                text_bytes@,
                words(entries@),
                i,
            ),
{
    let ghost text = text_bytes@;
    let ghost list = words(entries@);
    let size: usize = text_bytes.len();
    let mut r: Vec<(usize, usize)> = Vec::new();
    let mut start: usize = 0;
    let mut i: usize = 0;
    while i < entries.len()
        invariant
            text == text_bytes@,
            size == text.len(),
            list == words(entries@),
            i <= entries@.len(),
            r@.len() == i,
            start == search_start(text, list, i as nat),
            forall|k: int|
                0 <= k < i ==> position_of(#[trigger] r@[k]) == entry_position(text, list, k),
        decreases entries.len() - i,
    {
        let word = entries[i].headword.as_str().as_bytes();
        assert(word@ == list[i as int]);
        match find_bytes_from(text_bytes, word, start) {
            Some(at) => {
                assert(word_at(text, list[i as int], start as int) == Some(at as int));
                let block = block_at(text_bytes, at);
                r.push(block);
                start = at + word.len();
            },
            None => {
                r.push((0, 0));
            },
        }
        i += 1;
    }
    r
}

/// A block that was found lies within the text, and holds its headword.
pub proof fn entry_blocks_lie_in_text(text: Seq<u8>, list: Seq<Seq<u8>>, n: int)
    requires
        0 <= n < list.len(),
    ensures
        ({
            let p = entry_position(text, list, n);
            &&& 0 <= p.0
            &&& 0 <= p.1
            &&& p.0 + p.1 <= text.len()
        }),
        match word_at(text, list[n], search_start(text, list, n as nat)) {
            Some(at) => {
                &&& occurs_at(text, list[n], at)
                &&& entry_position(text, list, n).0 <= at
                &&& at <= entry_position(text, list, n).0 + entry_position(text, list, n).1
            },
            None => entry_position(text, list, n) == (0int, 0int),
        },
{
    search_start_bounds(text, list, n as nat);
    let start = search_start(text, list, n as nat);
    if let Some(at) = word_at(text, list[n], start) {
        marker_lengths();
        first_from_is_first(text, list[n], start);
        first_from_is_first(text, utf8("<hr/>"@), at);
        first_from_is_first(text, utf8("<mbp:pagebreak/>"@), at);
        let from = if at >= 10 {
            at - 10
        } else {
            0
        };
        let part = text.subrange(from, at);
        last_before_is_last(part, utf8("<b>"@), part.len() - 3 + 1);
    }
}

proof fn search_start_bounds(text: Seq<u8>, list: Seq<Seq<u8>>, n: nat)
    requires
        n <= list.len(),
    ensures
        0 <= search_start(text, list, n),
    decreases n,
{
    if n > 0 {
        search_start_bounds(text, list, (n - 1) as nat);
        first_from_is_first(text, list[n - 1], search_start(text, list, (n - 1) as nat));
    }
}

/// Places at which words are found one behind the other: each word at its first occurrence behind
/// all words that were found before it, and at none only if it has no such occurrence. An empty
/// word has no place.
pub open spec fn found_in_order(text: Seq<u8>, list: Seq<Seq<u8>>, at: Seq<Option<int>>) -> bool {
    &&& at.len() == list.len()
    &&& forall|n: int|
        0 <= n < list.len() ==> match #[trigger] at[n] {
            Some(k) => {
                &&& list[n].len() > 0
                &&& occurs_at(text, list[n], k)
                &&& is_behind(list, at, n, k)
                &&& forall|q: int| #[trigger]
                    occurs_at(text, list[n], q) && is_behind(list, at, n, q) ==> k <= q
            },
            None => list[n].len() == 0 || forall|q: int|
                is_behind(list, at, n, q) ==> !#[trigger] occurs_at(text, list[n], q),
        }
}

/// `q` lies behind all words before word `n` that were found.
pub open spec fn is_behind(list: Seq<Seq<u8>>, at: Seq<Option<int>>, n: int, q: int) -> bool {
    forall|j: int| 0 <= j < n ==> match #[trigger] at[j] {
        Some(k) => k + list[j].len() <= q,
        None => true,
    }
}

/// `k` is the first place at or behind `from` where `mark` stands in the text.
pub open spec fn is_next(text: Seq<u8>, mark: Seq<u8>, from: int, k: int) -> bool {
    &&& from <= k
    &&& occurs_at(text, mark, k)
    &&& forall|q: int| from <= q < k ==> !#[trigger] occurs_at(text, mark, q)
}

/// Where the words are found by which the entries are found.
spec fn word_places(text: Seq<u8>, list: Seq<Seq<u8>>) -> Seq<Option<int>> {
    Seq::new(list.len(), |n: int| word_at(text, list[n], search_start(text, list, n as nat)))
}

proof fn search_starts_behind(text: Seq<u8>, list: Seq<Seq<u8>>, n: nat, q: int)
    requires
        n <= list.len(),
        0 <= q,
    ensures
        search_start(text, list, n) <= q <==> is_behind(list, word_places(text, list), n as int, q),
    decreases n,
{
    let at = word_places(text, list);
    if n > 0 {
        let m = n - 1;
        search_start_bounds(text, list, m as nat);
        let start = search_start(text, list, m as nat);
        first_from_is_first(text, list[m], start);
        search_starts_behind(text, list, m as nat, q);
        assert(at[m] == word_at(text, list[m], start));
        if at[m] is Some {
            assert(start <= at[m]->0);
        }
        if is_behind(list, at, n as int, q) {
            assert(is_behind(list, at, m, q));
        }
        if is_behind(list, at, m, q) && search_start(text, list, n) <= q {
            assert forall|j: int| 0 <= j < n implies match #[trigger] at[j] {
                Some(k) => k + list[j].len() <= q,
                None => true,
            } by {
                if j < m {
                    assert(at[j] == at[j]);
                }
            }
        }
    }
}

/// Each entry stands where its headword does: the headwords are found one behind the other, each at
/// its first occurrence behind the ones before it, and the block of an entry begins with its headword
/// or with the last bold tag in the ten bytes before it. It ends at the first rule behind the
/// headword, or where there is none at the first page break, or where there is none with the text.
pub proof fn entry_blocks_are_those_of_headwords(text: Seq<u8>, list: Seq<Seq<u8>>) -> (at: Seq<
    Option<int>,
>)
    ensures
        found_in_order(text, list, at),
        forall|n: int|
            0 <= n < list.len() ==> {
                let p = #[trigger] entry_position(text, list, n);
                match at[n] {
                    Some(k) => {
                        let end = p.0 + p.1;
                        let rule = utf8("<hr/>"@);
                        let page = utf8("<mbp:pagebreak/>"@);
                        let bold = utf8("<b>"@);
                        &&& 0 <= p.0 <= k <= end <= text.len()
                        &&& forall|q: int| k <= q < end ==> !#[trigger] occurs_at(text, rule, q)
                        &&& {
                            ||| is_next(text, rule, k, end)
                            ||| {
                                &&& forall|q: int| k <= q ==> !#[trigger] occurs_at(text, rule, q)
                                &&& is_next(text, page, k, end) || {
                                    &&& end == text.len()
                                    &&& forall|q: int|
                                        k <= q ==> !#[trigger] occurs_at(text, page, q)
                                }
                            }
                        }
                        &&& p.0 == k || (k - 10 <= p.0 <= k - 3 && occurs_at(text, bold, p.0))
                        &&& forall|q: int|
                            k - 10 <= q <= k - 3 && #[trigger] occurs_at(text, bold, q) ==> q <= p.0
                                && p.0 < k
                    },
                    None => p == (0int, 0int),
                }
            },
{
    let at = word_places(text, list);
    assert forall|n: int| 0 <= n < list.len() implies match #[trigger] at[n] {
        Some(k) => {
            &&& list[n].len() > 0
            &&& occurs_at(text, list[n], k)
            &&& is_behind(list, at, n, k)
            &&& forall|q: int| #[trigger]
                occurs_at(text, list[n], q) && is_behind(list, at, n, q) ==> k <= q
        },
        None => list[n].len() == 0 || forall|q: int|
            is_behind(list, at, n, q) ==> !#[trigger] occurs_at(text, list[n], q),
    } by {
        let start = search_start(text, list, n as nat);
        search_start_bounds(text, list, n as nat);
        first_from_is_first(text, list[n], start);
        assert(at[n] == word_at(text, list[n], start));
        assert forall|q: int| #[trigger] occurs_at(text, list[n], q) && is_behind(
            list,
            at,
            n,
            q,
        ) implies start <= q by {
            search_starts_behind(text, list, n as nat, q);
        }
        if at[n] is Some {
            search_starts_behind(text, list, n as nat, at[n]->0);
        }
    }
    assert forall|n: int| 0 <= n < list.len() implies ({
        let p = #[trigger] entry_position(text, list, n);
        match at[n] {
            Some(k) => {
                let end = p.0 + p.1;
                let rule = utf8("<hr/>"@);
                let page = utf8("<mbp:pagebreak/>"@);
                let bold = utf8("<b>"@);
                &&& 0 <= p.0 <= k <= end <= text.len()
                &&& forall|q: int| k <= q < end ==> !#[trigger] occurs_at(text, rule, q)
                &&& {
                    ||| is_next(text, rule, k, end)
                    ||| {
                        &&& forall|q: int| k <= q ==> !#[trigger] occurs_at(text, rule, q)
                        &&& is_next(text, page, k, end) || {
                            &&& end == text.len()
                            &&& forall|q: int| k <= q ==> !#[trigger] occurs_at(text, page, q)
                        }
                    }
                }
                &&& p.0 == k || (k - 10 <= p.0 <= k - 3 && occurs_at(text, bold, p.0))
                &&& forall|q: int|
                    k - 10 <= q <= k - 3 && #[trigger] occurs_at(text, bold, q) ==> q <= p.0 && p.0
                        < k
            },
            None => p == (0int, 0int),
        }
    }) by {
        let start = search_start(text, list, n as nat);
        search_start_bounds(text, list, n as nat);
        first_from_is_first(text, list[n], start);
        assert(at[n] == word_at(text, list[n], start));
        if let Some(k) = at[n] {
            entry_blocks_lie_in_text(text, list, n);
            marker_lengths();
            first_from_is_first(text, utf8("<hr/>"@), k);
            first_from_is_first(text, utf8("<mbp:pagebreak/>"@), k);
            bold_before(text, k);
        }
    }
    at
}

proof fn bold_before(text: Seq<u8>, k: int)
    requires
        0 <= k <= text.len(),
    ensures
        ({
            let b = block_start(text, k);
            let bold = utf8("<b>"@);
            &&& b == k || (k - 10 <= b <= k - 3 && occurs_at(text, bold, b))
            &&& forall|q: int|
                k - 10 <= q <= k - 3 && #[trigger] occurs_at(text, bold, q) ==> q <= b && b < k
        }),
{
    marker_lengths();
    let bold = utf8("<b>"@);
    let from = if k >= 10 {
        k - 10
    } else {
        0
    };
    let part = text.subrange(from, k);
    last_before_is_last(part, bold, part.len() - 3 + 1);
    assert forall|q: int| 0 <= q && q + 3 <= part.len() implies occurs_at(part, bold, q)
        == #[trigger] occurs_at(text, bold, from + q) by {
        assert(part.subrange(q, q + 3) =~= text.subrange(from + q, from + q + 3));
    }
    if let Some(p) = last_in(part, bold) {
        assert(occurs_at(text, bold, from + p));
    }
    assert forall|q: int| k - 10 <= q <= k - 3 && #[trigger] occurs_at(
        text,
        bold,
        q,
    ) implies q <= block_start(text, k) && block_start(text, k) < k by {
        assert(occurs_at(text, bold, from + (q - from)));
        assert(occurs_at(part, bold, q - from));
    }
}

/// Blocks that a rule separates do not overlap: where a rule stands at or behind the place at which
/// the headword of one entry is found, and not behind the beginning of another block, the block of
/// the first ends before the other begins.
pub proof fn separate_entries_do_not_overlap(text: Seq<u8>, list: Seq<Seq<u8>>) -> (at: Seq<
    Option<int>,
>)
    ensures
        found_in_order(text, list, at),
        forall|i: int, j: int, rule: int|
            #![trigger entry_position(text, list, i), entry_position(text, list, j), occurs_at(text, utf8("<hr/>"@), rule)]
            {
                &&& 0 <= i < list.len()
                &&& 0 <= j < list.len()
                &&& at[i] is Some
                &&& occurs_at(text, utf8("<hr/>"@), rule)
                &&& at[i]->0 <= rule <= entry_position(text, list, j).0
            } ==> entry_position(text, list, i).0 + entry_position(text, list, i).1
                <= entry_position(text, list, j).0,
{
    entry_blocks_are_those_of_headwords(text, list)
}

/// The code points of the headwords are those of their characters, and no others.
pub proof fn headword_points_are_those_of_headwords(entries: Seq<DictionaryEntry>, c: u32)
    ensures
        headword_set(entries).contains(c) <==> exists|i: int, k: int|
            0 <= i < entries.len() && 0 <= k < entries[i].headword@.len()
                && #[trigger] entries[i].headword@[k] as u32 == c,
    decreases entries.len(),
{
    if entries.len() > 0 {
        let rest = entries.drop_last();
        headword_points_are_those_of_headwords(rest, c);
        points_of_text(entries.last().headword@, c);
        let last = entries.len() - 1;
        if headword_set(rest).contains(c) {
            let (i, k) = choose|i: int, k: int|
                0 <= i < rest.len() && 0 <= k < rest[i].headword@.len()
                    && #[trigger] rest[i].headword@[k] as u32 == c;
            assert(entries[i].headword@[k] as u32 == c);
        }
        if code_points(entries.last().headword@).contains(c) {
            let k = choose|k: int|
                0 <= k < entries.last().headword@.len()
                    && #[trigger] entries.last().headword@[k] as u32 == c;
            assert(entries[last].headword@[k] as u32 == c);
        }
        if exists|i: int, k: int|
            0 <= i < entries.len() && 0 <= k < entries[i].headword@.len()
                && #[trigger] entries[i].headword@[k] as u32 == c {
            let (i, k) = choose|i: int, k: int|
                0 <= i < entries.len() && 0 <= k < entries[i].headword@.len()
                    && #[trigger] entries[i].headword@[k] as u32 == c;
            if i < last {
                assert(rest[i].headword@[k] as u32 == c);
            } else {
                assert(entries.last().headword@[k] as u32 == c);
            }
        }
    }
}

proof fn points_of_text(s: Seq<char>, c: u32)
    ensures
        code_points(s).contains(c) <==> exists|k: int|
            0 <= k < s.len() && #[trigger] s[k] as u32 == c,
    decreases s.len(),
{
    if s.len() > 0 {
        let rest = s.drop_last();
        points_of_text(rest, c);
        if code_points(rest).contains(c) {
            let k = choose|k: int| 0 <= k < rest.len() && #[trigger] rest[k] as u32 == c;
            assert(s[k] as u32 == c);
        }
        if s.last() as u32 == c {
            assert(s[s.len() - 1] as u32 == c);
        }
        if exists|k: int| 0 <= k < s.len() && #[trigger] s[k] as u32 == c {
            let k = choose|k: int| 0 <= k < s.len() && #[trigger] s[k] as u32 == c;
            if k < s.len() - 1 {
                assert(rest[k] as u32 == c);
            }
        }
    }
}

/// Documents are those of a dictionary exactly where an entry tag stands somewhere in one of them.
pub proof fn dictionaries_hold_entry_tags(list: Seq<String>)
    ensures
        any_entry_markup(list) <==> exists|i: int, k: int|
            0 <= i < list.len() && #[trigger] occurs_at(utf8(list[i]@), utf8("<idx:entry"@), k),
{
    let tag = utf8("<idx:entry"@);
    assert forall|i: int| 0 <= i < list.len() implies has_entry_markup((#[trigger] list[i])@) == (
    exists|k: int| #[trigger] occurs_at(utf8(list[i]@), tag, k)) by {
        first_from_is_first(utf8(list[i]@), tag, 0);
    }
    if any_entry_markup(list) {
        let i = choose|i: int| 0 <= i < list.len() && has_entry_markup((#[trigger] list[i])@);
        let k = choose|k: int| #[trigger] occurs_at(utf8(list[i]@), tag, k);
        assert(occurs_at(utf8(list[i]@), tag, k));
    }
    if exists|i: int, k: int|
        0 <= i < list.len() && #[trigger] occurs_at(utf8(list[i]@), tag, k) {
        let (i, k) = choose|i: int, k: int|
            0 <= i < list.len() && #[trigger] occurs_at(utf8(list[i]@), tag, k);
        assert(has_entry_markup(list[i]@));
    }
}

/// A form that can be looked up: where its entry stands, how long the headword is
/// displayed, and which entry it leads to.
pub struct Term {
    pub label: Seq<char>,
    pub start: int,
    pub length: int,
    pub display: int,
    pub ordinal: int,
}

/// The labels of terms.
pub open spec fn labels(terms: Seq<Term>) -> Seq<Seq<char>> {
    Seq::new(terms.len(), |i: int| terms[i].label)
}

/// The terms with `t` in place of the one that has its label, else behind them.
pub open spec fn with_term(terms: Seq<Term>, t: Term) -> Seq<Term> {
    match last_index(labels(terms), t.label) {
        Some(i) => terms.update(i as int, t),
        None => terms.push(t),
    }
}

/// A form with brackets in it, which cannot be looked up.
pub open spec fn has_bracket(s: Seq<char>) -> bool {
    exists|i: int| 0 <= i < s.len() && is_bracket(#[trigger] s[i])
}

/// One of the six brackets.
pub open spec fn is_bracket(c: char) -> bool {
    c == '(' || c == ')' || c == '[' || c == ']' || c == '{' || c == '}'
}

/// The terms with `t` behind them, unless its label is taken or holds a bracket.
pub open spec fn with_new_term(terms: Seq<Term>, t: Term) -> Seq<Term> {
    if last_index(labels(terms), t.label) is Some || has_bracket(t.label) {
        terms
    } else {
        terms.push(t)
    }
}

/// How long a headword of `n` bytes is displayed: in bold, a space behind it.
pub open spec fn display_length(n: int) -> int {
    if n + 8 <= usize::MAX {
        n + 8
    } else {
        usize::MAX as int
    }
}

/// A headword as it is displayed.
pub open spec fn displayed(word: Seq<u8>) -> Seq<u8> {
    utf8("<b>"@) + word + utf8("</b> "@)
}

/// How long a headword is displayed in the text at `start`: without the space where
/// the text has none there.
pub open spec fn display_at(text: Seq<u8>, word: Seq<u8>, start: int) -> int {
    let n = display_length(word.len() as int);
    if start > 0 && start + n <= text.len() && text.subrange(start, start + n) != displayed(word) {
        n - 1
    } else {
        n
    }
}

/// The term of the headword of entry `n`.
pub open spec fn headword_term(
    entries: Seq<DictionaryEntry>,
    positions: Seq<(usize, usize)>,
    text: Seq<u8>,
    n: int,
) -> Term {
    Term {
        label: entries[n].headword@,
        start: positions[n].0 as int,
        length: positions[n].1 as int,
        display: display_at(text, utf8(entries[n].headword@), positions[n].0 as int),
        ordinal: n,
    }
}

/// The terms of the first `n` headwords; of two entries with one headword the later
/// counts.
pub open spec fn headword_terms(
    entries: Seq<DictionaryEntry>,
    positions: Seq<(usize, usize)>,
    text: Seq<u8>,
    n: nat,
) -> Seq<Term>
    decreases n,
{
    if n == 0 {
        seq![]
    } else {
        with_term(
            headword_terms(entries, positions, text, (n - 1) as nat),
            headword_term(entries, positions, text, n - 1),
        )
    }
}

/// The term of an inflected form of entry `n`: it leads to the block of its headword.
pub open spec fn form_term(
    terms: Seq<Term>,
    entries: Seq<DictionaryEntry>,
    positions: Seq<(usize, usize)>,
    n: int,
    form: Seq<char>,
) -> Term {
    Term {
        label: form,
        start: positions[n].0 as int,
        length: positions[n].1 as int,
        display: match last_index(labels(terms), entries[n].headword@) {
            Some(i) => terms[i as int].display,
            None => display_length(utf8(form).len() as int),
        },
        ordinal: n,
    }
}

/// The terms with the first `k` inflected forms of entry `n` added.
pub open spec fn with_forms(
    terms: Seq<Term>,
    entries: Seq<DictionaryEntry>,
    positions: Seq<(usize, usize)>,
    n: int,
    k: nat,
) -> Seq<Term>
    decreases k,
{
    if k == 0 {
        terms
    } else {
        let before = with_forms(terms, entries, positions, n, (k - 1) as nat);
        let form = entries[n].inflections@[k - 1]@;
        with_new_term(before, form_term(before, entries, positions, n, form))
    }
}

/// The terms with the inflected forms of the first `n` entries added.
pub open spec fn with_all_forms(
    terms: Seq<Term>,
    entries: Seq<DictionaryEntry>,
    positions: Seq<(usize, usize)>,
    n: nat,
) -> Seq<Term>
    decreases n,
{
    if n == 0 {
        terms
    } else {
        with_forms(
            with_all_forms(terms, entries, positions, (n - 1) as nat),
            entries,
            positions,
            n - 1,
            entries[n - 1].inflections@.len(),
        )
    }
}

/// How many entries have a position.
pub open spec fn placed(
    entries: Seq<DictionaryEntry>,
    positions: Seq<(usize, usize)>,
) -> nat {
    if entries.len() <= positions.len() {
        entries.len()
    } else {
        positions.len()
    }
}

/// All forms that can be looked up: the headwords and, unless they alone are wanted,
/// the inflected forms.
pub open spec fn lookup_terms(
    entries: Seq<DictionaryEntry>,
    positions: Seq<(usize, usize)>,
    text: Seq<u8>,
    headwords_only: bool,
) -> Seq<Term> {
    let n = placed(entries, positions);
    let heads = headword_terms(entries, positions, text, n);
    if headwords_only {
        heads
    } else {
        with_all_forms(heads, entries, positions, n)
    }
}

/// What a form leads to.
#[derive(Clone, Copy)]
pub struct Target {
    pub start_pos: usize,
    pub text_len: usize,
    pub headword_display_len: usize,
    pub source_ordinal: usize,
}

/// The forms that can be looked up, each with what it leads to.
pub struct LookupTable {
    pub labels: LabelTable,
    pub targets: Vec<Target>,
}

impl View for LookupTable {
    type V = Seq<Term>;

    open spec fn view(&self) -> Seq<Term> {
        Seq::new(
            self.targets@.len(),
            |i: int|
                Term {
                    label: self.labels@[i],
                    start: self.targets@[i].start_pos as int,
                    length: self.targets@[i].text_len as int,
                    display: self.targets@[i].headword_display_len as int,
                    ordinal: self.targets@[i].source_ordinal as int,
                },
        )
    }
}

/// No label occurs twice.
pub open spec fn distinct(list: Seq<Seq<char>>) -> bool {
    forall|i: int, j: int| 0 <= i < j < list.len() ==> list[i] != list[j]
}

proof fn distinct_index(list: Seq<Seq<char>>, label: Seq<char>)
    requires
        distinct(list),
    ensures
        forall|i: int| 0 <= i < list.len() && list[i] == label ==> last_index(list, label) == Some(
            i as nat,
        ),
        !list.contains(label) ==> last_index(list, label) is None,
        last_index(list, label) is Some ==> last_index(list, label)->0 < list.len()
            && list[last_index(list, label)->0 as int] == label,
    decreases list.len(),
{
    if list.len() > 0 {
        let rest = list.drop_last();
        distinct_index(rest, label);
        if list.last() != label {
            if last_index(rest, label) is Some {
                assert(rest[last_index(rest, label)->0 as int] == label);
            }
            assert forall|i: int| 0 <= i < list.len() && list[i] == label implies last_index(
                list,
                label,
            ) == Some(i as nat) by {
                assert(rest[i] == label);
            }
            if rest.contains(label) {
                let i = choose|i: int| 0 <= i < rest.len() && rest[i] == label;
                assert(list[i] == label);
            }
        } else {
            assert(list[list.len() - 1] == label);
        }
    }
}

impl LookupTable {
    /// Every label has its target, and none occurs twice.
    pub open spec fn wf(self) -> bool {
        &&& self.labels.wf()
        &&& self.labels@.len() == self.targets@.len()
        &&& distinct(self.labels@)
    }

    fn new() -> (r: Self)
        ensures
            r.wf(),
            r@ == Seq::<Term>::empty(),
    {
        let r = LookupTable { labels: LabelTable::new(), targets: Vec::new() };
        assert(r@ =~= Seq::empty());
        r
    }

    fn find(&self, label: &str) -> (r: Option<usize>)
        requires
            self.wf(),
        ensures
            match r {
                Some(i) => i < self@.len() && last_index(labels(self@), label@) == Some(i as nat),
                None => last_index(labels(self@), label@) is None,
            },
    {
        let r = self.labels.find(label);
        proof {
            assert(labels(self@) =~= self.labels@);
            distinct_index(self.labels@, label@);
        }
        r
    }

    fn add(&mut self, label: &str, target: Target)
        requires
            old(self).wf(),
            last_index(labels(old(self)@), label@) is None,
        ensures
            final(self).wf(),
            final(self)@ == old(self)@.push(
                Term {
                    label: label@,
                    start: target.start_pos as int,
                    length: target.text_len as int,
                    display: target.headword_display_len as int,
                    ordinal: target.source_ordinal as int,
                },
            ),
    {
        proof {
            assert(labels(self@) =~= self.labels@);
            distinct_index(self.labels@, label@);
            assert forall|i: int| 0 <= i < self.labels@.len() implies self.labels@[i] != label@ by {
                if self.labels@[i] == label@ {
                    assert(last_index(self.labels@, label@) == Some(i as nat));
                }
            }
        }
        self.labels.push(label);
        self.targets.push(target);
        assert(self@ =~= old(self)@.push(
            Term {
                label: label@,
                start: target.start_pos as int,
                length: target.text_len as int,
                display: target.headword_display_len as int,
                ordinal: target.source_ordinal as int,
            },
        ));
    }

    fn put(&mut self, label: &str, target: Target)
        requires
            old(self).wf(),
        ensures
            final(self).wf(),
            final(self)@ == with_term(
                old(self)@,
                Term {
                    label: label@,
                    start: target.start_pos as int,
                    length: target.text_len as int,
                    display: target.headword_display_len as int,
                    ordinal: target.source_ordinal as int,
                },
            ),
    {
        match self.find(label) {
            Some(i) => {
                proof {
                    assert(labels(self@) =~= self.labels@);
                    distinct_index(self.labels@, label@);
                }
                self.targets[i] = target;
                assert(self@ =~= with_term(
                    old(self)@,
                    Term {
                        label: label@,
                        start: target.start_pos as int,
                        length: target.text_len as int,
                        display: target.headword_display_len as int,
                        ordinal: target.source_ordinal as int,
                    },
                ));
            },
            None => self.add(label, target),
        }
    }
}

fn holds_bracket(s: &str) -> (r: bool)
    ensures
        r == has_bracket(s@),
{
    let chars = chars_of(s);
    let mut i: usize = 0;
    while i < chars.len()
        invariant
            chars@ == s@,
            i <= chars@.len(),
            forall|k: int| 0 <= k < i ==> !is_bracket(#[trigger] chars@[k]),
        decreases chars.len() - i,
    {
        let c: char = chars[i];
        if c == '(' || c == ')' || c == '[' || c == ']' || c == '{' || c == '}' {
            assert(is_bracket(s@[i as int]));
            return true;
        }
        i += 1;
    }
    false
}

fn length_of_display(n: usize) -> (r: usize)
    ensures
        r == display_length(n as int),
{
    if n <= usize::MAX - 8 {
        n + 8
    } else {
        usize::MAX
    }
}

fn displayed_length(text: &[u8], word: &[u8], start: usize) -> (r: usize)
    ensures
        r == display_at(text@, word@, start as int),
{
    let size: usize = text.len();
    let n: usize = length_of_display(word.len());
    if start > 0 && start <= size && n <= size - start {
        let mut expected: Vec<u8> = bytes_of("<b>");
        push_all(&mut expected, word);
        push_all(&mut expected, "</b> ".as_bytes());
        assert(expected@ =~= displayed(word@));
        if !same_bytes(&text[start..start + n], &expected) {
            return n - 1;
        }
    }
    n
}

/// Collect the forms that can be looked up: the headwords and, unless
/// `headwords_only`, the inflected forms, each leading to the block of its entry.
pub fn build_lookup_terms(
    entries: &[DictionaryEntry],
    positions: &[(usize, usize)],
    text_bytes: &[u8],
    headwords_only: bool,
) -> (r: LookupTable)
    ensures
        r.wf(),
        r@ == lookup_terms(entries@, positions@, text_bytes@, headwords_only),
{
    let count: usize = if entries.len() <= positions.len() {
        entries.len()
    } else {
        positions.len()
    };
    let mut table = LookupTable::new();
    let mut n: usize = 0;
    while n < count
        invariant
            count == placed(entries@, positions@),
            n <= count,
            table.wf(),
            table@ == headword_terms(entries@, positions@, text_bytes@, n as nat),
        decreases count - n,
    {
        let word = entries[n].headword.as_str();
        let (start, length) = positions[n];
        let display: usize = displayed_length(text_bytes, word.as_bytes(), start);
        table.put(
            word,
            Target {
                start_pos: start,
                text_len: length,
                headword_display_len: display,
                source_ordinal: n,
            },
        );
        n += 1;
    }
    if headwords_only {
        return table;
    }
    let ghost heads = table@;
    n = 0;
    while n < count
        invariant
            count == placed(entries@, positions@),
            n <= count,
            table.wf(),
            table@ == with_all_forms(heads, entries@, positions@, n as nat),
        decreases count - n,
    {
        let entry = &entries[n];
        let (start, length) = positions[n];
        let ghost before = table@;
        let mut k: usize = 0;
        while k < entry.inflections.len()
            invariant
                n < entries@.len(),
                n < positions@.len(),
                *entry == entries@[n as int],
                (start, length) == positions@[n as int],
                k <= entry.inflections@.len(),
                table.wf(),
                table@ == with_forms(before, entries@, positions@, n as int, k as nat),
            decreases entry.inflections.len() - k,
        {
            let form = entry.inflections[k].as_str();
            if table.find(form).is_none() && !holds_bracket(form) {
                let display: usize = match table.find(entry.headword.as_str()) {
                    Some(i) => table.targets[i].headword_display_len,
                    None => length_of_display(form.as_bytes().len()),
                };
                table.add(
                    form,
                    Target {
                        start_pos: start,
                        text_len: length,
                        headword_display_len: display,
                        source_ordinal: n,
                    },
                );
            }
            k += 1;
        }
        n += 1;
    }
    table
}

/// `form` is the headword of the entry or one of its inflected forms.
pub open spec fn is_form_of(entry: DictionaryEntry, form: Seq<char>) -> bool {
    entry.headword@ == form || exists|k: int|
        0 <= k < entry.inflections@.len() && (#[trigger] entry.inflections@[k])@ == form
}

/// A term leads to the block of an entry that has its label among its forms.
pub open spec fn leads_home(
    t: Term,
    entries: Seq<DictionaryEntry>,
    positions: Seq<(usize, usize)>,
) -> bool {
    &&& 0 <= t.ordinal < placed(entries, positions)
    &&& t.start == positions[t.ordinal].0
    &&& t.length == positions[t.ordinal].1
    &&& is_form_of(entries[t.ordinal], t.label)
}

/// All terms lead home, and no label occurs twice.
pub open spec fn sound(
    terms: Seq<Term>,
    entries: Seq<DictionaryEntry>,
    positions: Seq<(usize, usize)>,
) -> bool {
    &&& distinct(labels(terms))
    &&& forall|i: int| 0 <= i < terms.len() ==> leads_home(#[trigger] terms[i], entries, positions)
}

/// A form has a term.
pub open spec fn is_found(terms: Seq<Term>, form: Seq<char>) -> bool {
    exists|i: int| 0 <= i < terms.len() && (#[trigger] terms[i]).label == form
}

proof fn put_keeps_sound(
    terms: Seq<Term>,
    t: Term,
    entries: Seq<DictionaryEntry>,
    positions: Seq<(usize, usize)>,
)
    requires
        sound(terms, entries, positions),
        leads_home(t, entries, positions),
    ensures
        sound(with_term(terms, t), entries, positions),
        is_found(with_term(terms, t), t.label),
        forall|form: Seq<char>| is_found(terms, form) ==> #[trigger] is_found(
            with_term(terms, t),
            form,
        ),
{
    let list = labels(terms);
    distinct_index(list, t.label);
    let r = with_term(terms, t);
    match last_index(list, t.label) {
        Some(i) => {
            assert(list[i as int] == t.label);
            assert(terms[i as int].label == t.label);
            assert(labels(r) =~= list);
            assert(r[i as int].label == t.label);
            assert forall|form: Seq<char>| is_found(terms, form) implies #[trigger] is_found(
                r,
                form,
            ) by {
                let k = choose|k: int| 0 <= k < terms.len() && (#[trigger] terms[k]).label == form;
                assert(r[k].label == form);
            }
        },
        None => {
            push_keeps_sound(terms, t, entries, positions);
        },
    }
}

proof fn push_keeps_sound(
    terms: Seq<Term>,
    t: Term,
    entries: Seq<DictionaryEntry>,
    positions: Seq<(usize, usize)>,
)
    requires
        sound(terms, entries, positions),
        leads_home(t, entries, positions),
        last_index(labels(terms), t.label) is None,
    ensures
        sound(terms.push(t), entries, positions),
        is_found(terms.push(t), t.label),
        forall|form: Seq<char>| is_found(terms, form) ==> #[trigger] is_found(terms.push(t), form),
{
    let list = labels(terms);
    let r = terms.push(t);
    distinct_index(list, t.label);
    assert(labels(r) =~= list.push(t.label));
    assert forall|i: int| 0 <= i < list.len() implies list[i] != t.label by {
        if list[i] == t.label {
            assert(last_index(list, t.label) == Some(i as nat));
        }
    }
    assert(r[terms.len() as int].label == t.label);
    assert forall|form: Seq<char>| is_found(terms, form) implies #[trigger] is_found(r, form) by {
        let k = choose|k: int| 0 <= k < terms.len() && (#[trigger] terms[k]).label == form;
        assert(r[k].label == form);
    }
}

proof fn index_means_found(terms: Seq<Term>, form: Seq<char>)
    requires
        distinct(labels(terms)),
        last_index(labels(terms), form) is Some,
    ensures
        is_found(terms, form),
{
    distinct_index(labels(terms), form);
    let i = last_index(labels(terms), form)->0 as int;
    assert(terms[i].label == form);
}

proof fn headwords_sound(
    entries: Seq<DictionaryEntry>,
    positions: Seq<(usize, usize)>,
    text: Seq<u8>,
    n: nat,
)
    requires
        n <= placed(entries, positions),
    ensures
        sound(headword_terms(entries, positions, text, n), entries, positions),
        forall|j: int|
            0 <= j < n ==> is_found(
                headword_terms(entries, positions, text, n),
                #[trigger] entries[j].headword@,
            ),
    decreases n,
{
    if n > 0 {
        headwords_sound(entries, positions, text, (n - 1) as nat);
        put_keeps_sound(
            headword_terms(entries, positions, text, (n - 1) as nat),
            headword_term(entries, positions, text, n - 1),
            entries,
            positions,
        );
    }
}

proof fn forms_sound(
    terms: Seq<Term>,
    entries: Seq<DictionaryEntry>,
    positions: Seq<(usize, usize)>,
    n: int,
    k: nat,
)
    requires
        sound(terms, entries, positions),
        0 <= n < placed(entries, positions),
        k <= entries[n].inflections@.len(),
    ensures
        sound(with_forms(terms, entries, positions, n, k), entries, positions),
        forall|form: Seq<char>|
            is_found(terms, form) ==> #[trigger] is_found(
                with_forms(terms, entries, positions, n, k),
                form,
            ),
        forall|j: int|
            0 <= j < k && !has_bracket((#[trigger] entries[n].inflections@[j])@) ==> is_found(
                with_forms(terms, entries, positions, n, k),
                entries[n].inflections@[j]@,
            ),
    decreases k,
{
    if k > 0 {
        forms_sound(terms, entries, positions, n, (k - 1) as nat);
        let before = with_forms(terms, entries, positions, n, (k - 1) as nat);
        let form = entries[n].inflections@[k - 1]@;
        let t = form_term(before, entries, positions, n, form);
        assert(is_form_of(entries[n], form));
        if last_index(labels(before), form) is Some {
            index_means_found(before, form);
        } else if !has_bracket(form) {
            push_keeps_sound(before, t, entries, positions);
        }
    }
}

proof fn all_forms_sound(
    terms: Seq<Term>,
    entries: Seq<DictionaryEntry>,
    positions: Seq<(usize, usize)>,
    n: nat,
)
    requires
        sound(terms, entries, positions),
        n <= placed(entries, positions),
    ensures
        sound(with_all_forms(terms, entries, positions, n), entries, positions),
        forall|form: Seq<char>|
            is_found(terms, form) ==> #[trigger] is_found(
                with_all_forms(terms, entries, positions, n),
                form,
            ),
        forall|i: int, j: int|
            0 <= i < n && 0 <= j < entries[i].inflections@.len() && !has_bracket(
                (#[trigger] entries[i].inflections@[j])@,
            ) ==> is_found(
                with_all_forms(terms, entries, positions, n),
                entries[i].inflections@[j]@,
            ),
    decreases n,
{
    if n > 0 {
        let before = with_all_forms(terms, entries, positions, (n - 1) as nat);
        all_forms_sound(terms, entries, positions, (n - 1) as nat);
        forms_sound(before, entries, positions, n - 1, entries[n - 1].inflections@.len());
    }
}

/// Looking up any form finds an entry that has it: every term leads to the block of an
/// entry that has its label as headword or inflected form, no label occurs twice, and
/// every headword, and every inflected form without brackets unless headwords alone
/// are wanted, has its term.
pub proof fn lookup_finds_entries(
    entries: Seq<DictionaryEntry>,
    positions: Seq<(usize, usize)>,
    text: Seq<u8>,
    headwords_only: bool,
)
    ensures
        ({
            let terms = lookup_terms(entries, positions, text, headwords_only);
            let n = placed(entries, positions);
            &&& distinct(labels(terms))
            &&& forall|i: int|
                0 <= i < terms.len() ==> leads_home(#[trigger] terms[i], entries, positions)
            &&& forall|j: int| 0 <= j < n ==> is_found(terms, #[trigger] entries[j].headword@)
            &&& !headwords_only ==> forall|i: int, j: int|
                0 <= i < n && 0 <= j < entries[i].inflections@.len() && !has_bracket(
                    (#[trigger] entries[i].inflections@[j])@,
                ) ==> is_found(terms, entries[i].inflections@[j]@)
        }),
{
    let n = placed(entries, positions);
    headwords_sound(entries, positions, text, n);
    let heads = headword_terms(entries, positions, text, n);
    all_forms_sound(heads, entries, positions, n);
}

/// `form` is the headword of one of the first `n` entries.
pub open spec fn is_headword(entries: Seq<DictionaryEntry>, n: int, form: Seq<char>) -> bool {
    exists|i: int| 0 <= i < n && (#[trigger] entries[i]).headword@ == form
}

/// `form` is an inflected form of the entry, among the first `k`.
pub open spec fn is_inflected(entry: DictionaryEntry, k: int, form: Seq<char>) -> bool {
    exists|j: int| 0 <= j < k && (#[trigger] entry.inflections@[j])@ == form
}

/// `t` leads to the last of the first `n` entries that have its label as headword.
spec fn is_last_headword(entries: Seq<DictionaryEntry>, n: int, t: Term) -> bool {
    &&& 0 <= t.ordinal < n
    &&& entries[t.ordinal].headword@ == t.label
    &&& forall|i: int| t.ordinal < i < n ==> (#[trigger] entries[i]).headword@ != t.label
}

proof fn headwords_are_last(
    entries: Seq<DictionaryEntry>,
    positions: Seq<(usize, usize)>,
    text: Seq<u8>,
    n: nat,
)
    requires
        n <= placed(entries, positions),
    ensures
        forall|i: int|
            0 <= i < headword_terms(entries, positions, text, n).len() ==> is_last_headword(
                entries,
                n as int,
                #[trigger] headword_terms(entries, positions, text, n)[i],
            ),
    decreases n,
{
    if n > 0 {
        let m = (n - 1) as nat;
        headwords_are_last(entries, positions, text, m);
        headwords_sound(entries, positions, text, m);
        let before = headword_terms(entries, positions, text, m);
        let t = headword_term(entries, positions, text, n - 1);
        let r = headword_terms(entries, positions, text, n);
        distinct_index(labels(before), t.label);
        assert forall|i: int| 0 <= i < r.len() implies is_last_headword(
            entries,
            n as int,
            #[trigger] r[i],
        ) by {
            if r[i] != t {
                assert(before[i] == r[i]);
                assert(labels(before)[i] == before[i].label);
                assert(is_last_headword(entries, m as int, before[i]));
                assert(before[i].label != t.label) by {
                    if before[i].label == t.label {
                        assert(last_index(labels(before), t.label) == Some(i as nat));
                    }
                }
            }
        }
    }
}

/// `t` is a term of the headwords, or a form that leads to the first entry, up to inflected form `k`
/// of entry `n`, that has it, and no headword.
spec fn is_first_form(
    heads: Seq<Term>,
    entries: Seq<DictionaryEntry>,
    n: int,
    k: int,
    t: Term,
) -> bool {
    heads.contains(t) || {
        &&& !is_found(heads, t.label)
        &&& !has_bracket(t.label)
        &&& 0 <= t.ordinal <= n
        &&& t.ordinal == n ==> is_inflected(entries[n], k, t.label)
        &&& t.ordinal < n ==> is_inflected(
            entries[t.ordinal],
            entries[t.ordinal].inflections@.len() as int,
            t.label,
        )
        &&& forall|i: int|
            0 <= i < t.ordinal ==> !is_inflected(
                #[trigger] entries[i],
                entries[i].inflections@.len() as int,
                t.label,
            )
    }
}

proof fn forms_are_first(
    heads: Seq<Term>,
    entries: Seq<DictionaryEntry>,
    positions: Seq<(usize, usize)>,
    n: int,
    k: nat,
)
    requires
        sound(heads, entries, positions),
        0 <= n < placed(entries, positions),
        k <= entries[n].inflections@.len(),
    ensures
        ({
            let terms = with_forms(
                with_all_forms(heads, entries, positions, n as nat),
                entries,
                positions,
                n,
                k,
            );
            forall|i: int|
                0 <= i < terms.len() ==> is_first_form(
                    heads,
                    entries,
                    n,
                    k as int,
                    #[trigger] terms[i],
                )
        }),
    decreases n, k,
{
    let base = with_all_forms(heads, entries, positions, n as nat);
    let terms = with_forms(base, entries, positions, n, k);
    if k == 0 {
        if n == 0 {
            assert forall|i: int| 0 <= i < terms.len() implies is_first_form(
                heads,
                entries,
                n,
                0,
                #[trigger] terms[i],
            ) by {
                assert(heads[i] == terms[i]);
            }
        } else {
            let m = n - 1;
            let all = entries[m].inflections@.len();
            forms_are_first(heads, entries, positions, m, all);
            let same = with_forms(
                with_all_forms(heads, entries, positions, m as nat),
                entries,
                positions,
                m,
                all,
            );
            assert(terms == same);
            assert forall|i: int| 0 <= i < terms.len() implies is_first_form(
                heads,
                entries,
                n,
                0,
                #[trigger] terms[i],
            ) by {
                assert(is_first_form(heads, entries, m, all as int, same[i]));
            }
        }
    } else {
        let j = k - 1;
        forms_are_first(heads, entries, positions, n, j as nat);
        all_forms_sound(heads, entries, positions, n as nat);
        forms_sound(base, entries, positions, n, j as nat);
        let before = with_forms(base, entries, positions, n, j as nat);
        let form = entries[n].inflections@[j]@;
        let t = form_term(before, entries, positions, n, form);
        assert forall|i: int| 0 <= i < terms.len() implies is_first_form(
            heads,
            entries,
            n,
            k as int,
            #[trigger] terms[i],
        ) by {
            if i < before.len() {
                assert(before[i] == terms[i]);
                let u = before[i];
                assert(is_first_form(heads, entries, n, j, u));
                if !heads.contains(u) && u.ordinal == n {
                    let w = choose|w: int|
                        0 <= w < j && (#[trigger] entries[n].inflections@[w])@ == u.label;
                    assert(entries[n].inflections@[w]@ == u.label);
                }
            } else {
                assert(terms[i] == t);
                assert(!is_found(before, form)) by {
                    if is_found(before, form) {
                        let w = choose|w: int|
                            0 <= w < before.len() && (#[trigger] before[w]).label == form;
                        assert(labels(before)[w] == form);
                        distinct_index(labels(before), form);
                    }
                }
                assert(!is_found(heads, form));
                assert(entries[n].inflections@[j]@ == form);
                assert forall|e: int| 0 <= e < n implies !is_inflected(
                    #[trigger] entries[e],
                    entries[e].inflections@.len() as int,
                    form,
                ) by {
                    if is_inflected(entries[e], entries[e].inflections@.len() as int, form) {
                        let w = choose|w: int|
                            0 <= w < entries[e].inflections@.len()
                                && (#[trigger] entries[e].inflections@[w])@ == form;
                        assert(!has_bracket(entries[e].inflections@[w]@));
                        assert(is_found(base, form));
                    }
                }
            }
        }
    }
}

proof fn all_forms_are_first(
    heads: Seq<Term>,
    entries: Seq<DictionaryEntry>,
    positions: Seq<(usize, usize)>,
    n: nat,
)
    requires
        sound(heads, entries, positions),
        n <= placed(entries, positions),
    ensures
        forall|i: int|
            0 <= i < with_all_forms(heads, entries, positions, n).len() ==> is_first_form(
                heads,
                entries,
                n as int,
                0,
                #[trigger] with_all_forms(heads, entries, positions, n)[i],
            ),
{
    let terms = with_all_forms(heads, entries, positions, n);
    if n == 0 {
        assert forall|i: int| 0 <= i < terms.len() implies is_first_form(
            heads,
            entries,
            0,
            0,
            #[trigger] terms[i],
        ) by {
            assert(heads[i] == terms[i]);
        }
    } else {
        let all = entries[n - 1].inflections@.len();
        forms_are_first(heads, entries, positions, n - 1, all);
        let same = with_forms(
            with_all_forms(heads, entries, positions, (n - 1) as nat),
            entries,
            positions,
            n - 1,
            all,
        );
        assert(terms == same);
        assert forall|i: int| 0 <= i < terms.len() implies is_first_form(
            heads,
            entries,
            n as int,
            0,
            #[trigger] terms[i],
        ) by {
            assert(is_first_form(heads, entries, n - 1, all as int, same[i]));
        }
    }
}

/// Which entry a form leads to: a headword leads to the last entry that has it as headword, any other
/// form to the first entry that has it among its inflected forms. Such a form is wanted, and none of
/// its characters is a bracket.
pub proof fn forms_lead_to_one_entry(
    entries: Seq<DictionaryEntry>,
    positions: Seq<(usize, usize)>,
    text: Seq<u8>,
    headwords_only: bool,
    i: int,
)
    requires
        entries.len() == positions.len(),
        0 <= i < lookup_terms(entries, positions, text, headwords_only).len(),
    ensures
        ({
            let t = lookup_terms(entries, positions, text, headwords_only)[i];
            let n = entries.len() as int;
            &&& 0 <= t.ordinal < n
            &&& if is_headword(entries, n, t.label) {
                &&& entries[t.ordinal].headword@ == t.label
                &&& forall|e: int| t.ordinal < e < n ==> (#[trigger] entries[e]).headword@ != t.label
            } else {
                &&& !headwords_only
                &&& is_inflected(
                    entries[t.ordinal],
                    entries[t.ordinal].inflections@.len() as int,
                    t.label,
                )
                &&& forall|e: int|
                    0 <= e < t.ordinal ==> !is_inflected(
                        #[trigger] entries[e],
                        entries[e].inflections@.len() as int,
                        t.label,
                    )
                &&& forall|c: int|
                    0 <= c < t.label.len() ==> !"()[]{}"@.contains(#[trigger] t.label[c])
            }
        }),
{
    let n = placed(entries, positions);
    let heads = headword_terms(entries, positions, text, n);
    let terms = lookup_terms(entries, positions, text, headwords_only);
    let t = terms[i];
    headwords_sound(entries, positions, text, n);
    headwords_are_last(entries, positions, text, n);
    lookup_finds_entries(entries, positions, text, headwords_only);
    reveal_strlit("()[]{}");
    if headwords_only {
        assert(is_last_headword(entries, n as int, heads[i]));
        assert(entries[t.ordinal].headword@ == t.label);
    } else {
        all_forms_are_first(heads, entries, positions, n);
        assert(is_first_form(heads, entries, n as int, 0, t));
        if heads.contains(t) {
            let h = choose|h: int| 0 <= h < heads.len() && heads[h] == t;
            assert(is_last_headword(entries, n as int, heads[h]));
            assert(entries[t.ordinal].headword@ == t.label);
        } else {
            assert(!is_headword(entries, n as int, t.label)) by {
                if is_headword(entries, n as int, t.label) {
                    let e = choose|e: int|
                        0 <= e < n && (#[trigger] entries[e]).headword@ == t.label;
                    assert(is_found(heads, entries[e].headword@));
                }
            }
            assert forall|c: int| 0 <= c < t.label.len() implies !"()[]{}"@.contains(
                #[trigger] t.label[c],
            ) by {
                assert(!is_bracket(t.label[c]));
            }
        }
    }
}

/// Every headword can be looked up, and so can every inflected form without brackets where such forms
/// are wanted.
pub proof fn forms_without_brackets_are_found(
    entries: Seq<DictionaryEntry>,
    positions: Seq<(usize, usize)>,
    text: Seq<u8>,
    n: int,
    form: Seq<char>,
)
    requires
        entries.len() == positions.len(),
        0 <= n < entries.len(),
        is_form_of(entries[n], form),
        forall|c: int| 0 <= c < form.len() ==> !"()[]{}"@.contains(#[trigger] form[c]),
    ensures
        exists|i: int|
            0 <= i < lookup_terms(entries, positions, text, false).len() && #[trigger] lookup_terms(
                entries,
                positions,
                text,
                false,
            )[i].label == form,
{
    lookup_finds_entries(entries, positions, text, false);
    let terms = lookup_terms(entries, positions, text, false);
    reveal_strlit("()[]{}");
    assert(!has_bracket(form)) by {
        if has_bracket(form) {
            let c = choose|c: int| 0 <= c < form.len() && is_bracket(#[trigger] form[c]);
            let b = "()[]{}"@;
            assert(b[0] == '(' && b[1] == ')' && b[2] == '[' && b[3] == ']' && b[4] == '{' && b[5]
                == '}');
            assert(b.contains(form[c]));
        }
    }
    assert(is_found(terms, form)) by {
        if entries[n].headword@ != form {
            let k = choose|k: int|
                0 <= k < entries[n].inflections@.len()
                    && (#[trigger] entries[n].inflections@[k])@ == form;
            assert(is_found(terms, entries[n].inflections@[k]@));
        } else {
            assert(is_found(terms, entries[n].headword@));
        }
    }
    let i = choose|i: int| 0 <= i < terms.len() && (#[trigger] terms[i]).label == form;
    assert(terms[i].label == form);
}

/// A headword that the text shows in bold with a space behind it, where its entry begins, is
/// displayed as far as that space; one that the text shows otherwise there, one byte less.
pub proof fn headwords_are_displayed_in_bold(text: Seq<u8>, word: Seq<u8>, start: int)
    requires
        0 < start,
        word.len() + 8 <= usize::MAX,
        start + word.len() + 8 <= text.len(),
    ensures
        occurs_at(text, utf8("<b>"@) + word + utf8("</b> "@), start) ==> start + display_at(
            text,
            word,
            start,
        ) == start + (utf8("<b>"@) + word + utf8("</b> "@)).len(),
        !occurs_at(text, utf8("<b>"@) + word + utf8("</b> "@), start) ==> display_at(
            text,
            word,
            start,
        ) == (utf8("<b>"@) + word + utf8("</b>"@)).len(),
{
    marker_lengths();
    reveal_strlit("</b>");
    vstd::utf8::is_ascii_chars_encode_utf8("</b>"@);
}

/// A lookup term with its label as the index encodes it.
pub struct LookupTerm {
    pub label: String,
    pub label_bytes: Vec<u8>,
    pub start_pos: usize,
    pub text_len: usize,
    pub headword_display_len: usize,
    pub source_ordinal: usize,
}

impl View for LookupTerm {
    type V = Term;

    open spec fn view(&self) -> Term {
        Term {
            label: self.label@,
            start: self.start_pos as int,
            length: self.text_len as int,
            display: self.headword_display_len as int,
            ordinal: self.source_ordinal as int,
        }
    }
}

/// `r` holds the terms in the order of their encoded labels.
pub open spec fn in_label_order(
    r: Seq<LookupTerm>,
    terms: Seq<Term>,
    encoded: Seq<Vec<u8>>,
    order: Seq<usize>,
) -> bool {
    &&& is_order(all_ranks(encoded), order, 0, encoded.len() as int)
    &&& r.len() == terms.len()
    &&& forall|i: int|
        0 <= i < r.len() ==> (#[trigger] r[i])@ == terms[order[i] as int] && r[i].label_bytes@
            == encoded[order[i] as int]@
}

/// Put the terms in the order of their encoded labels, which `encoded` holds in the
/// order of the table.
pub fn sort_lookup_terms(table: &LookupTable, encoded: &[Vec<u8>]) -> (r: Vec<LookupTerm>)
    requires
        table.wf(),
        encoded@.len() == table@.len(),
    ensures
        exists|order: Seq<usize>| in_label_order(r@, table@, encoded@, order),
{
    let order = stable_order(encoded);
    let mut r: Vec<LookupTerm> = Vec::new();
    let mut i: usize = 0;
    while i < order.len()
        invariant
            table.wf(),
            encoded@.len() == table@.len(),
            is_order(all_ranks(encoded@), order@, 0, encoded@.len() as int),
            i <= order@.len(),
            r@.len() == i,
            forall|k: int|
                0 <= k < i ==> (#[trigger] r@[k])@ == table@[order@[k] as int]
                    && r@[k].label_bytes@ == encoded@[order@[k] as int]@,
        decreases order.len() - i,
    {
        let at: usize = order[i];
        assert(0 <= order@[i as int] < encoded@.len());
        let target: Target = table.targets[at];
        let mut bytes: Vec<u8> = Vec::new();
        push_all(&mut bytes, &encoded[at]);
        assert(bytes@ =~= encoded@[at as int]@);
        r.push(
            LookupTerm {
                label: table.labels.get(at).to_owned(),
                label_bytes: bytes,
                start_pos: target.start_pos,
                text_len: target.text_len,
                headword_display_len: target.headword_display_len,
                source_ordinal: target.source_ordinal,
            },
        );
        i += 1;
    }
    assert(in_label_order(r@, table@, encoded@, order@));
    r
}

} // verus!
