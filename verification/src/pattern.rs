//! The regular expressions that markup is taken apart with.
//!
//! Matching itself is the regex crate's work. What is done with the matches is
//! ordinary text handling over the pieces that it returns.
use regex::Regex;
use vstd::prelude::*;

verus! {

/// One of the library's regular expressions.
#[derive(Clone, Copy, PartialEq, Eq, Structural)]
pub enum Pattern {
    /// An XML declaration with the white space behind it.
    XmlDeclaration,
    /// A namespace attribute with a prefix.
    PrefixedNamespace,
    /// The default namespace attribute.
    DefaultNamespace,
    /// A head element without attributes.
    BareHead,
    /// A head element.
    Head,
    /// A body element; its content is the group.
    Body,
    /// An inflected form.
    InflectedForm,
    /// A list of inflections with nothing in it.
    EmptyInflections,
    /// A list of inflections.
    Inflections,
    /// A headword tag that closes itself.
    ClosedOrth,
    /// The opening tag of a headword.
    OpenOrth,
    /// The closing tag of a headword.
    CloseOrth,
    /// The opening tag of a short entry.
    OpenShort,
    /// The closing tag of a short entry.
    CloseShort,
    /// The opening tag of an entry.
    OpenEntry,
    /// The closing tag of an entry.
    CloseEntry,
    /// A run of white space.
    Space,
    /// White space between two tags.
    TagGap,
    /// A source attribute; its value is the group.
    Source,
    /// The opening of a tag that takes an anchor: its name, and what follows it.
    AnchoredTag,
    /// The reference of an image element; its value is the group.
    ImageReference,
}

/// The source text of a pattern.
pub open spec fn source(p: Pattern) -> Seq<char> {
    match p {
        Pattern::XmlDeclaration => "<\\?xml[^?]*\\?>\\s*"@,
        Pattern::PrefixedNamespace => "\\s+xmlns:\\w+=\"[^\"]*\""@,
        Pattern::DefaultNamespace => "\\s+xmlns=\"[^\"]*\""@,
        Pattern::BareHead => "(?s)<head>.*?</head>"@,
        Pattern::Head => "(?s)<head[^>]*>.*?</head>"@,
        Pattern::Body => "(?s)<body[^>]*>(.*?)</body>"@,
        Pattern::InflectedForm => "<idx:iform[^/]*/>\\s*"@,
        Pattern::EmptyInflections => "<idx:infl>\\s*</idx:infl>\\s*"@,
        Pattern::Inflections => "(?s)\\s*<idx:infl>.*?</idx:infl>\\s*"@,
        Pattern::ClosedOrth => "<idx:orth[^>]*/>"@,
        Pattern::OpenOrth => "<idx:orth[^>]*>"@,
        Pattern::CloseOrth => "</idx:orth>"@,
        Pattern::OpenShort => "<idx:short>\\s*"@,
        Pattern::CloseShort => "\\s*</idx:short>"@,
        Pattern::OpenEntry => "<idx:entry[^>]*>\\s*"@,
        Pattern::CloseEntry => "\\s*</idx:entry>"@,
        Pattern::Space => "\\s+"@,
        Pattern::TagGap => ">\\s+<"@,
        Pattern::Source => "(?i)\\bsrc\\s*=\\s*\"([^\"]*)\""@,
        Pattern::AnchoredTag => "<(p|div|h[1-6]|li|ul|ol|table|tr|td|th|section|article|aside|nav|header|footer|figure|figcaption|blockquote|img|span|a|em|strong|b|i|body)(\\s|>|/)"@,
        Pattern::ImageReference => "(?i)<(?:img\\s[^>]*?\\bsrc|image\\s[^>]*?\\bhref)\\s*=\\s*\"([^\"]*)\""@,
    }
}

fn source_text(p: Pattern) -> (r: &'static str)
    ensures
        r@ == source(p),
{
    match p {
        Pattern::XmlDeclaration => "<\\?xml[^?]*\\?>\\s*",
        Pattern::PrefixedNamespace => "\\s+xmlns:\\w+=\"[^\"]*\"",
        Pattern::DefaultNamespace => "\\s+xmlns=\"[^\"]*\"",
        Pattern::BareHead => "(?s)<head>.*?</head>",
        Pattern::Head => "(?s)<head[^>]*>.*?</head>",
        Pattern::Body => "(?s)<body[^>]*>(.*?)</body>",
        Pattern::InflectedForm => "<idx:iform[^/]*/>\\s*",
        Pattern::EmptyInflections => "<idx:infl>\\s*</idx:infl>\\s*",
        Pattern::Inflections => "(?s)\\s*<idx:infl>.*?</idx:infl>\\s*",
        Pattern::ClosedOrth => "<idx:orth[^>]*/>",
        Pattern::OpenOrth => "<idx:orth[^>]*>",
        Pattern::CloseOrth => "</idx:orth>",
        Pattern::OpenShort => "<idx:short>\\s*",
        Pattern::CloseShort => "\\s*</idx:short>",
        Pattern::OpenEntry => "<idx:entry[^>]*>\\s*",
        Pattern::CloseEntry => "\\s*</idx:entry>",
        Pattern::Space => "\\s+",
        Pattern::TagGap => ">\\s+<",
        Pattern::Source => "(?i)\\bsrc\\s*=\\s*\"([^\"]*)\"",
        Pattern::AnchoredTag => "<(p|div|h[1-6]|li|ul|ol|table|tr|td|th|section|article|aside|nav|header|footer|figure|figcaption|blockquote|img|span|a|em|strong|b|i|body)(\\s|>|/)",
        Pattern::ImageReference => "(?i)<(?:img\\s[^>]*?\\bsrc|image\\s[^>]*?\\bhref)\\s*=\\s*\"([^\"]*)\"",
    }
}

/// A match: the text of each group, the whole of it first. A group that took no
/// part has no text.
pub struct Found {
    pub groups: Vec<Option<String>>,
}

/// The texts of a match.
pub open spec fn group_texts(f: Found) -> Seq<Option<Seq<char>>> {
    Seq::new(f.groups@.len(), |i: int| crate::text::opt_string(f.groups@[i]))
}

/// The texts of all matches.
pub open spec fn found_texts(found: Seq<Found>) -> Seq<Seq<Option<Seq<char>>>> {
    Seq::new(found.len(), |i: int| group_texts(found[i]))
}

/// The texts of strings.
pub open spec fn texts(list: Seq<String>) -> Seq<Seq<char>> {
    Seq::new(list.len(), |i: int| list[i]@)
}

/// The text of group `n` of a match, empty if it took no part.
pub open spec fn group(m: Seq<Option<Seq<char>>>, n: int) -> Seq<char> {
    if 0 <= n < m.len() && m[n] is Some {
        m[n]->0
    } else {
        seq![]
    }
}

/// The pieces with the joints between them.
pub open spec fn woven(pieces: Seq<Seq<char>>, joints: Seq<Seq<char>>) -> Seq<char>
    decreases joints.len(),
{
    if joints.len() == 0 {
        if pieces.len() == 0 {
            seq![]
        } else {
            pieces[0]
        }
    } else {
        woven(pieces.drop_last(), joints.drop_last()) + joints.last() + pieces.last()
    }
}

/// The whole text of each match.
pub open spec fn wholes(found: Seq<Seq<Option<Seq<char>>>>) -> Seq<Seq<char>> {
    Seq::new(found.len(), |i: int| group(found[i], 0))
}

/// What `Regex::replace_all` makes of `text`.
pub uninterp spec fn regex_replaced(pattern: Seq<char>, text: Seq<char>, by: Seq<char>) -> Seq<char>;

/// What `Regex::captures_iter` finds in `text`.
pub uninterp spec fn regex_found(pattern: Seq<char>, text: Seq<char>) -> Seq<
    Seq<Option<Seq<char>>>,
>;

/// What `Regex::split` leaves of `text`.
pub uninterp spec fn regex_split(pattern: Seq<char>, text: Seq<char>) -> Seq<Seq<char>>;

/// A text is the source of one of the patterns, all of which are regular expressions.
pub open spec fn is_source(text: Seq<char>) -> bool {
    exists|p: Pattern| text == #[trigger] source(p)
}

/// `Regex::replace_all` with a fixed replacement. Claimed: the result is a function of the
/// pattern, the text and the replacement.
#[verifier::external_body]
fn regex_replace_all(pattern: &str, text: &str, by: &str) -> (r: String)
    requires
        is_source(pattern@),
    ensures
        r@ == regex_replaced(pattern@, text@, by@),
{
    Regex::new(pattern).unwrap().replace_all(text, by).to_string()
}

/// `Regex::captures_iter`: the matches from left to right, apart from each other,
/// each with the texts of its groups. Claimed: the result is a function of the pattern and
/// the text.
#[verifier::external_body]
fn regex_captures(pattern: &str, text: &str) -> (r: Vec<Found>)
    requires
        is_source(pattern@),
    ensures
        found_texts(r@) == regex_found(pattern@, text@),
{
    Regex::new(pattern).unwrap().captures_iter(text).map(
        |c| Found { groups: c.iter().map(|g| g.map(|m| m.as_str().to_string())).collect() },
    ).collect()
}

/// `Regex::split`: what stands before, between and behind the matches. Claimed: the result
/// is a function of the pattern and the text; there is one piece more than there
/// are matches, and the pieces with the matches between them are the text.
#[verifier::external_body]
fn regex_pieces(pattern: &str, text: &str) -> (r: Vec<String>)
    requires
        is_source(pattern@),
    ensures
        texts(r@) == regex_split(pattern@, text@),
        r@.len() == regex_found(pattern@, text@).len() + 1,
        woven(texts(r@), wholes(regex_found(pattern@, text@))) == text@,
{
    Regex::new(pattern).unwrap().split(text).map(|s| s.to_string()).collect()
}

/// The text with each match of a pattern exchanged for `by`.
pub(crate) fn replace_all(p: Pattern, text: &str, by: &str) -> (r: String)
    ensures
        r@ == regex_replaced(source(p), text@, by@),
{
    regex_replace_all(source_text(p), text, by)
}

/// The matches of a pattern, each with the texts of its groups.
pub(crate) fn find_all(p: Pattern, text: &str) -> (r: Vec<Found>)
    ensures
        found_texts(r@) == regex_found(source(p), text@),
{
    regex_captures(source_text(p), text)
}

/// What stands before, between and behind the matches of a pattern.
pub(crate) fn split_at_matches(p: Pattern, text: &str) -> (r: Vec<String>)
    ensures
        texts(r@) == regex_split(source(p), text@),
        r@.len() == regex_found(source(p), text@).len() + 1,
        woven(texts(r@), wholes(regex_found(source(p), text@))) == text@,
{
    regex_pieces(source_text(p), text)
}

/// The text of group `n` of a match, empty if it took no part.
pub fn group_of(f: &Found, n: usize) -> (r: String)
    ensures
        r@ == group(group_texts(*f), n as int),
{
    if n < f.groups.len() {
        match &f.groups[n] {
            Some(t) => t.clone(),
            None => String::new(),
        }
    } else {
        String::new()
    }
}

/// Put the pieces together again, with the joints between them.
pub fn weave(pieces: &Vec<String>, joints: &Vec<String>) -> (r: String)
    requires
        pieces@.len() == joints@.len() + 1,
    ensures
        r@ == woven(texts(pieces@), texts(joints@)),
{
    let mut r = pieces[0].clone();
    let mut i: usize = 0;
    assert(texts(pieces@).take(1)[0] == pieces@[0]@);
    assert(woven(texts(pieces@).take(1), texts(joints@).take(0)) == r@);
    while i < joints.len()
        invariant
            pieces@.len() == joints@.len() + 1,
            i <= joints@.len(),
            r@ == woven(texts(pieces@).take(i + 1), texts(joints@).take(i as int)),
        decreases joints.len() - i,
    {
        r.append(joints[i].as_str());
        r.append(pieces[i + 1].as_str());
        proof {
            let p = texts(pieces@).take(i + 2);
            let j = texts(joints@).take(i + 1);
            assert(p.drop_last() =~= texts(pieces@).take(i + 1));
            assert(j.drop_last() =~= texts(joints@).take(i as int));
        }
        i += 1;
    }
    assert(texts(pieces@).take(i + 1) =~= texts(pieces@));
    assert(texts(joints@).take(i as int) =~= texts(joints@));
    r
}

/// A woven text is what stands before a joint, the joint, and what stands behind it; without joints it
/// is its one piece.
pub proof fn joints_stand_between_pieces(pieces: Seq<Seq<char>>, joints: Seq<Seq<char>>, k: int)
    requires
        pieces.len() == joints.len() + 1,
        0 <= k < joints.len(),
    ensures
        woven(pieces, joints) == woven(pieces.take(k + 1), joints.take(k)) + joints[k] + woven(
            pieces.skip(k + 1),
            joints.skip(k + 1),
        ),
        woven(seq![pieces[k]], seq![]) == pieces[k],
    decreases joints.len(),
{
    let front = woven(pieces.take(k + 1), joints.take(k));
    if k == joints.len() - 1 {
        assert(pieces.take(k + 1) =~= pieces.drop_last());
        assert(joints.take(k) =~= joints.drop_last());
        assert(joints.skip(k + 1) =~= seq![]);
        assert(pieces.skip(k + 1) =~= seq![pieces.last()]);
    } else {
        let p = pieces.drop_last();
        let j = joints.drop_last();
        joints_stand_between_pieces(p, j, k);
        assert(p.take(k + 1) =~= pieces.take(k + 1));
        assert(j.take(k) =~= joints.take(k));
        assert(p.skip(k + 1) =~= pieces.skip(k + 1).drop_last());
        assert(j.skip(k + 1) =~= joints.skip(k + 1).drop_last());
        assert(pieces.skip(k + 1).last() == pieces.last());
        assert(joints.skip(k + 1).last() == joints.last());
        let back = woven(p.skip(k + 1), j.skip(k + 1));
        assert(woven(pieces.skip(k + 1), joints.skip(k + 1)) == back + joints.last()
            + pieces.last());
        assert((front + joints[k] + back) + joints.last() + pieces.last() =~= front + joints[k] + (
        back + joints.last() + pieces.last()));
    }
}

} // verus!
