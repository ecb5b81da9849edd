//! Finding the image that a path in markup refers to.
use vstd::prelude::*;

use crate::pattern::texts;
use crate::text::{contains_slash, file_name, has_slash, last_segment, same_text, utf8};

verus! {

/// The value of a hexadecimal digit.
pub open spec fn hex_value(b: u8) -> Option<int> {
    if 0x30 <= b <= 0x39 {
        Some(b - 0x30)
    } else if 0x41 <= b <= 0x46 {
        Some(b - 0x41 + 10)
    } else if 0x61 <= b <= 0x66 {
        Some(b - 0x61 + 10)
    } else {
        None
    }
}

/// The value of two hexadecimal digits, or of one behind a plus sign.
pub open spec fn escape_value(first: u8, second: u8) -> Option<int> {
    match hex_value(second) {
        Some(low) => if first == 0x2B {
            Some(low)
        } else {
            match hex_value(first) {
                Some(high) => Some(high * 16 + low),
                None => None,
            }
        },
        None => None,
    }
}

/// Bytes with each percent escape decoded, every byte read as one character.
///
/// A percent sign that begins no escape is kept, and the two bytes behind it are
/// lost.
pub open spec fn percent_decoded(s: Seq<u8>) -> Seq<char>
    decreases s.len(),
{
    if s.len() == 0 {
        seq![]
    } else if s[0] != 0x25 {
        seq![s[0] as char] + percent_decoded(s.skip(1))
    } else if s.len() < 3 {
        seq!['%']
    } else {
        let c = match escape_value(s[1], s[2]) {
            Some(v) => v as char,
            None => '%',
        };
        seq![c] + percent_decoded(s.skip(3))
    }
}

fn hex_digit(b: u8) -> (r: Option<u8>)
    ensures
        match r {
            Some(v) => hex_value(b) == Some(v as int) && v < 16,
            None => hex_value(b) is None,
        },
{
    if 0x30 <= b && b <= 0x39 {
        Some(b - 0x30)
    } else if 0x41 <= b && b <= 0x46 {
        Some(b - 0x41 + 10)
    } else if 0x61 <= b && b <= 0x66 {
        Some(b - 0x61 + 10)
    } else {
        None
    }
}

fn escape(first: u8, second: u8) -> (r: Option<u8>)
    ensures
        match r {
            Some(v) => escape_value(first, second) == Some(v as int),
            None => escape_value(first, second) is None,
        },
{
    match hex_digit(second) {
        Some(low) => if first == 0x2B {
            Some(low)
        } else {
            match hex_digit(first) {
                Some(high) => Some(high * 16 + low),
                None => None,
            }
        },
        None => None,
    }
}

/// Decode the percent escapes of a path.
pub fn percent_decode(s: &str) -> (r: String)
    ensures
        r@ == percent_decoded(utf8(s@)),
{
    let bytes = s.as_bytes();
    let size: usize = bytes.len();
    let mut r = String::new();
    let mut i: usize = 0;
    assert(bytes@.skip(0) =~= bytes@);
    assert(r@ + percent_decoded(bytes@) =~= percent_decoded(bytes@));
    while i < size
        invariant
            size == bytes@.len(),
            bytes@ == utf8(s@),
            i <= size,
            percent_decoded(bytes@) == r@ + percent_decoded(bytes@.skip(i as int)),
        decreases size - i,
    {
        let ghost before = r@;
        let ghost rest = bytes@.skip(i as int);
        if bytes[i] != 0x25 {
            r.push(bytes[i] as char);
            i += 1;
            proof {
                assert(rest.skip(1) =~= bytes@.skip(i as int));
                assert(before + (seq![bytes@[i - 1] as char] + percent_decoded(rest.skip(1))) =~= r@
                    + percent_decoded(rest.skip(1)));
            }
        } else if size - i < 3 {
            r.push('%');
            i = size;
            proof {
                assert(bytes@.skip(i as int) =~= seq![]);
                assert(before + seq!['%'] =~= r@ + percent_decoded(seq![]));
            }
        } else {
            let c: char = match escape(bytes[i + 1], bytes[i + 2]) {
                Some(v) => v as char,
                None => '%',
            };
            r.push(c);
            i += 3;
            proof {
                assert(rest.skip(3) =~= bytes@.skip(i as int));
                assert(before + (seq![c] + percent_decoded(rest.skip(3))) =~= r@ + percent_decoded(
                    rest.skip(3),
                ));
            }
        }
    }
    assert(bytes@.skip(i as int) =~= seq![]);
    assert(r@ + percent_decoded(seq![]) =~= r@);
    r
}

/// The last entry of `keys` that is `path`.
pub open spec fn last_index(keys: Seq<Seq<char>>, path: Seq<char>) -> Option<nat>
    decreases keys.len(),
{
    if keys.len() == 0 {
        None
    } else if keys.last() == path {
        Some((keys.len() - 1) as nat)
    } else {
        last_index(keys.drop_last(), path)
    }
}

/// The path from a directory beside the one of the package.
pub open spec fn from_beside(href: Seq<char>) -> Seq<char> {
    "../"@ + href
}

/// The forms under which markup may refer to the images of a package, each a list
/// in the order of the images.
pub struct ImagePaths {
    /// The paths themselves.
    pub exact: Vec<String>,
    /// The paths with percent escapes decoded.
    pub decoded: Vec<String>,
    /// The file names alone.
    pub names: Vec<String>,
    /// The paths as seen from a directory beside that of the package; none if no
    /// document lies in a directory.
    pub beside: Vec<String>,
}

/// Some document of the spine lies in a directory.
pub open spec fn any_nested(spine: Seq<(String, String)>) -> bool {
    exists|i: int| 0 <= i < spine.len() && has_slash((#[trigger] spine[i]).1@)
}

/// The forms of the paths of images, as texts.
pub struct PathForms {
    pub exact: Seq<Seq<char>>,
    pub decoded: Seq<Seq<char>>,
    pub names: Seq<Seq<char>>,
    pub beside: Seq<Seq<char>>,
}

/// The forms of the paths `hrefs`; `nested` says that some document lies in a
/// directory.
pub open spec fn path_forms(hrefs: Seq<Seq<char>>, nested: bool) -> PathForms {
    PathForms {
        exact: hrefs,
        decoded: Seq::new(hrefs.len(), |i: int| percent_decoded(utf8(hrefs[i]))),
        names: Seq::new(hrefs.len(), |i: int| last_segment(hrefs[i])),
        beside: if nested {
            Seq::new(hrefs.len(), |i: int| from_beside(hrefs[i]))
        } else {
            seq![]
        },
    }
}

impl View for ImagePaths {
    type V = PathForms;

    open spec fn view(&self) -> PathForms {
        PathForms {
            exact: texts(self.exact@),
            decoded: texts(self.decoded@),
            names: texts(self.names@),
            beside: texts(self.beside@),
        }
    }
}

impl PathForms {
    /// The image that a path refers to as it stands: by its whole path, else by its
    /// file name, else as seen from a directory beside.
    pub open spec fn plain_index(self, path: Seq<char>) -> Option<nat> {
        match last_index(self.exact, path) {
            Some(i) => Some(i),
            None => match last_index(self.names, path) {
                Some(i) => Some(i),
                None => last_index(self.beside, path),
            },
        }
    }

    /// The image that a path refers to, where the decoded form of its own path counts
    /// too.
    pub open spec fn decoded_index(self, path: Seq<char>) -> Option<nat> {
        match last_index(self.exact, path) {
            Some(i) => Some(i),
            None => match last_index(self.decoded, path) {
                Some(i) => Some(i),
                None => match last_index(self.names, path) {
                    Some(i) => Some(i),
                    None => last_index(self.beside, path),
                },
            },
        }
    }
}

fn find_last(keys: &Vec<String>, path: &str) -> (r: Option<usize>)
    ensures
        match r {
            Some(i) => last_index(texts(keys@), path@) == Some(i as nat) && i < usize::MAX,
            None => last_index(texts(keys@), path@) is None,
        },
{
    let ghost all = texts(keys@);
    let mut n: usize = keys.len();
    assert(all.take(n as int) =~= all);
    while n > 0
        invariant
            all == texts(keys@),
            n <= keys@.len(),
            last_index(all, path@) == last_index(all.take(n as int), path@),
        decreases n,
    {
        assert(all.take(n as int).drop_last() =~= all.take(n - 1));
        assert(all.take(n as int).last() == keys@[n - 1]@);
        if same_text(keys[n - 1].as_str(), path) {
            return Some(n - 1);
        }
        n -= 1;
    }
    None
}

fn any_in_directory(spine_items: &[(String, String)]) -> (r: bool)
    ensures
        r == any_nested(spine_items@),
{
    let mut i: usize = 0;
    while i < spine_items.len()
        invariant
            i <= spine_items@.len(),
            forall|k: int| 0 <= k < i ==> !has_slash((#[trigger] spine_items@[k]).1@),
        decreases spine_items.len() - i,
    {
        if contains_slash(spine_items[i].1.as_str()) {
            return true;
        }
        i += 1;
    }
    false
}

/// List the forms under which markup may refer to the images.
pub fn build_image_path_lookup(hrefs: &[String], spine_items: &[(String, String)]) -> (r: ImagePaths)
    ensures
        r@ == path_forms(texts(hrefs@), any_nested(spine_items@)),
{
    let nested = any_in_directory(spine_items);
    let mut exact: Vec<String> = Vec::new();
    let mut decoded: Vec<String> = Vec::new();
    let mut names: Vec<String> = Vec::new();
    let mut beside: Vec<String> = Vec::new();
    let mut i: usize = 0;
    while i < hrefs.len()
        invariant
            i <= hrefs@.len(),
            exact@.len() == i,
            decoded@.len() == i,
            names@.len() == i,
            beside@.len() == if nested { i as int } else { 0 },
            forall|k: int| 0 <= k < i ==> #[trigger] exact@[k]@ == hrefs@[k]@,
            forall|k: int| 0 <= k < i ==> #[trigger] decoded@[k]@ == percent_decoded(utf8(hrefs@[k]@)),
            forall|k: int| 0 <= k < i ==> #[trigger] names@[k]@ == last_segment(hrefs@[k]@),
            nested ==> forall|k: int| 0 <= k < i ==> #[trigger] beside@[k]@ == from_beside(hrefs@[k]@),
        decreases hrefs.len() - i,
    {
        let href = hrefs[i].as_str();
        exact.push(hrefs[i].clone());
        decoded.push(percent_decode(href));
        names.push(file_name(href));
        if nested {
            let mut path = "../".to_owned();
            path.append(href);
            beside.push(path);
        }
        i += 1;
    }
    let r = ImagePaths { exact, decoded, names, beside };
    proof {
        let h = texts(hrefs@);
        assert(texts(r.exact@) =~= h);
        assert(texts(r.decoded@) =~= Seq::new(h.len(), |i: int| percent_decoded(utf8(h[i]))));
        assert(texts(r.names@) =~= Seq::new(h.len(), |i: int| last_segment(h[i])));
        if nested {
            assert(texts(r.beside@) =~= Seq::new(h.len(), |i: int| from_beside(h[i])));
        } else {
            assert(texts(r.beside@) =~= seq![]);
        }
    }
    r
}

/// The image that a path refers to as it stands.
pub fn find_plain(paths: &ImagePaths, path: &str) -> (r: Option<usize>)
    ensures
        match r {
            Some(i) => paths@.plain_index(path@) == Some(i as nat) && i < usize::MAX,
            None => paths@.plain_index(path@) is None,
        },
{
    match find_last(&paths.exact, path) {
        Some(i) => Some(i),
        None => match find_last(&paths.names, path) {
            Some(i) => Some(i),
            None => find_last(&paths.beside, path),
        },
    }
}

/// The image that a path refers to, where the decoded form of its own path counts
/// too.
pub fn find_decoded(paths: &ImagePaths, path: &str) -> (r: Option<usize>)
    ensures
        match r {
            Some(i) => paths@.decoded_index(path@) == Some(i as nat) && i < usize::MAX,
            None => paths@.decoded_index(path@) is None,
        },
{
    match find_last(&paths.exact, path) {
        Some(i) => Some(i),
        None => match find_last(&paths.decoded, path) {
            Some(i) => Some(i),
            None => match find_last(&paths.names, path) {
                Some(i) => Some(i),
                None => find_last(&paths.beside, path),
            },
        },
    }
}

/// `i` is the last of the keys that is this path.
pub open spec fn is_last_key(keys: Seq<Seq<char>>, path: Seq<char>, i: int) -> bool {
    &&& 0 <= i < keys.len()
    &&& keys[i] == path
    &&& forall|k: int| i < k < keys.len() ==> #[trigger] keys[k] != path
}

/// A key is found where it stands last, and nowhere only if it is none of the keys.
pub proof fn last_key_counts(keys: Seq<Seq<char>>, path: Seq<char>)
    ensures
        match last_index(keys, path) {
            Some(i) => is_last_key(keys, path, i as int),
            None => !keys.contains(path),
        },
        forall|i: int| #[trigger] is_last_key(keys, path, i) ==> last_index(keys, path) == Some(
            i as nat,
        ),
    decreases keys.len(),
{
    if keys.len() > 0 {
        let rest = keys.drop_last();
        last_key_counts(rest, path);
        if keys.last() == path {
            assert(is_last_key(keys, path, keys.len() - 1));
        } else {
            match last_index(rest, path) {
                Some(i) => {
                    assert(rest[i as int] == path);
                    assert forall|k: int| i < k < keys.len() implies #[trigger] keys[k] != path by {
                        if k < rest.len() {
                            assert(rest[k] != path);
                        }
                    }
                },
                None => {
                    if keys.contains(path) {
                        let k = choose|k: int| 0 <= k < keys.len() && keys[k] == path;
                        assert(rest[k] == path);
                    }
                },
            }
        }
        assert forall|i: int| #[trigger] is_last_key(keys, path, i) implies last_index(keys, path)
            == Some(i as nat) by {
            let j = last_index(keys, path);
            assert(keys[i] == path);
            if j is Some {
                if i < j->0 {
                    assert(keys[j->0 as int] != path);
                }
            }
        }
    }
}

/// A path in markup refers to the image that has it as its own path; where there are several, to the
/// last.
pub proof fn own_paths_refer_to_images(hrefs: Seq<Seq<char>>, nested: bool, i: int)
    requires
        is_last_key(hrefs, hrefs[i], i),
    ensures
        path_forms(hrefs, nested).plain_index(hrefs[i]) == Some(i as nat),
        path_forms(hrefs, nested).decoded_index(hrefs[i]) == Some(i as nat),
{
    last_key_counts(hrefs, hrefs[i]);
}

/// A path that is not that of an image refers to the last image with it as file name; one that is
/// no file name either, to the image to which it leads from a directory beside, where some document
/// lies in a directory.
pub proof fn other_paths_refer_to_images(hrefs: Seq<Seq<char>>, nested: bool, path: Seq<char>, i: int)
    requires
        0 <= i < hrefs.len(),
        !hrefs.contains(path),
    ensures
        last_segment(hrefs[i]) == path && (forall|k: int|
            i < k < hrefs.len() ==> last_segment(#[trigger] hrefs[k]) != path) ==> path_forms(
            hrefs,
            nested,
        ).plain_index(path) == Some(i as nat),
        nested && path == "../"@ + hrefs[i] && is_last_key(hrefs, hrefs[i], i) && (forall|k: int|
            0 <= k < hrefs.len() ==> last_segment(#[trigger] hrefs[k]) != path) ==> path_forms(
            hrefs,
            nested,
        ).plain_index(path) == Some(i as nat),
{
    let forms = path_forms(hrefs, nested);
    last_key_counts(forms.exact, path);
    last_key_counts(forms.names, path);
    last_key_counts(forms.beside, path);
    if last_segment(hrefs[i]) == path && (forall|k: int|
        i < k < hrefs.len() ==> last_segment(#[trigger] hrefs[k]) != path) {
        assert forall|k: int| i < k < forms.names.len() implies #[trigger] forms.names[k] != path by {
            assert(last_segment(hrefs[k]) != path);
        }
        assert(is_last_key(forms.names, path, i));
    }
    if nested && path == "../"@ + hrefs[i] && is_last_key(hrefs, hrefs[i], i) && (forall|k: int|
        0 <= k < hrefs.len() ==> last_segment(#[trigger] hrefs[k]) != path) {
        assert(!forms.names.contains(path)) by {
            if forms.names.contains(path) {
                let k = choose|k: int| 0 <= k < forms.names.len() && forms.names[k] == path;
                assert(last_segment(hrefs[k]) == path);
            }
        }
        assert forall|k: int| i < k < forms.beside.len() implies #[trigger] forms.beside[k]
            != path by {
            assert(hrefs[k] != hrefs[i]);
            if forms.beside[k] == path {
                assert(("../"@ + hrefs[k]).skip("../"@.len() as int) =~= hrefs[k]);
                assert(("../"@ + hrefs[i]).skip("../"@.len() as int) =~= hrefs[i]);
            }
        }
        assert(is_last_key(forms.beside, path, i));
    }
}

/// A path refers to an image only by one of its forms: its path, its path with escapes decoded, its
/// file name, or its path from a directory beside.
pub proof fn references_have_the_form_of_their_image(
    hrefs: Seq<Seq<char>>,
    nested: bool,
    path: Seq<char>,
    i: nat,
)
    requires
        path_forms(hrefs, nested).plain_index(path) == Some(i) || path_forms(
            hrefs,
            nested,
        ).decoded_index(path) == Some(i),
    ensures
        i < hrefs.len(),
        ({
            ||| path == hrefs[i as int]
            ||| path == percent_decoded(utf8(hrefs[i as int]))
            ||| path == last_segment(hrefs[i as int])
            ||| path == "../"@ + hrefs[i as int]
        }),
{
    let forms = path_forms(hrefs, nested);
    last_key_counts(forms.exact, path);
    last_key_counts(forms.decoded, path);
    last_key_counts(forms.names, path);
    last_key_counts(forms.beside, path);
}

/// Bytes without a percent sign stay as they are, up to being read as characters.
pub proof fn plain_bytes_stay(a: Seq<u8>, b: Seq<u8>)
    requires
        forall|i: int| 0 <= i < a.len() ==> a[i] != 0x25,
    ensures
        percent_decoded(a + b) == Seq::new(a.len(), |i: int| a[i] as char) + percent_decoded(b),
    decreases a.len(),
{
    if a.len() == 0 {
        assert(a + b =~= b);
        assert(Seq::new(0, |i: int| a[i] as char) + percent_decoded(b) =~= percent_decoded(b));
    } else {
        let rest = a.skip(1);
        plain_bytes_stay(rest, b);
        assert((a + b).skip(1) =~= rest + b);
        assert(percent_decoded(a + b) =~= Seq::new(a.len(), |i: int| a[i] as char)
            + percent_decoded(b));
    }
}

/// The hexadecimal digits.
pub open spec fn is_hex(digit: u8, value: int) -> bool {
    ||| 0 <= value < 10 && digit == '0' as int + value
    ||| 10 <= value < 16 && digit == 'A' as int + value - 10
    ||| 10 <= value < 16 && digit == 'a' as int + value - 10
}

/// An escape stands for the byte that its two digits denote, whatever stands behind it.
pub proof fn escapes_are_decoded(first: u8, second: u8, high: int, low: int, rest: Seq<u8>)
    requires
        is_hex(first, high),
        is_hex(second, low),
    ensures
        percent_decoded(seq![0x25u8, first, second] + rest) == seq![(high * 16 + low) as char]
            + percent_decoded(rest),
{
    let s = seq![0x25u8, first, second] + rest;
    assert(s.skip(3) =~= rest);
}

} // verus!
