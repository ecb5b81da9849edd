//! What a comic is made from: the kinds of input, the entries of an archive, and the natural order
//! of file names.

use vstd::prelude::*;

use crate::comic::{info_of, parse_comic_info_xml, ComicError, ComicMetadata};
use crate::layout::{file_views, BookFile};
use crate::order::{all_ranks, is_order, lex_less, ranks, stable_order};
use crate::pattern::texts;
use crate::text::{
    begins_with, chars_of, decimal_value, file_name, file_names_stand_behind_the_last_slash,
    last_segment, lowercased, opt_string, same_text,
    stands_at, string_of, text_of, to_lower, utf8,
};
use crate::xml::{ends_with, text_ends_with, xml_items};

verus! {

/// What a comic can be made from.
#[derive(Debug, Clone, Copy, PartialEq, Eq, Structural)]
pub enum InputKind {
    Directory,
    /// A ZIP archive of images.
    Archive,
    /// An EPUB with its images in the order of its spine.
    Epub,
}

/// The kind of an input that is no directory, by its extension in lower case.
pub open spec fn kind_of_extension(ext: Seq<char>) -> Option<InputKind> {
    if ext == "cbz"@ || ext == "zip"@ {
        Some(InputKind::Archive)
    } else if ext == "epub"@ {
        Some(InputKind::Epub)
    } else {
        None
    }
}

/// The kind of an input that is no directory, by its extension in lower case.
pub fn kind_by_extension(ext: &str) -> (r: Result<InputKind, ComicError>)
    ensures
        match r {
            Ok(kind) => kind_of_extension(ext@) == Some(kind),
            Err(e) => {
                &&& kind_of_extension(ext@) is None
                &&& (e is Rar) == (ext@ == "cbr"@ || ext@ == "rar"@)
                &&& (e is Pdf) == (ext@ == "pdf"@)
                &&& e is Rar || e is Pdf || (e matches ComicError::Unsupported(x) && x@ == ext@)
            },
        },
{
    proof {
        reveal_strlit("cbr");
        reveal_strlit("rar");
        reveal_strlit("pdf");
        reveal_strlit("cbz");
        reveal_strlit("zip");
        reveal_strlit("epub");
    }
    if same_text(ext, "cbz") || same_text(ext, "zip") {
        assert(ext@[0] == 'c' && ext@[2] == 'z' || ext@[0] == 'z');
        Ok(InputKind::Archive)
    } else if same_text(ext, "epub") {
        Ok(InputKind::Epub)
    } else if same_text(ext, "cbr") || same_text(ext, "rar") {
        assert(ext@[2] == 'r');
        Err(ComicError::Rar)
    } else if same_text(ext, "pdf") {
        Err(ComicError::Pdf)
    } else {
        Err(ComicError::Unsupported(ext.to_owned()))
    }
}

/// The kind of an input, which may be a directory and may have an extension.
pub fn input_kind(is_dir: bool, extension: Option<&str>) -> (r: Result<InputKind, ComicError>)
    ensures
        match r {
            Ok(kind) => if is_dir {
                kind == InputKind::Directory
            } else {
                &&& extension is Some
                &&& kind_of_extension(lowercased(extension->0@)) == Some(kind)
            },
            Err(e) => {
                &&& !is_dir
                &&& (e is UnknownInput) == (extension is None)
                &&& extension is Some ==> {
                    let ext = lowercased(extension->0@);
                    &&& kind_of_extension(ext) is None
                    &&& (e is Rar) == (ext == "cbr"@ || ext == "rar"@)
                    &&& (e is Pdf) == (ext == "pdf"@)
                    &&& e is Rar || e is Pdf || (e matches ComicError::Unsupported(x) && x@ == ext)
                }
            },
        },
{
    if is_dir {
        return Ok(InputKind::Directory);
    }
    match extension {
        Some(ext) => {
            let lower = to_lower(ext);
            kind_by_extension(lower.as_str())
        },
        None => Err(ComicError::UnknownInput),
    }
}

/// The extension of a file name: what stands behind its last dot, where that is not the first
/// character.
pub open spec fn extension_of_name(name: Seq<char>, at: int) -> Option<Seq<char>>
    decreases at,
{
    if at <= 0 || name == ".."@ {
        None
    } else if name[at] == '.' {
        Some(name.skip(at + 1))
    } else {
        extension_of_name(name, at - 1)
    }
}

/// The extension of a path.
pub open spec fn extension(path: Seq<char>) -> Option<Seq<char>> {
    extension_of_name(last_segment(path), last_segment(path).len() - 1)
}

/// The extension of a path.
pub fn extension_of(path: &str) -> (r: Option<String>)
    ensures
        opt_string(r) == extension(path@),
{
    let name = file_name(path);
    if same_text(name.as_str(), "..") {
        proof {
            reveal_strlit("..");
            reveal_with_fuel(extension_of_name, 2);
        }
        return None;
    }
    let chars = chars_of(name.as_str());
    let size: usize = chars.len();
    if size == 0 {
        return None;
    }
    let mut at: usize = size - 1;
    while at > 0
        invariant
            size == chars@.len() > 0,
            at < size,
            chars@ == name@,
            name@ == last_segment(path@),
            name@ != ".."@,
            extension(path@) == extension_of_name(name@, at as int),
        decreases at,
    {
        if chars[at] == '.' {
            let tail = &chars[at + 1..size];
            assert(tail@ =~= name@.skip(at + 1));
            return Some(string_of(tail));
        }
        at -= 1;
    }
    None
}

/// Whether an extension in lower case is that of an image.
pub open spec fn is_image_extension(ext: Seq<char>) -> bool {
    ||| ext == "jpg"@
    ||| ext == "jpeg"@
    ||| ext == "png"@
    ||| ext == "gif"@
    ||| ext == "webp"@
    ||| ext == "bmp"@
    ||| ext == "tiff"@
    ||| ext == "tif"@
}

/// Whether an extension in lower case is that of an image.
pub fn has_image_extension(ext: &str) -> (r: bool)
    ensures
        r == is_image_extension(ext@),
{
    same_text(ext, "jpg") || same_text(ext, "jpeg") || same_text(ext, "png") || same_text(
        ext,
        "gif",
    ) || same_text(ext, "webp") || same_text(ext, "bmp") || same_text(ext, "tiff") || same_text(
        ext,
        "tif",
    )
}

/// Whether a path is that of an image, judged by its extension.
pub fn is_image_file(path: &str) -> (r: bool)
    ensures
        r == match extension(path@) {
            Some(ext) => is_image_extension(lowercased(ext)),
            None => false,
        },
{
    match extension_of(path) {
        Some(ext) => {
            let lower = to_lower(ext.as_str());
            has_image_extension(lower.as_str())
        },
        None => false,
    }
}

/// What becomes of an entry of an archive.
#[derive(Debug, Clone, Copy, PartialEq, Eq, Structural)]
pub enum EntryKind {
    /// A directory, a hidden file, or nothing that a comic needs.
    Skipped,
    /// The metadata of the comic.
    ComicInfo,
    Image,
}

/// Whether a text occurs in another.
pub open spec fn contains_text(s: Seq<char>, part: Seq<char>) -> bool {
    exists|i: int| 0 <= i <= s.len() && begins_with(#[trigger] s.skip(i), part)
}

/// Whether an entry is a directory or a hidden file.
pub open spec fn is_hidden(name: Seq<char>) -> bool {
    ends_with(name, "/"@) || begins_with(name, "__MACOSX"@) || contains_text(name, "/."@)
}

/// Whether a path in lower case is that of a ComicInfo.xml.
pub open spec fn is_comic_info_path(lower: Seq<char>) -> bool {
    lower == "comicinfo.xml"@ || ends_with(lower, "/comicinfo.xml"@)
}

/// What becomes of an entry with this name, which reads `lower` in lower case.
pub open spec fn entry_kind(name: Seq<char>, lower: Seq<char>, image: bool) -> EntryKind {
    if is_hidden(name) {
        EntryKind::Skipped
    } else if is_comic_info_path(lower) {
        EntryKind::ComicInfo
    } else if image {
        EntryKind::Image
    } else {
        EntryKind::Skipped
    }
}

/// Whether a text occurs in another.
pub fn occurs_in(s: &str, part: &str) -> (r: bool)
    ensures
        r == contains_text(s@, part@),
{
    let chars = chars_of(s);
    let needle = chars_of(part);
    let size: usize = chars.len();
    let mut i: usize = 0;
    loop
        invariant
            chars@ == s@,
            needle@ == part@,
            size == chars@.len(),
            i <= size,
            forall|k: int| 0 <= k < i ==> !begins_with(#[trigger] s@.skip(k), part@),
        decreases size - i,
    {
        if stands_at(&chars, &needle, i) {
            return true;
        }
        if i == size {
            return false;
        }
        i += 1;
    }
}

/// What becomes of an entry with this name, which reads `lower` in lower case and is an image or
/// is not.
pub fn sort_entry(name: &str, lower: &str, image: bool) -> (r: EntryKind)
    ensures
        r == entry_kind(name@, lower@, image),
{
    let chars = chars_of(name);
    let hidden = chars_of("__MACOSX");
    assert(name@.skip(0) =~= name@);
    if text_ends_with(name, "/") || stands_at(&chars, &hidden, 0) || occurs_in(name, "/.") {
        EntryKind::Skipped
    } else if same_text(lower, "comicinfo.xml") || text_ends_with(lower, "/comicinfo.xml") {
        EntryKind::ComicInfo
    } else if image {
        EntryKind::Image
    } else {
        EntryKind::Skipped
    }
}

/// What becomes of the entry of an archive with this name.
pub open spec fn entry_kind_of(name: Seq<char>) -> EntryKind {
    entry_kind(
        name,
        lowercased(name),
        match extension(name) {
            Some(ext) => is_image_extension(lowercased(ext)),
            None => false,
        },
    )
}

/// What becomes of the entry of an archive with this name.
pub fn classify_entry(name: &str) -> (r: EntryKind)
    ensures
        r == entry_kind_of(name@),
{
    let lower = to_lower(name);
    sort_entry(name, lower.as_str(), is_image_file(name))
}

/// Whether a file is a ComicInfo.xml, whatever the case of its letters.
pub fn is_comic_info_file(name: &str) -> (r: bool)
    ensures
        r == (lowercased(name@) == "comicinfo.xml"@),
{
    let lower = to_lower(name);
    same_text(lower.as_str(), "comicinfo.xml")
}

/// The first file, from `from` on, whose name is `ComicInfo.xml`, or is that whatever the case of its
/// letters.
pub open spec fn info_file(files: Seq<(Seq<char>, Seq<u8>)>, exact: bool, from: int) -> Option<
    Seq<u8>,
>
    decreases files.len() - from,
{
    if from < 0 || from >= files.len() {
        None
    } else if (exact && files[from].0 == "ComicInfo.xml"@) || (!exact && lowercased(files[from].0)
        == "comicinfo.xml"@) {
        Some(files[from].1)
    } else {
        info_file(files, exact, from + 1)
    }
}

/// The content of the ComicInfo.xml among these files; the exact name comes first.
pub open spec fn comic_info_data(files: Seq<(Seq<char>, Seq<u8>)>) -> Option<Seq<u8>> {
    match info_file(files, true, 0) {
        Some(data) => Some(data),
        None => info_file(files, false, 0),
    }
}

fn find_info_file(files: &[BookFile], exact: bool) -> (r: Option<usize>)
    ensures
        match r {
            Some(i) => i < files@.len() && info_file(file_views(files@), exact, 0) == Some(
                files@[i as int].data@,
            ),
            None => info_file(file_views(files@), exact, 0) is None,
        },
{
    let mut i: usize = 0;
    while i < files.len()
        invariant
            i <= files@.len(),
            info_file(file_views(files@), exact, 0) == info_file(
                file_views(files@),
                exact,
                i as int,
            ),
        decreases files.len() - i,
    {
        let name = files[i].name.as_str();
        let found = if exact {
            same_text(name, "ComicInfo.xml")
        } else {
            is_comic_info_file(name)
        };
        if found {
            return Some(i);
        }
        i += 1;
    }
    None
}

/// Reads the ComicInfo.xml among the files of a comic. There is no metadata where it is missing or
/// no text.
pub fn find_comic_info(files: &[BookFile]) -> (r: Option<ComicMetadata>)
    ensures
        match (r, comic_info_data(file_views(files@))) {
            (Some(m), Some(data)) => exists|t: Seq<char>| #[trigger]
                utf8(t) == data && m@ == info_of(xml_items(t)),
            (Some(_), None) => false,
            (None, Some(data)) => forall|t: Seq<char>| #[trigger] utf8(t) != data,
            (None, None) => true,
        },
{
    let found = match find_info_file(files, true) {
        Some(i) => Some(i),
        None => find_info_file(files, false),
    };
    let i: usize = found?;
    let content = text_of(files[i].data.clone())?;
    assert(utf8(content@) == files@[i as int].data@);
    parse_comic_info_xml(content.as_str()).ok()
}

/// A decimal digit.
pub open spec fn is_digit(c: char) -> bool {
    '0' <= c <= '9'
}

/// The runs of a text: digits and other characters, in turn.
pub open spec fn runs(s: Seq<char>) -> Seq<Seq<char>>
    decreases s.len(),
{
    if s.len() == 0 {
        seq![]
    } else {
        let before = runs(s.drop_last());
        if before.len() > 0 && before.last().len() > 0 && is_digit(before.last().last())
            == is_digit(s.last()) {
            before.drop_last().push(before.last().push(s.last()))
        } else {
            before.push(seq![s.last()])
        }
    }
}

/// The number that some digits write.
pub open spec fn value(digits: Seq<char>) -> nat
    decreases digits.len(),
{
    if digits.len() == 0 {
        0
    } else {
        value(digits.drop_last()) * 10 + (digits.last() as nat - '0' as nat) as nat
    }
}

/// A part of a name, by which names are put in order.
pub enum Part {
    Number(nat),
    Text(Seq<char>),
}

/// What a run counts as: digits as the number they write, or zero where that has more than 64 bits,
/// and other characters as text in lower case.
pub open spec fn part_of(run: Seq<char>) -> Part {
    if is_digit(run[0]) {
        Part::Number(
            if value(run) <= u64::MAX {
                value(run)
            } else {
                0
            },
        )
    } else {
        Part::Text(lowercased(run))
    }
}

/// The parts of a name.
pub open spec fn parts(name: Seq<char>) -> Seq<Part> {
    Seq::new(runs(name).len(), |i: int| part_of(runs(name)[i]))
}

/// The codes of some characters, each one up so that none is zero.
pub open spec fn codes(s: Seq<char>) -> Seq<u64> {
    Seq::new(s.len(), |i: int| (s[i] as u32 + 1) as u64)
}

/// A part in numbers: what kind it is, then the number, or the codes and a zero.
pub open spec fn part_words(p: Part) -> Seq<u64> {
    match p {
        Part::Number(n) => seq![0u64, n as u64],
        Part::Text(t) => seq![1u64] + codes(t) + seq![0u64],
    }
}

/// Parts in numbers.
pub open spec fn words(parts: Seq<Part>) -> Seq<u64>
    decreases parts.len(),
{
    if parts.len() == 0 {
        seq![]
    } else {
        words(parts.drop_last()) + part_words(parts.last())
    }
}

fn push_run(out: &mut Vec<u64>, run: &Vec<char>)
    requires
        run@.len() > 0,
        is_digit(run@[0]) ==> forall|i: int| 0 <= i < run@.len() ==> is_digit(#[trigger] run@[i]),
    ensures
        final(out)@ == old(out)@ + part_words(part_of(run@)),
{
    if '0' <= run[0] && run[0] <= '9' {
        let n: u64 = number_of(run);
        out.push(0);
        out.push(n);
        assert(out@ =~= old(out)@ + part_words(part_of(run@)));
    } else {
        let text = string_of(run);
        let lower = to_lower(text.as_str());
        let chars = chars_of(lower.as_str());
        out.push(1);
        let mut i: usize = 0;
        let ghost all = codes(chars@);
        assert(out@ =~= old(out)@ + (seq![1u64] + all.take(0)));
        while i < chars.len()
            invariant
                i <= chars@.len(),
                all == codes(chars@),
                out@ == old(out)@ + (seq![1u64] + all.take(i as int)),
            decreases chars.len() - i,
        {
            let c: char = chars[i];
            let code: u32 = c as u32;
            out.push(code as u64 + 1);
            i += 1;
            assert(out@ =~= old(out)@ + (seq![1u64] + all.take(i as int)));
        }
        out.push(0);
        assert(all.take(i as int) =~= all);
        assert(out@ =~= old(out)@ + part_words(part_of(run@)));
    }
}

fn number_of(run: &Vec<char>) -> (r: u64)
    requires
        forall|i: int| 0 <= i < run@.len() ==> is_digit(#[trigger] run@[i]),
    ensures
        r == if value(run@) <= u64::MAX {
            value(run@)
        } else {
            0
        },
{
    let mut sum: u64 = 0;
    let mut fits = true;
    let mut i: usize = 0;
    while i < run.len()
        invariant
            i <= run@.len(),
            forall|i: int| 0 <= i < run@.len() ==> is_digit(#[trigger] run@[i]),
            fits ==> sum == value(run@.take(i as int)),
            !fits ==> value(run@.take(i as int)) > u64::MAX,
        decreases run.len() - i,
    {
        assert(run@.take(i + 1).drop_last() =~= run@.take(i as int));
        assert(is_digit(run@[i as int]));
        let digit: u64 = run[i] as u64 - 48;
        if fits {
            if sum <= (u64::MAX - digit) / 10 {
                sum = sum * 10 + digit;
            } else {
                fits = false;
            }
        }
        i += 1;
    }
    assert(run@.take(i as int) =~= run@);
    if fits {
        sum
    } else {
        0
    }
}

/// The sort key of a name: its parts in numbers.
pub fn natural_sort_key(name: &str) -> (r: Vec<u64>)
    ensures
        r@ == words(parts(name@)),
{
    let chars = chars_of(name);
    let mut r: Vec<u64> = Vec::new();
    let mut run: Vec<char> = Vec::new();
    let mut i: usize = 0;
    let ghost mut done: Seq<Seq<char>> = seq![];
    proof {
        assert(runs(chars@.take(0)) =~= done);
    }
    while i < chars.len()
        invariant
            chars@ == name@,
            i <= chars@.len(),
            i == 0 ==> run@.len() == 0 && done.len() == 0 && r@.len() == 0,
            i > 0 ==> run@.len() > 0 && runs(chars@.take(i as int)) == done.push(run@),
            forall|k: int|
                0 <= k < run@.len() ==> is_digit(#[trigger] run@[k]) == is_digit(run@.last()),
            r@ == words(parts_of(done)),
        decreases chars.len() - i,
    {
        let c: char = chars[i];
        let size: usize = run.len();
        let ghost was = run@;
        proof {
            assert(chars@.take(i + 1).drop_last() =~= chars@.take(i as int));
            assert(done.push(run@).drop_last() =~= done);
        }
        if size > 0 && ('0' <= run[size - 1] && run[size - 1] <= '9') != ('0' <= c && c <= '9') {
            proof {
                let last = run@.last();
                assert(is_digit(run@[0]) == is_digit(last));
            }
            push_run(&mut r, &run);
            run = Vec::new();
            proof {
                assert(parts_of(done.push(was)).drop_last() =~= parts_of(done));
                done = done.push(was);
            }
        }
        run.push(c);
        proof {
            let before = runs(chars@.take(i as int));
            if i == 0 {
                assert(before =~= seq![]);
                assert(run@ =~= seq![c]);
            } else {
                assert(before.last() == was);
                if is_digit(was.last()) == is_digit(c) {
                    assert(run@ =~= was.push(c));
                } else {
                    assert(run@ =~= seq![c]);
                }
            }
            assert(chars@.take(i + 1).last() == c);
            assert(runs(chars@.take(i + 1)) =~= done.push(run@));
        }
        i += 1;
    }
    assert(chars@.take(i as int) =~= chars@);
    let size: usize = run.len();
    if size > 0 {
        assert(is_digit(run@[0]) == is_digit(run@.last()));
        push_run(&mut r, &run);
        assert(parts_of(done.push(run@)).drop_last() =~= parts_of(done));
        assert(parts(name@) =~= parts_of(done.push(run@)));
    } else {
        assert(runs(name@) =~= seq![]);
        assert(parts(name@) =~= parts_of(done));
    }
    r
}

/// What runs count as.
pub open spec fn parts_of(runs: Seq<Seq<char>>) -> Seq<Part> {
    Seq::new(runs.len(), |i: int| part_of(runs[i]))
}

/// The sort keys of some paths: those of their file names.
pub open spec fn path_keys(paths: Seq<Seq<char>>) -> Seq<Seq<u64>> {
    Seq::new(paths.len(), |i: int| words(parts(last_segment(paths[i]))))
}

/// The positions of some paths in the natural order of their file names: numbers within them count
/// as numbers, and the case of letters does not count. Paths with the same key keep their order.
pub fn natural_order(paths: &[String]) -> (r: Vec<usize>)
    ensures
        is_order(path_keys(texts(paths@)), r@, 0, paths@.len() as int),
{
    let mut keys: Vec<Vec<u64>> = Vec::new();
    let mut i: usize = 0;
    while i < paths.len()
        invariant
            i <= paths@.len(),
            keys@.len() == i,
            forall|k: int| 0 <= k < i ==> (#[trigger] keys@[k])@ == path_keys(texts(paths@))[k],
        decreases paths.len() - i,
    {
        let name = file_name(paths[i].as_str());
        keys.push(natural_sort_key(name.as_str()));
        i += 1;
    }
    proof {
        assert forall|k: int| 0 <= k < keys@.len() implies ranks(#[trigger] keys@[k]@) =~= path_keys(
            texts(paths@),
        )[k] by {}
        assert(all_ranks(keys@) =~= path_keys(texts(paths@)));
    }
    stable_order(&keys)
}

/// `a` comes before `b` where their characters first differ, or ends first.
pub open spec fn text_less(a: Seq<char>, b: Seq<char>) -> bool
    decreases a.len(),
{
    if b.len() == 0 {
        false
    } else if a.len() == 0 {
        true
    } else if a[0] != b[0] {
        a[0] < b[0]
    } else {
        text_less(a.skip(1), b.skip(1))
    }
}

/// A number comes before a text; numbers go by their size, and texts character by character.
pub open spec fn part_less(a: Part, b: Part) -> bool {
    match (a, b) {
        (Part::Number(x), Part::Number(y)) => x < y,
        (Part::Number(_), Part::Text(_)) => true,
        (Part::Text(_), Part::Number(_)) => false,
        (Part::Text(s), Part::Text(t)) => text_less(s, t),
    }
}

/// `a` comes before `b` where their parts first differ, or ends first.
pub open spec fn parts_less(a: Seq<Part>, b: Seq<Part>) -> bool
    decreases a.len(),
{
    if b.len() == 0 {
        false
    } else if a.len() == 0 {
        true
    } else if a[0] != b[0] {
        part_less(a[0], b[0])
    } else {
        parts_less(a.skip(1), b.skip(1))
    }
}

/// A number that has 64 bits, or a text.
pub open spec fn is_small(p: Part) -> bool {
    p matches Part::Number(n) ==> n <= u64::MAX
}

proof fn words_from_first(parts: Seq<Part>)
    requires
        parts.len() > 0,
    ensures
        words(parts) == part_words(parts[0]) + words(parts.skip(1)),
    decreases parts.len(),
{
    if parts.len() == 1 {
        assert(parts.drop_last() =~= seq![]);
        assert(parts.skip(1) =~= seq![]);
        assert(words(parts) =~= part_words(parts[0]) + words(parts.skip(1)));
    } else {
        words_from_first(parts.drop_last());
        assert(parts.drop_last().skip(1) =~= parts.skip(1).drop_last());
        assert(parts.skip(1).last() == parts.last());
        assert(words(parts) =~= part_words(parts[0]) + words(parts.skip(1)));
    }
}

proof fn same_start(a: Seq<u64>, x: Seq<u64>, y: Seq<u64>)
    ensures
        lex_less(a + x, a + y) == lex_less(x, y),
    decreases a.len(),
{
    if a.len() == 0 {
        assert(a + x =~= x);
        assert(a + y =~= y);
    } else {
        same_start(a.skip(1), x, y);
        assert((a + x).skip(1) =~= a.skip(1) + x);
        assert((a + y).skip(1) =~= a.skip(1) + y);
    }
}

proof fn code_is_number(c: char)
    ensures
        c as u32 == c as int,
{
}

proof fn texts_differ(s: Seq<char>, t: Seq<char>, x: Seq<u64>, y: Seq<u64>)
    requires
        s != t,
    ensures
        lex_less(codes(s) + seq![0u64] + x, codes(t) + seq![0u64] + y) == text_less(s, t),
    decreases s.len(),
{
    let a = codes(s) + seq![0u64] + x;
    let b = codes(t) + seq![0u64] + y;
    if s.len() == 0 && t.len() == 0 {
        assert(s =~= t);
    } else if s.len() == 0 {
        assert(a[0] == 0);
        assert(b[0] == (t[0] as u32 + 1) as u64);
    } else if t.len() == 0 {
        assert(b[0] == 0);
        assert(a[0] == (s[0] as u32 + 1) as u64);
    } else {
        let (c, d) = (s[0], t[0]);
        assert(a[0] == (c as u32 + 1) as u64);
        assert(b[0] == (d as u32 + 1) as u64);
        code_is_number(c);
        code_is_number(d);
        if c == d {
            if s.skip(1) == t.skip(1) {
                assert(s =~= seq![c] + s.skip(1));
                assert(t =~= seq![d] + t.skip(1));
            }
            texts_differ(s.skip(1), t.skip(1), x, y);
            assert(codes(s).skip(1) =~= codes(s.skip(1)));
            assert(codes(t).skip(1) =~= codes(t.skip(1)));
            assert(a.skip(1) =~= codes(s.skip(1)) + seq![0u64] + x);
            assert(b.skip(1) =~= codes(t.skip(1)) + seq![0u64] + y);
        }
    }
}

proof fn parts_differ(p: Part, q: Part, x: Seq<u64>, y: Seq<u64>)
    requires
        p != q,
        is_small(p),
        is_small(q),
    ensures
        lex_less(part_words(p) + x, part_words(q) + y) == part_less(p, q),
{
    let a = part_words(p) + x;
    let b = part_words(q) + y;
    match (p, q) {
        (Part::Number(m), Part::Number(n)) => {
            reveal_with_fuel(lex_less, 2);
            assert(a[0] == 0 && b[0] == 0);
            assert(a.skip(1)[0] == m as u64);
            assert(b.skip(1)[0] == n as u64);
        },
        (Part::Text(s), Part::Text(t)) => {
            assert(a[0] == 1 && b[0] == 1);
            assert(a.skip(1) =~= codes(s) + seq![0u64] + x);
            assert(b.skip(1) =~= codes(t) + seq![0u64] + y);
            texts_differ(s, t, x, y);
        },
        (Part::Number(_), Part::Text(_)) => {
            assert(a[0] == 0 && b[0] == 1);
        },
        (Part::Text(_), Part::Number(_)) => {
            assert(a[0] == 1 && b[0] == 0);
        },
    }
}

proof fn words_order_parts(a: Seq<Part>, b: Seq<Part>)
    requires
        forall|i: int| 0 <= i < a.len() ==> is_small(#[trigger] a[i]),
        forall|i: int| 0 <= i < b.len() ==> is_small(#[trigger] b[i]),
    ensures
        lex_less(words(a), words(b)) == parts_less(a, b),
    decreases a.len(),
{
    if a.len() > 0 {
        words_from_first(a);
    }
    if b.len() > 0 {
        words_from_first(b);
    }
    if a.len() > 0 && b.len() > 0 {
        let (x, y) = (words(a.skip(1)), words(b.skip(1)));
        if a[0] == b[0] {
            assert forall|i: int| 0 <= i < a.skip(1).len() implies is_small(#[trigger] a.skip(1)[i]) by {
                assert(is_small(a[i + 1]));
            }
            assert forall|i: int| 0 <= i < b.skip(1).len() implies is_small(#[trigger] b.skip(1)[i]) by {
                assert(is_small(b[i + 1]));
            }
            words_order_parts(a.skip(1), b.skip(1));
            same_start(part_words(a[0]), x, y);
        } else {
            assert(is_small(a[0]) && is_small(b[0]));
            parts_differ(a[0], b[0], x, y);
        }
    }
}

/// The sort keys put names in the order of their parts: `page2` comes before `page10`, and a number
/// before a text.
pub proof fn keys_follow_natural_order(a: Seq<char>, b: Seq<char>)
    ensures
        lex_less(words(parts(a)), words(parts(b))) == parts_less(parts(a), parts(b)),
{
    words_order_parts(parts(a), parts(b));
}

/// The extension of a path is what stands behind the last dot of its file name, where something stands
/// before that dot.
pub proof fn extensions_stand_behind_the_last_dot(dir: Seq<char>, stem: Seq<char>, ext: Seq<char>)
    requires
        dir.len() == 0 || dir.last() == '/',
        stem.len() > 0,
        !stem.contains('/'),
        !ext.contains('/'),
        !ext.contains('.'),
        stem != "."@ || ext.len() > 0,
    ensures
        extension(dir + stem + seq!['.'] + ext) == Some(ext),
{
    let name = stem + seq!['.'] + ext;
    let path = dir + stem + seq!['.'] + ext;
    assert forall|i: int| dir.len() <= i < path.len() implies path[i] != '/' by {
        let k = i - dir.len();
        if k < stem.len() {
            assert(stem.contains(stem[k]));
        } else if k > stem.len() {
            assert(ext.contains(ext[k - stem.len() - 1]));
        }
    }
    file_names_stand_behind_the_last_slash(path, dir.len() as int);
    assert(path.skip(dir.len() as int) =~= name);
    reveal_strlit("..");
    reveal_strlit(".");
    assert(name != ".."@) by {
        if name == ".."@ {
            assert(name.len() == 2);
            assert(stem.len() == 1 && ext.len() == 0);
            assert(name[0] == '.');
            assert(stem =~= "."@);
        }
    }
    assert forall|i: int| stem.len() < i < name.len() implies name[i] != '.' by {
        assert(ext.contains(ext[i - stem.len() - 1]));
    }
    last_dot_is_found(name, name.len() - 1, stem.len() as int);
    assert(name.skip(stem.len() as int + 1) =~= ext);
}

proof fn last_dot_is_found(name: Seq<char>, at: int, dot: int)
    requires
        0 < dot <= at < name.len(),
        name[dot] == '.',
        forall|i: int| dot < i <= at ==> name[i] != '.',
        name != ".."@,
    ensures
        extension_of_name(name, at) == Some(name.skip(dot + 1)),
    decreases at,
{
    if dot < at {
        last_dot_is_found(name, at - 1, dot);
    }
}

/// A file name without a dot behind its first character has no extension.
pub proof fn names_without_dots_have_no_extension(dir: Seq<char>, name: Seq<char>)
    requires
        dir.len() == 0 || dir.last() == '/',
        !name.contains('/'),
        forall|i: int| 0 < i < name.len() ==> name[i] != '.',
    ensures
        extension(dir + name) is None,
{
    let path = dir + name;
    assert forall|i: int| dir.len() <= i < path.len() implies path[i] != '/' by {
        assert(name.contains(name[i - dir.len()]));
    }
    file_names_stand_behind_the_last_slash(path, dir.len() as int);
    assert(path.skip(dir.len() as int) =~= name);
    no_dot_is_found(name, name.len() - 1);
}

proof fn no_dot_is_found(name: Seq<char>, at: int)
    requires
        at < name.len(),
        forall|i: int| 0 < i < name.len() ==> name[i] != '.',
    ensures
        extension_of_name(name, at) is None,
    decreases at,
{
    if at > 0 && name != ".."@ {
        no_dot_is_found(name, at - 1);
    }
}

/// What becomes of an entry of an archive: directories, the files of macOS and files under a hidden name
/// are skipped; else a ComicInfo.xml in any directory is the metadata, and a file with the extension of
/// an image is an image, whatever the case of the letters; all else is skipped.
pub proof fn entries_are_told_by_their_names(name: Seq<char>)
    ensures
        ({
            let lower = lowercased(name);
            let hidden = ends_with(name, "/"@) || begins_with(name, "__MACOSX"@) || exists|
                a: Seq<char>,
                b: Seq<char>,
            |
                name == #[trigger] (a + "/."@ + b);
            let told = lower == "comicinfo.xml"@ || ends_with(lower, "/comicinfo.xml"@);
            let shown = extension(name) is Some && seq![
                "jpg"@,
                "jpeg"@,
                "png"@,
                "gif"@,
                "webp"@,
                "bmp"@,
                "tiff"@,
                "tif"@,
            ].contains(lowercased(extension(name)->0));
            &&& hidden ==> entry_kind_of(name) == EntryKind::Skipped
            &&& !hidden && told ==> entry_kind_of(name) == EntryKind::ComicInfo
            &&& !hidden && !told && shown ==> entry_kind_of(name) == EntryKind::Image
            &&& !hidden && !told && !shown ==> entry_kind_of(name) == EntryKind::Skipped
        }),
{
    if contains_text(name, "/."@) {
        let i = choose|i: int| 0 <= i <= name.len() && begins_with(#[trigger] name.skip(i), "/."@);
        let n = "/."@.len() as int;
        assert(name =~= name.take(i) + "/."@ + name.skip(i + n)) by {
            assert(name.skip(i).take(n) == "/."@);
            assert(name.skip(i) =~= name.skip(i).take(n) + name.skip(i + n));
        }
    }
    if exists|a: Seq<char>, b: Seq<char>| name == #[trigger] (a + "/."@ + b) {
        let (a, b) = choose|a: Seq<char>, b: Seq<char>| name == #[trigger] (a + "/."@ + b);
        assert(name.skip(a.len() as int).take("/."@.len() as int) =~= "/."@);
        assert(begins_with(name.skip(a.len() as int), "/."@));
    }
    let list = seq!["jpg"@, "jpeg"@, "png"@, "gif"@, "webp"@, "bmp"@, "tiff"@, "tif"@];
    if let Some(e) = extension(name) {
        let ext = lowercased(e);
        if is_image_extension(ext) {
            assert(list[0] == "jpg"@ && list[1] == "jpeg"@ && list[2] == "png"@ && list[3] == "gif"@
                && list[4] == "webp"@ && list[5] == "bmp"@ && list[6] == "tiff"@ && list[7]
                == "tif"@);
            assert(list.contains(ext));
        }
    }
}

/// The runs of a name are its digits and its other characters in turn: one behind the other they are the
/// name, each has one kind of characters, and neighbours have different kinds.
pub proof fn runs_are_of_one_kind(s: Seq<char>)
    ensures
        runs(s).flatten() == s,
        forall|i: int| 0 <= i < runs(s).len() ==> (#[trigger] runs(s)[i]).len() > 0,
        forall|i: int, k: int|
            0 <= i < runs(s).len() && 0 <= k < runs(s)[i].len() ==> is_digit(
                #[trigger] runs(s)[i][k],
            ) == is_digit(runs(s)[i][0]),
        forall|i: int|
            0 < i < runs(s).len() ==> is_digit((#[trigger] runs(s)[i])[0]) != is_digit(
                runs(s)[i - 1][0],
            ),
        s.len() > 0 ==> runs(s).len() > 0 && runs(s).last().last() == s.last(),
    decreases s.len(),
{
    let list = runs(s);
    if s.len() == 0 {
        assert(list.flatten() =~= s);
    } else {
        let rest = s.drop_last();
        let before = runs(rest);
        runs_are_of_one_kind(rest);
        if before.len() > 0 && before.last().len() > 0 && is_digit(before.last().last())
            == is_digit(s.last()) {
            let front = before.drop_last();
            let longer = before.last().push(s.last());
            assert(before =~= front.push(before.last()));
            front.lemma_flatten_push(before.last());
            front.lemma_flatten_push(longer);
            assert(list == front.push(longer));
            assert(list.flatten() =~= before.flatten().push(s.last()));
            assert(list.flatten() =~= s);
            let m = before.len() - 1;
            let was = before[m];
            assert(is_digit(was[was.len() - 1]) == is_digit(was[0]));
            assert forall|i: int, k: int| 0 <= i < list.len() && 0 <= k < list[i].len() implies is_digit(
                #[trigger] list[i][k],
            ) == is_digit(list[i][0]) by {
                if i < m {
                    assert(list[i] == before[i]);
                    assert(is_digit(before[i][k]) == is_digit(before[i][0]));
                } else if k < was.len() {
                    assert(is_digit(before[i][k]) == is_digit(before[i][0]));
                    assert(list[i][k] == before[i][k]);
                }
            }
            assert forall|i: int| 0 < i < list.len() implies is_digit((#[trigger] list[i])[0])
                != is_digit(list[i - 1][0]) by {
                assert(is_digit(before[i][0]) != is_digit(before[i - 1][0]));
                assert(list[i - 1][0] == before[i - 1][0]);
                assert(list[i][0] == before[i][0]);
            }
        } else {
            before.lemma_flatten_push(seq![s.last()]);
            assert(list.flatten() =~= s);
            assert forall|i: int, k: int| 0 <= i < list.len() && 0 <= k < list[i].len() implies is_digit(
                #[trigger] list[i][k],
            ) == is_digit(list[i][0]) by {
                if i < before.len() {
                    assert(list[i] == before[i]);
                    assert(is_digit(before[i][k]) == is_digit(before[i][0]));
                }
            }
            assert forall|i: int| 0 < i < list.len() implies is_digit((#[trigger] list[i])[0])
                != is_digit(list[i - 1][0]) by {
                if i < before.len() {
                    assert(list[i] == before[i]);
                    assert(list[i - 1] == before[i - 1]);
                } else {
                    let last = before[before.len() - 1];
                    assert(is_digit(last[last.len() - 1]) == is_digit(last[0]));
                }
            }
        }
    }
}

/// A name falls apart into the runs of two pieces of it where one ends with a digit and the other begins
/// with something else, or the other way round.
proof fn runs_split(a: Seq<char>, b: Seq<char>)
    requires
        a.len() > 0 && b.len() > 0 ==> is_digit(a.last()) != is_digit(b[0]),
    ensures
        runs(a + b) == runs(a) + runs(b),
    decreases b.len(),
{
    runs_are_of_one_kind(a);
    runs_are_of_one_kind(b);
    if b.len() == 0 {
        assert(a + b =~= a);
        assert(runs(a) + runs(b) =~= runs(a));
    } else if a.len() == 0 {
        assert(a + b =~= b);
        assert(runs(a) + runs(b) =~= runs(b));
    } else {
        let rest = b.drop_last();
        runs_split(a, rest);
        runs_are_of_one_kind(rest);
        assert((a + b).drop_last() =~= a + rest);
        assert((a + b).last() == b.last());
        let x = runs(a);
        let y = runs(rest);
        let before = x + y;
        if rest.len() == 0 {
            assert(y =~= seq![]);
            assert(before =~= x);
            assert(runs(a + b) =~= runs(a) + runs(b));
        } else {
            assert(before.last() == y.last());
            assert(before.drop_last() =~= x + y.drop_last());
            assert(runs(a + b) =~= runs(a) + runs(b));
        }
    }
}

proof fn digits_are_one_run(d: Seq<char>)
    requires
        d.len() > 0,
        forall|i: int| 0 <= i < d.len() ==> is_digit(#[trigger] d[i]),
    ensures
        runs(d) == seq![d],
{
    runs_are_of_one_kind(d);
    let list = runs(d);
    if list.len() > 1 {
        assert(is_digit(list[1][0]) != is_digit(list[0][0]));
        let first = list[0][0];
        flatten_holds(list, 0, 0);
        flatten_holds(list, 1, 0);
    }
    assert(list =~= seq![list[0]]);
    list.lemma_flatten_one_element();
}

proof fn flatten_holds(list: Seq<Seq<char>>, i: int, k: int)
    requires
        0 <= i < list.len(),
        0 <= k < list[i].len(),
    ensures
        exists|m: int| 0 <= m < list.flatten().len() && #[trigger] list.flatten()[m] == list[i][k],
    decreases list.len(),
{
    let rest = list.drop_first();
    assert(list.flatten() == list.first() + rest.flatten());
    if i == 0 {
        assert(list.flatten()[k] == list[0][k]);
    } else {
        flatten_holds(rest, i - 1, k);
        let m = choose|m: int|
            0 <= m < rest.flatten().len() && #[trigger] rest.flatten()[m] == rest[i - 1][k];
        assert(list.flatten()[list.first().len() + m] == list[i][k]);
    }
}

/// Numbers within names count as numbers: of two names that are the same up to a number, that with the
/// smaller number comes first, however many digits the numbers have and whatever follows them.
pub proof fn smaller_numbers_come_first(
    start: Seq<char>,
    a: Seq<char>,
    b: Seq<char>,
    x: Seq<char>,
    y: Seq<char>,
)
    requires
        a.len() > 0,
        b.len() > 0,
        forall|i: int| 0 <= i < a.len() ==> '0' <= #[trigger] a[i] <= '9',
        forall|i: int| 0 <= i < b.len() ==> '0' <= #[trigger] b[i] <= '9',
        start.len() > 0 ==> !('0' <= start.last() <= '9'),
        x.len() > 0 ==> !('0' <= x[0] <= '9'),
        y.len() > 0 ==> !('0' <= y[0] <= '9'),
        decimal_value(a) < decimal_value(b) <= u64::MAX,
    ensures
        lex_less(words(parts(start + a + x)), words(parts(start + b + y))),
{
    assert forall|i: int| 0 <= i < a.len() implies is_digit(#[trigger] a[i]) by {}
    assert forall|i: int| 0 <= i < b.len() implies is_digit(#[trigger] b[i]) by {}
    digits_are_one_run(a);
    digits_are_one_run(b);
    runs_split(start, a);
    runs_split(start, b);
    assert(is_digit((start + a).last()));
    assert(is_digit((start + b).last()));
    runs_split(start + a, x);
    runs_split(start + b, y);
    values_agree(a);
    values_agree(b);
    let n = runs(start).len() as int;
    let s = start + a + x;
    let t = start + b + y;
    let p = parts(s);
    let q = parts(t);
    assert(runs(s) =~= runs(start) + seq![a] + runs(x));
    assert(runs(t) =~= runs(start) + seq![b] + runs(y));
    assert forall|i: int| 0 <= i < n implies p[i] == #[trigger] q[i] by {
        assert(runs(s)[i] == runs(start)[i]);
        assert(runs(t)[i] == runs(start)[i]);
    }
    assert(runs(s)[n] == a);
    assert(runs(t)[n] == b);
    assert(is_digit(a[0]) && is_digit(b[0]));
    assert(p[n] == Part::Number(value(a)));
    assert(q[n] == Part::Number(value(b)));
    first_difference_counts(p, q, n);
    keys_follow_natural_order(s, t);
}

proof fn values_agree(d: Seq<char>)
    requires
        forall|i: int| 0 <= i < d.len() ==> '0' <= #[trigger] d[i] <= '9',
    ensures
        value(d) == decimal_value(d),
    decreases d.len(),
{
    if d.len() > 0 {
        let rest = d.drop_last();
        assert forall|i: int| 0 <= i < rest.len() implies '0' <= #[trigger] rest[i] <= '9' by {
            assert(rest[i] == d[i]);
        }
        values_agree(rest);
        assert('0' <= d[d.len() - 1] <= '9');
    }
}

proof fn first_difference_counts(a: Seq<Part>, b: Seq<Part>, n: int)
    requires
        0 <= n < a.len(),
        n < b.len(),
        forall|i: int| 0 <= i < n ==> a[i] == #[trigger] b[i],
        a[n] != b[n],
        part_less(a[n], b[n]),
    ensures
        parts_less(a, b),
    decreases n,
{
    if n > 0 {
        assert(a[0] == b[0]);
        assert forall|i: int| 0 <= i < n - 1 implies a.skip(1)[i] == #[trigger] b.skip(1)[i] by {
            assert(a[i + 1] == b[i + 1]);
        }
        first_difference_counts(a.skip(1), b.skip(1), n - 1);
    }
}

/// The metadata of a comic is that of the first file called `ComicInfo.xml`; where there is none, that of
/// the first that is called so but for the case of its letters.
pub proof fn exact_names_come_first(files: Seq<(Seq<char>, Seq<u8>)>, i: int)
    requires
        0 <= i < files.len(),
    ensures
        files[i].0 == "ComicInfo.xml"@ && (forall|k: int|
            0 <= k < i ==> (#[trigger] files[k]).0 != "ComicInfo.xml"@) ==> comic_info_data(files)
            == Some(files[i].1),
        lowercased(files[i].0) == "comicinfo.xml"@ && (forall|k: int|
            0 <= k < i ==> lowercased((#[trigger] files[k]).0) != "comicinfo.xml"@) && (forall|k: int|
            0 <= k < files.len() ==> (#[trigger] files[k]).0 != "ComicInfo.xml"@)
            ==> comic_info_data(files) == Some(files[i].1),
        (forall|k: int|
            0 <= k < files.len() ==> (#[trigger] files[k]).0 != "ComicInfo.xml"@ && lowercased(
                files[k].0,
            ) != "comicinfo.xml"@) ==> comic_info_data(files) is None,
{
    info_file_is_first(files, true, 0);
    info_file_is_first(files, false, 0);
}

spec fn is_info(file: (Seq<char>, Seq<u8>), exact: bool) -> bool {
    (exact && file.0 == "ComicInfo.xml"@) || (!exact && lowercased(file.0) == "comicinfo.xml"@)
}

proof fn info_file_is_first(files: Seq<(Seq<char>, Seq<u8>)>, exact: bool, from: int)
    requires
        0 <= from <= files.len(),
    ensures
        match info_file(files, exact, from) {
            Some(data) => exists|i: int|
                from <= i < files.len() && is_info(#[trigger] files[i], exact) && files[i].1 == data
                    && forall|k: int| from <= k < i ==> !is_info(#[trigger] files[k], exact),
            None => forall|k: int| from <= k < files.len() ==> !is_info(#[trigger] files[k], exact),
        },
    decreases files.len() - from,
{
    if from < files.len() {
        if !is_info(files[from], exact) {
            info_file_is_first(files, exact, from + 1);
        } else {
            assert(is_info(files[from], exact));
        }
    }
}

} // verus!
