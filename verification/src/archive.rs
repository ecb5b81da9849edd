//! ZIP files: the files of a book or comic in one.

use std::io::{Cursor, Read, Write};
use vstd::prelude::*;
use zip::write::SimpleFileOptions;
use zip::{CompressionMethod, ZipArchive, ZipWriter};

use crate::input::{classify_entry, entry_kind_of, extension, extension_of, EntryKind};
use crate::layout::{file_views, BookFile};
use crate::text::{same_text, text_of, utf8};
use crate::xml::{
    container_result, container_view, ends_with, parse_container_xml, text_ends_with, xml_items,
    ContainerError,
};

verus! {

/// A ZIP file that is being written in memory.
#[verifier::external_body]
pub struct Archive {
    writer: ZipWriter<Cursor<Vec<u8>>>,
}

/// The entries that an archive has so far: their names and what was written to them.
pub uninterp spec fn written(archive: Archive) -> Seq<(Seq<char>, Seq<u8>)>;

/// What a reader comes upon in a ZIP file.
pub enum ZipItem {
    /// An entry that is packed or encrypted in a way that is not known.
    Unreadable,
    /// An entry with a name, whose content is damaged.
    Damaged(Seq<char>),
    /// An entry with its name and its content.
    Whole(Seq<char>, Seq<u8>),
}

/// The entries of a ZIP file in their order; none where it is no ZIP file.
pub uninterp spec fn zip_items(file: Seq<u8>) -> Option<Seq<ZipItem>>;

/// The entries of an open ZIP file.
pub uninterp spec fn stored(archive: ZipArchive<Cursor<Vec<u8>>>) -> Seq<ZipItem>;

/// The reader of ZIP files, of the zip crate.
#[verifier::external_type_specification]
#[verifier::external_body]
#[verifier::reject_recursive_types(R)]
pub struct ExZipArchive<R>(zip::ZipArchive<R>);

/// Bytes in memory with a position, of the standard library.
#[verifier::external_type_specification]
#[verifier::external_body]
#[verifier::reject_recursive_types(T)]
pub struct ExCursor<T>(std::io::Cursor<T>);

/// Entries with these names and contents.
pub open spec fn whole(list: Seq<(Seq<char>, Seq<u8>)>) -> Seq<ZipItem> {
    Seq::new(list.len(), |i: int| ZipItem::Whole(list[i].0, list[i].1))
}

/// Room that is enough for entries in a ZIP file: their headers and names, and twice their content,
/// which packing makes no larger than that.
pub open spec fn room(list: Seq<(Seq<char>, Seq<u8>)>) -> nat
    decreases list.len(),
{
    if list.len() == 0 {
        22
    } else {
        room(list.drop_last()) + 512 + 2 * utf8(list.last().0).len() + 2 * list.last().1.len()
    }
}

/// Whether one of these entries has this name.
pub open spec fn has_entry(list: Seq<(Seq<char>, Seq<u8>)>, name: Seq<char>) -> bool {
    exists|i: int| 0 <= i < list.len() && (#[trigger] list[i]).0 == name
}

/// Whether no two of these entries have the same name.
pub open spec fn names_differ(list: Seq<(Seq<char>, Seq<u8>)>) -> bool {
    forall|i: int, j: int|
        0 <= i < j < list.len() ==> (#[trigger] list[i]).0 != (#[trigger] list[j]).0
}

/// Whether the numbers of a ZIP file with these entries fit their fields.
pub open spec fn is_readable(list: Seq<(Seq<char>, Seq<u8>)>, file: Seq<u8>) -> bool {
    list.len() < 0xffff && file.len() <= u32::MAX
}

/// Starts an archive with `zip::ZipWriter::new`. Claimed: it has no entry.
#[verifier::external_body]
fn new_archive() -> (r: Archive)
    ensures
        written(r) == Seq::<(Seq<char>, Seq<u8>)>::empty(),
{
    Archive { writer: ZipWriter::new(Cursor::new(Vec::new())) }
}

/// Starts an entry with `zip::ZipWriter::start_file`, to be deflated. Claimed: where that is no
/// error, the archive has an empty entry with this name behind those it had. It is an error where
/// the archive has an entry of that name already, and none where it has not and there is room for
/// its entries in 32 bits. What becomes of a new name in a larger archive is left unsaid: that rests
/// on how far the content can be packed.
#[verifier::external_body]
fn start_entry(archive: &mut Archive, name: &str) -> (r: bool)
    requires
        utf8(name@).len() <= 0xffff,
    ensures
        r ==> written(*final(archive)) == written(*old(archive)).push(
            (name@, Seq::<u8>::empty()),
        ),
        has_entry(written(*old(archive)), name@) ==> !r,
        !has_entry(written(*old(archive)), name@) && room(written(*old(archive))) <= u32::MAX ==> r,
{
    let options = SimpleFileOptions::default().compression_method(CompressionMethod::Deflated);
    archive.writer.start_file(name, options).is_ok()
}

/// Writes to the last entry with `zip::ZipWriter`'s `write_all`. Claimed: where that is no error,
/// the data stands behind what the entry held. It is no error where there is room for the entries
/// and the data in 32 bits, and one where 32 bits do not count the content of the entry; what becomes
/// of an archive between these is left unsaid.
#[verifier::external_body]
fn write_entry(archive: &mut Archive, data: &[u8]) -> (r: bool)
    requires
        written(*old(archive)).len() > 0,
    ensures
        r ==> written(*final(archive)) == written(*old(archive)).drop_last().push(
            (written(*old(archive)).last().0, written(*old(archive)).last().1 + data@),
        ),
        room(written(*old(archive))) + 2 * data@.len() <= u32::MAX ==> r,
        written(*old(archive)).last().1.len() + data@.len() > u32::MAX ==> !r,
{
    archive.writer.write_all(data).is_ok()
}

/// Ends an archive with `zip::ZipWriter::finish`. Claimed: it is no error where there is room for
/// the entries in 32 bits, and the file is then no longer than that. A reader finds the entries in
/// the file that were written, where 32 bits count its bytes and 16 bits its entries and one more.
/// Which bytes it is made of is left unsaid: they rest on the deflate encoder, which chooses its
/// routines by the vector unit of the machine.
#[verifier::external_body]
fn finish_archive(archive: Archive) -> (r: Option<Vec<u8>>)
    ensures
        room(written(archive)) <= u32::MAX ==> r is Some && (r->0)@.len() <= room(written(archive)),
        r matches Some(file) ==> is_readable(written(archive), file@) ==> zip_items(file@) == Some(
            whole(written(archive)),
        ),
{
    archive.writer.finish().ok().map(Cursor::into_inner)
}

proof fn room_grows(list: Seq<(Seq<char>, Seq<u8>)>, n: int)
    requires
        0 <= n <= list.len(),
    ensures
        room(list.take(n)) <= room(list),
    decreases list.len() - n,
{
    if n == list.len() {
        assert(list.take(n) =~= list);
    } else {
        assert(list.take(n + 1).drop_last() =~= list.take(n));
        room_grows(list, n + 1);
    }
}

/// Puts the files of a book into one ZIP file, in their order.
///
/// Where two have the same name, or 32 bits do not count the bytes of one, there is none. Else there
/// is one if there is room for the files in 32 bits. A reader finds the files in it, where the
/// numbers fit their fields.
pub fn create_epub(files: &[BookFile]) -> (r: Option<Vec<u8>>)
    requires
        forall|i: int| 0 <= i < files@.len() ==> utf8((#[trigger] files@[i]).name@).len() <= 0xffff,
    ensures
        !names_differ(file_views(files@)) ==> r is None,
        (exists|i: int| 0 <= i < files@.len() && (#[trigger] files@[i]).data@.len() > u32::MAX)
            ==> r is None,
        names_differ(file_views(files@)) && room(file_views(files@)) <= u32::MAX ==> r is Some
            && (r->0)@.len() <= u32::MAX,
        r matches Some(file) ==> is_readable(file_views(files@), file@) ==> zip_items(file@) == Some(
            whole(file_views(files@)),
        ),
{
    let mut archive = new_archive();
    let ghost all = file_views(files@);
    let mut i: usize = 0;
    assert(written(archive) =~= all.take(0));
    while i < files.len()
        invariant
            i <= files@.len(),
            all == file_views(files@),
            forall|i: int|
                0 <= i < files@.len() ==> utf8((#[trigger] files@[i]).name@).len() <= 0xffff,
            written(archive) == all.take(i as int),
            names_differ(all.take(i as int)),
            forall|k: int| 0 <= k < i ==> (#[trigger] files@[k]).data@.len() <= u32::MAX,
        decreases files.len() - i,
    {
        assert(utf8(files@[i as int].name@).len() <= 0xffff);
        let ghost before = all.take(i as int);
        proof {
            assert(all.take(i + 1).drop_last() =~= before);
            assert(all.take(i + 1).last() == all[i as int]);
            room_grows(all, i as int);
            room_grows(all, i + 1);
            if has_entry(before, all[i as int].0) {
                let k = choose|k: int|
                    0 <= k < before.len() && (#[trigger] before[k]).0 == all[i as int].0;
                assert(all[k].0 == all[i as int].0);
            }
        }
        if !start_entry(&mut archive, files[i].name.as_str()) {
            return None;
        }
        assert(written(archive).drop_last() =~= before);
        if !write_entry(&mut archive, &files[i].data) {
            return None;
        }
        proof {
            assert(Seq::<u8>::empty() + files@[i as int].data@ =~= files@[i as int].data@);
            assert(written(archive) =~= all.take(i + 1));
            assert forall|a: int, b: int| 0 <= a < b < all.take(i + 1).len() implies (
            #[trigger] all.take(i + 1)[a]).0 != (#[trigger] all.take(i + 1)[b]).0 by {
                assert(before[a] == all[a]);
                if b < i {
                    assert(before[b] == all[b]);
                }
            }
        }
        i += 1;
    }
    assert(all.take(i as int) =~= all);
    finish_archive(archive)
}

/// Opens a ZIP file with `zip::ZipArchive::new`. Claimed: whether it is one and which entries it has
/// depends on its bytes alone. What is said of the fault is left unsaid.
#[verifier::external_body]
fn open_zip(file: Vec<u8>) -> (r: Result<ZipArchive<Cursor<Vec<u8>>>, String>)
    ensures
        match r {
            Ok(archive) => zip_items(file@) == Some(stored(archive)),
            Err(_) => zip_items(file@) is None,
        },
{
    ZipArchive::new(Cursor::new(file)).map_err(|e| e.to_string())
}

/// `zip::ZipArchive::len`: the number of entries.
#[verifier::external_body]
fn entry_count(archive: &ZipArchive<Cursor<Vec<u8>>>) -> (n: usize)
    ensures
        n == stored(*archive).len(),
{
    archive.len()
}

/// The name of an entry, by `zip::ZipArchive::by_index` and `name`. Claimed: it is that of the entry
/// in this place, an error where that cannot be read, and the entries stay as they are. What is said
/// of the fault is left unsaid.
#[verifier::external_body]
fn entry_name(archive: &mut ZipArchive<Cursor<Vec<u8>>>, i: usize) -> (r: Result<String, String>)
    requires
        i < stored(*old(archive)).len(),
    ensures
        stored(*final(archive)) == stored(*old(archive)),
        match stored(*old(archive))[i as int] {
            ZipItem::Unreadable => r is Err,
            ZipItem::Damaged(name) => r is Ok && (r->Ok_0)@ == name,
            ZipItem::Whole(name, _) => r is Ok && (r->Ok_0)@ == name,
        },
{
    archive.by_index(i).map(|entry| entry.name().to_string()).map_err(|e| e.to_string())
}

/// The content of an entry, by `zip::ZipArchive::by_index` and `read_to_end`. Claimed: it is that of
/// the entry in this place, an error where it is damaged, and the entries stay as they are. What is
/// said of the fault is left unsaid.
#[verifier::external_body]
fn entry_data(archive: &mut ZipArchive<Cursor<Vec<u8>>>, i: usize) -> (r: Result<Vec<u8>, String>)
    requires
        i < stored(*old(archive)).len(),
    ensures
        stored(*final(archive)) == stored(*old(archive)),
        match stored(*old(archive))[i as int] {
            ZipItem::Whole(_, data) => r is Ok && (r->Ok_0)@ == data,
            _ => r is Err,
        },
{
    let mut data = Vec::new();
    let mut entry = archive.by_index(i).map_err(|e| e.to_string())?;
    entry.read_to_end(&mut data).map_err(|e| e.to_string())?;
    Ok(data)
}

/// Why an archive cannot be unpacked.
#[derive(Debug)]
pub enum ArchiveError {
    /// It is no ZIP file.
    NotZip(String),
    /// An entry cannot be read.
    BadEntry(String),
    /// A comic without an image.
    NoImages,
}

impl ArchiveError {
    /// What is said of the error.
    pub fn message(&self) -> (r: String)
        ensures
            r@ == match self {
                ArchiveError::NotZip(text) => text@,
                ArchiveError::BadEntry(text) => text@,
                ArchiveError::NoImages => "No image files found in CBZ archive"@,
            },
    {
        match self {
            ArchiveError::NotZip(text) => text.clone(),
            ArchiveError::BadEntry(text) => text.clone(),
            ArchiveError::NoImages => "No image files found in CBZ archive".to_owned(),
        }
    }
}

/// Whether an entry with this name is unpacked: of a comic the images and the metadata, of a book
/// everything but directories.
pub open spec fn is_wanted(name: Seq<char>, comic: bool) -> bool {
    if comic {
        entry_kind_of(name) != EntryKind::Skipped
    } else {
        !ends_with(name, "/"@)
    }
}

/// The entries that are unpacked, in their order; none where one cannot be read that would have to
/// be.
pub open spec fn unpacked(items: Seq<ZipItem>, comic: bool) -> Option<Seq<(Seq<char>, Seq<u8>)>>
    decreases items.len(),
{
    if items.len() == 0 {
        Some(seq![])
    } else {
        match unpacked(items.drop_last(), comic) {
            Some(before) => match items.last() {
                ZipItem::Unreadable => None,
                ZipItem::Damaged(name) => if is_wanted(name, comic) {
                    None
                } else {
                    Some(before)
                },
                ZipItem::Whole(name, data) => if is_wanted(name, comic) {
                    Some(before.push((name, data)))
                } else {
                    Some(before)
                },
            },
            None => None,
        }
    }
}

/// Whether one of these files is an image.
pub open spec fn any_image(files: Seq<(Seq<char>, Seq<u8>)>) -> bool {
    exists|i: int| 0 <= i < files.len() && entry_kind_of((#[trigger] files[i]).0) == EntryKind::Image
}

proof fn faults_last(items: Seq<ZipItem>, comic: bool, n: int)
    requires
        0 <= n <= items.len(),
        unpacked(items.take(n), comic) is None,
    ensures
        unpacked(items, comic) is None,
    decreases items.len() - n,
{
    if n == items.len() {
        assert(items.take(n) =~= items);
    } else {
        assert(items.take(n + 1).drop_last() =~= items.take(n));
        faults_last(items, comic, n + 1);
    }
}

fn wanted(name: &str, comic: bool) -> (r: bool)
    ensures
        r == is_wanted(name@, comic),
{
    if comic {
        classify_entry(name) != EntryKind::Skipped
    } else {
        !text_ends_with(name, "/")
    }
}

fn unpack(file: Vec<u8>, comic: bool) -> (r: Result<Vec<BookFile>, ArchiveError>)
    ensures
        match r {
            Ok(files) => zip_items(file@) is Some && unpacked(zip_items(file@)->0, comic) == Some(
                file_views(files@),
            ),
            Err(ArchiveError::NotZip(_)) => zip_items(file@) is None,
            Err(ArchiveError::BadEntry(_)) => zip_items(file@) is Some && unpacked(
                zip_items(file@)->0,
                comic,
            ) is None,
            Err(ArchiveError::NoImages) => false,
        },
{
    let mut archive = match open_zip(file) {
        Ok(archive) => archive,
        Err(e) => return Err(ArchiveError::NotZip(e)),
    };
    let ghost all = stored(archive);
    let n: usize = entry_count(&archive);
    let mut files: Vec<BookFile> = Vec::new();
    let mut i: usize = 0;
    assert(all.take(0) =~= seq![]);
    assert(file_views(files@) =~= seq![]);
    while i < n
        invariant
            stored(archive) == all,
            zip_items(file@) == Some(all),
            n == all.len(),
            i <= n,
            unpacked(all.take(i as int), comic) == Some(file_views(files@)),
        decreases n - i,
    {
        proof {
            assert(all.take(i + 1).drop_last() =~= all.take(i as int));
            assert(all.take(i + 1).last() == all[i as int]);
            if unpacked(all.take(i + 1), comic) is None {
                faults_last(all, comic, i + 1);
            }
        }
        let name = match entry_name(&mut archive, i) {
            Ok(name) => name,
            Err(e) => return Err(ArchiveError::BadEntry(e)),
        };
        if wanted(name.as_str(), comic) {
            let data = match entry_data(&mut archive, i) {
                Ok(data) => data,
                Err(e) => return Err(ArchiveError::BadEntry(e)),
            };
            let ghost before = file_views(files@);
            files.push(BookFile { name, data });
            assert(file_views(files@) =~= before.push((name@, data@)));
        }
        i += 1;
    }
    assert(all.take(i as int) =~= all);
    Ok(files)
}

/// Unpacks an EPUB file: every entry that is no directory.
pub fn unpack_book(file: Vec<u8>) -> (r: Result<Vec<BookFile>, ArchiveError>)
    ensures
        match r {
            Ok(files) => zip_items(file@) is Some && unpacked(zip_items(file@)->0, false) == Some(
                file_views(files@),
            ),
            Err(ArchiveError::NotZip(_)) => zip_items(file@) is None,
            Err(ArchiveError::BadEntry(_)) => zip_items(file@) is Some && unpacked(
                zip_items(file@)->0,
                false,
            ) is None,
            Err(ArchiveError::NoImages) => false,
        },
{
    unpack(file, false)
}

/// Unpacks a CBZ file: its images and its metadata. A comic without an image is an error.
pub fn unpack_comic(file: Vec<u8>) -> (r: Result<Vec<BookFile>, ArchiveError>)
    ensures
        match r {
            Ok(files) => zip_items(file@) is Some && unpacked(zip_items(file@)->0, true) == Some(
                file_views(files@),
            ) && any_image(file_views(files@)),
            Err(ArchiveError::NotZip(_)) => zip_items(file@) is None,
            Err(ArchiveError::BadEntry(_)) => zip_items(file@) is Some && unpacked(
                zip_items(file@)->0,
                true,
            ) is None,
            Err(ArchiveError::NoImages) => zip_items(file@) is Some && (unpacked(
                zip_items(file@)->0,
                true,
            ) matches Some(files) && !any_image(files)),
        },
{
    let files = unpack(file, true)?;
    let mut i: usize = 0;
    while i < files.len()
        invariant
            i <= files@.len(),
            zip_items(file@) is Some,
            unpacked(zip_items(file@)->0, true) == Some(file_views(files@)),
            forall|k: int|
                0 <= k < i ==> entry_kind_of((#[trigger] file_views(files@)[k]).0)
                    != EntryKind::Image,
        decreases files.len() - i,
    {
        if classify_entry(files[i].name.as_str()) == EntryKind::Image {
            assert(entry_kind_of(file_views(files@)[i as int].0) == EntryKind::Image);
            return Ok(files);
        }
        i += 1;
    }
    Err(ArchiveError::NoImages)
}

/// Unpacking an archive gives back the files that it was made of.
pub proof fn archives_read_back(files: Seq<(Seq<char>, Seq<u8>)>)
    requires
        forall|i: int| 0 <= i < files.len() ==> !ends_with((#[trigger] files[i]).0, "/"@),
    ensures
        unpacked(whole(files), false) == Some(files),
    decreases files.len(),
{
    if files.len() > 0 {
        let before = files.drop_last();
        archives_read_back(before);
        assert(whole(files).drop_last() =~= whole(before));
        assert(is_wanted(files.last().0, false));
        assert(before.push(files.last()) =~= files);
    } else {
        assert(files =~= seq![]);
    }
}

/// Why the package document of a book is not found.
#[derive(Debug)]
pub enum PackageError {
    /// The container description is no text.
    NotText,
    /// The container description names none.
    Container(ContainerError),
    /// There is no container description and no package document.
    NoPackage,
    /// The container description names a file that is missing.
    Missing(String),
}

impl PackageError {
    /// What is said of the error.
    pub fn message(&self) -> (r: String)
        ensures
            match self {
                PackageError::NotText => r@ == "stream did not contain valid UTF-8"@,
                PackageError::Container(ContainerError::NoRootfile) => r@
                    == "No rootfile found in container.xml"@,
                PackageError::Container(ContainerError::Malformed(e)) => r@
                    == "Error parsing container.xml: "@ + e@,
                PackageError::NoPackage => r@ == "No .opf file found in EPUB archive"@,
                PackageError::Missing(path) => r@ == "OPF file not found at expected path: "@
                    + path@,
            },
    {
        match self {
            PackageError::NotText => "stream did not contain valid UTF-8".to_owned(),
            PackageError::Container(e) => e.message(),
            PackageError::NoPackage => "No .opf file found in EPUB archive".to_owned(),
            PackageError::Missing(path) => {
                let mut r = "OPF file not found at expected path: ".to_owned();
                r.append(path.as_str());
                r
            },
        }
    }
}

/// The content of the first file with this name, from `from` on.
pub open spec fn file_named(files: Seq<(Seq<char>, Seq<u8>)>, name: Seq<char>, from: int) -> Option<
    Seq<u8>,
>
    decreases files.len() - from,
{
    if from < 0 || from >= files.len() {
        None
    } else if files[from].0 == name {
        Some(files[from].1)
    } else {
        file_named(files, name, from + 1)
    }
}

/// The name of the first package document, by its extension, from `from` on.
pub open spec fn first_package(files: Seq<(Seq<char>, Seq<u8>)>, from: int) -> Option<Seq<char>>
    decreases files.len() - from,
{
    if from < 0 || from >= files.len() {
        None
    } else if extension(files[from].0) == Some("opf"@) {
        Some(files[from].0)
    } else {
        first_package(files, from + 1)
    }
}

/// What the container description of a book comes to: its root file, or the fault in it.
pub open spec fn container_says(data: Seq<u8>, result: Result<Seq<char>, Option<Seq<char>>>) -> bool {
    exists|t: Seq<char>| #[trigger] utf8(t) == data && container_result(xml_items(t)) == result
}

fn index_of(files: &[BookFile], name: &str) -> (r: Option<usize>)
    ensures
        match r {
            Some(i) => i < files@.len() && file_named(file_views(files@), name@, 0) == Some(
                files@[i as int].data@,
            ),
            None => file_named(file_views(files@), name@, 0) is None,
        },
{
    let mut i: usize = 0;
    while i < files.len()
        invariant
            i <= files@.len(),
            file_named(file_views(files@), name@, 0) == file_named(
                file_views(files@),
                name@,
                i as int,
            ),
        decreases files.len() - i,
    {
        if same_text(files[i].name.as_str(), name) {
            return Some(i);
        }
        i += 1;
    }
    None
}

/// Finds the package document of a book among its files: the one that the container description
/// names, and without that the first with the extension `opf`.
pub fn find_package(files: &[BookFile]) -> (r: Result<String, PackageError>)
    ensures
        ({
            let all = file_views(files@);
            match file_named(all, "META-INF/container.xml"@, 0) {
                Some(data) => match r {
                    Ok(path) => container_says(data, Ok(path@)) && file_named(all, path@, 0) is Some,
                    Err(PackageError::NotText) => forall|t: Seq<char>| #[trigger] utf8(t) != data,
                    Err(PackageError::Container(e)) => container_says(data, container_view(Err(e))),
                    Err(PackageError::NoPackage) => false,
                    Err(PackageError::Missing(path)) => container_says(data, Ok(path@))
                        && file_named(all, path@, 0) is None,
                },
                None => match first_package(all, 0) {
                    Some(path) => r is Ok && (r->Ok_0)@ == path,
                    None => r is Err && r->Err_0 is NoPackage,
                },
            }
        }),
{
    if let Some(at) = index_of(files, "META-INF/container.xml") {
        let content = match text_of(files[at].data.clone()) {
            Some(content) => content,
            None => return Err(PackageError::NotText),
        };
        assert(utf8(content@) == files@[at as int].data@);
        let path = match parse_container_xml(content.as_str()) {
            Ok(path) => path,
            Err(e) => return Err(PackageError::Container(e)),
        };
        return match index_of(files, path.as_str()) {
            Some(_) => Ok(path),
            None => Err(PackageError::Missing(path)),
        };
    }
    let mut i: usize = 0;
    while i < files.len()
        invariant
            i <= files@.len(),
            first_package(file_views(files@), 0) == first_package(file_views(files@), i as int),
            file_named(file_views(files@), "META-INF/container.xml"@, 0) is None,
        decreases files.len() - i,
    {
        if let Some(found) = extension_of(files[i].name.as_str()) {
            if same_text(found.as_str(), "opf") {
                return Ok(files[i].name.clone());
            }
        }
        i += 1;
    }
    Err(PackageError::NoPackage)
}

/// The files that are unpacked from an archive of readable entries are the wanted ones, in their order:
/// of a book everything but directories, and of a comic what is not to be skipped by its name.
pub proof fn wanted_files_are_unpacked(files: Seq<(Seq<char>, Seq<u8>)>, comic: bool)
    ensures
        unpacked(whole(files), comic) == Some(
            files.filter(
                |f: (Seq<char>, Seq<u8>)|
                    if comic {
                        entry_kind_of(f.0) != EntryKind::Skipped
                    } else {
                        !ends_with(f.0, "/"@)
                    },
            ),
        ),
    decreases files.len(),
{
    reveal(Seq::filter);
    if files.len() > 0 {
        wanted_files_are_unpacked(files.drop_last(), comic);
        assert(whole(files).drop_last() =~= whole(files.drop_last()));
        assert(whole(files).last() == ZipItem::Whole(files.last().0, files.last().1));
    } else {
        assert(whole(files).len() == 0);
        assert(files =~= seq![]);
    }
}

/// An archive is unpacked entry by entry: a damaged entry that is wanted, or one that cannot be told,
/// spoils it, and nothing else does.
pub proof fn damaged_entries_spoil_an_archive(items: Seq<ZipItem>, comic: bool)
    ensures
        unpacked(items, comic) is None <==> exists|i: int|
            0 <= i < items.len() && match #[trigger] items[i] {
                ZipItem::Unreadable => true,
                ZipItem::Damaged(name) => if comic {
                    entry_kind_of(name) != EntryKind::Skipped
                } else {
                    !ends_with(name, "/"@)
                },
                ZipItem::Whole(_, _) => false,
            },
    decreases items.len(),
{
    if items.len() > 0 {
        let rest = items.drop_last();
        damaged_entries_spoil_an_archive(rest, comic);
        assert(items[items.len() - 1] == items.last());
        assert forall|i: int| 0 <= i < rest.len() implies rest[i] == #[trigger] items[i] by {}
        if unpacked(rest, comic) is None {
            let i = choose|i: int|
                0 <= i < rest.len() && match #[trigger] rest[i] {
                    ZipItem::Unreadable => true,
                    ZipItem::Damaged(name) => if comic {
                        entry_kind_of(name) != EntryKind::Skipped
                    } else {
                        !ends_with(name, "/"@)
                    },
                    ZipItem::Whole(_, _) => false,
                };
            assert(items[i] == rest[i]);
        }
    }
}

/// Of several files with one name the first counts, and there is none only where no file has the name.
pub proof fn first_file_counts(files: Seq<(Seq<char>, Seq<u8>)>, name: Seq<char>, i: int)
    requires
        0 <= i < files.len(),
    ensures
        files[i].0 == name && (forall|k: int| 0 <= k < i ==> (#[trigger] files[k]).0 != name)
            ==> file_named(files, name, 0) == Some(files[i].1),
        (forall|k: int| 0 <= k < files.len() ==> (#[trigger] files[k]).0 != name) ==> file_named(
            files,
            name,
            0,
        ) is None,
{
    named_file_is_first(files, name, 0);
}

proof fn named_file_is_first(files: Seq<(Seq<char>, Seq<u8>)>, name: Seq<char>, from: int)
    requires
        0 <= from <= files.len(),
    ensures
        match file_named(files, name, from) {
            Some(data) => exists|i: int|
                from <= i < files.len() && #[trigger] files[i] == (name, data) && forall|k: int|
                    from <= k < i ==> (#[trigger] files[k]).0 != name,
            None => forall|k: int| from <= k < files.len() ==> (#[trigger] files[k]).0 != name,
        },
    decreases files.len() - from,
{
    if from < files.len() {
        if files[from].0 != name {
            named_file_is_first(files, name, from + 1);
        } else {
            assert(files[from] == (name, file_named(files, name, from)->0));
        }
    }
}

/// Without a container description the first file with the extension `opf` is the package document.
pub proof fn first_package_document_counts(files: Seq<(Seq<char>, Seq<u8>)>, i: int)
    requires
        0 <= i < files.len(),
        extension(files[i].0) == Some("opf"@),
        forall|k: int| 0 <= k < i ==> extension((#[trigger] files[k]).0) != Some("opf"@),
    ensures
        first_package(files, 0) == Some(files[i].0),
{
    package_document_is_first(files, 0, i);
}

proof fn package_document_is_first(files: Seq<(Seq<char>, Seq<u8>)>, from: int, i: int)
    requires
        0 <= from <= i < files.len(),
        extension(files[i].0) == Some("opf"@),
        forall|k: int| from <= k < i ==> extension((#[trigger] files[k]).0) != Some("opf"@),
    ensures
        first_package(files, from) == Some(files[i].0),
    decreases i - from,
{
    if from < i {
        assert(extension(files[from].0) != Some("opf"@));
        package_document_is_first(files, from + 1, i);
    }
}

} // verus!
