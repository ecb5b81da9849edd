//! Package documents and dictionary documents, read from their XML events.

use vstd::prelude::*;

use crate::comic::open_tag;
use crate::dictionary::DictionaryEntry;
use crate::pattern::texts;
use crate::text::{begins_with, chars_of, same_text, stands_at, trim, trimmed};
use crate::xml::{
    attribute, attribute_of, ends_with, items, read_xml, text_ends_with, xml_items, Tag, TagText,
    XmlEvent, XmlItem,
};

verus! {

/// A file of a book: its identifier, its path and its media type.
pub struct ManifestItem {
    pub id: String,
    pub href: String,
    pub media_type: String,
}

/// A package document.
pub struct Package {
    pub title: String,
    pub author: String,
    pub date: String,
    pub language: String,
    pub dict_in_language: String,
    pub dict_out_language: String,
    pub description: String,
    pub subject: String,
    /// Further metadata: names and values.
    pub metas: Vec<(String, String)>,
    pub manifest: Vec<ManifestItem>,
    /// The identifiers of the documents in reading order.
    pub spine: Vec<String>,
    pub direction: Option<String>,
}

/// A file of a book, as texts.
pub struct FileEntry {
    pub id: Seq<char>,
    pub href: Seq<char>,
    pub media_type: Seq<char>,
}

/// A package document, as texts.
pub struct PackageText {
    pub title: Seq<char>,
    pub author: Seq<char>,
    pub date: Seq<char>,
    pub language: Seq<char>,
    pub dict_in_language: Seq<char>,
    pub dict_out_language: Seq<char>,
    pub description: Seq<char>,
    pub subject: Seq<char>,
    pub metas: Seq<(Seq<char>, Seq<char>)>,
    pub manifest: Seq<FileEntry>,
    pub spine: Seq<Seq<char>>,
    pub direction: Option<Seq<char>>,
}

impl View for ManifestItem {
    type V = FileEntry;

    open spec fn view(&self) -> FileEntry {
        FileEntry { id: self.id@, href: self.href@, media_type: self.media_type@ }
    }
}

/// Pairs of texts.
pub open spec fn pairs(list: Seq<(String, String)>) -> Seq<(Seq<char>, Seq<char>)> {
    Seq::new(list.len(), |i: int| (list[i].0@, list[i].1@))
}

/// The entries of a manifest.
pub open spec fn file_entries(list: Seq<ManifestItem>) -> Seq<FileEntry> {
    Seq::new(list.len(), |i: int| list[i]@)
}

impl View for Package {
    type V = PackageText;

    open spec fn view(&self) -> PackageText {
        PackageText {
            title: self.title@,
            author: self.author@,
            date: self.date@,
            language: self.language@,
            dict_in_language: self.dict_in_language@,
            dict_out_language: self.dict_out_language@,
            description: self.description@,
            subject: self.subject@,
            metas: pairs(self.metas@),
            manifest: file_entries(self.manifest@),
            spine: texts(self.spine@),
            direction: crate::text::opt_string(self.direction),
        }
    }
}

/// Whether an element has this name, with or without a prefix.
pub open spec fn is_named(name: Seq<char>, local: Seq<char>, prefixed: Seq<char>) -> bool {
    name == local || ends_with(name, prefixed)
}

/// A text, empty where there is none.
pub open spec fn or_empty(text: Option<Seq<char>>) -> Seq<char> {
    match text {
        Some(t) => t,
        None => seq![],
    }
}

/// The first of two texts that is not empty.
pub open spec fn first_text(old_text: Seq<char>, new_text: Seq<char>) -> Seq<char> {
    if old_text.len() == 0 {
        new_text
    } else {
        old_text
    }
}

/// An empty package document.
pub open spec fn no_package() -> PackageText {
    PackageText {
        title: seq![],
        author: seq![],
        date: seq![],
        language: seq![],
        dict_in_language: seq![],
        dict_out_language: seq![],
        description: seq![],
        subject: seq![],
        metas: seq![],
        manifest: seq![],
        spine: seq![],
        direction: None,
    }
}

/// What an opening or empty tag adds to a package document.
pub open spec fn with_tag(p: PackageText, t: TagText) -> PackageText {
    if is_named(t.name, "item"@, ":item"@) {
        PackageText {
            manifest: p.manifest.push(
                FileEntry {
                    id: or_empty(attribute(t, "id"@, 0)),
                    href: or_empty(attribute(t, "href"@, 0)),
                    media_type: or_empty(attribute(t, "media-type"@, 0)),
                },
            ),
            ..p
        }
    } else if is_named(t.name, "itemref"@, ":itemref"@) {
        PackageText { spine: p.spine.push(or_empty(attribute(t, "idref"@, 0))), ..p }
    } else if is_named(t.name, "spine"@, ":spine"@) {
        PackageText { direction: attribute(t, "page-progression-direction"@, 0), ..p }
    } else if is_named(t.name, "meta"@, ":meta"@) && attribute(t, "name"@, 0) is Some && attribute(
        t,
        "content"@,
        0,
    ) is Some {
        PackageText {
            metas: p.metas.push(
                (attribute(t, "name"@, 0)->0, attribute(t, "content"@, 0)->0),
            ),
            ..p
        }
    } else {
        p
    }
}

/// What text inside the element `tag` with the property `property` adds to a package document. Of
/// several titles, authors and so on the first counts.
pub open spec fn with_content(
    p: PackageText,
    tag: Seq<char>,
    property: Seq<char>,
    text: Seq<char>,
) -> PackageText {
    if is_named(tag, "title"@, ":title"@) {
        PackageText { title: first_text(p.title, text), ..p }
    } else if is_named(tag, "creator"@, ":creator"@) {
        PackageText { author: first_text(p.author, text), ..p }
    } else if is_named(tag, "date"@, ":date"@) {
        PackageText { date: first_text(p.date, text), ..p }
    } else if is_named(tag, "language"@, ":language"@) {
        PackageText { language: first_text(p.language, text), ..p }
    } else if is_named(tag, "DictionaryInLanguage"@, ":DictionaryInLanguage"@) {
        PackageText { dict_in_language: first_text(p.dict_in_language, text), ..p }
    } else if is_named(tag, "DictionaryOutLanguage"@, ":DictionaryOutLanguage"@) {
        PackageText { dict_out_language: first_text(p.dict_out_language, text), ..p }
    } else if is_named(tag, "description"@, ":description"@) {
        PackageText { description: first_text(p.description, text), ..p }
    } else if is_named(tag, "subject"@, ":subject"@) {
        PackageText { subject: first_text(p.subject, text), ..p }
    } else if is_named(tag, "meta"@, ":meta"@) && property.len() > 0 && text.len() > 0 {
        PackageText { metas: p.metas.push((property, text)), ..p }
    } else {
        p
    }
}

/// The property of the element that text after these events stands in.
pub open spec fn open_property(events: Seq<XmlItem>) -> Seq<char>
    decreases events.len(),
{
    if events.len() == 0 {
        seq![]
    } else {
        match events.last() {
            XmlItem::Start(t) => or_empty(attribute(t, "property"@, 0)),
            XmlItem::End => seq![],
            _ => open_property(events.drop_last()),
        }
    }
}

/// The package document that these events give.
pub open spec fn package_of(events: Seq<XmlItem>) -> PackageText
    decreases events.len(),
{
    if events.len() == 0 {
        no_package()
    } else {
        let before = events.drop_last();
        match events.last() {
            XmlItem::Start(t) => with_tag(package_of(before), t),
            XmlItem::Empty(t) => with_tag(package_of(before), t),
            XmlItem::Text(t) => with_content(
                package_of(before),
                open_tag(before),
                open_property(before),
                trimmed(t),
            ),
            _ => package_of(before),
        }
    }
}

fn has_name(name: &str, local: &str, prefixed: &str) -> (r: bool)
    ensures
        r == is_named(name@, local@, prefixed@),
{
    same_text(name, local) || text_ends_with(name, prefixed)
}

fn attribute_or_empty(t: &Tag, key: &str) -> (r: String)
    ensures
        r@ == or_empty(attribute(t@, key@, 0)),
{
    match attribute_of(t, key) {
        Some(v) => v,
        None => {
            let r = String::new();
            assert(r@ =~= seq![]);
            r
        },
    }
}

fn set_first(field: &mut String, text: &str)
    ensures
        final(field)@ == first_text(old(field)@, text@),
{
    let chars = chars_of(field.as_str());
    if chars.len() == 0 {
        *field = text.to_owned();
    }
}

fn add_tag(p: &mut Package, t: &Tag)
    ensures
        final(p)@ == with_tag(old(p)@, t@),
{
    let name = t.name.as_str();
    if has_name(name, "item", ":item") {
        p.manifest.push(
            ManifestItem {
                id: attribute_or_empty(t, "id"),
                href: attribute_or_empty(t, "href"),
                media_type: attribute_or_empty(t, "media-type"),
            },
        );
        assert(p@.manifest =~= with_tag(old(p)@, t@).manifest);
    } else if has_name(name, "itemref", ":itemref") {
        p.spine.push(attribute_or_empty(t, "idref"));
        assert(p@.spine =~= with_tag(old(p)@, t@).spine);
    } else if has_name(name, "spine", ":spine") {
        p.direction = attribute_of(t, "page-progression-direction");
    } else if has_name(name, "meta", ":meta") {
        let key = attribute_of(t, "name");
        let value = attribute_of(t, "content");
        if let Some(k) = key {
            if let Some(v) = value {
                p.metas.push((k, v));
                assert(p@.metas =~= with_tag(old(p)@, t@).metas);
            }
        }
    }
}

fn add_content(p: &mut Package, tag: &str, property: &str, text: &str)
    ensures
        final(p)@ == with_content(old(p)@, tag@, property@, text@),
{
    if has_name(tag, "title", ":title") {
        set_first(&mut p.title, text);
    } else if has_name(tag, "creator", ":creator") {
        set_first(&mut p.author, text);
    } else if has_name(tag, "date", ":date") {
        set_first(&mut p.date, text);
    } else if has_name(tag, "language", ":language") {
        set_first(&mut p.language, text);
    } else if has_name(tag, "DictionaryInLanguage", ":DictionaryInLanguage") {
        set_first(&mut p.dict_in_language, text);
    } else if has_name(tag, "DictionaryOutLanguage", ":DictionaryOutLanguage") {
        set_first(&mut p.dict_out_language, text);
    } else if has_name(tag, "description", ":description") {
        set_first(&mut p.description, text);
    } else if has_name(tag, "subject", ":subject") {
        set_first(&mut p.subject, text);
    } else if has_name(tag, "meta", ":meta") {
        let k = chars_of(property);
        let v = chars_of(text);
        if k.len() > 0 && v.len() > 0 {
            p.metas.push((property.to_owned(), text.to_owned()));
            assert(p@.metas =~= with_content(old(p)@, tag@, property@, text@).metas);
        }
    }
}

/// Reads a package document from its events.
pub fn read_package(events: &[XmlEvent]) -> (r: Package)
    ensures
        r@ == package_of(items(events@)),
{
    let mut p = Package {
        title: String::new(),
        author: String::new(),
        date: String::new(),
        language: String::new(),
        dict_in_language: String::new(),
        dict_out_language: String::new(),
        description: String::new(),
        subject: String::new(),
        metas: Vec::new(),
        manifest: Vec::new(),
        spine: Vec::new(),
        direction: None,
    };
    let mut tag = String::new();
    let mut property = String::new();
    let ghost all = items(events@);
    let mut i: usize = 0;
    proof {
        assert(all.take(0) =~= seq![]);
        assert(p@.title =~= seq![] && p@.author =~= seq![] && p@.date =~= seq![]);
        assert(p@.language =~= seq![] && p@.dict_in_language =~= seq![]);
        assert(p@.dict_out_language =~= seq![] && p@.metas =~= seq![]);
        assert(p@.description =~= seq![] && p@.subject =~= seq![]);
        assert(p@.manifest =~= seq![] && p@.spine =~= seq![]);
        assert(tag@ =~= seq![] && property@ =~= seq![]);
    }
    while i < events.len()
        invariant
            all == items(events@),
            i <= events@.len(),
            tag@ == open_tag(all.take(i as int)),
            property@ == open_property(all.take(i as int)),
            p@ == package_of(all.take(i as int)),
        decreases events.len() - i,
    {
        proof {
            assert(all.take(i + 1).drop_last() =~= all.take(i as int));
            assert(all.take(i + 1).last() == events@[i as int]@);
        }
        match &events[i] {
            XmlEvent::Start(t) => {
                add_tag(&mut p, t);
                tag = t.name.clone();
                property = attribute_or_empty(t, "property");
            },
            XmlEvent::Empty(t) => {
                add_tag(&mut p, t);
            },
            XmlEvent::End => {
                tag = String::new();
                property = String::new();
                assert(tag@ =~= seq![] && property@ =~= seq![]);
            },
            XmlEvent::Text(t) => {
                let text = trim(t.as_str());
                add_content(&mut p, tag.as_str(), property.as_str(), text.as_str());
            },
            _ => {},
        }
        i += 1;
    }
    assert(all.take(i as int) =~= all);
    p
}

/// The value of the first metadata with this name, from `from` on.
pub open spec fn meta_value(metas: Seq<(Seq<char>, Seq<char>)>, name: Seq<char>, from: int) -> Option<
    Seq<char>,
>
    decreases metas.len() - from,
{
    if from < 0 || from >= metas.len() {
        None
    } else if metas[from].0 == name {
        Some(metas[from].1)
    } else {
        meta_value(metas, name, from + 1)
    }
}

/// The first file with this identifier, from `from` on.
pub open spec fn file_with(manifest: Seq<FileEntry>, id: Seq<char>, from: int) -> Option<FileEntry>
    decreases manifest.len() - from,
{
    if from < 0 || from >= manifest.len() {
        None
    } else if manifest[from].id == id {
        Some(manifest[from])
    } else {
        file_with(manifest, id, from + 1)
    }
}

/// Whether a media type is that of a document.
pub open spec fn is_document(media_type: Seq<char>) -> bool {
    media_type == "application/xhtml+xml"@ || media_type == "text/html"@ || media_type
        == "text/x-oeb1-document"@
}

/// The identifiers and paths of the documents of a spine, in reading order.
pub open spec fn documents_of(spine: Seq<Seq<char>>, manifest: Seq<FileEntry>) -> Seq<
    (Seq<char>, Seq<char>),
>
    decreases spine.len(),
{
    if spine.len() == 0 {
        seq![]
    } else {
        let before = documents_of(spine.drop_last(), manifest);
        match file_with(manifest, spine.last(), 0) {
            Some(f) => if is_document(f.media_type) {
                before.push((spine.last(), f.href))
            } else {
                before
            },
            None => before,
        }
    }
}

/// The paths of the images of a manifest.
pub open spec fn images_of(manifest: Seq<FileEntry>) -> Seq<Seq<char>>
    decreases manifest.len(),
{
    if manifest.len() == 0 {
        seq![]
    } else if begins_with(manifest.last().media_type, "image/"@) {
        images_of(manifest.drop_last()).push(manifest.last().href)
    } else {
        images_of(manifest.drop_last())
    }
}

/// The path of the cover: the file that the metadata `cover` names.
pub open spec fn cover_of(p: PackageText) -> Option<Seq<char>> {
    match meta_value(p.metas, "cover"@, 0) {
        Some(id) => match file_with(p.manifest, id, 0) {
            Some(f) => Some(f.href),
            None => None,
        },
        None => None,
    }
}

/// Whether the pages of a book are fixed.
pub open spec fn is_fixed(p: PackageText) -> bool {
    meta_value(p.metas, "fixed-layout"@, 0) == Some("true"@) || meta_value(
        p.metas,
        "rendition:layout"@,
        0,
    ) == Some("pre-paginated"@)
}

impl Package {
    /// The value of the first metadata with this name.
    pub fn meta(&self, name: &str) -> (r: Option<String>)
        ensures
            crate::text::opt_string(r) == meta_value(self@.metas, name@, 0),
    {
        let mut i: usize = 0;
        while i < self.metas.len()
            invariant
                i <= self.metas@.len(),
                meta_value(self@.metas, name@, 0) == meta_value(self@.metas, name@, i as int),
            decreases self.metas.len() - i,
        {
            if same_text(self.metas[i].0.as_str(), name) {
                return Some(self.metas[i].1.clone());
            }
            i += 1;
        }
        None
    }

    fn file(&self, id: &str) -> (r: Option<&ManifestItem>)
        ensures
            match r {
                Some(f) => file_with(self@.manifest, id@, 0) == Some(f@),
                None => file_with(self@.manifest, id@, 0) is None,
            },
    {
        let mut i: usize = 0;
        while i < self.manifest.len()
            invariant
                i <= self.manifest@.len(),
                file_with(self@.manifest, id@, 0) == file_with(self@.manifest, id@, i as int),
            decreases self.manifest.len() - i,
        {
            if same_text(self.manifest[i].id.as_str(), id) {
                return Some(&self.manifest[i]);
            }
            i += 1;
        }
        None
    }

    /// The identifiers and paths of the documents, in reading order.
    pub fn documents(&self) -> (r: Vec<(String, String)>)
        ensures
            pairs(r@) == documents_of(self@.spine, self@.manifest),
    {
        let mut r: Vec<(String, String)> = Vec::new();
        let ghost all = self@.spine;
        let mut i: usize = 0;
        assert(all.take(0) =~= seq![]);
        assert(pairs(r@) =~= seq![]);
        while i < self.spine.len()
            invariant
                all == self@.spine,
                i <= self.spine@.len(),
                pairs(r@) == documents_of(all.take(i as int), self@.manifest),
            decreases self.spine.len() - i,
        {
            proof {
                assert(all.take(i + 1).drop_last() =~= all.take(i as int));
                assert(all.take(i + 1).last() == self.spine@[i as int]@);
            }
            if let Some(f) = self.file(self.spine[i].as_str()) {
                let kind = f.media_type.as_str();
                if same_text(kind, "application/xhtml+xml") || same_text(kind, "text/html")
                    || same_text(kind, "text/x-oeb1-document") {
                    let ghost before = pairs(r@);
                    r.push((self.spine[i].clone(), f.href.clone()));
                    assert(pairs(r@) =~= before.push((self.spine@[i as int]@, f.href@)));
                }
            }
            i += 1;
        }
        assert(all.take(i as int) =~= all);
        r
    }

    /// The paths of the images.
    pub fn images(&self) -> (r: Vec<String>)
        ensures
            texts(r@) == images_of(self@.manifest),
    {
        let mut r: Vec<String> = Vec::new();
        let ghost all = self@.manifest;
        let prefix = chars_of("image/");
        let mut i: usize = 0;
        assert(all.take(0) =~= seq![]);
        assert(texts(r@) =~= seq![]);
        while i < self.manifest.len()
            invariant
                all == self@.manifest,
                prefix@ == "image/"@,
                i <= self.manifest@.len(),
                texts(r@) == images_of(all.take(i as int)),
            decreases self.manifest.len() - i,
        {
            proof {
                assert(all.take(i + 1).drop_last() =~= all.take(i as int));
                assert(all.take(i + 1).last() == self.manifest@[i as int]@);
            }
            let kind = chars_of(self.manifest[i].media_type.as_str());
            assert(kind@.skip(0) =~= kind@);
            if stands_at(&kind, &prefix, 0) {
                let ghost before = texts(r@);
                r.push(self.manifest[i].href.clone());
                assert(texts(r@) =~= before.push(self.manifest@[i as int].href@));
            }
            i += 1;
        }
        assert(all.take(i as int) =~= all);
        r
    }

    /// The path of the cover.
    pub fn cover(&self) -> (r: Option<String>)
        ensures
            crate::text::opt_string(r) == cover_of(self@),
    {
        match self.meta("cover") {
            Some(id) => match self.file(id.as_str()) {
                Some(f) => Some(f.href.clone()),
                None => None,
            },
            None => None,
        }
    }

    /// Whether the pages are fixed.
    pub fn is_fixed_layout(&self) -> (r: bool)
        ensures
            r == is_fixed(self@),
    {
        let fixed = match self.meta("fixed-layout") {
            Some(v) => same_text(v.as_str(), "true"),
            None => false,
        };
        let paged = match self.meta("rendition:layout") {
            Some(v) => same_text(v.as_str(), "pre-paginated"),
            None => false,
        };
        fixed || paged
    }
}

/// An entry of a dictionary, as texts.
pub struct EntryText {
    pub headword: Seq<char>,
    pub inflections: Seq<Seq<char>>,
}

/// Entries of a dictionary, as texts.
pub open spec fn entry_texts(list: Seq<DictionaryEntry>) -> Seq<EntryText> {
    Seq::new(
        list.len(),
        |i: int|
            EntryText { headword: list[i].headword@, inflections: texts(list[i].inflections@) },
    )
}

/// What a tag adds to the entries of a dictionary: a headword with a value starts an entry, and an
/// inflected form with a value belongs to the last one.
pub open spec fn with_index_tag(entries: Seq<EntryText>, t: TagText) -> Seq<EntryText> {
    match attribute(t, "value"@, 0) {
        Some(v) => if t.name == "idx:orth"@ {
            entries.push(EntryText { headword: v, inflections: seq![] })
        } else if t.name == "idx:iform"@ && entries.len() > 0 {
            entries.drop_last().push(
                EntryText {
                    headword: entries.last().headword,
                    inflections: entries.last().inflections.push(v),
                },
            )
        } else {
            entries
        },
        None => entries,
    }
}

/// The entries that the events of a dictionary document give.
pub open spec fn entries_of(events: Seq<XmlItem>) -> Seq<EntryText>
    decreases events.len(),
{
    if events.len() == 0 {
        seq![]
    } else {
        let before = entries_of(events.drop_last());
        match events.last() {
            XmlItem::Start(t) => with_index_tag(before, t),
            XmlItem::Empty(t) => with_index_tag(before, t),
            _ => before,
        }
    }
}

fn add_index_tag(entries: &mut Vec<DictionaryEntry>, t: &Tag)
    ensures
        entry_texts(final(entries)@) == with_index_tag(entry_texts(old(entries)@), t@),
{
    if let Some(v) = attribute_of(t, "value") {
        if same_text(t.name.as_str(), "idx:orth") {
            let inflections: Vec<String> = Vec::new();
            assert(texts(inflections@) =~= seq![]);
            entries.push(DictionaryEntry { headword: v, inflections });
            assert(entry_texts(entries@) =~= with_index_tag(entry_texts(old(entries)@), t@));
        } else if same_text(t.name.as_str(), "idx:iform") {
            if let Some(last) = entries.pop() {
                let headword = last.headword;
                let mut inflections = last.inflections;
                let ghost before = texts(inflections@);
                inflections.push(v);
                assert(texts(inflections@) =~= before.push(v@));
                entries.push(DictionaryEntry { headword, inflections });
                assert(entry_texts(entries@) =~= with_index_tag(entry_texts(old(entries)@), t@));
            }
        }
    }
}

/// Reads the entries of a dictionary document from its events.
pub fn dictionary_entries(events: &[XmlEvent]) -> (r: Vec<DictionaryEntry>)
    ensures
        entry_texts(r@) == entries_of(items(events@)),
{
    let mut r: Vec<DictionaryEntry> = Vec::new();
    let ghost all = items(events@);
    let mut i: usize = 0;
    assert(all.take(0) =~= seq![]);
    assert(entry_texts(r@) =~= seq![]);
    while i < events.len()
        invariant
            all == items(events@),
            i <= events@.len(),
            entry_texts(r@) == entries_of(all.take(i as int)),
        decreases events.len() - i,
    {
        proof {
            assert(all.take(i + 1).drop_last() =~= all.take(i as int));
            assert(all.take(i + 1).last() == events@[i as int]@);
        }
        match &events[i] {
            XmlEvent::Start(t) => add_index_tag(&mut r, t),
            XmlEvent::Empty(t) => add_index_tag(&mut r, t),
            _ => {},
        }
        i += 1;
    }
    assert(all.take(i as int) =~= all);
    r
}

/// The entries that the documents of a dictionary give, one document after the other.
pub open spec fn all_entries(documents: Seq<Seq<char>>) -> Seq<EntryText>
    decreases documents.len(),
{
    if documents.len() == 0 {
        seq![]
    } else {
        all_entries(documents.drop_last()) + entries_of(xml_items(documents.last()))
    }
}

/// Reads the entries of all documents of a dictionary.
pub fn read_entries(documents: &[String]) -> (r: Vec<DictionaryEntry>)
    ensures
        entry_texts(r@) == all_entries(texts(documents@)),
{
    let mut r: Vec<DictionaryEntry> = Vec::new();
    let ghost all = texts(documents@);
    let mut i: usize = 0;
    assert(all.take(0) =~= seq![]);
    assert(entry_texts(r@) =~= seq![]);
    while i < documents.len()
        invariant
            all == texts(documents@),
            i <= documents@.len(),
            entry_texts(r@) == all_entries(all.take(i as int)),
        decreases documents.len() - i,
    {
        proof {
            assert(all.take(i + 1).drop_last() =~= all.take(i as int));
            assert(all.take(i + 1).last() == documents@[i as int]@);
        }
        let mut found = dictionary_entries(&read_xml(documents[i].as_str()));
        let ghost before = r@;
        let ghost more = found@;
        r.append(&mut found);
        assert(entry_texts(r@) =~= entry_texts(before) + entry_texts(more));
        i += 1;
    }
    assert(all.take(i as int) =~= all);
    r
}

/// The value that an opening or empty tag of this name has.
pub open spec fn value_in(item: XmlItem, name: Seq<char>) -> Option<Seq<char>> {
    match item {
        XmlItem::Start(t) | XmlItem::Empty(t) => if t.name == name {
            attribute(t, "value"@, 0)
        } else {
            None
        },
        _ => None,
    }
}

proof fn index_names_differ()
    ensures
        "idx:orth"@ != "idx:iform"@,
{
    reveal_strlit("idx:orth");
    reveal_strlit("idx:iform");
    assert("idx:orth"@.len() != "idx:iform"@.len());
}

/// The headwords of a document are the values of its headword tags, in their order.
pub proof fn headwords_are_those_of_tags(events: Seq<XmlItem>)
    ensures
        entries_of(events).map_values(|e: EntryText| e.headword) == events.filter_map(
            |item: XmlItem| value_in(item, "idx:orth"@),
        ),
    decreases events.len(),
{
    index_names_differ();
    let heads = |e: EntryText| e.headword;
    let value = |item: XmlItem| value_in(item, "idx:orth"@);
    if events.len() > 0 {
        headwords_are_those_of_tags(events.drop_last());
        let before = entries_of(events.drop_last());
        assert(entries_of(events).map_values(heads) =~= match value(events.last()) {
            Some(v) => before.map_values(heads) + seq![v],
            None => before.map_values(heads),
        });
    } else {
        assert(entries_of(events).map_values(heads) =~= events.filter_map(value));
    }
}

/// An entry has the inflected forms that stand between its headword tag and the next one, in their
/// order, and no others; what stands before it makes no difference.
pub proof fn entries_have_the_forms_behind_them(
    before: Seq<XmlItem>,
    head: XmlItem,
    word: Seq<char>,
    behind: Seq<XmlItem>,
)
    requires
        value_in(head, "idx:orth"@) == Some(word),
        forall|i: int| 0 <= i < behind.len() ==> value_in(#[trigger] behind[i], "idx:orth"@) is None,
    ensures
        entries_of(before + seq![head] + behind) == entries_of(before) + seq![
            EntryText {
                headword: word,
                inflections: behind.filter_map(|item: XmlItem| value_in(item, "idx:iform"@)),
            },
        ],
    decreases behind.len(),
{
    index_names_differ();
    let all = before + seq![head] + behind;
    let form = |item: XmlItem| value_in(item, "idx:iform"@);
    if behind.len() == 0 {
        assert(all.drop_last() =~= before);
        assert(all.last() == head);
        assert(entries_of(all) =~= entries_of(before) + seq![
            EntryText { headword: word, inflections: behind.filter_map(form) },
        ]);
    } else {
        let rest = behind.drop_last();
        entries_have_the_forms_behind_them(before, head, word, rest);
        assert(all.drop_last() =~= before + seq![head] + rest);
        assert(all.last() == behind.last());
        let i = behind.len() - 1;
        assert(value_in(behind[i], "idx:orth"@) is None);
        let known = entries_of(before + seq![head] + rest);
        assert(known.drop_last() =~= entries_of(before));
        match form(behind.last()) {
            Some(v) => {
                assert(rest.filter_map(form).push(v) =~= behind.filter_map(form));
            },
            None => {},
        }
        assert(entries_of(all) =~= entries_of(before) + seq![
            EntryText { headword: word, inflections: behind.filter_map(form) },
        ]);
    }
}

/// What stands before the first headword of a document belongs to no entry.
pub proof fn no_entries_without_headwords(events: Seq<XmlItem>)
    requires
        forall|i: int| 0 <= i < events.len() ==> value_in(#[trigger] events[i], "idx:orth"@) is None,
    ensures
        entries_of(events).len() == 0,
    decreases events.len(),
{
    if events.len() > 0 {
        let rest = events.drop_last();
        assert forall|i: int| 0 <= i < rest.len() implies value_in(
            #[trigger] rest[i],
            "idx:orth"@,
        ) is None by {
            assert(rest[i] == events[i]);
        }
        no_entries_without_headwords(rest);
        assert(value_in(events[events.len() - 1], "idx:orth"@) is None);
    }
}

/// The entries of documents are those of the first ones followed by those of the others; a single
/// document has the entries of its events.
pub proof fn entries_follow_documents(a: Seq<Seq<char>>, b: Seq<Seq<char>>)
    ensures
        all_entries(a + b) == all_entries(a) + all_entries(b),
        b.len() == 1 ==> all_entries(b) == entries_of(xml_items(b[0])),
        b.len() == 0 ==> all_entries(b).len() == 0,
    decreases b.len(),
{
    if b.len() == 0 {
        assert(a + b =~= a);
        assert(all_entries(a) + all_entries(b) =~= all_entries(a));
    } else {
        entries_follow_documents(a, b.drop_last());
        assert((a + b).drop_last() =~= a + b.drop_last());
        assert((a + b).last() == b.last());
        assert(all_entries(a + b) =~= all_entries(a) + all_entries(b));
        if b.len() == 1 {
            assert(b.drop_last() =~= seq![]);
            assert(all_entries(b) =~= entries_of(xml_items(b[0])));
        }
    }
}

/// Every headword tag with a value, in any of the documents, has its entry.
pub proof fn every_headword_has_an_entry(documents: Seq<Seq<char>>, d: int, k: int, word: Seq<char>)
    requires
        0 <= d < documents.len(),
        0 <= k < xml_items(documents[d]).len(),
        value_in(xml_items(documents[d])[k], "idx:orth"@) == Some(word),
    ensures
        exists|i: int|
            0 <= i < all_entries(documents).len() && #[trigger] all_entries(documents)[i].headword
                == word,
{
    let events = xml_items(documents[d]);
    let value = |item: XmlItem| value_in(item, "idx:orth"@);
    let heads = |e: EntryText| e.headword;
    filter_map_keeps(events, value, k);
    headwords_are_those_of_tags(events);
    let j = choose|j: int|
        0 <= j < events.filter_map(value).len() && events.filter_map(value)[j] == word;
    assert(entries_of(events).map_values(heads)[j] == word);
    assert(entries_of(events)[j].headword == word);
    let before = documents.take(d);
    let behind = documents.skip(d + 1);
    let here = seq![documents[d]];
    entries_follow_documents(before, here + behind);
    entries_follow_documents(here, behind);
    entries_follow_documents(before, here);
    assert(before + (here + behind) =~= documents);
    let i = all_entries(before).len() + j;
    assert(all_entries(documents)[i] == entries_of(events)[j]);
    assert(all_entries(documents)[i].headword == word);
}

/// What a filter gives for an element is among what it gives for all.
pub(crate) proof fn filter_map_keeps<A, B>(s: Seq<A>, f: spec_fn(A) -> Option<B>, k: int)
    requires
        0 <= k < s.len(),
        f(s[k]) is Some,
    ensures
        exists|j: int| 0 <= j < s.filter_map(f).len() && #[trigger] s.filter_map(f)[j] == f(s[k])->0,
    decreases s.len(),
{
    let rest = s.drop_last();
    if k < s.len() - 1 {
        filter_map_keeps(rest, f, k);
        let j = choose|j: int|
            0 <= j < rest.filter_map(f).len() && #[trigger] rest.filter_map(f)[j] == f(s[k])->0;
        assert(s.filter_map(f)[j] == f(s[k])->0);
    } else {
        let j = s.filter_map(f).len() - 1;
        assert(s.filter_map(f)[j] == f(s[k])->0);
    }
}

/// `j` is the first file of the manifest with this identifier.
pub open spec fn is_first_file(manifest: Seq<FileEntry>, id: Seq<char>, j: int) -> bool {
    &&& 0 <= j < manifest.len()
    &&& manifest[j].id == id
    &&& forall|i: int| 0 <= i < j ==> (#[trigger] manifest[i]).id != id
}

proof fn file_is_first(manifest: Seq<FileEntry>, id: Seq<char>, from: int)
    requires
        0 <= from <= manifest.len(),
    ensures
        match file_with(manifest, id, from) {
            Some(f) => exists|j: int|
                from <= j < manifest.len() && #[trigger] manifest[j] == f && f.id == id && forall|
                    i: int,
                |
                    from <= i < j ==> (#[trigger] manifest[i]).id != id,
            None => forall|i: int| from <= i < manifest.len() ==> (#[trigger] manifest[i]).id != id,
        },
    decreases manifest.len() - from,
{
    if from < manifest.len() {
        if manifest[from].id != id {
            file_is_first(manifest, id, from + 1);
        } else {
            assert(manifest[from] == file_with(manifest, id, from)->0);
        }
    }
}

proof fn first_file_is_found(manifest: Seq<FileEntry>, id: Seq<char>, j: int)
    requires
        is_first_file(manifest, id, j),
    ensures
        file_with(manifest, id, 0) == Some(manifest[j]),
{
    file_is_first(manifest, id, 0);
    match file_with(manifest, id, 0) {
        Some(f) => {
            let k = choose|k: int|
                0 <= k < manifest.len() && #[trigger] manifest[k] == f && f.id == id && forall|
                    i: int,
                |
                    0 <= i < k ==> (#[trigger] manifest[i]).id != id;
            assert(manifest[k].id == id);
            assert(manifest[j].id == id);
            assert(k == j);
        },
        None => {
            assert(manifest[j].id == id);
        },
    }
}

/// The documents follow the spine: those of a first part of it come before those of the rest.
pub proof fn documents_follow_spine(
    a: Seq<Seq<char>>,
    b: Seq<Seq<char>>,
    manifest: Seq<FileEntry>,
)
    ensures
        documents_of(a + b, manifest) == documents_of(a, manifest) + documents_of(b, manifest),
    decreases b.len(),
{
    if b.len() == 0 {
        assert(a + b =~= a);
        assert(documents_of(a, manifest) + documents_of(b, manifest) =~= documents_of(a, manifest));
    } else {
        documents_follow_spine(a, b.drop_last(), manifest);
        assert((a + b).drop_last() =~= a + b.drop_last());
        assert((a + b).last() == b.last());
        assert(documents_of(a + b, manifest) =~= documents_of(a, manifest) + documents_of(
            b,
            manifest,
        ));
    }
}

/// A reference of the spine stands for the first file with its identifier, where that is a document;
/// it stands for nothing where that is no document or where there is no such file.
pub proof fn spine_names_first_files(id: Seq<char>, manifest: Seq<FileEntry>)
    ensures
        forall|j: int| #[trigger]
            is_first_file(manifest, id, j) ==> documents_of(seq![id], manifest) == if {
                ||| manifest[j].media_type == "application/xhtml+xml"@
                ||| manifest[j].media_type == "text/html"@
                ||| manifest[j].media_type == "text/x-oeb1-document"@
            } {
                seq![(id, manifest[j].href)]
            } else {
                seq![]
            },
        (forall|j: int| 0 <= j < manifest.len() ==> (#[trigger] manifest[j]).id != id)
            ==> documents_of(seq![id], manifest).len() == 0,
{
    let one = seq![id];
    assert(one.drop_last() =~= seq![]);
    reveal_with_fuel(documents_of, 2);
    file_is_first(manifest, id, 0);
    assert forall|j: int| #[trigger] is_first_file(manifest, id, j) implies file_with(
        manifest,
        id,
        0,
    ) == Some(manifest[j]) by {
        first_file_is_found(manifest, id, j);
    }
    assert(documents_of(one, manifest) =~= match file_with(manifest, id, 0) {
        Some(f) => if is_document(f.media_type) {
            seq![(id, f.href)]
        } else {
            seq![]
        },
        None => seq![],
    });
}

/// The images are the files whose media type begins with `image/`, in the order of the manifest.
pub proof fn images_follow_manifest(manifest: Seq<FileEntry>)
    ensures
        images_of(manifest) == manifest.filter_map(
            |f: FileEntry|
                if f.media_type.len() >= 6 && f.media_type.take(6) == "image/"@ {
                    Some(f.href)
                } else {
                    None
                },
        ),
    decreases manifest.len(),
{
    reveal_strlit("image/");
    let pick = |f: FileEntry|
        if f.media_type.len() >= 6 && f.media_type.take(6) == "image/"@ {
            Some(f.href)
        } else {
            None
        };
    if manifest.len() > 0 {
        images_follow_manifest(manifest.drop_last());
    }
    assert(images_of(manifest) =~= manifest.filter_map(pick));
}

/// `i` is the first metadata with this name.
pub open spec fn is_first_meta(
    metas: Seq<(Seq<char>, Seq<char>)>,
    name: Seq<char>,
    i: int,
) -> bool {
    &&& 0 <= i < metas.len()
    &&& metas[i].0 == name
    &&& forall|k: int| 0 <= k < i ==> (#[trigger] metas[k]).0 != name
}

proof fn meta_is_first(metas: Seq<(Seq<char>, Seq<char>)>, name: Seq<char>, from: int)
    requires
        0 <= from <= metas.len(),
    ensures
        match meta_value(metas, name, from) {
            Some(v) => exists|j: int|
                from <= j < metas.len() && #[trigger] metas[j] == (name, v) && forall|i: int|
                    from <= i < j ==> (#[trigger] metas[i]).0 != name,
            None => forall|i: int| from <= i < metas.len() ==> (#[trigger] metas[i]).0 != name,
        },
    decreases metas.len() - from,
{
    if from < metas.len() {
        if metas[from].0 != name {
            meta_is_first(metas, name, from + 1);
        } else {
            assert(metas[from] == (name, meta_value(metas, name, from)->0));
        }
    }
}

/// Of several metadata with one name the first counts, and there is none only where no metadata has
/// the name.
pub proof fn first_metadata_counts(metas: Seq<(Seq<char>, Seq<char>)>, name: Seq<char>)
    ensures
        forall|i: int| #[trigger]
            is_first_meta(metas, name, i) ==> meta_value(metas, name, 0) == Some(metas[i].1),
        meta_value(metas, name, 0) is None <==> forall|i: int|
            0 <= i < metas.len() ==> (#[trigger] metas[i]).0 != name,
{
    meta_is_first(metas, name, 0);
    assert forall|i: int| #[trigger] is_first_meta(metas, name, i) implies meta_value(metas, name, 0)
        == Some(metas[i].1) by {
        assert(metas[i].0 == name);
        let v = meta_value(metas, name, 0)->0;
        let j = choose|j: int|
            0 <= j < metas.len() && #[trigger] metas[j] == (name, v) && forall|i: int|
                0 <= i < j ==> (#[trigger] metas[i]).0 != name;
        assert(metas[j].0 == name);
        assert(i == j);
    }
}

/// The cover is the file whose identifier the metadata `cover` gives; there is none where that
/// metadata or that file is missing.
pub proof fn cover_is_the_named_file(p: PackageText)
    ensures
        forall|i: int, j: int|
            #![trigger is_first_meta(p.metas, "cover"@, i), is_first_file(p.manifest, p.metas[i].1, j)]
            is_first_meta(p.metas, "cover"@, i) && is_first_file(p.manifest, p.metas[i].1, j)
                ==> cover_of(p) == Some(p.manifest[j].href),
        (forall|i: int| 0 <= i < p.metas.len() ==> (#[trigger] p.metas[i]).0 != "cover"@)
            ==> cover_of(p) is None,
        forall|i: int| #[trigger]
            is_first_meta(p.metas, "cover"@, i) && (forall|j: int|
                0 <= j < p.manifest.len() ==> (#[trigger] p.manifest[j]).id != p.metas[i].1)
                ==> cover_of(p) is None,
{
    first_metadata_counts(p.metas, "cover"@);
    assert forall|i: int, j: int|
        #![trigger is_first_meta(p.metas, "cover"@, i), is_first_file(p.manifest, p.metas[i].1, j)]
        is_first_meta(p.metas, "cover"@, i) && is_first_file(
            p.manifest,
            p.metas[i].1,
            j,
        ) implies cover_of(p) == Some(p.manifest[j].href) by {
        first_file_is_found(p.manifest, p.metas[i].1, j);
    }
    assert forall|i: int| #[trigger] is_first_meta(p.metas, "cover"@, i) && (forall|j: int|
        0 <= j < p.manifest.len() ==> (#[trigger] p.manifest[j]).id != p.metas[i].1) implies cover_of(
        p,
    ) is None by {
        file_is_first(p.manifest, p.metas[i].1, 0);
    }
}

/// The pages of a book are fixed where the first metadata `fixed-layout` is `true` or the first
/// `rendition:layout` is `pre-paginated`, and not otherwise.
pub proof fn fixed_layout_is_metadata(p: PackageText)
    ensures
        is_fixed(p) <==> exists|i: int|
            0 <= i < p.metas.len() && {
                ||| #[trigger] p.metas[i] == ("fixed-layout"@, "true"@) && is_first_meta(
                    p.metas,
                    "fixed-layout"@,
                    i,
                )
                ||| p.metas[i] == ("rendition:layout"@, "pre-paginated"@) && is_first_meta(
                    p.metas,
                    "rendition:layout"@,
                    i,
                )
            },
{
    meta_is_first(p.metas, "fixed-layout"@, 0);
    meta_is_first(p.metas, "rendition:layout"@, 0);
    first_metadata_counts(p.metas, "fixed-layout"@);
    first_metadata_counts(p.metas, "rendition:layout"@);
    if meta_value(p.metas, "fixed-layout"@, 0) == Some("true"@) {
        let j = choose|j: int|
            0 <= j < p.metas.len() && #[trigger] p.metas[j] == ("fixed-layout"@, "true"@) && forall|
                i: int,
            |
                0 <= i < j ==> (#[trigger] p.metas[i]).0 != "fixed-layout"@;
        assert(is_first_meta(p.metas, "fixed-layout"@, j));
        assert(p.metas[j] == ("fixed-layout"@, "true"@));
    }
    if meta_value(p.metas, "rendition:layout"@, 0) == Some("pre-paginated"@) {
        let j = choose|j: int|
            0 <= j < p.metas.len() && #[trigger] p.metas[j] == (
                "rendition:layout"@,
                "pre-paginated"@,
            ) && forall|i: int| 0 <= i < j ==> (#[trigger] p.metas[i]).0 != "rendition:layout"@;
        assert(is_first_meta(p.metas, "rendition:layout"@, j));
        assert(p.metas[j] == ("rendition:layout"@, "pre-paginated"@));
    }
}

/// A tag has this name, with or without a prefix before it.
pub open spec fn tag_is(name: Seq<char>, local: Seq<char>) -> bool {
    name == local || exists|prefix: Seq<char>| name == #[trigger] (prefix + (seq![':'] + local))
}

/// The opening or empty tag of this name that an event is.
pub open spec fn tag_in(item: XmlItem, local: Seq<char>) -> Option<TagText> {
    match item {
        XmlItem::Start(t) | XmlItem::Empty(t) => if tag_is(t.name, local) {
            Some(t)
        } else {
            None
        },
        _ => None,
    }
}

proof fn names_agree(name: Seq<char>, local: Seq<char>, prefixed: Seq<char>)
    requires
        prefixed == seq![':'] + local,
    ensures
        is_named(name, local, prefixed) == tag_is(name, local),
{
    let n = name.len() - prefixed.len();
    if ends_with(name, prefixed) {
        assert(name =~= name.take(n) + prefixed);
    }
    if exists|prefix: Seq<char>| name == #[trigger] (prefix + prefixed) {
        let prefix = choose|prefix: Seq<char>| name == #[trigger] (prefix + prefixed);
        assert(name.skip(n) =~= prefixed);
    }
}

proof fn tag_names_agree(name: Seq<char>)
    ensures
        is_named(name, "item"@, ":item"@) == tag_is(name, "item"@),
        is_named(name, "itemref"@, ":itemref"@) == tag_is(name, "itemref"@),
        is_named(name, "spine"@, ":spine"@) == tag_is(name, "spine"@),
        is_named(name, "meta"@, ":meta"@) == tag_is(name, "meta"@),
        tag_is(name, "item"@) ==> name.last() == 'm',
        tag_is(name, "itemref"@) ==> name.last() == 'f',
        tag_is(name, "spine"@) ==> name.last() == 'e',
        tag_is(name, "meta"@) ==> name.last() == 'a',
{
    reveal_strlit("item");
    reveal_strlit(":item");
    reveal_strlit("itemref");
    reveal_strlit(":itemref");
    reveal_strlit("spine");
    reveal_strlit(":spine");
    reveal_strlit("meta");
    reveal_strlit(":meta");
    assert(":item"@ =~= seq![':'] + "item"@);
    assert(":itemref"@ =~= seq![':'] + "itemref"@);
    assert(":spine"@ =~= seq![':'] + "spine"@);
    assert(":meta"@ =~= seq![':'] + "meta"@);
    names_agree(name, "item"@, ":item"@);
    names_agree(name, "itemref"@, ":itemref"@);
    names_agree(name, "spine"@, ":spine"@);
    names_agree(name, "meta"@, ":meta"@);
}

/// The manifest of a package holds its `item` tags, with their identifiers, paths and media types, in
/// their order, and its spine the references of its `itemref` tags in theirs.
pub proof fn package_lists_its_files(events: Seq<XmlItem>)
    ensures
        package_of(events).manifest == events.filter_map(
            |e: XmlItem|
                match tag_in(e, "item"@) {
                    Some(t) => Some(
                        FileEntry {
                            id: or_empty(attribute(t, "id"@, 0)),
                            href: or_empty(attribute(t, "href"@, 0)),
                            media_type: or_empty(attribute(t, "media-type"@, 0)),
                        },
                    ),
                    None => None,
                },
        ),
        package_of(events).spine == events.filter_map(
            |e: XmlItem|
                match tag_in(e, "itemref"@) {
                    Some(t) => Some(or_empty(attribute(t, "idref"@, 0))),
                    None => None,
                },
        ),
    decreases events.len(),
{
    let file = |e: XmlItem|
        match tag_in(e, "item"@) {
            Some(t) => Some(
                FileEntry {
                    id: or_empty(attribute(t, "id"@, 0)),
                    href: or_empty(attribute(t, "href"@, 0)),
                    media_type: or_empty(attribute(t, "media-type"@, 0)),
                },
            ),
            None => None,
        };
    let place = |e: XmlItem|
        match tag_in(e, "itemref"@) {
            Some(t) => Some(or_empty(attribute(t, "idref"@, 0))),
            None => None,
        };
    if events.len() > 0 {
        package_lists_its_files(events.drop_last());
        match events.last() {
            XmlItem::Start(t) | XmlItem::Empty(t) => tag_names_agree(t.name),
            _ => {},
        }
    }
    assert(package_of(events).manifest =~= events.filter_map(file));
    assert(package_of(events).spine =~= events.filter_map(place));
}

/// The reading direction of a package is that of its last `spine` tag.
pub proof fn direction_is_that_of_the_spine(before: Seq<XmlItem>, tag: XmlItem, behind: Seq<XmlItem>)
    requires
        tag_in(tag, "spine"@) is Some,
        forall|i: int| 0 <= i < behind.len() ==> tag_in(#[trigger] behind[i], "spine"@) is None,
    ensures
        package_of(before + seq![tag] + behind).direction == attribute(
            tag_in(tag, "spine"@)->0,
            "page-progression-direction"@,
            0,
        ),
    decreases behind.len(),
{
    let all = before + seq![tag] + behind;
    match all.last() {
        XmlItem::Start(t) | XmlItem::Empty(t) => tag_names_agree(t.name),
        _ => {},
    }
    if behind.len() == 0 {
        assert(all.drop_last() =~= before);
    } else {
        let rest = behind.drop_last();
        assert(all.drop_last() =~= before + seq![tag] + rest);
        assert(tag_in(behind[behind.len() - 1], "spine"@) is None);
        assert forall|i: int| 0 <= i < rest.len() implies tag_in(
            #[trigger] rest[i],
            "spine"@,
        ) is None by {
            assert(rest[i] == behind[i]);
        }
        direction_is_that_of_the_spine(before, tag, rest);
    }
}

/// Text directly behind an opening tag, but for events that are neither tags nor text.
pub open spec fn is_text_of(events: Seq<XmlItem>, tag: TagText, text: Seq<char>) -> bool {
    exists|s: int|
        0 <= s < events.len() - 1 && #[trigger] events[s] == XmlItem::Start(tag) && events.last()
            == XmlItem::Text(text) && forall|i: int|
            s < i < events.len() - 1 ==> !(#[trigger] events[i] is Start) && !(events[i] is End)
}

proof fn text_stands_in_tag(events: Seq<XmlItem>, s: int, tag: TagText)
    requires
        0 <= s < events.len(),
        events[s] == XmlItem::Start(tag),
        forall|i: int|
            s < i < events.len() ==> !(#[trigger] events[i] is Start) && !(events[i] is End),
    ensures
        open_tag(events) == tag.name,
        open_property(events) == or_empty(attribute(tag, "property"@, 0)),
    decreases events.len(),
{
    if s < events.len() - 1 {
        text_stands_in_tag(events.drop_last(), s, tag);
        let last = events[events.len() - 1];
        assert(!(last is Start) && !(last is End));
    }
}

/// A field of a package holds the first text, without white space around it, that is not empty.
pub open spec fn takes_first(before: Seq<char>, text: Seq<char>, after: Seq<char>) -> bool {
    after == if before.len() == 0 {
        trimmed(text)
    } else {
        before
    }
}

proof fn content_names_agree(name: Seq<char>)
    ensures
        is_named(name, "title"@, ":title"@) == tag_is(name, "title"@),
        is_named(name, "creator"@, ":creator"@) == tag_is(name, "creator"@),
        is_named(name, "date"@, ":date"@) == tag_is(name, "date"@),
        is_named(name, "language"@, ":language"@) == tag_is(name, "language"@),
        is_named(name, "DictionaryInLanguage"@, ":DictionaryInLanguage"@) == tag_is(
            name,
            "DictionaryInLanguage"@,
        ),
        is_named(name, "DictionaryOutLanguage"@, ":DictionaryOutLanguage"@) == tag_is(
            name,
            "DictionaryOutLanguage"@,
        ),
        is_named(name, "description"@, ":description"@) == tag_is(name, "description"@),
        is_named(name, "subject"@, ":subject"@) == tag_is(name, "subject"@),
        is_named(name, "meta"@, ":meta"@) == tag_is(name, "meta"@),
        tag_is(name, "title"@) ==> name.len() >= 5 && name[name.len() - 2] == 'l',
        tag_is(name, "creator"@) ==> name.len() >= 7 && name[name.len() - 2] == 'o' && name.last()
            == 'r',
        tag_is(name, "date"@) ==> name.len() >= 4 && name[name.len() - 2] == 't' && name.last()
            == 'e',
        tag_is(name, "language"@) ==> name.len() >= 8 && name[name.len() - 2] == 'g' && name[name.len()
            - 8] == 'l',
        tag_is(name, "DictionaryInLanguage"@) ==> name.len() >= 20 && name[name.len() - 2] == 'g'
            && name[name.len() - 8] == 'L' && name[name.len() - 9] == 'n',
        tag_is(name, "DictionaryOutLanguage"@) ==> name.len() >= 21 && name[name.len() - 2] == 'g'
            && name[name.len() - 8] == 'L' && name[name.len() - 9] == 't',
        tag_is(name, "description"@) ==> name.len() >= 11 && name[name.len() - 2] == 'o'
            && name.last() == 'n',
        tag_is(name, "subject"@) ==> name.len() >= 7 && name[name.len() - 2] == 'c',
        tag_is(name, "meta"@) ==> name.len() >= 4 && name[name.len() - 2] == 't' && name.last()
            == 'a',
{
    reveal_strlit("title");
    reveal_strlit(":title");
    reveal_strlit("creator");
    reveal_strlit(":creator");
    reveal_strlit("date");
    reveal_strlit(":date");
    reveal_strlit("language");
    reveal_strlit(":language");
    reveal_strlit("DictionaryInLanguage");
    reveal_strlit(":DictionaryInLanguage");
    reveal_strlit("DictionaryOutLanguage");
    reveal_strlit(":DictionaryOutLanguage");
    reveal_strlit("description");
    reveal_strlit(":description");
    reveal_strlit("subject");
    reveal_strlit(":subject");
    reveal_strlit("meta");
    reveal_strlit(":meta");
    assert(":title"@ =~= seq![':'] + "title"@);
    assert(":creator"@ =~= seq![':'] + "creator"@);
    assert(":date"@ =~= seq![':'] + "date"@);
    assert(":language"@ =~= seq![':'] + "language"@);
    assert(":DictionaryInLanguage"@ =~= seq![':'] + "DictionaryInLanguage"@);
    assert(":DictionaryOutLanguage"@ =~= seq![':'] + "DictionaryOutLanguage"@);
    assert(":description"@ =~= seq![':'] + "description"@);
    assert(":subject"@ =~= seq![':'] + "subject"@);
    assert(":meta"@ =~= seq![':'] + "meta"@);
    names_agree(name, "title"@, ":title"@);
    names_agree(name, "creator"@, ":creator"@);
    names_agree(name, "date"@, ":date"@);
    names_agree(name, "language"@, ":language"@);
    names_agree(name, "DictionaryInLanguage"@, ":DictionaryInLanguage"@);
    names_agree(name, "DictionaryOutLanguage"@, ":DictionaryOutLanguage"@);
    names_agree(name, "description"@, ":description"@);
    names_agree(name, "subject"@, ":subject"@);
    names_agree(name, "meta"@, ":meta"@);
}

/// The text of an element goes to the field of its name, where that is still empty: a title to the
/// title, a creator to the author, and so on. The text of a `meta` element becomes metadata under its
/// property.
pub proof fn package_takes_the_text_of_elements(
    events: Seq<XmlItem>,
    tag: TagText,
    text: Seq<char>,
)
    requires
        is_text_of(events, tag, text),
    ensures
        ({
            let p = package_of(events.drop_last());
            let q = package_of(events);
            &&& tag_is(tag.name, "title"@) ==> takes_first(p.title, text, q.title)
            &&& tag_is(tag.name, "creator"@) ==> takes_first(p.author, text, q.author)
            &&& tag_is(tag.name, "date"@) ==> takes_first(p.date, text, q.date)
            &&& tag_is(tag.name, "language"@) ==> takes_first(p.language, text, q.language)
            &&& tag_is(tag.name, "DictionaryInLanguage"@) ==> takes_first(
                p.dict_in_language,
                text,
                q.dict_in_language,
            )
            &&& tag_is(tag.name, "DictionaryOutLanguage"@) ==> takes_first(
                p.dict_out_language,
                text,
                q.dict_out_language,
            )
            &&& tag_is(tag.name, "description"@) ==> takes_first(
                p.description,
                text,
                q.description,
            )
            &&& tag_is(tag.name, "subject"@) ==> takes_first(p.subject, text, q.subject)
            &&& tag_is(tag.name, "meta"@) && trimmed(text).len() > 0 && or_empty(
                attribute(tag, "property"@, 0),
            ).len() > 0 ==> q.metas == p.metas.push(
                (or_empty(attribute(tag, "property"@, 0)), trimmed(text)),
            )
        }),
{
    let s = choose|s: int|
        0 <= s < events.len() - 1 && #[trigger] events[s] == XmlItem::Start(tag) && events.last()
            == XmlItem::Text(text) && forall|i: int|
            s < i < events.len() - 1 ==> !(#[trigger] events[i] is Start) && !(events[i] is End);
    let before = events.drop_last();
    text_stands_in_tag(before, s, tag);
    content_names_agree(tag.name);
}

/// Metadata with a name and a content is added behind what there is.
pub proof fn package_takes_metadata(events: Seq<XmlItem>, tag: XmlItem)
    requires
        tag_in(tag, "meta"@) is Some,
        attribute(tag_in(tag, "meta"@)->0, "name"@, 0) is Some,
        attribute(tag_in(tag, "meta"@)->0, "content"@, 0) is Some,
    ensures
        package_of(events.push(tag)).metas == package_of(events).metas.push(
            (
                attribute(tag_in(tag, "meta"@)->0, "name"@, 0)->0,
                attribute(tag_in(tag, "meta"@)->0, "content"@, 0)->0,
            ),
        ),
{
    tag_names_agree(tag_in(tag, "meta"@)->0.name);
    assert(events.push(tag).drop_last() =~= events);
}

/// Once a field of a package has its text, and once a file or metadata is listed, it stays: what
/// comes later in the document changes neither.
pub proof fn package_keeps_what_came_first(a: Seq<XmlItem>, b: Seq<XmlItem>)
    ensures
        ({
            let p = package_of(a);
            let q = package_of(a + b);
            &&& p.title.len() > 0 ==> q.title == p.title
            &&& p.author.len() > 0 ==> q.author == p.author
            &&& p.date.len() > 0 ==> q.date == p.date
            &&& p.language.len() > 0 ==> q.language == p.language
            &&& p.dict_in_language.len() > 0 ==> q.dict_in_language == p.dict_in_language
            &&& p.dict_out_language.len() > 0 ==> q.dict_out_language == p.dict_out_language
            &&& p.description.len() > 0 ==> q.description == p.description
            &&& p.subject.len() > 0 ==> q.subject == p.subject
            &&& p.metas.is_prefix_of(q.metas)
        }),
    decreases b.len(),
{
    if b.len() == 0 {
        assert(a + b =~= a);
    } else {
        package_keeps_what_came_first(a, b.drop_last());
        assert((a + b).drop_last() =~= a + b.drop_last());
    }
}

/// Text behind an end tag, before another element begins, says nothing.
pub proof fn text_between_elements_says_nothing(events: Seq<XmlItem>, s: int)
    requires
        0 <= s < events.len() - 1,
        events[s] is End,
        events.last() is Text,
        forall|i: int|
            s < i < events.len() - 1 ==> !(#[trigger] events[i] is Start) && !(events[i] is End),
    ensures
        package_of(events) == package_of(events.drop_last()),
{
    let before = events.drop_last();
    nothing_is_open(before, s);
    let none: Seq<char> = seq![];
    content_names_agree(none);
    reveal_strlit("title");
    reveal_strlit("creator");
    reveal_strlit("date");
    reveal_strlit("language");
    reveal_strlit("DictionaryInLanguage");
    reveal_strlit("DictionaryOutLanguage");
    reveal_strlit("description");
    reveal_strlit("subject");
    reveal_strlit("meta");
    reveal_strlit(":title");
    reveal_strlit(":creator");
    reveal_strlit(":date");
    reveal_strlit(":language");
    reveal_strlit(":DictionaryInLanguage");
    reveal_strlit(":DictionaryOutLanguage");
    reveal_strlit(":description");
    reveal_strlit(":subject");
    reveal_strlit(":meta");
}

proof fn nothing_is_open(events: Seq<XmlItem>, s: int)
    requires
        0 <= s < events.len(),
        events[s] is End,
        forall|i: int|
            s < i < events.len() ==> !(#[trigger] events[i] is Start) && !(events[i] is End),
    ensures
        open_tag(events) == Seq::<char>::empty(),
    decreases events.len(),
{
    if s < events.len() - 1 {
        nothing_is_open(events.drop_last(), s);
        let last = events[events.len() - 1];
        assert(!(last is Start) && !(last is End));
    }
}

} // verus!
