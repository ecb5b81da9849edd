//! Comics: devices, options, metadata and the kinds of input.

use vstd::prelude::*;

use crate::markup::{join_texts, joined};
use crate::pattern::texts;
use crate::text::{
    chars_of, decimal, lowercased, opt_string, push_decimal, same_text, string_of, to_lower, trim,
    trimmed,
};
use crate::xml::{items, read_xml, xml_items, TagText, XmlEvent, XmlItem};

verus! {

/// Why no comic can be built.
#[derive(Debug)]
pub enum ComicError {
    /// The input holds no image.
    NoImages,
    /// No image could be read.
    NoValidImages,
    /// An image cannot be read.
    NotDecoded,
    /// An image has no pixels.
    ZeroDimensions(u32, u32),
    /// A page could not be written as JPEG.
    NotEncoded,
    /// The input is a RAR archive.
    Rar,
    /// The input is a PDF file.
    Pdf,
    /// The input is of another kind; this is its extension.
    Unsupported(String),
    /// The input is no directory and has no extension.
    UnknownInput,
}

/// What is said of an error.
pub open spec fn error_text(e: ComicError) -> Seq<char> {
    match e {
        ComicError::NoImages => "No images found in input"@,
        ComicError::NoValidImages => "All images failed to load - no valid images to process"@,
        ComicError::NotDecoded => "the image cannot be read"@,
        ComicError::ZeroDimensions(w, h) => "zero dimensions ("@ + decimal(w as nat) + "x"@
            + decimal(h as nat) + ")"@,
        ComicError::NotEncoded => "the page cannot be written as JPEG"@,
        ComicError::Rar => "CBR (RAR) files are not supported directly. Please convert to CBZ first using:\n  unrar x input.cbr temp_dir/ && cd temp_dir && zip -r output.cbz ."@,
        ComicError::Pdf => "PDF support coming soon"@,
        ComicError::Unsupported(ext) => "Unsupported input format: ."@ + ext@,
        ComicError::UnknownInput => "Cannot determine input type (not a directory and has no extension)"@,
    }
}

impl ComicError {
    /// What is said of the error.
    pub fn message(&self) -> (r: String)
        ensures
            r@ == error_text(*self),
    {
        match self {
            ComicError::NoImages => "No images found in input".to_owned(),
            ComicError::NoValidImages => "All images failed to load - no valid images to process".to_owned(),
            ComicError::NotDecoded => "the image cannot be read".to_owned(),
            ComicError::ZeroDimensions(w, h) => {
                let mut r = String::new();
                r.append("zero dimensions (");
                push_decimal(&mut r, *w as u128);
                r.append("x");
                push_decimal(&mut r, *h as u128);
                r.append(")");
                assert(r@ =~= error_text(*self));
                r
            },
            ComicError::NotEncoded => "the page cannot be written as JPEG".to_owned(),
            ComicError::Rar => "CBR (RAR) files are not supported directly. Please convert to CBZ first using:\n  unrar x input.cbr temp_dir/ && cd temp_dir && zip -r output.cbz .".to_owned(),
            ComicError::Pdf => "PDF support coming soon".to_owned(),
            ComicError::Unsupported(ext) => {
                let mut r = String::new();
                r.append("Unsupported input format: .");
                r.append(ext.as_str());
                assert(r@ =~= error_text(*self));
                r
            },
            ComicError::UnknownInput => "Cannot determine input type (not a directory and has no extension)".to_owned(),
        }
    }
}

/// The screen of a device.
#[derive(Debug, Clone, Copy)]
pub struct DeviceProfile {
    pub width: u32,
    pub height: u32,
    pub grayscale: bool,
    pub name: &'static str,
}

/// The devices.
pub open spec fn devices() -> Seq<DeviceProfile> {
    seq![
        DeviceProfile { width: 1072, height: 1448, grayscale: true, name: "paperwhite" },
        DeviceProfile { width: 1264, height: 1680, grayscale: true, name: "oasis" },
        DeviceProfile { width: 1860, height: 2480, grayscale: true, name: "scribe" },
        DeviceProfile { width: 1072, height: 1448, grayscale: true, name: "basic" },
        DeviceProfile { width: 1264, height: 1680, grayscale: false, name: "colorsoft" },
        DeviceProfile { width: 1200, height: 1920, grayscale: false, name: "fire-hd-10" },
        DeviceProfile { width: 1236, height: 1648, grayscale: true, name: "kpw5" },
        DeviceProfile { width: 1986, height: 2648, grayscale: true, name: "scribe2025" },
        DeviceProfile { width: 1240, height: 1860, grayscale: true, name: "kindle2024" },
    ]
}

/// All devices.
pub fn profiles() -> (r: Vec<DeviceProfile>)
    ensures
        r@ == devices(),
{
    let r = vec![
        DeviceProfile { width: 1072, height: 1448, grayscale: true, name: "paperwhite" },
        DeviceProfile { width: 1264, height: 1680, grayscale: true, name: "oasis" },
        DeviceProfile { width: 1860, height: 2480, grayscale: true, name: "scribe" },
        DeviceProfile { width: 1072, height: 1448, grayscale: true, name: "basic" },
        DeviceProfile { width: 1264, height: 1680, grayscale: false, name: "colorsoft" },
        DeviceProfile { width: 1200, height: 1920, grayscale: false, name: "fire-hd-10" },
        DeviceProfile { width: 1236, height: 1648, grayscale: true, name: "kpw5" },
        DeviceProfile { width: 1986, height: 2648, grayscale: true, name: "scribe2025" },
        DeviceProfile { width: 1240, height: 1860, grayscale: true, name: "kindle2024" },
    ];
    assert(r@ =~= devices());
    r
}

/// The first device with this name.
pub open spec fn device_named(devices: Seq<DeviceProfile>, name: Seq<char>) -> Option<DeviceProfile>
    decreases devices.len(),
{
    if devices.len() == 0 {
        None
    } else if devices[0].name@ == name {
        Some(devices[0])
    } else {
        device_named(devices.drop_first(), name)
    }
}

/// The device with this name, which is in lower case.
pub fn find_profile(name: &str) -> (r: Option<DeviceProfile>)
    ensures
        r == device_named(devices(), name@),
{
    let all = profiles();
    let mut i: usize = 0;
    assert(all@.skip(0) =~= all@);
    while i < all.len()
        invariant
            all@ == devices(),
            i <= all@.len(),
            device_named(devices(), name@) == device_named(all@.skip(i as int), name@),
        decreases all.len() - i,
    {
        assert(all@.skip(i as int).drop_first() =~= all@.skip(i + 1));
        if same_text(all[i].name, name) {
            return Some(all[i]);
        }
        i += 1;
    }
    assert(all@.skip(i as int) =~= seq![]);
    None
}

/// The device with this name, whatever the case of its letters.
pub fn get_profile(name: &str) -> (r: Option<DeviceProfile>)
    ensures
        r == device_named(devices(), lowercased(name@)),
{
    let lower = to_lower(name);
    find_profile(lower.as_str())
}

/// The names of the devices.
pub open spec fn device_names() -> Seq<Seq<char>> {
    Seq::new(devices().len(), |i: int| devices()[i].name@)
}

/// The names of the devices, with commas between them.
pub fn valid_device_names() -> (r: String)
    ensures
        r@ == joined(device_names(), ", "@),
{
    let all = profiles();
    let mut names: Vec<String> = Vec::new();
    let mut i: usize = 0;
    while i < all.len()
        invariant
            all@ == devices(),
            i <= all@.len(),
            names@.len() == i,
            forall|k: int| 0 <= k < i ==> (#[trigger] names@[k])@ == devices()[k].name@,
        decreases all.len() - i,
    {
        names.push(all[i].name.to_owned());
        i += 1;
    }
    assert(texts(names@) =~= device_names());
    join_texts(&names, ", ")
}

/// How a comic is built.
#[derive(Debug, Clone)]
pub struct ComicOptions {
    /// Pages are read from right to left.
    pub rtl: bool,
    /// Double-page spreads are split.
    pub split: bool,
    /// Borders are cut off.
    pub crop: bool,
    /// Contrast is stretched for grayscale devices.
    pub enhance: bool,
    /// The images are a webtoon, whatever their size.
    pub webtoon: bool,
    /// Panels are marked for Panel View.
    pub panel_view: bool,
    /// The JPEG quality, from 1 to 100.
    pub jpeg_quality: u8,
    /// How high a merged webtoon strip may be.
    pub max_height: u32,
    /// The source is embedded in the file.
    pub embed_source: bool,
    /// The shelf that the comic belongs to.
    pub doc_type: Option<String>,
    /// The title, in place of what the metadata says.
    pub title_override: Option<String>,
    /// The language, in place of English.
    pub language: Option<String>,
}

impl Default for ComicOptions {
    fn default() -> (r: ComicOptions)
        ensures
            !r.rtl,
            r.split,
            r.crop,
            r.enhance,
            !r.webtoon,
            r.panel_view,
            r.jpeg_quality == 85,
            r.max_height == 65536,
            r.embed_source,
            r.doc_type is None,
            r.title_override is None,
            r.language is None,
    {
        ComicOptions {
            rtl: false,
            split: true,
            crop: true,
            enhance: true,
            webtoon: false,
            panel_view: true,
            jpeg_quality: 85,
            max_height: 65536,
            embed_source: true,
            doc_type: None,
            title_override: None,
            language: None,
        }
    }
}

/// What ComicInfo.xml says of a comic.
#[derive(Debug, Clone)]
pub struct ComicMetadata {
    pub title: Option<String>,
    pub series: Option<String>,
    pub number: Option<String>,
    pub writers: Vec<String>,
    pub pencillers: Vec<String>,
    pub inkers: Vec<String>,
    pub summary: Option<String>,
    pub genre: Option<String>,
    pub manga_rtl: bool,
}

/// What ComicInfo.xml says of a comic, as texts.
pub struct ComicInfo {
    pub title: Option<Seq<char>>,
    pub series: Option<Seq<char>>,
    pub number: Option<Seq<char>>,
    pub writers: Seq<Seq<char>>,
    pub pencillers: Seq<Seq<char>>,
    pub inkers: Seq<Seq<char>>,
    pub summary: Option<Seq<char>>,
    pub genre: Option<Seq<char>>,
    pub manga_rtl: bool,
}

impl View for ComicMetadata {
    type V = ComicInfo;

    open spec fn view(&self) -> ComicInfo {
        ComicInfo {
            title: opt_string(self.title),
            series: opt_string(self.series),
            number: opt_string(self.number),
            writers: texts(self.writers@),
            pencillers: texts(self.pencillers@),
            inkers: texts(self.inkers@),
            summary: opt_string(self.summary),
            genre: opt_string(self.genre),
            manga_rtl: self.manga_rtl,
        }
    }
}

/// The title of a comic: series, number and title as far as they are known. A number without a
/// series is left out.
pub open spec fn title_of(info: ComicInfo) -> Option<Seq<char>> {
    match (info.series, info.number, info.title) {
        (Some(s), Some(n), Some(t)) => Some(s + " #"@ + n + " - "@ + t),
        (Some(s), Some(n), None) => Some(s + " #"@ + n),
        (Some(s), None, Some(t)) => Some(s + " - "@ + t),
        (Some(s), None, None) => Some(s),
        (None, _, title) => title,
    }
}

impl ComicMetadata {
    /// What an empty ComicInfo.xml says.
    pub fn new() -> (r: ComicMetadata)
        ensures
            r@ == no_info(),
    {
        let r = ComicMetadata {
            title: None,
            series: None,
            number: None,
            writers: Vec::new(),
            pencillers: Vec::new(),
            inkers: Vec::new(),
            summary: None,
            genre: None,
            manga_rtl: false,
        };
        proof {
            assert(r@.writers =~= seq![]);
            assert(r@.pencillers =~= seq![]);
            assert(r@.inkers =~= seq![]);
        }
        r
    }

    /// The title of the comic: series, number and title as far as they are known.
    pub fn effective_title(&self) -> (r: Option<String>)
        ensures
            opt_string(r) == title_of(self@),
    {
        match &self.series {
            Some(series) => {
                let mut t = String::new();
                t.append(series.as_str());
                if let Some(number) = &self.number {
                    t.append(" #");
                    t.append(number.as_str());
                }
                if let Some(title) = &self.title {
                    t.append(" - ");
                    t.append(title.as_str());
                }
                assert(t@ =~= title_of(self@)->0);
                Some(t)
            },
            None => match &self.title {
                Some(title) => Some(title.clone()),
                None => None,
            },
        }
    }

    /// The writers, then the pencillers, then the inkers.
    pub fn creators(&self) -> (r: Vec<String>)
        ensures
            texts(r@) == self@.writers + self@.pencillers + self@.inkers,
    {
        let mut r: Vec<String> = Vec::new();
        push_texts(&mut r, &self.writers);
        push_texts(&mut r, &self.pencillers);
        push_texts(&mut r, &self.inkers);
        assert(texts(r@) =~= self@.writers + self@.pencillers + self@.inkers);
        r
    }
}

fn push_texts(out: &mut Vec<String>, list: &Vec<String>)
    ensures
        texts(final(out)@) == texts(old(out)@) + texts(list@),
{
    let mut i: usize = 0;
    assert(texts(out@) =~= texts(old(out)@) + texts(list@).take(0));
    while i < list.len()
        invariant
            i <= list@.len(),
            texts(out@) == texts(old(out)@) + texts(list@).take(i as int),
        decreases list.len() - i,
    {
        let ghost before = texts(out@);
        out.push(list[i].clone());
        i += 1;
        proof {
            assert(texts(out@) =~= before.push(list@[i - 1]@));
            assert(texts(out@) =~= texts(old(out)@) + texts(list@).take(i as int));
        }
    }
    assert(texts(list@).take(i as int) =~= texts(list@));
}

/// What an empty ComicInfo.xml says.
pub open spec fn no_info() -> ComicInfo {
    ComicInfo {
        title: None,
        series: None,
        number: None,
        writers: seq![],
        pencillers: seq![],
        inkers: seq![],
        summary: None,
        genre: None,
        manga_rtl: false,
    }
}

/// The pieces of a text between commas.
pub open spec fn pieces(s: Seq<char>) -> Seq<Seq<char>>
    decreases s.len(),
{
    if s.len() == 0 {
        seq![seq![]]
    } else if s.last() == ',' {
        pieces(s.drop_last()).push(seq![])
    } else {
        let before = pieces(s.drop_last());
        before.drop_last().push(before.last().push(s.last()))
    }
}

/// The pieces without white space around them, as far as something is left.
pub open spec fn trimmed_pieces(list: Seq<Seq<char>>) -> Seq<Seq<char>>
    decreases list.len(),
{
    if list.len() == 0 {
        seq![]
    } else if trimmed(list.last()).len() == 0 {
        trimmed_pieces(list.drop_last())
    } else {
        trimmed_pieces(list.drop_last()).push(trimmed(list.last()))
    }
}

/// The names in a text, which stand between commas.
pub open spec fn names(s: Seq<char>) -> Seq<Seq<char>> {
    trimmed_pieces(pieces(s))
}

fn push_name(out: &mut Vec<String>, piece: &Vec<char>)
    ensures
        texts(final(out)@) == if trimmed(piece@).len() == 0 {
            texts(old(out)@)
        } else {
            texts(old(out)@).push(trimmed(piece@))
        },
{
    let text = string_of(piece);
    let name = trim(text.as_str());
    let chars = chars_of(name.as_str());
    if chars.len() > 0 {
        out.push(name);
        assert(texts(out@) =~= texts(old(out)@).push(trimmed(piece@)));
    }
}

/// Adds the names in a text, which stand between commas.
pub fn push_names(out: &mut Vec<String>, text: &str)
    ensures
        texts(final(out)@) == texts(old(out)@) + names(text@),
{
    let chars = chars_of(text);
    let mut piece: Vec<char> = Vec::new();
    let mut i: usize = 0;
    let ghost mut done: Seq<Seq<char>> = seq![];
    proof {
        assert(done.push(piece@) =~= pieces(chars@.take(0)));
        assert(texts(out@) =~= texts(old(out)@) + trimmed_pieces(done));
    }
    while i < chars.len()
        invariant
            chars@ == text@,
            i <= chars@.len(),
            pieces(chars@.take(i as int)) == done.push(piece@),
            texts(out@) == texts(old(out)@) + trimmed_pieces(done),
        decreases chars.len() - i,
    {
        let ghost before = done.push(piece@);
        proof {
            assert(chars@.take(i + 1).drop_last() =~= chars@.take(i as int));
            assert(before.drop_last() =~= done);
        }
        if chars[i] == ',' {
            push_name(out, &piece);
            piece = Vec::new();
            proof {
                assert(texts(out@) =~= texts(old(out)@) + trimmed_pieces(before));
                done = before;
                assert(pieces(chars@.take(i + 1)) =~= done.push(piece@));
            }
        } else {
            let ghost was = piece@;
            piece.push(chars[i]);
            assert(pieces(chars@.take(i + 1)) =~= done.push(piece@));
        }
        i += 1;
    }
    proof {
        assert(chars@.take(i as int) =~= chars@);
        assert(done.push(piece@).drop_last() =~= done);
    }
    push_name(out, &piece);
    assert(texts(out@) =~= texts(old(out)@) + names(text@));
}

/// What the text inside the element `tag` adds to the metadata.
pub open spec fn with_text(info: ComicInfo, tag: Seq<char>, text: Seq<char>) -> ComicInfo {
    if text.len() == 0 {
        info
    } else if tag == "Title"@ {
        ComicInfo { title: Some(text), ..info }
    } else if tag == "Series"@ {
        ComicInfo { series: Some(text), ..info }
    } else if tag == "Number"@ {
        ComicInfo { number: Some(text), ..info }
    } else if tag == "Writer"@ {
        ComicInfo { writers: info.writers + names(text), ..info }
    } else if tag == "Penciller"@ {
        ComicInfo { pencillers: info.pencillers + names(text), ..info }
    } else if tag == "Inker"@ {
        ComicInfo { inkers: info.inkers + names(text), ..info }
    } else if tag == "Summary"@ {
        ComicInfo { summary: Some(text), ..info }
    } else if tag == "Genre"@ {
        ComicInfo { genre: Some(text), ..info }
    } else if tag == "Manga"@ && (text == "YesAndRightToLeft"@ || text == "Yes"@) {
        ComicInfo { manga_rtl: true, ..info }
    } else {
        info
    }
}

/// The element that text after these events stands in; empty behind an end tag.
pub open spec fn open_tag(events: Seq<XmlItem>) -> Seq<char>
    decreases events.len(),
{
    if events.len() == 0 {
        seq![]
    } else {
        match events.last() {
            XmlItem::Start(t) => t.name,
            XmlItem::End => seq![],
            _ => open_tag(events.drop_last()),
        }
    }
}

/// The metadata that these events of a ComicInfo.xml give. What comes later replaces what came
/// before, but for names, which are added.
pub open spec fn info_of(events: Seq<XmlItem>) -> ComicInfo
    decreases events.len(),
{
    if events.len() == 0 {
        no_info()
    } else {
        let before = info_of(events.drop_last());
        match events.last() {
            XmlItem::Text(t) => with_text(before, open_tag(events.drop_last()), trimmed(t)),
            _ => before,
        }
    }
}

fn add_text(meta: &mut ComicMetadata, tag: &str, text: String)
    ensures
        final(meta)@ == with_text(old(meta)@, tag@, text@),
{
    let chars = chars_of(text.as_str());
    if chars.len() == 0 {
        return ;
    }
    if same_text(tag, "Title") {
        meta.title = Some(text);
    } else if same_text(tag, "Series") {
        meta.series = Some(text);
    } else if same_text(tag, "Number") {
        meta.number = Some(text);
    } else if same_text(tag, "Writer") {
        push_names(&mut meta.writers, text.as_str());
    } else if same_text(tag, "Penciller") {
        push_names(&mut meta.pencillers, text.as_str());
    } else if same_text(tag, "Inker") {
        push_names(&mut meta.inkers, text.as_str());
    } else if same_text(tag, "Summary") {
        meta.summary = Some(text);
    } else if same_text(tag, "Genre") {
        meta.genre = Some(text);
    } else if same_text(tag, "Manga") {
        if same_text(text.as_str(), "YesAndRightToLeft") || same_text(text.as_str(), "Yes") {
            meta.manga_rtl = true;
        }
    }
}

/// The metadata that the events of a ComicInfo.xml give.
pub fn comic_info(events: &[XmlEvent]) -> (r: ComicMetadata)
    ensures
        r@ == info_of(items(events@)),
{
    let mut meta = ComicMetadata::new();
    let mut tag = String::new();
    let mut i: usize = 0;
    let ghost all = items(events@);
    proof {
        assert(all.take(0) =~= seq![]);
        assert(tag@ =~= seq![]);
    }
    while i < events.len()
        invariant
            all == items(events@),
            i <= events@.len(),
            tag@ == open_tag(all.take(i as int)),
            meta@ == info_of(all.take(i as int)),
        decreases events.len() - i,
    {
        proof {
            assert(all.take(i + 1).drop_last() =~= all.take(i as int));
            assert(all.take(i + 1).last() == events@[i as int]@);
        }
        match &events[i] {
            XmlEvent::Start(t) => {
                tag = t.name.clone();
            },
            XmlEvent::End => {
                tag = String::new();
                assert(tag@ =~= seq![]);
            },
            XmlEvent::Text(t) => {
                add_text(&mut meta, tag.as_str(), trim(t.as_str()));
            },
            _ => {},
        }
        i += 1;
    }
    assert(all.take(i as int) =~= all);
    meta
}

/// Reads the text of a ComicInfo.xml. Where it is malformed, what came before that counts.
pub fn parse_comic_info_xml(xml: &str) -> (r: Result<ComicMetadata, ComicError>)
    ensures
        r is Ok,
        (r->Ok_0)@ == info_of(xml_items(xml@)),
{
    let events = read_xml(xml);
    Ok(comic_info(&events))
}

/// Every device is found by its name.
pub proof fn devices_are_found(i: int)
    requires
        0 <= i < devices().len(),
    ensures
        device_named(devices(), devices()[i].name@) == Some(devices()[i]),
{
    let all = devices();
    assert forall|a: int, b: int| 0 <= a < b < 9 implies #[trigger] all[a].name@
        != #[trigger] all[b].name@ by {
        names_differ(a, b);
    }
    first_is_found(all, i);
}

proof fn first_is_found(list: Seq<DeviceProfile>, i: int)
    requires
        0 <= i < list.len(),
        forall|a: int, b: int|
            0 <= a < b < list.len() ==> #[trigger] list[a].name@ != #[trigger] list[b].name@,
    ensures
        device_named(list, list[i].name@) == Some(list[i]),
    decreases list.len(),
{
    if i > 0 {
        let rest = list.drop_first();
        assert(list[0].name@ != list[i].name@);
        assert forall|a: int, b: int| 0 <= a < b < rest.len() implies #[trigger] rest[a].name@
            != #[trigger] rest[b].name@ by {
            assert(rest[a] == list[a + 1]);
            assert(rest[b] == list[b + 1]);
        }
        first_is_found(rest, i - 1);
        assert(rest[i - 1] == list[i]);
    }
}

proof fn names_differ(a: int, b: int)
    requires
        0 <= a < b < 9,
    ensures
        devices()[a].name@ != devices()[b].name@,
{
    reveal_strlit("paperwhite");
    reveal_strlit("oasis");
    reveal_strlit("scribe");
    reveal_strlit("basic");
    reveal_strlit("colorsoft");
    reveal_strlit("fire-hd-10");
    reveal_strlit("kpw5");
    reveal_strlit("scribe2025");
    reveal_strlit("kindle2024");
    let (p, q) = (devices()[a].name@, devices()[b].name@);
    if p == q {
        assert(p.len() == q.len());
        assert(p[0] == q[0]);
        assert(p[p.len() - 1] == q[q.len() - 1]);
        assert(p[1] == q[1]);
    }
}

/// The pieces of a text are what stands between its commas: none of them has one, and with commas
/// between them they are the text again.
pub proof fn pieces_stand_between_commas(s: Seq<char>)
    ensures
        pieces(s).len() > 0,
        joined(pieces(s), ","@) == s,
        forall|i: int| 0 <= i < pieces(s).len() ==> !(#[trigger] pieces(s)[i]).contains(','),
    decreases s.len(),
{
    reveal_strlit(",");
    let list = pieces(s);
    if s.len() == 0 {
        assert(joined(list, ","@) =~= s);
    } else {
        let rest = s.drop_last();
        let before = pieces(rest);
        pieces_stand_between_commas(rest);
        if s.last() == ',' {
            assert(list.drop_last() =~= before);
            assert(joined(list, ","@) =~= rest + ","@);
            assert(joined(list, ","@) =~= s);
            assert forall|i: int| 0 <= i < list.len() implies !(#[trigger] list[i]).contains(
                ',',
            ) by {
                if i < before.len() {
                    assert(list[i] == before[i]);
                }
            }
        } else {
            let longer = before.last().push(s.last());
            assert(list.drop_last() =~= before.drop_last());
            assert(list.last() == longer);
            assert forall|i: int| 0 <= i < list.len() implies !(#[trigger] list[i]).contains(
                ',',
            ) by {
                if i < before.len() - 1 {
                    assert(list[i] == before[i]);
                } else {
                    let was = before[before.len() - 1];
                    assert(!was.contains(','));
                    if longer.contains(',') {
                        let k = choose|k: int| 0 <= k < longer.len() && longer[k] == ',';
                        assert(was[k] == ',');
                    }
                }
            }
            if before.len() == 1 {
                assert(list.len() == 1);
                assert(joined(list, ","@) =~= s);
            } else {
                let front = joined(before.drop_last(), ","@) + ","@;
                assert(joined(before, ","@) == front + before.last());
                assert(joined(list, ","@) =~= (front + before.last()).push(s.last()));
                assert(joined(list, ","@) =~= s);
            }
        }
    }
}

/// The names in a text are its pieces between commas, without white space around them, where something
/// is left.
pub proof fn names_are_trimmed_pieces(s: Seq<char>)
    ensures
        names(s) == pieces(s).filter_map(
            |p: Seq<char>|
                if trimmed(p).len() > 0 {
                    Some(trimmed(p))
                } else {
                    None
                },
        ),
{
    pieces_are_trimmed(pieces(s));
}

proof fn pieces_are_trimmed(list: Seq<Seq<char>>)
    ensures
        trimmed_pieces(list) == list.filter_map(
            |p: Seq<char>|
                if trimmed(p).len() > 0 {
                    Some(trimmed(p))
                } else {
                    None
                },
        ),
    decreases list.len(),
{
    let kept = |p: Seq<char>|
        if trimmed(p).len() > 0 {
            Some(trimmed(p))
        } else {
            None
        };
    if list.len() > 0 {
        pieces_are_trimmed(list.drop_last());
    }
    assert(trimmed_pieces(list) =~= list.filter_map(kept));
}

proof fn element_is_open(events: Seq<XmlItem>, s: int, tag: TagText)
    requires
        0 <= s < events.len(),
        events[s] == XmlItem::Start(tag),
        forall|i: int|
            s < i < events.len() ==> !(#[trigger] events[i] is Start) && !(events[i] is End),
    ensures
        open_tag(events) == tag.name,
    decreases events.len(),
{
    if s < events.len() - 1 {
        element_is_open(events.drop_last(), s, tag);
        let last = events[events.len() - 1];
        assert(!(last is Start) && !(last is End));
    }
}

proof fn element_names_differ()
    ensures
        "Title"@.len() == 5 && "Title"@[0] == 'T',
        "Series"@.len() == 6 && "Series"@[0] == 'S',
        "Number"@.len() == 6 && "Number"@[0] == 'N',
        "Writer"@.len() == 6 && "Writer"@[0] == 'W',
        "Penciller"@.len() == 9,
        "Inker"@.len() == 5 && "Inker"@[0] == 'I',
        "Summary"@.len() == 7,
        "Genre"@.len() == 5 && "Genre"@[0] == 'G',
        "Manga"@.len() == 5 && "Manga"@[0] == 'M',
{
    reveal_strlit("Title");
    reveal_strlit("Series");
    reveal_strlit("Number");
    reveal_strlit("Writer");
    reveal_strlit("Penciller");
    reveal_strlit("Inker");
    reveal_strlit("Summary");
    reveal_strlit("Genre");
    reveal_strlit("Manga");
}

/// The text of an element of a ComicInfo.xml, where something is left of it without white space around,
/// goes to the field of its name: title, series, number, summary and genre take it, the names of
/// writers, pencillers and inkers are added to those before, and a manga that says so is read from right
/// to left.
pub proof fn info_takes_the_text_of_elements(
    events: Seq<XmlItem>,
    s: int,
    tag: TagText,
    text: Seq<char>,
)
    requires
        0 <= s < events.len() - 1,
        events[s] == XmlItem::Start(tag),
        events.last() == XmlItem::Text(text),
        forall|i: int|
            s < i < events.len() - 1 ==> !(#[trigger] events[i] is Start) && !(events[i] is End),
        trimmed(text).len() > 0,
    ensures
        ({
            let p = info_of(events.drop_last());
            let q = info_of(events);
            let t = trimmed(text);
            &&& tag.name == "Title"@ ==> q.title == Some(t)
            &&& tag.name == "Series"@ ==> q.series == Some(t)
            &&& tag.name == "Number"@ ==> q.number == Some(t)
            &&& tag.name == "Summary"@ ==> q.summary == Some(t)
            &&& tag.name == "Genre"@ ==> q.genre == Some(t)
            &&& tag.name == "Writer"@ ==> q.writers == p.writers + names(t)
            &&& tag.name == "Penciller"@ ==> q.pencillers == p.pencillers + names(t)
            &&& tag.name == "Inker"@ ==> q.inkers == p.inkers + names(t)
            &&& tag.name == "Manga"@ && (t == "YesAndRightToLeft"@ || t == "Yes"@) ==> q.manga_rtl
            &&& tag.name != "Title"@ ==> q.title == p.title
            &&& tag.name != "Series"@ ==> q.series == p.series
            &&& tag.name != "Number"@ ==> q.number == p.number
            &&& tag.name != "Summary"@ ==> q.summary == p.summary
            &&& tag.name != "Genre"@ ==> q.genre == p.genre
            &&& tag.name != "Writer"@ ==> q.writers == p.writers
            &&& tag.name != "Penciller"@ ==> q.pencillers == p.pencillers
            &&& tag.name != "Inker"@ ==> q.inkers == p.inkers
            &&& tag.name != "Manga"@ || (t != "YesAndRightToLeft"@ && t != "Yes"@) ==> q.manga_rtl
                == p.manga_rtl
        }),
{
    element_is_open(events.drop_last(), s, tag);
    element_names_differ();
}

/// Events other than text change nothing, and neither does text of which nothing is left without white
/// space around it.
pub proof fn info_takes_text_alone(events: Seq<XmlItem>, item: XmlItem)
    requires
        item matches XmlItem::Text(t) ==> trimmed(t).len() == 0,
    ensures
        info_of(events.push(item)) == info_of(events),
{
    assert(events.push(item).drop_last() =~= events);
}

/// The title of a comic begins with its series, where that is known. Its number stands behind the series
/// and before all else, and its title behind all else. Without a series it is the title alone.
pub proof fn titles_are_put_together(info: ComicInfo, number: Seq<char>, title: Seq<char>)
    ensures
        info.series is None ==> title_of(info) == info.title,
        info.series is Some ==> {
            let series = info.series->0;
            let unnumbered = ComicInfo { number: None, ..info };
            let untitled = ComicInfo { title: None, ..info };
            let bare = ComicInfo { number: None, title: None, ..info };
            &&& title_of(bare) == Some(series)
            &&& title_of(unnumbered) is Some
            &&& title_of(unnumbered)->0.take(series.len() as int) == series
            &&& title_of(ComicInfo { number: Some(number), ..info }) == Some(
                series + " #"@ + number + title_of(unnumbered)->0.skip(series.len() as int),
            )
            &&& title_of(untitled) is Some
            &&& title_of(ComicInfo { title: Some(title), ..info }) == Some(
                title_of(untitled)->0 + " - "@ + title,
            )
        },
{
    if info.series is Some {
        let series = info.series->0;
        let rest = title_of(ComicInfo { number: None, ..info })->0;
        assert(rest.take(series.len() as int) =~= series);
        match info.title {
            Some(t) => {
                assert(rest.skip(series.len() as int) =~= " - "@ + t);
                assert(series + " #"@ + number + (" - "@ + t) =~= series + " #"@ + number + " - "@ + t);
            },
            None => {
                assert(rest.skip(series.len() as int) =~= seq![]);
                assert(series + " #"@ + number + seq![] =~= series + " #"@ + number);
            },
        }
    }
}

/// A device is found by its name, and the first with that name counts; a name that none has leads to
/// none.
pub proof fn devices_are_found_by_name(list: Seq<DeviceProfile>, i: int, name: Seq<char>)
    requires
        0 <= i < list.len(),
    ensures
        list[i].name@ == name && (forall|k: int| 0 <= k < i ==> (#[trigger] list[k]).name@ != name)
            ==> device_named(list, name) == Some(list[i]),
        (forall|k: int| 0 <= k < list.len() ==> (#[trigger] list[k]).name@ != name) ==> device_named(
            list,
            name,
        ) is None,
{
    named_device_is_first(list, name);
}

proof fn named_device_is_first(list: Seq<DeviceProfile>, name: Seq<char>)
    ensures
        match device_named(list, name) {
            Some(d) => exists|i: int|
                0 <= i < list.len() && #[trigger] list[i] == d && d.name@ == name && forall|k: int|
                    0 <= k < i ==> (#[trigger] list[k]).name@ != name,
            None => forall|k: int| 0 <= k < list.len() ==> (#[trigger] list[k]).name@ != name,
        },
    decreases list.len(),
{
    if list.len() > 0 {
        let rest = list.drop_first();
        named_device_is_first(rest, name);
        if list[0].name@ == name {
            assert(list[0] == device_named(list, name)->0);
        } else {
            match device_named(rest, name) {
                Some(d) => {
                    let i = choose|i: int|
                        0 <= i < rest.len() && #[trigger] rest[i] == d && d.name@ == name && forall|k: int|
                            0 <= k < i ==> (#[trigger] rest[k]).name@ != name;
                    assert(list[i + 1] == d);
                    assert forall|k: int| 0 <= k < i + 1 implies (#[trigger] list[k]).name@ != name by {
                        if k > 0 {
                            assert(rest[k - 1] == list[k]);
                        }
                    }
                },
                None => {
                    assert forall|k: int| 0 <= k < list.len() implies (#[trigger] list[k]).name@ != name by {
                        if k > 0 {
                            assert(rest[k - 1] == list[k]);
                        }
                    }
                },
            }
        }
    }
}

} // verus!
