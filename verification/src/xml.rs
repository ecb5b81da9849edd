//! XML documents as runs of events, and what is looked up in them.
//!
//! Splitting a document into events is the quick-xml crate's work.
use quick_xml::events::BytesStart;
use quick_xml::events::Event::{Empty, End, Eof, Start, Text};
use quick_xml::Reader;
use vstd::prelude::*;

use crate::pattern::texts;
use crate::text::{chars_of, same_text, stands_at};

verus! {

/// The opening of an element: its name and its attributes, in order.
pub struct Tag {
    pub name: String,
    pub attributes: Vec<(String, String)>,
}

/// What a reader of XML comes upon next.
pub enum XmlEvent {
    /// The opening tag of an element.
    Start(Tag),
    /// An element without content.
    Empty(Tag),
    /// A closing tag.
    End,
    /// Text, with its entities resolved.
    Text(String),
    /// A comment, declaration or the like.
    Other,
    /// The end of the document.
    Eof,
    /// A fault, after which nothing more is read.
    Malformed(String),
}

/// The opening of an element, as texts.
pub struct TagText {
    pub name: Seq<char>,
    pub attributes: Seq<(Seq<char>, Seq<char>)>,
}

/// An event, as texts.
pub enum XmlItem {
    Start(TagText),
    Empty(TagText),
    End,
    Text(Seq<char>),
    Other,
    Eof,
    Malformed(Seq<char>),
}

impl View for Tag {
    type V = TagText;

    open spec fn view(&self) -> TagText {
        TagText {
            name: self.name@,
            attributes: Seq::new(
                self.attributes@.len(),
                |i: int| (self.attributes@[i].0@, self.attributes@[i].1@),
            ),
        }
    }
}

impl View for XmlEvent {
    type V = XmlItem;

    open spec fn view(&self) -> XmlItem {
        match self {
            XmlEvent::Start(t) => XmlItem::Start(t@),
            XmlEvent::Empty(t) => XmlItem::Empty(t@),
            XmlEvent::End => XmlItem::End,
            XmlEvent::Text(t) => XmlItem::Text(t@),
            XmlEvent::Other => XmlItem::Other,
            XmlEvent::Eof => XmlItem::Eof,
            XmlEvent::Malformed(t) => XmlItem::Malformed(t@),
        }
    }
}

/// Events, as texts.
pub open spec fn items(events: Seq<XmlEvent>) -> Seq<XmlItem> {
    Seq::new(events.len(), |i: int| events[i]@)
}

/// Nothing follows this event.
pub open spec fn is_final(item: XmlItem) -> bool {
    item is Eof || item is Malformed
}

/// The reader of quick-xml, over borrowed text.
#[verifier::external_type_specification]
#[verifier::external_body]
#[verifier::reject_recursive_types(R)]
pub struct ExReader<R>(quick_xml::Reader<R>);

/// The events of a document, up to its end or to the first fault.
pub uninterp spec fn xml_items(text: Seq<char>) -> Seq<XmlItem>;

/// The events that a reader has yet to yield, up to the end or to the first fault.
pub uninterp spec fn unread(reader: Reader<&[u8]>) -> Seq<XmlItem>;

/// `Reader::from_str`: a reader that will yield the events of the text, of which the
/// last, and no other, is the end or a fault. They are a function of the text.
#[verifier::external_body]
fn open_xml(text: &str) -> (r: Reader<&[u8]>)
    ensures
        unread(r) == xml_items(text@),
        unread(r).len() > 0,
        is_final(unread(r).last()),
        forall|i: int| 0 <= i < unread(r).len() - 1 ==> !is_final(#[trigger] unread(r)[i]),
{
    Reader::from_str(text)
}

/// `Reader::read_event`: the next event, which is then no longer among those to come.
/// Names, attribute names and values are taken as they are written, attributes that
/// cannot be read are passed over, and text that cannot be unescaped is empty.
#[verifier::external_body]
fn next_event(reader: &mut Reader<&[u8]>) -> (r: XmlEvent)
    requires
        unread(*old(reader)).len() > 0,
    ensures
        r@ == unread(*old(reader))[0],
        unread(*final(reader)) == unread(*old(reader)).drop_first(),
{
    let text = String::from_utf8_lossy;
    let tag = |e: BytesStart| Tag {
        name: text(e.name().0).into(),
        attributes: e.attributes().flatten().map(|a| (text(a.key.0).into(), text(&a.value).into())).collect()
    };
    match reader.read_event() {
        Ok(Start(e)) => XmlEvent::Start(tag(e)),
        Ok(Empty(e)) => XmlEvent::Empty(tag(e)),
        Ok(End(_)) => XmlEvent::End,
        Ok(Text(e)) => XmlEvent::Text(e.unescape().unwrap_or_default().into()),
        Ok(Eof) => XmlEvent::Eof,
        Ok(_) => XmlEvent::Other,
        Err(e) => XmlEvent::Malformed(e.to_string())
    }
}

/// Read all events of a document, up to its end or to the first fault.
pub fn read_xml(text: &str) -> (r: Vec<XmlEvent>)
    ensures
        items(r@) == xml_items(text@),
        r@.len() > 0,
        is_final(r@.last()@),
        forall|i: int| 0 <= i < r@.len() - 1 ==> !is_final((#[trigger] r@[i])@),
{
    let mut reader = open_xml(text);
    let ghost all = unread(reader);
    let mut r: Vec<XmlEvent> = Vec::new();
    assert(all.skip(0) =~= all);
    loop
        invariant_except_break
            r@.len() < all.len(),
        invariant
            all == xml_items(text@),
            all.len() > 0,
            is_final(all.last()),
            forall|i: int| 0 <= i < all.len() - 1 ==> !is_final(#[trigger] all[i]),
            r@.len() <= all.len(),
            unread(reader) == all.skip(r@.len() as int),
            forall|i: int| 0 <= i < r@.len() ==> (#[trigger] r@[i])@ == all[i],
        ensures
            r@.len() == all.len(),
        decreases all.len() - r@.len(),
    {
        let event = next_event(&mut reader);
        let ghost n = r@.len() as int;
        assert(event@ == all[n]);
        let done = match &event {
            XmlEvent::Eof => true,
            XmlEvent::Malformed(_) => true,
            _ => false,
        };
        r.push(event);
        assert(all.skip(n).drop_first() =~= all.skip(n + 1));
        if done {
            break ;
        }
    }
    proof {
        assert(items(r@) =~= all);
        assert(r@[r@.len() - 1]@ == all[all.len() - 1]);
    }
    r
}

/// `s` ends with `suffix`.
pub open spec fn ends_with(s: Seq<char>, suffix: Seq<char>) -> bool {
    suffix.len() <= s.len() && s.skip(s.len() - suffix.len()) == suffix
}

/// Whether `s` ends with `suffix`.
pub fn text_ends_with(s: &str, suffix: &str) -> (r: bool)
    ensures
        r == ends_with(s@, suffix@),
{
    let chars = chars_of(s);
    let end = chars_of(suffix);
    if end.len() > chars.len() {
        return false;
    }
    let at: usize = chars.len() - end.len();
    let r = stands_at(&chars, &end, at);
    proof {
        let rest = s@.skip(at as int);
        assert(rest.take(suffix@.len() as int) =~= rest);
    }
    r
}

/// The value of the first attribute with this name.
pub open spec fn attribute(tag: TagText, key: Seq<char>, from: int) -> Option<Seq<char>>
    decreases tag.attributes.len() - from,
{
    if from < 0 || from >= tag.attributes.len() {
        None
    } else if tag.attributes[from].0 == key {
        Some(tag.attributes[from].1)
    } else {
        attribute(tag, key, from + 1)
    }
}

/// The value of the first attribute with this name.
pub fn attribute_of(tag: &Tag, key: &str) -> (r: Option<String>)
    ensures
        crate::text::opt_string(r) == attribute(tag@, key@, 0),
{
    let mut i: usize = 0;
    while i < tag.attributes.len()
        invariant
            i <= tag.attributes@.len(),
            attribute(tag@, key@, 0) == attribute(tag@, key@, i as int),
        decreases tag.attributes.len() - i,
    {
        assert(tag@.attributes[i as int] == (tag.attributes@[i as int].0@, tag.attributes@[i as int].1@));
        if same_text(tag.attributes[i].0.as_str(), key) {
            return Some(tag.attributes[i].1.clone());
        }
        i += 1;
    }
    None
}

/// What reading a container description comes to.
#[derive(Debug)]
pub enum ContainerError {
    /// No root file is named.
    NoRootfile,
    /// The document is faulty.
    Malformed(String),
}

impl ContainerError {
    /// What is said of the error.
    pub fn message(&self) -> (r: String)
        ensures
            r@ == match self {
                ContainerError::NoRootfile => "No rootfile found in container.xml"@,
                ContainerError::Malformed(e) => "Error parsing container.xml: "@ + e@,
            },
    {
        match self {
            ContainerError::NoRootfile => "No rootfile found in container.xml".to_owned(),
            ContainerError::Malformed(e) => {
                let mut r = "Error parsing container.xml: ".to_owned();
                r.append(e.as_str());
                r
            },
        }
    }
}

/// The path of the root file that this event names.
pub open spec fn rootfile(item: XmlItem) -> Option<Seq<char>> {
    match item {
        XmlItem::Start(t) | XmlItem::Empty(t) => if t.name == "rootfile"@ || ends_with(
            t.name,
            ":rootfile"@,
        ) {
            attribute(t, "full-path"@, 0)
        } else {
            None
        },
        _ => None,
    }
}

/// The first of the items from `i` on that names a root file or is a fault.
pub open spec fn first_rootfile(list: Seq<XmlItem>, i: int) -> Option<int>
    decreases list.len() - i,
{
    if i < 0 || i >= list.len() {
        None
    } else if rootfile(list[i]) is Some || is_final(list[i]) {
        Some(i)
    } else {
        first_rootfile(list, i + 1)
    }
}

fn rootfile_of(event: &XmlEvent) -> (r: Option<String>)
    ensures
        crate::text::opt_string(r) == rootfile(event@),
{
    match event {
        XmlEvent::Start(t) | XmlEvent::Empty(t) => if same_text(t.name.as_str(), "rootfile")
            || text_ends_with(t.name.as_str(), ":rootfile") {
            attribute_of(t, "full-path")
        } else {
            None
        },
        _ => None,
    }
}

/// What the events of a container description name as the root file.
pub open spec fn container_result(list: Seq<XmlItem>) -> Result<Seq<char>, Option<Seq<char>>> {
    match first_rootfile(list, 0) {
        Some(i) => match rootfile(list[i]) {
            Some(path) => Ok(path),
            None => match list[i] {
                XmlItem::Malformed(m) => Err(Some(m)),
                _ => Err(None),
            },
        },
        None => Err(None),
    }
}

/// A result as texts.
pub open spec fn container_view(r: Result<String, ContainerError>) -> Result<
    Seq<char>,
    Option<Seq<char>>,
> {
    match r {
        Ok(path) => Ok(path@),
        Err(ContainerError::Malformed(m)) => Err(Some(m@)),
        Err(ContainerError::NoRootfile) => Err(None),
    }
}

/// Find the root file in the events of a container description: the first one that is
/// named before the document ends or is faulty.
pub fn find_rootfile(events: &[XmlEvent]) -> (r: Result<String, ContainerError>)
    ensures
        container_view(r) == container_result(items(events@)),
{
    let ghost list = items(events@);
    let mut i: usize = 0;
    while i < events.len()
        invariant
            list == items(events@),
            i <= events@.len(),
            first_rootfile(list, 0) == first_rootfile(list, i as int),
        decreases events.len() - i,
    {
        assert(list[i as int] == events@[i as int]@);
        if let Some(path) = rootfile_of(&events[i]) {
            return Ok(path);
        }
        match &events[i] {
            XmlEvent::Malformed(m) => {
                return Err(ContainerError::Malformed(m.clone()));
            },
            XmlEvent::Eof => {
                return Err(ContainerError::NoRootfile);
            },
            _ => {},
        }
        i += 1;
    }
    Err(ContainerError::NoRootfile)
}

/// Parse a container description to find the root file of a package.
pub fn parse_container_xml(content: &str) -> (r: Result<String, ContainerError>)
    ensures
        container_view(r) == container_result(xml_items(content@)),
{
    let events = read_xml(content);
    find_rootfile(&events)
}

/// The reference of the image that this event opens, if any: the source of an `img`
/// element, or the link of an SVG `image` element.
pub open spec fn image_reference(item: XmlItem) -> Option<Seq<char>> {
    match item {
        XmlItem::Start(t) | XmlItem::Empty(t) => if t.name == "img"@ {
            attribute(t, "src"@, 0)
        } else if t.name == "image"@ || ends_with(t.name, ":image"@) {
            match attribute(t, "xlink:href"@, 0) {
                Some(v) => Some(v),
                None => attribute(t, "href"@, 0),
            }
        } else {
            None
        },
        _ => None,
    }
}

/// The references of the images among the first `n` events.
pub open spec fn image_references_in(list: Seq<XmlItem>, n: nat) -> Seq<Seq<char>>
    decreases n,
{
    if n == 0 {
        seq![]
    } else {
        let rest = image_references_in(list, (n - 1) as nat);
        match image_reference(list[n - 1]) {
            Some(v) => rest.push(v),
            None => rest,
        }
    }
}

fn image_reference_of(event: &XmlEvent) -> (r: Option<String>)
    ensures
        crate::text::opt_string(r) == image_reference(event@),
{
    match event {
        XmlEvent::Start(t) | XmlEvent::Empty(t) => if same_text(t.name.as_str(), "img") {
            attribute_of(t, "src")
        } else if same_text(t.name.as_str(), "image") || text_ends_with(t.name.as_str(), ":image") {
            match attribute_of(t, "xlink:href") {
                Some(v) => Some(v),
                None => attribute_of(t, "href"),
            }
        } else {
            None
        },
        _ => None,
    }
}

/// The references of the images that the events of a document open, in order.
pub fn image_references_of(events: &[XmlEvent]) -> (r: Vec<String>)
    ensures
        texts(r@) == image_references_in(items(events@), events@.len()),
{
    let ghost list = items(events@);
    let mut r: Vec<String> = Vec::new();
    let mut i: usize = 0;
    assert(texts(r@) =~= seq![]);
    while i < events.len()
        invariant
            list == items(events@),
            i <= events@.len(),
            texts(r@) == image_references_in(list, i as nat),
        decreases events.len() - i,
    {
        let ghost before = texts(r@);
        if let Some(v) = image_reference_of(&events[i]) {
            let ghost text = v@;
            r.push(v);
            assert(texts(r@) =~= before.push(text));
        }
        i += 1;
    }
    r
}

/// Extract the references of `img` and SVG `image` elements from a document.
pub fn extract_image_refs_from_xhtml(xhtml: &str) -> (r: Vec<String>)
    ensures
        texts(r@) == image_references_in(xml_items(xhtml@), xml_items(xhtml@).len()),
{
    let events = read_xml(xhtml);
    assert(items(events@).len() == events@.len());
    image_references_of(&events)
}

/// The value of an attribute is that of the first one with the name; there is none only where no
/// attribute has the name.
pub proof fn first_attribute_counts(tag: TagText, key: Seq<char>)
    ensures
        match attribute(tag, key, 0) {
            Some(v) => exists|i: int|
                0 <= i < tag.attributes.len() && #[trigger] tag.attributes[i] == (key, v) && forall|
                    k: int,
                |
                    0 <= k < i ==> (#[trigger] tag.attributes[k]).0 != key,
            None => forall|i: int|
                0 <= i < tag.attributes.len() ==> (#[trigger] tag.attributes[i]).0 != key,
        },
{
    attribute_is_first(tag, key, 0);
}

proof fn attribute_is_first(tag: TagText, key: Seq<char>, from: int)
    requires
        0 <= from <= tag.attributes.len(),
    ensures
        match attribute(tag, key, from) {
            Some(v) => exists|i: int|
                from <= i < tag.attributes.len() && #[trigger] tag.attributes[i] == (key, v)
                    && forall|k: int| from <= k < i ==> (#[trigger] tag.attributes[k]).0 != key,
            None => forall|i: int|
                from <= i < tag.attributes.len() ==> (#[trigger] tag.attributes[i]).0 != key,
        },
    decreases tag.attributes.len() - from,
{
    if from < tag.attributes.len() {
        if tag.attributes[from].0 != key {
            attribute_is_first(tag, key, from + 1);
        } else {
            assert(tag.attributes[from] == (key, attribute(tag, key, from)->0));
        }
    }
}

/// The path that a root file tag gives.
pub open spec fn root_path(item: XmlItem) -> Option<Seq<char>> {
    match item {
        XmlItem::Start(t) | XmlItem::Empty(t) => if t.name == "rootfile"@ || exists|
            prefix: Seq<char>,
        |
            t.name == #[trigger] (prefix + ":rootfile"@) {
            attribute(t, "full-path"@, 0)
        } else {
            None
        },
        _ => None,
    }
}

/// A container leads to the first root file that is named before its description ends or turns out to
/// be faulty; where there is none before a fault, the fault is the answer.
pub proof fn container_leads_to_first_root_file(list: Seq<XmlItem>, i: int)
    requires
        0 <= i < list.len(),
        forall|k: int|
            0 <= k < i ==> root_path(#[trigger] list[k]) is None && !(list[k] is Eof)
                && !(list[k] is Malformed),
    ensures
        root_path(list[i]) is Some ==> container_result(list) == Ok::<Seq<char>, Option<Seq<char>>>(
            root_path(list[i])->0,
        ),
        list[i] is Malformed ==> container_result(list) == Err::<Seq<char>, Option<Seq<char>>>(
            Some(list[i]->Malformed_0),
        ),
        list[i] is Eof ==> container_result(list) == Err::<Seq<char>, Option<Seq<char>>>(None),
{
    assert forall|k: int| 0 <= k < list.len() implies rootfile(#[trigger] list[k]) == root_path(
        list[k],
    ) by {
        match list[k] {
            XmlItem::Start(t) | XmlItem::Empty(t) => suffix_is_end(t.name, ":rootfile"@),
            _ => {},
        }
    }
    if root_path(list[i]) is Some || is_final(list[i]) {
        root_file_is_first(list, 0, i);
    }
}

proof fn root_file_is_first(list: Seq<XmlItem>, from: int, i: int)
    requires
        0 <= from <= i < list.len(),
        forall|k: int| from <= k < i ==> rootfile(#[trigger] list[k]) is None && !is_final(list[k]),
        rootfile(list[i]) is Some || is_final(list[i]),
    ensures
        first_rootfile(list, from) == Some(i),
    decreases i - from,
{
    if from < i {
        assert(rootfile(list[from]) is None);
        root_file_is_first(list, from + 1, i);
    }
}

/// A text ends with another where something stands before that.
pub proof fn suffix_is_end(s: Seq<char>, suffix: Seq<char>)
    ensures
        ends_with(s, suffix) <==> exists|prefix: Seq<char>| s == #[trigger] (prefix + suffix),
{
    let n = s.len() - suffix.len();
    if ends_with(s, suffix) {
        assert(s =~= s.take(n) + suffix);
    }
    if exists|prefix: Seq<char>| s == #[trigger] (prefix + suffix) {
        let prefix = choose|prefix: Seq<char>| s == #[trigger] (prefix + suffix);
        assert(s.skip(n) =~= suffix);
    }
}

/// The references of a document are those of its `img` and SVG `image` tags, in their order.
pub proof fn references_follow_tags(list: Seq<XmlItem>, n: nat)
    requires
        n <= list.len(),
    ensures
        image_references_in(list, n) == list.take(n as int).filter_map(
            |e: XmlItem|
                match e {
                    XmlItem::Start(t) | XmlItem::Empty(t) => if t.name == "img"@ {
                        attribute(t, "src"@, 0)
                    } else if t.name == "image"@ || exists|prefix: Seq<char>|
                        t.name == #[trigger] (prefix + ":image"@) {
                        if attribute(t, "xlink:href"@, 0) is Some {
                            attribute(t, "xlink:href"@, 0)
                        } else {
                            attribute(t, "href"@, 0)
                        }
                    } else {
                        None
                    },
                    _ => None,
                },
        ),
    decreases n,
{
    let reference = |e: XmlItem|
        match e {
            XmlItem::Start(t) | XmlItem::Empty(t) => if t.name == "img"@ {
                attribute(t, "src"@, 0)
            } else if t.name == "image"@ || exists|prefix: Seq<char>|
                t.name == #[trigger] (prefix + ":image"@) {
                if attribute(t, "xlink:href"@, 0) is Some {
                    attribute(t, "xlink:href"@, 0)
                } else {
                    attribute(t, "href"@, 0)
                }
            } else {
                None
            },
            _ => None,
        };
    let part = list.take(n as int);
    if n > 0 {
        references_follow_tags(list, (n - 1) as nat);
        assert(part.drop_last() =~= list.take(n - 1));
        match list[n - 1] {
            XmlItem::Start(t) | XmlItem::Empty(t) => suffix_is_end(t.name, ":image"@),
            _ => {},
        }
        assert(image_reference(list[n - 1]) == reference(part.last()));
    }
    assert(image_references_in(list, n) =~= part.filter_map(reference));
}

} // verus!
