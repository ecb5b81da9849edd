//! The files of a fixed-layout comic: package document, table of contents, style sheet and pages.

use vstd::prelude::*;

use crate::comic::{title_of, ComicInfo, ComicMetadata, ComicOptions, DeviceProfile};
use crate::pattern::texts;
use crate::text::{
    begins_with, bytes_of, chars_of, decimal, decimal_value, decimals_differ, decimals_read_back,
    group_holds, holds, later_text_holds, opt_string, padded_decimal, push_decimal, push_padded, utf8,
};
use crate::xml::ends_with;

verus! {

/// What stands for a character in XML.
pub open spec fn escaped_char(c: char) -> Seq<char> {
    if c == '&' {
        "&amp;"@
    } else if c == '<' {
        "&lt;"@
    } else if c == '>' {
        "&gt;"@
    } else if c == '"' {
        "&quot;"@
    } else if c == '\'' {
        "&apos;"@
    } else {
        seq![c]
    }
}

/// A text with the special characters of XML written as entities.
pub open spec fn escaped(s: Seq<char>) -> Seq<char>
    decreases s.len(),
{
    if s.len() == 0 {
        seq![]
    } else {
        escaped(s.drop_last()) + escaped_char(s.last())
    }
}

fn push_escaped(out: &mut String, s: &str)
    ensures
        final(out)@ == old(out)@ + escaped(s@),
{
    let chars = chars_of(s);
    let mut i: usize = 0;
    assert(out@ =~= old(out)@ + escaped(chars@.take(0)));
    while i < chars.len()
        invariant
            chars@ == s@,
            i <= chars@.len(),
            out@ == old(out)@ + escaped(chars@.take(i as int)),
        decreases chars.len() - i,
    {
        let c: char = chars[i];
        let ghost before = out@;
        if c == '&' {
            out.append("&amp;");
        } else if c == '<' {
            out.append("&lt;");
        } else if c == '>' {
            out.append("&gt;");
        } else if c == '"' {
            out.append("&quot;");
        } else if c == '\'' {
            out.append("&apos;");
        } else {
            out.push(c);
            assert(out@ =~= before + seq![c]);
        }
        i += 1;
        proof {
            assert(chars@.take(i as int).drop_last() =~= chars@.take(i - 1));
            assert(out@ == before + escaped_char(c));
            assert(out@ =~= old(out)@ + escaped(chars@.take(i as int)));
        }
    }
    assert(chars@.take(i as int) =~= chars@);
}

/// The text with the special characters of XML written as entities.
pub fn escape_xml(s: &str) -> (r: String)
    ensures
        r@ == escaped(s@),
{
    let mut r = String::new();
    push_escaped(&mut r, s);
    assert(r@ =~= escaped(s@));
    r
}

/// The number of a page in file names.
pub open spec fn page_number(i: nat) -> Seq<char> {
    padded_decimal(i, 4)
}

/// The manifest items of a page and its image.
pub open spec fn manifest_item(i: nat) -> Seq<char> {
    "    <item id=\"page"@ + page_number(i) + "\" href=\"page_"@ + page_number(i)
        + ".xhtml\" media-type=\"application/xhtml+xml\"/>\n    <item id=\"img"@ + page_number(i)
        + "\" href=\"images/page_"@ + page_number(i) + ".jpg\" media-type=\"image/jpeg\"/>\n"@
}

/// The manifest items of the first `n` pages.
pub open spec fn manifest(n: nat) -> Seq<char>
    decreases n,
{
    if n == 0 {
        seq![]
    } else {
        manifest((n - 1) as nat) + manifest_item((n - 1) as nat)
    }
}

/// The spine of the first `n` pages.
pub open spec fn spine(n: nat) -> Seq<char>
    decreases n,
{
    if n == 0 {
        seq![]
    } else {
        spine((n - 1) as nat) + ("    <itemref idref=\"page"@ + page_number((n - 1) as nat)
            + "\"/>\n"@)
    }
}

/// The lines that name the creators.
pub open spec fn creator_lines(names: Seq<Seq<char>>) -> Seq<char>
    decreases names.len(),
{
    if names.len() == 0 {
        seq![]
    } else {
        creator_lines(names.drop_last()) + ("    <dc:creator>"@ + escaped(names.last())
            + "</dc:creator>\n"@)
    }
}

/// A line with a text between two others, where there is one.
pub open spec fn optional_line(before: Seq<char>, text: Option<Seq<char>>, after: Seq<char>) -> Seq<
    char,
> {
    match text {
        Some(t) => before + escaped(t) + after,
        None => seq![],
    }
}

/// The lines of the package document that come from the metadata.
pub open spec fn info_lines(info: ComicInfo) -> Seq<char> {
    creator_lines(info.writers + info.pencillers + info.inkers) + optional_line(
        "    <dc:description>"@,
        info.summary,
        "</dc:description>\n"@,
    ) + optional_line("    <dc:subject>"@, info.genre, "</dc:subject>\n"@) + optional_line(
        "    <meta name=\"calibre:series\" content=\""@,
        info.series,
        "\"/>\n"@,
    ) + optional_line(
        "    <meta name=\"calibre:series_index\" content=\""@,
        info.number,
        "\"/>\n"@,
    )
}

/// The metadata, where there is some.
pub open spec fn info_view(meta: Option<&ComicMetadata>) -> Option<ComicInfo> {
    match meta {
        Some(m) => Some(m@),
        None => None,
    }
}

/// The title of a comic: the one that was asked for, else the one of the metadata, else "Comic".
pub open spec fn comic_title(info: Option<ComicInfo>, asked: Option<Seq<char>>) -> Seq<char> {
    match asked {
        Some(t) => t,
        None => match info {
            Some(i) => match title_of(i) {
                Some(t) => t,
                None => "Comic"@,
            },
            None => "Comic"@,
        },
    }
}

/// The language of a comic: the one that was asked for, else English.
pub open spec fn comic_language(asked: Option<Seq<char>>) -> Seq<char> {
    match asked {
        Some(l) => l,
        None => "en"@,
    }
}

/// A text where a condition holds.
pub open spec fn text_if(cond: bool, text: Seq<char>) -> Seq<char> {
    if cond {
        text
    } else {
        seq![]
    }
}

/// The package document of a comic.
pub open spec fn package(
    pages: nat,
    width: nat,
    height: nat,
    rtl: bool,
    info: Option<ComicInfo>,
    title: Option<Seq<char>>,
    language: Option<Seq<char>>,
    panels: bool,
    time: nat,
) -> Seq<char> {
    "<?xml version=\"1.0\" encoding=\"UTF-8\"?>\n<package version=\"3.0\" xmlns=\"http://www.idpf.org/2007/opf\" unique-identifier=\"uid\">\n  <metadata xmlns:dc=\"http://purl.org/dc/elements/1.1/\">\n    <dc:title>"@
        + escaped(comic_title(info, title)) + "</dc:title>\n    <dc:language>"@ + escaped(
        comic_language(language),
    ) + "</dc:language>\n    <dc:identifier id=\"uid\">kindling-comic-"@ + decimal(time)
        + "</dc:identifier>\n"@ + (match info {
        Some(i) => info_lines(i),
        None => seq![],
    }) + "    <meta name=\"fixed-layout\" content=\"true\"/>\n    <meta name=\"original-resolution\" content=\""@
        + decimal(width) + "x"@ + decimal(height)
        + "\"/>\n    <meta property=\"rendition:layout\">pre-paginated</meta>\n    <meta property=\"rendition:orientation\">auto</meta>\n"@
        + text_if(rtl, "    <meta name=\"writing-mode\" content=\"horizontal-rl\"/>\n"@) + text_if(
        panels,
        "    <meta name=\"book-type\" content=\"comic\"/>\n    <meta name=\"region-mag\" content=\"true\"/>\n"@,
    ) + text_if(pages > 0, "  <meta name=\"cover\" content=\"img0000\"/>\n"@)
        + "  </metadata>\n  <manifest>\n    <item id=\"ncx\" href=\"toc.ncx\" media-type=\"application/x-dtbncx+xml\"/>\n    <item id=\"css\" href=\"comic.css\" media-type=\"text/css\"/>\n"@
        + manifest(pages) + "  </manifest>\n  <spine toc=\"ncx\" page-progression-direction=\""@
        + (if rtl {
        "rtl"@
    } else {
        "ltr"@
    }) + "\">\n"@ + spine(pages) + "  </spine>\n</package>\n"@
}

fn push_optional(out: &mut String, before: &str, text: &Option<String>, after: &str)
    ensures
        final(out)@ == old(out)@ + optional_line(before@, opt_string(*text), after@),
{
    match text {
        Some(t) => {
            out.append(before);
            push_escaped(out, t.as_str());
            out.append(after);
            assert(out@ =~= old(out)@ + optional_line(before@, opt_string(*text), after@));
        },
        None => {
            assert(out@ =~= old(out)@ + seq![]);
        },
    }
}

fn push_info(out: &mut String, meta: &ComicMetadata)
    ensures
        final(out)@ == old(out)@ + info_lines(meta@),
{
    let creators = meta.creators();
    let mut i: usize = 0;
    let ghost all = texts(creators@);
    assert(out@ =~= old(out)@ + creator_lines(all.take(0)));
    while i < creators.len()
        invariant
            i <= creators@.len(),
            all == texts(creators@),
            out@ == old(out)@ + creator_lines(all.take(i as int)),
        decreases creators.len() - i,
    {
        out.append("    <dc:creator>");
        push_escaped(out, creators[i].as_str());
        out.append("</dc:creator>\n");
        i += 1;
        proof {
            assert(all.take(i as int).drop_last() =~= all.take(i - 1));
            assert(out@ =~= old(out)@ + creator_lines(all.take(i as int)));
        }
    }
    assert(all.take(i as int) =~= all);
    push_optional(out, "    <dc:description>", &meta.summary, "</dc:description>\n");
    push_optional(out, "    <dc:subject>", &meta.genre, "</dc:subject>\n");
    push_optional(out, "    <meta name=\"calibre:series\" content=\"", &meta.series, "\"/>\n");
    push_optional(
        out,
        "    <meta name=\"calibre:series_index\" content=\"",
        &meta.number,
        "\"/>\n",
    );
    assert(out@ =~= old(out)@ + info_lines(meta@));
}

#[verifier::rlimit(40)]
fn push_manifest(out: &mut String, pages: usize)
    ensures
        final(out)@ == old(out)@ + manifest(pages as nat),
{
    let mut i: usize = 0;
    assert(out@ =~= old(out)@ + manifest(0));
    while i < pages
        invariant
            i <= pages,
            out@ == old(out)@ + manifest(i as nat),
        decreases pages - i,
    {
        out.append("    <item id=\"page");
        push_padded(out, i as u128, 4);
        out.append("\" href=\"page_");
        push_padded(out, i as u128, 4);
        out.append(".xhtml\" media-type=\"application/xhtml+xml\"/>\n    <item id=\"img");
        push_padded(out, i as u128, 4);
        out.append("\" href=\"images/page_");
        push_padded(out, i as u128, 4);
        out.append(".jpg\" media-type=\"image/jpeg\"/>\n");
        i += 1;
        assert(out@ =~= old(out)@ + manifest(i as nat));
    }
}

fn push_spine(out: &mut String, pages: usize)
    ensures
        final(out)@ == old(out)@ + spine(pages as nat),
{
    let mut i: usize = 0;
    assert(out@ =~= old(out)@ + spine(0));
    while i < pages
        invariant
            i <= pages,
            out@ == old(out)@ + spine(i as nat),
        decreases pages - i,
    {
        out.append("    <itemref idref=\"page");
        push_padded(out, i as u128, 4);
        out.append("\"/>\n");
        i += 1;
        assert(out@ =~= old(out)@ + spine(i as nat));
    }
}

/// The title of a comic.
pub fn title_for(meta: Option<&ComicMetadata>, asked: &Option<String>) -> (r: String)
    ensures
        r@ == comic_title(info_view(meta), opt_string(*asked)),
{
    match asked {
        Some(t) => t.clone(),
        None => match meta {
            Some(m) => match m.effective_title() {
                Some(t) => t,
                None => "Comic".to_owned(),
            },
            None => "Comic".to_owned(),
        },
    }
}

/// The package document of a comic with this many pages, made at this time in seconds.
pub fn build_comic_opf_v2(
    num_pages: usize,
    profile: &DeviceProfile,
    rtl: bool,
    metadata: Option<&ComicMetadata>,
    options: &ComicOptions,
    panel_view: bool,
    timestamp: u64,
) -> (r: String)
    ensures
        r@ == package(
            num_pages as nat,
            profile.width as nat,
            profile.height as nat,
            rtl,
            info_view(metadata),
            opt_string(options.title_override),
            opt_string(options.language),
            panel_view,
            timestamp as nat,
        ),
{
    let mut r = String::new();
    r.append("<?xml version=\"1.0\" encoding=\"UTF-8\"?>\n<package version=\"3.0\" xmlns=\"http://www.idpf.org/2007/opf\" unique-identifier=\"uid\">\n  <metadata xmlns:dc=\"http://purl.org/dc/elements/1.1/\">\n    <dc:title>");
    let title = title_for(metadata, &options.title_override);
    push_escaped(&mut r, title.as_str());
    r.append("</dc:title>\n    <dc:language>");
    match &options.language {
        Some(l) => push_escaped(&mut r, l.as_str()),
        None => push_escaped(&mut r, "en"),
    }
    r.append("</dc:language>\n    <dc:identifier id=\"uid\">kindling-comic-");
    push_decimal(&mut r, timestamp as u128);
    r.append("</dc:identifier>\n");
    if let Some(m) = metadata {
        push_info(&mut r, m);
    }
    r.append("    <meta name=\"fixed-layout\" content=\"true\"/>\n    <meta name=\"original-resolution\" content=\"");
    push_decimal(&mut r, profile.width as u128);
    r.append("x");
    push_decimal(&mut r, profile.height as u128);
    r.append("\"/>\n    <meta property=\"rendition:layout\">pre-paginated</meta>\n    <meta property=\"rendition:orientation\">auto</meta>\n");
    if rtl {
        r.append("    <meta name=\"writing-mode\" content=\"horizontal-rl\"/>\n");
    }
    if panel_view {
        r.append("    <meta name=\"book-type\" content=\"comic\"/>\n    <meta name=\"region-mag\" content=\"true\"/>\n");
    }
    if num_pages > 0 {
        r.append("  <meta name=\"cover\" content=\"img0000\"/>\n");
    }
    r.append("  </metadata>\n  <manifest>\n    <item id=\"ncx\" href=\"toc.ncx\" media-type=\"application/x-dtbncx+xml\"/>\n    <item id=\"css\" href=\"comic.css\" media-type=\"text/css\"/>\n");
    push_manifest(&mut r, num_pages);
    r.append("  </manifest>\n  <spine toc=\"ncx\" page-progression-direction=\"");
    if rtl {
        r.append("rtl");
    } else {
        r.append("ltr");
    }
    r.append("\">\n");
    push_spine(&mut r, num_pages);
    r.append("  </spine>\n</package>\n");
    assert(r@ =~= package(
        num_pages as nat,
        profile.width as nat,
        profile.height as nat,
        rtl,
        info_view(metadata),
        opt_string(options.title_override),
        opt_string(options.language),
        panel_view,
        timestamp as nat,
    ));
    r
}

/// The entry of a page in the table of contents.
pub open spec fn nav_point(i: nat) -> Seq<char> {
    "    <navPoint id=\"page"@ + page_number(i) + "\" playOrder=\""@ + decimal(i + 1)
        + "\">\n      <navLabel><text>Page "@ + decimal(i + 1)
        + "</text></navLabel>\n      <content src=\"page_"@ + page_number(i)
        + ".xhtml\"/>\n    </navPoint>\n"@
}

/// The entries of the first `n` pages.
pub open spec fn nav_points(n: nat) -> Seq<char>
    decreases n,
{
    if n == 0 {
        seq![]
    } else {
        nav_points((n - 1) as nat) + nav_point((n - 1) as nat)
    }
}

/// The table of contents of a comic.
pub open spec fn contents_table(pages: nat) -> Seq<char> {
    "<?xml version=\"1.0\" encoding=\"UTF-8\"?>\n<ncx xmlns=\"http://www.daisy.org/z3986/2005/ncx/\" version=\"2005-1\">\n  <head>\n    <meta name=\"dtb:uid\" content=\"kindling-comic\"/>\n    <meta name=\"dtb:depth\" content=\"1\"/>\n    <meta name=\"dtb:totalPageCount\" content=\""@
        + decimal(pages) + "\"/>\n    <meta name=\"dtb:maxPageNumber\" content=\""@ + decimal(pages)
        + "\"/>\n  </head>\n  <docTitle><text>Comic</text></docTitle>\n  <navMap>\n"@ + nav_points(
        pages,
    ) + "  </navMap>\n</ncx>\n"@
}

/// The table of contents of a comic with this many pages.
pub fn build_comic_ncx(num_pages: usize) -> (r: String)
    ensures
        r@ == contents_table(num_pages as nat),
{
    let mut r = String::new();
    r.append("<?xml version=\"1.0\" encoding=\"UTF-8\"?>\n<ncx xmlns=\"http://www.daisy.org/z3986/2005/ncx/\" version=\"2005-1\">\n  <head>\n    <meta name=\"dtb:uid\" content=\"kindling-comic\"/>\n    <meta name=\"dtb:depth\" content=\"1\"/>\n    <meta name=\"dtb:totalPageCount\" content=\"");
    push_decimal(&mut r, num_pages as u128);
    r.append("\"/>\n    <meta name=\"dtb:maxPageNumber\" content=\"");
    push_decimal(&mut r, num_pages as u128);
    r.append("\"/>\n  </head>\n  <docTitle><text>Comic</text></docTitle>\n  <navMap>\n");
    let mut i: usize = 0;
    let ghost before = r@;
    assert(r@ =~= before + nav_points(0));
    while i < num_pages
        invariant
            i <= num_pages,
            r@ == before + nav_points(i as nat),
        decreases num_pages - i,
    {
        r.append("    <navPoint id=\"page");
        push_padded(&mut r, i as u128, 4);
        r.append("\" playOrder=\"");
        push_decimal(&mut r, i as u128 + 1);
        r.append("\">\n      <navLabel><text>Page ");
        push_decimal(&mut r, i as u128 + 1);
        r.append("</text></navLabel>\n      <content src=\"page_");
        push_padded(&mut r, i as u128, 4);
        r.append(".xhtml\"/>\n    </navPoint>\n");
        i += 1;
        assert(r@ =~= before + nav_points(i as nat));
    }
    r.append("  </navMap>\n</ncx>\n");
    assert(r@ =~= contents_table(num_pages as nat));
    r
}

/// The style sheet of a comic.
pub open spec fn style_sheet(panels: bool) -> Seq<char> {
    "html, body {\n  margin: 0;\n  padding: 0;\n  width: 100%;\n  height: 100%;\n}\n#content {\n  width: 100%;\n  height: 100%;\n  text-align: center;\n}\n#content img {\n  width: 100%;\n  height: 100%;\n  object-fit: contain;\n}\n"@
        + text_if(
        panels,
        "#panels {\n  position: absolute;\n  top: 0;\n  left: 0;\n  width: 100%;\n  height: 100%;\n}\n.panel {\n  position: absolute;\n}\n"@,
    )
}

/// The style sheet of a comic, with styles for panels where it has some.
pub fn build_comic_css(panel_view: bool) -> (r: String)
    ensures
        r@ == style_sheet(panel_view),
{
    let mut r = String::new();
    r.append("html, body {\n  margin: 0;\n  padding: 0;\n  width: 100%;\n  height: 100%;\n}\n#content {\n  width: 100%;\n  height: 100%;\n  text-align: center;\n}\n#content img {\n  width: 100%;\n  height: 100%;\n  object-fit: contain;\n}\n");
    if panel_view {
        r.append("#panels {\n  position: absolute;\n  top: 0;\n  left: 0;\n  width: 100%;\n  height: 100%;\n}\n.panel {\n  position: absolute;\n}\n");
    }
    assert(r@ =~= style_sheet(panel_view));
    r
}

/// Where a panel stands on its page: percentages of the page, written as decimal numbers.
#[derive(Debug)]
pub struct PanelStyle {
    pub left: String,
    pub top: String,
    pub width: String,
    pub height: String,
}

/// The element of a panel.
pub open spec fn panel_element(p: PanelStyle) -> Seq<char> {
    "    <div class=\"panel\" style=\"position:absolute;left:"@ + p.left@ + "%;top:"@ + p.top@
        + "%;width:"@ + p.width@ + "%;height:"@ + p.height@ + "%\"></div>\n"@
}

/// The elements of panels.
pub open spec fn panel_elements(panels: Seq<PanelStyle>) -> Seq<char>
    decreases panels.len(),
{
    if panels.len() == 0 {
        seq![]
    } else {
        panel_elements(panels.drop_last()) + panel_element(panels.last())
    }
}

/// The document of a page.
pub open spec fn page_document(i: nat, width: nat, height: nat, panels: Seq<PanelStyle>) -> Seq<char> {
    "<?xml version=\"1.0\" encoding=\"UTF-8\"?>\n<!DOCTYPE html>\n<html xmlns=\"http://www.w3.org/1999/xhtml\">\n<head>\n  <meta charset=\"UTF-8\"/>\n  <meta name=\"viewport\" content=\"width="@
        + decimal(width) + ", height="@ + decimal(height)
        + "\"/>\n  <link rel=\"stylesheet\" type=\"text/css\" href=\"comic.css\"/>\n  <title>Page "@
        + decimal(i + 1)
        + "</title>\n</head>\n<body>\n  <div id=\"content\">\n    <img src=\"images/page_"@
        + page_number(i) + ".jpg\" alt=\"Page "@ + decimal(i + 1)
        + "\" style=\"width:100%;height:100%\"/>\n  </div>\n"@ + (if panels.len() == 0 {
        seq![]
    } else {
        "  <div id=\"panels\">\n"@ + panel_elements(panels) + "  </div>\n"@
    }) + "</body>\n</html>\n"@
}

fn push_panels(out: &mut String, panels: &[PanelStyle])
    ensures
        final(out)@ == old(out)@ + panel_elements(panels@),
{
    let mut i: usize = 0;
    assert(out@ =~= old(out)@ + panel_elements(panels@.take(0)));
    while i < panels.len()
        invariant
            i <= panels@.len(),
            out@ == old(out)@ + panel_elements(panels@.take(i as int)),
        decreases panels.len() - i,
    {
        out.append("    <div class=\"panel\" style=\"position:absolute;left:");
        out.append(panels[i].left.as_str());
        out.append("%;top:");
        out.append(panels[i].top.as_str());
        out.append("%;width:");
        out.append(panels[i].width.as_str());
        out.append("%;height:");
        out.append(panels[i].height.as_str());
        out.append("%\"></div>\n");
        i += 1;
        proof {
            assert(panels@.take(i as int).drop_last() =~= panels@.take(i - 1));
            assert(out@ =~= old(out)@ + panel_elements(panels@.take(i as int)));
        }
    }
    assert(panels@.take(i as int) =~= panels@);
}

/// The document of a page, with its panels.
pub fn build_page_xhtml(page_index: usize, profile: &DeviceProfile, panels: &[PanelStyle]) -> (r: String)
    ensures
        r@ == page_document(
            page_index as nat,
            profile.width as nat,
            profile.height as nat,
            panels@,
        ),
{
    let mut r = String::new();
    r.append("<?xml version=\"1.0\" encoding=\"UTF-8\"?>\n<!DOCTYPE html>\n<html xmlns=\"http://www.w3.org/1999/xhtml\">\n<head>\n  <meta charset=\"UTF-8\"/>\n  <meta name=\"viewport\" content=\"width=");
    push_decimal(&mut r, profile.width as u128);
    r.append(", height=");
    push_decimal(&mut r, profile.height as u128);
    r.append("\"/>\n  <link rel=\"stylesheet\" type=\"text/css\" href=\"comic.css\"/>\n  <title>Page ");
    push_decimal(&mut r, page_index as u128 + 1);
    r.append("</title>\n</head>\n<body>\n  <div id=\"content\">\n    <img src=\"images/page_");
    push_padded(&mut r, page_index as u128, 4);
    r.append(".jpg\" alt=\"Page ");
    push_decimal(&mut r, page_index as u128 + 1);
    r.append("\" style=\"width:100%;height:100%\"/>\n  </div>\n");
    if panels.len() > 0 {
        r.append("  <div id=\"panels\">\n");
        push_panels(&mut r, panels);
        r.append("  </div>\n");
    }
    r.append("</body>\n</html>\n");
    assert(r@ =~= page_document(
        page_index as nat,
        profile.width as nat,
        profile.height as nat,
        panels@,
    ));
    r
}

/// A page of a comic: its image, and its panels as far as some were found.
#[derive(Debug)]
pub struct ComicPage {
    pub jpeg: Vec<u8>,
    pub panels: Vec<PanelStyle>,
}

/// A file of a book.
#[derive(Debug)]
pub struct BookFile {
    pub name: String,
    pub data: Vec<u8>,
}

/// The names and contents of files.
pub open spec fn file_views(files: Seq<BookFile>) -> Seq<(Seq<char>, Seq<u8>)> {
    Seq::new(files.len(), |i: int| (files[i].name@, files[i].data@))
}

/// The image and the document of each page, for the first `n` pages.
pub open spec fn page_files(pages: Seq<ComicPage>, n: int, profile: DeviceProfile) -> Seq<
    (Seq<char>, Seq<u8>),
>
    decreases n,
{
    if n <= 0 {
        seq![]
    } else {
        let i = (n - 1) as nat;
        page_files(pages, n - 1, profile).push(
            ("images/page_"@ + page_number(i) + ".jpg"@, pages[n - 1].jpeg@),
        ).push(
            (
                "page_"@ + page_number(i) + ".xhtml"@,
                utf8(
                    page_document(
                        i,
                        profile.width as nat,
                        profile.height as nat,
                        pages[n - 1].panels@,
                    ),
                ),
            ),
        )
    }
}

/// Whether some page has panels.
pub open spec fn has_panels(pages: Seq<ComicPage>) -> bool {
    exists|i: int| 0 <= i < pages.len() && (#[trigger] pages[i]).panels@.len() > 0
}

/// Whether some page has panels.
pub fn any_panels(pages: &[ComicPage]) -> (r: bool)
    ensures
        r == has_panels(pages@),
{
    let mut i: usize = 0;
    while i < pages.len()
        invariant
            i <= pages@.len(),
            forall|k: int| 0 <= k < i ==> (#[trigger] pages@[k]).panels@.len() == 0,
        decreases pages.len() - i,
    {
        if pages[i].panels.len() > 0 {
            assert(pages@[i as int].panels@.len() > 0);
            return true;
        }
        i += 1;
    }
    false
}

fn page_file_name(before: &str, i: usize, after: &str) -> (r: String)
    ensures
        r@ == before@ + page_number(i as nat) + after@,
{
    let mut r = String::new();
    r.append(before);
    push_padded(&mut r, i as u128, 4);
    r.append(after);
    assert(r@ =~= before@ + page_number(i as nat) + after@);
    r
}

/// The files of a comic: an image and a document for each page, the style sheet, the package
/// document and the table of contents.
pub fn build_fixed_layout(
    pages: &[ComicPage],
    profile: &DeviceProfile,
    rtl: bool,
    metadata: Option<&ComicMetadata>,
    options: &ComicOptions,
    timestamp: u64,
) -> (r: Vec<BookFile>)
    ensures
        ({
            let panels = options.panel_view && has_panels(pages@);
            file_views(r@) == page_files(pages@, pages@.len() as int, *profile).push(
                ("comic.css"@, utf8(style_sheet(panels))),
            ).push(
                (
                    "content.opf"@,
                    utf8(
                        package(
                            pages@.len(),
                            profile.width as nat,
                            profile.height as nat,
                            rtl,
                            info_view(metadata),
                            opt_string(options.title_override),
                            opt_string(options.language),
                            panels,
                            timestamp as nat,
                        ),
                    ),
                ),
            ).push(("toc.ncx"@, utf8(contents_table(pages@.len()))))
        }),
{
    let mut r: Vec<BookFile> = Vec::new();
    let mut i: usize = 0;
    assert(file_views(r@) =~= page_files(pages@, 0, *profile));
    while i < pages.len()
        invariant
            i <= pages@.len(),
            file_views(r@) == page_files(pages@, i as int, *profile),
        decreases pages.len() - i,
    {
        let ghost before = file_views(r@);
        let mut jpeg: Vec<u8> = Vec::new();
        jpeg.extend_from_slice(&pages[i].jpeg);
        assert(jpeg@ =~= pages@[i as int].jpeg@);
        r.push(BookFile { name: page_file_name("images/page_", i, ".jpg"), data: jpeg });
        let ghost middle = file_views(r@);
        assert(middle =~= before.push((r@.last().name@, r@.last().data@)));
        let document = build_page_xhtml(i, profile, &pages[i].panels);
        r.push(
            BookFile {
                name: page_file_name("page_", i, ".xhtml"),
                data: bytes_of(document.as_str()),
            },
        );
        assert(file_views(r@) =~= middle.push((r@.last().name@, r@.last().data@)));
        i += 1;
    }
    let panels = options.panel_view && any_panels(pages);
    let css = build_comic_css(panels);
    let opf = build_comic_opf_v2(pages.len(), profile, rtl, metadata, options, panels, timestamp);
    let ncx = build_comic_ncx(pages.len());
    let ghost before = file_views(r@);
    r.push(BookFile { name: "comic.css".to_owned(), data: bytes_of(css.as_str()) });
    r.push(BookFile { name: "content.opf".to_owned(), data: bytes_of(opf.as_str()) });
    r.push(BookFile { name: "toc.ncx".to_owned(), data: bytes_of(ncx.as_str()) });
    proof {
        let n = r@.len();
        assert(file_views(r@) =~= before.push((r@[n - 3].name@, r@[n - 3].data@)).push(
            (r@[n - 2].name@, r@[n - 2].data@),
        ).push((r@[n - 1].name@, r@[n - 1].data@)));
    }
    r
}

/// A character that XML takes for markup, in text or in an attribute.
pub open spec fn is_special(c: char) -> bool {
    c == '<' || c == '>' || c == '"' || c == '\''
}

/// An escaped text holds no character that XML takes for markup, but for the ampersands of its
/// entities.
pub proof fn escaped_text_is_plain(s: Seq<char>, i: int)
    requires
        0 <= i < escaped(s).len(),
    ensures
        !is_special(escaped(s)[i]),
    decreases s.len(),
{
    reveal_strlit("&amp;");
    reveal_strlit("&lt;");
    reveal_strlit("&gt;");
    reveal_strlit("&quot;");
    reveal_strlit("&apos;");
    let before = escaped(s.drop_last());
    if i < before.len() {
        escaped_text_is_plain(s.drop_last(), i);
    } else {
        assert(escaped(s)[i] == escaped_char(s.last())[i - before.len()]);
    }
}

/// Escaping goes character by character, and leaves all but the five special ones as they are.
pub proof fn escaping_keeps_plain_text(a: Seq<char>, b: Seq<char>)
    ensures
        escaped(a + b) == escaped(a) + escaped(b),
        (forall|i: int| 0 <= i < b.len() ==> !"&<>\"'"@.contains(#[trigger] b[i])) ==> escaped(b) == b,
    decreases b.len(),
{
    reveal_strlit("&<>\"'");
    if b.len() == 0 {
        assert(a + b =~= a);
        assert(escaped(a) + escaped(b) =~= escaped(a));
        assert(escaped(b) =~= b);
    } else {
        let rest = b.drop_last();
        escaping_keeps_plain_text(a, rest);
        assert((a + b).drop_last() =~= a + rest);
        assert(escaped(a + b) =~= escaped(a) + escaped(b));
        if forall|i: int| 0 <= i < b.len() ==> !"&<>\"'"@.contains(#[trigger] b[i]) {
            assert forall|i: int| 0 <= i < rest.len() implies !"&<>\"'"@.contains(
                #[trigger] rest[i],
            ) by {
                assert(rest[i] == b[i]);
            }
            let special = "&<>\"'"@;
            let c = b[b.len() - 1];
            assert(!special.contains(c));
            assert(special[0] == '&' && special[1] == '<' && special[2] == '>' && special[3] == '"'
                && special[4] == '\'');
            assert(escaped(b) =~= b);
        }
    }
}

/// The special characters are written as the entities of XML.
pub proof fn special_characters_have_entities()
    ensures
        escaped(seq!['&']) == "&amp;"@,
        escaped(seq!['<']) == "&lt;"@,
        escaped(seq!['>']) == "&gt;"@,
        escaped(seq!['"']) == "&quot;"@,
        escaped(seq!['\'']) == "&apos;"@,
{
    reveal_with_fuel(escaped, 2);
    let none: Seq<char> = seq![];
    assert(seq!['&'].drop_last() =~= none);
    assert(seq!['<'].drop_last() =~= none);
    assert(seq!['>'].drop_last() =~= none);
    assert(seq!['"'].drop_last() =~= none);
    assert(seq!['\''].drop_last() =~= none);
    assert(none + "&amp;"@ =~= "&amp;"@);
    assert(none + "&lt;"@ =~= "&lt;"@);
    assert(none + "&gt;"@ =~= "&gt;"@);
    assert(none + "&quot;"@ =~= "&quot;"@);
    assert(none + "&apos;"@ =~= "&apos;"@);
}

/// Pages with different numbers have files with different names.
pub proof fn page_numbers_differ(i: nat, j: nat)
    requires
        page_number(i) == page_number(j),
    ensures
        i == j,
{
    decimals_differ(i, j, 4);
}

/// Each page of a comic has its image and its document, in the order of the pages; both are named by
/// its number, counted from zero, and the document shows the image.
pub proof fn pages_have_their_files(pages: Seq<ComicPage>, n: int, profile: DeviceProfile, i: int)
    requires
        0 <= i < n <= pages.len(),
    ensures
        ({
            let files = page_files(pages, n, profile);
            exists|digits: Seq<char>|
                {
                    &&& #[trigger] decimal_value(digits) == i
                    &&& digits.len() >= 4
                    &&& files.len() == 2 * n
                    &&& files[2 * i] == ("images/page_"@ + digits + ".jpg"@, pages[i].jpeg@)
                    &&& files[2 * i + 1].0 == "page_"@ + digits + ".xhtml"@
                    &&& exists|document: Seq<char>|
                        files[2 * i + 1].1 == #[trigger] utf8(document) && holds(
                            document,
                            "</title>\n</head>\n<body>\n  <div id=\"content\">\n    <img src=\"images/page_"@
                                + digits + ".jpg\" alt=\"Page "@,
                        )
                }
        }),
    decreases n,
{
    page_files_length(pages, n - 1, profile);
    page_files_length(pages, n, profile);
    let files = page_files(pages, n, profile);
    let digits = page_number(i as nat);
    decimals_read_back(i as nat, 4);
    if i < n - 1 {
        pages_have_their_files(pages, n - 1, profile, i);
        let before = page_files(pages, n - 1, profile);
        assert(files[2 * i] == before[2 * i]);
        assert(files[2 * i + 1] == before[2 * i + 1]);
        let d = choose|digits: Seq<char>|
            {
                &&& #[trigger] decimal_value(digits) == i
                &&& digits.len() >= 4
                &&& before.len() == 2 * (n - 1)
                &&& before[2 * i] == ("images/page_"@ + digits + ".jpg"@, pages[i].jpeg@)
                &&& before[2 * i + 1].0 == "page_"@ + digits + ".xhtml"@
                &&& exists|document: Seq<char>|
                    before[2 * i + 1].1 == #[trigger] utf8(document) && holds(
                        document,
                        "</title>\n</head>\n<body>\n  <div id=\"content\">\n    <img src=\"images/page_"@
                            + digits + ".jpg\" alt=\"Page "@,
                    )
            };
        assert(decimal_value(d) == i);
    } else {
        let document = page_document(
            i as nat,
            profile.width as nat,
            profile.height as nat,
            pages[i].panels@,
        );
        documents_show_their_image(
            i as nat,
            profile.width as nat,
            profile.height as nat,
            pages[i].panels@,
        );
        assert(decimal_value(digits) == i);
        assert(files[2 * i + 1].1 == utf8(document));
    }
}

proof fn page_files_length(pages: Seq<ComicPage>, n: int, profile: DeviceProfile)
    requires
        0 <= n,
    ensures
        page_files(pages, n, profile).len() == 2 * n,
    decreases n,
{
    if n > 0 {
        page_files_length(pages, n - 1, profile);
    }
}

/// The document of a page shows the image with its number, at the size of the screen, and has its
/// panels.
pub proof fn documents_show_their_image(i: nat, width: nat, height: nat, panels: Seq<PanelStyle>)
    ensures
        holds(
            page_document(i, width, height, panels),
            "</title>\n</head>\n<body>\n  <div id=\"content\">\n    <img src=\"images/page_"@
                + padded_decimal(i, 4) + ".jpg\" alt=\"Page "@,
        ),
        holds(
            page_document(i, width, height, panels),
            decimal(width) + ", height="@ + decimal(height),
        ),
        forall|k: int|
            0 <= k < panels.len() ==> holds(
                page_document(i, width, height, panels),
                panel_element(#[trigger] panels[k]),
            ),
{
    broadcast use group_holds;

    let d = page_document(i, width, height, panels);
    assert forall|k: int| 0 <= k < panels.len() implies holds(
        d,
        panel_element(#[trigger] panels[k]),
    ) by {
        panels_are_listed(panels, k);
        let list = panel_elements(panels);
        later_text_holds("  <div id=\"panels\">\n"@, list, panel_element(panels[k]));
        let shown = "  <div id=\"panels\">\n"@ + list + "  </div>\n"@;
        assert(holds(shown, panel_element(panels[k])));
        let front = "<?xml version=\"1.0\" encoding=\"UTF-8\"?>\n<!DOCTYPE html>\n<html xmlns=\"http://www.w3.org/1999/xhtml\">\n<head>\n  <meta charset=\"UTF-8\"/>\n  <meta name=\"viewport\" content=\"width="@
            + decimal(width) + ", height="@ + decimal(height)
            + "\"/>\n  <link rel=\"stylesheet\" type=\"text/css\" href=\"comic.css\"/>\n  <title>Page "@
            + decimal(i + 1)
            + "</title>\n</head>\n<body>\n  <div id=\"content\">\n    <img src=\"images/page_"@
            + page_number(i) + ".jpg\" alt=\"Page "@ + decimal(i + 1)
            + "\" style=\"width:100%;height:100%\"/>\n  </div>\n"@;
        later_text_holds(front, shown, panel_element(panels[k]));
        assert(d == front + shown + "</body>\n</html>\n"@);
    }
}

proof fn panels_are_listed(panels: Seq<PanelStyle>, k: int)
    requires
        0 <= k < panels.len(),
    ensures
        holds(panel_elements(panels), panel_element(panels[k])),
    decreases panels.len(),
{
    broadcast use group_holds;

    if k < panels.len() - 1 {
        panels_are_listed(panels.drop_last(), k);
    }
}

/// The element of a panel says where it stands, each number under its own name.
pub proof fn panels_say_where_they_stand(p: PanelStyle)
    ensures
        holds(
            panel_element(p),
            "    <div class=\"panel\" style=\"position:absolute;left:"@ + p.left@ + "%;top:"@ + p.top@
                + "%;width:"@ + p.width@ + "%;height:"@ + p.height@,
        ),
{
    reveal(holds);
    let none: Seq<char> = seq![];
    let e = panel_element(p);
    let part = "    <div class=\"panel\" style=\"position:absolute;left:"@ + p.left@ + "%;top:"@ + p.top@
        + "%;width:"@ + p.width@ + "%;height:"@ + p.height@;
    assert(none + part =~= part);
    assert(e == none + part + "%\"></div>\n"@);
}

/// The title of a comic is the one that was asked for; else it is made of what the metadata says, the
/// series first and the title last; else it is `Comic`.
pub proof fn titles_are_those_asked_for(info: Option<ComicInfo>, asked: Option<Seq<char>>)
    ensures
        asked is Some ==> Some(comic_title(info, asked)) == asked,
        asked is None && info is None ==> comic_title(info, asked) == "Comic"@,
        asked is None && info is Some && info->0.series is None && info->0.title is None
            ==> comic_title(info, asked) == "Comic"@,
        asked is None && info is Some && info->0.series is None && info->0.title is Some ==> Some(
            comic_title(info, asked),
        ) == info->0.title,
        asked is None && info is Some && info->0.series is Some ==> {
            let s = info->0.series->0;
            let t = comic_title(info, asked);
            &&& begins_with(t, s)
            &&& info->0.title is Some ==> ends_with(t, " - "@ + info->0.title->0)
            &&& info->0.number is Some ==> begins_with(t, s + " #"@ + info->0.number->0)
            &&& info->0.number is None && info->0.title is None ==> t == s
        },
{
    let t = comic_title(info, asked);
    if asked is None && info is Some && info->0.series is Some {
        let s = info->0.series->0;
        assert(t.take(s.len() as int) =~= s);
        if info->0.title is Some {
            let e = " - "@ + info->0.title->0;
            assert(t.skip(t.len() - e.len()) =~= e);
        }
        if info->0.number is Some {
            let b = s + " #"@ + info->0.number->0;
            assert(t.take(b.len() as int) =~= b);
        }
    }
}

/// The pages of a comic are listed in its package document: each with its document and its image in the
/// manifest, and each in the spine, in their order.
pub proof fn packages_list_every_page(n: nat, i: nat)
    requires
        i < n,
    ensures
        holds(
            manifest(n),
            "    <item id=\"page"@ + padded_decimal(i, 4) + "\" href=\"page_"@ + padded_decimal(i, 4)
                + ".xhtml\" media-type=\"application/xhtml+xml\"/>\n    <item id=\"img"@
                + padded_decimal(i, 4) + "\" href=\"images/page_"@ + padded_decimal(i, 4)
                + ".jpg\" media-type=\"image/jpeg\"/>\n"@,
        ),
        holds(
            spine(n),
            spine(i) + ("    <itemref idref=\"page"@ + padded_decimal(i, 4) + "\"/>\n"@),
        ),
        holds(
            nav_points(n),
            nav_points(i) + ("    <navPoint id=\"page"@ + padded_decimal(i, 4) + "\" playOrder=\""@
                + decimal(i + 1) + "\">\n      <navLabel><text>Page "@ + decimal(i + 1)
                + "</text></navLabel>\n      <content src=\"page_"@ + padded_decimal(i, 4)
                + ".xhtml\"/>\n    </navPoint>\n"@),
        ),
    decreases n,
{
    broadcast use group_holds;

    if i < n - 1 {
        packages_list_every_page((n - 1) as nat, i);
    } else {
        text_holds_itself(spine(n));
        text_holds_itself(nav_points(n));
    }
}

proof fn text_holds_itself(s: Seq<char>)
    ensures
        holds(s, s),
{
    reveal(holds);
    let none: Seq<char> = seq![];
    assert(s =~= none + s + none);
}

/// The package document of a comic says its title and language, the direction in which its pages turn,
/// its resolution, and that its first image is its cover; it lists the manifest and the spine of all
/// pages.
pub proof fn packages_say_what_the_comic_is(
    pages: nat,
    width: nat,
    height: nat,
    rtl: bool,
    info: Option<ComicInfo>,
    title: Option<Seq<char>>,
    language: Option<Seq<char>>,
    panels: bool,
    time: nat,
)
    ensures
        ({
            let p = package(pages, width, height, rtl, info, title, language, panels, time);
            let turned = if rtl {
                "rtl"@
            } else {
                "ltr"@
            };
            &&& holds(p, escaped(comic_title(info, title)) + "</dc:title>\n    <dc:language>"@)
            &&& language is Some ==> holds(
                p,
                "</dc:title>\n    <dc:language>"@ + escaped(language->0),
            )
            &&& holds(p, decimal(width) + "x"@ + decimal(height))
            &&& pages > 0 ==> holds(p, "  <meta name=\"cover\" content=\"img0000\"/>\n"@)
            &&& rtl ==> holds(
                p,
                "    <meta name=\"writing-mode\" content=\"horizontal-rl\"/>\n"@,
            )
            &&& info is Some ==> holds(p, info_lines(info->0))
            &&& holds(
                p,
                manifest(pages) + "  </manifest>\n  <spine toc=\"ncx\" page-progression-direction=\""@
                    + turned + "\">\n"@ + spine(pages) + "  </spine>\n</package>\n"@,
            )
        }),
{
    broadcast use group_holds;

    let p = package(pages, width, height, rtl, info, title, language, panels, time);
}

/// What the metadata says of a comic stands in its package document: every creator, and the summary, the
/// genre, the series and the number where they are given, each in its own element.
pub proof fn packages_say_what_the_metadata_says(info: ComicInfo, k: int)
    ensures
        ({
            let people = info.writers + info.pencillers + info.inkers;
            0 <= k < people.len() ==> holds(
                info_lines(info),
                "    <dc:creator>"@ + escaped(people[k]) + "</dc:creator>\n"@,
            )
        }),
        info.summary is Some ==> holds(
            info_lines(info),
            "    <dc:description>"@ + escaped(info.summary->0) + "</dc:description>\n"@,
        ),
        info.genre is Some ==> holds(
            info_lines(info),
            "    <dc:subject>"@ + escaped(info.genre->0) + "</dc:subject>\n"@,
        ),
        info.series is Some ==> holds(
            info_lines(info),
            "    <meta name=\"calibre:series\" content=\""@ + escaped(info.series->0) + "\"/>\n"@,
        ),
        info.number is Some ==> holds(
            info_lines(info),
            "    <meta name=\"calibre:series_index\" content=\""@ + escaped(info.number->0) + "\"/>\n"@,
        ),
{
    broadcast use group_holds;

    let people = info.writers + info.pencillers + info.inkers;
    if 0 <= k < people.len() {
        creators_are_listed(people, k);
    }
}

proof fn creators_are_listed(names: Seq<Seq<char>>, k: int)
    requires
        0 <= k < names.len(),
    ensures
        holds(creator_lines(names), "    <dc:creator>"@ + escaped(names[k]) + "</dc:creator>\n"@),
    decreases names.len(),
{
    broadcast use group_holds;

    if k < names.len() - 1 {
        creators_are_listed(names.drop_last(), k);
    }
}

/// The table of contents of a comic says how many pages there are and lists them all.
pub proof fn contents_list_every_page(n: nat)
    ensures
        holds(contents_table(n), nav_points(n)),
        holds(
            contents_table(n),
            decimal(n) + "\"/>\n    <meta name=\"dtb:maxPageNumber\" content=\""@ + decimal(n),
        ),
{
    broadcast use group_holds;

}

/// The style sheet of a comic with panels is that of one without, and rules for panels behind it.
pub proof fn panels_add_styles()
    ensures
        style_sheet(true) != style_sheet(false),
        style_sheet(true).take(style_sheet(false).len() as int) == style_sheet(false),
        holds(style_sheet(true), "#panels {\n  position: absolute;\n  top: 0;\n  left: 0;\n  width: 100%;\n  height: 100%;\n}\n.panel {\n  position: absolute;\n}\n"@),
{
    broadcast use group_holds;

    let rules = "#panels {\n  position: absolute;\n  top: 0;\n  left: 0;\n  width: 100%;\n  height: 100%;\n}\n.panel {\n  position: absolute;\n}\n"@;
    reveal_strlit("#panels {\n  position: absolute;\n  top: 0;\n  left: 0;\n  width: 100%;\n  height: 100%;\n}\n.panel {\n  position: absolute;\n}\n");
    assert(rules.len() > 0);
    assert(style_sheet(true).take(style_sheet(false).len() as int) =~= style_sheet(false));
    assert(style_sheet(true).len() == style_sheet(false).len() + rules.len());
}

} // verus!
