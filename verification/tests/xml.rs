use kindling::xml::{
    attribute_of, extract_image_refs_from_xhtml, find_rootfile, image_references_of,
    parse_container_xml, read_xml, text_ends_with, ContainerError, Tag, XmlEvent,
};

#[test]
fn test_extract_image_refs_img_tag() {
    let xhtml = r#"<?xml version="1.0" encoding="UTF-8"?>
<html xmlns="http://www.w3.org/1999/xhtml">
<body>
  <div><img src="page1.jpg"/></div>
</body>
</html>"#;
    let refs = extract_image_refs_from_xhtml(xhtml);
    assert_eq!(refs, vec!["page1.jpg"], "Should extract 'page1.jpg' from <img src=...>, got {:?}", refs);
}

#[test]
fn test_extract_image_refs_svg_image() {
    let xhtml = r#"<?xml version="1.0" encoding="UTF-8"?>
<html xmlns="http://www.w3.org/1999/xhtml" xmlns:svg="http://www.w3.org/2000/svg">
<body>
  <svg xmlns="http://www.w3.org/2000/svg" xmlns:xlink="http://www.w3.org/1999/xlink">
    <image xlink:href="page1.jpg" width="100%" height="100%"/>
  </svg>
</body>
</html>"#;
    let refs = extract_image_refs_from_xhtml(xhtml);
    assert_eq!(refs, vec!["page1.jpg"], "Should extract 'page1.jpg' from <image xlink:href=...>, got {:?}", refs);
}

#[test]
fn test_extract_image_refs_multiple() {
    let xhtml = r#"<?xml version="1.0" encoding="UTF-8"?>
<html xmlns="http://www.w3.org/1999/xhtml">
<body>
  <img src="cover.jpg"/>
  <img src="page1.png"/>
  <img src="page2.png"/>
</body>
</html>"#;
    let refs = extract_image_refs_from_xhtml(xhtml);
    assert_eq!(refs.len(), 3, "Should extract 3 image refs, got {}", refs.len());
    assert_eq!(refs[0], "cover.jpg");
    assert_eq!(refs[1], "page1.png");
    assert_eq!(refs[2], "page2.png");
}

#[test]
fn events_of_a_document() {
    let events = read_xml("<a x=\"1\">t&amp;u<b/><!-- c --></a>");
    assert_eq!(events.len(), 6);
    assert!(matches!(&events[0], XmlEvent::Start(t) if t.name == "a" && t.attributes == vec![("x".to_string(), "1".to_string())]));
    assert!(matches!(&events[1], XmlEvent::Text(t) if t == "t&u"));
    assert!(matches!(&events[2], XmlEvent::Empty(t) if t.name == "b"));
    assert!(matches!(events[3], XmlEvent::Other));
    assert!(matches!(events[4], XmlEvent::End));
    assert!(matches!(events[5], XmlEvent::Eof));
    let broken = read_xml("<a></b>");
    assert_eq!(broken.len(), 2);
    assert!(matches!(broken[1], XmlEvent::Malformed(_)));
}

#[test]
fn containers_name_the_package_document() {
    let xml = r#"<container><rootfiles><rootfile media-type="x" full-path="OEBPS/content.opf"/></rootfiles></container>"#;
    assert_eq!(parse_container_xml(xml).unwrap(), "OEBPS/content.opf");
    let prefixed = r#"<o:container><o:rootfile full-path="a.opf"></o:rootfile></o:container>"#;
    assert_eq!(parse_container_xml(prefixed).unwrap(), "a.opf");
    assert!(matches!(parse_container_xml("<container/>"), Err(ContainerError::NoRootfile)));
    assert!(matches!(parse_container_xml("<a></b>"), Err(ContainerError::Malformed(_))));
    let empty = parse_container_xml("<container/>").unwrap_err();
    assert_eq!(empty.message(), "No rootfile found in container.xml");
    let broken = ContainerError::Malformed("bad end".to_string());
    assert_eq!(broken.message(), "Error parsing container.xml: bad end");
}

#[test]
fn events_decide_alone() {
    let tag = |name: &str, key: &str, value: &str| Tag {
        name: name.to_string(),
        attributes: vec![("id".to_string(), "1".to_string()), (key.to_string(), value.to_string())],
    };
    assert_eq!(attribute_of(&tag("a", "k", "v"), "k").as_deref(), Some("v"));
    assert_eq!(attribute_of(&tag("a", "k", "v"), "z"), None);
    let events = vec![
        XmlEvent::Start(tag("img", "src", "one.png")),
        XmlEvent::Empty(tag("image", "xlink:href", "two.png")),
        XmlEvent::Empty(tag("rootfile", "full-path", "p.opf")),
        XmlEvent::Eof,
    ];
    assert_eq!(image_references_of(&events), vec!["one.png", "two.png"]);
    assert_eq!(find_rootfile(&events).unwrap(), "p.opf");
    assert!(text_ends_with("a.opf", ".opf"));
    assert!(!text_ends_with("opf", ".opf"));
}
