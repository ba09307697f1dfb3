use epub::book::{BookError, XmlDoc};
use epub::container::{find_opf_path, find_rootfile};
use epub::html::{extract_text, text_from_events, tidy_lines};
use epub::manifest::Manifest;
use epub::ncx::{parse_ncx, parse_ncx_events};
use epub::package::{parse_opf, parse_opf_events};
use epub::paths::{dir_of, resolve_path};
use epub::xml::{attr_value, read_events, tag_attributes, text_of, unescape, utf8_decode, XmlEvent};

const CONTAINER: &str = r#"<?xml version="1.0"?>
<container version="1.0" xmlns="urn:oasis:names:tc:opendocument:xmlns:container">
  <rootfiles>
    <rootfile full-path="OEBPS/content.opf" media-type="application/oebps-package+xml"/>
  </rootfiles>
</container>"#;

#[test]
fn container_names_the_package_document() {
    assert_eq!(find_opf_path(CONTAINER).ok(), Some("OEBPS/content.opf".to_string()));
}

#[test]
fn rootfile_without_full_path_is_passed_over() {
    let c = r#"<container><rootfile media-type="x"/><rootfile full-path="b.opf"/></container>"#;
    assert_eq!(find_opf_path(c).ok(), Some("b.opf".to_string()));
}

#[test]
fn container_without_rootfile_is_refused() {
    assert!(matches!(find_opf_path("<container><rootfiles/></container>"), Err(BookError::NoRootfile)));
}

#[test]
fn malformed_container_is_refused() {
    assert!(matches!(
        find_opf_path("<container><rootfiles></container>"),
        Err(BookError::Xml(XmlDoc::Container, _))
    ));
}

#[test]
fn bad_reference_in_full_path_is_refused() {
    assert!(matches!(
        find_opf_path(r#"<rootfile full-path="a&bogus;.opf"/>"#),
        Err(BookError::Attribute(_))
    ));
    assert_eq!(find_opf_path(r#"<rootfile full-path="a&amp;b.opf"/>"#).ok(), Some("a&b.opf".to_string()));
}

const OPF: &str = r#"<?xml version="1.0" encoding="UTF-8"?>
<package xmlns="http://www.idpf.org/2007/opf" version="2.0">
  <metadata xmlns:dc="http://purl.org/dc/elements/1.1/">
    <dc:title>  The Book  </dc:title>
    <dc:creator>Ann Author</dc:creator>
    <dc:publisher>Pub &amp; Co</dc:publisher>
    <dc:language>en</dc:language>
  </metadata>
  <manifest>
    <item id="ncx" href="toc.ncx" media-type="application/x-dtbncx+xml"/>
    <item id="c1" href="ch1.xhtml" media-type="application/xhtml+xml"/>
    <item id="c2" href="old.xhtml" media-type="application/xhtml+xml"/>
    <item id="c2" href="ch2.xhtml" media-type="application/xhtml+xml"/>
    <item id="nohref" media-type="image/png"/>
  </manifest>
  <spine toc="ncx">
    <itemref idref="c1"/>
    <itemref idref="c2"/>
    <itemref linear="no"/>
  </spine>
</package>"#;

#[test]
fn package_document_gives_metadata_manifest_and_spine() {
    let (m, manifest, spine, ncx) = match parse_opf(OPF) {
        Ok(x) => x,
        Err(_) => panic!("package document refused"),
    };
    assert_eq!(m.title.as_deref(), Some("The Book"));
    assert_eq!(m.author.as_deref(), Some("Ann Author"));
    assert_eq!(m.publisher.as_deref(), Some("Pub & Co"));
    assert_eq!(m.language.as_deref(), Some("en"));
    assert_eq!(spine, vec!["c1".to_string(), "c2".to_string()]);
    assert_eq!(ncx.as_deref(), Some("ncx"));
    assert_eq!(manifest.get("ncx").as_deref(), Some("toc.ncx"));
    assert_eq!(manifest.get("c1").as_deref(), Some("ch1.xhtml"));
    // a later item with the same id replaces an earlier one
    assert_eq!(manifest.get("c2").as_deref(), Some("ch2.xhtml"));
    // an item without a link is left out
    assert_eq!(manifest.get("nohref"), None);
    assert_eq!(manifest.get("zz"), None);
}

#[test]
fn empty_metadata_text_is_ignored() {
    let (m, _, _, ncx) = match parse_opf("<package><metadata><dc:title>   </dc:title></metadata></package>") {
        Ok(x) => x,
        Err(_) => panic!("package document refused"),
    };
    assert_eq!(m.title, None);
    assert_eq!(ncx, None);
}

#[test]
fn malformed_package_document_is_refused() {
    assert!(matches!(parse_opf("<package><metadata></package>"), Err(BookError::Xml(XmlDoc::Package, _))));
}

#[test]
fn bad_reference_in_item_is_refused() {
    assert!(matches!(parse_opf(r#"<package><item id="a" href="&nope;"/></package>"#), Err(BookError::Attribute(_))));
}

const NCX: &str = r#"<?xml version="1.0"?>
<ncx xmlns="http://www.daisy.org/z3986/2005/ncx/" version="2005-1">
  <navMap>
    <navPoint id="n1" playOrder="1">
      <navLabel><text>Chapter 1</text></navLabel>
      <content src="ch1.xhtml"/>
      <navPoint id="n1a">
        <navLabel><text>Section</text></navLabel>
        <content src="ch1.xhtml#s"/>
      </navPoint>
    </navPoint>
    <navPoint id="n2"><navLabel><text> Chapter 2 </text></navLabel><content src="ch2.xhtml"/></navPoint>
    <navPoint id="n3"><navLabel><text></text></navLabel><content src="ch3.xhtml"/></navPoint>
  </navMap>
</ncx>"#;

#[test]
fn ncx_gives_top_level_entries_with_labels() {
    let toc = match parse_ncx(NCX) {
        Ok(t) => t,
        Err(_) => panic!("ncx refused"),
    };
    let pairs: Vec<(String, String)> = toc.into_iter().map(|e| (e.label, e.href)).collect();
    assert_eq!(
        pairs,
        vec![
            ("Chapter 1".to_string(), "ch1.xhtml".to_string()),
            ("Chapter 2".to_string(), "ch2.xhtml".to_string()),
        ]
    );
}

#[test]
fn malformed_ncx_is_refused() {
    assert!(matches!(parse_ncx("<ncx><navMap></ncx>"), Err(BookError::Xml(XmlDoc::Ncx, _))));
}

#[test]
fn text_of_paragraphs_and_inline_elements() {
    let html = "<html><head><title>T</title></head><body><p>Hello <b>world</b></p><p>Second</p></body></html>";
    assert_eq!(extract_text(html), "Hello world\nSecond");
}

#[test]
fn scripts_and_styles_are_left_out() {
    assert_eq!(extract_text("<p>x</p><script>var a;</script><style>p{}</style><p>y</p>"), "x\ny");
}

#[test]
fn references_are_replaced_and_bad_ones_kept() {
    assert_eq!(extract_text("<p>A &amp; B</p>"), "A & B");
    assert_eq!(extract_text("<p>A&nbsp;B</p>"), "A&nbsp;B");
}

#[test]
fn control_characters_become_spaces() {
    assert_eq!(extract_text("<p>a\tb</p>"), "a b");
    assert_eq!(extract_text("<p>a\u{7}b</p>"), "a b");
}

#[test]
fn words_on_two_source_lines_stay_apart() {
    let t = extract_text("<p>Hello\nworld</p>");
    assert_eq!(t, "Hello world");
    assert_eq!(t.split_whitespace().collect::<Vec<_>>(), vec!["Hello", "world"]);
}

#[test]
fn empty_br_does_not_break_the_line() {
    assert_eq!(extract_text("<p>a<br/>b</p>"), "a b");
    assert_eq!(extract_text("<p>a<br>b</br></p>"), "a\nb");
}

#[test]
fn empty_blocks_leave_no_empty_lines() {
    assert_eq!(extract_text("<div>  </div><div>z</div><div></div>"), "z");
}

#[test]
fn reading_stops_at_a_syntax_error() {
    assert_eq!(extract_text("<p>x</p><p>y</q><p>z</p>"), "x\ny");
}

#[test]
fn extracted_lines_are_trimmed_and_not_empty() {
    let html = "<body><h1> Title </h1><div><p>one</p>\n\n<p>  two  three </p></div><li>four</li></body>";
    let t = extract_text(html);
    assert_eq!(t, "Title\none\ntwo  three\nfour");
    for line in t.split('\n') {
        assert!(!line.is_empty());
        assert_eq!(line, line.trim());
        assert!(!line.chars().any(|c| c.is_control()));
    }
}

#[test]
fn tidy_lines_trims_and_drops_empty_lines() {
    let s: Vec<char> = "  a \n\n b\n \t\nc  ".chars().collect();
    let out: String = tidy_lines(&s).into_iter().collect();
    assert_eq!(out, "a\nb\nc");
}

#[test]
fn events_of_a_small_document() {
    let evs = read_events(r#"<a x="1">t</a><b/><!--c-->"#);
    assert_eq!(evs.len(), 6);
    assert!(matches!(&evs[0], XmlEvent::Start(n, a) if n == "a" && a == r#" x="1""#));
    assert!(matches!(&evs[1], XmlEvent::Text(t) if t == b"t"));
    assert!(matches!(&evs[2], XmlEvent::End(n) if n == "a"));
    assert!(matches!(&evs[3], XmlEvent::Empty(n, a) if n == "b" && a.is_empty()));
    assert!(matches!(&evs[4], XmlEvent::Other));
    assert!(matches!(&evs[5], XmlEvent::Eof));
}

#[test]
fn events_end_at_an_error() {
    let evs = read_events("<a></b>");
    assert_eq!(evs.len(), 2);
    assert!(matches!(&evs[1], XmlEvent::Failed(_)));
}

#[test]
fn attributes_are_read_and_decoded() {
    let attrs = tag_attributes(r#" a="1" b='x&amp;y'"#);
    assert_eq!(attrs.len(), 2);
    assert_eq!(attrs[0].key, "a");
    assert_eq!(attrs[0].raw_value, b"1".to_vec());
    assert_eq!(attrs[1].key, "b");
    assert_eq!(attrs[1].raw_value, b"x&amp;y".to_vec());
    assert_eq!(attr_value(&attrs[1]), Ok("x&y".to_string()));
}

#[test]
fn unescape_replaces_references() {
    assert_eq!(unescape("a&lt;b&#65;"), Ok("a<bA".to_string()));
    assert!(unescape("&nbsp;").is_err());
}

#[test]
fn text_keeps_raw_text_on_bad_reference() {
    assert_eq!(text_of(&b"x &amp; y".to_vec()), "x & y");
    assert_eq!(text_of(&b"x &bad; y".to_vec()), "x &bad; y");
    assert_eq!(text_of(&vec![0xff, 0x41]), "");
}

#[test]
fn utf8_decoding() {
    assert_eq!(utf8_decode("é".as_bytes()), Some("é".to_string()));
    assert_eq!(utf8_decode(&[0xff]), None);
}

#[test]
fn paths_are_resolved_against_the_package_directory() {
    assert_eq!(resolve_path("OEBPS", "ch1.xhtml"), "OEBPS/ch1.xhtml");
    assert_eq!(resolve_path("", "ch1.xhtml"), "ch1.xhtml");
    assert_eq!(resolve_path("OEBPS/", "x.xhtml"), "OEBPS/x.xhtml");
    assert_eq!(resolve_path("OEBPS", "/abs.xhtml"), "/abs.xhtml");
    assert_eq!(resolve_path("a\\b", "c\\d"), "a/b/c/d");
    assert_eq!(resolve_path("", "c\\d"), "c\\d");
    assert_eq!(resolve_path("OEBPS", ""), "OEBPS/");
}

#[test]
fn directory_of_an_archive_path() {
    assert_eq!(dir_of("OEBPS/content.opf"), "OEBPS");
    assert_eq!(dir_of("a/b/content.opf"), "a/b");
    assert_eq!(dir_of("content.opf"), "");
    assert_eq!(dir_of(""), "");
}

#[test]
fn manifest_insert_then_get() {
    let mut m = Manifest::new();
    assert_eq!(m.get("a"), None);
    m.insert("a".to_string(), "1".to_string());
    m.insert("b".to_string(), "2".to_string());
    m.insert("a".to_string(), "3".to_string());
    assert_eq!(m.get("a").as_deref(), Some("3"));
    assert_eq!(m.get("b").as_deref(), Some("2"));
    assert_eq!(m.get("c"), None);
}

#[test]
fn malformed_attributes_are_left_out() {
    let attrs = tag_attributes(r#" a="1" b c="3""#);
    let keys: Vec<String> = attrs.iter().map(|a| a.key.clone()).collect();
    assert!(keys.contains(&"a".to_string()));
    assert!(!keys.contains(&"b".to_string()));
}

fn start(n: &str, a: &str) -> XmlEvent {
    XmlEvent::Start(n.to_string(), a.to_string())
}

fn empty(n: &str, a: &str) -> XmlEvent {
    XmlEvent::Empty(n.to_string(), a.to_string())
}

fn end(n: &str) -> XmlEvent {
    XmlEvent::End(n.to_string())
}

fn text(t: &str) -> XmlEvent {
    XmlEvent::Text(t.as_bytes().to_vec())
}

#[test]
fn rootfile_from_given_events() {
    let evs = vec![
        start("container", ""),
        empty("rootfile", r#" media-type="x""#),
        empty("rootfile", r#" full-path="a/b.opf""#),
        empty("rootfile", r#" full-path="c.opf""#),
        XmlEvent::Eof,
    ];
    assert_eq!(find_rootfile(&evs).ok(), Some("a/b.opf".to_string()));
    let failed = vec![start("container", ""), XmlEvent::Failed("bad".to_string())];
    assert!(matches!(find_rootfile(&failed), Err(BookError::Xml(XmlDoc::Container, m)) if m == "bad"));
    assert!(matches!(find_rootfile(&vec![XmlEvent::Eof]), Err(BookError::NoRootfile)));
    let bad_ref = vec![empty("rootfile", r#" full-path="&nope;""#), XmlEvent::Eof];
    assert!(matches!(find_rootfile(&bad_ref), Err(BookError::Attribute(_))));
}

#[test]
fn package_from_given_events() {
    let evs = vec![
        start("package", ""),
        start("dc:title", ""),
        text(" The Book "),
        end("dc:title"),
        start("dc:creator", ""),
        text("Ann"),
        end("dc:creator"),
        empty("item", r#" id="c1" href="ch1.xhtml""#),
        empty("item", r#" id="ncx" href="toc.ncx""#),
        start("spine", r#" toc="ncx""#),
        empty("itemref", r#" idref="c1""#),
        end("spine"),
        XmlEvent::Eof,
        empty("itemref", r#" idref="after-the-end""#),
    ];
    let (m, manifest, spine, ncx) = match parse_opf_events(&evs) {
        Ok(v) => v,
        Err(_) => panic!("package refused"),
    };
    assert_eq!(m.title.as_deref(), Some("The Book"));
    assert_eq!(m.author.as_deref(), Some("Ann"));
    assert_eq!(m.publisher, None);
    assert_eq!(manifest.get("c1").as_deref(), Some("ch1.xhtml"));
    assert_eq!(manifest.get("ncx").as_deref(), Some("toc.ncx"));
    assert_eq!(spine, vec!["c1".to_string()]);
    assert_eq!(ncx.as_deref(), Some("ncx"));
    let failed = vec![start("package", ""), XmlEvent::Failed("oops".to_string())];
    assert!(matches!(parse_opf_events(&failed), Err(BookError::Xml(XmlDoc::Package, m)) if m == "oops"));
}

#[test]
fn ncx_from_given_events() {
    let evs = vec![
        start("navMap", ""),
        start("navPoint", ""),
        start("navLabel", ""),
        start("text", ""),
        text(" One "),
        end("text"),
        end("navLabel"),
        empty("content", r#" src="ch1.xhtml#a""#),
        start("navPoint", ""),
        start("navLabel", ""),
        start("text", ""),
        text("Nested"),
        end("text"),
        end("navLabel"),
        end("navPoint"),
        end("navPoint"),
        end("navMap"),
        XmlEvent::Eof,
    ];
    let toc = match parse_ncx_events(&evs) {
        Ok(t) => t,
        Err(_) => panic!("NCX refused"),
    };
    assert_eq!(toc.len(), 1);
    assert_eq!(toc[0].label, "One");
    assert_eq!(toc[0].href, "ch1.xhtml#a");
    let failed = vec![start("navMap", ""), XmlEvent::Failed("x".to_string())];
    assert!(matches!(parse_ncx_events(&failed), Err(BookError::Xml(XmlDoc::Ncx, _))));
}

#[test]
fn text_from_given_events() {
    let evs = vec![
        start("head", ""),
        text("hidden"),
        end("head"),
        start("p", ""),
        text("Hello\nworld"),
        end("p"),
        start("p", ""),
        text("  next  "),
        end("p"),
        XmlEvent::Failed("stop".to_string()),
        text("never"),
    ];
    assert_eq!(text_from_events(&evs), "Hello world\nnext");
    assert_eq!(text_from_events(&vec![]), "");
}
