use epub::archive::{parse_book, read_zip_text, Archive, ArchiveEntry};
use epub::book::{Book, BookError, Metadata, SpineItem, TocEntry};
use epub::chapters::ChapterSpecError;
use epub::commands::{info_lines, list_lines, plan_read, ReadOutcome};

fn file(name: &str, text: &str) -> ArchiveEntry {
    ArchiveEntry { name: name.to_string(), text: Some(text.to_string()) }
}

const CONTAINER: &str = r#"<?xml version="1.0"?><container><rootfiles><rootfile full-path="OEBPS/content.opf"/></rootfiles></container>"#;

const OPF: &str = r#"<package><metadata><dc:title>Tale</dc:title><dc:creator>Writer</dc:creator></metadata>
<manifest>
<item id="ncx" href="toc.ncx"/>
<item id="c1" href="text/one.xhtml"/>
<item id="map" href="text/map.xhtml"/>
<item id="c2" href="text/two.xhtml"/>
<item id="gone" href="text/gone.xhtml"/>
</manifest>
<spine toc="ncx"><itemref idref="c1"/><itemref idref="map"/><itemref idref="c2"/><itemref idref="unknown"/><itemref idref="gone"/></spine>
</package>"#;

const NCX: &str = r#"<ncx><navMap>
<navPoint><navLabel><text>One</text></navLabel><content src="text/one.xhtml"/></navPoint>
<navPoint><navLabel><text>Two</text></navLabel><content src="text/two.xhtml#start"/></navPoint>
</navMap></ncx>"#;

fn archive() -> Archive {
    Archive {
        entries: vec![
            file("mimetype", "application/epub+zip"),
            file("META-INF/container.xml", CONTAINER),
            file("OEBPS/content.opf", OPF),
            file("OEBPS/toc.ncx", NCX),
            file("OEBPS/text/one.xhtml", "<html><body><p>First chapter.</p></body></html>"),
            file("OEBPS/text/map.xhtml", "<html><body><img src=\"map.png\"/></body></html>"),
            file("OEBPS/text/two.xhtml", "<html><body><h1>Two</h1><p>Second chapter.</p></body></html>"),
        ],
    }
}

fn book() -> Book {
    match parse_book(&archive()) {
        Ok(b) => b,
        Err(_) => panic!("book refused"),
    }
}

#[test]
fn book_is_read_from_its_archive() {
    let b = book();
    assert_eq!(b.metadata.title.as_deref(), Some("Tale"));
    assert_eq!(b.metadata.author.as_deref(), Some("Writer"));
    assert_eq!(b.toc.len(), 2);
    assert_eq!(b.toc[1].label, "Two");
    assert_eq!(b.toc[1].href, "text/two.xhtml#start");
    let spine: Vec<(String, String)> = b.spine.iter().map(|s| (s.href.clone(), s.content.clone())).collect();
    assert_eq!(
        spine,
        vec![
            ("text/one.xhtml".to_string(), "First chapter.".to_string()),
            ("text/map.xhtml".to_string(), String::new()),
            ("text/two.xhtml".to_string(), "Two\nSecond chapter.".to_string()),
            ("text/gone.xhtml".to_string(), String::new()),
        ]
    );
}

#[test]
fn missing_container_is_refused() {
    let a = Archive { entries: vec![file("mimetype", "x")] };
    assert!(matches!(parse_book(&a), Err(BookError::MissingFile(n)) if n == "META-INF/container.xml"));
}

#[test]
fn missing_package_document_is_refused() {
    let a = Archive { entries: vec![file("META-INF/container.xml", CONTAINER)] };
    assert!(matches!(parse_book(&a), Err(BookError::MissingFile(n)) if n == "OEBPS/content.opf"));
}

#[test]
fn unreadable_file_is_refused() {
    let a = Archive {
        entries: vec![ArchiveEntry { name: "META-INF/container.xml".to_string(), text: None }],
    };
    assert!(matches!(parse_book(&a), Err(BookError::UnreadableFile(_))));
    assert!(matches!(read_zip_text(&a, "other"), Err(BookError::MissingFile(_))));
}

#[test]
fn book_without_ncx_has_no_toc() {
    let opf = r#"<package><manifest><item id="c1" href="one.xhtml"/></manifest><spine><itemref idref="c1"/></spine></package>"#;
    let a = Archive {
        entries: vec![
            file("META-INF/container.xml", r#"<container><rootfile full-path="content.opf"/></container>"#),
            file("content.opf", opf),
            file("one.xhtml", "<p>Only</p>"),
        ],
    };
    let b = match parse_book(&a) {
        Ok(b) => b,
        Err(_) => panic!("book refused"),
    };
    assert!(b.toc.is_empty());
    assert_eq!(b.spine.len(), 1);
    assert_eq!(b.spine[0].content, "Only");
}

fn text_of(o: Result<ReadOutcome, ChapterSpecError>) -> String {
    match o {
        Ok(ReadOutcome::Text(t)) => t,
        Ok(ReadOutcome::NothingFound) => "<nothing>".to_string(),
        Ok(ReadOutcome::NoText) => "<no text>".to_string(),
        Err(e) => format!("<error {:?}>", e),
    }
}

#[test]
fn whole_book_is_every_document_with_text() {
    assert_eq!(text_of(plan_read(&book(), None)), "First chapter.\nTwo\nSecond chapter.\n");
}

#[test]
fn chapter_one_covers_up_to_chapter_two() {
    // chapter 1 covers one.xhtml and map.xhtml; the map has no text
    assert_eq!(text_of(plan_read(&book(), Some("1"))), "First chapter.\n");
    assert_eq!(text_of(plan_read(&book(), Some("2"))), "Two\nSecond chapter.\n");
    assert_eq!(text_of(plan_read(&book(), Some("1-2"))), "First chapter.\nTwo\nSecond chapter.\n");
}

#[test]
fn selection_beyond_the_toc_is_refused() {
    assert_eq!(text_of(plan_read(&book(), Some("3"))), "<error OutOfRange(3, 2)>");
}

fn spine_only(contents: &[&str]) -> Book {
    Book {
        metadata: Metadata { title: None, author: None, publisher: None, language: None },
        toc: Vec::<TocEntry>::new(),
        spine: contents
            .iter()
            .enumerate()
            .map(|(i, c)| SpineItem { href: format!("p{}.xhtml", i), content: c.to_string() })
            .collect(),
    }
}

#[test]
fn without_toc_chapters_count_spine_documents() {
    let b = spine_only(&["a", "", "c"]);
    assert_eq!(text_of(plan_read(&b, Some("3,1"))), "c\na\n");
    assert_eq!(text_of(plan_read(&b, Some("2"))), "<no text>");
    assert_eq!(text_of(plan_read(&b, Some("5-9"))), "<nothing>");
}

#[test]
fn image_only_chapter_has_no_text() {
    let mut b = book();
    b.spine[0].content = String::new();
    assert_eq!(text_of(plan_read(&b, Some("1"))), "<no text>");
}

#[test]
fn empty_book_prints_nothing() {
    let b = spine_only(&["", ""]);
    assert_eq!(text_of(plan_read(&b, None)), "<nothing>");
}

#[test]
fn info_lists_known_metadata_and_counts() {
    assert_eq!(
        info_lines(&book()),
        vec![
            "Title:     Tale".to_string(),
            "Author:    Writer".to_string(),
            "Chapters:  2".to_string(),
            "Pages:     4".to_string(),
        ]
    );
}

#[test]
fn list_numbers_toc_entries_from_one() {
    assert_eq!(list_lines(&book()), vec!["  1  One".to_string(), "  2  Two".to_string()]);
}

#[test]
fn list_without_toc_shows_spine_documents() {
    let b = spine_only(&["abc", "", "é"]);
    assert_eq!(
        list_lines(&b),
        vec![
            "(no TOC; 3 spine items)".to_string(),
            "    1  p0.xhtml (3 bytes)".to_string(),
            "    2  p1.xhtml (0 bytes)".to_string(),
            "    3  p2.xhtml (2 bytes)".to_string(),
        ]
    );
}

#[test]
fn numbers_wider_than_three_are_not_cut() {
    let entries: Vec<TocEntry> =
        (0..1000).map(|i| TocEntry { label: format!("c{}", i), href: format!("{}.xhtml", i) }).collect();
    let b = Book { metadata: Metadata { title: None, author: None, publisher: None, language: None }, toc: entries, spine: vec![] };
    let lines = list_lines(&b);
    assert_eq!(lines[0], "  1  c0");
    assert_eq!(lines[99], "100  c99");
    assert_eq!(lines[999], "1000  c999");
}

#[test]
fn listed_number_reads_that_chapter() {
    let b = book();
    let lines = list_lines(&b);
    for (i, line) in lines.iter().enumerate() {
        let number = line.trim_start().split(' ').next().unwrap();
        let expected = text_of(plan_read(&b, Some(&(i + 1).to_string())));
        assert_eq!(text_of(plan_read(&b, Some(number))), expected);
    }
}
