use epub::book::{Book, Metadata, SpineItem, TocEntry};
use epub::chapters::{href_base, parse_chapter_spec, resolve_toc_to_spine, ChapterSpecError, IntErrorKind};

fn spec(s: &str, max: usize) -> Result<Vec<usize>, ChapterSpecError> {
    parse_chapter_spec(s, max)
}

#[test]
fn single_chapter() {
    assert_eq!(spec("3", 10), Ok(vec![2]));
}

#[test]
fn range_of_chapters() {
    assert_eq!(spec("1-5", 10), Ok(vec![0, 1, 2, 3, 4]));
}

#[test]
fn mixed_selection() {
    assert_eq!(spec("1,3,7-10", 10), Ok(vec![0, 2, 6, 7, 8, 9]));
}

#[test]
fn range_is_cut_at_the_last_chapter() {
    assert_eq!(spec("7-20", 10), Ok(vec![6, 7, 8, 9]));
    assert_eq!(spec("12-20", 10), Ok(vec![]));
}

#[test]
fn spaces_and_plus_sign_are_accepted() {
    assert_eq!(spec(" 2 , 4 - 5 ", 10), Ok(vec![1, 3, 4]));
    assert_eq!(spec("+3", 10), Ok(vec![2]));
}

#[test]
fn repeated_chapters_stay_repeated() {
    assert_eq!(spec("1,1", 3), Ok(vec![0, 0]));
}

#[test]
fn zero_is_refused() {
    assert_eq!(spec("0", 10), Err(ChapterSpecError::ZeroIndex));
    assert_eq!(spec("0-3", 10), Err(ChapterSpecError::ZeroIndex));
    assert_eq!(spec("2-0", 10), Err(ChapterSpecError::ZeroIndex));
}

#[test]
fn backward_range_is_refused() {
    assert_eq!(spec("5-3", 10), Err(ChapterSpecError::InvalidRange(5, 3)));
}

#[test]
fn chapter_beyond_the_book_is_refused() {
    assert_eq!(spec("11", 10), Err(ChapterSpecError::OutOfRange(11, 10)));
}

#[test]
fn bad_numbers_are_refused() {
    assert_eq!(spec("abc", 10), Err(ChapterSpecError::InvalidNumber(IntErrorKind::InvalidDigit)));
    assert_eq!(spec("", 10), Err(ChapterSpecError::InvalidNumber(IntErrorKind::Empty)));
    assert_eq!(spec("1,", 10), Err(ChapterSpecError::InvalidNumber(IntErrorKind::Empty)));
    assert_eq!(spec("+", 10), Err(ChapterSpecError::InvalidNumber(IntErrorKind::InvalidDigit)));
    assert_eq!(
        spec("99999999999999999999999", 10),
        Err(ChapterSpecError::InvalidNumber(IntErrorKind::PosOverflow))
    );
    assert_eq!(spec("a-3", 10), Err(ChapterSpecError::InvalidRangeStart(IntErrorKind::InvalidDigit)));
    assert_eq!(spec("3-", 10), Err(ChapterSpecError::InvalidRangeEnd(IntErrorKind::Empty)));
    assert_eq!(spec("1--3", 10), Err(ChapterSpecError::InvalidRangeEnd(IntErrorKind::InvalidDigit)));
}

#[test]
fn first_refused_piece_decides() {
    assert_eq!(spec("1,0,abc", 10), Err(ChapterSpecError::ZeroIndex));
}

#[test]
fn every_listed_number_selects_its_entry() {
    for max in 1..30usize {
        for n in 1..=max {
            assert_eq!(spec(&n.to_string(), max), Ok(vec![n - 1]));
        }
    }
}

#[test]
fn selected_indices_stay_below_the_count() {
    for s in ["1-100", "3,5-9,2", "1-1"] {
        let v = spec(s, 7).unwrap();
        assert!(v.iter().all(|&i| i < 7));
    }
}

#[test]
fn link_base_drops_the_fragment() {
    assert_eq!(href_base("ch1.xhtml#sec2"), "ch1.xhtml");
    assert_eq!(href_base("ch1.xhtml"), "ch1.xhtml");
    assert_eq!(href_base("#top"), "");
    assert_eq!(href_base("a#b#c"), "a");
}

fn item(href: &str, content: &str) -> SpineItem {
    SpineItem { href: href.to_string(), content: content.to_string() }
}

fn entry(label: &str, href: &str) -> TocEntry {
    TocEntry { label: label.to_string(), href: href.to_string() }
}

fn sample_book() -> Book {
    Book {
        metadata: Metadata { title: None, author: None, publisher: None, language: None },
        toc: vec![
            entry("One", "a.xhtml"),
            entry("Two", "c.xhtml#part"),
            entry("Three", "missing.xhtml"),
            entry("Four", "e.xhtml"),
        ],
        spine: vec![
            item("a.xhtml", "A"),
            item("b.xhtml", "B"),
            item("c.xhtml", "C"),
            item("d.xhtml", "D"),
            item("e.xhtml", "E"),
        ],
    }
}

#[test]
fn toc_entry_covers_documents_up_to_the_next_entry() {
    let b = sample_book();
    assert_eq!(resolve_toc_to_spine(&b, &[0]), vec![0, 1]);
    // the next entry's document is not found: only the first document
    assert_eq!(resolve_toc_to_spine(&b, &[1]), vec![2]);
    // an entry whose document is not found covers nothing
    assert_eq!(resolve_toc_to_spine(&b, &[2]), Vec::<usize>::new());
    // the last entry covers its first document
    assert_eq!(resolve_toc_to_spine(&b, &[3]), vec![4]);
}

#[test]
fn resolved_documents_are_not_repeated() {
    let b = sample_book();
    let r = resolve_toc_to_spine(&b, &[0, 0, 1, 0, 3, 3]);
    assert_eq!(r, vec![0, 1, 2, 4]);
    let mut seen = std::collections::HashSet::new();
    assert!(r.iter().all(|i| seen.insert(*i) && *i < b.spine.len()));
}


#[test]
fn link_base_taken_twice_is_the_same() {
    for h in ["a.xhtml#x", "b#", "#", "plain", "x#y#z"] {
        let b = href_base(h);
        assert!(!b.contains('#'));
        assert!(h.starts_with(b));
        assert_eq!(href_base(b), b);
    }
}

#[test]
fn entries_in_one_document_resolve_to_that_document() {
    let b = Book {
        metadata: Metadata { title: None, author: None, publisher: None, language: None },
        toc: vec![entry("A", "ch1.xhtml#a"), entry("B", "ch1.xhtml#b")],
        spine: vec![item("ch1.xhtml", "Text")],
    };
    assert_eq!(resolve_toc_to_spine(&b, &[0]), vec![0]);
    assert_eq!(resolve_toc_to_spine(&b, &[1]), vec![0]);
    assert_eq!(resolve_toc_to_spine(&b, &[0, 1]), vec![0]);
}

#[test]
fn next_entry_in_an_earlier_document_covers_the_first_only() {
    let b = Book {
        metadata: Metadata { title: None, author: None, publisher: None, language: None },
        toc: vec![entry("Late", "c.xhtml"), entry("Early", "a.xhtml")],
        spine: vec![item("a.xhtml", "A"), item("b.xhtml", "B"), item("c.xhtml", "C")],
    };
    assert_eq!(resolve_toc_to_spine(&b, &[0]), vec![2]);
    assert_eq!(resolve_toc_to_spine(&b, &[1]), vec![0]);
}

#[test]
fn two_selections_resolve_as_the_first_then_the_new_of_the_second() {
    let b = sample_book();
    let first: Vec<usize> = vec![3, 1];
    let second: Vec<usize> = vec![0, 3];
    let both: Vec<usize> = [first.clone(), second.clone()].concat();
    let ra = resolve_toc_to_spine(&b, &first);
    let rb = resolve_toc_to_spine(&b, &second);
    let r = resolve_toc_to_spine(&b, &both);
    assert_eq!(r, vec![4, 2, 0, 1]);
    assert!(r.starts_with(&ra));
    let mut union: Vec<usize> = ra.iter().chain(rb.iter()).cloned().collect();
    union.sort();
    union.dedup();
    let mut sorted = r.clone();
    sorted.sort();
    assert_eq!(sorted, union);
    assert_eq!(resolve_toc_to_spine(&b, &[first.clone(), first.clone()].concat()), ra);
}
