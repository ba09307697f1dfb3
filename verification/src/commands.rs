//! What the `--info`, `--list` and read commands show, as lines and text.

use vstd::prelude::*;

use crate::book::{Book, BookModel, SpineItem, TocEntry};
use crate::chapters::{
    chapter_indices, digit_value, digits_value, is_digit, parse_chapter_spec, parse_usize_spec,
    piece_indices, pieces_indices, resolve_spec, resolve_toc_to_spine, ChapterSpecError,
};
use crate::text::{first_index_of, is_ws, lemma_first_index_of, lemma_split_without_sep, trim, trim_end, trim_start};
use crate::text::{append_chars, chars_of, join_with, string_of};

verus! {

/// The decimal digit for `d < 10`.
pub open spec fn digit_char(d: nat) -> char {
    (48 + d) as char
}

/// The decimal form of `n`.
pub open spec fn decimal_spec(n: nat) -> Seq<char>
    decreases n,
{
    if n < 10 {
        seq![digit_char(n)]
    } else {
        decimal_spec(n / 10).push(digit_char(n % 10))
    }
}

/// `s` right-aligned in a field of `width` characters (`{:>width}`).
pub open spec fn pad_left(s: Seq<char>, width: nat) -> Seq<char> {
    if s.len() >= width {
        s
    } else {
        Seq::new((width - s.len()) as nat, |i: int| ' ') + s
    }
}

/// What reading chapters comes to.
pub enum ReadOutcome {
    /// The text to print.
    Text(String),
    /// The selection covers no spine document.
    NothingFound,
    /// The spine documents that the selection covers hold no text.
    NoText,
}

/// The model of a `ReadOutcome`.
pub enum OutcomeModel {
    Text(Seq<char>),
    NothingFound,
    NoText,
}

impl View for ReadOutcome {
    type V = OutcomeModel;

    open spec fn view(&self) -> OutcomeModel {
        match self {
            ReadOutcome::Text(t) => OutcomeModel::Text(t@),
            ReadOutcome::NothingFound => OutcomeModel::NothingFound,
            ReadOutcome::NoText => OutcomeModel::NoText,
        }
    }
}

/// The indices of the spine documents that hold text.
pub open spec fn nonempty_indices(spine: Seq<SpineItem>) -> Seq<usize>
    decreases spine.len(),
{
    if spine.len() == 0 {
        Seq::empty()
    } else if spine.last().content@.len() > 0 {
        nonempty_indices(spine.drop_last()).push((spine.len() - 1) as usize)
    } else {
        nonempty_indices(spine.drop_last())
    }
}

/// The spine documents to print: without a selection, all that hold text;
/// with one, the chapters it names, counted in the table of contents, or in
/// the spine when there is no table of contents.
pub open spec fn read_indices_spec(toc: Seq<TocEntry>, spine: Seq<SpineItem>, chapters: Option<Seq<char>>) -> Result<Seq<usize>, ChapterSpecError> {
    match chapters {
        None => Ok(nonempty_indices(spine)),
        Some(c) => if toc.len() == 0 {
            chapter_indices(c, spine.len())
        } else {
            match chapter_indices(c, toc.len()) {
                Ok(t) => Ok(resolve_spec(toc, spine, t)),
                Err(e) => Err(e),
            }
        },
    }
}

/// Law: without a selection, reading prints every spine document that holds
/// text and no other, each once, in spine order.
pub proof fn lemma_whole_book_documents(toc: Seq<TocEntry>, spine: Seq<SpineItem>)
    requires
        spine.len() <= usize::MAX,
    ensures
        read_indices_spec(toc, spine, None) is Ok,
        ({
            let ix = read_indices_spec(toc, spine, None)->Ok_0;
            &&& forall|a: int, b: int| 0 <= a < b < ix.len() ==> ix[a] < ix[b]
            &&& forall|k: int| 0 <= k < ix.len() ==> ix[k] < spine.len() && spine[ix[k] as int].content@.len() > 0
            &&& forall|i: int| 0 <= i < spine.len() && spine[i].content@.len() > 0 ==> ix.contains(i as usize)
        }),
    decreases spine.len(),
{
    if spine.len() > 0 {
        let p = spine.drop_last();
        lemma_whole_book_documents(toc, p);
        let ip = nonempty_indices(p);
        let ix = nonempty_indices(spine);
        assert(read_indices_spec(toc, p, None) == Ok::<Seq<usize>, ChapterSpecError>(ip));
        assert(read_indices_spec(toc, spine, None) == Ok::<Seq<usize>, ChapterSpecError>(ix));
        assert forall|k: int| 0 <= k < ip.len() implies ip[k] < p.len() && p[ip[k] as int] == spine[ip[k] as int] by {
            assert(ip[k] < p.len());
        }
        assert forall|k: int| 0 <= k < ix.len() implies ix[k] < spine.len() && spine[ix[k] as int].content@.len() > 0 by {
            if k < ip.len() {
                assert(ix[k] == ip[k]);
                assert(p[ip[k] as int] == spine[ip[k] as int]);
            }
        }
        assert forall|a: int, b: int| 0 <= a < b < ix.len() implies ix[a] < ix[b] by {
            if b < ip.len() {
                assert(ix[a] == ip[a] && ix[b] == ip[b]);
            } else {
                assert(ix[a] == ip[a]);
                assert(ip[a] < p.len());
            }
        }
        assert forall|i: int| 0 <= i < spine.len() && spine[i].content@.len() > 0 implies ix.contains(i as usize) by {
            if i < p.len() {
                assert(p[i] == spine[i]);
                assert(ip.contains(i as usize));
                let k = choose|k: int| 0 <= k < ip.len() && ip[k] == i as usize;
                assert(ix[k] == ip[k]);
            } else {
                assert(ix.last() == i as usize);
            }
        }
    }
}

/// The texts of the listed spine documents that exist and hold text, in order.
pub open spec fn selected_texts(spine: Seq<SpineItem>, ix: Seq<usize>) -> Seq<Seq<char>>
    decreases ix.len(),
{
    if ix.len() == 0 {
        Seq::empty()
    } else {
        let rest = selected_texts(spine, ix.drop_last());
        let i = ix.last() as int;
        if i < spine.len() && spine[i].content@.len() > 0 {
            rest.push(spine[i].content@)
        } else {
            rest
        }
    }
}

/// What reading comes to: nothing found, no text, or the texts each followed
/// by a line break, consecutive ones separated by an empty line's break.
pub open spec fn read_outcome_spec(toc: Seq<TocEntry>, spine: Seq<SpineItem>, chapters: Option<Seq<char>>) -> Result<OutcomeModel, ChapterSpecError> {
    match read_indices_spec(toc, spine, chapters) {
        Err(e) => Err(e),
        Ok(ix) => if ix.len() == 0 {
            Ok(OutcomeModel::NothingFound)
        } else if selected_texts(spine, ix).len() == 0 {
            Ok(OutcomeModel::NoText)
        } else {
            Ok(OutcomeModel::Text(join_with(selected_texts(spine, ix), '\n').push('\n')))
        },
    }
}

/// The selection, by its model.
pub open spec fn chapters_view(chapters: Option<&str>) -> Option<Seq<char>> {
    match chapters {
        Some(c) => Some(c@),
        None => None,
    }
}

/// The indices of the spine documents that hold text.
fn nonempty_spine(spine: &Vec<SpineItem>) -> (ix: Vec<usize>)
    ensures
        ix@ == nonempty_indices(spine@),
{
    let mut ix: Vec<usize> = Vec::new();
    let mut i: usize = 0;
    proof {
        assert(spine@.take(0) =~= Seq::<SpineItem>::empty());
    }
    while i < spine.len()
        invariant
            i <= spine@.len(),
            ix@ == nonempty_indices(spine@.take(i as int)),
        decreases spine@.len() - i,
    {
        proof {
            assert(spine@.take(i + 1).drop_last() =~= spine@.take(i as int));
            assert(spine@.take(i + 1).last() == spine@[i as int]);
        }
        if spine[i].content.as_str().unicode_len() > 0 {
            ix.push(i);
        }
        i = i + 1;
    }
    proof {
        assert(spine@.take(spine@.len() as int) =~= spine@);
    }
    ix
}

proof fn lemma_join_push_texts(p: Seq<Seq<char>>, x: Seq<char>)
    ensures
        join_with(p.push(x), '\n') == if p.len() == 0 { x } else { join_with(p, '\n').push('\n') + x },
{
    assert(p.push(x).drop_last() =~= p);
    if p.len() == 0 {
        assert(p.push(x)[0] == x);
    }
}

/// Decides what reading the book, or the selected chapters of it, prints.
/// A selection is counted in the table of contents, or in the spine when the
/// book has no table of contents.
pub fn plan_read(book: &Book, chapters: Option<&str>) -> (r: Result<ReadOutcome, ChapterSpecError>)
    ensures
        match read_outcome_spec(book.toc@, book.spine@, chapters_view(chapters)) {
            Ok(o) => r matches Ok(x) && x@ == o,
            Err(e) => r == Err::<ReadOutcome, ChapterSpecError>(e),
        },
{
    let ix = match chapters {
        Some(spec) => {
            if book.toc.len() == 0 {
                match parse_chapter_spec(spec, book.spine.len()) {
                    Ok(v) => v,
                    Err(e) => {
                        return Err(e);
                    },
                }
            } else {
                match parse_chapter_spec(spec, book.toc.len()) {
                    Ok(t) => {
                        proof {
                            crate::chapters::lemma_chapter_indices_below(spec@, book.toc@.len());
                        }
                        resolve_toc_to_spine(book, t.as_slice())
                    },
                    Err(e) => {
                        return Err(e);
                    },
                }
            }
        },
        None => nonempty_spine(&book.spine),
    };
    if ix.len() == 0 {
        return Ok(ReadOutcome::NothingFound);
    }
    let mut out: Vec<char> = Vec::new();
    let mut any = false;
    let mut k: usize = 0;
    proof {
        assert(ix@.take(0) =~= Seq::<usize>::empty());
    }
    while k < ix.len()
        invariant
            k <= ix@.len(),
            any == (selected_texts(book.spine@, ix@.take(k as int)).len() > 0),
            any ==> out@ == join_with(selected_texts(book.spine@, ix@.take(k as int)), '\n'),
            !any ==> out@.len() == 0,
        decreases ix@.len() - k,
    {
        let ghost texts = selected_texts(book.spine@, ix@.take(k as int));
        proof {
            assert(ix@.take(k + 1).drop_last() =~= ix@.take(k as int));
            assert(ix@.take(k + 1).last() == ix@[k as int]);
        }
        let i = ix[k];
        if i < book.spine.len() && book.spine[i].content.as_str().unicode_len() > 0 {
            let c = chars_of(book.spine[i].content.as_str());
            proof {
                lemma_join_push_texts(texts, c@);
            }
            if any {
                out.push('\n');
            }
            append_chars(&mut out, c.as_slice());
            any = true;
        }
        k = k + 1;
    }
    proof {
        assert(ix@.take(ix@.len() as int) =~= ix@);
    }
    if !any {
        return Ok(ReadOutcome::NoText);
    }
    out.push('\n');
    Ok(ReadOutcome::Text(string_of(out.as_slice())))
}

/// The decimal digit for `d`.
fn digit(d: usize) -> (c: char)
    requires
        d < 10,
    ensures
        c == digit_char(d as nat),
{
    if d == 0 {
        '0'
    } else if d == 1 {
        '1'
    } else if d == 2 {
        '2'
    } else if d == 3 {
        '3'
    } else if d == 4 {
        '4'
    } else if d == 5 {
        '5'
    } else if d == 6 {
        '6'
    } else if d == 7 {
        '7'
    } else if d == 8 {
        '8'
    } else {
        '9'
    }
}

/// Appends the decimal form of `n`.
pub fn push_decimal(out: &mut Vec<char>, n: usize)
    ensures
        final(out)@ == old(out)@ + decimal_spec(n as nat),
    decreases n,
{
    if n >= 10 {
        push_decimal(out, n / 10);
    }
    let c = digit(n % 10);
    out.push(c);
    proof {
        assert(out@ =~= old(out)@ + decimal_spec(n as nat));
    }
}

proof fn lemma_decimal_digits(n: nat)
    ensures
        decimal_spec(n).len() > 0,
        forall|k: int| 0 <= k < decimal_spec(n).len() ==> is_digit(#[trigger] decimal_spec(n)[k]),
        n <= usize::MAX ==> digits_value(decimal_spec(n)) == Ok::<nat, crate::chapters::IntErrorKind>(n),
    decreases n,
{
    if n < 10 {
        let s = decimal_spec(n);
        assert(s.drop_last() =~= Seq::<char>::empty());
        assert(digits_value(s.drop_last()) == Ok::<nat, crate::chapters::IntErrorKind>(0));
        assert(s.last() == digit_char(n));
        assert(digit_value(digit_char(n)) == n);
        assert(is_digit(digit_char(n)));
    } else {
        lemma_decimal_digits(n / 10);
        let s = decimal_spec(n);
        assert(s.drop_last() =~= decimal_spec(n / 10));
        assert(digit_value(digit_char(n % 10)) == n % 10);
        assert(is_digit(digit_char(n % 10)));
        assert(s.last() == digit_char(n % 10));
        vstd::arithmetic::div_mod::lemma_fundamental_div_mod(n as int, 10);
        assert forall|k: int| 0 <= k < s.len() implies is_digit(#[trigger] s[k]) by {
            if k < s.len() - 1 {
                assert(s[k] == decimal_spec(n / 10)[k]);
            }
        }
    }
}

/// Law: the number that the chapter list shows for an entry selects exactly
/// that entry: for `1 <= n <= max`, the selection written as the decimal
/// form of `n` stands for the zero-based index `n - 1`.
pub proof fn lemma_listed_number_selects(n: nat, max: nat)
    requires
        1 <= n <= max,
        max <= usize::MAX,
    ensures
        chapter_indices(decimal_spec(n), max) == Ok::<Seq<usize>, ChapterSpecError>(seq![(n - 1) as usize]),
{
    let s = decimal_spec(n);
    lemma_decimal_digits(n);
    assert forall|k: int| 0 <= k < s.len() implies s[k] != ',' && s[k] != '-' && !is_ws(s[k]) by {
        assert(is_digit(s[k]));
    }
    lemma_split_without_sep(s, ',');
    assert(trim_start(s) == s) by {
        assert(!is_ws(s[0]));
    }
    assert(trim_end(s) == s) by {
        assert(!is_ws(s.last()));
    }
    assert(trim(s) == s);
    lemma_first_index_of(s, '-');
    assert(first_index_of(s, '-') is None);
    assert(!(s[0] == '+' || s[0] == '-')) by {
        assert(is_digit(s[0]));
    }
    assert(parse_usize_spec(s) == Ok::<nat, crate::chapters::IntErrorKind>(n));
    assert(piece_indices(s, max) == Ok::<Seq<usize>, ChapterSpecError>(seq![(n - 1) as usize]));
    let ps = seq![s];
    assert(ps.drop_last() =~= Seq::<Seq<char>>::empty());
    assert(pieces_indices(Seq::<Seq<char>>::empty(), max) == Ok::<Seq<usize>, ChapterSpecError>(Seq::<usize>::empty()));
    assert(ps.last() == s);
    assert(pieces_indices(ps, max) == Ok::<Seq<usize>, ChapterSpecError>(Seq::<usize>::empty() + seq![(n - 1) as usize]));
    assert(Seq::<usize>::empty() + seq![(n - 1) as usize] =~= seq![(n - 1) as usize]);
}

/// A decimal numeral is its own trimmed form and reads back as its number.
proof fn lemma_numeral_reads_back(n: nat)
    requires
        n <= usize::MAX,
    ensures
        trim(decimal_spec(n)) == decimal_spec(n),
        parse_usize_spec(decimal_spec(n)) == Ok::<nat, crate::chapters::IntErrorKind>(n),
{
    let s = decimal_spec(n);
    lemma_decimal_digits(n);
    assert(trim_start(s) == s) by {
        assert(!is_ws(s[0]));
    }
    assert(trim_end(s) == s) by {
        assert(!is_ws(s.last()));
    }
    assert(!(s[0] == '+' || s[0] == '-')) by {
        assert(is_digit(s[0]));
    }
}

/// Law: a range `s-e` of chapter numbers, with `1 <= s <= e`, selects the
/// chapters from `s` to `e` (to the last chapter when `e` is past it), as
/// zero-based indices in increasing order; none when `s` is past the last.
pub proof fn lemma_range_selects(s: nat, e: nat, max: nat)
    requires
        1 <= s <= e,
        e <= usize::MAX,
        max <= usize::MAX,
    ensures
        ({
            let last = if e <= max { e } else { max };
            chapter_indices(decimal_spec(s) + seq!['-'] + decimal_spec(e), max) == Ok::<
                Seq<usize>,
                ChapterSpecError,
            >(Seq::new(if last >= s { (last - s + 1) as nat } else { 0 }, |k: int| (s - 1 + k) as usize))
        }),
{
    let ds = decimal_spec(s);
    let de = decimal_spec(e);
    let p = ds + seq!['-'] + de;
    lemma_decimal_digits(s);
    lemma_decimal_digits(e);
    lemma_numeral_reads_back(s);
    lemma_numeral_reads_back(e);
    let k = ds.len() as int;
    assert(p[k] == '-');
    assert forall|j: int| 0 <= j < p.len() implies p[j] != ',' && (j != k ==> is_digit(#[trigger] p[j])) by {
        if j < k {
            assert(p[j] == ds[j]);
        } else if j > k {
            assert(p[j] == de[j - k - 1]);
        }
    }
    lemma_split_without_sep(p, ',');
    assert(trim_start(p) == p) by {
        assert(!is_ws(p[0])) by {
            assert(p[0] == ds[0]);
        }
    }
    assert(trim_end(p) == p) by {
        assert(p.last() == de.last());
        assert(!is_ws(p.last()));
    }
    assert(trim(p) == p);
    lemma_first_index_of(p, '-');
    assert(first_index_of(p, '-') == Some(k)) by {
        match first_index_of(p, '-') {
            Some(i) => {
                if i < k {
                    assert(is_digit(p[i]));
                }
            },
            None => {},
        }
    }
    assert(p.take(k) =~= ds);
    assert(p.skip(k + 1) =~= de);
    let last = if e <= max { e } else { max };
    assert(piece_indices(p, max) == Ok::<Seq<usize>, ChapterSpecError>(
        crate::chapters::range_indices(s, last),
    ));
    let ps = seq![p];
    assert(ps.drop_last() =~= Seq::<Seq<char>>::empty());
    assert(pieces_indices(Seq::<Seq<char>>::empty(), max) == Ok::<Seq<usize>, ChapterSpecError>(
        Seq::<usize>::empty(),
    ));
    assert(ps.last() == p);
    assert(Seq::<usize>::empty() + crate::chapters::range_indices(s, last) =~= Seq::new(
        if last >= s { (last - s + 1) as nat } else { 0 },
        |j: int| (s - 1 + j) as usize,
    ));
}

/// Law: the number that `--list` shows on a line selects, with `--chapters`,
/// the entry of that line: with a table of contents, the line of entry `i`
/// starts with the number `i + 1`, which selects entry `i`; without one,
/// the line of spine document `i` shows `i + 1`, which selects document `i`.
pub proof fn lemma_listed_line_selects_its_chapter(book: Book, i: int)
    requires
        0 <= i,
        book.toc@.len() > 0 ==> i < book.toc@.len(),
        book.toc@.len() == 0 ==> i < book.spine@.len(),
        book.toc@.len() <= usize::MAX,
        book.spine@.len() <= usize::MAX,
    ensures
        book.toc@.len() > 0 ==> {
            &&& list_lines_spec(book@)[i] == pad_left(decimal_spec((i + 1) as nat), 3) + "  "@ + book@.toc[i].0
            &&& read_indices_spec(book.toc@, book.spine@, Some(decimal_spec((i + 1) as nat)))
                == Ok::<Seq<usize>, ChapterSpecError>(resolve_spec(book.toc@, book.spine@, seq![i as usize]))
        },
        book.toc@.len() == 0 ==> {
            &&& list_lines_spec(book@)[i + 1] == spine_line(i, book@.spine[i].0, book@.spine[i].1)
            &&& read_indices_spec(book.toc@, book.spine@, Some(decimal_spec((i + 1) as nat)))
                == Ok::<Seq<usize>, ChapterSpecError>(seq![i as usize])
        },
{
    if book.toc@.len() > 0 {
        lemma_listed_number_selects((i + 1) as nat, book.toc@.len());
    } else {
        lemma_listed_number_selects((i + 1) as nat, book.spine@.len());
    }
}

/// A line `label` + `value` when the value is known.
pub open spec fn field_line(label: Seq<char>, value: Option<Seq<char>>) -> Seq<Seq<char>> {
    match value {
        Some(v) => seq![label + v],
        None => Seq::empty(),
    }
}

/// The lines that `--info` prints.
pub open spec fn info_lines_spec(b: BookModel) -> Seq<Seq<char>> {
    field_line("Title:     "@, b.metadata.title) + field_line("Author:    "@, b.metadata.author)
        + field_line("Publisher: "@, b.metadata.publisher) + field_line("Language:  "@, b.metadata.language)
        + seq!["Chapters:  "@ + decimal_spec(b.toc.len()), "Pages:     "@ + decimal_spec(b.spine.len())]
}

/// How many of the four metadata fields are known.
pub open spec fn known_fields(m: crate::book::MetadataModel) -> nat {
    (if m.title is Some { 1nat } else { 0nat }) + (if m.author is Some { 1nat } else { 0nat }) + (
    if m.publisher is Some { 1nat } else { 0nat }) + (if m.language is Some { 1nat } else { 0nat })
}

/// Law: `--info` shows each known metadata field on a line of its own, as
/// the field's label followed by its value, shows nothing else for the
/// fields, and ends with the number of chapters and the number of pages.
pub proof fn lemma_info_shows_known_fields(b: BookModel)
    ensures
        b.metadata.title is Some ==> info_lines_spec(b).contains(
            "Title:     "@ + b.metadata.title->0,
        ),
        b.metadata.author is Some ==> info_lines_spec(b).contains(
            "Author:    "@ + b.metadata.author->0,
        ),
        b.metadata.publisher is Some ==> info_lines_spec(b).contains(
            "Publisher: "@ + b.metadata.publisher->0,
        ),
        b.metadata.language is Some ==> info_lines_spec(b).contains(
            "Language:  "@ + b.metadata.language->0,
        ),
        info_lines_spec(b).len() == known_fields(b.metadata) + 2,
        info_lines_spec(b)[info_lines_spec(b).len() - 2] == "Chapters:  "@ + decimal_spec(
            b.toc.len(),
        ),
        info_lines_spec(b).last() == "Pages:     "@ + decimal_spec(b.spine.len()),
{
    let m = b.metadata;
    let l1 = field_line("Title:     "@, m.title);
    let l2 = field_line("Author:    "@, m.author);
    let l3 = field_line("Publisher: "@, m.publisher);
    let l4 = field_line("Language:  "@, m.language);
    let tail = seq!["Chapters:  "@ + decimal_spec(b.toc.len()), "Pages:     "@ + decimal_spec(b.spine.len())];
    let lines = info_lines_spec(b);
    assert(lines == l1 + l2 + l3 + l4 + tail);
    let n1 = l1.len() as int;
    let n2 = n1 + l2.len();
    let n3 = n2 + l3.len();
    let n4 = n3 + l4.len();
    assert(lines.len() == n4 + 2);
    if m.title is Some {
        assert(lines[0] == l1[0]);
    }
    if m.author is Some {
        assert(lines[n1] == l2[0]);
    }
    if m.publisher is Some {
        assert(lines[n2] == l3[0]);
    }
    if m.language is Some {
        assert(lines[n3] == l4[0]);
    }
    assert(lines[n4] == tail[0]);
    assert(lines[n4 + 1] == tail[1]);
}

/// The line that `--list` prints for spine document `i` of a book without a
/// table of contents: its number, link and size in bytes.
pub open spec fn spine_line(i: int, href: Seq<char>, content: Seq<char>) -> Seq<char> {
    "  "@ + pad_left(decimal_spec((i + 1) as nat), 3) + "  "@ + href + " ("@ + decimal_spec(
        (vstd::utf8::encode_utf8(content).len() as usize) as nat,
    ) + " bytes)"@
}

/// The line that `--list` prints for table-of-contents entry `i`: its number
/// and label.
pub open spec fn toc_line(i: int, label: Seq<char>) -> Seq<char> {
    pad_left(decimal_spec((i + 1) as nat), 3) + "  "@ + label
}

/// The lines that `--list` prints: the table of contents, numbered from 1,
/// or, without one, a header and the spine documents.
pub open spec fn list_lines_spec(b: BookModel) -> Seq<Seq<char>> {
    if b.toc.len() == 0 {
        seq!["(no TOC; "@ + decimal_spec(b.spine.len()) + " spine items)"@] + Seq::new(
            b.spine.len(),
            |i: int| spine_line(i, b.spine[i].0, b.spine[i].1),
        )
    } else {
        Seq::new(b.toc.len(), |i: int| toc_line(i, b.toc[i].0))
    }
}

/// Appends the characters of `s`.
fn push_str(out: &mut Vec<char>, s: &str)
    ensures
        final(out)@ == old(out)@ + s@,
{
    let c = chars_of(s);
    append_chars(out, c.as_slice());
}

/// Appends the decimal form of `n` right-aligned in three characters.
fn push_number3(out: &mut Vec<char>, n: usize)
    ensures
        final(out)@ == old(out)@ + pad_left(decimal_spec(n as nat), 3),
{
    let mut digits: Vec<char> = Vec::new();
    push_decimal(&mut digits, n);
    proof {
        assert(digits@ =~= decimal_spec(n as nat));
    }
    let ghost start = out@;
    let len = digits.len();
    if len < 3 {
        let pad = 3 - len;
        let mut j: usize = 0;
        while j < pad
            invariant
                j <= pad,
                pad == 3 - len,
                out@ == start + Seq::new(j as nat, |i: int| ' '),
            decreases pad - j,
        {
            out.push(' ');
            proof {
                assert(out@ =~= start + Seq::new((j + 1) as nat, |i: int| ' '));
            }
            j = j + 1;
        }
    } else {
        proof {
            assert(out@ =~= start);
        }
    }
    append_chars(out, digits.as_slice());
    proof {
        if len < 3 {
            assert(out@ =~= start + (Seq::new((3 - len) as nat, |i: int| ' ') + decimal_spec(n as nat)));
        } else {
            assert(out@ =~= start + decimal_spec(n as nat));
        }
    }
}

/// Appends `label` + `value` to the lines when the value is known.
fn push_field(lines: &mut Vec<String>, label: &str, value: &Option<String>)
    ensures
        final(lines).deep_view() == old(lines).deep_view() + field_line(label@, value.deep_view()),
{
    let ghost before = lines.deep_view();
    match value {
        Some(v) => {
            let mut out: Vec<char> = Vec::new();
            push_str(&mut out, label);
            push_str(&mut out, v.as_str());
            let line = string_of(out.as_slice());
            lines.push(line);
            proof {
                assert(lines.deep_view() =~= before + seq![label@ + v@]);
            }
        },
        None => {
            proof {
                assert(lines.deep_view() =~= before + Seq::<Seq<char>>::empty());
            }
        },
    }
}

/// The lines that `--info` prints: title, author, publisher and language
/// when known, then the number of chapters and of spine documents.
pub fn info_lines(book: &Book) -> (lines: Vec<String>)
    ensures
        lines.deep_view() == info_lines_spec(book@),
{
    let mut lines: Vec<String> = Vec::new();
    proof {
        assert(lines.deep_view() =~= Seq::<Seq<char>>::empty());
    }
    push_field(&mut lines, "Title:     ", &book.metadata.title);
    push_field(&mut lines, "Author:    ", &book.metadata.author);
    push_field(&mut lines, "Publisher: ", &book.metadata.publisher);
    push_field(&mut lines, "Language:  ", &book.metadata.language);
    let ghost before = lines.deep_view();
    let mut a: Vec<char> = Vec::new();
    push_str(&mut a, "Chapters:  ");
    push_decimal(&mut a, book.toc.len());
    lines.push(string_of(a.as_slice()));
    let mut b: Vec<char> = Vec::new();
    push_str(&mut b, "Pages:     ");
    push_decimal(&mut b, book.spine.len());
    lines.push(string_of(b.as_slice()));
    proof {
        assert(lines.deep_view() =~= before + seq![
            "Chapters:  "@ + decimal_spec(book@.toc.len()),
            "Pages:     "@ + decimal_spec(book@.spine.len()),
        ]);
        assert(lines.deep_view() =~= info_lines_spec(book@));
    }
    lines
}

/// The lines that `--list` prints: the table of contents, numbered from 1,
/// or, for a book without one, a header and the spine documents, numbered
/// from 1, with their links and sizes in bytes.
pub fn list_lines(book: &Book) -> (lines: Vec<String>)
    ensures
        lines.deep_view() == list_lines_spec(book@),
{
    let mut lines: Vec<String> = Vec::new();
    if book.toc.len() == 0 {
        let mut h: Vec<char> = Vec::new();
        push_str(&mut h, "(no TOC; ");
        push_decimal(&mut h, book.spine.len());
        push_str(&mut h, " spine items)");
        lines.push(string_of(h.as_slice()));
        let ghost head = lines.deep_view();
        let mut i: usize = 0;
        while i < book.spine.len()
            invariant
                i <= book.spine@.len(),
                head == seq!["(no TOC; "@ + decimal_spec(book@.spine.len()) + " spine items)"@],
                lines.deep_view() == head + Seq::new(
                    i as nat,
                    |j: int| spine_line(j, book@.spine[j].0, book@.spine[j].1),
                ),
            decreases book.spine@.len() - i,
        {
            let item = &book.spine[i];
            let mut l: Vec<char> = Vec::new();
            push_str(&mut l, "  ");
            push_number3(&mut l, i + 1);
            push_str(&mut l, "  ");
            push_str(&mut l, item.href.as_str());
            push_str(&mut l, " (");
            push_decimal(&mut l, item.content.as_str().len());
            push_str(&mut l, " bytes)");
            let ghost before = lines.deep_view();
            let line = string_of(l.as_slice());
            lines.push(line);
            proof {
                assert(book@.spine[i as int] == (item.href@, item.content@));
                assert(l@ =~= spine_line(i as int, book@.spine[i as int].0, book@.spine[i as int].1));
                assert(lines.deep_view() =~= before.push(l@));
                assert(lines.deep_view() =~= head + Seq::new(
                    (i + 1) as nat,
                    |j: int| spine_line(j, book@.spine[j].0, book@.spine[j].1),
                ));
            }
            i = i + 1;
        }
    } else {
        let mut i: usize = 0;
        while i < book.toc.len()
            invariant
                i <= book.toc@.len(),
                lines.deep_view() == Seq::new(i as nat, |j: int| toc_line(j, book@.toc[j].0)),
            decreases book.toc@.len() - i,
        {
            let mut l: Vec<char> = Vec::new();
            push_number3(&mut l, i + 1);
            push_str(&mut l, "  ");
            push_str(&mut l, book.toc[i].label.as_str());
            let ghost before = lines.deep_view();
            let line = string_of(l.as_slice());
            lines.push(line);
            proof {
                assert(book@.toc[i as int].0 == book.toc@[i as int].label@);
                assert(l@ =~= toc_line(i as int, book@.toc[i as int].0));
                assert(lines.deep_view() =~= before.push(l@));
                assert(lines.deep_view() =~= Seq::new((i + 1) as nat, |j: int| toc_line(j, book@.toc[j].0)));
            }
            i = i + 1;
        }
    }
    lines
}

} // verus!
