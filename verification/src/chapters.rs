//! Chapter selections (`-c 1,3,7-10`) and the base part of a link.

use vstd::prelude::*;

use crate::book::{Book, SpineItem, TocEntry};
use crate::text::{chars_eq, char_views, split_chars, trim_chars, chars_of, find_char, first_index_of, lemma_first_index_of, split_on, trim, lemma_split_at_sep};

verus! {

/// Why a decimal number did not parse (`core::num::IntErrorKind`).
#[derive(Clone, Copy, Debug, PartialEq, Eq, Structural)]
pub enum IntErrorKind {
    /// The text was empty.
    Empty,
    /// A character other than a decimal digit, or a lone sign.
    InvalidDigit,
    /// The value does not fit in `usize`.
    PosOverflow,
}

/// Why a chapter selection was refused.
#[derive(Clone, Copy, Debug, PartialEq, Eq, Structural)]
pub enum ChapterSpecError {
    /// The text before `-` of a range is not a number.
    InvalidRangeStart(IntErrorKind),
    /// The text after `-` of a range is not a number.
    InvalidRangeEnd(IntErrorKind),
    /// A chapter index of 0 (indices start at 1).
    ZeroIndex,
    /// A range whose start lies after its end.
    InvalidRange(usize, usize),
    /// A single chapter that is not a number.
    InvalidNumber(IntErrorKind),
    /// A single chapter beyond the last one: the chapter and the count.
    OutOfRange(usize, usize),
}

pub open spec fn is_digit(c: char) -> bool {
    '0' <= c <= '9'
}

pub open spec fn digit_value(c: char) -> nat {
    (c as u32 - '0' as u32) as nat
}

/// The value of a string of decimal digits, read from the left, failing at the
/// first non-digit or at the first step that leaves the range of `usize`.
pub open spec fn digits_value(ds: Seq<char>) -> Result<nat, IntErrorKind>
    decreases ds.len(),
{
    if ds.len() == 0 {
        Ok(0)
    } else {
        match digits_value(ds.drop_last()) {
            Err(e) => Err(e),
            Ok(v) => if !is_digit(ds.last()) {
                Err(IntErrorKind::InvalidDigit)
            } else if v * 10 + digit_value(ds.last()) > usize::MAX {
                Err(IntErrorKind::PosOverflow)
            } else {
                Ok(v * 10 + digit_value(ds.last()))
            },
        }
    }
}

/// `<usize as FromStr>::from_str`: an optional `+`, then decimal digits.
pub open spec fn parse_usize_spec(s: Seq<char>) -> Result<nat, IntErrorKind> {
    if s.len() == 0 {
        Err(IntErrorKind::Empty)
    } else if (s[0] == '+' || s[0] == '-') && s.len() == 1 {
        Err(IntErrorKind::InvalidDigit)
    } else if s[0] == '+' {
        digits_value(s.drop_first())
    } else {
        digits_value(s)
    }
}

/// The zero-based indices of the chapters `lo ..= hi` (one-based).
pub open spec fn range_indices(lo: nat, hi: nat) -> Seq<usize> {
    Seq::new(if hi >= lo { (hi - lo + 1) as nat } else { 0 }, |k: int| (lo - 1 + k) as usize)
}

pub open spec fn min_nat(a: nat, b: nat) -> nat {
    if a <= b { a } else { b }
}

/// The indices that one comma-separated piece of a selection stands for.
pub open spec fn piece_indices(piece: Seq<char>, max: nat) -> Result<Seq<usize>, ChapterSpecError> {
    let p = trim(piece);
    match first_index_of(p, '-') {
        Some(k) => match parse_usize_spec(trim(p.take(k))) {
            Err(e) => Err(ChapterSpecError::InvalidRangeStart(e)),
            Ok(s) => match parse_usize_spec(trim(p.skip(k + 1))) {
                Err(e) => Err(ChapterSpecError::InvalidRangeEnd(e)),
                Ok(e) => if s == 0 || e == 0 {
                    Err(ChapterSpecError::ZeroIndex)
                } else if s > e {
                    Err(ChapterSpecError::InvalidRange(s as usize, e as usize))
                } else {
                    Ok(range_indices(s, min_nat(e, max)))
                },
            },
        },
        None => match parse_usize_spec(p) {
            Err(e) => Err(ChapterSpecError::InvalidNumber(e)),
            Ok(i) => if i == 0 {
                Err(ChapterSpecError::ZeroIndex)
            } else if i > max {
                Err(ChapterSpecError::OutOfRange(i as usize, max as usize))
            } else {
                Ok(seq![(i - 1) as usize])
            },
        },
    }
}

/// The indices of all pieces, in order; the first refused piece decides the error.
pub open spec fn pieces_indices(pieces: Seq<Seq<char>>, max: nat) -> Result<Seq<usize>, ChapterSpecError>
    decreases pieces.len(),
{
    if pieces.len() == 0 {
        Ok(Seq::empty())
    } else {
        match pieces_indices(pieces.drop_last(), max) {
            Err(e) => Err(e),
            Ok(acc) => match piece_indices(pieces.last(), max) {
                Err(e) => Err(e),
                Ok(v) => Ok(acc + v),
            },
        }
    }
}

/// What a chapter selection stands for, given the number of chapters.
pub open spec fn chapter_indices(spec: Seq<char>, max: nat) -> Result<Seq<usize>, ChapterSpecError> {
    pieces_indices(split_on(spec, ','), max)
}

/// The pieces `p` followed by the pieces `q` stand for what `p` stands for
/// followed by what `q` stands for; the first error is the result.
proof fn lemma_pieces_concat(p: Seq<Seq<char>>, q: Seq<Seq<char>>, max: nat)
    ensures
        pieces_indices(p + q, max) == match pieces_indices(p, max) {
            Err(e) => Err(e),
            Ok(x) => match pieces_indices(q, max) {
                Err(e) => Err(e),
                Ok(y) => Ok(x + y),
            },
        },
    decreases q.len(),
{
    if q.len() == 0 {
        assert(p + q =~= p);
        match pieces_indices(p, max) {
            Ok(x) => {
                assert(x + Seq::<usize>::empty() =~= x);
            },
            Err(_) => {},
        }
    } else {
        lemma_pieces_concat(p, q.drop_last(), max);
        assert((p + q).drop_last() =~= p + q.drop_last());
        assert((p + q).last() == q.last());
        match pieces_indices(p, max) {
            Ok(x) => match pieces_indices(q.drop_last(), max) {
                Ok(y) => match piece_indices(q.last(), max) {
                    Ok(z) => {
                        assert(x + y + z =~= x + (y + z));
                    },
                    Err(_) => {},
                },
                Err(_) => {},
            },
            Err(_) => {},
        }
    }
}

/// Law: a selection written as two selections joined by a comma stands for
/// the chapters of the first followed by those of the second, in that order
/// and with nothing dropped or merged; when either is wrong, the first error
/// met, reading from the left, is the result.
pub proof fn lemma_selection_concat(a: Seq<char>, b: Seq<char>, max: nat)
    ensures
        chapter_indices(a + seq![','] + b, max) == match chapter_indices(a, max) {
            Err(e) => Err(e),
            Ok(x) => match chapter_indices(b, max) {
                Err(e) => Err(e),
                Ok(y) => Ok(x + y),
            },
        },
{
    lemma_split_at_sep(a, b, ',');
    lemma_pieces_concat(split_on(a, ','), split_on(b, ','), max);
}

/// The part of a link before its first `#`.
pub open spec fn href_base_spec(href: Seq<char>) -> Seq<char> {
    match first_index_of(href, '#') {
        Some(k) => href.take(k),
        None => href,
    }
}

/// Law: the base part of a link holds no `#` and is a prefix of the link, so
/// taking the base part again changes nothing.
pub proof fn lemma_href_base_idempotent(href: Seq<char>)
    ensures
        href_base_spec(href).len() <= href.len(),
        href_base_spec(href) == href.take(href_base_spec(href).len() as int),
        forall|k: int| 0 <= k < href_base_spec(href).len() ==> href_base_spec(href)[k] != '#',
        href_base_spec(href_base_spec(href)) == href_base_spec(href),
{
    lemma_first_index_of(href, '#');
    let b = href_base_spec(href);
    match first_index_of(href, '#') {
        Some(k) => {
            assert(href.take(k).len() == k);
        },
        None => {
            assert(href.take(href.len() as int) =~= href);
        },
    }
    assert forall|k: int| 0 <= k < b.len() implies b[k] != '#' by {
        assert(b[k] == href[k]);
    }
    lemma_first_index_of(b, '#');
    assert(first_index_of(b, '#') is None);
}

/// Executable `parse_usize_spec`.
pub fn parse_usize(s: &[char]) -> (r: Result<usize, IntErrorKind>)
    ensures
        match r {
            Ok(v) => parse_usize_spec(s@) == Ok::<nat, IntErrorKind>(v as nat),
            Err(e) => parse_usize_spec(s@) == Err::<nat, IntErrorKind>(e),
        },
{
    let n = s.len();
    if n == 0 {
        return Err(IntErrorKind::Empty);
    }
    if (s[0] == '+' || s[0] == '-') && n == 1 {
        return Err(IntErrorKind::InvalidDigit);
    }
    let start: usize = if s[0] == '+' { 1 } else { 0 };
    let ghost ds = s@.skip(start as int);
    proof {
        if start == 1 {
            assert(ds =~= s@.drop_first());
        } else {
            assert(ds =~= s@);
        }
        assert(parse_usize_spec(s@) == digits_value(ds));
        assert(ds.take(0) =~= Seq::<char>::empty());
    }
    let mut v: usize = 0;
    let mut i: usize = start;
    while i < n
        invariant
            start <= i <= n,
            n == s@.len(),
            ds == s@.skip(start as int),
            parse_usize_spec(s@) == digits_value(ds),
            digits_value(ds.take(i - start)) == Ok::<nat, IntErrorKind>(v as nat),
        decreases n - i,
    {
        let c = s[i];
        proof {
            assert(ds.take(i - start + 1).drop_last() =~= ds.take(i - start));
            assert(ds.take(i - start + 1).last() == c);
        }
        if !('0' <= c && c <= '9') {
            proof {
                lemma_digits_value_error_stays(ds, i - start + 1);
            }
            return Err(IntErrorKind::InvalidDigit);
        }
        let d = (c as u32 - '0' as u32) as usize;
        if v > (usize::MAX - d) / 10 {
            proof {
                assert(v * 10 + d > usize::MAX) by (nonlinear_arith)
                    requires
                        v > (usize::MAX - d) / 10,
                        d <= 9,
                ;
                lemma_digits_value_error_stays(ds, i - start + 1);
            }
            return Err(IntErrorKind::PosOverflow);
        }
        proof {
            assert(v * 10 + d <= usize::MAX) by (nonlinear_arith)
                requires
                    v <= (usize::MAX - d) / 10,
                    d <= 9,
            ;
        }
        v = v * 10 + d;
        i = i + 1;
    }
    proof {
        assert(ds.take(n - start) =~= ds);
        if start == 1 {
            assert(ds =~= s@.drop_first());
        } else {
            assert(ds =~= s@);
        }
    }
    Ok(v)
}

/// Once a prefix of the digits fails, the whole fails the same way.
pub proof fn lemma_digits_value_error_stays(ds: Seq<char>, k: int)
    requires
        0 <= k <= ds.len(),
        digits_value(ds.take(k)) is Err,
    ensures
        digits_value(ds) == digits_value(ds.take(k)),
    decreases ds.len(),
{
    if k < ds.len() {
        assert(ds.drop_last().take(k) =~= ds.take(k));
        lemma_digits_value_error_stays(ds.drop_last(), k);
    } else {
        assert(ds.take(k) =~= ds);
    }
}

/// Once the pieces up to `k` are refused, the whole selection is refused the same way.
pub proof fn lemma_pieces_error_stays(pieces: Seq<Seq<char>>, k: int, max: nat)
    requires
        0 <= k <= pieces.len(),
        pieces_indices(pieces.take(k), max) is Err,
    ensures
        pieces_indices(pieces, max) == pieces_indices(pieces.take(k), max),
    decreases pieces.len(),
{
    if k < pieces.len() {
        assert(pieces.drop_last().take(k) =~= pieces.take(k));
        lemma_pieces_error_stays(pieces.drop_last(), k, max);
    } else {
        assert(pieces.take(k) =~= pieces);
    }
}

/// A copy of `s[from..to]`.
fn copy_range(s: &[char], from: usize, to: usize) -> (out: Vec<char>)
    requires
        from <= to <= s@.len(),
    ensures
        out@ == s@.subrange(from as int, to as int),
{
    let mut out: Vec<char> = Vec::new();
    let mut k: usize = from;
    while k < to
        invariant
            from <= k <= to <= s@.len(),
            out@ == s@.subrange(from as int, k as int),
        decreases to - k,
    {
        out.push(s[k]);
        proof {
            assert(out@ =~= s@.subrange(from as int, k + 1));
        }
        k = k + 1;
    }
    out
}

/// Appends the indices that one piece stands for.
fn piece_into(piece: &[char], max: usize, out: &mut Vec<usize>) -> (r: Result<(), ChapterSpecError>)
    ensures
        match piece_indices(piece@, max as nat) {
            Ok(v) => r is Ok && final(out)@ == old(out)@ + v,
            Err(e) => r == Err::<(), ChapterSpecError>(e),
        },
{
    let p = trim_chars(piece);
    match find_char(p.as_slice(), '-') {
        Some(k) => {
            proof {
                lemma_first_index_of(p@, '-');
            }
            let left = copy_range(p.as_slice(), 0, k);
            let right = copy_range(p.as_slice(), k + 1, p.len());
            proof {
                assert(left@ =~= p@.take(k as int));
                assert(right@ =~= p@.skip(k + 1));
            }
            let s = match parse_usize(trim_chars(left.as_slice()).as_slice()) {
                Ok(v) => v,
                Err(e) => {
                    return Err(ChapterSpecError::InvalidRangeStart(e));
                },
            };
            let e = match parse_usize(trim_chars(right.as_slice()).as_slice()) {
                Ok(v) => v,
                Err(e) => {
                    return Err(ChapterSpecError::InvalidRangeEnd(e));
                },
            };
            if s == 0 || e == 0 {
                return Err(ChapterSpecError::ZeroIndex);
            }
            if s > e {
                return Err(ChapterSpecError::InvalidRange(s, e));
            }
            let hi = if e <= max { e } else { max };
            let ghost start = out@;
            if hi >= s {
                let mut i: usize = s;
                loop
                    invariant_except_break
                        1 <= s <= i <= hi,
                        out@ == start + range_indices(s as nat, (i - 1) as nat),
                    ensures
                        out@ == start + range_indices(s as nat, hi as nat),
                    decreases hi - i,
                {
                    out.push(i - 1);
                    proof {
                        assert(out@ =~= start + range_indices(s as nat, i as nat));
                    }
                    if i == hi {
                        break;
                    }
                    i = i + 1;
                }
                proof {
                    assert(range_indices(s as nat, hi as nat) == range_indices(s as nat, min_nat(e as nat, max as nat)));
                }
            } else {
                proof {
                    assert(out@ =~= start + range_indices(s as nat, min_nat(e as nat, max as nat)));
                }
            }
            Ok(())
        },
        None => {
            proof {
                lemma_first_index_of(p@, '-');
            }
            let i = match parse_usize(p.as_slice()) {
                Ok(v) => v,
                Err(e) => {
                    return Err(ChapterSpecError::InvalidNumber(e));
                },
            };
            if i == 0 {
                return Err(ChapterSpecError::ZeroIndex);
            }
            if i > max {
                return Err(ChapterSpecError::OutOfRange(i, max));
            }
            out.push(i - 1);
            Ok(())
        },
    }
}

/// The zero-based chapter indices that a selection such as `1,3,7-10` stands
/// for, out of `max` chapters. A range is cut at `max`; a single chapter
/// beyond `max` is refused.
pub fn parse_chapter_spec(spec: &str, max: usize) -> (r: Result<Vec<usize>, ChapterSpecError>)
    ensures
        match r {
            Ok(v) => chapter_indices(spec@, max as nat) == Ok::<Seq<usize>, ChapterSpecError>(v@),
            Err(e) => chapter_indices(spec@, max as nat) == Err::<Seq<usize>, ChapterSpecError>(e),
        },
{
    let cs = chars_of(spec);
    let pieces = split_chars(cs.as_slice(), ',');
    let ghost ps = char_views(pieces@);
    let mut out: Vec<usize> = Vec::new();
    let mut k: usize = 0;
    proof {
        assert(ps.take(0) =~= Seq::<Seq<char>>::empty());
    }
    while k < pieces.len()
        invariant
            k <= pieces@.len(),
            ps == char_views(pieces@),
            ps == split_on(spec@, ','),
            pieces_indices(ps.take(k as int), max as nat) == Ok::<Seq<usize>, ChapterSpecError>(out@),
        decreases pieces@.len() - k,
    {
        proof {
            assert(ps.take(k + 1).drop_last() =~= ps.take(k as int));
            assert(ps.take(k + 1).last() == pieces@[k as int]@);
        }
        match piece_into(pieces[k].as_slice(), max, &mut out) {
            Ok(()) => {},
            Err(e) => {
                proof {
                    lemma_pieces_error_stays(ps, k + 1, max as nat);
                }
                return Err(e);
            },
        }
        k = k + 1;
    }
    proof {
        assert(ps.take(pieces@.len() as int) =~= ps);
    }
    Ok(out)
}

proof fn lemma_piece_below(piece: Seq<char>, max: nat)
    ensures
        piece_indices(piece, max) matches Ok(v) ==> forall|k: int| 0 <= k < v.len() ==> v[k] < max,
{
}

/// Law: every index that a selection stands for names one of the `max`
/// chapters.
pub proof fn lemma_chapter_indices_below(spec: Seq<char>, max: nat)
    ensures
        chapter_indices(spec, max) matches Ok(v) ==> forall|k: int| 0 <= k < v.len() ==> v[k] < max,
{
    lemma_pieces_below(split_on(spec, ','), max);
}

proof fn lemma_pieces_below(pieces: Seq<Seq<char>>, max: nat)
    ensures
        pieces_indices(pieces, max) matches Ok(v) ==> forall|k: int| 0 <= k < v.len() ==> v[k] < max,
    decreases pieces.len(),
{
    if pieces.len() > 0 {
        lemma_pieces_below(pieces.drop_last(), max);
        lemma_piece_below(pieces.last(), max);
        if let Ok(v) = pieces_indices(pieces, max) {
            let acc = pieces_indices(pieces.drop_last(), max)->Ok_0;
            let w = piece_indices(pieces.last(), max)->Ok_0;
            assert(v == acc + w);
            assert forall|k: int| 0 <= k < v.len() implies v[k] < max by {
                if k < acc.len() {
                    assert(v[k] == acc[k]);
                } else {
                    assert(v[k] == w[k - acc.len()]);
                }
            }
        }
    }
}

/// The part of `href` before its first `#` (all of it when there is none).
pub fn href_base(href: &str) -> (base: &str)
    ensures
        base@ == href_base_spec(href@),
{
    let cs = chars_of(href);
    match find_char(cs.as_slice(), '#') {
        Some(k) => {
            proof {
                lemma_first_index_of(href@, '#');
            }
            href.substring_char(0, k)
        },
        None => href,
    }
}

/// The index of the first spine document whose link, without its fragment,
/// is `base`.
pub open spec fn first_spine_match(spine: Seq<SpineItem>, base: Seq<char>) -> Option<int>
    decreases spine.len(),
{
    if spine.len() == 0 {
        None
    } else {
        match first_spine_match(spine.drop_last(), base) {
            Some(i) => Some(i),
            None => if href_base_spec(spine.last().href@) == base {
                Some(spine.len() - 1)
            } else {
                None
            },
        }
    }
}

/// `acc` followed by those of `lo .. hi` that it does not hold yet, in order.
pub open spec fn add_new(acc: Seq<usize>, lo: int, hi: int) -> Seq<usize>
    decreases hi - lo,
{
    if lo >= hi {
        acc
    } else {
        let next = if acc.contains(lo as usize) { acc } else { acc.push(lo as usize) };
        add_new(next, lo + 1, hi)
    }
}

/// The spine documents that table-of-contents entry `ti` covers: from the
/// first document of its link up to, not including, the first document of the
/// next entry's link; just the first one when the next entry is not found or
/// its document does not come after (two entries in one document).
pub open spec fn toc_span(toc: Seq<TocEntry>, spine: Seq<SpineItem>, ti: int) -> Option<(int, int)> {
    match first_spine_match(spine, href_base_spec(toc[ti].href@)) {
        None => None,
        Some(start) => {
            let end = if ti + 1 < toc.len() {
                first_spine_match(spine, href_base_spec(toc[ti + 1].href@))
            } else {
                None
            };
            Some((start, match end {
                Some(e) => if e > start { e } else { start + 1 },
                None => start + 1,
            }))
        },
    }
}

/// The spine indices that the table-of-contents indices `tis` cover, each once,
/// in the order in which they are first reached.
pub open spec fn resolve_spec(toc: Seq<TocEntry>, spine: Seq<SpineItem>, tis: Seq<usize>) -> Seq<usize>
    decreases tis.len(),
{
    if tis.len() == 0 {
        Seq::empty()
    } else {
        let acc = resolve_spec(toc, spine, tis.drop_last());
        match toc_span(toc, spine, tis.last() as int) {
            None => acc,
            Some((start, end)) => add_new(acc, start, end),
        }
    }
}

pub proof fn lemma_first_spine_match(spine: Seq<SpineItem>, base: Seq<char>)
    ensures
        match first_spine_match(spine, base) {
            Some(i) => 0 <= i < spine.len() && href_base_spec(spine[i].href@) == base,
            None => true,
        },
    decreases spine.len(),
{
    if spine.len() > 0 {
        lemma_first_spine_match(spine.drop_last(), base);
    }
}

proof fn lemma_first_spine_match_prefix(spine: Seq<SpineItem>, k: int, base: Seq<char>)
    requires
        0 <= k <= spine.len(),
        first_spine_match(spine.take(k), base) is Some,
    ensures
        first_spine_match(spine, base) == first_spine_match(spine.take(k), base),
    decreases spine.len(),
{
    if k < spine.len() {
        assert(spine.drop_last().take(k) =~= spine.take(k));
        lemma_first_spine_match_prefix(spine.drop_last(), k, base);
    } else {
        assert(spine.take(k) =~= spine);
    }
}

/// Adding new indices below `bound` to a duplicate-free sequence of indices
/// below `bound` keeps it so, and keeps what was there.
pub proof fn lemma_add_new(acc: Seq<usize>, lo: int, hi: int, bound: int)
    requires
        acc.no_duplicates(),
        forall|k: int| 0 <= k < acc.len() ==> acc[k] < bound,
        0 <= lo,
        hi <= bound,
        bound <= usize::MAX + 1,
    ensures
        add_new(acc, lo, hi).no_duplicates(),
        forall|k: int| 0 <= k < add_new(acc, lo, hi).len() ==> add_new(acc, lo, hi)[k] < bound,
        add_new(acc, lo, hi).len() >= acc.len(),
        forall|k: int| 0 <= k < acc.len() ==> add_new(acc, lo, hi)[k] == acc[k],
    decreases hi - lo,
{
    if lo < hi {
        let next = if acc.contains(lo as usize) { acc } else { acc.push(lo as usize) };
        assert forall|k: int| 0 <= k < acc.len() implies next[k] == acc[k] by {}
        assert forall|k: int| 0 <= k < next.len() implies next[k] < bound by {}
        lemma_add_new(next, lo + 1, hi, bound);
    }
}

/// Law: whatever the table-of-contents indices, the resolved spine indices
/// hold no index twice and each names a spine document.
pub proof fn lemma_resolve_distinct_in_range(toc: Seq<TocEntry>, spine: Seq<SpineItem>, tis: Seq<usize>)
    requires
        spine.len() <= usize::MAX,
        forall|k: int| 0 <= k < tis.len() ==> tis[k] < toc.len(),
    ensures
        resolve_spec(toc, spine, tis).no_duplicates(),
        forall|k: int|
            0 <= k < resolve_spec(toc, spine, tis).len() ==> resolve_spec(toc, spine, tis)[k]
                < spine.len(),
    decreases tis.len(),
{
    if tis.len() > 0 {
        lemma_resolve_distinct_in_range(toc, spine, tis.drop_last());
        let ti = tis.last() as int;
        lemma_first_spine_match(spine, href_base_spec(toc[ti].href@));
        if ti + 1 < toc.len() {
            lemma_first_spine_match(spine, href_base_spec(toc[ti + 1].href@));
        }
        match toc_span(toc, spine, ti) {
            None => {},
            Some((start, end)) => {
                lemma_add_new(resolve_spec(toc, spine, tis.drop_last()), start, end, spine.len() as int);
            },
        }
    }
}

/// What `add_new` keeps and adds: it extends `acc`, holds exactly what `acc`
/// or `lo .. hi` holds, and leaves `acc` as it is when `acc` already holds
/// all of `lo .. hi`.
proof fn lemma_add_new_extends(acc: Seq<usize>, lo: int, hi: int)
    requires
        0 <= lo,
        hi <= usize::MAX + 1,
    ensures
        add_new(acc, lo, hi).len() >= acc.len(),
        add_new(acc, lo, hi).subrange(0, acc.len() as int) == acc,
        forall|x: usize| #[trigger]
            add_new(acc, lo, hi).contains(x) <==> (acc.contains(x) || (lo <= x < hi)),
        (forall|x: usize| lo <= x < hi ==> #[trigger] acc.contains(x)) ==> add_new(acc, lo, hi)
            == acc,
    decreases hi - lo,
{
    if lo < hi {
        let v = lo as usize;
        let next = if acc.contains(v) { acc } else { acc.push(v) };
        lemma_add_new_extends(next, lo + 1, hi);
        let r = add_new(acc, lo, hi);
        assert(next.subrange(0, acc.len() as int) =~= acc);
        assert(r.subrange(0, acc.len() as int) =~= acc) by {
            assert forall|k: int| 0 <= k < acc.len() implies r.subrange(0, acc.len() as int)[k]
                == acc[k] by {
                assert(r[k] == r.subrange(0, next.len() as int)[k]);
                assert(next[k] == acc[k]);
            }
        }
        assert forall|x: usize| #[trigger] next.contains(x) <==> (acc.contains(x) || x == v) by {
            if !acc.contains(v) {
                if next.contains(x) {
                    let k = choose|k: int| 0 <= k < next.len() && next[k] == x;
                    if k < acc.len() {
                        assert(acc[k] == x);
                    }
                }
                if acc.contains(x) {
                    let k = choose|k: int| 0 <= k < acc.len() && acc[k] == x;
                    assert(next[k] == x);
                }
                if x == v {
                    assert(next[acc.len() as int] == x);
                }
            }
        }
        if forall|x: usize| lo <= x < hi ==> #[trigger] acc.contains(x) {
            assert(acc.contains(v));
        }
    }
}

/// Whether table-of-contents entry `ti` covers spine document `x`.
pub open spec fn covers(toc: Seq<TocEntry>, spine: Seq<SpineItem>, ti: int, x: int) -> bool {
    match toc_span(toc, spine, ti) {
        Some((start, end)) => start <= x < end,
        None => false,
    }
}

/// What resolving one more entry does: it extends the result so far with
/// the documents of the entry's span that are new.
proof fn lemma_resolve_step(toc: Seq<TocEntry>, spine: Seq<SpineItem>, tis: Seq<usize>)
    requires
        tis.len() > 0,
        spine.len() <= usize::MAX,
    ensures
        ({
            let r = resolve_spec(toc, spine, tis);
            let p = resolve_spec(toc, spine, tis.drop_last());
            &&& r.len() >= p.len()
            &&& r.subrange(0, p.len() as int) == p
            &&& forall|x: usize| #[trigger]
                r.contains(x) <==> (p.contains(x) || covers(toc, spine, tis.last() as int, x as int))
            &&& (forall|x: usize|
                covers(toc, spine, tis.last() as int, x as int) ==> #[trigger] p.contains(x)) ==> r
                == p
        }),
{
    let ti = tis.last() as int;
    let p = resolve_spec(toc, spine, tis.drop_last());
    lemma_first_spine_match(spine, href_base_spec(toc[ti].href@));
    if ti + 1 < toc.len() {
        lemma_first_spine_match(spine, href_base_spec(toc[ti + 1].href@));
    }
    match toc_span(toc, spine, ti) {
        None => {
            assert(p.subrange(0, p.len() as int) =~= p);
        },
        Some((start, end)) => {
            lemma_add_new_extends(p, start, end);
        },
    }
}

/// Law: resolving the selection `a` followed by `b` gives the documents of
/// `a`, in the same order, followed by the new ones of `b`: the result begins
/// with that of `a`, holds exactly the documents of `a` or of `b`, and is that
/// of `a` when `b` adds no document to it.
pub proof fn lemma_resolve_concat(
    toc: Seq<TocEntry>,
    spine: Seq<SpineItem>,
    a: Seq<usize>,
    b: Seq<usize>,
)
    requires
        spine.len() <= usize::MAX,
        forall|k: int| 0 <= k < a.len() ==> a[k] < toc.len(),
        forall|k: int| 0 <= k < b.len() ==> b[k] < toc.len(),
    ensures
        resolve_spec(toc, spine, a + b).len() >= resolve_spec(toc, spine, a).len(),
        resolve_spec(toc, spine, a + b).subrange(0, resolve_spec(toc, spine, a).len() as int)
            == resolve_spec(toc, spine, a),
        forall|x: usize| #[trigger]
            resolve_spec(toc, spine, a + b).contains(x) <==> (resolve_spec(toc, spine, a).contains(
                x,
            ) || resolve_spec(toc, spine, b).contains(x)),
        (forall|x: usize| #[trigger]
            resolve_spec(toc, spine, b).contains(x) ==> resolve_spec(toc, spine, a).contains(x))
            ==> resolve_spec(toc, spine, a + b) == resolve_spec(toc, spine, a),
    decreases b.len(),
{
    let ra = resolve_spec(toc, spine, a);
    if b.len() == 0 {
        assert(a + b =~= a);
        assert(ra.subrange(0, ra.len() as int) =~= ra);
    } else {
        let b2 = b.drop_last();
        lemma_resolve_concat(toc, spine, a, b2);
        assert((a + b).drop_last() =~= a + b2);
        assert((a + b).last() == b.last());
        lemma_resolve_step(toc, spine, a + b);
        lemma_resolve_step(toc, spine, b);
        let r = resolve_spec(toc, spine, a + b);
        let r2 = resolve_spec(toc, spine, a + b2);
        assert(r.subrange(0, ra.len() as int) =~= ra) by {
            assert forall|k: int| 0 <= k < ra.len() implies r.subrange(0, ra.len() as int)[k]
                == ra[k] by {
                assert(r[k] == r.subrange(0, r2.len() as int)[k]);
                assert(r2[k] == r2.subrange(0, ra.len() as int)[k]);
            }
        }
        if forall|x: usize| #[trigger]
            resolve_spec(toc, spine, b).contains(x) ==> ra.contains(x) {
            let rb2 = resolve_spec(toc, spine, b2);
            assert forall|x: usize| #[trigger] rb2.contains(x) implies ra.contains(x) by {
                assert(resolve_spec(toc, spine, b).contains(x));
            }
            assert(r2 == ra);
            assert forall|x: usize|
                covers(toc, spine, b.last() as int, x as int) implies #[trigger] r2.contains(x) by {
                assert(resolve_spec(toc, spine, b).contains(x));
            }
        }
    }
}

/// Law: selecting the same entries twice over resolves as selecting them once.
pub proof fn lemma_resolve_repeat(toc: Seq<TocEntry>, spine: Seq<SpineItem>, a: Seq<usize>)
    requires
        spine.len() <= usize::MAX,
        forall|k: int| 0 <= k < a.len() ==> a[k] < toc.len(),
    ensures
        resolve_spec(toc, spine, a + a) == resolve_spec(toc, spine, a),
{
    lemma_resolve_concat(toc, spine, a, a);
}

/// The indices `lo .. hi`, in order.
pub open spec fn index_range(lo: int, hi: int) -> Seq<usize> {
    Seq::new(if hi > lo { (hi - lo) as nat } else { 0 }, |k: int| (lo + k) as usize)
}

/// Adding `lo .. hi` to indices all below `lo` appends them in order.
proof fn lemma_add_new_above(acc: Seq<usize>, lo: int, hi: int)
    requires
        0 <= lo,
        hi <= usize::MAX + 1,
        forall|k: int| 0 <= k < acc.len() ==> acc[k] < lo,
    ensures
        add_new(acc, lo, hi) == acc + index_range(lo, hi),
    decreases hi - lo,
{
    if lo >= hi {
        assert(acc + index_range(lo, hi) =~= acc);
    } else {
        assert(!acc.contains(lo as usize));
        let next = acc.push(lo as usize);
        lemma_add_new_above(next, lo + 1, hi);
        assert(next + index_range(lo + 1, hi) =~= acc + index_range(lo, hi));
    }
}

/// Law: a single table-of-contents entry resolves to the spine documents
/// from the first one whose link (without fragment) is the entry's, up to,
/// not including, the first one of the next entry's link, all of them, in
/// order; to that first document alone when the next entry is the last, is
/// not found, or is not after it; and to nothing when the entry's document
/// is not in the spine.
pub proof fn lemma_entry_span(toc: Seq<TocEntry>, spine: Seq<SpineItem>, ti: usize)
    requires
        ti < toc.len(),
        spine.len() <= usize::MAX,
    ensures
        ({
            let r = resolve_spec(toc, spine, seq![ti]);
            let next = if ti + 1 < toc.len() {
                first_spine_match(spine, href_base_spec(toc[ti + 1].href@))
            } else {
                None
            };
            match first_spine_match(spine, href_base_spec(toc[ti as int].href@)) {
                None => r.len() == 0,
                Some(s) => match next {
                    Some(e) => if e > s {
                        r == index_range(s, e)
                    } else {
                        r == seq![s as usize]
                    },
                    None => r == seq![s as usize],
                },
            }
        }),
{
    let tis = seq![ti];
    assert(tis.drop_last() =~= Seq::<usize>::empty());
    assert(tis.last() == ti);
    assert(resolve_spec(toc, spine, Seq::<usize>::empty()) == Seq::<usize>::empty());
    assert(resolve_spec(toc, spine, tis) == match toc_span(toc, spine, ti as int) {
        None => Seq::<usize>::empty(),
        Some((start, end)) => add_new(Seq::<usize>::empty(), start, end),
    });
    lemma_first_spine_match(spine, href_base_spec(toc[ti as int].href@));
    if ti + 1 < toc.len() {
        lemma_first_spine_match(spine, href_base_spec(toc[ti + 1].href@));
    }
    match toc_span(toc, spine, ti as int) {
        None => {},
        Some((start, end)) => {
            lemma_add_new_above(Seq::<usize>::empty(), start, end);
            assert(Seq::<usize>::empty() + index_range(start, end) =~= index_range(start, end));
            if end == start + 1 {
                assert(index_range(start, end) =~= seq![start as usize]);
            }
        },
    }
}

/// Law: a selection resolves to every document that one of its entries
/// covers, and to no other.
pub proof fn lemma_selection_covers(toc: Seq<TocEntry>, spine: Seq<SpineItem>, tis: Seq<usize>, x: usize)
    requires
        spine.len() <= usize::MAX,
    ensures
        resolve_spec(toc, spine, tis).contains(x) <==> exists|k: int|
            0 <= k < tis.len() && #[trigger] covers(toc, spine, tis[k] as int, x as int),
    decreases tis.len(),
{
    if tis.len() > 0 {
        let p = tis.drop_last();
        lemma_selection_covers(toc, spine, p, x);
        lemma_resolve_step(toc, spine, tis);
        if resolve_spec(toc, spine, tis).contains(x) {
            if resolve_spec(toc, spine, p).contains(x) {
                let k = choose|k: int| 0 <= k < p.len() && #[trigger] covers(toc, spine, p[k] as int, x as int);
                assert(tis[k] == p[k]);
            } else {
                assert(covers(toc, spine, tis[tis.len() - 1] as int, x as int));
            }
        }
        if exists|k: int| 0 <= k < tis.len() && #[trigger] covers(toc, spine, tis[k] as int, x as int) {
            let k = choose|k: int| 0 <= k < tis.len() && #[trigger] covers(toc, spine, tis[k] as int, x as int);
            if k < p.len() {
                assert(p[k] == tis[k]);
            }
        }
    }
}

/// The first spine document whose link, without fragment, is `base`.
fn spine_position(spine: &Vec<SpineItem>, base: &[char]) -> (r: Option<usize>)
    ensures
        match r {
            Some(i) => first_spine_match(spine@, base@) == Some(i as int),
            None => first_spine_match(spine@, base@) is None,
        },
{
    let n = spine.len();
    let mut i: usize = 0;
    while i < n
        invariant
            i <= n,
            n == spine@.len(),
            first_spine_match(spine@.take(i as int), base@) is None,
        decreases n - i,
    {
        proof {
            assert(spine@.take(i + 1).drop_last() =~= spine@.take(i as int));
            assert(spine@.take(i + 1).last() == spine@[i as int]);
        }
        let b = href_base(spine[i].href.as_str());
        let bc = chars_of(b);
        if chars_eq(bc.as_slice(), base) {
            proof {
                lemma_first_spine_match_prefix(spine@, i + 1, base@);
            }
            return Some(i);
        }
        i = i + 1;
    }
    proof {
        assert(spine@.take(n as int) =~= spine@);
    }
    None
}

/// Whether `v` holds `x`.
fn holds(v: &Vec<usize>, x: usize) -> (r: bool)
    ensures
        r == v@.contains(x),
{
    let mut k: usize = 0;
    while k < v.len()
        invariant
            k <= v@.len(),
            forall|j: int| 0 <= j < k ==> v@[j] != x,
        decreases v@.len() - k,
    {
        if v[k] == x {
            return true;
        }
        k = k + 1;
    }
    false
}

/// The spine indices that the given table-of-contents entries cover, each
/// once, in the order in which they are first reached.
pub fn resolve_toc_to_spine(book: &Book, toc_indices: &[usize]) -> (r: Vec<usize>)
    requires
        forall|k: int| 0 <= k < toc_indices@.len() ==> toc_indices@[k] < book.toc@.len(),
    ensures
        r@ == resolve_spec(book.toc@, book.spine@, toc_indices@),
        r@.no_duplicates(),
        forall|k: int| 0 <= k < r@.len() ==> r@[k] < book.spine@.len(),
{
    let spine_len = book.spine.len();
    let toc_len = book.toc.len();
    let mut out: Vec<usize> = Vec::new();
    let mut j: usize = 0;
    proof {
        assert(toc_indices@.take(0) =~= Seq::<usize>::empty());
    }
    while j < toc_indices.len()
        invariant
            j <= toc_indices@.len(),
            spine_len == book.spine@.len(),
            toc_len == book.toc@.len(),
            forall|k: int| 0 <= k < toc_indices@.len() ==> toc_indices@[k] < book.toc@.len(),
            out@ == resolve_spec(book.toc@, book.spine@, toc_indices@.take(j as int)),
        decreases toc_indices@.len() - j,
    {
        let ti = toc_indices[j];
        proof {
            assert(toc_indices@.take(j + 1).drop_last() =~= toc_indices@.take(j as int));
            assert(toc_indices@.take(j + 1).last() == ti);
            lemma_resolve_distinct_in_range(book.toc@, book.spine@, toc_indices@.take(j as int));
        }
        let base = chars_of(href_base(book.toc[ti].href.as_str()));
        let start = spine_position(&book.spine, base.as_slice());
        let end = if ti + 1 < toc_len {
            let next = chars_of(href_base(book.toc[ti + 1].href.as_str()));
            spine_position(&book.spine, next.as_slice())
        } else {
            None
        };
        if let Some(start) = start {
            proof {
                lemma_first_spine_match(book.spine@, base@);
                if ti + 1 < book.toc@.len() {
                    lemma_first_spine_match(book.spine@, href_base_spec(book.toc@[ti + 1].href@));
                }
            }
            let end = match end {
                Some(e) => if e > start { e } else { start + 1 },
                None => start + 1,
            };
            let mut i = start;
            while i < end
                invariant
                    start <= i,
                    end <= book.spine@.len() || i >= end,
                    add_new(out@, i as int, end as int) == add_new(
                        resolve_spec(book.toc@, book.spine@, toc_indices@.take(j as int)),
                        start as int,
                        end as int,
                    ),
                decreases end - i,
            {
                if !holds(&out, i) {
                    out.push(i);
                }
                i = i + 1;
            }
        }
        j = j + 1;
    }
    proof {
        assert(toc_indices@.take(toc_indices@.len() as int) =~= toc_indices@);
        lemma_resolve_distinct_in_range(book.toc@, book.spine@, toc_indices@);
    }
    out
}

} // verus!
