//! Plain text from an XHTML document.

use vstd::prelude::*;

use crate::text::{
    append_chars, lemma_split_append, lemma_split_pieces, lemma_split_without_sep,
    lemma_trim_props, lemma_split_on_nonempty,
    char_views, chars_of, is_control, is_ctrl, join_with, split_chars, split_on, string_of, text_is,
    trim, trim_chars,
};
use crate::xml::{
    event_views, read_events, text_of, text_spec, xml_events_of, EventModel, XmlEvent,
};

verus! {

/// Tags whose text is left out.
pub open spec fn is_hidden_tag(n: Seq<char>) -> bool {
    n == "script"@ || n == "style"@ || n == "head"@
}

/// Tags that end a line when they close.
pub open spec fn is_block_end_tag(n: Seq<char>) -> bool {
    ||| n == "p"@
    ||| n == "div"@
    ||| n == "li"@
    ||| n == "h1"@
    ||| n == "h2"@
    ||| n == "h3"@
    ||| n == "h4"@
    ||| n == "h5"@
    ||| n == "h6"@
    ||| n == "blockquote"@
    ||| n == "tr"@
}

/// Tags that start a new line when they open.
pub open spec fn is_block_start_tag(n: Seq<char>) -> bool {
    is_block_end_tag(n) || n == "br"@
}

/// `s` with each control character turned into a space, so that the words
/// on either side of a line break or a tab stay apart.
pub open spec fn ctrl_to_space(s: Seq<char>) -> Seq<char> {
    s.map_values(|c: char| if is_ctrl(c) { ' ' } else { c })
}

/// `t` ends with a line break.
pub open spec fn ends_with_nl(t: Seq<char>) -> bool {
    t.len() > 0 && t.last() == '\n'
}

/// The state of extracting text: the text so far, and whether the reader is
/// inside a hidden element.
pub struct HtmlModel {
    pub text: Seq<char>,
    pub hidden: bool,
}

/// What one event, other than the end of input or an error, does to the state.
pub open spec fn html_step(st: HtmlModel, ev: EventModel) -> HtmlModel {
    match ev {
        EventModel::Start(n, _) => if is_hidden_tag(n) {
            HtmlModel { hidden: true, ..st }
        } else if is_block_start_tag(n) && st.text.len() > 0 && !ends_with_nl(st.text) {
            HtmlModel { text: st.text.push('\n'), ..st }
        } else {
            st
        },
        EventModel::End(n) => if is_hidden_tag(n) {
            HtmlModel { hidden: false, ..st }
        } else if is_block_end_tag(n) && !ends_with_nl(st.text) {
            HtmlModel { text: st.text.push('\n'), ..st }
        } else {
            st
        },
        EventModel::Text(raw) => {
            let t = trim(ctrl_to_space(text_spec(raw)));
            if st.hidden || t.len() == 0 {
                st
            } else if st.text.len() > 0 && st.text.last() != '\n' && st.text.last() != ' ' {
                HtmlModel { text: st.text.push(' ') + t, ..st }
            } else {
                HtmlModel { text: st.text + t, ..st }
            }
        },
        _ => st,
    }
}

/// Reading the events from state `st` on, up to the end of input or an error.
pub open spec fn html_run(st: HtmlModel, evs: Seq<EventModel>) -> HtmlModel
    decreases evs.len(),
{
    if evs.len() == 0 {
        st
    } else if evs[0] is Eof || evs[0] is Failed {
        st
    } else {
        html_run(html_step(st, evs[0]), evs.drop_first())
    }
}

/// The non-empty trimmed lines among `lines`.
pub open spec fn kept_lines(lines: Seq<Seq<char>>) -> Seq<Seq<char>>
    decreases lines.len(),
{
    if lines.len() == 0 {
        Seq::empty()
    } else if trim(lines.last()).len() == 0 {
        kept_lines(lines.drop_last())
    } else {
        kept_lines(lines.drop_last()).push(trim(lines.last()))
    }
}

/// Each line trimmed, empty lines left out, lines joined with `\n`.
pub open spec fn tidy_lines_spec(s: Seq<char>) -> Seq<char> {
    join_with(kept_lines(split_on(s, '\n')), '\n')
}

/// The plain text that a stream of XML events gives.
pub open spec fn events_text_spec(evs: Seq<EventModel>) -> Seq<char> {
    tidy_lines_spec(html_run(HtmlModel { text: Seq::empty(), hidden: false }, evs).text)
}

/// The plain text of an XHTML document.
pub open spec fn extract_text_spec(html: Seq<char>) -> Seq<char> {
    events_text_spec(xml_events_of(html))
}

proof fn lemma_join_push(p: Seq<Seq<char>>, x: Seq<char>, sep: char)
    ensures
        join_with(p.push(x), sep) == if p.len() == 0 { x } else { join_with(p, sep).push(sep) + x },
{
    assert(p.push(x).drop_last() =~= p);
    if p.len() == 0 {
        assert(p.push(x)[0] == x);
    }
}

/// A character that extracted text may hold: a line break or a character
/// that is not a control character.
pub open spec fn allowed_char(c: char) -> bool {
    c == '\n' || !is_ctrl(c)
}

/// Every character of `t` is allowed.
pub open spec fn all_allowed(t: Seq<char>) -> bool {
    forall|i: int| 0 <= i < t.len() ==> allowed_char(#[trigger] t[i])
}

proof fn lemma_ctrl_to_space(s: Seq<char>)
    ensures
        forall|i: int|
            0 <= i < ctrl_to_space(s).len() ==> !is_ctrl(#[trigger] ctrl_to_space(s)[i]),
{
    assert(!is_ctrl(' '));
}

proof fn lemma_step_allowed(st: HtmlModel, ev: EventModel)
    requires
        all_allowed(st.text),
    ensures
        all_allowed(html_step(st, ev).text),
{
    match ev {
        EventModel::Text(raw) => {
            let c = ctrl_to_space(text_spec(raw));
            let t = trim(c);
            lemma_ctrl_to_space(text_spec(raw));
            lemma_trim_props(c);
            let (a, b) = choose|a: int, b: int| 0 <= a <= b <= c.len() && t == c.subrange(a, b);
            assert forall|i: int| 0 <= i < t.len() implies !is_ctrl(#[trigger] t[i]) by {
                assert(t[i] == c[a + i]);
            }
            let n = html_step(st, ev).text;
            assert forall|i: int| 0 <= i < n.len() implies allowed_char(#[trigger] n[i]) by {
                if st.hidden || t.len() == 0 {
                } else if st.text.len() > 0 && st.text.last() != '\n' && st.text.last() != ' ' {
                    if i < st.text.len() {
                        assert(n[i] == st.text[i]);
                    } else if i > st.text.len() {
                        assert(n[i] == t[i - st.text.len() - 1]);
                    }
                } else {
                    if i < st.text.len() {
                        assert(n[i] == st.text[i]);
                    } else {
                        assert(n[i] == t[i - st.text.len()]);
                    }
                }
            }
        },
        _ => {
            let n = html_step(st, ev).text;
            assert forall|i: int| 0 <= i < n.len() implies allowed_char(#[trigger] n[i]) by {
                if i < st.text.len() {
                    assert(n[i] == st.text[i]);
                }
            }
        },
    }
}

proof fn lemma_run_allowed(st: HtmlModel, evs: Seq<EventModel>)
    requires
        all_allowed(st.text),
    ensures
        all_allowed(html_run(st, evs).text),
    decreases evs.len(),
{
    if evs.len() > 0 && !(evs[0] is Eof || evs[0] is Failed) {
        lemma_step_allowed(st, evs[0]);
        lemma_run_allowed(html_step(st, evs[0]), evs.drop_first());
    }
}

/// The lines `kept_lines` keeps: non-empty, trimmed, without line breaks or
/// control characters.
pub open spec fn clean_line(l: Seq<char>) -> bool {
    &&& l.len() > 0
    &&& trim(l) == l
    &&& forall|k: int| 0 <= k < l.len() ==> (#[trigger] l[k]) != '\n' && !is_ctrl(l[k])
}

proof fn lemma_kept_clean(lines: Seq<Seq<char>>)
    requires
        forall|i: int, k: int|
            0 <= i < lines.len() && 0 <= k < lines[i].len() ==> (#[trigger] lines[i][k]) != '\n'
                && allowed_char(lines[i][k]),
    ensures
        forall|i: int| 0 <= i < kept_lines(lines).len() ==> clean_line(#[trigger] kept_lines(lines)[i]),
    decreases lines.len(),
{
    if lines.len() > 0 {
        lemma_kept_clean(lines.drop_last());
        let x = lines.last();
        let t = trim(x);
        lemma_trim_props(x);
        if t.len() > 0 {
            let (a, b) = choose|a: int, b: int| 0 <= a <= b <= x.len() && t == x.subrange(a, b);
            assert forall|k: int| 0 <= k < t.len() implies (#[trigger] t[k]) != '\n' && !is_ctrl(t[k]) by {
                assert(t[k] == lines[lines.len() - 1][a + k]);
            }
            let kk = kept_lines(lines);
            let kp = kept_lines(lines.drop_last());
            assert forall|i: int| 0 <= i < kk.len() implies clean_line(#[trigger] kk[i]) by {
                if i < kp.len() {
                    assert(kk[i] == kp[i]);
                }
            }
        }
    }
}

proof fn lemma_split_join(k: Seq<Seq<char>>)
    requires
        k.len() > 0,
        forall|i: int| 0 <= i < k.len() ==> clean_line(#[trigger] k[i]),
    ensures
        split_on(join_with(k, '\n'), '\n') == k,
    decreases k.len(),
{
    let x = k.last();
    assert(clean_line(k[k.len() - 1]));
    if k.len() == 1 {
        lemma_split_without_sep(x, '\n');
        assert(split_on(k[0], '\n') =~= k);
    } else {
        let p = k.drop_last();
        assert forall|i: int| 0 <= i < p.len() implies clean_line(#[trigger] p[i]) by {
            assert(p[i] == k[i]);
        }
        lemma_split_join(p);
        let j = join_with(p, '\n');
        assert(k.drop_last() =~= p);
        assert(join_with(k, '\n') == j.push('\n') + x);
        lemma_split_on_nonempty(j, '\n');
        assert(j.push('\n').drop_last() =~= j);
        assert(split_on(j.push('\n'), '\n') == p.push(Seq::<char>::empty()));
        lemma_split_append(j.push('\n'), x, '\n');
        assert(Seq::<char>::empty() + x =~= x);
        assert(split_on(j.push('\n') + x, '\n') =~= p.push(x));
        assert(p.push(x) =~= k);
    }
}

proof fn lemma_join_allowed(k: Seq<Seq<char>>)
    requires
        forall|i: int| 0 <= i < k.len() ==> clean_line(#[trigger] k[i]),
    ensures
        all_allowed(join_with(k, '\n')),
        k.len() == 0 ==> join_with(k, '\n').len() == 0,
    decreases k.len(),
{
    if k.len() == 1 {
        assert(clean_line(k[0]));
        assert forall|i: int| 0 <= i < k[0].len() implies allowed_char(#[trigger] k[0][i]) by {}
    } else if k.len() > 1 {
        let p = k.drop_last();
        assert forall|i: int| 0 <= i < p.len() implies clean_line(#[trigger] p[i]) by {
            assert(p[i] == k[i]);
        }
        lemma_join_allowed(p);
        let x = k.last();
        assert(clean_line(k[k.len() - 1]));
        let j = join_with(p, '\n');
        let n = join_with(k, '\n');
        assert(n == j.push('\n') + x);
        assert forall|i: int| 0 <= i < n.len() implies allowed_char(#[trigger] n[i]) by {
            if i < j.len() {
                assert(n[i] == j[i]);
            } else if i > j.len() {
                assert(n[i] == x[i - j.len() - 1]);
            }
        }
    }
}

/// Law: the extracted text holds no control character other than line
/// breaks, and, when it is not empty, each of its lines is non-empty and
/// has no leading or trailing whitespace.
pub proof fn lemma_extracted_text_lines(html: Seq<char>)
    ensures
        all_allowed(extract_text_spec(html)),
        extract_text_spec(html).len() > 0 ==> forall|i: int|
            0 <= i < split_on(extract_text_spec(html), '\n').len() ==> {
                let l = #[trigger] split_on(extract_text_spec(html), '\n')[i];
                l.len() > 0 && trim(l) == l
            },
{
    let init = HtmlModel { text: Seq::empty(), hidden: false };
    lemma_run_allowed(init, xml_events_of(html));
    let text = html_run(init, xml_events_of(html)).text;
    let lines = split_on(text, '\n');
    lemma_split_pieces(text, '\n');
    assert forall|i: int, k: int| 0 <= i < lines.len() && 0 <= k < lines[i].len() implies (#[trigger] lines[i][k])
        != '\n' && allowed_char(lines[i][k]) by {
        let j = choose|j: int| 0 <= j < text.len() && text[j] == lines[i][k];
        assert(allowed_char(text[j]));
    }
    lemma_kept_clean(lines);
    let kept = kept_lines(lines);
    lemma_join_allowed(kept);
    if kept.len() > 0 {
        lemma_split_join(kept);
        assert forall|i: int| 0 <= i < kept.len() implies {
            let l = #[trigger] kept[i];
            l.len() > 0 && trim(l) == l
        } by {
            assert(clean_line(kept[i]));
        }
    }
}

/// The names of the block elements: closing one ends the current line.
pub open spec fn block_names() -> Seq<Seq<char>> {
    seq![
        "p"@,
        "div"@,
        "li"@,
        "h1"@,
        "h2"@,
        "h3"@,
        "h4"@,
        "h5"@,
        "h6"@,
        "blockquote"@,
        "tr"@,
    ]
}

/// No block name is the name of a hidden element.
proof fn lemma_block_names_not_hidden(n: Seq<char>)
    requires
        block_names().contains(n),
    ensures
        !is_hidden_tag(n),
        is_block_end_tag(n),
{
    reveal_strlit("p");
    reveal_strlit("div");
    reveal_strlit("li");
    reveal_strlit("h1");
    reveal_strlit("h2");
    reveal_strlit("h3");
    reveal_strlit("h4");
    reveal_strlit("h5");
    reveal_strlit("h6");
    reveal_strlit("blockquote");
    reveal_strlit("tr");
    reveal_strlit("script");
    reveal_strlit("style");
    reveal_strlit("head");
    let k = choose|k: int| 0 <= k < block_names().len() && block_names()[k] == n;
    assert(n.len() <= 3 || n.len() == 10) by {
        if k == 0 { assert(n == "p"@); }
        else if k == 1 { assert(n == "div"@); }
        else if k == 2 { assert(n == "li"@); }
        else if k == 3 { assert(n == "h1"@); }
        else if k == 4 { assert(n == "h2"@); }
        else if k == 5 { assert(n == "h3"@); }
        else if k == 6 { assert(n == "h4"@); }
        else if k == 7 { assert(n == "h5"@); }
        else if k == 8 { assert(n == "h6"@); }
        else if k == 9 { assert(n == "blockquote"@); }
        else { assert(n == "tr"@); }
    }
    assert("script"@.len() == 6 && "style"@.len() == 5 && "head"@.len() == 4);
}

/// Reading more events only adds text after what is there.
proof fn lemma_run_extends(st: HtmlModel, evs: Seq<EventModel>)
    ensures
        html_run(st, evs).text.len() >= st.text.len(),
        html_run(st, evs).text.subrange(0, st.text.len() as int) == st.text,
    decreases evs.len(),
{
    if evs.len() == 0 || evs[0] is Eof || evs[0] is Failed {
        assert(st.text.subrange(0, st.text.len() as int) =~= st.text);
    } else {
        let s2 = html_step(st, evs[0]);
        lemma_run_extends(s2, evs.drop_first());
        assert(s2.text.subrange(0, st.text.len() as int) =~= st.text);
        let t = html_run(st, evs).text;
        assert(t.subrange(0, st.text.len() as int) =~= st.text) by {
            assert forall|k: int| 0 <= k < st.text.len() implies t.subrange(0, st.text.len() as int)[k]
                == st.text[k] by {
                assert(t[k] == t.subrange(0, s2.text.len() as int)[k]);
                assert(s2.text[k] == s2.text.subrange(0, st.text.len() as int)[k]);
            }
        }
    }
}

/// Law: closing a block element (`p`, `div`, `li`, `h1` to `h6`,
/// `blockquote`, `tr`) ends the current line, hidden or not: the text read
/// so far is kept, a line break follows it (one is added unless it already
/// ends with one), and all text read after the closing tag comes after that
/// line break.
pub proof fn lemma_block_end_ends_line(st: HtmlModel, n: Seq<char>, rest: Seq<EventModel>)
    requires
        block_names().contains(n),
    ensures
        ({
            let line = if ends_with_nl(st.text) { st.text } else { st.text.push('\n') };
            let t = html_run(st, seq![EventModel::End(n)] + rest).text;
            &&& html_step(st, EventModel::End(n)).text == line
            &&& line.last() == '\n'
            &&& t.len() >= line.len()
            &&& t.subrange(0, line.len() as int) == line
        }),
{
    lemma_block_names_not_hidden(n);
    let evs = seq![EventModel::End(n)] + rest;
    assert(evs[0] == EventModel::End(n));
    assert(evs.drop_first() =~= rest);
    lemma_run_extends(html_step(st, EventModel::End(n)), rest);
}

/// Law: opening a block element or a `br` starts a new line when there is
/// text before it: the text read so far is kept and then ends with a line
/// break.
pub proof fn lemma_block_start_starts_line(st: HtmlModel, n: Seq<char>, a: Seq<char>)
    requires
        block_names().contains(n) || n == "br"@,
        st.text.len() > 0,
    ensures
        html_step(st, EventModel::Start(n, a)).text == if ends_with_nl(st.text) {
            st.text
        } else {
            st.text.push('\n')
        },
{
    if block_names().contains(n) {
        lemma_block_names_not_hidden(n);
    } else {
        reveal_strlit("br");
        reveal_strlit("script");
        reveal_strlit("style");
        reveal_strlit("head");
        assert("br"@.len() == 2 && "script"@.len() == 6 && "style"@.len() == 5 && "head"@.len() == 4);
    }
    assert(is_block_start_tag(n));
}

/// Executable `ctrl_to_space`.
fn ctrl_chars_to_space(s: &[char]) -> (out: Vec<char>)
    ensures
        out@ == ctrl_to_space(s@),
{
    let mut out: Vec<char> = Vec::new();
    let mut i: usize = 0;
    while i < s.len()
        invariant
            i <= s@.len(),
            out@ == ctrl_to_space(s@.take(i as int)),
        decreases s@.len() - i,
    {
        if is_control(s[i]) {
            out.push(' ');
        } else {
            out.push(s[i]);
        }
        i = i + 1;
        proof {
            assert(out@ =~= ctrl_to_space(s@.take(i as int)));
        }
    }
    proof {
        assert(s@.take(s@.len() as int) =~= s@);
    }
    out
}

/// Executable `tidy_lines_spec`: each line trimmed, empty lines left out,
/// lines joined with `\n`.
pub fn tidy_lines(s: &[char]) -> (out: Vec<char>)
    ensures
        out@ == tidy_lines_spec(s@),
{
    let lines = split_chars(s, '\n');
    let ghost ls = char_views(lines@);
    let mut out: Vec<char> = Vec::new();
    let mut any = false;
    let mut k: usize = 0;
    proof {
        assert(ls.take(0) =~= Seq::<Seq<char>>::empty());
    }
    while k < lines.len()
        invariant
            k <= lines@.len(),
            ls == char_views(lines@),
            ls == split_on(s@, '\n'),
            out@ == join_with(kept_lines(ls.take(k as int)), '\n'),
            any == (kept_lines(ls.take(k as int)).len() > 0),
        decreases lines@.len() - k,
    {
        let ghost kept = kept_lines(ls.take(k as int));
        proof {
            assert(ls.take(k + 1).drop_last() =~= ls.take(k as int));
            assert(ls.take(k + 1).last() == lines@[k as int]@);
        }
        let t = trim_chars(lines[k].as_slice());
        if t.len() > 0 {
            proof {
                lemma_join_push(kept, t@, '\n');
            }
            if any {
                out.push('\n');
            }
            append_chars(&mut out, t.as_slice());
            any = true;
        }
        k = k + 1;
    }
    proof {
        assert(ls.take(lines@.len() as int) =~= ls);
    }
    out
}

/// The state of extracting text.
struct HtmlState {
    text: Vec<char>,
    hidden: bool,
}

impl View for HtmlState {
    type V = HtmlModel;

    closed spec fn view(&self) -> HtmlModel {
        HtmlModel { text: self.text@, hidden: self.hidden }
    }
}

fn is_hidden_name(n: &[char]) -> (b: bool)
    ensures
        b == is_hidden_tag(n@),
{
    text_is(n, "script") || text_is(n, "style") || text_is(n, "head")
}

fn is_block_end_name(n: &[char]) -> (b: bool)
    ensures
        b == is_block_end_tag(n@),
{
    text_is(n, "p") || text_is(n, "div") || text_is(n, "li") || text_is(n, "h1") || text_is(n, "h2")
        || text_is(n, "h3") || text_is(n, "h4") || text_is(n, "h5") || text_is(n, "h6") || text_is(
        n,
        "blockquote",
    ) || text_is(n, "tr")
}

fn ends_with_newline(t: &Vec<char>) -> (b: bool)
    ensures
        b == ends_with_nl(t@),
{
    t.len() > 0 && t[t.len() - 1] == '\n'
}

/// One event, other than the end of input or an error.
fn html_step_exec(st: &mut HtmlState, ev: &XmlEvent)
    ensures
        final(st)@ == html_step(old(st)@, ev@),
{
    match ev {
        XmlEvent::Start(n, _) => {
            let nc = chars_of(n.as_str());
            if is_hidden_name(nc.as_slice()) {
                st.hidden = true;
            } else if (is_block_end_name(nc.as_slice()) || text_is(nc.as_slice(), "br"))
                && st.text.len() > 0 && !ends_with_newline(&st.text) {
                st.text.push('\n');
            }
        },
        XmlEvent::End(n) => {
            let nc = chars_of(n.as_str());
            if is_hidden_name(nc.as_slice()) {
                st.hidden = false;
            } else if is_block_end_name(nc.as_slice()) && !ends_with_newline(&st.text) {
                st.text.push('\n');
            }
        },
        XmlEvent::Text(raw) => {
            let s = text_of(raw);
            let cs = chars_of(s.as_str());
            let clean = ctrl_chars_to_space(cs.as_slice());
            let t = trim_chars(clean.as_slice());
            if !st.hidden && t.len() > 0 {
                let n = st.text.len();
                if n > 0 && st.text[n - 1] != '\n' && st.text[n - 1] != ' ' {
                    st.text.push(' ');
                }
                append_chars(&mut st.text, t.as_slice());
            }
        },
        _ => {},
    }
}

/// The plain text that a stream of XML events gives: the text outside
/// `script`, `style` and `head`, with control characters turned into spaces,
/// pieces separated by a space, block elements on lines of their own; each
/// line trimmed and empty lines left out. Reading stops at the first end of
/// input or error.
pub fn text_from_events(events: &Vec<XmlEvent>) -> (text: String)
    ensures
        text@ == events_text_spec(event_views(events@)),
{
    let ghost all = event_views(events@);
    let ghost init = HtmlModel { text: Seq::empty(), hidden: false };
    let mut st = HtmlState { text: Vec::new(), hidden: false };
    proof {
        assert(all.skip(0) =~= all);
        assert(st@ == init);
    }
    let mut i: usize = 0;
    while i < events.len()
        invariant_except_break
            i <= events@.len(),
            all == event_views(events@),
            html_run(init, all) == html_run(st@, all.skip(i as int)),
        ensures
            html_run(init, all) == st@,
        decreases events@.len() - i,
    {
        proof {
            assert(all.skip(i as int).drop_first() =~= all.skip(i + 1));
            assert(all.skip(i as int).len() > 0);
            assert(all.skip(i as int)[0] == events@[i as int]@);
        }
        match &events[i] {
            XmlEvent::Eof => {
                break;
            },
            XmlEvent::Failed(_) => {
                break;
            },
            ev => {
                html_step_exec(&mut st, ev);
            },
        }
        i = i + 1;
    }
    let out = tidy_lines(st.text.as_slice());
    string_of(out.as_slice())
}

/// The plain text of an XHTML document, as `text_from_events` gives it for
/// the document's XML events. Reading stops at the first syntax error.
pub fn extract_text(html: &str) -> (text: String)
    ensures
        text@ == extract_text_spec(html@),
{
    let events = read_events(html);
    text_from_events(&events)
}

} // verus!
