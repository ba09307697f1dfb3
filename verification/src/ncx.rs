//! The NCX table of contents: its top-level navigation points.

use vstd::prelude::*;
use vstd::utf8::{decode_utf8, valid_utf8};

use crate::book::{toc_views, BookError, BookErrorModel, TocEntry, XmlDoc};
use crate::container::{last_attr_value, read_last_attr};
use crate::text::{chars_of, text_is, trim};
use crate::xml::{
    attributes_of, event_views, read_events, tag_attributes, text_spec, trimmed_text, unescape_of, xml_events_of,
    EventModel, XmlEvent,
};

verus! {

/// The state of reading an NCX document.
pub struct NcxModel {
    /// The label of the current top-level navigation point.
    pub label: Seq<char>,
    /// The link of the current top-level navigation point.
    pub href: Seq<char>,
    /// How many navigation points are open.
    pub depth: nat,
    pub in_label: bool,
    pub in_text: bool,
    /// The entries read so far: labels and links.
    pub entries: Seq<(Seq<char>, Seq<char>)>,
}

/// The state before the first event.
pub open spec fn ncx_start() -> NcxModel {
    NcxModel {
        label: Seq::empty(),
        href: Seq::empty(),
        depth: 0,
        in_label: false,
        in_text: false,
        entries: Seq::empty(),
    }
}

/// What one event, other than the end of input or an error, does to the state.
pub open spec fn ncx_step(st: NcxModel, ev: EventModel) -> Result<NcxModel, BookErrorModel> {
    match ev {
        EventModel::Start(n, _) => if n == "navPoint"@ {
            if st.depth + 1 == 1 {
                Ok(NcxModel { depth: st.depth + 1, label: Seq::empty(), href: Seq::empty(), ..st })
            } else {
                Ok(NcxModel { depth: st.depth + 1, ..st })
            }
        } else if n == "navLabel"@ {
            Ok(NcxModel { in_label: true, ..st })
        } else if n == "text"@ && st.in_label {
            Ok(NcxModel { in_text: true, ..st })
        } else {
            Ok(st)
        },
        EventModel::End(n) => if n == "navPoint"@ {
            let entries = if st.depth == 1 && st.label.len() > 0 {
                st.entries.push((st.label, st.href))
            } else {
                st.entries
            };
            Ok(NcxModel { entries: entries, depth: if st.depth == 0 { 0 } else { (st.depth - 1) as nat }, ..st })
        } else if n == "navLabel"@ {
            Ok(NcxModel { in_label: false, ..st })
        } else if n == "text"@ {
            Ok(NcxModel { in_text: false, ..st })
        } else {
            Ok(st)
        },
        EventModel::Empty(n, a) => if n == "content"@ && st.depth == 1 {
            match last_attr_value(attributes_of(a), "src"@, None) {
                Ok(Some(h)) => Ok(NcxModel { href: h, ..st }),
                Ok(None) => Ok(st),
                Err(m) => Err(BookErrorModel::Attribute(m)),
            }
        } else {
            Ok(st)
        },
        EventModel::Text(raw) => if st.in_text && st.depth == 1 {
            Ok(NcxModel { label: trim(text_spec(raw)), ..st })
        } else {
            Ok(st)
        },
        _ => Ok(st),
    }
}

/// Law: inside the `text` element of a top-level navigation point's label,
/// the label becomes the text with its entity and character references
/// replaced, then trimmed; when a reference is bad, the raw text trimmed;
/// when the text is not valid UTF-8, nothing. The link, the depth and the
/// entries read so far stay as they are.
pub proof fn lemma_ncx_label(st: NcxModel, raw: Seq<u8>)
    requires
        st.in_text,
        st.depth == 1,
    ensures
        ncx_step(st, EventModel::Text(raw)) is Ok,
        ({
            let s2 = ncx_step(st, EventModel::Text(raw))->Ok_0;
            &&& valid_utf8(raw) && unescape_of(decode_utf8(raw)) is Ok ==> s2.label == trim(
                unescape_of(decode_utf8(raw))->Ok_0,
            )
            &&& valid_utf8(raw) && unescape_of(decode_utf8(raw)) is Err ==> s2.label == trim(
                decode_utf8(raw),
            )
            &&& !valid_utf8(raw) ==> s2.label.len() == 0
            &&& s2.href == st.href && s2.depth == st.depth && s2.entries == st.entries
        }),
{
}

/// Law: a `content` tag directly inside a top-level navigation point sets
/// its link to the value of the last `src` attribute, and changes nothing
/// else.
pub proof fn lemma_ncx_link(st: NcxModel, a: Seq<char>, h: Seq<char>)
    requires
        st.depth == 1,
        last_attr_value(attributes_of(a), "src"@, None) == Ok::<Option<Seq<char>>, Seq<char>>(Some(h)),
    ensures
        ncx_step(st, EventModel::Empty("content"@, a)) == Ok::<NcxModel, BookErrorModel>(
            NcxModel { href: h, ..st },
        ),
{
}

/// Law: closing a top-level navigation point adds its label and link as the
/// next entry when the label is not empty, and nothing otherwise; closing a
/// nested one adds no entry. Either way one level is left.
pub proof fn lemma_ncx_entry(st: NcxModel)
    requires
        st.depth >= 1,
    ensures
        ncx_step(st, EventModel::End("navPoint"@)) is Ok,
        ({
            let s2 = ncx_step(st, EventModel::End("navPoint"@))->Ok_0;
            &&& s2.depth == st.depth - 1
            &&& s2.entries == if st.depth == 1 && st.label.len() > 0 {
                st.entries.push((st.label, st.href))
            } else {
                st.entries
            }
        }),
{
}

/// Law: opening a top-level navigation point starts it with an empty label
/// and link; opening a nested one keeps the label and link of the top-level
/// point it is in.
pub proof fn lemma_ncx_nav_point_start(st: NcxModel, a: Seq<char>)
    ensures
        ({
            let s2 = ncx_step(st, EventModel::Start("navPoint"@, a))->Ok_0;
            &&& ncx_step(st, EventModel::Start("navPoint"@, a)) is Ok
            &&& s2.depth == st.depth + 1
            &&& s2.entries == st.entries
            &&& st.depth == 0 ==> s2.label.len() == 0 && s2.href.len() == 0
            &&& st.depth > 0 ==> s2.label == st.label && s2.href == st.href
        }),
{
}

/// Reading the events from state `st` on, up to the end of input or an error.
pub open spec fn ncx_run(st: NcxModel, evs: Seq<EventModel>) -> Result<NcxModel, BookErrorModel>
    decreases evs.len(),
{
    if evs.len() == 0 {
        Ok(st)
    } else {
        match evs[0] {
            EventModel::Eof => Ok(st),
            EventModel::Failed(m) => Err(BookErrorModel::Xml(XmlDoc::Ncx, m)),
            _ => match ncx_step(st, evs[0]) {
                Ok(s2) => ncx_run(s2, evs.drop_first()),
                Err(e) => Err(e),
            },
        }
    }
}

/// The entries that the events of an NCX document give: label and link of
/// each top-level navigation point that has a label, in document order.
pub open spec fn ncx_entries_spec(evs: Seq<EventModel>) -> Result<Seq<(Seq<char>, Seq<char>)>, BookErrorModel> {
    match ncx_run(ncx_start(), evs) {
        Ok(st) => Ok(st.entries),
        Err(e) => Err(e),
    }
}

/// The entries of an NCX document: label and link of each top-level
/// navigation point that has a label, in document order.
pub open spec fn parse_ncx_spec(content: Seq<char>) -> Result<Seq<(Seq<char>, Seq<char>)>, BookErrorModel> {
    ncx_entries_spec(xml_events_of(content))
}

struct NcxState {
    label: String,
    href: String,
    depth: usize,
    in_label: bool,
    in_text: bool,
    entries: Vec<TocEntry>,
}

impl View for NcxState {
    type V = NcxModel;

    closed spec fn view(&self) -> NcxModel {
        NcxModel {
            label: self.label@,
            href: self.href@,
            depth: self.depth as nat,
            in_label: self.in_label,
            in_text: self.in_text,
            entries: toc_views(self.entries@),
        }
    }
}

/// One event, other than the end of input or an error.
fn ncx_step_exec(st: &mut NcxState, ev: &XmlEvent) -> (r: Result<(), BookError>)
    requires
        !(ev@ is Eof),
        !(ev@ is Failed),
        old(st).depth < usize::MAX,
    ensures
        final(st).depth <= old(st).depth + 1,
        match ncx_step(old(st)@, ev@) {
            Ok(s2) => r is Ok && final(st)@ == s2,
            Err(e) => r matches Err(x) && x@ == e,
        },
{
    match ev {
        XmlEvent::Start(n, _) => {
            let nc = chars_of(n.as_str());
            if text_is(nc.as_slice(), "navPoint") {
                st.depth = st.depth + 1;
                if st.depth == 1 {
                    st.label = String::new();
                    st.href = String::new();
                }
            } else if text_is(nc.as_slice(), "navLabel") {
                st.in_label = true;
            } else if text_is(nc.as_slice(), "text") && st.in_label {
                st.in_text = true;
            }
            Ok(())
        },
        XmlEvent::End(n) => {
            let nc = chars_of(n.as_str());
            if text_is(nc.as_slice(), "navPoint") {
                if st.depth == 1 && st.label.as_str().unicode_len() > 0 {
                    let ghost before = toc_views(st.entries@);
                    st.entries.push(TocEntry { label: st.label.clone(), href: st.href.clone() });
                    proof {
                        assert(toc_views(st.entries@) =~= before.push((st.label@, st.href@)));
                    }
                }
                st.depth = if st.depth == 0 { 0 } else { st.depth - 1 };
            } else if text_is(nc.as_slice(), "navLabel") {
                st.in_label = false;
            } else if text_is(nc.as_slice(), "text") {
                st.in_text = false;
            }
            Ok(())
        },
        XmlEvent::Empty(n, a) => {
            let nc = chars_of(n.as_str());
            if text_is(nc.as_slice(), "content") && st.depth == 1 {
                let attrs = tag_attributes(a.as_str());
                match read_last_attr(&attrs, "src", None) {
                    Ok(Some(h)) => {
                        st.href = h;
                    },
                    Ok(None) => {},
                    Err(m) => {
                        return Err(BookError::Attribute(m));
                    },
                }
            }
            Ok(())
        },
        XmlEvent::Text(raw) => {
            if st.in_text && st.depth == 1 {
                st.label = trimmed_text(raw);
            }
            Ok(())
        },
        _ => Ok(()),
    }
}

/// Reads the events of an NCX document: the label and link of each top-level
/// navigation point that has a label, in document order.
pub fn parse_ncx_events(events: &Vec<XmlEvent>) -> (r: Result<Vec<TocEntry>, BookError>)
    ensures
        match ncx_entries_spec(event_views(events@)) {
            Ok(m) => r matches Ok(v) && toc_views(v@) == m,
            Err(e) => r matches Err(x) && x@ == e,
        },
{
    let ghost all = event_views(events@);
    let mut st = NcxState {
        label: String::new(),
        href: String::new(),
        depth: 0,
        in_label: false,
        in_text: false,
        entries: Vec::new(),
    };
    proof {
        assert(all.skip(0) =~= all);
        assert(toc_views(st.entries@) =~= Seq::<(Seq<char>, Seq<char>)>::empty());
        assert(st@ == ncx_start());
    }
    let mut i: usize = 0;
    while i < events.len()
        invariant_except_break
            i <= events@.len(),
            st.depth <= i,
            all == event_views(events@),
            ncx_run(ncx_start(), all) == ncx_run(st@, all.skip(i as int)),
        ensures
            ncx_run(ncx_start(), all) == Ok::<NcxModel, BookErrorModel>(st@),
            all == event_views(events@),
        decreases events@.len() - i,
    {
        proof {
            assert(all.skip(i as int).drop_first() =~= all.skip(i + 1));
            assert(all.skip(i as int).len() > 0);
            assert(all.skip(i as int)[0] == events@[i as int]@);
        }
        match &events[i] {
            XmlEvent::Eof => {
                proof {
                    assert(all.skip(i as int)[0] is Eof);
                }
                break;
            },
            XmlEvent::Failed(m) => {
                proof {
                    assert(all.skip(i as int)[0] == EventModel::Failed(m@));
                }
                return Err(BookError::Xml(XmlDoc::Ncx, m.clone()));
            },
            ev => {
                match ncx_step_exec(&mut st, ev) {
                    Ok(()) => {},
                    Err(e) => {
                        return Err(e);
                    },
                }
            },
        }
        i = i + 1;
    }
    Ok(st.entries)
}

/// Reads an NCX document: the label and link of each top-level navigation
/// point that has a label, in document order.
pub fn parse_ncx(content: &str) -> (r: Result<Vec<TocEntry>, BookError>)
    ensures
        match parse_ncx_spec(content@) {
            Ok(m) => r matches Ok(v) && toc_views(v@) == m,
            Err(e) => r matches Err(x) && x@ == e,
        },
{
    let events = read_events(content);
    parse_ncx_events(&events)
}

} // verus!
