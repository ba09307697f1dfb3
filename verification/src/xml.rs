//! XML events as read by `quick_xml`, in a model of plain values.
//!
//! The tokenizer is `quick_xml`'s: the items marked `external_body` below are
//! the only places that call it, and their contracts are believed, not proved.
//! Everything built on the events is verified against the model.

use vstd::prelude::*;
use vstd::utf8::{decode_utf8, valid_utf8};

use crate::text::{chars_of, string_of, trim, trim_chars};

use quick_xml::events::attributes::Attributes;
use quick_xml::events::Event;
use quick_xml::Reader;

verus! {

/// An attribute as read from a tag: its key and the bytes of its raw value.
pub struct XmlAttr {
    pub key: String,
    pub raw_value: Vec<u8>,
}

/// The model of an `XmlAttr`.
pub struct AttrModel {
    pub key: Seq<char>,
    pub raw_value: Seq<u8>,
}

/// One event of the XML reader. A start or empty tag carries its name and the
/// raw text of its attributes; a text event carries the bytes of its raw
/// text; `Failed` is a syntax error, with its message, after which nothing
/// more is read; `Other` is a comment, CDATA, declaration, processing
/// instruction or doctype.
pub enum XmlEvent {
    Start(String, String),
    Empty(String, String),
    End(String),
    Text(Vec<u8>),
    Eof,
    Failed(String),
    Other,
}

/// The model of an `XmlEvent`.
pub enum EventModel {
    Start(Seq<char>, Seq<char>),
    Empty(Seq<char>, Seq<char>),
    End(Seq<char>),
    Text(Seq<u8>),
    Eof,
    Failed(Seq<char>),
    Other,
}

impl View for XmlAttr {
    type V = AttrModel;

    open spec fn view(&self) -> AttrModel {
        AttrModel { key: self.key@, raw_value: self.raw_value@ }
    }
}

impl View for XmlEvent {
    type V = EventModel;

    open spec fn view(&self) -> EventModel {
        match self {
            XmlEvent::Start(n, a) => EventModel::Start(n@, a@),
            XmlEvent::Empty(n, a) => EventModel::Empty(n@, a@),
            XmlEvent::End(n) => EventModel::End(n@),
            XmlEvent::Text(t) => EventModel::Text(t@),
            XmlEvent::Eof => EventModel::Eof,
            XmlEvent::Failed(m) => EventModel::Failed(m@),
            XmlEvent::Other => EventModel::Other,
        }
    }
}

/// The models of a sequence of events.
pub open spec fn event_views(evs: Seq<XmlEvent>) -> Seq<EventModel> {
    evs.map_values(|e: XmlEvent| e@)
}

/// The models of a sequence of attributes.
pub open spec fn attr_views(attrs: Seq<XmlAttr>) -> Seq<AttrModel> {
    attrs.map_values(|a: XmlAttr| a@)
}

/// The events at which reading stops: the end of input or an error.
pub open spec fn is_terminal(e: EventModel) -> bool {
    e is Eof || e is Failed
}

/// A stream of events that ends with its first and only terminal event.
pub open spec fn well_ended(evs: Seq<EventModel>) -> bool {
    &&& evs.len() > 0
    &&& is_terminal(evs.last())
    &&& forall|i: int| 0 <= i < evs.len() - 1 ==> !is_terminal(#[trigger] evs[i])
}

/// The events that `quick_xml::Reader::from_str(content)` yields through
/// `read_event`, up to and including the first `Eof` or error.
pub uninterp spec fn xml_events_of(content: Seq<char>) -> Seq<EventModel>;

/// The events that a reader has still to yield, up to and including the
/// first `Eof` or error.
pub uninterp spec fn pending_events(reader: Reader<&[u8]>) -> Seq<EventModel>;

/// The attributes that `quick_xml::events::attributes::Attributes::new(raw, 0)`
/// yields, those that fail to parse left out.
pub uninterp spec fn attributes_of(raw: Seq<char>) -> Seq<AttrModel>;

/// What `quick_xml::escape::unescape(raw)` returns, the error by its message.
pub uninterp spec fn unescape_of(raw: Seq<char>) -> Result<Seq<char>, Seq<char>>;

#[verifier::external_type_specification]
#[verifier::external_body]
#[verifier::reject_recursive_types(R)]
pub struct ExReader<R>(Reader<R>);

/// `quick_xml::Reader::from_str`: a reader over `content`. Believed: the
/// events it will yield are `xml_events_of(content)`, and they end with
/// their first `Eof` or error (the reader moves forward on every event of a
/// finite input).
#[verifier::external_body]
fn open_reader<'a>(content: &'a str) -> (reader: Reader<&'a [u8]>)
    ensures
        pending_events(reader) == xml_events_of(content@),
        well_ended(pending_events(reader)),
{
    Reader::from_str(content)
}

/// `quick_xml::Reader::read_event`, with the event converted to an `XmlEvent`
/// (names and attribute text through `String::from_utf8_lossy`, text as its
/// raw bytes, the error through its `Display`). Believed: the result is the
/// first pending event and, when that event is neither the end of input nor
/// an error, the reader moves past it. Nothing is said of the reader after a
/// terminal event (quick_xml keeps yielding `Eof` once done, and may go on
/// after an error); nothing here reads it again.
#[verifier::external_body]
fn next_event(reader: &mut Reader<&[u8]>) -> (event: XmlEvent)
    requires
        pending_events(*old(reader)).len() > 0,
    ensures
        event@ == pending_events(*old(reader))[0],
        !is_terminal(event@) ==> pending_events(*final(reader)) == pending_events(
            *old(reader),
        ).drop_first(),
{
    let lossy = |b: &[u8]| String::from_utf8_lossy(b).into_owned();
    match reader.read_event() {
        Ok(Event::Start(e)) => XmlEvent::Start(lossy(e.name().as_ref()), lossy(e.attributes_raw())),
        Ok(Event::Empty(e)) => XmlEvent::Empty(lossy(e.name().as_ref()), lossy(e.attributes_raw())),
        Ok(Event::End(e)) => XmlEvent::End(lossy(e.name().as_ref())),
        Ok(Event::Text(e)) => XmlEvent::Text(e.to_vec()),
        Ok(Event::Eof) => XmlEvent::Eof,
        Ok(_) => XmlEvent::Other,
        Err(e) => XmlEvent::Failed(e.to_string()),
    }
}

/// `quick_xml::events::attributes::Attributes::new(raw, 0)` (what
/// `BytesStart::attributes` reads from a tag whose attribute text is `raw`),
/// the attributes that fail to parse left out (as `Iterator::flatten` does),
/// keys through `String::from_utf8_lossy`, values as their raw bytes.
/// Believed: the result is `attributes_of(raw)`.
#[verifier::external_body]
pub fn tag_attributes(raw: &str) -> (attrs: Vec<XmlAttr>)
    ensures
        attr_views(attrs@) == attributes_of(raw@),
{
    Attributes::new(raw, 0).flatten().map(|a| XmlAttr {
        key: String::from_utf8_lossy(a.key.as_ref()).into_owned(),
        raw_value: a.value.to_vec(),
    }).collect()
}

/// The models of a result with string payloads.
pub open spec fn string_result_view(r: Result<String, String>) -> Result<Seq<char>, Seq<char>> {
    match r {
        Ok(s) => Ok(s@),
        Err(e) => Err(e@),
    }
}

/// `quick_xml::escape::unescape`: entity and character references replaced,
/// or the error's message. Believed: the result is `unescape_of(raw)`.
#[verifier::external_body]
pub fn unescape(raw: &str) -> (out: Result<String, String>)
    ensures
        string_result_view(out) == unescape_of(raw@),
{
    match quick_xml::escape::unescape(raw) {
        Ok(s) => Ok(s.into_owned()),
        Err(e) => Err(e.to_string()),
    }
}

/// The events of `content`, up to and including the first `Eof` or error.
pub fn read_events(content: &str) -> (events: Vec<XmlEvent>)
    ensures
        event_views(events@) == xml_events_of(content@),
{
    let mut reader = open_reader(content);
    let ghost all = xml_events_of(content@);
    let mut events: Vec<XmlEvent> = Vec::new();
    proof {
        assert(all.skip(0) =~= all);
        assert(event_views(events@) =~= all.take(0));
    }
    loop
        invariant_except_break
            well_ended(all),
            events@.len() < all.len(),
            event_views(events@) == all.take(events@.len() as int),
            pending_events(reader) == all.skip(events@.len() as int),
        ensures
            event_views(events@) == all,
        decreases all.len() - events@.len(),
    {
        let ev = next_event(&mut reader);
        let stop = match ev {
            XmlEvent::Eof => true,
            XmlEvent::Failed(_) => true,
            _ => false,
        };
        let ghost n = events@.len() as int;
        let ghost prev = events@;
        let ghost evm = ev@;
        events.push(ev);
        proof {
            assert(ev@ == all[n]);
            assert(events@.drop_last() =~= prev);
            assert(event_views(events@) =~= event_views(prev).push(ev@));
            assert(event_views(events@) =~= all.take(n + 1));
        }
        if stop {
            proof {
                if n < all.len() - 1 {
                    assert(!is_terminal(all[n]));
                }
                assert(all.take(n + 1) =~= all);
            }
            break;
        }
        proof {
            assert(!is_terminal(evm));
            assert(pending_events(reader) =~= all.skip(n + 1));
            assert(n != all.len() - 1);
        }
    }
    events
}

/// `std::str::from_utf8`: the text of `bytes` when they are valid UTF-8.
/// Believed: it succeeds exactly on valid UTF-8 (as vstd's `valid_utf8`
/// defines it) and then gives vstd's `decode_utf8` of the bytes.
#[verifier::external_body]
pub fn utf8_decode(bytes: &[u8]) -> (r: Option<String>)
    ensures
        match r {
            Some(t) => valid_utf8(bytes@) && t@ == decode_utf8(bytes@),
            None => !valid_utf8(bytes@),
        },
{
    std::str::from_utf8(bytes).ok().map(|t| t.to_string())
}

/// The message for an attribute value that is not valid UTF-8.
pub open spec fn not_utf8_message() -> Seq<char> {
    "attribute value is not valid UTF-8"@
}

/// The decoded value of an attribute: its raw value with references
/// replaced, or why that failed.
pub open spec fn attr_value_spec(a: AttrModel) -> Result<Seq<char>, Seq<char>> {
    if valid_utf8(a.raw_value) {
        unescape_of(decode_utf8(a.raw_value))
    } else {
        Err(not_utf8_message())
    }
}

/// The text of a text event: the raw text with references replaced, the raw
/// text itself when a reference is bad, nothing when it is not valid UTF-8.
pub open spec fn text_spec(raw: Seq<u8>) -> Seq<char> {
    if valid_utf8(raw) {
        match unescape_of(decode_utf8(raw)) {
            Ok(u) => u,
            Err(_) => decode_utf8(raw),
        }
    } else {
        Seq::empty()
    }
}

/// Executable `attr_value_spec`.
pub fn attr_value(a: &XmlAttr) -> (v: Result<String, String>)
    ensures
        string_result_view(v) == attr_value_spec(a@),
{
    match utf8_decode(a.raw_value.as_slice()) {
        None => Err(String::from_str("attribute value is not valid UTF-8")),
        Some(r) => unescape(r.as_str()),
    }
}

/// Executable `text_spec`.
pub fn text_of(raw: &Vec<u8>) -> (t: String)
    ensures
        t@ == text_spec(raw@),
{
    match utf8_decode(raw.as_slice()) {
        None => String::new(),
        Some(r) => match unescape(r.as_str()) {
            Ok(u) => u,
            Err(_) => r,
        },
    }
}

/// The text of a text event, trimmed.
pub fn trimmed_text(raw: &Vec<u8>) -> (t: String)
    ensures
        t@ == trim(text_spec(raw@)),
{
    let s = text_of(raw);
    let cs = chars_of(s.as_str());
    let tc = trim_chars(cs.as_slice());
    string_of(tc.as_slice())
}

} // verus!
