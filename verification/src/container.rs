//! `META-INF/container.xml`: where the package document is.

use vstd::prelude::*;

use crate::book::{BookError, BookErrorModel, XmlDoc};
use crate::text::{chars_of, text_is};
use crate::xml::{
    attr_value, attr_value_spec, attr_views, attributes_of, event_views, read_events,
    string_result_view,
    tag_attributes, xml_events_of, AttrModel, EventModel, XmlAttr, XmlEvent,
};

verus! {

/// The first attribute whose key is `key`.
pub open spec fn first_attr(attrs: Seq<AttrModel>, key: Seq<char>) -> Option<AttrModel>
    decreases attrs.len(),
{
    if attrs.len() == 0 {
        None
    } else if attrs[0].key == key {
        Some(attrs[0])
    } else {
        first_attr(attrs.drop_first(), key)
    }
}

/// The decoded value of the first attribute with key `key`: `None` when there
/// is none, `Some(Err(..))` when its value does not decode.
pub open spec fn first_attr_value(attrs: Seq<AttrModel>, key: Seq<char>) -> Option<Result<Seq<char>, Seq<char>>> {
    match first_attr(attrs, key) {
        None => None,
        Some(a) => Some(attr_value_spec(a)),
    }
}

/// The decoded value of the last attribute with key `key`, starting from
/// `cur`; the first value that does not decode is the error.
pub open spec fn last_attr_value(attrs: Seq<AttrModel>, key: Seq<char>, cur: Option<Seq<char>>) -> Result<Option<Seq<char>>, Seq<char>>
    decreases attrs.len(),
{
    if attrs.len() == 0 {
        Ok(cur)
    } else if attrs[0].key == key {
        match attr_value_spec(attrs[0]) {
            Ok(v) => last_attr_value(attrs.drop_first(), key, Some(v)),
            Err(m) => Err(m),
        }
    } else {
        last_attr_value(attrs.drop_first(), key, cur)
    }
}

/// Scanning the container's events: the `full-path` of the first `rootfile`
/// tag that has one.
pub open spec fn rootfile_spec(evs: Seq<EventModel>) -> Result<Seq<char>, BookErrorModel>
    decreases evs.len(),
{
    if evs.len() == 0 {
        Err(BookErrorModel::NoRootfile)
    } else {
        match evs[0] {
            EventModel::Eof => Err(BookErrorModel::NoRootfile),
            EventModel::Failed(m) => Err(BookErrorModel::Xml(XmlDoc::Container, m)),
            EventModel::Start(n, a) | EventModel::Empty(n, a) => if n == "rootfile"@ {
                match first_attr_value(attributes_of(a), "full-path"@) {
                    Some(Ok(v)) => Ok(v),
                    Some(Err(m)) => Err(BookErrorModel::Attribute(m)),
                    None => rootfile_spec(evs.drop_first()),
                }
            } else {
                rootfile_spec(evs.drop_first())
            },
            _ => rootfile_spec(evs.drop_first()),
        }
    }
}

/// The path of the package document that `container.xml` names.
pub open spec fn find_opf_path_spec(container: Seq<char>) -> Result<Seq<char>, BookErrorModel> {
    rootfile_spec(xml_events_of(container))
}

/// The result of a fallible step, by its model.
pub open spec fn result_view(r: Result<String, BookError>) -> Result<Seq<char>, BookErrorModel> {
    match r {
        Ok(s) => Ok(s@),
        Err(e) => Err(e@),
    }
}

/// Executable `first_attr_value`.
pub fn find_attr_value(attrs: &Vec<XmlAttr>, key: &str) -> (r: Option<Result<String, String>>)
    ensures
        match r {
            None => first_attr_value(attr_views(attrs@), key@) is None,
            Some(v) => first_attr_value(attr_views(attrs@), key@) == Some(string_result_view(v)),
        },
{
    let ghost all = attr_views(attrs@);
    let mut i: usize = 0;
    proof {
        assert(all.skip(0) =~= all);
    }
    while i < attrs.len()
        invariant
            i <= attrs@.len(),
            all == attr_views(attrs@),
            first_attr(all, key@) == first_attr(all.skip(i as int), key@),
        decreases attrs@.len() - i,
    {
        proof {
            assert(all.skip(i as int).drop_first() =~= all.skip(i + 1));
            assert(all.skip(i as int)[0] == attrs@[i as int]@);
        }
        let kc = chars_of(attrs[i].key.as_str());
        if text_is(kc.as_slice(), key) {
            return Some(attr_value(&attrs[i]));
        }
        i = i + 1;
    }
    None
}

/// Executable `last_attr_value`.
pub fn read_last_attr(attrs: &Vec<XmlAttr>, key: &str, start: Option<String>) -> (r: Result<Option<String>, String>)
    ensures
        match last_attr_value(attr_views(attrs@), key@, start.deep_view()) {
            Ok(x) => r matches Ok(v) && v.deep_view() == x,
            Err(m) => r matches Err(e) && e@ == m,
        },
{
    let ghost all = attr_views(attrs@);
    let mut cur = start;
    let ghost c0 = start.deep_view();
    let mut i: usize = 0;
    proof {
        assert(all.skip(0) =~= all);
    }
    while i < attrs.len()
        invariant
            i <= attrs@.len(),
            all == attr_views(attrs@),
            c0 == start.deep_view(),
            last_attr_value(all, key@, c0) == last_attr_value(all.skip(i as int), key@, cur.deep_view()),
        decreases attrs@.len() - i,
    {
        proof {
            assert(all.skip(i as int).drop_first() =~= all.skip(i + 1));
            assert(all.skip(i as int)[0] == attrs@[i as int]@);
        }
        let kc = chars_of(attrs[i].key.as_str());
        if text_is(kc.as_slice(), key) {
            match attr_value(&attrs[i]) {
                Ok(v) => {
                    cur = Some(v);
                },
                Err(m) => {
                    return Err(m);
                },
            }
        }
        i = i + 1;
    }
    Ok(cur)
}

/// The `full-path` attribute of the first `rootfile` tag, among the events
/// of `container.xml`, that has one.
pub fn find_rootfile(events: &Vec<XmlEvent>) -> (r: Result<String, BookError>)
    ensures
        result_view(r) == rootfile_spec(event_views(events@)),
{
    let ghost all = event_views(events@);
    let mut i: usize = 0;
    proof {
        assert(all.skip(0) =~= all);
    }
    while i < events.len()
        invariant
            i <= events@.len(),
            all == event_views(events@),
            rootfile_spec(all) == rootfile_spec(all.skip(i as int)),
        decreases events@.len() - i,
    {
        proof {
            assert(all.skip(i as int).drop_first() =~= all.skip(i + 1));
            assert(all.skip(i as int)[0] == events@[i as int]@);
        }
        match &events[i] {
            XmlEvent::Eof => {
                proof {
                    assert(all.skip(i as int).len() > 0);
                    assert(all.skip(i as int)[0] is Eof);
                }
                return Err(BookError::NoRootfile);
            },
            XmlEvent::Failed(m) => {
                proof {
                    assert(all.skip(i as int).len() > 0);
                    assert(all.skip(i as int)[0] == EventModel::Failed(m@));
                }
                return Err(BookError::Xml(XmlDoc::Container, m.clone()));
            },
            XmlEvent::Start(n, a) | XmlEvent::Empty(n, a) => {
                let nc = chars_of(n.as_str());
                if text_is(nc.as_slice(), "rootfile") {
                    let attrs = tag_attributes(a.as_str());
                    match find_attr_value(&attrs, "full-path") {
                        Some(Ok(v)) => {
                            return Ok(v);
                        },
                        Some(Err(m)) => {
                            return Err(BookError::Attribute(m));
                        },
                        None => {},
                    }
                }
            },
            _ => {},
        }
        i = i + 1;
    }
    proof {
        assert(all.skip(i as int).len() == 0);
    }
    Err(BookError::NoRootfile)
}

/// The path of the package document: the `full-path` attribute of the first
/// `rootfile` tag of `container.xml` that has one.
pub fn find_opf_path(container: &str) -> (r: Result<String, BookError>)
    ensures
        result_view(r) == find_opf_path_spec(container@),
{
    let events = read_events(container);
    find_rootfile(&events)
}

} // verus!
