//! The package (OPF) document: metadata, manifest, spine and the id of the
//! NCX table of contents.

use vstd::prelude::*;

use crate::book::{BookError, BookErrorModel, Metadata, MetadataModel, XmlDoc};
use crate::container::{find_attr_value, first_attr_value, last_attr_value, read_last_attr};
use crate::manifest::Manifest;
use crate::text::{chars_of, contains, text_contains, text_is, trim};
use crate::xml::{
    attr_value, attr_value_spec, attr_views, attributes_of, event_views, read_events, tag_attributes,
    text_spec, trimmed_text, xml_events_of, AttrModel, EventModel, XmlAttr, XmlEvent,
};

verus! {

/// The metadata field that the next text fills.
#[derive(Clone, Copy, Debug, PartialEq, Eq, Structural)]
pub enum MetaField {
    Title,
    Author,
    Publisher,
    Language,
}

/// The state of reading a package document.
pub struct OpfModel {
    pub metadata: MetadataModel,
    pub manifest: Map<Seq<char>, Seq<char>>,
    pub spine: Seq<Seq<char>>,
    pub ncx_id: Option<Seq<char>>,
    pub current: Option<MetaField>,
}

/// The state before the first event.
pub open spec fn opf_start() -> OpfModel {
    OpfModel {
        metadata: MetadataModel { title: None, author: None, publisher: None, language: None },
        manifest: Map::empty(),
        spine: Seq::empty(),
        ncx_id: None,
        current: None,
    }
}

/// The values of the last `id` and `href` attributes, starting from `id` and `href`.
pub open spec fn item_attrs(attrs: Seq<AttrModel>, id: Seq<char>, href: Seq<char>) -> Result<(Seq<char>, Seq<char>), Seq<char>>
    decreases attrs.len(),
{
    if attrs.len() == 0 {
        Ok((id, href))
    } else if attrs[0].key == "id"@ {
        match attr_value_spec(attrs[0]) {
            Ok(v) => item_attrs(attrs.drop_first(), v, href),
            Err(m) => Err(m),
        }
    } else if attrs[0].key == "href"@ {
        match attr_value_spec(attrs[0]) {
            Ok(v) => item_attrs(attrs.drop_first(), id, v),
            Err(m) => Err(m),
        }
    } else {
        item_attrs(attrs.drop_first(), id, href)
    }
}

/// The metadata with `field` set to `text`.
pub open spec fn set_field(m: MetadataModel, field: MetaField, text: Seq<char>) -> MetadataModel {
    match field {
        MetaField::Title => MetadataModel { title: Some(text), ..m },
        MetaField::Author => MetadataModel { author: Some(text), ..m },
        MetaField::Publisher => MetadataModel { publisher: Some(text), ..m },
        MetaField::Language => MetadataModel { language: Some(text), ..m },
    }
}

/// What one event, other than the end of input or an error, does to the state.
pub open spec fn opf_step(st: OpfModel, ev: EventModel) -> Result<OpfModel, BookErrorModel> {
    match ev {
        EventModel::Start(n, a) => if contains(n, "title"@) {
            Ok(OpfModel { current: Some(MetaField::Title), ..st })
        } else if contains(n, "creator"@) {
            Ok(OpfModel { current: Some(MetaField::Author), ..st })
        } else if contains(n, "publisher"@) {
            Ok(OpfModel { current: Some(MetaField::Publisher), ..st })
        } else if contains(n, "language"@) {
            Ok(OpfModel { current: Some(MetaField::Language), ..st })
        } else if n == "spine"@ {
            match last_attr_value(attributes_of(a), "toc"@, st.ncx_id) {
                Ok(x) => Ok(OpfModel { ncx_id: x, ..st }),
                Err(m) => Err(BookErrorModel::Attribute(m)),
            }
        } else {
            Ok(st)
        },
        EventModel::Empty(n, a) => if contains(n, "item"@) && !contains(n, "itemref"@) {
            match item_attrs(attributes_of(a), Seq::empty(), Seq::empty()) {
                Err(m) => Err(BookErrorModel::Attribute(m)),
                Ok((id, href)) => if id.len() > 0 && href.len() > 0 {
                    Ok(OpfModel { manifest: st.manifest.insert(id, href), ..st })
                } else {
                    Ok(st)
                },
            }
        } else if contains(n, "itemref"@) {
            match first_attr_value(attributes_of(a), "idref"@) {
                None => Ok(st),
                Some(Ok(v)) => Ok(OpfModel { spine: st.spine.push(v), ..st }),
                Some(Err(m)) => Err(BookErrorModel::Attribute(m)),
            }
        } else {
            Ok(st)
        },
        EventModel::Text(raw) => match st.current {
            None => Ok(st),
            Some(f) => {
                let t = trim(text_spec(raw));
                if t.len() > 0 {
                    Ok(OpfModel { current: None, metadata: set_field(st.metadata, f, t), ..st })
                } else {
                    Ok(OpfModel { current: None, ..st })
                }
            },
        },
        EventModel::End(_) => Ok(OpfModel { current: None, ..st }),
        _ => Ok(st),
    }
}

/// Law: the attributes of a manifest item are read whatever their order:
/// the id is the value of the last `id` attribute and the link that of the
/// last `href` attribute (`id` and `href` when there is none), and reading
/// fails exactly when the value of an `id` or `href` attribute does not
/// decode.
pub proof fn lemma_item_attrs_any_order(attrs: Seq<AttrModel>, id: Seq<char>, href: Seq<char>)
    ensures
        item_attrs(attrs, id, href) is Ok <==> (last_attr_value(attrs, "id"@, Some(id)) is Ok
            && last_attr_value(attrs, "href"@, Some(href)) is Ok),
        item_attrs(attrs, id, href) is Ok ==> {
            let (i, h) = item_attrs(attrs, id, href)->Ok_0;
            &&& last_attr_value(attrs, "id"@, Some(id)) == Ok::<Option<Seq<char>>, Seq<char>>(Some(i))
            &&& last_attr_value(attrs, "href"@, Some(href)) == Ok::<Option<Seq<char>>, Seq<char>>(
                Some(h),
            )
        },
    decreases attrs.len(),
{
    reveal_strlit("id");
    reveal_strlit("href");
    assert("id"@ != "href"@) by {
        assert("id"@.len() != "href"@.len());
    }
    if attrs.len() > 0 {
        let rest = attrs.drop_first();
        if attrs[0].key == "id"@ {
            match attr_value_spec(attrs[0]) {
                Ok(v) => lemma_item_attrs_any_order(rest, v, href),
                Err(_) => {},
            }
        } else if attrs[0].key == "href"@ {
            match attr_value_spec(attrs[0]) {
                Ok(v) => lemma_item_attrs_any_order(rest, id, v),
                Err(_) => {},
            }
        } else {
            lemma_item_attrs_any_order(rest, id, href);
        }
    }
}

/// Law: an `item` tag whose last `id` and last `href` attributes decode to
/// non-empty values maps that id to that link in the manifest, whatever the
/// order of its attributes, and changes nothing else.
pub proof fn lemma_manifest_item(st: OpfModel, a: Seq<char>, id: Seq<char>, href: Seq<char>)
    requires
        last_attr_value(attributes_of(a), "id"@, Some(Seq::empty())) == Ok::<
            Option<Seq<char>>,
            Seq<char>,
        >(Some(id)),
        last_attr_value(attributes_of(a), "href"@, Some(Seq::empty())) == Ok::<
            Option<Seq<char>>,
            Seq<char>,
        >(Some(href)),
        id.len() > 0,
        href.len() > 0,
    ensures
        opf_step(st, EventModel::Empty("item"@, a)) == Ok::<OpfModel, BookErrorModel>(
            OpfModel { manifest: st.manifest.insert(id, href), ..st },
        ),
{
    reveal_strlit("item");
    reveal_strlit("itemref");
    assert(contains("item"@, "item"@)) by {
        assert("item"@.subrange(0, 4) =~= "item"@);
        assert(crate::text::occurs_at("item"@, "item"@, 0));
    }
    assert(!contains("item"@, "itemref"@));
    lemma_item_attrs_any_order(attributes_of(a), Seq::empty(), Seq::empty());
}

/// Law: an `itemref` tag appends the value of its first `idref` attribute
/// to the spine, after the documents already there, and changes nothing
/// else.
pub proof fn lemma_spine_itemref(st: OpfModel, a: Seq<char>, v: Seq<char>)
    requires
        first_attr_value(attributes_of(a), "idref"@) == Some(Ok::<Seq<char>, Seq<char>>(v)),
    ensures
        opf_step(st, EventModel::Empty("itemref"@, a)) == Ok::<OpfModel, BookErrorModel>(
            OpfModel { spine: st.spine.push(v), ..st },
        ),
{
    reveal_strlit("item");
    reveal_strlit("itemref");
    assert(contains("itemref"@, "itemref"@)) by {
        assert("itemref"@.subrange(0, 7) =~= "itemref"@);
        assert(crate::text::occurs_at("itemref"@, "itemref"@, 0));
    }
}

/// Law: the text of a metadata element becomes, trimmed and with its
/// references replaced, the field that the element's name names: a name
/// holding `title` the title, else one holding `creator` the author, else
/// `publisher` the publisher, else `language` the language. Empty text sets
/// nothing; the manifest and the spine stay as they are.
pub proof fn lemma_metadata_text(st: OpfModel, n: Seq<char>, a: Seq<char>, raw: Seq<u8>)
    requires
        contains(n, "title"@) || contains(n, "creator"@) || contains(n, "publisher"@) || contains(
            n,
            "language"@,
        ),
    ensures
        opf_step(st, EventModel::Start(n, a)) is Ok,
        opf_step(opf_step(st, EventModel::Start(n, a))->Ok_0, EventModel::Text(raw)) is Ok,
        ({
            let t = trim(text_spec(raw));
            let m = opf_step(opf_step(st, EventModel::Start(n, a))->Ok_0, EventModel::Text(raw))->Ok_0;
            &&& m.manifest == st.manifest
            &&& m.spine == st.spine
            &&& t.len() == 0 ==> m.metadata == st.metadata
            &&& t.len() > 0 ==> if contains(n, "title"@) {
                m.metadata == MetadataModel { title: Some(t), ..st.metadata }
            } else if contains(n, "creator"@) {
                m.metadata == MetadataModel { author: Some(t), ..st.metadata }
            } else if contains(n, "publisher"@) {
                m.metadata == MetadataModel { publisher: Some(t), ..st.metadata }
            } else {
                m.metadata == MetadataModel { language: Some(t), ..st.metadata }
            }
        }),
{
}

/// Reading the events from state `st` on, up to the end of input or an error.
pub open spec fn opf_run(st: OpfModel, evs: Seq<EventModel>) -> Result<OpfModel, BookErrorModel>
    decreases evs.len(),
{
    if evs.len() == 0 {
        Ok(st)
    } else {
        match evs[0] {
            EventModel::Eof => Ok(st),
            EventModel::Failed(m) => Err(BookErrorModel::Xml(XmlDoc::Package, m)),
            _ => match opf_step(st, evs[0]) {
                Ok(s2) => opf_run(s2, evs.drop_first()),
                Err(e) => Err(e),
            },
        }
    }
}

/// What a package document holds.
pub open spec fn parse_opf_spec(content: Seq<char>) -> Result<OpfModel, BookErrorModel> {
    opf_run(opf_start(), xml_events_of(content))
}

/// The state of reading a package document.
struct OpfState {
    metadata: Metadata,
    manifest: Manifest,
    spine: Vec<String>,
    ncx_id: Option<String>,
    current: Option<MetaField>,
}

impl View for OpfState {
    type V = OpfModel;

    closed spec fn view(&self) -> OpfModel {
        OpfModel {
            metadata: self.metadata@,
            manifest: self.manifest@,
            spine: self.spine.deep_view(),
            ncx_id: self.ncx_id.deep_view(),
            current: self.current,
        }
    }
}

/// Executable `item_attrs` from empty values.
fn read_item_attrs(attrs: &Vec<XmlAttr>) -> (r: Result<(String, String), String>)
    ensures
        match item_attrs(attr_views(attrs@), Seq::empty(), Seq::empty()) {
            Ok(x) => r matches Ok(v) && v.0@ == x.0 && v.1@ == x.1,
            Err(m) => r matches Err(e) && e@ == m,
        },
{
    let ghost all = attr_views(attrs@);
    let mut id = String::new();
    let mut href = String::new();
    let mut i: usize = 0;
    proof {
        assert(all.skip(0) =~= all);
    }
    while i < attrs.len()
        invariant
            i <= attrs@.len(),
            all == attr_views(attrs@),
            item_attrs(all, Seq::empty(), Seq::empty()) == item_attrs(all.skip(i as int), id@, href@),
        decreases attrs@.len() - i,
    {
        proof {
            assert(all.skip(i as int).drop_first() =~= all.skip(i + 1));
            assert(all.skip(i as int)[0] == attrs@[i as int]@);
        }
        let kc = chars_of(attrs[i].key.as_str());
        if text_is(kc.as_slice(), "id") {
            match attr_value(&attrs[i]) {
                Ok(v) => {
                    id = v;
                },
                Err(m) => {
                    return Err(m);
                },
            }
        } else if text_is(kc.as_slice(), "href") {
            match attr_value(&attrs[i]) {
                Ok(v) => {
                    href = v;
                },
                Err(m) => {
                    return Err(m);
                },
            }
        }
        i = i + 1;
    }
    Ok((id, href))
}

/// One event, other than the end of input or an error.
fn opf_step_exec(st: &mut OpfState, ev: &XmlEvent) -> (r: Result<(), BookError>)
    requires
        !(ev@ is Eof),
        !(ev@ is Failed),
    ensures
        match opf_step(old(st)@, ev@) {
            Ok(s2) => r is Ok && final(st)@ == s2,
            Err(e) => r matches Err(x) && x@ == e,
        },
{
    match ev {
        XmlEvent::Start(n, a) => {
            let nc = chars_of(n.as_str());
            if text_contains(nc.as_slice(), "title") {
                st.current = Some(MetaField::Title);
            } else if text_contains(nc.as_slice(), "creator") {
                st.current = Some(MetaField::Author);
            } else if text_contains(nc.as_slice(), "publisher") {
                st.current = Some(MetaField::Publisher);
            } else if text_contains(nc.as_slice(), "language") {
                st.current = Some(MetaField::Language);
            } else if text_is(nc.as_slice(), "spine") {
                let attrs = tag_attributes(a.as_str());
                let cur = st.ncx_id.clone();
                match read_last_attr(&attrs, "toc", cur) {
                    Ok(x) => {
                        st.ncx_id = x;
                    },
                    Err(m) => {
                        return Err(BookError::Attribute(m));
                    },
                }
            }
            Ok(())
        },
        XmlEvent::Empty(n, a) => {
            let nc = chars_of(n.as_str());
            if text_contains(nc.as_slice(), "item") && !text_contains(nc.as_slice(), "itemref") {
                let attrs = tag_attributes(a.as_str());
                match read_item_attrs(&attrs) {
                    Ok((id, href)) => {
                        if id.as_str().unicode_len() > 0 && href.as_str().unicode_len() > 0 {
                            st.manifest.insert(id, href);
                        }
                    },
                    Err(m) => {
                        return Err(BookError::Attribute(m));
                    },
                }
            } else if text_contains(nc.as_slice(), "itemref") {
                let attrs = tag_attributes(a.as_str());
                match find_attr_value(&attrs, "idref") {
                    None => {},
                    Some(Ok(v)) => {
                        let ghost before = st.spine.deep_view();
                        let ghost vv = v@;
                        st.spine.push(v);
                        proof {
                            assert(st.spine.deep_view() =~= before.push(vv));
                        }
                    },
                    Some(Err(m)) => {
                        return Err(BookError::Attribute(m));
                    },
                }
            }
            Ok(())
        },
        XmlEvent::Text(raw) => {
            match st.current {
                None => {},
                Some(f) => {
                    st.current = None;
                    let t = trimmed_text(raw);
                    if t.as_str().unicode_len() > 0 {
                        match f {
                            MetaField::Title => {
                                st.metadata.title = Some(t);
                            },
                            MetaField::Author => {
                                st.metadata.author = Some(t);
                            },
                            MetaField::Publisher => {
                                st.metadata.publisher = Some(t);
                            },
                            MetaField::Language => {
                                st.metadata.language = Some(t);
                            },
                        }
                    }
                },
            }
            Ok(())
        },
        XmlEvent::End(_) => {
            st.current = None;
            Ok(())
        },
        _ => Ok(()),
    }
}

/// Reads the events of a package document: its metadata, its manifest (item
/// ids mapped to links), its spine (the item ids of the reading order) and
/// the item id of its NCX table of contents.
pub fn parse_opf_events(events: &Vec<XmlEvent>) -> (r: Result<(Metadata, Manifest, Vec<String>, Option<String>), BookError>)
    ensures
        match opf_run(opf_start(), event_views(events@)) {
            Ok(m) => r matches Ok(v) && v.0@ == m.metadata && v.1@ == m.manifest && v.2.deep_view() == m.spine
                && v.3.deep_view() == m.ncx_id,
            Err(e) => r matches Err(x) && x@ == e,
        },
{
    let ghost all = event_views(events@);
    let mut st = OpfState {
        metadata: Metadata::empty(),
        manifest: Manifest::new(),
        spine: Vec::new(),
        ncx_id: None,
        current: None,
    };
    proof {
        assert(all.skip(0) =~= all);
        assert(st.spine.deep_view() =~= Seq::<Seq<char>>::empty());
        assert(st@ == opf_start());
    }
    let mut i: usize = 0;
    while i < events.len()
        invariant_except_break
            i <= events@.len(),
            all == event_views(events@),
            opf_run(opf_start(), all) == opf_run(st@, all.skip(i as int)),
        ensures
            opf_run(opf_start(), all) == Ok::<OpfModel, BookErrorModel>(st@),
        decreases events@.len() - i,
    {
        proof {
            assert(all.skip(i as int).drop_first() =~= all.skip(i + 1));
            assert(all.skip(i as int).len() > 0);
            assert(all.skip(i as int)[0] == events@[i as int]@);
        }
        match &events[i] {
            XmlEvent::Eof => {
                proof {
                    assert(all.skip(i as int)[0] is Eof);
                }
                break;
            },
            XmlEvent::Failed(m) => {
                proof {
                    assert(all.skip(i as int)[0] == EventModel::Failed(m@));
                }
                return Err(BookError::Xml(XmlDoc::Package, m.clone()));
            },
            ev => {
                match opf_step_exec(&mut st, ev) {
                    Ok(()) => {},
                    Err(e) => {
                        return Err(e);
                    },
                }
            },
        }
        i = i + 1;
    }
    Ok((st.metadata, st.manifest, st.spine, st.ncx_id))
}

/// Reads a package document: its metadata, its manifest (item ids mapped to
/// links), its spine (the item ids of the reading order) and the item id of
/// its NCX table of contents.
pub fn parse_opf(content: &str) -> (r: Result<(Metadata, Manifest, Vec<String>, Option<String>), BookError>)
    ensures
        match parse_opf_spec(content@) {
            Ok(m) => r matches Ok(v) && v.0@ == m.metadata && v.1@ == m.manifest && v.2.deep_view() == m.spine
                && v.3.deep_view() == m.ncx_id,
            Err(e) => r matches Err(x) && x@ == e,
        },
{
    let events = read_events(content);
    parse_opf_events(&events)
}

} // verus!
