//! XML as the `quick-xml` crate reads it, one event at a time.

use quick_xml::events::attributes::Attribute;
use quick_xml::events::{BytesStart, Event};
use quick_xml::name::QName;
use quick_xml::Reader;
use vstd::prelude::*;
use vstd::utf8::*;

verus! {

/// `quick_xml::Reader`, over any source of bytes.
#[verifier::external_type_specification]
#[verifier::external_body]
#[verifier::reject_recursive_types(R)]
pub struct ExReader<R>(Reader<R>);

/// `quick_xml::events::BytesStart`, a start tag: a name and a collection of
/// attributes.
#[verifier::external_type_specification]
#[verifier::external_body]
pub struct ExBytesStart<'a>(BytesStart<'a>);

/// The name of a tag.
pub uninterp spec fn tag_name(tag: BytesStart<'static>) -> Seq<u8>;

/// The attributes of a tag in document order, each with its key and its value as
/// written. An attribute that is malformed is `None`.
pub uninterp spec fn tag_attributes(tag: BytesStart<'static>) -> Seq<Option<(Seq<u8>, Seq<u8>)>>;

/// `BytesStart::name`.
#[verifier::external_body]
pub(crate) fn name_of(tag: &BytesStart<'static>) -> (r: Vec<u8>)
    ensures
        r@ == tag_name(*tag),
{
    tag.name().into_inner().to_vec()
}

/// An attribute by what it says.
pub open spec fn attribute_view(a: Option<(Vec<u8>, Vec<u8>)>) -> Option<(Seq<u8>, Seq<u8>)> {
    match a {
        Some((key, value)) => Some((key@, value@)),
        None => None,
    }
}

/// `BytesStart::attributes`, with the key and the raw value of each attribute.
#[verifier::external_body]
pub(crate) fn attributes_of(tag: &BytesStart<'static>) -> (r: Vec<Option<(Vec<u8>, Vec<u8>)>>)
    ensures
        r@.map_values(|a: Option<(Vec<u8>, Vec<u8>)>| attribute_view(a)) == tag_attributes(*tag),
{
    let pair = |a: Attribute<'_>| (a.key.into_inner().to_vec(), a.value.into_owned());
    tag.attributes().map(|a| a.ok().map(pair)).collect()
}

pub enum XmlEvent {
    Start(BytesStart<'static>),
    End(Vec<u8>),
    /// A tag that is start and end in one.
    Empty(BytesStart<'static>),
    /// Character data between tags, as written.
    Text(Vec<u8>),
    /// A comment, a declaration and the like.
    Other,
    /// The document is not well-formed here.
    Bad(String),
}

/// A start tag by what it says.
pub ghost struct XmlTagView {
    pub name: Seq<u8>,
    pub attributes: Seq<Option<(Seq<u8>, Seq<u8>)>>,
}

/// An [`XmlEvent`] by what it says.
pub ghost enum XmlEventView {
    Start(XmlTagView),
    End(Seq<u8>),
    Empty(XmlTagView),
    Text(Seq<u8>),
    Other,
    Bad(Seq<char>),
}

pub open spec fn tag_view(tag: BytesStart<'static>) -> XmlTagView {
    XmlTagView { name: tag_name(tag), attributes: tag_attributes(tag) }
}

impl View for XmlEvent {
    type V = XmlEventView;

    open spec fn view(&self) -> XmlEventView {
        match self {
            XmlEvent::Start(tag) => XmlEventView::Start(tag_view(*tag)),
            XmlEvent::End(name) => XmlEventView::End(name@),
            XmlEvent::Empty(tag) => XmlEventView::Empty(tag_view(*tag)),
            XmlEvent::Text(raw) => XmlEventView::Text(raw@),
            XmlEvent::Other => XmlEventView::Other,
            XmlEvent::Bad(text) => XmlEventView::Bad(text@),
        }
    }
}

/// The events of a document up to its end or its first fault, as quick-xml
/// reads them with white space around text trimmed.
pub uninterp spec fn xml_events(xml: Seq<u8>) -> Seq<XmlEventView>;

/// The events that a reader has yet to give.
pub uninterp spec fn events_left(reader: Reader<&[u8]>) -> Seq<XmlEventView>;

/// `Reader::from_reader`, with `Config::trim_text` switched on: a reader at the
/// start of the document.
#[verifier::external_body]
pub(crate) fn open_xml(xml: &[u8]) -> (r: Reader<&[u8]>)
    ensures
        events_left(r) == xml_events(xml@),
{
    let mut reader = Reader::from_reader(xml);
    reader.config_mut().trim_text(true);
    reader
}

/// `Reader::read_event_into`: the next event, or `None` at the end of the
/// document. Each event takes something off the document, so they run out.
/// Nothing is said of a reader once it has reported a fault.
#[verifier::external_body]
pub(crate) fn next_event(reader: &mut Reader<&[u8]>) -> (r: Option<XmlEvent>)
    ensures
        match r {
            Some(e) => {
                &&& events_left(*old(reader)).len() > 0
                &&& e@ == events_left(*old(reader))[0]
                &&& !(e is Bad) ==> events_left(*final(reader)) == events_left(
                    *old(reader),
                ).drop_first()
            },
            None => events_left(*old(reader)).len() == 0,
        },
{
    match reader.read_event_into(&mut Vec::new()) {
        Ok(Event::Start(e)) => Some(XmlEvent::Start(e.into_owned())),
        Ok(Event::End(e)) => Some(XmlEvent::End(e.name().into_inner().to_vec())),
        Ok(Event::Empty(e)) => Some(XmlEvent::Empty(e.into_owned())),
        Ok(Event::Text(e)) => Some(XmlEvent::Text(e.to_vec())),
        Ok(Event::Eof) => None,
        Ok(_) => Some(XmlEvent::Other),
        Err(e) => Some(XmlEvent::Bad(e.to_string())),
    }
}

/// The text of a value as written, with its entities resolved, or what stands
/// against that.
pub uninterp spec fn unescaped(raw: Seq<u8>) -> std::result::Result<Seq<char>, Seq<char>>;

pub open spec fn texts(r: std::result::Result<String, String>) -> std::result::Result<
    Seq<char>,
    Seq<char>,
> {
    match r {
        Ok(s) => Ok(s@),
        Err(e) => Err(e@),
    }
}

/// `Attribute::unescape_value`, which decodes UTF-8 and resolves the predefined
/// entities, as `BytesText::unescape` does with character data. A value without
/// `&` is its own text.
#[verifier::external_body]
pub(crate) fn unescape_value(raw: &[u8]) -> (r: std::result::Result<String, String>)
    ensures
        texts(r) == unescaped(raw@),
        valid_utf8(raw@) && !raw@.contains(38u8) ==> r is Ok && r->Ok_0@ == decode_utf8(raw@),
{
    let attribute = Attribute { key: QName(b""), value: raw.into() };
    attribute.unescape_value().map(|s| s.into_owned()).map_err(|e| e.to_string())
}

} // verus!
