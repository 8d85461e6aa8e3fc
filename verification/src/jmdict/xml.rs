//! The events of an XML document.

use quick_xml::events::Event;
use vstd::prelude::*;

verus! {

#[verifier::external_type_specification]
#[verifier::external_body]
#[verifier::reject_recursive_types(R)]
pub struct ExReader<R>(quick_xml::Reader<R>);

#[verifier::external_type_specification]
#[verifier::external_body]
pub struct ExError(quick_xml::Error);

#[verifier::external_type_specification]
#[verifier::external_body]
pub struct ExBytesStart<'a>(quick_xml::events::BytesStart<'a>);

/// An attribute as it stands in a tag: its name and its raw value. Nothing where the tag is
/// malformed there.
pub type RawAttribute = Option<(Vec<u8>, Vec<u8>)>;

/// The contents of an attribute.
pub open spec fn attribute_view(attribute: RawAttribute) -> Option<(Seq<u8>, Seq<u8>)> {
    match attribute {
        Some((name, value)) => Some((name@, value@)),
        None => None,
    }
}

/// The contents of the attributes of a tag.
pub open spec fn attribute_views(attributes: Seq<RawAttribute>) -> Seq<Option<(Seq<u8>, Seq<u8>)>> {
    Seq::new(attributes.len(), |i: int| attribute_view(attributes[i]))
}

/// What a reader of XML meets.
pub enum XmlEvent {
    Start { name: Vec<u8>, attributes: Vec<RawAttribute> },
    Empty { name: Vec<u8>, attributes: Vec<RawAttribute> },
    Text(Vec<u8>),
    CData(Vec<u8>),
    Comment(Vec<u8>),
    End { name: Vec<u8> },
    Eof,
    Other,
}

/// The contents of an event.
pub enum EventView {
    Start { name: Seq<u8>, attributes: Seq<Option<(Seq<u8>, Seq<u8>)>> },
    Empty { name: Seq<u8>, attributes: Seq<Option<(Seq<u8>, Seq<u8>)>> },
    Text(Seq<u8>),
    CData(Seq<u8>),
    Comment(Seq<u8>),
    End { name: Seq<u8> },
    Eof,
    Other,
}

impl View for XmlEvent {
    type V = EventView;

    open spec fn view(&self) -> EventView {
        match self {
            XmlEvent::Start { name, attributes } => EventView::Start {
                name: name@,
                attributes: attribute_views(attributes@),
            },
            XmlEvent::Empty { name, attributes } => EventView::Empty {
                name: name@,
                attributes: attribute_views(attributes@),
            },
            XmlEvent::Text(content) => EventView::Text(content@),
            XmlEvent::CData(content) => EventView::CData(content@),
            XmlEvent::Comment(content) => EventView::Comment(content@),
            XmlEvent::End { name } => EventView::End { name: name@ },
            XmlEvent::Eof => EventView::Eof,
            XmlEvent::Other => EventView::Other,
        }
    }
}

/// The events of a document up to its end, `None` for the first error, which ends them too.
pub uninterp spec fn document_events(source: Seq<u8>) -> Seq<Option<EventView>>;

/// The events that a reader has not given yet.
pub uninterp spec fn unread(reader: quick_xml::Reader<&[u8]>) -> Seq<Option<EventView>>;

/// `quick_xml::Reader::from_reader` with `Config::trim_text(false)`: the reader will give the
/// events of the document. There is at least one: the end of the document, or an error.
#[verifier::external_body]
pub(crate) fn open_document(source: &[u8]) -> (reader: quick_xml::Reader<&[u8]>)
    ensures
        unread(reader) == document_events(source@),
        unread(reader).len() > 0,
{
    let mut reader = quick_xml::Reader::from_reader(source);
    reader.config_mut().trim_text(false);
    reader
}

/// The name of a tag.
pub uninterp spec fn tag_name(tag: quick_xml::events::BytesStart<'static>) -> Seq<u8>;

/// The attributes of a tag.
pub uninterp spec fn tag_attributes(tag: quick_xml::events::BytesStart<'static>) -> Seq<
    Option<(Seq<u8>, Seq<u8>)>,
>;

/// `quick_xml::events::BytesStart::name`: the name is a function of the tag.
#[verifier::external_body]
fn name_of(tag: &quick_xml::events::BytesStart<'static>) -> (name: Vec<u8>)
    ensures
        name@ == tag_name(*tag),
{
    tag.name().0.to_vec()
}

/// `quick_xml::events::BytesStart::attributes`, without checks: the attributes are a function of
/// the tag.
#[verifier::external_body]
fn attributes_of(tag: &quick_xml::events::BytesStart<'static>) -> (attributes: Vec<RawAttribute>)
    ensures
        attribute_views(attributes@) == tag_attributes(*tag),
{
    tag.attributes().with_checks(false).map(
        |attribute| attribute.ok().map(|found| (found.key.0.to_vec(), found.value.to_vec())),
    ).collect()
}

/// An event whose tags are as the reader gives them.
enum RawEvent {
    Start(quick_xml::events::BytesStart<'static>),
    Empty(quick_xml::events::BytesStart<'static>),
    Text(Vec<u8>),
    CData(Vec<u8>),
    Comment(Vec<u8>),
    End(Vec<u8>),
    Eof,
    Other,
}

impl RawEvent {
    /// The contents of the event.
    spec fn contents(self) -> EventView {
        match self {
            RawEvent::Start(tag) => EventView::Start {
                name: tag_name(tag),
                attributes: tag_attributes(tag),
            },
            RawEvent::Empty(tag) => EventView::Empty {
                name: tag_name(tag),
                attributes: tag_attributes(tag),
            },
            RawEvent::Text(content) => EventView::Text(content@),
            RawEvent::CData(content) => EventView::CData(content@),
            RawEvent::Comment(content) => EventView::Comment(content@),
            RawEvent::End(name) => EventView::End { name: name@ },
            RawEvent::Eof => EventView::Eof,
            RawEvent::Other => EventView::Other,
        }
    }
}

/// `quick_xml::Reader::read_event_into` gives the next event. After the end of the document, and
/// after an error, nothing is left to read.
#[verifier::external_body]
fn next_event(reader: &mut quick_xml::Reader<&[u8]>) -> (result: Result<RawEvent, quick_xml::Error>)
    requires
        unread(*old(reader)).len() > 0,
    ensures
        unread(*final(reader)) == unread(*old(reader)).drop_first(),
        match result {
            Ok(event) => unread(*old(reader))[0] == Some(event.contents()),
            Err(_) => unread(*old(reader))[0] is None,
        },
        (unread(*old(reader)).len() == 1) == (result is Err || result->Ok_0 is Eof),
{
    Ok(match reader.read_event_into(&mut Vec::new())? {
        Event::Start(tag) => RawEvent::Start(tag.into_owned()),
        Event::Empty(tag) => RawEvent::Empty(tag.into_owned()),
        Event::Text(text) => RawEvent::Text(text.to_vec()),
        Event::CData(text) => RawEvent::CData(text.to_vec()),
        Event::Comment(text) => RawEvent::Comment(text.to_vec()),
        Event::End(tag) => RawEvent::End(tag.name().0.to_vec()),
        Event::Eof => RawEvent::Eof,
        _ => RawEvent::Other,
    })
}

/// Reads the next event.
pub(crate) fn read_event(reader: &mut quick_xml::Reader<&[u8]>) -> (result: Result<
    XmlEvent,
    quick_xml::Error,
>)
    requires
        unread(*old(reader)).len() > 0,
    ensures
        unread(*final(reader)) == unread(*old(reader)).drop_first(),
        match result {
            Ok(event) => unread(*old(reader))[0] == Some(event@),
            Err(_) => unread(*old(reader))[0] is None,
        },
        (unread(*old(reader)).len() == 1) == (result is Err || result->Ok_0 is Eof),
{
    match next_event(reader) {
        Ok(RawEvent::Start(tag)) => Ok(
            XmlEvent::Start { name: name_of(&tag), attributes: attributes_of(&tag) },
        ),
        Ok(RawEvent::Empty(tag)) => Ok(
            XmlEvent::Empty { name: name_of(&tag), attributes: attributes_of(&tag) },
        ),
        Ok(RawEvent::Text(content)) => Ok(XmlEvent::Text(content)),
        Ok(RawEvent::CData(content)) => Ok(XmlEvent::CData(content)),
        Ok(RawEvent::Comment(content)) => Ok(XmlEvent::Comment(content)),
        Ok(RawEvent::End(name)) => Ok(XmlEvent::End { name }),
        Ok(RawEvent::Eof) => Ok(XmlEvent::Eof),
        Ok(RawEvent::Other) => Ok(XmlEvent::Other),
        Err(error) => Err(error),
    }
}

/// The text that raw content stands for: it is UTF-8.
pub open spec fn decoded(content: Seq<u8>) -> Option<Seq<char>> {
    if vstd::utf8::valid_utf8(content) {
        Some(vstd::utf8::decode_utf8(content))
    } else {
        None
    }
}

/// `quick_xml::encoding::Decoder::decode` of a reader: without the `encoding` feature it takes
/// all content for UTF-8, and fails where it is not.
#[verifier::external_body]
pub(crate) fn decode(content: &[u8]) -> (result: Option<String>)
    ensures
        match result {
            Some(text) => decoded(content@) == Some(text@),
            None => decoded(content@) is None,
        },
{
    let decoder = quick_xml::Reader::from_reader(content).decoder();
    decoder.decode(content).ok().map(|text| text.into_owned())
}

/// The text with its character and entity references resolved; nothing where one is unknown or
/// malformed.
pub uninterp spec fn unescaped(text: Seq<char>) -> Option<Seq<char>>;

/// `quick_xml::escape::unescape`: the text that it gives, and whether it gives any, are a
/// function of the text alone.
#[verifier::external_body]
pub(crate) fn unescape(text: &str) -> (result: Option<String>)
    ensures
        match result {
            Some(plain) => unescaped(text@) == Some(plain@),
            None => unescaped(text@) is None,
        },
{
    quick_xml::escape::unescape(text).ok().map(|plain| plain.into_owned())
}

/// The value of an attribute.
pub open spec fn attribute_value(raw: Seq<u8>) -> Option<Seq<char>> {
    match decoded(raw) {
        Some(text) => unescaped(text),
        None => None,
    }
}

/// `quick_xml::events::attributes::Attribute::decode_and_unescape_value`: it decodes the raw
/// value, and resolves the predefined references as `quick_xml::escape::unescape` does.
#[verifier::external_body]
pub(crate) fn decode_value(raw: &[u8]) -> (result: Option<String>)
    ensures
        match result {
            Some(value) => attribute_value(raw@) == Some(value@),
            None => attribute_value(raw@) is None,
        },
{
    let decoder = quick_xml::Reader::from_reader(raw).decoder();
    let attribute = quick_xml::events::attributes::Attribute {
        key: quick_xml::name::QName(&[]),
        value: std::borrow::Cow::Borrowed(raw),
    };
    attribute.decode_and_unescape_value(decoder).ok().map(|value| value.into_owned())
}

} // verus!
