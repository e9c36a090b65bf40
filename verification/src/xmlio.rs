use vstd::prelude::*;

use crate::events::{Ev, XmlEvent};
use crate::text::spec_escape;
use quick_xml::events::Event;

verus! {

/// The streaming XML reader of the outside library, declared so that
/// verified code can hold one while it drains the event stream.
#[verifier::external_type_specification]
#[verifier::external_body]
#[verifier::reject_recursive_types(R)]
pub struct ExReader<R>(quick_xml::Reader<R>);

/// The parse events an XML text tokenizes to, reduced to plain values as
/// `next_event` reduces them, cut at the first end-of-input or fault event,
/// which it includes.  The reader reads from a string slice and does no
/// input or output, so this is a function of the text alone.
pub uninterp spec fn spec_tokenize(s: Seq<char>) -> Seq<Ev>;

/// The parse events a reader will still deliver, cut at the first
/// end-of-input or fault event, which it includes.
pub uninterp spec fn reader_events(r: quick_xml::Reader<&[u8]>) -> Seq<Ev>;

/// Relies on quick_xml::Reader::from_str and quick_xml::reader::Config: a
/// reader over the text that trims whitespace around text content and
/// expands an empty element into a start and an end tag.  What this reader
/// will deliver is the tokenization of the text.
#[verifier::external_body]
pub(crate) fn xml_reader<'a>(xml: &'a str) -> (r: quick_xml::Reader<&'a [u8]>)
    ensures
        reader_events(r) == spec_tokenize(xml@),
{
    let mut reader = quick_xml::Reader::from_str(xml);
    let config = reader.config_mut();
    config.trim_text(true);
    config.expand_empty_elements = true;
    reader
}

/// Relies on quick_xml::Reader::read_event (with BytesStart::name,
/// Attributes, Attribute::unescape_value, BytesText::unescape and
/// Reader::buffer_position): the next parse event, reduced to plain
/// strings.  Text and attribute values arrive unescaped; a value whose
/// entities cannot be resolved falls back to the empty string.
///
/// The stream model: a reader always has a next event, since after the end
/// of input read_event reports end-of-input again and again; the returned
/// event is the head of what the reader still delivers; after anything but
/// an end-of-input or fault event the tail remains; those two events are
/// where the modelled stream is cut, so on them it has one event left.
#[verifier::external_body]
pub(crate) fn next_event(r: &mut quick_xml::Reader<&[u8]>) -> (ev: XmlEvent)
    ensures
        reader_events(*old(r)).len() > 0,
        ev.model() == reader_events(*old(r))[0],
        !(ev matches XmlEvent::Eof) && !(ev matches XmlEvent::Syntax { .. })
            ==> reader_events(*final(r)) == reader_events(*old(r)).drop_first(),
        (ev matches XmlEvent::Eof) || (ev matches XmlEvent::Syntax { .. })
            ==> reader_events(*old(r)).len() == 1,
{
    match r.read_event() {
        Ok(Event::Start(e)) => XmlEvent::Start {
            name: String::from_utf8_lossy(e.name().0).into_owned(),
            attrs: e.attributes().flatten().map(|a| (
                String::from_utf8_lossy(a.key.0).into_owned(),
                a.unescape_value().unwrap_or_default().into_owned(),
            )).collect(),
        },
        Ok(Event::Text(e)) => XmlEvent::Text { content: e.unescape().unwrap_or_default().into_owned() },
        Ok(Event::End(_)) => XmlEvent::End,
        Ok(Event::Eof) => XmlEvent::Eof,
        Ok(_) => XmlEvent::Other,
        Err(e) => XmlEvent::Syntax { position: r.buffer_position(), message: format!("{:?}", e) },
    }
}

/// Relies on quick_xml::escape::escape: replaces the five XML special
/// characters with their entities and leaves every other character as it
/// is.
#[verifier::external_body]
pub(crate) fn escape_xml(s: &str) -> (r: String)
    ensures
        r@ == spec_escape(s@),
{
    quick_xml::escape::escape(s).into_owned()
}

} // verus!
