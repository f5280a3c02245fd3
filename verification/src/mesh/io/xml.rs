//! The elements of an XML document, in the order in which they begin.

use quick_xml::events::Event;
use quick_xml::XmlVersion;
use vstd::prelude::*;

verus! {

/// A reader of XML events from a text.
#[verifier::external_type_specification]
#[verifier::external_body]
#[verifier::reject_recursive_types(R)]
pub struct ExReader<R>(quick_xml::Reader<R>);

/// An attribute, by its name without a prefix, or why it could not be read.
#[derive(Debug)]
pub enum XmlAttribute {
    /// A name and a value, or why the value could not be read.
    Pair {
        /// The name.
        name: String,
        /// The value, with references resolved and white space normalized.
        value: Result<String, String>,
    },
    /// No attribute.
    Malformed(String),
}

/// What a document holds at one place.
#[derive(Debug)]
pub enum XmlEvent {
    /// An element begins.
    Element {
        /// Its name, without a prefix.
        name: String,
        /// Its attributes.
        attributes: Vec<XmlAttribute>,
    },
    /// Anything that is neither an element nor its beginning.
    Other,
    /// The document is malformed here.
    Malformed(String),
}

/// The attributes of [`XmlAttribute`], as mathematical values.
pub enum AttributeView {
    /// A name and a value, or why the value could not be read.
    Pair {
        /// The name.
        name: Seq<char>,
        /// The value.
        value: Result<Seq<char>, Seq<char>>,
    },
    /// No attribute.
    Malformed(Seq<char>),
}

/// The events of [`XmlEvent`], as mathematical values.
pub enum EventView {
    /// An element begins.
    Element {
        /// Its name.
        name: Seq<char>,
        /// Its attributes.
        attributes: Seq<AttributeView>,
    },
    /// Anything else.
    Other,
    /// The document is malformed here.
    Malformed(Seq<char>),
}

impl View for XmlAttribute {
    type V = AttributeView;

    open spec fn view(&self) -> AttributeView {
        match *self {
            XmlAttribute::Pair { name, value } => AttributeView::Pair {
                name: name@,
                value: match value {
                    Ok(v) => Ok(v@),
                    Err(e) => Err(e@),
                },
            },
            XmlAttribute::Malformed(m) => AttributeView::Malformed(m@),
        }
    }
}

/// Attributes as mathematical values.
pub open spec fn attribute_views(v: Seq<XmlAttribute>) -> Seq<AttributeView> {
    Seq::new(v.len(), |i: int| v[i]@)
}

impl View for XmlEvent {
    type V = EventView;

    open spec fn view(&self) -> EventView {
        match *self {
            XmlEvent::Element { name, attributes } => EventView::Element {
                name: name@,
                attributes: attribute_views(attributes@),
            },
            XmlEvent::Other => EventView::Other,
            XmlEvent::Malformed(m) => EventView::Malformed(m@),
        }
    }
}

/// Events as mathematical values.
pub open spec fn event_views(v: Seq<XmlEvent>) -> Seq<EventView> {
    Seq::new(v.len(), |i: int| v[i]@)
}

/// The events of a document, up to its end or the first place where it is
/// malformed, as `quick_xml` reads them.
pub uninterp spec fn document_events(xml: Seq<char>) -> Seq<EventView>;

/// The events that a reader still has to give, up to the end of its document or
/// the first place where that is malformed.
pub uninterp spec fn events_left(reader: quick_xml::Reader<&[u8]>) -> Seq<EventView>;

/// A reader of a text: `quick_xml::Reader::from_str`. It has all events of the
/// text to give, and what they are depends on nothing but the text.
#[verifier::external_body]
fn open_reader<'a>(xml: &'a str) -> (r: quick_xml::Reader<&'a [u8]>)
    ensures
        events_left(r) == document_events(xml@),
{
    quick_xml::Reader::from_str(xml)
}

/// The next event: `quick_xml::Reader::read_event`, with the names and the
/// attributes of an element taken out. None at the end of the document, which is
/// reached when no event is left; else the first event that is left, and the
/// rest remains. Where the document is malformed, that is the last event.
#[verifier::external_body]
fn next_event(reader: &mut quick_xml::Reader<&[u8]>) -> (e: Option<XmlEvent>)
    ensures
        e is None <==> events_left(*old(reader)).len() == 0,
        e matches Some(x) ==> x@ == events_left(*old(reader))[0],
        e matches Some(XmlEvent::Malformed(_)) ==> events_left(*old(reader)).len() == 1,
        e is Some && !(e->Some_0 is Malformed) ==> events_left(*final(reader)) == events_left(
            *old(reader),
        ).drop_first(),
{
    match reader.read_event() {
        Ok(Event::Start(e) | Event::Empty(e)) => Some(XmlEvent::Element {
            name: String::from(e.local_name().as_ref()),
            attributes: e.attributes().map(|a| match a {
                Ok(a) => XmlAttribute::Pair {
                    name: String::from(a.key.local_name().as_ref()),
                    value: a.normalized_value(XmlVersion::Explicit1_0).map(|v| v.into_owned()).map_err(|e| e.to_string()),
                },
                Err(e) => XmlAttribute::Malformed(e.to_string()),
            }).collect(),
        }),
        Ok(Event::Eof) => None,
        Ok(_) => Some(XmlEvent::Other),
        Err(e) => Some(XmlEvent::Malformed(e.to_string())),
    }
}

/// The events of a document.
pub fn read_events(xml: &str) -> (v: Vec<XmlEvent>)
    ensures
        event_views(v@) == document_events(xml@),
{
    let mut reader: quick_xml::Reader<&[u8]> = open_reader(xml);
    let mut v: Vec<XmlEvent> = Vec::new();
    proof {
        assert(event_views(v@) + events_left(reader) =~= document_events(xml@));
    }
    loop
        invariant_except_break
            event_views(v@) + events_left(reader) == document_events(xml@),
        ensures
            event_views(v@) == document_events(xml@),
        decreases events_left(reader).len(),
    {
        let ghost left = events_left(reader);
        let ghost was = v@;
        match next_event(&mut reader) {
            None => {
                proof {
                    assert(event_views(v@) + left =~= event_views(v@));
                }
                break;
            },
            Some(e) => {
                let last: bool = matches!(e, XmlEvent::Malformed(_));
                v.push(e);
                if last {
                    proof {
                        assert(event_views(v@) =~= event_views(was) + left);
                    }
                    break;
                }
                proof {
                    assert(event_views(v@) + left.drop_first() =~= event_views(was) + left);
                }
            },
        }
    }
    v
}

} // verus!
