use vstd::prelude::*;

verus! {

/// One parse event of a streaming XML reader, reduced to plain values.
///
/// Attribute keys carry no prefix and attribute values are already
/// unescaped; it is the decoder that adds the `@` convention.
#[derive(Debug, PartialEq, Eq)]
pub enum XmlEvent {
    /// An opening tag with its attributes, in document order.
    Start { name: String, attrs: Vec<(String, String)> },
    /// Character data between tags, unescaped.
    Text { content: String },
    /// A closing tag.  The reader checks that it matches the open tag, so
    /// the name is not carried along.
    End,
    /// End of the document.
    Eof,
    /// A syntax fault the reader reported at the given byte position.
    Syntax { position: u64, message: String },
    /// Anything else a reader may emit (comment, declaration, processing
    /// instruction, doctype, CDATA); the decoder ignores it.
    Other,
}

/// The mathematical model of one parse event.
#[verifier::ext_equal]
pub enum Ev {
    Start { name: Seq<char>, attrs: Seq<(Seq<char>, Seq<char>)> },
    Text { content: Seq<char> },
    End,
    Eof,
    Syntax { position: u64, message: Seq<char> },
    Other,
}

/// The model of a list of attributes.
pub open spec fn attrs_model(attrs: Seq<(String, String)>) -> Seq<(Seq<char>, Seq<char>)> {
    attrs.map_values(|a: (String, String)| (a.0@, a.1@))
}

impl XmlEvent {
    /// The model of this event.
    pub open spec fn model(self) -> Ev {
        match self {
            XmlEvent::Start { name, attrs } => Ev::Start {
                name: name@,
                attrs: attrs_model(attrs@),
            },
            XmlEvent::Text { content } => Ev::Text { content: content@ },
            XmlEvent::End => Ev::End,
            XmlEvent::Eof => Ev::Eof,
            XmlEvent::Syntax { position, message } => Ev::Syntax {
                position,
                message: message@,
            },
            XmlEvent::Other => Ev::Other,
        }
    }
}

/// The model of a list of events.
pub open spec fn events_model(evs: Seq<XmlEvent>) -> Seq<Ev> {
    evs.map_values(|e: XmlEvent| e.model())
}

} // verus!
