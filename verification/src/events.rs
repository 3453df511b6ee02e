use vstd::prelude::*;

verus! {

/// The mathematical picture of one markup event, as the parser's
/// specifications see it. End-of-stream is not an event here: a stream is a
/// finite sequence, and exhaustion of the sequence is end-of-stream.
pub enum SpecEvent {
    /// An element start-tag, carrying the element name.
    Start(Seq<char>),
    /// An element end-tag.
    End,
    /// A run of escaped text, already decoded and unescaped.
    Text(Seq<char>),
    /// A run of character data, already decoded.
    CData(Seq<char>),
    /// Any event the parser ignores (comments, declarations, and the like).
    Other,
}

/// One markup event as the executable parser receives it from an event
/// source. `Eof` reports that the source is exhausted.
pub enum XmlEvent {
    Start(String),
    End,
    Text(String),
    CData(String),
    Other,
    Eof,
}

impl View for XmlEvent {
    type V = SpecEvent;

    open spec fn view(&self) -> SpecEvent {
        match self {
            XmlEvent::Start(name) => SpecEvent::Start(name@),
            XmlEvent::End => SpecEvent::End,
            XmlEvent::Text(t) => SpecEvent::Text(t@),
            XmlEvent::CData(t) => SpecEvent::CData(t@),
            XmlEvent::Other => SpecEvent::Other,
            XmlEvent::Eof => SpecEvent::Other,
        }
    }
}

} // verus!
