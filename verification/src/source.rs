use vstd::prelude::*;
use crate::events::{SpecEvent, XmlEvent};
use quick_xml::events::Event;

verus! {

/// Why a parse stopped.
#[derive(Debug)]
pub enum ParseError {
    /// End-of-stream was reached while a required closing tag was still
    /// pending: the document is truncated.
    Stream,
    /// A run of bytes could not be decoded or unescaped as text.
    Decode(String),
    /// The underlying tokenizer rejected the markup itself.
    Source(String),
    /// Elements nested deeper than this machine can count.
    TooDeep,
}

#[verifier::external_type_specification]
#[verifier::external_body]
#[verifier::reject_recursive_types(R)]
pub struct ExReader<R>(quick_xml::Reader<R>);

#[verifier::external_type_specification]
#[verifier::external_body]
#[verifier::reject_recursive_types(T)]
pub struct ExCursor<T>(std::io::Cursor<T>);

/// The sequence of events that a tokenizer value will still yield, in order,
/// up to (and not including) its report of end-of-stream or the first pull
/// that fails — because the tokenizer rejects the markup, or because the
/// event's name or text cannot be decoded. What it holds is fixed by the
/// bytes the tokenizer was built over and by how far it has read; nothing
/// else decides it.
pub uninterp spec fn events_of(r: quick_xml::Reader<std::io::Cursor<Vec<u8>>>) -> Seq<SpecEvent>;

/// The event sequence that a source freshly built over these document bytes
/// yields: the same prefix, as a function of the bytes alone, under the one
/// configuration the constructor below sets.
pub uninterp spec fn stream_of(data: Seq<u8>) -> Seq<SpecEvent>;

/// Whether the sequence over these document bytes ends at a clean
/// end-of-stream, as a function of the bytes alone, under the constructor's
/// configuration.
pub uninterp spec fn clean_of(data: Seq<u8>) -> bool;

/// Whether the sequence above ends at a clean end-of-stream: once it is
/// exhausted, the tokenizer reports end-of-stream rather than an error.
/// Like the sequence itself, this is fixed by the bytes and the position.
pub uninterp spec fn ends_clean(r: quick_xml::Reader<std::io::Cursor<Vec<u8>>>) -> bool;

/// A pull-based event source over one in-memory document, owning the
/// tokenizer and the reusable scratch buffer for one parse.
pub struct EventSource {
    pub(crate) reader: quick_xml::Reader<std::io::Cursor<Vec<u8>>>,
    pub(crate) buf: Vec<u8>,
}

impl EventSource {
    /// The events this source will still yield.
    pub closed spec fn events(self) -> Seq<SpecEvent> {
        events_of(self.reader)
    }

    /// Whether this source's events end at a clean end-of-stream.
    pub closed spec fn clean(self) -> bool {
        ends_clean(self.reader)
    }

    /// Relies on quick_xml::Reader::from_reader over an in-memory cursor,
    /// with surrounding whitespace trimmed from text and empty elements
    /// expanded into a start-tag/end-tag pair. The tokenizer reads nothing
    /// but the bytes it was built over, so the stream it will yield, and how
    /// that stream ends, are functions of those bytes alone. Every event
    /// spans at least one byte of the document (an expanded empty element
    /// spans at least three for its two events), so the stream never holds
    /// more events than the document holds bytes.
    #[verifier::external_body]
    pub fn from_bytes(data: Vec<u8>) -> (r: EventSource)
        ensures
            r.events() == stream_of(data@),
            r.clean() == clean_of(data@),
            r.events().len() <= data@.len(),
    {
        let mut reader = quick_xml::Reader::from_reader(std::io::Cursor::new(data));
        reader.trim_text(true);
        reader.expand_empty_elements(true);
        EventSource { reader, buf: Vec::new() }
    }

    /// Relies on quick_xml::Reader::read_event_into for the next event, on
    /// quick_xml::events::BytesText::unescape and quick_xml::encoding's
    /// Decoder::decode for turning its raw content into text: a successful
    /// pull hands out exactly the head of the remaining event sequence, or
    /// reports end-of-stream once the sequence is exhausted. A pull can fail
    /// only once that sequence is exhausted — the sequence is exactly the
    /// events before the first failure or end-of-stream. After a failure of
    /// the tokenizer itself it yields nothing further; after a decode
    /// failure the events past the undecodable one are still to come.
    #[verifier::external_body]
    pub(crate) fn next_event(&mut self) -> (r: Result<XmlEvent, ParseError>)
        ensures
            old(self).events() == events_of(old(self).reader),
            old(self).clean() == ends_clean(old(self).reader),
            match r {
                Ok(e) => {
                    &&& (e is Eof <==> old(self).events().len() == 0)
                    &&& (e is Eof ==> old(self).clean())
                    &&& final(self).clean() == old(self).clean()
                    &&& if old(self).events().len() == 0 {
                        final(self).events() == old(self).events()
                    } else {
                        e@ == old(self).events().first() && final(self).events() == old(
                            self,
                        ).events().drop_first()
                    }
                },
                Err(e) => {
                    &&& (e is Decode || e is Source)
                    &&& old(self).events().len() == 0
                    &&& !old(self).clean()
                    &&& (e is Source ==> final(self).events() == old(self).events())
                },
            },
    {
        self.buf.clear();
        let se = |e| ParseError::Source(format!("{}", e));
        let de = |e| ParseError::Decode(format!("{}", e));
        let dec = self.reader.decoder();
        Ok(match self.reader.read_event_into(&mut self.buf).map_err(se)? {
            Event::Start(e) => XmlEvent::Start(dec.decode(e.name().as_ref()).map_err(de)?.into_owned()),
            Event::End(_) => XmlEvent::End,
            Event::Eof => XmlEvent::Eof,
            Event::Text(e) => XmlEvent::Text(e.unescape().map_err(de)?.into_owned()),
            Event::CData(e) => XmlEvent::CData(dec.decode(&e).map_err(de)?.into_owned()),
            _ => XmlEvent::Other,
        })
    }
}

} // verus!
