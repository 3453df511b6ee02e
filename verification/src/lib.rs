//! A streaming feed reader core: an event-driven parser that turns a feed
//! document's markup events into a typed channel of items, plus the
//! line-oriented config handling that groups feed sources by category.
//!
//! The parser pulls one event at a time from an `EventSource`, keeps only
//! enough state to know which field it is reading, skips anything it does
//! not recognize — nested however deeply — and fails atomically when the
//! stream ends while an element is still open. Its behaviour is specified by
//! the recursive functions in `model`, and the properties the design
//! promises are proved in `laws`.

pub mod events;
pub mod model;
pub mod source;
pub mod parser;
pub mod urls;
pub mod laws;
