//! Conversion between XML documents and a generic tree value (the shape
//! JSON uses: null, boolean, number, string, list, string-keyed map), in
//! both directions.
//!
//! The decoder folds the event stream of a streaming XML reader into one
//! tree value, preserving attributes under `@`-prefixed keys, inline text
//! under `#text`, and repeated sibling tags as lists.  The encoder walks a
//! tree value and assembles the canonical XML text that inverts the same
//! convention.  The XML tokenizer and the entity escaping come from an
//! outside streaming XML library behind a small trusted boundary;
//! everything else is verified.

pub mod decode;
pub mod encode;
pub mod events;
pub mod text;
pub mod value;
pub mod xmlio;

pub use decode::decode;
pub use decode::decode_events;
pub use encode::encode;
pub use events::XmlEvent;
pub use value::Value;
pub use value::XmlError;
