//! Reader and writer for the binary "flow" container format: an indexed
//! collection of string-keyed dictionaries and ordered vectors whose entries
//! are strings or cross-references to other dictionaries and vectors.
//!
//! The core is the codec: [`FlowData::new`] decodes a container from bytes,
//! [`FlowData::write`] re-encodes a graph into the exact section layout the
//! decoder expects, deduplicating strings, values and key/value pairs.

pub mod flowdata;
pub mod output;
pub mod tool;

pub use flowdata::{Dictionary, FlowData, FlowDataError, FlowDataValue};
pub use output::{Floor, Timeline};
