//! Recordings of live tracks in an object store: names, binary segments, timelines and replay.

pub mod error;
pub mod id;
pub mod index;
pub mod info;
pub mod path;
pub mod reader;
pub mod recover;
pub mod rewind;
pub mod segment;
pub mod store;
pub mod timeline;
pub mod track;
pub mod varint;
pub mod writer;
