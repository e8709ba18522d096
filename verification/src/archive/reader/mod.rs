//! Serving the groups of a recording.

pub mod index;
pub mod serve;
pub mod timeline;
