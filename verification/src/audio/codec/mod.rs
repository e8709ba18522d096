//! Codec settings, and what the codecs accept.

pub mod config;
pub mod head;
pub mod opus;
