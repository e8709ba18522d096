//! Native audio capture, encoding, and decoding.

pub mod aac;
pub mod activity;
pub mod aec;
pub mod backend;
pub mod capture;
pub mod codec;
pub mod decode;
pub mod encode;
pub mod error;
pub mod format;
pub mod frame;
pub mod layout;
pub mod pcm;
