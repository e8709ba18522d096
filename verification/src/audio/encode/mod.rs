//! Encode raw PCM and publish it as an audio track.

pub mod capture;
pub mod encoded;
pub mod encoder;
pub mod producer;
