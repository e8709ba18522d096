//! Decode an encoded audio track to raw PCM.

pub mod clock;
pub mod consumer;
pub mod decoder;
pub mod framing;
pub mod opus;
