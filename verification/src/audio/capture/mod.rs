//! Audio capture: a microphone, or system audio.
//!
//! Backends deliver buffers from a realtime callback through a bounded queue. A reader that falls
//! behind loses buffers rather than growing the queue, and each read reports whether that happened
//! so the encoder can re-anchor.

pub mod buffer;
pub mod channel;
pub mod device;
pub mod permission;
pub mod system;
