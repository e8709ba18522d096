//! Recording, replaying, encoding and decoding of live media tracks.

pub mod archive;
pub mod audio;
pub mod text;
pub mod time;
