//! Control a capture-backed audio publication.

pub mod control;
pub mod converter;
pub mod driver;
pub mod supervisor;
