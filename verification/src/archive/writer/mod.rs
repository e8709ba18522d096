//! Recording enrolled tracks.

pub mod commit;
pub mod handle;
pub mod retention;
pub mod run;
pub mod track;
