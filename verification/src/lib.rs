//! A string interner: every distinct text is stored once and named by a small,
//! copyable identifier that can be turned back into the text at any time.

mod arena;
pub mod encoding;
pub mod growth;
pub mod interner;
pub mod model;

pub use interner::{StringId, StringInternal};
