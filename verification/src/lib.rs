//! Text chunking, UTF-16 offset mapping, terminal rendering and voice lookup
//! for a speech front end, with their contracts proved by Verus.

pub mod text;
pub mod chunk;
pub mod utf16;
pub mod vterm;
pub mod voice;
pub mod display;
