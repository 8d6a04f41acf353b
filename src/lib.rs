//! Decoder for a tagged binary document format: a u32 total length, then typed,
//! named fields, with objects and arrays nested inside.

pub mod decoder;
pub mod laws;
pub mod model;
pub mod text;
pub mod wire;
