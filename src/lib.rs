//! Crate of the Week list: parse hand-edited award records, check their
//! chronological order, and render them as an AsciiDoc table.

pub mod date;
pub mod record;
pub mod validate;
pub mod render;
pub mod pipeline;
