//! A pretty printer in the style of Wadler and Leijen.
//!
//! A document describes a set of layouts of a text. Rendering picks the
//! layout for a page width: a group is put on one line where it fits and is
//! broken where it does not.
//!
//! - [`doc`] holds the documents and the combinators that build them.
//! - [`model`] says what a document denotes, and [`layout`] what rendering it
//!   writes.
//! - [`best`] is the layout engine, proved to write what [`layout`] says.
//! - [`render`] holds the sinks that the engine writes to.
//! - [`laws`] states what holds of the combinators and of the layout.
//! - [`block`] formats a body between prefixes and suffixes.
//! - [`color`] keeps the colors of a colored terminal sink.
//! - [`text`] makes strings of spaces and pads strings.

pub mod model;
pub mod text;
pub mod layout;
pub mod doc;
pub mod render;
pub mod best;
pub mod laws;
pub mod block;
pub mod color;
