//! Reverse geocoding of a point against a compact division index and a slab
//! of compressed polygons.
//!
//! - [`xsci`] reads an index file, [`layout`] states how one is put together,
//!   and [`load`] reads a compressed one;
//! - [`finder`] answers which divisions a point may lie in;
//! - [`flatbuf`] and [`ring`] read the chunk of a division, and [`chunk`] states
//!   how one is put together;
//! - [`json`] is the grammar of a division's names by language, and [`members`]
//!   states how a name is looked up in them;
//! - [`collect`] and [`levels`] decide which chunks are fetched and which of
//!   them match;
//! - [`report`] puts the answer together, and [`web`] frames it;
//! - [`law_point`], [`law_index`], [`law_chunk`], [`law_query`], [`law_report`],
//!   [`law_text`] and [`law_web`] state what all of these come to, in terms of
//!   bytes, numbers and texts, and [`law_call`] what calls return;
//! - [`bytes`], [`cells`], [`ieee`] and [`text`] are what the others stand on.

pub mod bytes;
pub mod cells;
pub mod chunk;
pub mod collect;
pub mod finder;
pub mod flatbuf;
pub mod ieee;
pub mod json;
pub mod law_call;
pub mod law_chunk;
pub mod law_index;
pub mod law_point;
pub mod law_query;
pub mod law_report;
pub mod law_text;
pub mod law_web;
pub mod layout;
pub mod levels;
pub mod load;
pub mod members;
pub mod report;
pub mod ring;
pub mod text;
pub mod web;
pub mod xsci;
