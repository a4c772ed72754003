//! Recovery of the Unicode identity of glyphs whose font carries no usable
//! character mapping: glyph outlines are fingerprinted geometrically (their
//! quantized point sets) and matched against a database of outlines taken
//! from fonts whose mapping is known.

pub mod geom;
pub mod index;
pub mod db;
pub mod laws;
pub mod codec;
pub mod extract;
pub mod classify;
pub mod fontdb;



