//! An immutable, versioned, file-backed key-value cache for recipe monitoring
//! data, and the composition of several such cache files into one view.
//!
//! The library works on byte images: it builds the image of a cache file,
//! reads records back out of an image, and decides which files of a directory
//! listing belong to a view. Moving the bytes to and from disk is left to the
//! caller.

pub mod chunks;
pub mod decimal;
pub mod envelope;
pub mod error;
pub mod fields;
pub mod hash;
pub mod image;
pub mod laws;
pub mod layout;
pub mod meta;
pub mod monitor;
pub mod names;
pub mod pipeline;
pub mod plan;
pub mod publish;
pub mod read;
pub mod reader;
pub mod recipes;
pub mod roundtrip;
pub mod schema;
pub mod summit;
pub mod table;
pub mod view;
pub mod wire;
pub mod writer;
