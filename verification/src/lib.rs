//! Decoder for a container archive format: a flat table of fixed-size
//! directory entries followed by a shared pool of NUL-terminated names,
//! turned into a tree of file and folder nodes.

pub mod archive;
pub mod bytes;
pub mod error;
pub mod wiifs;
