//! A flat, line-oriented archive of a tree of text files, with a codec whose
//! round trip is proved byte for byte.
//!
//! An archive holds one record per file: a header line
//! `<path> <line count>[ noeol]`, then the file's lines, each ended by a line
//! feed. `noeol` marks a file whose last byte is no line feed.

pub mod lines;
pub mod model;
pub mod encode;
pub mod decode;
pub mod order;
pub mod roundtrip;

pub use lines::read_file;
pub use model::{Satf, Satt, SattError};
pub use order::Entry;
