//! Flat, columnar JSON: a document is a stream of structural tags plus a
//! pool of strings and a pool of numbers, parsed, decoded and sliced without
//! building a tree.
pub mod escape;
pub mod grammar;
pub mod text;
pub mod value;
pub mod parser;
pub mod slice;
pub mod decoder;
pub mod round_trip;
