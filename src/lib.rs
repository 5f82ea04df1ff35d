//! Renders a byte stream as a listing of 32-bit little-endian words, one
//! eight-digit lowercase hexadecimal line per word.
pub mod model;
pub mod words;
pub mod stream;
pub mod laws;
