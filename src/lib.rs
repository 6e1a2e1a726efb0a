//! Word/token dictionary, a one-or-two byte token code, and a splitter that
//! cuts a byte source into boundary-aligned ranges.
pub mod codec;
pub mod dictionary;
pub mod splitter;
