//! The serialized data of the SC2 user header that precedes the MoPaQ archive.
pub mod structs;
pub mod parser;
