//! The serialized data of the replay's files, and its game events.
pub mod details;
pub mod structs;
pub mod parser;
