//! The MoPaQ archive layer: headers, tables, hashing and decryption, file reading.
pub mod structs;
pub mod parser;
pub mod utils;
