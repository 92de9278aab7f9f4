//! Reading StarCraft II replay files: MoPaQ archives with an SC2 user header.
pub mod bytes;
pub mod mpq;
pub mod numbers;
pub mod replay;
pub mod sc2;
pub mod sc2mpq;
pub mod table;
pub mod utils;
