//! Identification of the player routine embedded in C64 music files by
//! byte-pattern signatures.
pub mod bndm;
pub mod config;
pub mod format;
pub mod player;
pub mod round_trip;
pub mod sid_file;
pub mod signature;
pub mod text;
pub mod validate;
