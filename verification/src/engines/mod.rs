//! The storage engine: commands and their records, segments, the index, the
//! store that is made of them, and what holds of it.
pub mod command;
pub mod disk;
pub mod engine;
pub mod errors;
pub mod files;
pub mod index;
pub mod kvs;
pub mod laws;
pub mod locator;
pub mod model;
pub mod segment;
pub mod space;
