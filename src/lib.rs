//! A compact, length-delimited binary codec with verified encoders and decoders.
pub mod cursor;
pub mod endian;
pub mod error;
pub mod serialize;
pub mod net;
pub mod laws;
