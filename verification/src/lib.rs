//! A streaming codec for time series. Each sample is a timestamp and the bit pattern of a
//! 64-bit value; a series keeps its samples as two bit streams, one of the changes of the gaps
//! between timestamps, one of the differences between values.
//!
//! `utils` packs bits into bytes, `compression` holds the two codes and the conditions under
//! which a stream gives its samples back, `data_structures` the series and their registry.
pub mod compression;
pub mod data_structures;
pub mod utils;
