//! Recovery of plaintext identifiers behind 32-bit CRC checksums.
//!
//! The crate assembles candidate strings from a dictionary and a fixed
//! prefix/separator/suffix template and compares their checksum against a
//! target value. Partial checksums are composed algebraically (combine,
//! zero-extension, XOR) so that the search never re-hashes a candidate from
//! scratch.

pub mod crc;
pub mod dict;
pub mod table;
pub mod search;
pub mod driver;

pub use crc::XivCrc32;
pub use dict::prepare_dictionary;
pub use table::{AffixSettings, Collision, WordTable, build_word_table, LEN_BOUND};
pub use search::search_shard;
pub use driver::{
    ConfigError, SearchSettings, TargetResult, parse_hex_u32, result_line, run_search,
    search_all, shard_bounds,
};
