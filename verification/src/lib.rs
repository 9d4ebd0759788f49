use vstd::prelude::*;

pub mod block;
pub mod codec;
pub mod crc;
pub mod cursor;
pub mod error;
pub mod reader;
pub mod writer;

verus! {

/// Maximum number of values a single persisted sub-block may hold.
pub const MAX_BLOCK_VALUES: usize = 1000;

/// Length in bytes of the file header: a 4-byte magic constant and a 1-byte version.
pub const HEADER_LEN: u64 = 5;

/// The magic constant identifying the format, the header's first 4 bytes.
pub const TSM_MAGIC: u32 = 0x1346613;

/// The format version, the header's fifth byte.
pub const VERSION: u8 = 1;

} // verus!
