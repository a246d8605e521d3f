//! Primitives for reading and writing Silkroad Online's pk2 archive format.
//!
//! The archive is a 256 byte header followed by blocks of 20 entries of 128 bytes each.
//! Directories are chains of such blocks; files point at raw data regions.

pub mod bytes;
pub mod error;
pub mod filetime;
pub mod parse;
pub mod blowfish;
pub mod format;
pub mod io;
pub mod archive;
pub mod file_handle;
pub mod listing;
pub mod stream;

pub use self::error::{ChainLookupError, HeaderError, InvalidKey};
pub use self::filetime::FILETIME;
pub use self::format::{BlockOffset, ChainOffset, StreamOffset};
