//! A reader for PBO archives: flat, header-prefixed containers that bundle
//! many named member files, a key/value property table and a trailing
//! checksum into one blob.
//!
//! The archive is parsed from an in-memory byte source. `PBOHandle::open_file`
//! performs the full structural parse and validation; `get_file_content`
//! extracts one member's bytes by recomputing its offset from the directory.
//! File and path handling live outside this crate; callers hand the raw bytes
//! in.

pub mod codec;
pub mod error;
pub mod handle;
pub mod laws;

pub use crate::codec::BinaryHeader;
pub use crate::codec::Mime;
pub use crate::error::PboError;
pub use crate::handle::PBOHandle;
