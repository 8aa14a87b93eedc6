//! Reader and in-place writer for Windows registry hive files (REGF).
//!
//! Any modification is refused on a "dirty" hive (a pending transaction log,
//! see [`Hive::is_dirty`]). Values larger than a single cell ("big data") are
//! read but not produced on write: [`RegError::ValueTooLarge`] is returned
//! instead of writing a corrupt hive.

mod bytes;
mod cell;
mod error;
mod hbin;
mod header;
mod hive;
mod name;
mod tiling;
mod utf16;
mod value;

pub use error::{RegError, Result};
pub use header::{Header, REGF_HEADER_SIZE};
pub use hive::{Hive, KeyNode};
pub use name::{cmp_name, cmp_str, eq_name, lh_hash};
pub use value::{RegType, RegValue};
