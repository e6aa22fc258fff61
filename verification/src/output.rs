//! The files that patches are written to.

pub use crate::ips::{check_generate_ips, generate_ips, IpsGenerateError};
pub use crate::patches::{Hunk, HunksIterator, PatchVec};
pub use crate::pchtxt_writer::generate_pchtxt;
