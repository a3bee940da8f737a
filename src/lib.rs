//! Scan-and-aggregate engine for disk usage: a directory tree with
//! recursive sizes bounded to the scan root, per-extension aggregates,
//! sorted views and groups of files with equal content hashes.
//!
//! The walk itself (a filesystem or an archive) happens outside; each entry
//! it yields is handed to [`DirInfo::record_entry`] or collected for
//! [`scan_archive`], and [`DirInfo::finish`] builds the derived views.

use vstd::prelude::*;

pub mod path;
pub mod model;
pub mod tree_sums;
pub mod aggregate;
pub mod order;
pub mod views;
pub mod scan;
pub mod laws;

pub use path::FsPath;
pub use model::{File, Directory, FileType};
pub use aggregate::DirInfo;
pub use scan::{TreeEntry, ArchiveEntry, scan_archive, progress_due, make_file, extension_key};

verus! {

/// Saves application preferences. The engine holds no preferences of its
/// own, so there is nothing to write.
pub fn my_save_function() {
}

} // verus!
