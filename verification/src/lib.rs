//! Resolution of configuration fragments across layered drop-in directories.
//!
//! A service reads its configuration from fragments that several layers may
//! contribute: factory defaults, vendor overlays, run-time and administrator
//! overrides. Each layer is a base directory; all of them share one relative
//! path to the directory that holds the fragments. A scan goes through the
//! base directories in order of rising priority and resolves one view, keyed
//! by file name:
//!
//!  * of two fragments with the same name, the one in the later directory wins;
//!  * a fragment that is a symbolic link to `/dev/null` masks the fragments of
//!    its name in the directories before it;
//!  * dotfiles can be ignored, and the scan can be restricted to a set of file
//!    extensions.
//!
//! The library does no input or output. A [`tree::Tree`] holds what the scan
//! needs of the file system, the listings of the directories, and [`scan()`]
//! resolves it. What a scan resolves is stated in [`model`], and what holds
//! of every scan is proved in [`laws`].

pub mod bytes;
pub mod laws;
pub mod merge;
pub mod model;
pub mod name;
pub mod path;
pub mod resolution;
pub mod scan;
pub mod tree;

pub use merge::scan_and_merge;
pub use resolution::{Fragment, ResolutionMap};
pub use scan::{scan, SYSTEMD_CONVENTIONAL_BASES};
pub use tree::{DirEntry, Directory, EntryKind, Tree};
