//! Disk-usage statistics for a directory tree: cumulative directory sizes,
//! largest files and directories, and byte-count presentation.

pub mod cli;
pub mod format;
pub mod paths;
pub mod select;
pub mod sizes;

pub use cli::{check_root, is_hidden_name, keeps_entry, Args, RootError};
pub use format::format_bytes;
pub use select::{get_top_files, get_top_folders, select_top};
pub use sizes::{add_to_parents, checked_total, sort_found, EntryKind, path_is_visible, retain_visible, tally_sizes, DirSizeMap};
