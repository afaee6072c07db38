//! Duplicate-file detection library.
//!
//! Finds exact-duplicate files by a two-phase test: bucket candidate files by
//! size, then bucket the survivors by a full-content hash. Candidate files are
//! discovered by a work-stealing directory traversal and filtered by extension
//! and size bounds; an optional hash cache keyed by (path, size, modification
//! time) lets an unchanged file's hash be reused instead of recomputed.

pub mod cache;
pub mod config;
pub mod file_result;
pub mod grouping;
pub mod hashing;
pub mod order;
pub mod tasks;
pub mod util;

pub use cache::HashCache;
pub use config::Config;
pub use file_result::FileResult;
pub use grouping::{flatten_groups, group_by_hash, group_by_size, DuplicateGroup, SizeGroup};
pub use order::sort_members_by_path;
pub use tasks::{find_task, LocalQueue};
pub use util::{check_ext, check_size, files_to_discard, process_file};
