//! Cache-first directory tree index: entry model, content hashing,
//! record framing, in-memory cache, scan planning and tree rendering.

pub mod cache;
pub mod cli;
pub mod entry;
pub mod error;
pub mod hash;
pub mod incremental;
pub mod json;
pub mod names;
pub mod order;
pub mod path;
pub mod render;
pub mod skip;
pub mod stats;
pub mod store;
pub mod table;
pub mod text;
pub mod traversal;

pub use cache::{get_cache_path, get_cache_path_custom, parse_absolute_dir, DiskCache};
pub use cli::{Args, ColorMode, OutputFormat};
pub use entry::{has_directory_changed, DirEntry, Timestamp, USNJournalState};
pub use error::PTreeError;
pub use hash::compute_content_hash;
pub use incremental::try_incremental_update;
pub use names::{should_skip, NameSet};
pub use skip::SkipStats;
pub use stats::format_number;
pub use store::{RkyvCacheIndex, RkyvMmapCache};
pub use table::{EntryMap, Slot};
pub use traversal::{traverse_disk, DebugInfo};
