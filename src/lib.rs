//! Filesystem indexing for an image browser: image classification,
//! directory scans, bounded-depth directory trees, image metadata read from
//! file headers, and the single-slot change watcher. Reading the filesystem is left to the caller, which hands
//! in what it read as plain values.

pub mod metadata;
pub mod models;
pub mod order;
pub mod paths;
pub mod requests;
pub mod scan;
pub mod tree;
pub mod watch;

pub use models::{
    DirEntryInfo, EntryKind, ImageFile, ListedChild, PathStatus, TreeEntry, TreeError,
};
pub use metadata::{
    extract_metadata, is_vector_image, read_header, ImageHeader, ImageMetadata, MetadataError,
    RasterFormat,
};
pub use order::name_leq;
pub use paths::{
    extension_of, file_name_of, is_supported_image, is_whitelisted_extension, parent_of,
};
pub use requests::{adjacent_directory, check_scan_folder};
pub use scan::{image_for_entry, scan_directory_for_images};
pub use tree::{build_directory_tree, build_tree, sort_entries};
pub use watch::{check_watch_root, ChangeEvent, Subscription, WatchError, WatchSlot};
