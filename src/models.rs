use vstd::prelude::*;

verus! {

/// One supported image file found in a directory.
#[derive(Debug, Clone, PartialEq, Eq)]
pub struct ImageFile {
    /// Path of the file as the directory listing gave it.
    pub path: String,
    /// Final component of the path.
    pub filename: String,
    /// Extension of the file name, in lower case.
    pub extension: String,
}

/// The mathematical value of an `ImageFile`: its three texts.
pub struct ImageFileView {
    pub path: Seq<char>,
    pub filename: Seq<char>,
    pub extension: Seq<char>,
}

impl View for ImageFile {
    type V = ImageFileView;

    open spec fn view(&self) -> ImageFileView {
        ImageFileView { path: self.path@, filename: self.filename@, extension: self.extension@ }
    }
}

/// The views of a sequence of image descriptors.
pub open spec fn image_views(s: Seq<ImageFile>) -> Seq<ImageFileView> {
    s.map_values(|f: ImageFile| f@)
}

/// One entry of a directory listing, as read from the filesystem.
#[derive(Debug, Clone, PartialEq, Eq)]
pub struct DirEntryInfo {
    /// Path of the entry.
    pub path: String,
    /// Final component of the path, where it is valid text.
    pub name: Option<String>,
    /// Whether the entry is a regular file (following symbolic links).
    pub is_file: bool,
}

/// Whether a path exists, and if so whether it is a directory.
#[derive(Debug, Clone, Copy, PartialEq, Eq, Structural)]
pub enum PathStatus {
    Missing,
    Directory,
    NotDirectory,
}

} // verus!

verus! {

/// Whether a tree node is a file or a directory.
#[derive(Debug, Clone, Copy, PartialEq, Eq, Structural)]
pub enum EntryKind {
    File,
    Directory,
}

/// One node of a bounded-depth directory snapshot.
#[derive(Debug, PartialEq, Eq)]
pub struct TreeEntry {
    pub path: String,
    pub name: String,
    pub kind: EntryKind,
    /// Populated only for directories that were expanded.
    pub children: Vec<TreeEntry>,
}

/// One child reported by a directory listing; `kind` is `None` where the
/// child's type could not be read.
#[derive(Debug, Clone, PartialEq, Eq)]
pub struct ListedChild {
    pub path: String,
    pub name: String,
    pub kind: Option<EntryKind>,
}

/// Why a tree could not be built.
#[derive(Debug, Clone, Copy, PartialEq, Eq, Structural)]
pub enum TreeError {
    /// The root does not exist.
    NotFound,
    /// The root exists but is not a directory.
    InvalidArgument,
    /// The root directory could not be listed.
    IoError,
}

} // verus!
