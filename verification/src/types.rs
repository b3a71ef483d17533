//! Shared data types: persisted records and command argument shapes.

use vstd::prelude::*;

verus! {

/// One tag record as persisted: a stable id, a display name, an optional
/// parent reference (`None` = root level), an optional display color, and
/// the zero-based ordinal position among its siblings.
#[derive(Clone, Debug, PartialEq)]
pub struct TagInfo {
    pub id: u32,
    pub name: String,
    pub parent_id: Option<u32>,
    pub color: Option<String>,
    pub position: i32,
}

/// Lightweight listing entry produced by a directory scan (not yet in the
/// database, so it has no id and no content hash).
#[derive(Clone, Debug, PartialEq)]
pub struct FileListItem {
    pub path: String,
    pub size_bytes: u64,
    pub last_modified: i64,
    pub is_directory: bool,
}

/// Full file record as stored in the database.
#[derive(Clone, Debug, PartialEq)]
pub struct FileInfo {
    pub id: u32,
    pub path: String,
    pub content_hash: String,
    pub size_bytes: u64,
    pub last_modified: i64,
    pub is_directory: bool,
}

/// A file together with the tags attached to it.
#[derive(Clone, Debug, PartialEq)]
pub struct FileWithTags {
    pub file: FileInfo,
    pub tags: Vec<TagInfo>,
}

/// Column by which the file list is sorted.
#[derive(Clone, Copy, Debug, PartialEq, Eq, Structural)]
pub enum SortColumn {
    Name,
    Size,
    Date,
    Type,
}

/// Direction of a file-list sort.
#[derive(Clone, Copy, Debug, PartialEq, Eq, Structural)]
pub enum SortDirection {
    Asc,
    Desc,
}

/// One row of the file list as rendered: scan data or database data merged,
/// with the name and extension split out of the path.
#[derive(Clone, Debug, PartialEq)]
pub struct DisplayFile {
    pub path: String,
    pub name: String,
    pub extension: String,
    pub size_bytes: u64,
    pub last_modified: i64,
    pub db_id: Option<u32>,
    pub tags: Vec<TagInfo>,
    pub is_directory: bool,
}

/// Arguments of the tag-creation command.
pub struct CreateTagArgs {
    pub name: String,
    pub parent_id: Option<u32>,
    pub color: Option<String>,
}

/// Arguments of the tag-update command (name and color only; ordering is
/// owned by the move command).
pub struct UpdateTagArgs {
    pub id: u32,
    pub name: String,
    pub color: Option<String>,
}

/// Arguments of the tag-deletion command.
pub struct DeleteTagArgs {
    pub id: u32,
}

/// Arguments of the reparent/reorder command.
pub struct MoveTagArgs {
    pub id: u32,
    pub new_parent_id: Option<u32>,
    pub target_position: i32,
}

/// Arguments for attaching a tag to a file (by path; the file is inserted
/// into the database on first tagging).
pub struct AddFileTagArgs {
    pub file_path: String,
    pub tag_id: u32,
}

/// Arguments for detaching a tag from a file.
pub struct RemoveFileTagArgs {
    pub file_id: u32,
    pub tag_id: u32,
}

/// Arguments for listing the tags of one file.
pub struct GetFileTagsArgs {
    pub file_id: u32,
}

/// Arguments for filtering files by a set of tags, either intersectively
/// (`use_and_logic`) or as a union.
pub struct FilterFilesByTagsArgs {
    pub tag_ids: Vec<u32>,
    pub use_and_logic: bool,
}

/// Arguments of the directory-scan command.
pub struct ScanFilesArgs {
    pub root_path: String,
}

/// Arguments of the open-file command.
pub struct OpenFileArgs {
    pub path: String,
}

} // verus!
