use vstd::prelude::*;

verus! {

/// What a stat of a filesystem entry observes, as plain values.
///
/// Timestamps are milliseconds since the Unix epoch; conversion from the
/// platform's clock types happens outside the library.
#[derive(Clone, Copy, PartialEq, Eq, Structural, Debug)]
pub struct DiskMetadata {
    pub is_dir: bool,
    pub is_symlink: bool,
    pub inode: u64,
    pub size_in_bytes: u64,
    pub created_at_ms: i64,
    pub modified_at_ms: i64,
    pub hidden: bool,
}

/// The slice of observed metadata that is persisted with a file path.
#[derive(Clone, Copy, PartialEq, Eq, Structural, Debug)]
pub struct FilePathMetadata {
    pub inode: u64,
    pub size_in_bytes: u64,
    pub created_at_ms: i64,
    pub modified_at_ms: i64,
    pub hidden: bool,
}

impl DiskMetadata {
    /// The persistence-ready projection of an observed entry.
    pub fn to_file_path_metadata(&self) -> (r: FilePathMetadata)
        ensures
            r == (FilePathMetadata {
                inode: self.inode,
                size_in_bytes: self.size_in_bytes,
                created_at_ms: self.created_at_ms,
                modified_at_ms: self.modified_at_ms,
                hidden: self.hidden,
            }),
    {
        FilePathMetadata {
            inode: self.inode,
            size_in_bytes: self.size_in_bytes,
            created_at_ms: self.created_at_ms,
            modified_at_ms: self.modified_at_ms,
            hidden: self.hidden,
        }
    }
}

} // verus!
