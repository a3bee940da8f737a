use vstd::prelude::*;
use crate::path::{FsPath, PathV, parent_of};

verus! {

/// A file found by a scan: a filesystem file or an archive entry.
pub struct File {
    /// Size in bytes (the compressed size for an archive entry).
    pub size: u64,
    /// Lowercase extension, none when the name has none.
    pub ext: Option<String>,
    pub path: FsPath,
    /// Last modification, in seconds since the Unix epoch (0 when unknown).
    pub modified: u64,
    /// Digest of the full content.
    pub hash: u64,
}

/// The mathematical value of a [`File`].
pub struct FileV {
    pub size: u64,
    pub ext: Option<Seq<char>>,
    pub path: PathV,
    pub modified: u64,
    pub hash: u64,
}

pub open spec fn opt_text(o: Option<String>) -> Option<Seq<char>> {
    match o {
        Some(s) => Some(s@),
        None => None,
    }
}

pub open spec fn opt_path(o: Option<FsPath>) -> Option<PathV> {
    match o {
        Some(p) => Some(p@),
        None => None,
    }
}

impl View for File {
    type V = FileV;

    open spec fn view(&self) -> FileV {
        FileV {
            size: self.size,
            ext: opt_text(self.ext),
            path: self.path@,
            modified: self.modified,
            hash: self.hash,
        }
    }
}

/// The values of a sequence of files.
pub open spec fn files_v(s: Seq<File>) -> Seq<FileV> {
    s.map_values(|f: File| f@)
}

/// The directory that holds a file: the parent of its path.
pub open spec fn dir_of(f: FileV) -> Option<PathV> {
    parent_of(f.path)
}

/// Sum of the sizes of a sequence of files.
pub open spec fn total_size(s: Seq<FileV>) -> int
    decreases s.len(),
{
    if s.len() == 0 {
        0
    } else {
        total_size(s.drop_last()) + s.last().size
    }
}

impl File {
    /// An equal copy.
    pub fn copy(&self) -> (r: File)
        ensures
            r@ == self@,
    {
        let ext = match &self.ext {
            Some(e) => Some(e.clone()),
            None => None,
        };
        File { size: self.size, ext, path: self.path.copy(), modified: self.modified, hash: self.hash }
    }
}

/// Copies of each file of `v`, in order.
pub fn copy_files(v: &Vec<File>) -> (r: Vec<File>)
    ensures
        files_v(r@) == files_v(v@),
{
    let mut r: Vec<File> = Vec::new();
    let mut i: usize = 0;
    while i < v.len()
        invariant
            i <= v.len(),
            r@.len() == i,
            forall|j: int| 0 <= j < i ==> #[trigger] r@[j]@ == v@[j]@,
        decreases v.len() - i,
    {
        r.push(v[i].copy());
        i = i + 1;
    }
    assert(files_v(r@) =~= files_v(v@));
    r
}

/// One directory of the scanned tree.
pub struct Directory {
    /// Sum of the sizes of the files directly in this directory.
    pub size: u64,
    /// This directory's size plus the combined sizes of its subdirectories,
    /// bounded to the scan root.
    pub combined_size: u64,
    pub path: FsPath,
    /// The files directly in this directory, in the order found.
    pub files: Vec<File>,
    /// The subdirectories reported for this directory, in the order found.
    pub directories: Vec<FsPath>,
    pub parent: Option<FsPath>,
}

/// The mathematical value of a [`Directory`].
pub struct DirectoryV {
    pub size: u64,
    pub combined_size: u64,
    pub path: PathV,
    pub files: Seq<FileV>,
    pub directories: Seq<PathV>,
    pub parent: Option<PathV>,
}

pub open spec fn paths_v(s: Seq<FsPath>) -> Seq<PathV> {
    s.map_values(|p: FsPath| p@)
}

impl View for Directory {
    type V = DirectoryV;

    open spec fn view(&self) -> DirectoryV {
        DirectoryV {
            size: self.size,
            combined_size: self.combined_size,
            path: self.path@,
            files: files_v(self.files@),
            directories: paths_v(self.directories@),
            parent: opt_path(self.parent),
        }
    }
}

/// The values of a sequence of directories.
pub open spec fn dirs_v(s: Seq<Directory>) -> Seq<DirectoryV> {
    s.map_values(|d: Directory| d@)
}

/// A directory first seen at `p`: no size, no files, no subdirectories.
pub open spec fn fresh_dir(p: PathV) -> DirectoryV {
    DirectoryV {
        size: 0,
        combined_size: 0,
        path: p,
        files: Seq::empty(),
        directories: Seq::empty(),
        parent: parent_of(p),
    }
}

/// Copies of each path of `v`, in order.
pub fn copy_paths(v: &Vec<FsPath>) -> (r: Vec<FsPath>)
    ensures
        paths_v(r@) == paths_v(v@),
{
    let mut r: Vec<FsPath> = Vec::new();
    let mut i: usize = 0;
    while i < v.len()
        invariant
            i <= v.len(),
            r@.len() == i,
            forall|j: int| 0 <= j < i ==> #[trigger] r@[j]@ == v@[j]@,
        decreases v.len() - i,
    {
        r.push(v[i].copy());
        i = i + 1;
    }
    assert(paths_v(r@) =~= paths_v(v@));
    r
}

impl Directory {
    /// An empty directory at `path`, with no parent recorded.
    pub fn new(path: FsPath) -> (r: Directory)
        ensures
            r@ == (DirectoryV { parent: None, ..fresh_dir(path@) }),
    {
        let r = Directory {
            size: 0,
            combined_size: 0,
            path,
            files: Vec::new(),
            directories: Vec::new(),
            parent: None,
        };
        assert(files_v(r.files@) =~= Seq::empty());
        assert(paths_v(r.directories@) =~= Seq::empty());
        r
    }

    /// An empty directory at `path` whose parent is the parent of `path`:
    /// the placeholder a tree holds for a directory before it is filled in.
    pub(crate) fn placeholder(path: FsPath) -> (r: Directory)
        ensures
            r@ == fresh_dir(path@),
    {
        let parent = path.parent();
        let mut r = Directory::new(path);
        r.parent = parent;
        r
    }

    /// An equal copy.
    pub fn copy(&self) -> (r: Directory)
        ensures
            r@ == self@,
    {
        let parent = match &self.parent {
            Some(p) => Some(p.copy()),
            None => None,
        };
        Directory {
            size: self.size,
            combined_size: self.combined_size,
            path: self.path.copy(),
            files: copy_files(&self.files),
            directories: copy_paths(&self.directories),
            parent,
        }
    }
}

/// All files that share one lowercase extension.
pub struct FileType {
    /// Sum of the sizes of `files`.
    pub size: u64,
    /// The extension, such as `txt`.
    pub ext: String,
    /// The files with this extension, in the order found.
    pub files: Vec<File>,
}

/// The mathematical value of a [`FileType`].
pub struct FileTypeV {
    pub size: u64,
    pub ext: Seq<char>,
    pub files: Seq<FileV>,
}

impl View for FileType {
    type V = FileTypeV;

    open spec fn view(&self) -> FileTypeV {
        FileTypeV { size: self.size, ext: self.ext@, files: files_v(self.files@) }
    }
}

/// The values of a sequence of file types.
pub open spec fn types_v(s: Seq<FileType>) -> Seq<FileTypeV> {
    s.map_values(|t: FileType| t@)
}

impl FileType {
    /// An equal copy.
    pub fn copy(&self) -> (r: FileType)
        ensures
            r@ == self@,
    {
        FileType { size: self.size, ext: self.ext.clone(), files: copy_files(&self.files) }
    }
}

} // verus!
