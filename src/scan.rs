use vstd::prelude::*;
use crate::path::{FsPath, PathV, parent_of};
use crate::model::{File, FileV, files_v, opt_text};
use crate::aggregate::{DirInfo, tree_after, types_after, subdir_after};
use crate::views::{
    file_size, dir_size, is_types_order, is_duplicate_groups, groups_v,
};
use crate::model::{dirs_v, types_v};
use crate::order::stable_desc;

verus! {

/// The digest that twox-hash 1.6.3's `xxh3::hash64` gives for `bytes`
/// (its XXH3 64-bit variant with seed 0, whose values may differ from other
/// XXH3 releases).
pub uninterp spec fn xxh3_of(bytes: Seq<u8>) -> u64;

/// The lowercase form of `s`, as Unicode defines it.
pub uninterp spec fn lower_of(s: Seq<char>) -> Seq<char>;

/// The index of the last `.` in `n`, or -1.
pub open spec fn last_dot(n: Seq<char>) -> int
    decreases n.len(),
{
    if n.len() == 0 {
        -1
    } else if n.last() == '.' {
        n.len() - 1
    } else {
        last_dot(n.drop_last())
    }
}

proof fn lemma_last_dot_range(n: Seq<char>)
    ensures
        -1 <= last_dot(n) < n.len(),
    decreases n.len(),
{
    if n.len() > 0 {
        lemma_last_dot_range(n.drop_last());
    }
}

/// The extension of a file name: the text after its last `.`; none when the
/// name has no `.`, when its only `.` is the first character, or when the
/// name is `..`.
pub open spec fn name_extension(n: Seq<char>) -> Option<Seq<char>> {
    if n == seq!['.', '.'] || last_dot(n) <= 0 {
        None
    } else {
        Some(n.subrange(last_dot(n) + 1, n.len() as int))
    }
}

/// The extension key of a file name: its extension, lowercased.
pub open spec fn ext_key(n: Seq<char>) -> Option<Seq<char>> {
    match name_extension(n) {
        Some(e) => Some(lower_of(e)),
        None => None,
    }
}

/// The file name of a path: its last component, empty for a bare anchor.
pub open spec fn file_name(p: PathV) -> Seq<char> {
    if p.1.len() == 0 {
        Seq::empty()
    } else {
        p.1.last()
    }
}

/// The digest of a file's content; 0 when it could not be read.
pub open spec fn content_hash(content: Option<Seq<u8>>) -> u64 {
    match content {
        Some(c) => xxh3_of(c),
        None => 0,
    }
}

/// The record made for a file at `path`.
pub open spec fn file_record(
    path: PathV,
    size: u64,
    modified: u64,
    content: Option<Seq<u8>>,
) -> FileV {
    FileV {
        size,
        ext: ext_key(file_name(path)),
        path,
        modified,
        hash: content_hash(content),
    }
}

/// Relies on twox-hash 1.6.3's `xxh3::hash64` (seed 0) for the content
/// digest: it depends on the bytes alone.
#[verifier::external_body]
fn hash_bytes(b: &[u8]) -> (r: u64)
    ensures
        r == xxh3_of(b@),
{
    twox_hash::xxh3::hash64(b)
}

/// Relies on std's `str::rsplit_once`, which splits a string at the last
/// occurrence of the delimiter, or gives none when it does not occur.
#[verifier::external_body]
fn split_last_dot(s: &str) -> (r: Option<(String, String)>)
    ensures
        r is None ==> last_dot(s@) == -1,
        r matches Some(parts) ==> last_dot(s@) >= 0 && parts.0@ == s@.subrange(0, last_dot(s@))
            && parts.1@ == s@.subrange(last_dot(s@) + 1, s@.len() as int),
{
    s.rsplit_once('.').map(|(a, b)| (a.to_string(), b.to_string()))
}

/// Relies on std's `str::to_lowercase`: the result depends on the characters alone.
#[verifier::external_body]
fn lowercase(s: &str) -> (r: String)
    ensures
        r@ == lower_of(s@),
{
    s.to_lowercase()
}

/// The extension of a file name, as `Path::extension` defines it: the
/// text after the last `.`; none without a `.`, for a name whose only `.`
/// comes first, and for `..`.
fn name_ext(name: &String) -> (r: Option<String>)
    ensures
        opt_text(r) == name_extension(name@),
{
    proof {
        reveal_strlit("..");
    }
    proof {
        lemma_last_dot_range(name@);
    }
    let dots = "..".to_owned();
    assert(dots@ =~= seq!['.', '.']);
    if *name == dots {
        return None;
    }
    match split_last_dot(name.as_str()) {
        Some((before, after)) => {
            let empty = before.as_str().is_empty();
            assert(empty == (before@.len() == 0));
            if empty {
                assert(last_dot(name@) == 0);
                None
            } else {
                assert(last_dot(name@) > 0);
                Some(after)
            }
        },
        None => None,
    }
}

/// The extension key of a file name: its extension, lowercased.
pub fn extension_key(name: &String) -> (r: Option<String>)
    ensures
        opt_text(r) == ext_key(name@),
{
    match name_ext(name) {
        Some(e) => Some(lowercase(e.as_str())),
        None => None,
    }
}

/// One entry of a filesystem walk, as the walk saw it.
pub enum TreeEntry {
    /// A directory.
    Dir(FsPath),
    /// A file whose metadata could be read: its size, its modification time
    /// in seconds since the Unix epoch, and its content if that could be read.
    File { path: FsPath, size: u64, modified: u64, content: Option<Vec<u8>> },
    /// An entry whose metadata could not be read.
    Unreadable(FsPath),
}

/// One entry of an archive: its internal path, whether it is a directory,
/// its compressed size and its decompressed content.
pub struct ArchiveEntry {
    pub name: FsPath,
    pub is_dir: bool,
    pub compressed_size: u64,
    pub content: Vec<u8>,
}

pub open spec fn opt_bytes(c: Option<Vec<u8>>) -> Option<Seq<u8>> {
    match c {
        Some(v) => Some(v@),
        None => None,
    }
}

/// The record for a file at `path` with the given metadata and content.
pub fn make_file(path: FsPath, size: u64, modified: u64, content: Option<&[u8]>) -> (r: File)
    ensures
        r@ == file_record(
            path@,
            size,
            modified,
            match content {
                Some(c) => Some(c@),
                None => None,
            },
        ),
{
    let n = path.parts.len();
    let ext = if n == 0 {
        None
    } else {
        extension_key(&path.parts[n - 1])
    };
    let hash = match content {
        Some(c) => hash_bytes(c),
        None => 0,
    };
    let r = File { size, ext, path, modified, hash };
    proof {
        if n > 0 {
            let name = r.path.parts@[n - 1]@;
            assert(file_name(r.path@) == name);
        }
    }
    r
}

/// Whether a progress report is due: more than `update_rate_ms` has passed
/// since the last one.
pub fn progress_due(elapsed_ms: u128, update_rate_ms: u128) -> (r: bool)
    ensures
        r == (elapsed_ms > update_rate_ms),
{
    elapsed_ms > update_rate_ms
}

impl DirInfo {
    /// Takes one entry of a filesystem walk: a directory is noted under its
    /// parent, a readable file is recorded, an unreadable entry is skipped.
    pub fn record_entry(&mut self, entry: TreeEntry)
        requires
            old(self).wf(),
            entry matches TreeEntry::File { size, .. } ==> old(self).combined_size + size <= u64::MAX,
        ensures
            final(self).wf(),
            final(self).boundary == old(self).boundary,
            final(self).files_by_size == old(self).files_by_size,
            final(self).types_by_size == old(self).types_by_size,
            final(self).dirs_by_size == old(self).dirs_by_size,
            final(self).duplicates == old(self).duplicates,
            match entry {
                TreeEntry::Dir(p) => match parent_of(p@) {
                    Some(q) => {
                        &&& subdir_after(old(self).tree@, final(self).tree@, p@, q)
                        &&& final(self).files == old(self).files
                        &&& final(self).filetypes == old(self).filetypes
                        &&& final(self).combined_size == old(self).combined_size
                    },
                    None => *final(self) == *old(self),
                },
                TreeEntry::File { path, size, modified, content } => {
                    let f = file_record(path@, size, modified, opt_bytes(content));
                    &&& files_v(final(self).files@) == files_v(old(self).files@).push(f)
                    &&& final(self).combined_size == old(self).combined_size + size
                    &&& tree_after(old(self).tree@, final(self).tree@, f, old(self).bound())
                    &&& types_after(old(self).filetypes@, final(self).filetypes@, f)
                },
                TreeEntry::Unreadable(_) => *final(self) == *old(self),
            },
    {
        match entry {
            TreeEntry::Dir(p) => {
                match p.parent() {
                    Some(q) => self.record_subdirectory(&p, &q),
                    None => {},
                }
            },
            TreeEntry::File { path, size, modified, content } => {
                let f = match &content {
                    Some(c) => make_file(path, size, modified, Some(c.as_slice())),
                    None => make_file(path, size, modified, None),
                };
                let ghost old_files = self.files@;
                self.record_file(f);
                assert(files_v(self.files@) =~= files_v(old_files).push(f@));
            },
            TreeEntry::Unreadable(_) => {},
        }
    }
}

/// The sum of the sizes of the file entries of an archive.
pub open spec fn archive_total(entries: Seq<ArchiveEntry>) -> int
    decreases entries.len(),
{
    if entries.len() == 0 {
        0
    } else {
        archive_total(entries.drop_last()) + (if entries.last().is_dir {
            0
        } else {
            entries.last().compressed_size as int
        })
    }
}

/// The records for the file entries of an archive, in order.
pub open spec fn archive_files(entries: Seq<ArchiveEntry>) -> Seq<FileV>
    decreases entries.len(),
{
    if entries.len() == 0 {
        Seq::empty()
    } else {
        let rest = archive_files(entries.drop_last());
        let e = entries.last();
        if e.is_dir {
            rest
        } else {
            rest.push(file_record(e.name@, e.compressed_size, 0, Some(e.content@)))
        }
    }
}

proof fn lemma_archive_total_prefix(entries: Seq<ArchiveEntry>, i: int)
    requires
        0 <= i <= entries.len(),
    ensures
        0 <= archive_total(entries.subrange(0, i)) <= archive_total(entries),
    decreases entries.len() - i,
{
    if i < entries.len() {
        lemma_archive_total_prefix(entries, i + 1);
        assert(entries.subrange(0, i + 1).drop_last() =~= entries.subrange(0, i));
    } else {
        assert(entries.subrange(0, i) =~= entries);
    }
    lemma_archive_total_nonneg(entries.subrange(0, i));
}

proof fn lemma_archive_total_nonneg(entries: Seq<ArchiveEntry>)
    ensures
        archive_total(entries) >= 0,
    decreases entries.len(),
{
    if entries.len() > 0 {
        lemma_archive_total_nonneg(entries.drop_last());
    }
}

/// Aggregates the entries of an archive. Directory entries are skipped;
/// each file entry is recorded with its compressed size, no modification
/// time, and the digest of its content. The archive's root is the empty
/// path, which has no parent, so sizes reach every directory up to it. The
/// derived views are filled at the end.
pub fn scan_archive(entries: Vec<ArchiveEntry>) -> (r: DirInfo)
    requires
        archive_total(entries@) <= u64::MAX,
    ensures
        r.wf(),
        r.boundary is None,
        files_v(r.files@) == archive_files(entries@),
        r.combined_size == archive_total(entries@),
        stable_desc(files_v(r.files_by_size@), files_v(r.files@), file_size()),
        is_types_order(types_v(r.types_by_size@), types_v(r.filetypes@)),
        stable_desc(dirs_v(r.dirs_by_size@), dirs_v(r.tree@), dir_size()),
        is_duplicate_groups(groups_v(r.duplicates@), files_v(r.files@)),
{
    let mut info = DirInfo::new();
    let mut i: usize = 0;
    assert(files_v(info.files@) =~= archive_files(entries@.subrange(0, 0)));
    while i < entries.len()
        invariant
            i <= entries@.len(),
            info.wf(),
            info.boundary is None,
            archive_total(entries@) <= u64::MAX,
            files_v(info.files@) == archive_files(entries@.subrange(0, i as int)),
            info.combined_size == archive_total(entries@.subrange(0, i as int)),
        decreases entries@.len() - i,
    {
        let ghost pre1 = entries@.subrange(0, i + 1);
        assert(pre1.drop_last() =~= entries@.subrange(0, i as int));
        proof {
            lemma_archive_total_prefix(entries@, i + 1);
        }
        let e = &entries[i];
        if !e.is_dir {
            let f = make_file(e.name.copy(), e.compressed_size, 0, Some(e.content.as_slice()));
            let ghost old_files = info.files@;
            info.record_file(f);
            assert(files_v(info.files@) =~= files_v(old_files).push(f@));
        }
        i = i + 1;
    }
    assert(entries@.subrange(0, entries@.len() as int) =~= entries@);
    info.finish();
    info
}

} // verus!
