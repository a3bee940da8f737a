use vstd::prelude::*;
use crate::path::{FsPath, PathV};
use crate::model::{
    File, FileV, Directory, DirectoryV, FileType, FileTypeV, files_v, dirs_v, types_v, paths_v,
    copy_files,
};
use crate::order::{stable_desc, keyed, pick, order_by_key_desc, lemma_reorder, lemma_keyed_push};
use crate::aggregate::{DirInfo, has_dir};

verus! {

/// A file's size, the key of the file orderings.
pub open spec fn file_size() -> spec_fn(FileV) -> u64 {
    |f: FileV| f.size
}

/// A directory's own size, the key of the directory ordering.
pub open spec fn dir_size() -> spec_fn(DirectoryV) -> u64 {
    |d: DirectoryV| d.size
}

/// A directory's combined size, the key of the subdirectory ordering.
pub open spec fn dir_combined() -> spec_fn(DirectoryV) -> u64 {
    |d: DirectoryV| d.combined_size
}

/// A file type's total size, the key of the file type ordering.
pub open spec fn type_size() -> spec_fn(FileTypeV) -> u64 {
    |t: FileTypeV| t.size
}

/// A file's content hash, the key of duplicate grouping.
pub open spec fn file_hash() -> spec_fn(FileV) -> u64 {
    |f: FileV| f.hash
}

/// `a` is the group `b` with its files ordered by size, largest first.
pub open spec fn members_sorted(a: FileTypeV, b: FileTypeV) -> bool {
    &&& a.size == b.size
    &&& a.ext == b.ext
    &&& stable_desc(a.files, b.files, file_size())
}

/// `r` holds each group of `types` with its files ordered by size, and the
/// groups ordered by total size, largest first.
pub open spec fn is_types_order(r: Seq<FileTypeV>, types: Seq<FileTypeV>) -> bool {
    exists|g: Seq<FileTypeV>|
        #![trigger stable_desc(r, g, type_size())]
        g.len() == types.len() && (forall|i: int|
            0 <= i < g.len() ==> members_sorted(#[trigger] g[i], types[i])) && stable_desc(
            r,
            g,
            type_size(),
        )
}

/// The first node of `tree` at `p`.
pub open spec fn node_of(tree: Seq<Directory>, p: PathV) -> DirectoryV {
    tree[choose|i: int|
        0 <= i < tree.len() && tree[i].path@ == p && forall|j: int|
            0 <= j < i ==> #[trigger] tree[j].path@ != p]@
}

/// The nodes of `tree` at the paths `dirs`, in order, skipping paths the
/// tree does not hold.
pub open spec fn nodes_at(dirs: Seq<PathV>, tree: Seq<Directory>) -> Seq<DirectoryV>
    decreases dirs.len(),
{
    if dirs.len() == 0 {
        Seq::empty()
    } else {
        let rest = nodes_at(dirs.drop_last(), tree);
        if has_dir(tree, dirs.last()) {
            rest.push(node_of(tree, dirs.last()))
        } else {
            rest
        }
    }
}

/// `r` groups `files` by content hash: one entry for each hash that two or
/// more files share, holding those files in order.
pub open spec fn is_duplicate_groups(r: Seq<(u64, Seq<FileV>)>, files: Seq<FileV>) -> bool {
    &&& forall|j: int|
        0 <= j < r.len() ==> (#[trigger] r[j]).1 == keyed(files, file_hash(), r[j].0)
            && r[j].1.len() >= 2
    &&& forall|i: int, j: int| 0 <= i < r.len() && 0 <= j < r.len() && i != j ==> r[i].0 != r[j].0
    &&& forall|h: u64|
        #![trigger keyed(files, file_hash(), h)]
        keyed(files, file_hash(), h).len() >= 2 ==> exists|j: int| 0 <= j < r.len() && r[j].0 == h
}

/// Some entry of `r` is for hash `h`.
pub open spec fn has_group<T>(r: Seq<(u64, T)>, h: u64) -> bool {
    exists|j: int| 0 <= j < r.len() && r[j].0 == h
}

/// Some entry of `r` before position `n` is for hash `h`.
pub open spec fn has_group_before<T>(r: Seq<(u64, T)>, n: int, h: u64) -> bool {
    exists|j: int| 0 <= j < n && j < r.len() && r[j].0 == h
}

/// The values of duplicate groups.
pub open spec fn groups_v(r: Seq<(u64, Vec<File>)>) -> Seq<(u64, Seq<FileV>)> {
    r.map_values(|g: (u64, Vec<File>)| (g.0, files_v(g.1@)))
}

/// Copies of `files`, ordered by size, largest first.
fn sorted_copies(files: &Vec<File>) -> (r: Vec<File>)
    ensures
        stable_desc(files_v(r@), files_v(files@), file_size()),
{
    let mut keys: Vec<u64> = Vec::new();
    let mut i: usize = 0;
    while i < files.len()
        invariant
            i <= files@.len(),
            keys@.len() == i,
            forall|m: int| 0 <= m < i ==> #[trigger] keys@[m] == files@[m].size,
        decreases files@.len() - i,
    {
        keys.push(files[i].size);
        i = i + 1;
    }
    let order = order_by_key_desc(&keys);
    let mut r: Vec<File> = Vec::new();
    let mut j: usize = 0;
    while j < order.len()
        invariant
            j <= order@.len(),
            order@.len() == keys@.len(),
            keys@.len() == files@.len(),
            forall|m: int| 0 <= m < order@.len() ==> (#[trigger] order@[m]) < keys@.len(),
            r@.len() == j,
            forall|m: int| 0 <= m < j ==> (#[trigger] r@[m])@ == files@[order@[m] as int]@,
        decreases order@.len() - j,
    {
        r.push(files[order[j]].copy());
        j = j + 1;
    }
    proof {
        let fv = files_v(files@);
        assert(files_v(r@) =~= pick(fv, order@));
        assert forall|m: int| 0 <= m < fv.len() implies file_size()(#[trigger] fv[m]) == keys@[m] by {}
        lemma_reorder(fv, keys@, file_size(), order@);
    }
    r
}

/// Copies of `dirs`, ordered by own size (`by_combined` false) or by combined
/// size, largest first.
fn sorted_dir_copies(dirs: &Vec<Directory>, by_combined: bool) -> (r: Vec<Directory>)
    ensures
        !by_combined ==> stable_desc(dirs_v(r@), dirs_v(dirs@), dir_size()),
        by_combined ==> stable_desc(dirs_v(r@), dirs_v(dirs@), dir_combined()),
{
    let mut keys: Vec<u64> = Vec::new();
    let mut i: usize = 0;
    while i < dirs.len()
        invariant
            i <= dirs@.len(),
            keys@.len() == i,
            forall|m: int|
                0 <= m < i ==> #[trigger] keys@[m] == (if by_combined {
                    dirs@[m].combined_size
                } else {
                    dirs@[m].size
                }),
        decreases dirs@.len() - i,
    {
        if by_combined {
            keys.push(dirs[i].combined_size);
        } else {
            keys.push(dirs[i].size);
        }
        i = i + 1;
    }
    let order = order_by_key_desc(&keys);
    let mut r: Vec<Directory> = Vec::new();
    let mut j: usize = 0;
    while j < order.len()
        invariant
            j <= order@.len(),
            order@.len() == keys@.len(),
            keys@.len() == dirs@.len(),
            forall|m: int| 0 <= m < order@.len() ==> (#[trigger] order@[m]) < keys@.len(),
            r@.len() == j,
            forall|m: int| 0 <= m < j ==> (#[trigger] r@[m])@ == dirs@[order@[m] as int]@,
        decreases order@.len() - j,
    {
        r.push(dirs[order[j]].copy());
        j = j + 1;
    }
    proof {
        let dv = dirs_v(dirs@);
        assert(dirs_v(r@) =~= pick(dv, order@));
        if by_combined {
            assert forall|m: int| 0 <= m < dv.len() implies dir_combined()(#[trigger] dv[m])
                == keys@[m] by {}
            lemma_reorder(dv, keys@, dir_combined(), order@);
        } else {
            assert forall|m: int| 0 <= m < dv.len() implies dir_size()(#[trigger] dv[m]) == keys@[m] by {}
            lemma_reorder(dv, keys@, dir_size(), order@);
        }
    }
    r
}

impl Directory {
    /// This directory's own files as a directory of their own, named `Files`,
    /// with no subdirectories: its combined size is its own size.
    pub fn files_as_fake_dir(&self) -> (r: Directory)
        ensures
            r@ == (DirectoryV {
                size: self.size,
                combined_size: self.size,
                path: (Seq::empty(), seq!["Files"@]),
                files: self@.files,
                directories: Seq::empty(),
                parent: self@.parent,
            }),
    {
        let mut parts: Vec<String> = Vec::new();
        parts.push("Files".to_owned());
        let parent = match &self.parent {
            Some(p) => Some(p.copy()),
            None => None,
        };
        let r = Directory {
            files: copy_files(&self.files),
            size: self.size,
            combined_size: self.size,
            path: FsPath::new("".to_owned(), parts),
            directories: Vec::new(),
            parent,
        };
        proof {
            reveal_strlit("");
            assert(r.path@.0 =~= Seq::<char>::empty());
            assert(r.path@.1 =~= seq!["Files"@]);
            assert(paths_v(r.directories@) =~= Seq::empty());
        }
        r
    }

    /// The subdirectories of this directory found in `info`'s tree, ordered
    /// by combined size, largest first.
    pub fn sorted_subdirs(&self, info: &DirInfo) -> (r: Vec<Directory>)
        ensures
            stable_desc(dirs_v(r@), nodes_at(paths_v(self.directories@), info.tree@), dir_combined()),
    {
        let mut found: Vec<Directory> = Vec::new();
        let mut i: usize = 0;
        while i < self.directories.len()
            invariant
                i <= self.directories@.len(),
                dirs_v(found@) == nodes_at(paths_v(self.directories@).subrange(0, i as int), info.tree@),
            decreases self.directories@.len() - i,
        {
            let ghost ds = paths_v(self.directories@);
            assert(ds.subrange(0, i + 1).drop_last() =~= ds.subrange(0, i as int));
            match info.find_dir(&self.directories[i]) {
                Some(k) => {
                    let ghost before = found@;
                    found.push(info.tree[k].copy());
                    proof {
                        let p = ds[i as int];
                        assert(has_dir(info.tree@, p));
                        let c = choose|c: int|
                            0 <= c < info.tree@.len() && info.tree@[c].path@ == p && forall|j: int|
                                0 <= j < c ==> #[trigger] info.tree@[j].path@ != p;
                        assert(c == k);
                        assert(dirs_v(found@) =~= dirs_v(before).push(node_of(info.tree@, p)));
                    }
                },
                None => {},
            }
            i = i + 1;
        }
        assert(paths_v(self.directories@).subrange(0, self.directories@.len() as int) =~= paths_v(
            self.directories@,
        ));
        sorted_dir_copies(&found, true)
    }

    /// This directory's own files, ordered by size, largest first.
    pub fn sorted_files(&self) -> (r: Vec<File>)
        ensures
            stable_desc(files_v(r@), self@.files, file_size()),
    {
        sorted_copies(&self.files)
    }
}

/// Groups of files by hash: one entry per hash, in order of first sight.
fn group_by_hash(files: &Vec<File>) -> (r: Vec<(u64, Vec<File>)>)
    ensures
        forall|j: int|
            0 <= j < r@.len() ==> (#[trigger] groups_v(r@)[j]).1 == keyed(
                files_v(files@),
                file_hash(),
                r@[j].0,
            ),
        forall|i: int, j: int| 0 <= i < r@.len() && 0 <= j < r@.len() && i != j ==> r@[i].0 != r@[j].0,
        forall|m: int| 0 <= m < files@.len() ==> has_group(r@, (#[trigger] files@[m]).hash),
{
    let mut groups: Vec<(u64, Vec<File>)> = Vec::new();
    let mut i: usize = 0;
    while i < files.len()
        invariant
            i <= files@.len(),
            forall|j: int|
                0 <= j < groups@.len() ==> (#[trigger] groups_v(groups@)[j]).1 == keyed(
                    files_v(files@).subrange(0, i as int),
                    file_hash(),
                    groups@[j].0,
                ),
            forall|a: int, c: int|
                0 <= a < groups@.len() && 0 <= c < groups@.len() && a != c ==> groups@[a].0
                    != groups@[c].0,
            forall|m: int| 0 <= m < i ==> has_group(groups@, (#[trigger] files@[m]).hash),
        decreases files@.len() - i,
    {
        let ghost g0 = groups@;
        let ghost pre = files_v(files@).subrange(0, i as int);
        let ghost pre1 = files_v(files@).subrange(0, i + 1);
        proof {
            assert(pre1 =~= pre.push(files@[i as int]@));
            assert forall|h: u64| true implies #[trigger] keyed(pre1, file_hash(), h) == (if files@[i as int].hash == h {
                keyed(pre, file_hash(), h).push(files@[i as int]@)
            } else {
                keyed(pre, file_hash(), h)
            }) by {
                lemma_keyed_push(pre, files@[i as int]@, file_hash(), h);
            }
        }
        let h = files[i].hash;
        let mut j: usize = 0;
        while j < groups.len() && groups[j].0 != h
            invariant
                groups@ == g0,
                j <= g0.len(),
                forall|a: int| 0 <= a < j ==> g0[a].0 != h,
            decreases g0.len() - j,
        {
            j = j + 1;
        }
        if j < groups.len() {
            let ghost before = groups_v(groups@)[j as int].1;
            groups[j].1.push(files[i].copy());
            proof {
                let g1 = groups@;
                assert(files_v(g1[j as int].1@) =~= before.push(files@[i as int]@));
                assert forall|a: int| 0 <= a < g1.len() implies (#[trigger] groups_v(g1)[a]).1 == keyed(
                    pre1,
                    file_hash(),
                    g1[a].0,
                ) by {
                    if a != j {
                        assert(g1[a] == g0[a]);
                        assert(groups_v(g0)[a].1 == keyed(pre, file_hash(), g0[a].0));
                    }
                }
                assert forall|m: int| 0 <= m < i + 1 implies has_group(g1, (#[trigger] files@[m]).hash) by {
                    if m < i {
                        let c = choose|c: int| 0 <= c < g0.len() && g0[c].0 == files@[m].hash;
                        assert(g1[c].0 == g0[c].0);
                    } else {
                        assert(g1[j as int].0 == h);
                    }
                }
            }
        } else {
            let mut v: Vec<File> = Vec::new();
            v.push(files[i].copy());
            groups.push((h, v));
            proof {
                let g1 = groups@;
                assert(keyed(pre, file_hash(), h) =~= Seq::<FileV>::empty()) by {
                    if keyed(pre, file_hash(), h).len() > 0 {
                        crate::order::lemma_keyed_member(pre, file_hash(), h, 0);
                        let m = choose|m: int| 0 <= m < pre.len() && pre[m] == keyed(pre, file_hash(), h)[0];
                        assert(pre[m] == files@[m]@);
                        let c = choose|c: int| 0 <= c < g0.len() && g0[c].0 == (#[trigger] files@[m]).hash;
                    }
                }
                assert(files_v(g1.last().1@) =~= seq![files@[i as int]@]);
                assert(keyed(pre, file_hash(), h).push(files@[i as int]@) =~= seq![files@[i as int]@]);
                assert forall|a: int| 0 <= a < g1.len() implies (#[trigger] groups_v(g1)[a]).1 == keyed(
                    pre1,
                    file_hash(),
                    g1[a].0,
                ) by {
                    if a < g0.len() {
                        assert(g1[a] == g0[a]);
                        assert(groups_v(g0)[a].1 == keyed(pre, file_hash(), g0[a].0));
                    }
                }
                assert forall|m: int| 0 <= m < i + 1 implies has_group(g1, (#[trigger] files@[m]).hash) by {
                    if m < i {
                        let c = choose|c: int| 0 <= c < g0.len() && g0[c].0 == files@[m].hash;
                        assert(g1[c] == g0[c]);
                    } else {
                        assert(g1[g0.len() as int].0 == h);
                    }
                }
            }
        }
        i = i + 1;
    }
    assert(files_v(files@).subrange(0, files@.len() as int) =~= files_v(files@));
    groups
}

impl DirInfo {
    /// All files, ordered by size, largest first.
    pub fn files_by_size(&self) -> (r: Vec<File>)
        ensures
            stable_desc(files_v(r@), files_v(self.files@), file_size()),
    {
        sorted_copies(&self.files)
    }

    /// All directories of the tree, ordered by their own size (not their
    /// combined size), largest first.
    pub fn dirs_by_size(&self) -> (r: Vec<Directory>)
        ensures
            stable_desc(dirs_v(r@), dirs_v(self.tree@), dir_size()),
    {
        sorted_dir_copies(&self.tree, false)
    }

    /// All file types, each with its files ordered by size, ordered by total
    /// size, largest first.
    pub fn types_by_size(&self) -> (r: Vec<FileType>)
        ensures
            is_types_order(types_v(r@), types_v(self.filetypes@)),
    {
        let mut groups: Vec<FileType> = Vec::new();
        let mut keys: Vec<u64> = Vec::new();
        let mut i: usize = 0;
        while i < self.filetypes.len()
            invariant
                i <= self.filetypes@.len(),
                groups@.len() == i,
                keys@.len() == i,
                forall|m: int|
                    0 <= m < i ==> members_sorted(
                        (#[trigger] groups@[m])@,
                        self.filetypes@[m]@,
                    ) && keys@[m] == groups@[m].size,
            decreases self.filetypes@.len() - i,
        {
            let t = &self.filetypes[i];
            let g = FileType { size: t.size, ext: t.ext.clone(), files: sorted_copies(&t.files) };
            keys.push(g.size);
            groups.push(g);
            i = i + 1;
        }
        let order = order_by_key_desc(&keys);
        let mut r: Vec<FileType> = Vec::new();
        let mut j: usize = 0;
        while j < order.len()
            invariant
                j <= order@.len(),
                order@.len() == keys@.len(),
                keys@.len() == groups@.len(),
                forall|m: int| 0 <= m < order@.len() ==> (#[trigger] order@[m]) < keys@.len(),
                r@.len() == j,
                forall|m: int| 0 <= m < j ==> (#[trigger] r@[m])@ == groups@[order@[m] as int]@,
            decreases order@.len() - j,
        {
            r.push(groups[order[j]].copy());
            j = j + 1;
        }
        proof {
            let gv = types_v(groups@);
            assert(types_v(r@) =~= pick(gv, order@));
            assert forall|m: int| 0 <= m < gv.len() implies type_size()(#[trigger] gv[m]) == keys@[m] by {}
            lemma_reorder(gv, keys@, type_size(), order@);
            assert forall|m: int| 0 <= m < gv.len() implies members_sorted(
                #[trigger] gv[m],
                types_v(self.filetypes@)[m],
            ) by {
                assert(members_sorted(groups@[m]@, self.filetypes@[m]@));
            }
            assert(stable_desc(types_v(r@), gv, type_size()));
        }
        r
    }

    /// The groups of two or more files that share a content hash.
    pub fn duplicates_from_files(&self) -> (r: Vec<(u64, Vec<File>)>)
        ensures
            is_duplicate_groups(groups_v(r@), files_v(self.files@)),
    {
        let all = group_by_hash(&self.files);
        let ghost fv = files_v(self.files@);
        let mut r: Vec<(u64, Vec<File>)> = Vec::new();
        let mut j: usize = 0;
        while j < all.len()
            invariant
                j <= all@.len(),
                forall|a: int|
                    0 <= a < all@.len() ==> (#[trigger] groups_v(all@)[a]).1 == keyed(fv, file_hash(), all@[a].0),
                forall|a: int, c: int|
                    0 <= a < all@.len() && 0 <= c < all@.len() && a != c ==> all@[a].0 != all@[c].0,
                forall|a: int|
                    0 <= a < r@.len() ==> (#[trigger] groups_v(r@)[a]).1 == keyed(fv, file_hash(), r@[a].0)
                        && groups_v(r@)[a].1.len() >= 2,
                forall|a: int| 0 <= a < r@.len() ==> has_group_before(all@, j as int, (#[trigger] r@[a]).0),
                forall|a: int, c: int|
                    0 <= a < r@.len() && 0 <= c < r@.len() && a != c ==> r@[a].0 != r@[c].0,
                forall|c: int|
                    0 <= c < j && (#[trigger] groups_v(all@)[c]).1.len() >= 2 ==> exists|a: int|
                        0 <= a < r@.len() && r@[a].0 == all@[c].0,
            decreases all@.len() - j,
        {
            if all[j].1.len() >= 2 {
                let ghost r0 = r@;
                let g = (all[j].0, copy_files(&all[j].1));
                r.push(g);
                proof {
                    let r1 = r@;
                    assert(groups_v(r1)[r0.len() as int].1 == groups_v(all@)[j as int].1);
                    assert forall|a: int| 0 <= a < r1.len() implies (#[trigger] groups_v(r1)[a]).1
                        == keyed(fv, file_hash(), r1[a].0) && groups_v(r1)[a].1.len() >= 2 by {
                        if a < r0.len() {
                            assert(r1[a] == r0[a]);
                            assert(groups_v(r0)[a].1 == keyed(fv, file_hash(), r0[a].0));
                        }
                    }
                    assert forall|a: int| 0 <= a < r1.len() implies has_group_before(all@, j + 1, (#[trigger] r1[a]).0) by {
                        if a < r0.len() {
                            assert(r1[a] == r0[a]);
                            assert(has_group_before(all@, j as int, r0[a].0));
                            let c = choose|c: int| 0 <= c < j && c < all@.len() && all@[c].0 == r0[a].0;
                        } else {
                            assert(all@[j as int].0 == r1[a].0);
                        }
                    }
                    assert forall|a: int, c: int|
                        0 <= a < r1.len() && 0 <= c < r1.len() && a != c implies r1[a].0 != r1[c].0 by {
                        if a < r0.len() && c < r0.len() {
                            assert(r1[a] == r0[a] && r1[c] == r0[c]);
                        } else if a < r0.len() {
                            assert(r1[a] == r0[a]);
                            assert(has_group_before(all@, j as int, r0[a].0));
                        } else if c < r0.len() {
                            assert(r1[c] == r0[c]);
                            assert(has_group_before(all@, j as int, r0[c].0));
                        }
                    }
                    assert forall|c: int|
                        0 <= c < j + 1 && (#[trigger] groups_v(all@)[c]).1.len() >= 2 implies exists|a: int|
                            0 <= a < r1.len() && r1[a].0 == all@[c].0 by {
                        if c < j {
                            let a = choose|a: int| 0 <= a < r0.len() && r0[a].0 == all@[c].0;
                            assert(r1[a] == r0[a]);
                        } else {
                            assert(r1[r0.len() as int].0 == all@[c].0);
                        }
                    }
                }
            } else {
                proof {
                    assert forall|a: int| 0 <= a < r@.len() implies has_group_before(all@, j + 1, (#[trigger] r@[a]).0) by {
                        assert(has_group_before(all@, j as int, r@[a].0));
                        let c = choose|c: int| 0 <= c < j && c < all@.len() && all@[c].0 == r@[a].0;
                    }
                }
            }
            j = j + 1;
        }
        proof {
            assert forall|h: u64|
                #![trigger keyed(fv, file_hash(), h)]
                keyed(fv, file_hash(), h).len() >= 2 implies exists|a: int|
                    0 <= a < r@.len() && r@[a].0 == h by {
                crate::order::lemma_keyed_member(fv, file_hash(), h, 0);
                let m = choose|m: int| 0 <= m < fv.len() && fv[m] == keyed(fv, file_hash(), h)[0];
                assert(fv[m] == self.files@[m]@);
                assert(has_group(all@, self.files@[m].hash));
                let c = choose|c: int| 0 <= c < all@.len() && all@[c].0 == self.files@[m].hash;
                assert(groups_v(all@)[c].1 == keyed(fv, file_hash(), h));
            }
            assert forall|a: int| 0 <= a < r@.len() implies (#[trigger] groups_v(r@)[a]).1 == keyed(
                fv,
                file_hash(),
                groups_v(r@)[a].0,
            ) && groups_v(r@)[a].1.len() >= 2 by {}
            let gr = groups_v(r@);
            assert forall|a: int, c: int|
                0 <= a < gr.len() && 0 <= c < gr.len() && a != c implies gr[a].0 != gr[c].0 by {
                assert(gr[a].0 == r@[a].0 && gr[c].0 == r@[c].0);
            }
            assert forall|h: u64|
                #![trigger keyed(fv, file_hash(), h)]
                keyed(fv, file_hash(), h).len() >= 2 implies exists|a: int|
                    0 <= a < gr.len() && gr[a].0 == h by {
                let a = choose|a: int| 0 <= a < r@.len() && r@[a].0 == h;
                assert(gr[a].0 == h);
            }
        }
        r
    }

    /// Fills the derived views from the recorded files and tree: the three
    /// orderings and the duplicate groups.
    pub fn finish(&mut self)
        ensures
            final(self).files == old(self).files,
            final(self).filetypes == old(self).filetypes,
            final(self).tree == old(self).tree,
            final(self).combined_size == old(self).combined_size,
            final(self).boundary == old(self).boundary,
            stable_desc(files_v(final(self).files_by_size@), files_v(old(self).files@), file_size()),
            is_types_order(types_v(final(self).types_by_size@), types_v(old(self).filetypes@)),
            stable_desc(dirs_v(final(self).dirs_by_size@), dirs_v(old(self).tree@), dir_size()),
            is_duplicate_groups(groups_v(final(self).duplicates@), files_v(old(self).files@)),
    {
        self.files_by_size = self.files_by_size();
        self.types_by_size = self.types_by_size();
        self.dirs_by_size = self.dirs_by_size();
        self.duplicates = self.duplicates_from_files();
    }
}

} // verus!
